//! One line of a panel: a file, a directory, or the way up.

use vstd::prelude::*;
use crate::local_time;
use crate::local_time::LocalTime;
use crate::moment::Moment;
use crate::pathname;
use crate::pathname::Style;
use crate::perms::Mode;
use crate::text;
use crate::text::chars;

verus! {

broadcast use vstd::string::group_string_axioms;

#[derive(Debug, Clone, Copy, PartialEq, Eq, Structural)]
pub enum EntryKind {
    /// The synthetic ".." entry that walks to the parent directory.
    Parent,
    Dir,
    File,
}

#[derive(Debug)]
pub struct Entry {
    pub name: String,
    pub path: String,
    pub kind: EntryKind,
    pub size: u64,
    pub modified: Option<Moment>,
    pub is_symlink: bool,
    /// The Unix permission bits, where there are any.
    pub mode: Option<Mode>,
    /// User selection (Insert / Space), as in Norton Commander.
    pub marked: bool,
}

impl Clone for Entry {
    fn clone(&self) -> (r: Entry)
        ensures
            r == *self,
    {
        Entry {
            name: self.name.clone(),
            path: self.path.clone(),
            kind: self.kind,
            size: self.size,
            modified: self.modified,
            is_symlink: self.is_symlink,
            mode: self.mode,
            marked: self.marked,
        }
    }
}

/// Whether a kind of entry is walked into.
pub open spec fn walks_into(kind: EntryKind) -> bool {
    kind != EntryKind::File
}

/// The ending of a file's name in small letters; nothing for a directory and
/// for a name without one.
pub open spec fn entry_ending(style: Style, kind: EntryKind, name: Seq<char>) -> Seq<char> {
    if walks_into(kind) {
        Seq::empty()
    } else {
        match pathname::extension(style, name) {
            Some(ending) => text::lowercase(ending),
            None => Seq::empty(),
        }
    }
}

/// Whether an entry is the way up to a path, and nothing else.
pub open spec fn way_up(entry: Entry, path: Seq<char>) -> bool {
    &&& entry.name@ == ".."@
    &&& entry.path@ == path
    &&& entry.kind == EntryKind::Parent
    &&& entry.size == 0
    &&& entry.modified is None
    &&& !entry.is_symlink
    &&& entry.mode is None
    &&& !entry.marked
}

impl Entry {
    pub fn is_dir(&self) -> (r: bool)
        ensures
            r == walks_into(self.kind),
    {
        match self.kind {
            EntryKind::Dir | EntryKind::Parent => true,
            EntryKind::File => false,
        }
    }

    pub fn is_parent(&self) -> (r: bool)
        ensures
            r == (self.kind == EntryKind::Parent),
    {
        self.kind == EntryKind::Parent
    }

    /// Lowercased extension, empty for directories and extension-less files.
    pub fn extension(&self, style: Style) -> (r: String)
        ensures
            r@ == entry_ending(style, self.kind, self.name@),
    {
        if !self.is_dir() {
            if let Some(ending) = pathname::extension_of(style, self.name.as_str()) {
                return text::to_lowercase(ending.as_str());
            }
        }
        let none: String = String::new();
        assert(none@ =~= Seq::<char>::empty());
        none
    }

    /// The way up to a path.
    pub fn up_to(path: String) -> (r: Entry)
        ensures
            way_up(r, path@),
    {
        Entry {
            name: "..".to_owned(),
            path,
            kind: EntryKind::Parent,
            size: 0,
            modified: None,
            is_symlink: false,
            mode: None,
            marked: false,
        }
    }

    /// The way up from a directory; the root has none.
    pub fn parent_entry(style: Style, current: &str) -> (r: Option<Entry>)
        ensures
            match r {
                Some(entry) => pathname::parent(style, current@) is Some && way_up(
                    entry,
                    pathname::parent(style, current@)->0,
                ),
                None => pathname::parent(style, current@) is None,
            },
    {
        match pathname::parent_of(style, current) {
            Some(parent) => Some(Entry::up_to(parent)),
            None => None,
        }
    }
}

// ---- sizes ------------------------------------------------------------------------------

/// `a / b` to the nearest whole number, a tie to the even one.
pub open spec fn half_even(a: nat, b: nat) -> nat {
    let q = a / b;
    let twice = 2 * (a % b);
    if twice > b || (twice == b && q % 2 == 1) {
        q + 1
    } else {
        q
    }
}

/// The step between the numbers of fifty-three significant bits around `n`.
pub open spec fn double_step(n: nat) -> nat {
    if n < 0x20_0000_0000_0000 {
        1
    } else if n < 0x40_0000_0000_0000 {
        2
    } else if n < 0x80_0000_0000_0000 {
        4
    } else if n < 0x100_0000_0000_0000 {
        8
    } else if n < 0x200_0000_0000_0000 {
        16
    } else if n < 0x400_0000_0000_0000 {
        32
    } else if n < 0x800_0000_0000_0000 {
        64
    } else if n < 0x1000_0000_0000_0000 {
        128
    } else if n < 0x2000_0000_0000_0000 {
        256
    } else if n < 0x4000_0000_0000_0000 {
        512
    } else if n < 0x8000_0000_0000_0000 {
        1024
    } else {
        2048
    }
}

/// A count of bytes, kept to fifty-three significant bits.
pub open spec fn kept_precision(n: nat) -> nat {
    half_even(n, double_step(n)) * double_step(n)
}

/// The power of 1024 for a unit.
pub open spec fn unit_size(unit: nat) -> nat {
    if unit == 0 {
        1
    } else if unit == 1 {
        0x400
    } else if unit == 2 {
        0x10_0000
    } else if unit == 3 {
        0x4000_0000
    } else if unit == 4 {
        0x100_0000_0000
    } else {
        0x4_0000_0000_0000
    }
}

/// The largest unit that a count reaches.
pub open spec fn unit_of(n: nat) -> nat {
    if n < unit_size(1) {
        0
    } else if n < unit_size(2) {
        1
    } else if n < unit_size(3) {
        2
    } else if n < unit_size(4) {
        3
    } else if n < unit_size(5) {
        4
    } else {
        5
    }
}

/// The letter of a unit.
pub open spec fn unit_letter(unit: nat) -> char {
    if unit == 0 {
        'B'
    } else if unit == 1 {
        'K'
    } else if unit == 2 {
        'M'
    } else if unit == 3 {
        'G'
    } else if unit == 4 {
        'T'
    } else {
        'P'
    }
}

/// A size in three or more digits: hundreds of a unit without decimals, tens
/// with one, less with two, rounded to the nearest.
pub open spec fn size_text(bytes: nat) -> Seq<char> {
    if bytes < 1024 {
        text::decimal(bytes)
    } else {
        let n = kept_precision(bytes);
        let unit = unit_of(n);
        let size = unit_size(unit);
        if n >= 100 * size {
            text::decimal(half_even(n, size)).push(unit_letter(unit))
        } else if n >= 10 * size {
            let tenths = half_even(n * 10, size);
            (text::decimal(tenths / 10).push('.') + text::decimal(tenths % 10)).push(
                unit_letter(unit),
            )
        } else {
            let hundredths = half_even(n * 100, size);
            (text::decimal(hundredths / 100).push('.') + text::padded(
                text::decimal(hundredths % 100),
                2,
                '0',
            )).push(unit_letter(unit))
        }
    }
}

fn round_half_even(a: u128, b: u128) -> (r: u128)
    requires
        0 < b <= 0x1_0000_0000_0000_0000,
        a < 0x1_0000_0000_0000_0000_0000,
    ensures
        r == half_even(a as nat, b as nat),
        r <= a / b + 1,
        r <= a + 1,
{
    let q: u128 = a / b;
    let twice: u128 = 2 * (a % b);
    assert(q <= a) by (nonlinear_arith)
        requires
            q == a / b,
            b > 0,
    ;
    if twice > b || (twice == b && q % 2 == 1) {
        q + 1
    } else {
        q
    }
}

fn step_of(n: u64) -> (r: u64)
    ensures
        r == double_step(n as nat),
        1 <= r <= 2048,
{
    if n < 0x20_0000_0000_0000 {
        1
    } else if n < 0x40_0000_0000_0000 {
        2
    } else if n < 0x80_0000_0000_0000 {
        4
    } else if n < 0x100_0000_0000_0000 {
        8
    } else if n < 0x200_0000_0000_0000 {
        16
    } else if n < 0x400_0000_0000_0000 {
        32
    } else if n < 0x800_0000_0000_0000 {
        64
    } else if n < 0x1000_0000_0000_0000 {
        128
    } else if n < 0x2000_0000_0000_0000 {
        256
    } else if n < 0x4000_0000_0000_0000 {
        512
    } else if n < 0x8000_0000_0000_0000 {
        1024
    } else {
        2048
    }
}

fn unit_bytes(unit: u8) -> (r: u128)
    requires
        unit <= 5,
    ensures
        r == unit_size(unit as nat),
        1 <= r <= 0x4_0000_0000_0000,
{
    if unit == 0 {
        1
    } else if unit == 1 {
        0x400
    } else if unit == 2 {
        0x10_0000
    } else if unit == 3 {
        0x4000_0000
    } else if unit == 4 {
        0x100_0000_0000
    } else {
        0x4_0000_0000_0000
    }
}

/// Rounding to fifty-three bits keeps a count near what it was.
proof fn lemma_kept_precision(n: nat)
    requires
        n <= u64::MAX,
    ensures
        kept_precision(n) <= n + 2048,
        n >= 1024 ==> kept_precision(n) >= 1024,
{
    let g = double_step(n);
    let q = n / g;
    assert(q * g <= n < q * g + g) by (nonlinear_arith)
        requires
            g > 0,
            q == n / g,
    ;
    let r = half_even(n, g);
    assert(r == q || r == q + 1);
    assert((q + 1) * g == q * g + g) by (nonlinear_arith);
    if g == 1 {
        assert(n % 1 == 0);
        assert(r * 1 == r);
        assert(q == n) by {
            assert(q * 1 == q);
        }
    } else {
        assert(kept_precision(n) >= q * g);
        assert(n - g < q * g);
    }
}

/// A size the way a panel's column shows it.
pub fn human_size(bytes: u64) -> (r: String)
    ensures
        r@ == size_text(bytes as nat),
{
    if bytes < 1024 {
        return text::decimal_text(bytes);
    }
    let step: u64 = step_of(bytes);
    let steps: u128 = round_half_even(bytes as u128, step as u128);
    proof {
        lemma_kept_precision(bytes as nat);
        assert(steps * step <= (bytes + 1) * 2048) by (nonlinear_arith)
            requires
                steps <= bytes + 1,
                step <= 2048,
                0 <= step,
                0 <= steps,
        ;
    }
    let n: u128 = steps * step as u128;
    assert(n == kept_precision(bytes as nat));
    let (unit, mark): (u8, char) = if n < 0x400 {
        (0, 'B')
    } else if n < 0x10_0000 {
        (1, 'K')
    } else if n < 0x4000_0000 {
        (2, 'M')
    } else if n < 0x100_0000_0000 {
        (3, 'G')
    } else if n < 0x4_0000_0000_0000 {
        (4, 'T')
    } else {
        (5, 'P')
    };
    let size: u128 = unit_bytes(unit);
    assert(unit == unit_of(n as nat) && mark == unit_letter(unit as nat));
    let mut out: String;
    if n >= 100 * size {
        let whole: u128 = round_half_even(n, size);
        proof {
            assert(size >= 1024);
            assert(n / size <= n / 1024) by (nonlinear_arith)
                requires
                    size >= 1024,
            ;
        }
        out = text::decimal_text(whole as u64);
    } else if n >= 10 * size {
        let tenths: u128 = round_half_even(n * 10, size);
        assert((n * 10) / (size as int) <= 1000) by (nonlinear_arith)
            requires
                n < 100 * size,
                size > 0,
        ;
        out = text::decimal_text((tenths / 10) as u64);
        out.push('.');
        out.append(text::decimal_text((tenths % 10) as u64).as_str());
    } else {
        let hundredths: u128 = round_half_even(n * 100, size);
        assert((n * 100) / (size as int) <= 1000) by (nonlinear_arith)
            requires
                n < 10 * size,
                size > 0,
        ;
        out = text::decimal_text((hundredths / 100) as u64);
        out.push('.');
        let rest: String = text::decimal_text((hundredths % 100) as u64);
        out.append(text::pad_start(rest.as_str(), 2, '0').as_str());
    }
    out.push(mark);
    out
}

/// The same, with the unit said where there is no letter to say it.
pub fn size_in_words(bytes: u64) -> (r: String)
    ensures
        r@ == if bytes < 1024 {
            text::decimal(bytes as nat) + " bytes"@
        } else {
            size_text(bytes as nat)
        },
{
    if bytes < 1024 {
        text::concat2(text::decimal_text(bytes).as_str(), " bytes")
    } else {
        human_size(bytes)
    }
}

/// What the size column shows for an entry.
pub fn size_cell(entry: &Entry) -> (r: String)
    ensures
        r@ == match entry.kind {
            EntryKind::Parent => "<UP>"@,
            EntryKind::Dir => "<DIR>"@,
            EntryKind::File => size_text(entry.size as nat),
        },
{
    match entry.kind {
        EntryKind::Parent => "<UP>".to_owned(),
        EntryKind::Dir => "<DIR>".to_owned(),
        EntryKind::File => human_size(entry.size),
    }
}

// ---- dates ------------------------------------------------------------------------------

/// A number below a hundred in two digits.
pub open spec fn two_digits(n: nat) -> Seq<char> {
    text::padded(text::decimal(n), 2, '0')
}

/// A local time as a panel's column shows it: `28.07.26 14:32`.
pub open spec fn column_time(t: LocalTime) -> Seq<char> {
    two_digits(t.day as nat) + "."@ + two_digits(t.month as nat) + "."@ + two_digits(
        (t.year as int % 100) as nat,
    ) + " "@ + two_digits(t.hour as nat) + ":"@ + two_digits(t.minute as nat)
}

/// A number in two digits.
pub fn two_digit_text(n: u64) -> (r: String)
    ensures
        r@ == two_digits(n as nat),
{
    text::pad_start(text::decimal_text(n).as_str(), 2, '0')
}

/// The last two digits of a year, before Christ as well.
fn year_of_century(year: i32) -> (r: u64)
    ensures
        r == year as int % 100,
{
    if year >= 0 {
        (year % 100) as u64
    } else {
        let back: u32 = (-(year as i64)) as u32 % 100;
        if back == 0 {
            0
        } else {
            (100 - back) as u64
        }
    }
}

/// A local time as a panel's column shows it.
pub fn time_text(t: LocalTime) -> (r: String)
    ensures
        r@ == column_time(t),
{
    let mut out: String = text::concat3(
        two_digit_text(t.day as u64).as_str(),
        ".",
        two_digit_text(t.month as u64).as_str(),
    );
    out.append(".");
    out.append(two_digit_text(year_of_century(t.year)).as_str());
    out.append(" ");
    out.append(two_digit_text(t.hour as u64).as_str());
    out.append(":");
    out.append(two_digit_text(t.minute as u64).as_str());
    out
}

/// A moment as a panel's column shows it, in local time; nothing where there
/// is none to show.
///
/// Which local time a moment is depends on the machine, and is less than a day
/// off; what is shown for it is [`column_time`].
pub fn format_time(seconds: Option<i64>) -> (r: String)
    requires
        seconds matches Some(s) ==> local_time::FIRST_SECOND <= s <= local_time::LAST_SECOND,
    ensures
        seconds is None ==> r@ == Seq::<char>::empty(),
        seconds is Some ==> exists|t: LocalTime|
            local_time::well_formed(t) && local_time::less_than_a_day_off(t, seconds->0 as int)
                && r@ == #[trigger] column_time(t),
{
    match seconds {
        Some(seconds) => match local_time::local_time(seconds) {
            Some(t) => time_text(t),
            None => {
                let none: String = String::new();
                none
            },
        },
        None => {
            let none: String = String::new();
            assert(none@ =~= Seq::<char>::empty());
            none
        },
    }
}

// ---- fitting ------------------------------------------------------------------------------

/// A text cut to a width, with `~` for what was cut.
pub open spec fn fitted(s: Seq<char>, width: nat) -> Seq<char> {
    if s.len() <= width {
        s
    } else if width == 0 {
        Seq::empty()
    } else {
        s.take(width - 1).push('~')
    }
}

/// A text cut to a width, with `~` for what was cut.
pub fn fit(text: &str, width: usize) -> (r: String)
    ensures
        r@ == fitted(text@, width as nat),
        r@.len() <= width,
{
    let s: Vec<char> = chars(text);
    if s.len() <= width {
        return text.to_owned();
    }
    if width == 0 {
        let none: String = String::new();
        assert(none@ =~= Seq::<char>::empty());
        return none;
    }
    let mut out: String = text::part(&s, 0, width - 1);
    assert(out@ =~= s@.take(width - 1));
    out.push('~');
    out
}

/// An entry with its texts as characters.
#[verifier::ext_equal]
pub struct EntryView {
    pub name: Seq<char>,
    pub path: Seq<char>,
    pub kind: EntryKind,
    pub size: u64,
    pub modified: Option<Moment>,
    pub is_symlink: bool,
    pub mode: Option<Mode>,
    pub marked: bool,
}

impl View for Entry {
    type V = EntryView;

    open spec fn view(&self) -> EntryView {
        EntryView {
            name: self.name@,
            path: self.path@,
            kind: self.kind,
            size: self.size,
            modified: self.modified,
            is_symlink: self.is_symlink,
            mode: self.mode,
            marked: self.marked,
        }
    }
}

/// Entries with their texts as characters.
pub open spec fn entry_views(entries: Seq<Entry>) -> Seq<EntryView> {
    entries.map_values(|entry: Entry| entry@)
}

/// Rounding is to the nearest, and of two that are as near to the even one.
pub proof fn law_rounding_is_to_the_nearest(a: nat, b: nat)
    requires
        b > 0,
    ensures
        2 * (half_even(a, b) * b) <= 2 * a + b,
        2 * a <= 2 * (half_even(a, b) * b) + b,
        2 * (half_even(a, b) * b) == 2 * a + b || 2 * a == 2 * (half_even(a, b) * b) + b
            ==> half_even(a, b) % 2 == 0,
{
    let q = a / b;
    let r = a % b;
    vstd::arithmetic::div_mod::lemma_fundamental_div_mod(a as int, b as int);
    assert((q + 1) * b == q * b + b) by (nonlinear_arith);
    assert(b * q == q * b) by (nonlinear_arith);
}

/// A size is shown in the unit in which it is at least one and less than 1024,
/// as far as the units go.
pub proof fn law_the_unit_fits_the_size(n: nat)
    requires
        n > 0,
    ensures
        unit_size(unit_of(n)) <= n,
        unit_of(n) < 5 ==> n < 1024 * unit_size(unit_of(n)),
        unit_of(n) <= 5,
        unit_size(0) == 1,
        forall|unit: nat| unit < 5 ==> unit_size(unit + 1) == 1024 * #[trigger] unit_size(unit),
{
}

/// Only a size past 53 bits loses anything before it is shown, and then less
/// than one part in the last of 53 bits.
pub proof fn law_small_sizes_are_kept_whole(n: nat)
    requires
        n < 0x1_0000_0000_0000_0000,
    ensures
        n < 0x20_0000_0000_0000 ==> kept_precision(n) == n,
        2 * kept_precision(n) <= 2 * n + double_step(n),
        2 * n <= 2 * kept_precision(n) + double_step(n),
        double_step(n) * 0x10_0000_0000_0000 <= n || double_step(n) == 1,
{
    law_rounding_is_to_the_nearest(n, double_step(n));
    if n < 0x20_0000_0000_0000 {
        assert(n / 1 == n && n % 1 == 0);
    }
}

/// What is made to fit is no wider than it may be: a name that fits stays, and
/// one that does not keeps its beginning, with a mark for what is cut.
pub proof fn law_what_does_not_fit_is_cut(s: Seq<char>, width: nat)
    ensures
        fitted(s, width).len() <= width,
        s.len() <= width ==> fitted(s, width) == s,
        s.len() > width && width > 0 ==> {
            let out = fitted(s, width);
            &&& out.len() == width
            &&& out.last() == '~'
            &&& out.drop_last() == s.take(width - 1)
        },
{
    if s.len() > width && width > 0 {
        assert(fitted(s, width).drop_last() =~= s.take(width - 1));
    }
}

/// An entry's ending is what follows the last dot of its name, in small
/// letters; a directory has none, and neither has a name whose only dot is in
/// front.
pub proof fn law_directories_have_no_ending(style: Style, name: Seq<char>)
    ensures
        entry_ending(style, EntryKind::Dir, name).len() == 0,
        entry_ending(style, EntryKind::Parent, name).len() == 0,
        pathname::extension(style, name) is None ==> entry_ending(
            style,
            EntryKind::File,
            name,
        ).len() == 0,
        pathname::extension(style, name) matches Some(ending) ==> entry_ending(
            style,
            EntryKind::File,
            name,
        ) == text::lowercase(ending),
{
}

proof fn lemma_exact(k: nat, size: nat, times: nat)
    requires
        size > 0,
    ensures
        half_even(k * size * times, size) == k * times,
{
    assert(k * size * times == (k * times) * size) by (nonlinear_arith);
    vstd::arithmetic::div_mod::lemma_fundamental_div_mod_converse(
        (k * times * size) as int,
        size as int,
        (k * times) as int,
        0,
    );
}

/// So many of a unit are shown as that many of it: as a whole number from a
/// hundred on, and with one decimal or two below.
pub proof fn law_so_many_of_a_unit(k: nat, unit: nat)
    requires
        1 <= unit <= 4,
        1 <= k < 1024,
    ensures
        size_text(k * unit_size(unit)) == if k >= 100 {
            text::decimal(k).push(unit_letter(unit))
        } else if k >= 10 {
            (text::decimal(k).push('.') + text::decimal(0)).push(unit_letter(unit))
        } else {
            (text::decimal(k).push('.') + seq!['0', '0']).push(unit_letter(unit))
        },
{
    let size = unit_size(unit);
    let bytes = k * size;
    assert(size <= bytes && bytes < 1024 * size && bytes >= 1024) by (nonlinear_arith)
        requires
            bytes == k * size,
            1 <= k < 1024,
            size >= 1024,
    ;
    assert(bytes < 0x20_0000_0000_0000);
    law_small_sizes_are_kept_whole(bytes);
    assert(unit_of(bytes) == unit);
    lemma_exact(k, size, 1);
    lemma_exact(k, size, 10);
    lemma_exact(k, size, 100);
    assert(k * size * 1 == bytes);
    assert(bytes >= 100 * size <==> k >= 100) by (nonlinear_arith)
        requires
            bytes == k * size,
            size > 0,
    ;
    assert(bytes >= 10 * size <==> k >= 10) by (nonlinear_arith)
        requires
            bytes == k * size,
            size > 0,
    ;
    assert((k * 10) / 10 == k && (k * 10) % 10 == 0);
    assert((k * 100) / 100 == k && (k * 100) % 100 == 0);
    assert(text::decimal(0) =~= seq!['0']);
    assert(text::padded(text::decimal(0), 2, '0') =~= seq!['0', '0']);
}

proof fn lemma_two_digits(n: nat)
    requires
        n < 100,
    ensures
        two_digits(n).len() == 2,
        text::number(two_digits(n)) == n,
{
    text::lemma_padded_reads(n, 2);
    if n < 10 {
        assert(text::decimal(n).len() == 1);
    } else {
        assert(text::decimal(n / 10).len() == 1);
        assert(text::decimal(n).len() == 2);
    }
}

/// A time reads as day, month, the last two digits of the year, hour and
/// minute, each with two digits at a place of its own.
pub proof fn law_a_time_reads_from_day_to_minute(t: LocalTime)
    requires
        local_time::well_formed(t),
    ensures
        ({
            let s = column_time(t);
            &&& s.len() == 14
            &&& text::number(s.subrange(0, 2)) == t.day
            &&& text::number(s.subrange(3, 5)) == t.month
            &&& text::number(s.subrange(6, 8)) == t.year as int % 100
            &&& text::number(s.subrange(9, 11)) == t.hour
            &&& text::number(s.subrange(12, 14)) == t.minute
        }),
{
    reveal_strlit(".");
    reveal_strlit(" ");
    reveal_strlit(":");
    let year = (t.year as int % 100) as nat;
    lemma_two_digits(t.day as nat);
    lemma_two_digits(t.month as nat);
    lemma_two_digits(year);
    lemma_two_digits(t.hour as nat);
    lemma_two_digits(t.minute as nat);
    let s = column_time(t);
    assert(s.subrange(0, 2) =~= two_digits(t.day as nat));
    assert(s.subrange(3, 5) =~= two_digits(t.month as nat));
    assert(s.subrange(6, 8) =~= two_digits(year));
    assert(s.subrange(9, 11) =~= two_digits(t.hour as nat));
    assert(s.subrange(12, 14) =~= two_digits(t.minute as nat));
}

} // verus!
