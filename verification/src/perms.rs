//! What a file is, beyond its name: permissions, ownership, dates.
//!
//! Unix has the twelve permission bits and an owning user and group. Windows
//! has none of those. So [`Properties`] carries what the platform it was read
//! on actually has, and the parts that are absent are `None` rather than zero.

use vstd::prelude::*;
use crate::entry::EntryKind;
use crate::moment::Moment;
use crate::pathname;
use crate::pathname::Style;
use crate::text;
use crate::text::chars;
use crate::trouble::Trouble;

verus! {

broadcast use vstd::string::group_string_axioms;

/// The set-user-ID bit: run as the file's owner rather than as whoever ran it.
pub const SETUID: u32 = 0o4000;

/// The set-group-ID bit. On a directory, new entries inherit its group.
pub const SETGID: u32 = 0o2000;

/// The sticky bit. On a directory, only an entry's owner may remove it -
/// which is what makes `/tmp` shared without being a free-for-all.
pub const STICKY: u32 = 0o1000;

/// Whose permission a bit is.
#[derive(Debug, Clone, Copy, PartialEq, Eq, Structural)]
pub enum Who {
    Owner,
    Group,
    Other,
}

/// Which permission.
#[derive(Debug, Clone, Copy, PartialEq, Eq, Structural)]
pub enum What {
    Read,
    Write,
    Execute,
}

/// The bit of one permission of one of the three.
pub open spec fn bit_of(who: Who, what: What) -> u32 {
    match (who, what) {
        (Who::Owner, What::Read) => 0o400u32,
        (Who::Owner, What::Write) => 0o200u32,
        (Who::Owner, What::Execute) => 0o100u32,
        (Who::Group, What::Read) => 0o040u32,
        (Who::Group, What::Write) => 0o020u32,
        (Who::Group, What::Execute) => 0o010u32,
        (Who::Other, What::Read) => 0o004u32,
        (Who::Other, What::Write) => 0o002u32,
        (Who::Other, What::Execute) => 0o001u32,
    }
}

impl Who {
    /// The three, in the order they are written.
    pub const ALL: [Who; 3] = [Who::Owner, Who::Group, Who::Other];

    pub fn label(self) -> (r: &'static str)
        ensures
            r@ == match self {
                Who::Owner => "owner"@,
                Who::Group => "group"@,
                Who::Other => "other"@,
            },
    {
        match self {
            Who::Owner => "owner",
            Who::Group => "group",
            Who::Other => "other",
        }
    }
}

impl What {
    /// The three, in the order they are written.
    pub const ALL: [What; 3] = [What::Read, What::Write, What::Execute];

    pub fn label(self) -> (r: &'static str)
        ensures
            r@ == match self {
                What::Read => "read"@,
                What::Write => "write"@,
                What::Execute => "execute"@,
            },
    {
        match self {
            What::Read => "read",
            What::Write => "write",
            What::Execute => "execute",
        }
    }
}

/// Unix permission bits.
#[derive(Debug, Clone, Copy, PartialEq, Eq, Structural)]
pub struct Mode {
    bits: u32,
}

impl Default for Mode {
    fn default() -> (r: Mode)
        ensures
            r.value() == 0,
    {
        Mode { bits: 0 }
    }
}

/// Whether any of some bits is set in others.
pub open spec fn any_of(bits: u32, mask: u32) -> bool {
    bits & mask != 0
}

/// Bits with some others put to a value.
pub open spec fn put(bits: u32, mask: u32, on: bool) -> u32 {
    if on {
        bits | mask
    } else {
        bits & !mask
    }
}

/// The character that stands for a permission that is there, or `-`.
pub open spec fn letter(on: bool, c: char) -> char {
    if on {
        c
    } else {
        '-'
    }
}

/// The execute character of a triple: a special bit replaces it, in capitals
/// where the execute bit underneath is not set.
pub open spec fn execute_letter(execute: bool, special: bool, c: char, capital: char) -> char {
    if special {
        if execute {
            c
        } else {
            capital
        }
    } else {
        letter(execute, 'x')
    }
}

/// The three characters of one of the three.
pub open spec fn triple(bits: u32, who: Who) -> Seq<char> {
    let execute = any_of(bits, bit_of(who, What::Execute));
    seq![
        letter(any_of(bits, bit_of(who, What::Read)), 'r'),
        letter(any_of(bits, bit_of(who, What::Write)), 'w'),
        match who {
            Who::Owner => execute_letter(execute, any_of(bits, SETUID), 's', 'S'),
            Who::Group => execute_letter(execute, any_of(bits, SETGID), 's', 'S'),
            Who::Other => execute_letter(execute, any_of(bits, STICKY), 't', 'T'),
        },
    ]
}

/// The nine characters `ls` writes.
pub open spec fn symbolic_text(bits: u32) -> Seq<char> {
    triple(bits, Who::Owner) + triple(bits, Who::Group) + triple(bits, Who::Other)
}

/// A number in octal, without leading zeros.
pub open spec fn octal_digits(value: nat) -> Seq<char>
    decreases value,
{
    if value < 8 {
        seq![text::digit(value)]
    } else {
        octal_digits(value / 8).push(text::digit(value % 8))
    }
}

/// Three octal digits, or four where a special bit is set.
pub open spec fn octal_text(bits: u32) -> Seq<char> {
    if any_of(bits, 0o7000) {
        text::padded(octal_digits(bits as nat), 4, '0')
    } else {
        text::padded(octal_digits((bits & 0o777) as nat), 3, '0')
    }
}

/// The value of octal digits.
pub open spec fn octal_value(s: Seq<char>) -> nat
    decreases s.len(),
{
    if s.len() == 0 {
        0
    } else {
        octal_value(s.drop_last()) * 8 + (s.last() as nat - 48) as nat
    }
}

/// Whether every character is an octal digit.
pub open spec fn all_octal(s: Seq<char>) -> bool {
    forall|i: int| 0 <= i < s.len() ==> '0' <= #[trigger] s[i] <= '7'
}

/// The bits that a text of one to four octal digits writes.
pub open spec fn octal_parsed(s: Seq<char>) -> Option<nat> {
    let digits = text::trimmed(s);
    if 1 <= digits.len() <= 4 && all_octal(digits) {
        Some(octal_value(digits))
    } else {
        None
    }
}

impl Mode {
    /// The permission bits.
    pub closed spec fn value(self) -> u32 {
        self.bits
    }

    /// The mode with some permission bits.
    pub closed spec fn of_value(bits: u32) -> Mode {
        Mode { bits }
    }

    /// Keep only the permission bits: the rest of `st_mode` is the file type,
    /// which is not something to be edited by a checkbox.
    pub fn from_bits(bits: u32) -> (r: Mode)
        ensures
            r == Mode::of_value(bits & 0o7777),
            r.value() == bits & 0o7777,
            r.value() <= 0o7777,
    {
        assert(bits & 0o7777 <= 0o7777) by (bit_vector);
        Mode { bits: bits & 0o7777 }
    }

    pub fn bits(self) -> (r: u32)
        ensures
            r == self.value(),
    {
        self.bits
    }

    pub fn is_set(self, who: Who, what: What) -> (r: bool)
        ensures
            r == any_of(self.value(), bit_of(who, what)),
    {
        self.bits & bit(who, what) != 0
    }

    pub fn set(&mut self, who: Who, what: What, on: bool)
        ensures
            final(self).value() == put(old(self).value(), bit_of(who, what), on),
    {
        if on {
            self.bits = self.bits | bit(who, what);
        } else {
            self.bits = self.bits & !bit(who, what);
        }
    }

    pub fn has(self, special: u32) -> (r: bool)
        ensures
            r == any_of(self.value(), special),
    {
        self.bits & special != 0
    }

    pub fn set_special(&mut self, special: u32, on: bool)
        ensures
            final(self).value() == put(old(self).value(), special, on),
    {
        if on {
            self.bits = self.bits | special;
        } else {
            self.bits = self.bits & !special;
        }
    }

    fn push_triple(self, who: Who, out: &mut String)
        ensures
            final(out)@ == old(out)@ + triple(self.value(), who),
    {
        out.push(
            if self.is_set(who, What::Read) {
                'r'
            } else {
                '-'
            },
        );
        out.push(
            if self.is_set(who, What::Write) {
                'w'
            } else {
                '-'
            },
        );
        let execute: bool = self.is_set(who, What::Execute);
        let (special, small, capital): (bool, char, char) = match who {
            Who::Owner => (self.has(SETUID), 's', 'S'),
            Who::Group => (self.has(SETGID), 's', 'S'),
            Who::Other => (self.has(STICKY), 't', 'T'),
        };
        out.push(
            if special {
                if execute {
                    small
                } else {
                    capital
                }
            } else if execute {
                'x'
            } else {
                '-'
            },
        );
        assert(out@ =~= old(out)@ + triple(self.value(), who));
    }

    /// `rwxr-xr-x`, the nine characters `ls` writes.
    ///
    /// The special bits are not a tenth column: they replace the execute
    /// character of the triple they belong to.
    pub fn symbolic(self) -> (r: String)
        ensures
            r@ == symbolic_text(self.value()),
    {
        let mut out: String = String::new();
        self.push_triple(Who::Owner, &mut out);
        self.push_triple(Who::Group, &mut out);
        self.push_triple(Who::Other, &mut out);
        assert(out@ =~= symbolic_text(self.value()));
        out
    }

    /// `755`, or `4755` when any of the special bits is set.
    pub fn octal(self) -> (r: String)
        ensures
            r@ == octal_text(self.value()),
    {
        if self.bits & 0o7000 != 0 {
            text::pad_start(octal_of(self.bits).as_str(), 4, '0')
        } else {
            text::pad_start(octal_of(self.bits & 0o777).as_str(), 3, '0')
        }
    }

    /// Read `755`, `0755` or `4755`. `None` when it is not one of those.
    pub fn parse_octal(text: &str) -> (r: Option<Mode>)
        ensures
            match r {
                Some(mode) => octal_parsed(text@) == Some(mode.value() as nat) && mode.value()
                    <= 0o7777,
                None => octal_parsed(text@) is None,
            },
    {
        let s: Vec<char> = chars(text::trim(text));
        if s.len() == 0 || s.len() > 4 {
            return None;
        }
        let mut value: u32 = 0;
        let mut i: usize = 0;
        assert(s@.take(0) =~= Seq::<char>::empty());
        while i < s.len()
            invariant
                i <= s@.len() <= 4,
                s@ == text::trimmed(text@),
                value == octal_value(s@.take(i as int)),
                i == 0 ==> value == 0,
                i == 1 ==> value < 8,
                i == 2 ==> value < 64,
                i == 3 ==> value < 512,
                value < 4096,
                forall|j: int| 0 <= j < i ==> '0' <= #[trigger] s@[j] <= '7',
            decreases s@.len() - i,
        {
            let c: char = s[i];
            if !('0' <= c && c <= '7') {
                assert(!('0' <= s@[i as int] && s@[i as int] <= '7'));
                return None;
            }
            assert(s@.take(i + 1).drop_last() =~= s@.take(i as int));
            value = value * 8 + (c as u32 - 48);
            i += 1;
        }
        assert(s@.take(i as int) =~= s@);
        Some(Mode { bits: value })
    }
}

fn bit(who: Who, what: What) -> (r: u32)
    ensures
        r == bit_of(who, what),
{
    match (who, what) {
        (Who::Owner, What::Read) => 0o400,
        (Who::Owner, What::Write) => 0o200,
        (Who::Owner, What::Execute) => 0o100,
        (Who::Group, What::Read) => 0o040,
        (Who::Group, What::Write) => 0o020,
        (Who::Group, What::Execute) => 0o010,
        (Who::Other, What::Read) => 0o004,
        (Who::Other, What::Write) => 0o002,
        (Who::Other, What::Execute) => 0o001,
    }
}

fn octal_of(value: u32) -> (r: String)
    ensures
        r@ == octal_digits(value as nat),
    decreases value,
{
    if value < 8 {
        let mut r: String = String::new();
        r.push(text::digit_char(value as u8));
        assert(r@ =~= seq![text::digit(value as nat)]);
        r
    } else {
        let mut r: String = octal_of(value / 8);
        r.push(text::digit_char((value % 8) as u8));
        r
    }
}

/// The kind character `ls` puts before the permissions.
pub fn kind_char(kind: EntryKind, is_symlink: bool) -> (r: char)
    ensures
        r == if is_symlink {
            'l'
        } else if kind == EntryKind::File {
            '-'
        } else {
            'd'
        },
{
    if is_symlink {
        return 'l';
    }
    match kind {
        EntryKind::Dir | EntryKind::Parent => 'd',
        EntryKind::File => '-',
    }
}

/// Everything the properties dialog shows.
#[derive(Debug, Clone, PartialEq, Eq)]
pub struct Properties {
    pub path: String,
    pub kind: EntryKind,
    pub size: u64,
    pub modified: Option<Moment>,
    pub accessed: Option<Moment>,
    pub created: Option<Moment>,
    pub is_symlink: bool,
    /// Where a symlink points, which is the thing you opened it to find out.
    pub link_target: Option<String>,
    /// Unix only.
    pub mode: Option<Mode>,
    pub owner: Option<String>,
    pub group: Option<String>,
    /// Everywhere, and the only one Windows has that is worth a checkbox.
    pub readonly: bool,
}

impl Properties {
    /// The name to put at the top of the dialog.
    pub fn name(&self, style: Style) -> (r: String)
        ensures
            r@ == match pathname::file_name(style, self.path@) {
                Some(name) => name,
                None => self.path@,
            },
    {
        match pathname::file_name_of(style, self.path.as_str()) {
            Some(name) => name,
            None => self.path.clone(),
        }
    }
}

/// The name on a line of a `passwd`-format file, if the line is about an id:
/// the name comes first and the number third.
pub open spec fn named_on(line: Seq<char>, id: u32) -> Option<Seq<char>> {
    let fields = text::split(line, ':');
    if fields.len() > 2 && text::parsed(text::trimmed(fields[2]), u32::MAX as nat) == Some(
        id as nat,
    ) {
        Some(fields[0])
    } else {
        None
    }
}

/// The name on the first line at or after `from` that is about an id.
pub open spec fn first_named(lines: Seq<Seq<char>>, id: u32, from: int) -> Option<Seq<char>>
    decreases lines.len() - from,
{
    if from >= lines.len() {
        None
    } else if named_on(lines[from], id) is Some {
        named_on(lines[from], id)
    } else {
        first_named(lines, id, from + 1)
    }
}

/// A user or group name for an id, from the text of a `passwd`-format file.
///
/// An id with no entry there has no name; the caller shows the number.
pub fn name_in(text: &str, id: u32) -> (r: Option<String>)
    ensures
        match r {
            Some(name) => first_named(text::lines(text@), id, 0) == Some(name@),
            None => first_named(text::lines(text@), id, 0) is None,
        },
{
    let lines: Vec<String> = text::lines_of(text);
    let ghost all = text::views(lines@);
    let mut i: usize = 0;
    while i < lines.len()
        invariant
            i <= lines@.len(),
            all == text::views(lines@),
            all == text::lines(text@),
            first_named(all, id, 0) == first_named(all, id, i as int),
        decreases lines@.len() - i,
    {
        let fields: Vec<String> = text::split_text(lines[i].as_str(), ':');
        let ghost cut = text::views(fields@);
        assert(all[i as int] == lines@[i as int]@);
        if fields.len() > 2 {
            assert(cut[2] == fields@[2]@ && cut[0] == fields@[0]@);
            match text::parse_unsigned(text::trim(fields[2].as_str()), u32::MAX as u64) {
                Some(number) => {
                    if number == id as u64 {
                        return Some(fields[0].clone());
                    }
                },
                None => {},
            }
        }
        i += 1;
    }
    None
}

/// What the user or group of an id is called: its name in the text of a
/// `passwd`-format file, or its number where there is no text or no such name.
pub open spec fn called(id: u32, text: Option<Seq<char>>) -> Seq<char> {
    match text {
        Some(text) => match first_named(text::lines(text), id, 0) {
            Some(name) => name,
            None => text::decimal(id as nat),
        },
        None => text::decimal(id as nat),
    }
}

/// What to call the user or group of an id: its name in a `passwd`-format
/// file, or its number where the file could not be read or does not know it.
pub fn name_for(id: u32, text: Option<&str>) -> (r: String)
    ensures
        r@ == called(id, text::maybe(text)),
{
    if let Some(text) = text {
        if let Some(name) = name_in(text, id) {
            return name;
        }
    }
    text::decimal_text(id as u64)
}

/// What the file system says of a file: of a link, the link itself.
#[derive(Debug, Clone, PartialEq, Eq)]
pub struct Looked {
    pub is_dir: bool,
    pub is_symlink: bool,
    pub size: u64,
    pub modified: Option<Moment>,
    pub accessed: Option<Moment>,
    pub created: Option<Moment>,
    /// Where it points, read as a link.
    pub link_target: Option<String>,
    /// The mode as the system keeps it, where it keeps one.
    pub mode: Option<u32>,
    pub owner: Option<u32>,
    pub group: Option<u32>,
    pub readonly: bool,
}

/// What is known of a file, from what the file system said of it and the
/// texts of the files that name the users and the groups.
pub open spec fn known(
    path: Seq<char>,
    looked: Looked,
    users: Option<Seq<char>>,
    groups: Option<Seq<char>>,
    properties: Properties,
) -> bool {
    &&& properties.path@ == path
    &&& properties.kind == if looked.is_dir {
        EntryKind::Dir
    } else {
        EntryKind::File
    }
    &&& properties.size == looked.size
    &&& properties.modified == looked.modified
    &&& properties.accessed == looked.accessed
    &&& properties.created == looked.created
    &&& properties.is_symlink == looked.is_symlink
    &&& text::optional(properties.link_target) == if looked.is_symlink {
        text::optional(looked.link_target)
    } else {
        None
    }
    &&& properties.mode == match looked.mode {
        Some(bits) => Some(Mode::of_value(bits & 0o7777)),
        None => None,
    }
    &&& text::optional(properties.owner) == match looked.owner {
        Some(id) => Some(called(id, users)),
        None => None,
    }
    &&& text::optional(properties.group) == match looked.group {
        Some(id) => Some(called(id, groups)),
        None => None,
    }
    &&& properties.readonly == looked.readonly
}

/// Everything about the file at `path`, from what the file system said when
/// it was asked; where it could not say, why not.
pub fn read(
    path: &str,
    looked: Result<Looked, Trouble>,
    users: Option<&str>,
    groups: Option<&str>,
) -> (r: Result<Properties, Trouble>)
    ensures
        match looked {
            Ok(looked) => r matches Ok(properties) && known(
                path@,
                looked,
                text::maybe(users),
                text::maybe(groups),
                properties,
            ),
            Err(why) => r == Err::<Properties, Trouble>(why),
        },
{
    let looked: Looked = match looked {
        Ok(looked) => looked,
        Err(why) => return Err(why),
    };
    Ok(
        Properties {
            path: path.to_owned(),
            kind: if looked.is_dir {
                EntryKind::Dir
            } else {
                EntryKind::File
            },
            size: looked.size,
            modified: looked.modified,
            accessed: looked.accessed,
            created: looked.created,
            is_symlink: looked.is_symlink,
            link_target: if looked.is_symlink {
                looked.link_target
            } else {
                None
            },
            mode: match looked.mode {
                Some(bits) => Some(Mode::from_bits(bits)),
                None => None,
            },
            owner: match looked.owner {
                Some(id) => Some(name_for(id, users)),
                None => None,
            },
            group: match looked.group {
                Some(id) => Some(name_for(id, groups)),
                None => None,
            },
            readonly: looked.readonly,
        },
    )
}

// ---- laws ----------------------------------------------------------------------------

proof fn lemma_octal_digits(value: nat)
    ensures
        octal_digits(value).len() >= 1,
        value < 4096 ==> octal_digits(value).len() <= 4,
        value < 512 ==> octal_digits(value).len() <= 3,
        value < 64 ==> octal_digits(value).len() <= 2,
        value < 8 ==> octal_digits(value).len() <= 1,
        all_octal(octal_digits(value)),
        octal_value(octal_digits(value)) == value,
    decreases value,
{
    let all = octal_digits(value);
    if value < 8 {
        assert(all.drop_last() =~= Seq::<char>::empty());
        assert(octal_value(all.drop_last()) == 0);
    } else {
        let front = octal_digits(value / 8);
        lemma_octal_digits(value / 8);
        assert(all.drop_last() =~= front);
        assert(all.last() == text::digit(value % 8));
        assert forall|i: int| 0 <= i < all.len() implies '0' <= #[trigger] all[i] <= '7' by {
            if i < front.len() {
                assert(all[i] == front[i]);
            }
        }
    }
}

proof fn lemma_leading_zeros(s: Seq<char>, width: nat)
    requires
        s.len() >= 1,
        all_octal(s),
    ensures
        octal_value(text::padded(s, width, '0')) == octal_value(s),
        all_octal(text::padded(s, width, '0')),
    decreases s.len(),
{
    let all = text::padded(s, width, '0');
    if s.len() < width {
        let zeros = Seq::new((width - s.len()) as nat, |i: int| '0');
        lemma_zeros(zeros);
        lemma_after_zeros(zeros, s);
        assert forall|i: int| 0 <= i < all.len() implies '0' <= #[trigger] all[i] <= '7' by {
            if i >= zeros.len() {
                assert(all[i] == s[i - zeros.len()]);
            }
        }
    }
}

proof fn lemma_zeros(zeros: Seq<char>)
    requires
        forall|i: int| 0 <= i < zeros.len() ==> zeros[i] == '0',
    ensures
        octal_value(zeros) == 0,
    decreases zeros.len(),
{
    if zeros.len() > 0 {
        lemma_zeros(zeros.drop_last());
    }
}

proof fn lemma_after_zeros(zeros: Seq<char>, s: Seq<char>)
    requires
        octal_value(zeros) == 0,
    ensures
        octal_value(zeros + s) == octal_value(s),
    decreases s.len(),
{
    if s.len() == 0 {
        assert(zeros + s =~= zeros);
    } else {
        assert((zeros + s).drop_last() =~= zeros + s.drop_last());
        lemma_after_zeros(zeros, s.drop_last());
    }
}

/// The octal of a mode reads back as the mode.
pub proof fn law_octal_reads_back(bits: u32)
    requires
        bits <= 0o7777,
    ensures
        octal_parsed(octal_text(bits)) == Some(bits as nat),
{
    let s = octal_text(bits);
    assert(bits <= 0o7777 && bits & 0o7000 == 0 ==> bits & 0o777 == bits && bits < 512)
        by (bit_vector);
    assert(bits & 0o777 < 512) by (bit_vector);
    let value: nat = if any_of(bits, 0o7000) {
        bits as nat
    } else {
        (bits & 0o777) as nat
    };
    lemma_octal_digits(value);
    lemma_leading_zeros(octal_digits(value), 4);
    lemma_leading_zeros(octal_digits(value), 3);
    assert('0' <= s[0] <= '7');
    assert('0' <= s[s.len() - 1] <= '7');
    text::lemma_trimmed_fixed(s);
}

/// Setting a permission sets it and leaves every other as it was.
pub proof fn law_every_bit_is_its_own(bits: u32, who: Who, what: What, on: bool)
    ensures
        any_of(put(bits, bit_of(who, what), on), bit_of(who, what)) == on,
        forall|other: Who, which: What|
            (other != who || which != what) ==> #[trigger] any_of(
                put(bits, bit_of(who, what), on),
                bit_of(other, which),
            ) == any_of(bits, bit_of(other, which)),
        any_of(put(bits, bit_of(who, what), on), SETUID) == any_of(bits, SETUID),
        any_of(put(bits, bit_of(who, what), on), SETGID) == any_of(bits, SETGID),
        any_of(put(bits, bit_of(who, what), on), STICKY) == any_of(bits, STICKY),
{
    let mask = bit_of(who, what);
    lemma_put(bits, mask, on);
    assert forall|other: Who, which: What| (other != who || which != what) implies #[trigger] any_of(
        put(bits, mask, on),
        bit_of(other, which),
    ) == any_of(bits, bit_of(other, which)) by {
        let single = bit_of(other, which);
        lemma_single_bits(mask, single);
        lemma_put_apart(bits, mask, single, on);
    }
    lemma_special_bits(mask);
    lemma_put_apart(bits, mask, SETUID, on);
    lemma_put_apart(bits, mask, SETGID, on);
    lemma_put_apart(bits, mask, STICKY, on);
}

spec fn is_grid_bit(mask: u32) -> bool {
    ||| mask == 0o400
    ||| mask == 0o200
    ||| mask == 0o100
    ||| mask == 0o040
    ||| mask == 0o020
    ||| mask == 0o010
    ||| mask == 0o004
    ||| mask == 0o002
    ||| mask == 0o001
}

proof fn lemma_put(bits: u32, mask: u32, on: bool)
    requires
        mask != 0,
    ensures
        any_of(put(bits, mask, on), mask) == on,
{
    assert(mask != 0 ==> (bits | mask) & mask != 0) by (bit_vector);
    assert((bits & !mask) & mask == 0) by (bit_vector);
}

proof fn lemma_put_apart(bits: u32, mask: u32, single: u32, on: bool)
    requires
        mask & single == 0,
    ensures
        any_of(put(bits, mask, on), single) == any_of(bits, single),
{
    assert(mask & single == 0 ==> (bits | mask) & single == bits & single) by (bit_vector);
    assert(mask & single == 0 ==> (bits & !mask) & single == bits & single) by (bit_vector);
}

proof fn lemma_single_bits(a: u32, b: u32)
    requires
        is_grid_bit(a),
        is_grid_bit(b),
        a != b,
    ensures
        a & b == 0,
{
    assert((a == 0o400 || a == 0o200 || a == 0o100 || a == 0o040 || a == 0o020 || a == 0o010 || a
        == 0o004 || a == 0o002 || a == 0o001) && (b == 0o400 || b == 0o200 || b == 0o100 || b
        == 0o040 || b == 0o020 || b == 0o010 || b == 0o004 || b == 0o002 || b == 0o001) && a != b
        ==> a & b == 0) by (bit_vector);
}

proof fn lemma_special_bits(a: u32)
    requires
        is_grid_bit(a),
    ensures
        a & SETUID == 0,
        a & SETGID == 0,
        a & STICKY == 0,
{
    assert((a == 0o400 || a == 0o200 || a == 0o100 || a == 0o040 || a == 0o020 || a == 0o010 || a
        == 0o004 || a == 0o002 || a == 0o001) ==> a & 0o4000 == 0 && a & 0o2000 == 0 && a & 0o1000
        == 0) by (bit_vector);
}

/// The bits of the three triples are the same bits, one octal digit apart:
/// four for reading, two for writing and one for executing.
pub proof fn law_each_triple_is_an_octal_digit(what: What)
    ensures
        bit_of(Who::Owner, what) == 64 * bit_of(Who::Other, what),
        bit_of(Who::Group, what) == 8 * bit_of(Who::Other, what),
        bit_of(Who::Other, What::Read) == 4,
        bit_of(Who::Other, What::Write) == 2,
        bit_of(Who::Other, What::Execute) == 1,
{
}

/// The nine letters of a mode say each bit by its place: a letter where the
/// bit is set and a dash where it is not. A special bit shows in the place of
/// the execute bit of its triple, small where that is set and capital where
/// it is not.
pub proof fn law_letters_say_the_bits(bits: u32, who: Who)
    ensures
        symbolic_text(bits).len() == 9,
        ({
            let at = match who {
                Who::Owner => 0int,
                Who::Group => 3,
                Who::Other => 6,
            };
            let special = match who {
                Who::Owner => bits & 0o4000 != 0,
                Who::Group => bits & 0o2000 != 0,
                Who::Other => bits & 0o1000 != 0,
            };
            let mark = if who == Who::Other {
                ('t', 'T')
            } else {
                ('s', 'S')
            };
            let s = symbolic_text(bits);
            let execute = bits & bit_of(who, What::Execute) != 0;
            &&& s[at] == if bits & bit_of(who, What::Read) != 0 {
                'r'
            } else {
                '-'
            }
            &&& s[at + 1] == if bits & bit_of(who, What::Write) != 0 {
                'w'
            } else {
                '-'
            }
            &&& s[at + 2] == if special && execute {
                mark.0
            } else if special {
                mark.1
            } else if execute {
                'x'
            } else {
                '-'
            }
        }),
{
}

/// The name of an id is the first field of the first line whose third field
/// is the id; where there is none, the number stands for it.
pub proof fn law_an_id_has_the_name_of_its_line(lines: Seq<Seq<char>>, id: u32)
    ensures
        match first_named(lines, id, 0) {
            Some(name) => exists|i: int|
                0 <= i < lines.len() && named_on(#[trigger] lines[i], id) == Some(name)
                    && forall|j: int| 0 <= j < i ==> named_on(#[trigger] lines[j], id) is None,
            None => forall|i: int| 0 <= i < lines.len() ==> named_on(#[trigger] lines[i], id) is None,
        },
{
    lemma_first_named_is(lines, id, 0);
}

proof fn lemma_first_named_is(lines: Seq<Seq<char>>, id: u32, from: int)
    requires
        0 <= from <= lines.len(),
    ensures
        match first_named(lines, id, from) {
            Some(name) => exists|i: int|
                from <= i < lines.len() && named_on(#[trigger] lines[i], id) == Some(name)
                    && forall|j: int| from <= j < i ==> named_on(#[trigger] lines[j], id) is None,
            None => forall|i: int|
                from <= i < lines.len() ==> named_on(#[trigger] lines[i], id) is None,
        },
    decreases lines.len() - from,
{
    if from < lines.len() {
        if named_on(lines[from], id) is Some {
            assert(named_on(lines[from], id) == first_named(lines, id, from));
        } else {
            lemma_first_named_is(lines, id, from + 1);
            if let Some(name) = first_named(lines, id, from + 1) {
                let i = choose|i: int|
                    from + 1 <= i < lines.len() && named_on(#[trigger] lines[i], id) == Some(name)
                        && forall|j: int|
                        from + 1 <= j < i ==> named_on(#[trigger] lines[j], id) is None;
                assert(named_on(lines[i], id) == Some(name));
            }
        }
    }
}

/// A line names an id where its third field is that number, whatever the
/// second is and whatever follows.
pub proof fn law_a_line_names_its_id(
    name: Seq<char>,
    second: Seq<char>,
    number: u32,
    rest: Seq<char>,
    id: u32,
)
    requires
        !name.contains(':'),
        !second.contains(':'),
    ensures
        named_on(
            name + seq![':'] + second + seq![':'] + text::decimal(number as nat) + seq![':'] + rest,
            id,
        ) == if number == id {
            Some(name)
        } else {
            None
        },
{
    let digits = text::decimal(number as nat);
    text::lemma_decimal_reads(number as nat);
    let third = digits + seq![':'] + rest;
    let tail = second + seq![':'] + third;
    let line = name + seq![':'] + second + seq![':'] + digits + seq![':'] + rest;
    assert(line =~= name + seq![':'] + tail);
    assert forall|j: int| 0 <= j < name.len() implies name[j] != ':' by {
        assert(name.contains(name[j]));
    }
    assert forall|j: int| 0 <= j < second.len() implies second[j] != ':' by {
        assert(second.contains(second[j]));
    }
    assert forall|j: int| 0 <= j < digits.len() implies digits[j] != ':' by {
        assert('0' <= digits[j] <= '9');
    }
    text::lemma_split_at(line, ':', name.len() as int);
    assert(line.take(name.len() as int) =~= name);
    assert(line.skip(name.len() as int + 1) =~= tail);
    text::lemma_split_at(tail, ':', second.len() as int);
    assert(tail.take(second.len() as int) =~= second);
    assert(tail.skip(second.len() as int + 1) =~= third);
    text::lemma_split_at(third, ':', digits.len() as int);
    assert(third.take(digits.len() as int) =~= digits);
    let fields = text::split(line, ':');
    assert(fields[0] == name && fields[2] == digits);
    assert('0' <= digits[0] <= '9' && '0' <= digits[digits.len() - 1] <= '9');
    text::lemma_trimmed_fixed(digits);
    text::law_numbers_read_back(number as nat, u32::MAX as nat, digits);
}

/// The octal of a mode has three digits, and four where a special bit is set;
/// and what is read is one to four octal digits, with space around them at
/// the most.
pub proof fn law_an_octal_has_three_digits_or_four(bits: u32, s: Seq<char>)
    requires
        bits <= 0o7777,
    ensures
        octal_text(bits).len() == if bits & 0o7000 != 0 {
            4nat
        } else {
            3
        },
        octal_parsed(s) is Some <==> 1 <= text::trimmed(s).len() <= 4 && forall|i: int|
            0 <= i < text::trimmed(s).len() ==> '0' <= #[trigger] text::trimmed(s)[i] <= '7',
{
    assert(bits & 0o777 < 512) by (bit_vector);
    let small = (bits & 0o777) as nat;
    lemma_octal_len(small);
    lemma_octal_len(bits as nat);
}

proof fn lemma_octal_len(n: nat)
    requires
        n < 4096,
    ensures
        octal_digits(n).len() <= 4,
        n < 512 ==> octal_digits(n).len() <= 3,
{
    assert(octal_digits(n / 512).len() == 1);
    assert(n < 64 ==> octal_digits(n / 8).len() == 1);
    if n >= 8 {
        assert(octal_digits(n).len() == octal_digits(n / 8).len() + 1);
        let m = n / 8;
        if m >= 8 {
            assert(octal_digits(m).len() == octal_digits(m / 8).len() + 1);
            let k = m / 8;
            if k >= 8 {
                assert(octal_digits(k).len() == octal_digits(k / 8).len() + 1);
                assert(k / 8 < 8);
                assert(octal_digits(k / 8).len() == 1);
            } else {
                assert(octal_digits(k).len() == 1);
            }
        }
    }
}

} // verus!
