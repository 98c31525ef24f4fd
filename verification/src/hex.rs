//! Showing a file as bytes, and overwriting them, for the files that are not
//! text.
//!
//! The layout is an offset, sixteen bytes in two groups of eight, and the same
//! sixteen bytes again as characters with the unprintable ones as dots. Rows
//! are at fixed offsets, so the window on screen is the only part that is ever
//! read.

use vstd::prelude::*;
use crate::text;
use crate::text::chars;

verus! {

broadcast use vstd::string::group_string_axioms;

/// Bytes to a row.
pub const PER_ROW: usize = 16;

// ---- rows -------------------------------------------------------------------------------------

/// One row of the dump: where it starts, and what is there.
#[derive(Debug, Clone, PartialEq, Eq)]
pub struct Row {
    pub offset: u64,
    pub bytes: Vec<u8>,
}

/// One row of the dump, with its bytes as a sequence.
#[verifier::ext_equal]
pub struct RowView {
    pub offset: u64,
    pub bytes: Seq<u8>,
}

impl View for Row {
    type V = RowView;

    open spec fn view(&self) -> RowView {
        RowView { offset: self.offset, bytes: self.bytes@ }
    }
}

/// Rows with their bytes as sequences.
pub open spec fn row_views(rows: Seq<Row>) -> Seq<RowView> {
    rows.map_values(|row: Row| row@)
}

/// A byte as two hexadecimal digits.
pub open spec fn byte_pair(byte: u8) -> Seq<char> {
    seq![text::small_hex((byte / 16) as nat), text::small_hex((byte % 16) as nat)]
}

/// The pair at a place, blank past the end of a short row.
pub open spec fn pair_at(bytes: Seq<u8>, at: int) -> Seq<char> {
    if 0 <= at < bytes.len() {
        byte_pair(bytes[at])
    } else {
        "  "@
    }
}

/// The first `count` cells of the hex column, each with the space behind it,
/// and one more between the groups of eight.
pub open spec fn hex_cells(bytes: Seq<u8>, count: nat) -> Seq<char>
    decreases count,
{
    if count == 0 {
        Seq::empty()
    } else {
        let cell = hex_cells(bytes, (count - 1) as nat) + pair_at(bytes, count - 1) + seq![' '];
        if count == 8 {
            cell.push(' ')
        } else {
            cell
        }
    }
}

/// The hex column of a row.
pub open spec fn hex_column(bytes: Seq<u8>) -> Seq<char> {
    hex_cells(bytes, 16).drop_last()
}

/// A byte as the text column shows it.
pub open spec fn shown_char(byte: u8) -> char {
    if 0x20 <= byte <= 0x7e {
        byte as char
    } else {
        '.'
    }
}

/// The text column of a row.
pub open spec fn text_column(bytes: Seq<u8>) -> Seq<char> {
    bytes.map_values(|byte: u8| shown_char(byte))
}

fn pair_of(byte: u8) -> (r: String)
    ensures
        r@ == byte_pair(byte),
{
    let mut r: String = String::new();
    r.push(text::small_hex_char(byte / 16));
    r.push(text::small_hex_char(byte % 16));
    assert(r@ =~= byte_pair(byte));
    r
}

impl Row {
    /// The hex column, padded so a short last row keeps the text column
    /// where the rows above put it.
    pub fn hex(&self) -> (r: String)
        ensures
            r@ == hex_column(self.bytes@),
    {
        let mut out: Vec<char> = Vec::new();
        let mut at: usize = 0;
        assert(out@ =~= Seq::<char>::empty());
        while at < PER_ROW
            invariant
                at <= 16,
                out@ == hex_cells(self.bytes@, at as nat),
                at > 0 ==> out@.len() > 0,
            decreases PER_ROW - at,
        {
            let ghost was = out@;
            let mut pair: Vec<char> = chars(self.pair(at).as_str());
            out.append(&mut pair);
            out.push(' ');
            assert(out@ =~= was + pair_at(self.bytes@, at as int) + seq![' ']);
            if at + 1 == 8 {
                out.push(' ');
            }
            at += 1;
        }
        out.pop();
        text::string(&out)
    }

    /// The hex pair for one position, blank past the end of a short row.
    pub fn pair(&self, at: usize) -> (r: String)
        ensures
            r@ == pair_at(self.bytes@, at as int),
    {
        if at < self.bytes.len() {
            pair_of(self.bytes[at])
        } else {
            "  ".to_owned()
        }
    }

    /// The same bytes as characters, with the unreadable ones as dots.
    pub fn text(&self) -> (r: String)
        ensures
            r@ == text_column(self.bytes@),
    {
        let mut out: String = String::new();
        let mut i: usize = 0;
        assert(out@ =~= text_column(self.bytes@).take(0));
        while i < self.bytes.len()
            invariant
                i <= self.bytes@.len(),
                out@ =~= text_column(self.bytes@).take(i as int),
            decreases self.bytes@.len() - i,
        {
            out.push(printable(self.bytes[i]));
            i += 1;
        }
        out
    }
}

/// A byte as the text column shows it: only printable ASCII, anything else is
/// a dot.
pub fn printable(byte: u8) -> (r: char)
    ensures
        r == shown_char(byte),
{
    if 0x20 <= byte && byte <= 0x7e {
        byte as char
    } else {
        '.'
    }
}

/// How many hex digits the offsets of a file of some size need.
pub open spec fn offset_digits(size: u64) -> nat {
    let needed = text::hexadecimal(
        if size == 0 {
            1
        } else {
            size as nat
        },
    ).len();
    if needed < 8 {
        8
    } else {
        needed
    }
}

/// How many hex digits the offsets of a file this size need: eight, or what
/// it takes.
pub fn offset_width(size: u64) -> (r: usize)
    ensures
        r == offset_digits(size),
{
    let greatest: u64 = if size == 0 {
        1
    } else {
        size
    };
    let digits: Vec<char> = chars(text::hexadecimal_text(greatest).as_str());
    if digits.len() < 8 {
        8
    } else {
        digits.len()
    }
}

/// One row, laid out: the offset, the hex column, the text column.
pub fn line(row: &Row, offset_width: usize) -> (r: String)
    ensures
        r@ == text::padded(text::hexadecimal(row.offset as nat), offset_width as nat, '0') + "  "@
            + hex_column(row.bytes@) + "  |"@ + text_column(row.bytes@) + "|"@,
{
    let mut r: String = text::pad_start(
        text::hexadecimal_text(row.offset).as_str(),
        offset_width,
        '0',
    );
    r.append("  ");
    r.append(row.hex().as_str());
    r.append("  |");
    r.append(row.text().as_str());
    r.append("|");
    r
}

/// A block of bytes cut into rows, the first starting at `offset`.
pub open spec fn cut(bytes: Seq<u8>, offset: int) -> Seq<RowView>
    decreases bytes.len(),
{
    if bytes.len() == 0 {
        Seq::empty()
    } else if bytes.len() <= 16 {
        seq![RowView { offset: offset as u64, bytes }]
    } else {
        seq![RowView { offset: offset as u64, bytes: bytes.take(16) }] + cut(
            bytes.skip(16),
            offset + 16,
        )
    }
}

fn bytes_between(bytes: &[u8], from: usize, to: usize) -> (r: Vec<u8>)
    requires
        from <= to <= bytes@.len(),
    ensures
        r@ == bytes@.subrange(from as int, to as int),
{
    let mut out: Vec<u8> = Vec::new();
    let mut i: usize = from;
    while i < to
        invariant
            from <= i <= to <= bytes@.len(),
            out@ =~= bytes@.subrange(from as int, i as int),
        decreases to - i,
    {
        out.push(bytes[i]);
        i += 1;
    }
    out
}

/// Cut a block of bytes into rows, the first starting at `offset`.
pub fn rows_of(bytes: &[u8], offset: u64) -> (r: Vec<Row>)
    requires
        bytes@.len() > 0 ==> offset + (bytes@.len() - 1) / 16 * 16 <= u64::MAX,
    ensures
        row_views(r@) == cut(bytes@, offset as int),
{
    let ghost all = bytes@;
    let mut out: Vec<Row> = Vec::new();
    let mut from: usize = 0;
    assert(row_views(out@) =~= Seq::empty());
    assert(all.skip(0) =~= all);
    while from < bytes.len()
        invariant
            all == bytes@,
            from <= all.len(),
            from % 16 == 0 || from == all.len(),
            all.len() > 0 ==> offset + (all.len() - 1) / 16 * 16 <= u64::MAX,
            row_views(out@) + cut(all.skip(from as int), offset + from) =~= cut(
                all,
                offset as int,
            ),
        decreases all.len() - from,
    {
        let left: usize = bytes.len() - from;
        let to: usize = if left <= PER_ROW {
            bytes.len()
        } else {
            from + PER_ROW
        };
        assert(offset + from <= u64::MAX) by {
            assert(from <= (all.len() - 1) / 16 * 16);
        }
        let row: Row = Row {
            offset: offset + from as u64,
            bytes: bytes_between(bytes, from, to),
        };
        let ghost rest = all.skip(from as int);
        let ghost was = row_views(out@);
        out.push(row);
        proof {
            assert(row_views(out@) =~= was.push(row@));
            if left <= PER_ROW {
                assert(row.bytes@ =~= rest);
                assert(all.skip(to as int) =~= Seq::<u8>::empty());
            } else {
                assert(row.bytes@ =~= rest.take(16));
                assert(rest.skip(16) =~= all.skip(to as int));
            }
        }
        from = to;
    }
    assert(all.skip(from as int) =~= Seq::<u8>::empty());
    out
}

/// The byte of a row at a place, if both are there.
pub open spec fn byte_at(row: Option<&Row>, at: int) -> Option<u8> {
    match row {
        Some(row) => if 0 <= at < row.bytes@.len() {
            Some(row.bytes@[at])
        } else {
            None
        },
        None => None,
    }
}

fn byte_of(row: Option<&Row>, at: usize) -> (r: Option<u8>)
    ensures
        r == byte_at(row, at as int),
{
    match row {
        Some(row) => if at < row.bytes.len() {
            Some(row.bytes[at])
        } else {
            None
        },
        None => None,
    }
}

/// Which byte positions of two rows differ. A position one row has and the
/// other does not counts as a difference.
pub fn differing(left: Option<&Row>, right: Option<&Row>) -> (r: Vec<bool>)
    ensures
        r@ == Seq::new(16, |at: int| byte_at(left, at) != byte_at(right, at)),
{
    let mut out: Vec<bool> = Vec::new();
    let mut at: usize = 0;
    while at < PER_ROW
        invariant
            at <= 16,
            out@ =~= Seq::new(at as nat, |at: int| byte_at(left, at) != byte_at(right, at)),
        decreases PER_ROW - at,
    {
        let differs: bool = match byte_of(left, at) {
            Some(l) => match byte_of(right, at) {
                Some(r) => l != r,
                None => true,
            },
            None => byte_of(right, at).is_some(),
        };
        out.push(differs);
        at += 1;
    }
    out
}

/// A file being read as bytes: a path and a size, not a file.
#[derive(Debug, Clone, PartialEq, Eq)]
pub struct Dump {
    pub path: String,
    pub size: u64,
}

/// How many rows so many bytes come to.
pub open spec fn rows_in(size: u64) -> int {
    (size + 15) / 16
}

impl Dump {
    /// How many rows the whole file comes to.
    pub fn rows(&self) -> (r: u64)
        ensures
            r == rows_in(self.size),
    {
        let whole: u64 = self.size / 16;
        if self.size % 16 == 0 {
            whole
        } else {
            whole + 1
        }
    }

    pub fn offset_width(&self) -> (r: usize)
        ensures
            r == offset_digits(self.size),
    {
        offset_width(self.size)
    }

    /// Where to read from, and how much, for `count` rows starting at row
    /// `from`; nothing past the end of the file.
    pub fn window(&self, from: u64, count: usize) -> (r: Option<(u64, usize)>)
        requires
            count * 16 <= usize::MAX,
        ensures
            r == if count == 0 || from >= rows_in(self.size) {
                None::<(u64, usize)>
            } else {
                Some(((from * 16) as u64, (count * 16) as usize))
            },
    {
        if count == 0 || from >= self.rows() {
            return None;
        }
        Some((from * 16, count * PER_ROW))
    }

    /// `count` rows starting at row `from`, or fewer at the end of the file,
    /// from the bytes that were read there.
    pub fn read(&self, from: u64, count: usize, bytes: &[u8]) -> (r: Vec<Row>)
        requires
            bytes@.len() > 0 && from < rows_in(self.size) ==> from * 16 + (bytes@.len() - 1) / 16
                * 16 <= u64::MAX,
        ensures
            row_views(r@) == if count == 0 || from >= rows_in(self.size) {
                Seq::empty()
            } else {
                cut(bytes@, from * 16)
            },
    {
        if count == 0 || from >= self.rows() {
            let none: Vec<Row> = Vec::new();
            assert(row_views(none@) =~= Seq::empty());
            return none;
        }
        rows_of(bytes, from * 16)
    }
}

// ---- comparing --------------------------------------------------------------------------------

/// The first place at or after `from` where two files differ: where a byte
/// does, or where the shorter one ends.
pub open spec fn difference(left: Seq<u8>, right: Seq<u8>, from: int) -> Option<int>
    decreases left.len() - from,
{
    if from >= left.len() || from >= right.len() {
        if left.len() == right.len() {
            None
        } else {
            Some(from)
        }
    } else if left[from] != right[from] {
        Some(from)
    } else {
        difference(left, right, from + 1)
    }
}

/// What comparing two blocks of two files came to.
#[derive(Debug, Clone, Copy, PartialEq, Eq, Structural)]
pub enum Compared {
    /// They first differ here.
    Differ(u64),
    /// Both ended, and never differed.
    Same,
    /// No difference yet; the next blocks start here.
    Next(u64),
}

/// Where two files first differ, block by block: `at` is where these blocks
/// start, and a block is shorter than it could be only where its file ends.
pub fn first_difference(at: u64, left: &[u8], right: &[u8]) -> (r: Compared)
    requires
        at + left@.len() <= u64::MAX,
        at + right@.len() <= u64::MAX,
    ensures
        r == match difference(left@, right@, 0) {
            Some(offset) => Compared::Differ((at + offset) as u64),
            None => if left@.len() == 0 {
                Compared::Same
            } else {
                Compared::Next((at + left@.len()) as u64)
            },
        },
{
    let mut i: usize = 0;
    while i < left.len() && i < right.len()
        invariant
            i <= left@.len(),
            i <= right@.len(),
            at + left@.len() <= u64::MAX,
            at + right@.len() <= u64::MAX,
            difference(left@, right@, 0) == difference(left@, right@, i as int),
        decreases left@.len() - i,
    {
        if left[i] != right[i] {
            return Compared::Differ(at + i as u64);
        }
        i += 1;
    }
    if left.len() != right.len() {
        return Compared::Differ(at + i as u64);
    }
    if left.len() == 0 {
        return Compared::Same;
    }
    Compared::Next(at + left.len() as u64)
}

// ---- the cursor -------------------------------------------------------------------------------

/// Which column the cursor is in.
#[derive(Debug, Clone, Copy, PartialEq, Eq, Structural)]
pub enum Pane {
    /// The hex column: two keystrokes to a byte.
    Hex,
    /// The character column: one keystroke to a byte, for patching strings.
    Text,
}

impl Default for Pane {
    fn default() -> (r: Pane)
        ensures
            r == Pane::Hex,
    {
        Pane::Hex
    }
}

impl Pane {
    pub fn other(self) -> (r: Pane)
        ensures
            r == match self {
                Pane::Hex => Pane::Text,
                Pane::Text => Pane::Hex,
            },
    {
        match self {
            Pane::Hex => Pane::Text,
            Pane::Text => Pane::Hex,
        }
    }

    pub fn label(self) -> (r: &'static str)
        ensures
            r@ == match self {
                Pane::Hex => "hex"@,
                Pane::Text => "text"@,
            },
    {
        match self {
            Pane::Hex => "hex",
            Pane::Text => "text",
        }
    }
}

/// Where the cursor is, down to which half of the byte.
#[derive(Debug, Clone, Copy, PartialEq, Eq, Structural)]
pub struct Cursor {
    pub at: u64,
    /// True when the next digit typed is the low half of the byte.
    pub low: bool,
    pub pane: Pane,
}

impl Default for Cursor {
    fn default() -> (r: Cursor)
        ensures
            r == (Cursor { at: 0, low: false, pane: Pane::Hex }),
    {
        Cursor { at: 0, low: false, pane: Pane::Hex }
    }
}

/// The last place of a file, or its start where it is empty.
pub open spec fn last_place(size: u64) -> int {
    if size == 0 {
        0
    } else {
        size - 1
    }
}

/// A place brought back into a file.
pub open spec fn within(at: int, size: u64) -> int {
    if at < 0 {
        0
    } else if at > last_place(size) {
        last_place(size)
    } else {
        at
    }
}

impl Cursor {
    /// Move by whole bytes, clamped to the file.
    pub fn to(&mut self, at: u64, size: u64)
        ensures
            *final(self) == (Cursor {
                at: within(at as int, size) as u64,
                low: false,
                pane: old(self).pane,
            }),
    {
        let last: u64 = if size == 0 {
            0
        } else {
            size - 1
        };
        self.at = if at > last {
            last
        } else {
            at
        };
        self.low = false;
    }

    pub fn step(&mut self, by: i64, size: u64)
        ensures
            *final(self) == (Cursor {
                at: within(old(self).at + by, size) as u64,
                low: false,
                pane: old(self).pane,
            }),
    {
        let there: i128 = self.at as i128 + by as i128;
        let last: u64 = if size == 0 {
            0
        } else {
            size - 1
        };
        let at: u64 = if there < 0 {
            0
        } else if there > last as i128 {
            last
        } else {
            there as u64
        };
        self.to(at, size);
    }

    pub fn row(&self) -> (r: u64)
        ensures
            r == self.at as int / 16,
    {
        self.at / 16
    }

    pub fn column(&self) -> (r: usize)
        ensures
            r == self.at as int % 16,
    {
        (self.at % 16) as usize
    }
}

// ---- offsets and digits -----------------------------------------------------------------------

/// A hexadecimal digit's value, or nothing if it is not one.
pub open spec fn digit_value(c: char) -> Option<int> {
    if '0' <= c <= '9' {
        Some(c as int - 48)
    } else if 'a' <= c <= 'f' {
        Some(c as int - 87)
    } else if 'A' <= c <= 'F' {
        Some(c as int - 55)
    } else {
        None
    }
}

/// The number that some digits write in a radix up to sixteen, if they do.
pub open spec fn in_radix(s: Seq<char>, radix: int) -> Option<int>
    decreases s.len(),
{
    if s.len() == 0 {
        Some(0)
    } else {
        match in_radix(s.drop_last(), radix) {
            Some(front) => match digit_value(s.last()) {
                Some(value) => if value < radix {
                    Some(front * radix + value)
                } else {
                    None
                },
                None => None,
            },
            None => None,
        }
    }
}

/// The number that a text writes, however large, with one `+` in front
/// allowed.
pub open spec fn read_in_radix(s: Seq<char>, radix: int) -> Option<int> {
    let digits = text::unsigned(s);
    if digits.len() == 0 {
        None
    } else {
        in_radix(digits, radix)
    }
}

/// A number, or the largest of 64 bits where it is larger.
pub open spec fn in_64_bits(n: int) -> int {
    if n <= u64::MAX {
        n
    } else {
        u64::MAX as int
    }
}

/// Without what groups digits: underscores, spaces and commas.
pub open spec fn ungrouped(s: Seq<char>) -> Seq<char>
    decreases s.len(),
{
    if s.len() == 0 {
        Seq::empty()
    } else {
        let front = ungrouped(s.drop_last());
        if s.last() == '_' || s.last() == ' ' || s.last() == ',' {
            front
        } else {
            front.push(s.last())
        }
    }
}

/// The digits of an offset as it was typed, and the radix they are meant in.
pub open spec fn offset_parts(s: Seq<char>) -> (Seq<char>, int) {
    if s.len() >= 2 && s[0] == '0' && (s[1] == 'x' || s[1] == 'X') {
        (s.skip(2), 16)
    } else if s.len() >= 2 && s[0] == '0' && (s[1] == 'n' || s[1] == 'N') {
        (s.skip(2), 10)
    } else if s.len() >= 1 && s[0] == '+' {
        (s.skip(1), 10)
    } else {
        (s, 16)
    }
}

/// Where a typed offset means; past the end of a file it means the last byte.
pub open spec fn offset_meant(text: Seq<char>, size: u64) -> Option<int> {
    let (digits, radix) = offset_parts(text::trimmed(text));
    match read_in_radix(ungrouped(digits), radix) {
        Some(at) => Some(within(at, size)),
        None => None,
    }
}

proof fn lemma_in_radix_fails(s: Seq<char>, radix: int, to: int)
    requires
        0 <= to <= s.len(),
        in_radix(s.take(to), radix) is None,
    ensures
        in_radix(s, radix) is None,
    decreases s.len() - to,
{
    if to < s.len() {
        assert(s.take(to + 1).drop_last() =~= s.take(to));
        lemma_in_radix_fails(s, radix, to + 1);
    } else {
        assert(s.take(to) =~= s);
    }
}

proof fn lemma_in_radix_positive(s: Seq<char>, radix: int)
    requires
        radix >= 1,
        in_radix(s, radix) is Some,
    ensures
        in_radix(s, radix)->0 >= 0,
    decreases s.len(),
{
    if s.len() > 0 {
        lemma_in_radix_positive(s.drop_last(), radix);
        let n = in_radix(s.drop_last(), radix)->0;
        assert(n * radix >= 0) by (nonlinear_arith)
            requires
                n >= 0,
                radix >= 1,
        ;
    }
}

/// Reads a number in a radix; one of more than 64 bits as the largest of 64.
fn parse_in_radix(s: &Vec<char>, radix: u64) -> (r: Option<u64>)
    requires
        2 <= radix <= 16,
    ensures
        match r {
            Some(n) => read_in_radix(s@, radix as int) matches Some(whole) && n == in_64_bits(
                whole,
            ) && whole >= 0,
            None => read_in_radix(s@, radix as int) is None,
        },
{
    let from: usize = if s.len() > 0 && s[0] == '+' {
        1
    } else {
        0
    };
    let ghost digits = text::unsigned(s@);
    assert(digits =~= s@.skip(from as int));
    if from == s.len() {
        return None;
    }
    let mut n: u64 = 0;
    let mut i: usize = from;
    assert(digits.take(0) =~= Seq::<char>::empty());
    while i < s.len()
        invariant
            2 <= radix <= 16,
            from <= i <= s@.len(),
            from < s@.len(),
            digits == s@.skip(from as int),
            digits == text::unsigned(s@),
            in_radix(digits.take(i - from), radix as int) matches Some(whole) && n == in_64_bits(
                whole,
            ) && whole >= 0,
        decreases s@.len() - i,
    {
        let ghost next = digits.take(i - from + 1);
        proof {
            assert(next.drop_last() =~= digits.take(i - from));
            assert(next.last() == s@[i as int]);
        }
        let value: u64 = match hex_digit(s[i]) {
            Some(value) => value as u64,
            None => {
                proof {
                    lemma_in_radix_fails(digits, radix as int, i - from + 1);
                }
                return None;
            },
        };
        if value >= radix {
            proof {
                lemma_in_radix_fails(digits, radix as int, i - from + 1);
            }
            return None;
        }
        assert(0 <= n * radix <= 0xFFFF_FFFF_FFFF_FFFF * 16) by (nonlinear_arith)
            requires
                0 <= n <= 0xFFFF_FFFF_FFFF_FFFF,
                0 <= radix <= 16,
        ;
        let wide: u128 = n as u128 * radix as u128 + value as u128;
        proof {
            let whole = in_radix(digits.take(i - from), radix as int)->0;
            assert(n as u128 * radix as u128 == n as int * radix as int);
            assert(in_radix(next, radix as int) == Some(whole * radix + value));
            lemma_in_radix_positive(next, radix as int);
            if whole > u64::MAX {
                assert(whole * radix >= whole) by (nonlinear_arith)
                    requires
                        whole >= 0,
                        radix >= 1,
                ;
                assert(n as int * radix as int >= n) by (nonlinear_arith)
                    requires
                        n >= 0,
                        radix >= 1,
                ;
            }
        }
        n = if wide > u64::MAX as u128 {
            u64::MAX
        } else {
            wide as u64
        };
        i += 1;
    }
    assert(digits.take(i - from) =~= digits);
    Some(n)
}

/// Where a typed offset means, or `None` if it means nowhere.
///
/// Hex by default; `0x` is accepted, and `+` or a leading `0n` asks for
/// decimal. Underscores, spaces and commas are allowed as groupings. Past the
/// end of the file lands on the last byte rather than refusing.
pub fn parse_offset(text: &str, size: u64) -> (r: Option<u64>)
    ensures
        match r {
            Some(at) => offset_meant(text@, size) == Some(at as int),
            None => offset_meant(text@, size) is None,
        },
{
    let s: Vec<char> = chars(text::trim(text));
    let (from, radix): (usize, u64) = if s.len() >= 2 && s[0] == '0' && (s[1] == 'x' || s[1]
        == 'X') {
        (2, 16)
    } else if s.len() >= 2 && s[0] == '0' && (s[1] == 'n' || s[1] == 'N') {
        (2, 10)
    } else if s.len() >= 1 && s[0] == '+' {
        (1, 10)
    } else {
        (0, 16)
    };
    let ghost digits = offset_parts(s@).0;
    assert(digits =~= s@.skip(from as int));
    let mut cleaned: Vec<char> = Vec::new();
    let mut i: usize = from;
    assert(digits.take(0) =~= Seq::<char>::empty());
    while i < s.len()
        invariant
            from <= i <= s@.len(),
            digits == s@.skip(from as int),
            cleaned@ == ungrouped(digits.take(i - from)),
        decreases s@.len() - i,
    {
        proof {
            assert(digits.take(i - from + 1).drop_last() =~= digits.take(i - from));
            assert(digits.take(i - from + 1).last() == s@[i as int]);
        }
        if s[i] != '_' && s[i] != ' ' && s[i] != ',' {
            cleaned.push(s[i]);
        }
        i += 1;
    }
    assert(digits.take(i - from) =~= digits);
    let at: u64 = match parse_in_radix(&cleaned, radix) {
        Some(at) => at,
        None => {
            return None;
        },
    };
    let last: u64 = if size == 0 {
        0
    } else {
        size - 1
    };
    if at > last {
        Some(last)
    } else {
        Some(at)
    }
}

/// A hex digit's value, or nothing if it is not one.
pub fn hex_digit(character: char) -> (r: Option<u8>)
    ensures
        match r {
            Some(value) => digit_value(character) == Some(value as int) && value < 16,
            None => digit_value(character) is None,
        },
{
    let code: u32 = character as u32;
    proof {
        text::lemma_code_point(character);
    }
    if '0' <= character && character <= '9' {
        Some((code - 48) as u8)
    } else if 'a' <= character && character <= 'f' {
        Some((code - 87) as u8)
    } else if 'A' <= character && character <= 'F' {
        Some((code - 55) as u8)
    } else {
        None
    }
}

/// The byte that results from typing a digit over one of its halves.
pub open spec fn typed_over(current: u8, digit: u8, low: bool) -> int {
    if low {
        (current as int / 16) * 16 + digit as int % 16
    } else {
        current as int % 16 + (digit as int % 16) * 16
    }
}

/// The byte that results from typing `digit` over `current`.
pub fn with_nibble(current: u8, digit: u8, low: bool) -> (r: u8)
    ensures
        r == typed_over(current, digit, low),
{
    if low {
        let r: u8 = (current & 0xF0) | (digit & 0x0F);
        assert(r as int == (current as int / 16) * 16 + digit as int % 16) by {
            assert(((current & 0xF0u8) | (digit & 0x0Fu8)) == (current / 16) * 16 + digit % 16)
                by (bit_vector);
        }
        r
    } else {
        let r: u8 = (current & 0x0F) | ((digit & 0x0F) << 4);
        assert(r as int == current as int % 16 + (digit as int % 16) * 16) by {
            assert(((current & 0x0Fu8) | ((digit & 0x0Fu8) << 4u8)) == current % 16 + (digit % 16)
                * 16) by (bit_vector);
        }
        r
    }
}

// ---- editing ----------------------------------------------------------------------------------
//
// A hex editor overwrites. It does not insert and it does not delete, so the
// file's length never changes.

/// One byte changed: where, what the file has there, and what it is to be.
#[derive(Debug, Clone, Copy, PartialEq, Eq, Structural)]
pub struct Change {
    pub at: u64,
    pub was: u8,
    pub now: u8,
}

/// Bytes changed but not yet written. Sparse: a change is almost always a
/// handful of bytes in a file that may be gigabytes. Each keeps what was there
/// as well as what is there now.
#[derive(Debug, Clone)]
pub struct Edits {
    /// By offset, each offset once.
    changed: Vec<Change>,
    /// The order they were made in, for undo.
    order: Vec<u64>,
}

/// The changes by offset, and the offsets in the order they were changed.
#[verifier::ext_equal]
pub struct EditsView {
    pub changed: Seq<Change>,
    pub order: Seq<u64>,
}

impl View for Edits {
    type V = EditsView;

    closed spec fn view(&self) -> EditsView {
        EditsView { changed: self.changed@, order: self.order@ }
    }
}

/// Whether the changes stand by offset, and each offset once.
pub open spec fn by_offset(changed: Seq<Change>) -> bool {
    forall|i: int, j: int|
        0 <= i < j < changed.len() ==> (#[trigger] changed[i]).at < (#[trigger] changed[j]).at
}

/// Whether a change is among some, by offset.
pub open spec fn touches(changed: Seq<Change>, at: u64) -> bool {
    exists|i: int| 0 <= i < changed.len() && (#[trigger] changed[i]).at == at
}

/// Whether edits are in good order: the changes by offset, and the order made
/// of their offsets, each once.
pub open spec fn sound(edits: EditsView) -> bool {
    &&& by_offset(edits.changed)
    &&& edits.order.no_duplicates()
    &&& forall|at: u64| #[trigger] edits.order.contains(at) <==> touches(edits.changed, at)
}

/// The change at an offset.
pub open spec fn change_at(changed: Seq<Change>, at: u64) -> Option<Change>
    decreases changed.len(),
{
    if changed.len() == 0 {
        None
    } else if changed.last().at == at {
        Some(changed.last())
    } else {
        change_at(changed.drop_last(), at)
    }
}

/// Changes with the one at an offset put in its place, or replaced.
pub open spec fn with_change(changed: Seq<Change>, change: Change) -> Seq<Change>
    decreases changed.len(),
{
    if changed.len() == 0 || changed.last().at < change.at {
        changed.push(change)
    } else if changed.last().at == change.at {
        changed.drop_last().push(change)
    } else {
        with_change(changed.drop_last(), change).push(changed.last())
    }
}

/// Changes without the one at an offset.
pub open spec fn without_change(changed: Seq<Change>, at: u64) -> Seq<Change>
    decreases changed.len(),
{
    if changed.len() == 0 {
        Seq::empty()
    } else if changed.last().at == at {
        changed.drop_last()
    } else {
        without_change(changed.drop_last(), at).push(changed.last())
    }
}

/// Offsets without one.
pub open spec fn without_offset(order: Seq<u64>, at: u64) -> Seq<u64>
    decreases order.len(),
{
    if order.len() == 0 {
        Seq::empty()
    } else if order.last() == at {
        without_offset(order.drop_last(), at)
    } else {
        without_offset(order.drop_last(), at).push(order.last())
    }
}

/// What the file has at an offset: what the first change to the byte found
/// there, or where there is none, what is said of it.
pub open spec fn on_file(edits: EditsView, at: u64, was: u8) -> u8 {
    match change_at(edits.changed, at) {
        Some(earlier) => earlier.was,
        None => was,
    }
}

/// Edits after a byte was typed. `was` is what was shown at that offset; a
/// byte typed back to what the file has is no change, and a second change to
/// a byte keeps what the file had.
pub open spec fn byte_set(edits: EditsView, at: u64, was: u8, now: u8) -> EditsView {
    if on_file(edits, at, was) == now {
        EditsView {
            changed: without_change(edits.changed, at),
            order: without_offset(edits.order, at),
        }
    } else {
        match change_at(edits.changed, at) {
            Some(earlier) => EditsView {
                changed: with_change(edits.changed, Change { at, was: earlier.was, now }),
                order: edits.order,
            },
            None => EditsView {
                changed: with_change(edits.changed, Change { at, was, now }),
                order: edits.order.push(at),
            },
        }
    }
}

/// Edits after the most recent change was undone.
pub open spec fn undone(edits: EditsView) -> EditsView {
    if edits.order.len() == 0 {
        edits
    } else {
        EditsView {
            changed: without_change(edits.changed, edits.order.last()),
            order: edits.order.drop_last(),
        }
    }
}

/// Some bytes of a file as a change leaves them.
pub open spec fn laid_over(changed: Seq<Change>, offset: u64, bytes: Seq<u8>) -> Seq<u8> {
    bytes.map(
        |index: int, byte: u8|
            match change_at(changed, (offset + index) as u64) {
                Some(change) => change.now,
                None => byte,
            },
    )
}

/// Changes as consecutive runs: where each starts, and its bytes.
pub open spec fn runs_of(changed: Seq<Change>) -> Seq<(u64, Seq<u8>)>
    decreases changed.len(),
{
    if changed.len() == 0 {
        Seq::empty()
    } else {
        let front = runs_of(changed.drop_last());
        let change = changed.last();
        if front.len() > 0 && front.last().0 + front.last().1.len() == change.at {
            front.drop_last().push((front.last().0, front.last().1.push(change.now)))
        } else {
            front.push((change.at, seq![change.now]))
        }
    }
}

/// Runs with their bytes as sequences.
pub open spec fn run_views(runs: Seq<(u64, Vec<u8>)>) -> Seq<(u64, Seq<u8>)> {
    runs.map_values(|run: (u64, Vec<u8>)| (run.0, run.1@))
}

/// What of some runs lies in a file of a size.
pub open spec fn runs_inside(runs: Seq<(u64, Seq<u8>)>, size: u64) -> Seq<(u64, Seq<u8>)>
    decreases runs.len(),
{
    if runs.len() == 0 {
        Seq::empty()
    } else {
        let front = runs_inside(runs.drop_last(), size);
        let (at, bytes) = runs.last();
        if at >= size {
            front
        } else {
            front.push(
                (
                    at,
                    if bytes.len() <= size - at {
                        bytes
                    } else {
                        bytes.take(size - at)
                    },
                ),
            )
        }
    }
}

/// What was changed, in words.
pub open spec fn edits_text(changed: Seq<Change>) -> Seq<char> {
    if changed.len() == 0 {
        Seq::empty()
    } else if changed.len() == 1 {
        "1 byte changed: 0x"@ + text::hexadecimal(changed[0].at as nat) + " "@ + byte_pair(
            changed[0].was,
        ) + " -> "@ + byte_pair(changed[0].now)
    } else {
        text::decimal(changed.len()) + " bytes changed"@
    }
}

proof fn lemma_change_at(changed: Seq<Change>, at: u64)
    ensures
        change_at(changed, at) is Some <==> touches(changed, at),
        change_at(changed, at) is Some ==> change_at(changed, at)->0.at == at,
    decreases changed.len(),
{
    if changed.len() > 0 {
        let front = changed.drop_last();
        lemma_change_at(front, at);
        if changed.last().at == at {
            assert(changed[changed.len() - 1].at == at);
        } else {
            if touches(front, at) {
                let i = choose|i: int| 0 <= i < front.len() && (#[trigger] front[i]).at == at;
                assert(changed[i].at == at);
            }
            if touches(changed, at) {
                let i = choose|i: int| 0 <= i < changed.len() && (#[trigger] changed[i]).at == at;
                assert(front[i].at == at);
            }
        }
    }
}

proof fn lemma_by_offset_front(changed: Seq<Change>)
    requires
        by_offset(changed),
        changed.len() > 0,
    ensures
        by_offset(changed.drop_last()),
        forall|i: int| 0 <= i < changed.len() - 1 ==> (#[trigger] changed.drop_last()[i]).at
            < changed.last().at,
{
    let front = changed.drop_last();
    assert forall|i: int, j: int| 0 <= i < j < front.len() implies (#[trigger] front[i]).at < (
    #[trigger] front[j]).at by {
        assert(changed[i].at < changed[j].at);
    }
    assert forall|i: int| 0 <= i < changed.len() - 1 implies (#[trigger] front[i]).at
        < changed.last().at by {
        assert(changed[i].at < changed[changed.len() - 1].at);
    }
}

/// Where a change belongs: everything before it lies below its offset,
/// everything from it on above or at it.
proof fn lemma_with_change(changed: Seq<Change>, change: Change, place: int)
    requires
        by_offset(changed),
        0 <= place <= changed.len(),
        forall|i: int| 0 <= i < place ==> (#[trigger] changed[i]).at < change.at,
        forall|i: int| place <= i < changed.len() ==> (#[trigger] changed[i]).at >= change.at,
    ensures
        place < changed.len() && changed[place].at == change.at ==> with_change(changed, change)
            == changed.update(place, change) && change_at(changed, change.at) == Some(
            changed[place],
        ) && without_change(changed, change.at) == changed.remove(place),
        !(place < changed.len() && changed[place].at == change.at) ==> with_change(changed, change)
            == changed.insert(place, change) && change_at(changed, change.at) is None
            && without_change(changed, change.at) == changed,
    decreases changed.len(),
{
    if changed.len() == 0 {
        assert(changed.insert(place, change) =~= changed.push(change));
        assert(without_change(changed, change.at) =~= changed);
    } else {
        lemma_by_offset_front(changed);
        let front = changed.drop_last();
        let last = changed.last();
        assert(last == changed[changed.len() - 1]);
        if last.at < change.at {
            assert(place == changed.len());
            assert(changed.insert(place, change) =~= changed.push(change));
            assert forall|i: int| 0 <= i < front.len() implies (#[trigger] front[i]).at
                < change.at by {
                assert(changed[i].at < change.at);
            }
            lemma_with_change(front, change, front.len() as int);
            assert(without_change(changed, change.at) =~= changed);
        } else if last.at == change.at {
            if place < changed.len() - 1 {
                assert(changed[place].at < changed[changed.len() - 1].at);
            }
            assert(place == changed.len() - 1);
            assert(changed.update(place, change) =~= front.push(change));
            assert(changed.remove(place) =~= front);
        } else {
            assert(place < changed.len());
            assert forall|i: int| 0 <= i < place implies (#[trigger] front[i]).at < change.at by {
                assert(changed[i].at < change.at);
            }
            assert forall|i: int| place <= i < front.len() implies (#[trigger] front[i]).at
                >= change.at by {
                assert(changed[i].at >= change.at);
            }
            lemma_with_change(front, change, place);
            if place < front.len() {
                assert(front[place] == changed[place]);
                assert(front.update(place, change).push(last) =~= changed.update(place, change));
                assert(front.remove(place).push(last) =~= changed.remove(place));
                assert(front.insert(place, change).push(last) =~= changed.insert(place, change));
            } else {
                assert(changed[place] == last);
                assert(front.insert(place, change).push(last) =~= changed.insert(place, change));
            }
            assert(front.push(last) =~= changed);
        }
    }
}

proof fn lemma_without_offset(order: Seq<u64>, at: u64)
    ensures
        forall|other: u64| #[trigger]
            without_offset(order, at).contains(other) <==> order.contains(other) && other != at,
        order.no_duplicates() ==> without_offset(order, at).no_duplicates(),
        !order.contains(at) ==> without_offset(order, at) == order,
    decreases order.len(),
{
    let out = without_offset(order, at);
    if order.len() > 0 {
        let front = order.drop_last();
        lemma_without_offset(front, at);
        let head = without_offset(front, at);
        assert forall|other: u64| #[trigger] out.contains(other) <==> order.contains(other)
            && other != at by {
            if order.contains(other) {
                let i = choose|i: int| 0 <= i < order.len() && order[i] == other;
                if i < front.len() {
                    assert(front[i] == other);
                    assert(front.contains(other));
                    if other != at {
                        assert(head.contains(other));
                        let k = choose|k: int| 0 <= k < head.len() && head[k] == other;
                        assert(out[k] == other);
                    }
                } else if other != at {
                    assert(out[out.len() - 1] == other);
                }
            }
            if out.contains(other) {
                let i = choose|i: int| 0 <= i < out.len() && out[i] == other;
                if i < head.len() {
                    assert(head[i] == other);
                    assert(head.contains(other));
                    let k = choose|k: int| 0 <= k < front.len() && front[k] == other;
                    assert(order[k] == other);
                } else {
                    assert(order[order.len() - 1] == other);
                }
            }
        }
        if order.no_duplicates() {
            assert(front.no_duplicates());
            if order.last() != at {
                if head.contains(order.last()) {
                    assert(front.contains(order.last()));
                    let k = choose|k: int| 0 <= k < front.len() && front[k] == order.last();
                    assert(order[k] == order[order.len() - 1]);
                }
                assert(!head.contains(order.last()));
                assert forall|i: int, j: int|
                    0 <= i < out.len() && 0 <= j < out.len() && i != j implies out[i]
                    != out[j] by {
                    if i < head.len() && j < head.len() {
                        assert(head[i] != head[j]);
                    } else if i < head.len() {
                        assert(head.contains(head[i]));
                    } else {
                        assert(head.contains(head[j]));
                    }
                }
            }
        }
        if !order.contains(at) {
            if front.contains(at) {
                let k = choose|k: int| 0 <= k < front.len() && front[k] == at;
                assert(order[k] == at);
            }
            assert(order[order.len() - 1] != at);
            assert(out =~= order);
        }
    } else {
        assert(out =~= order);
    }
}

/// What holds of edits after a byte was typed: they are in good order, the
/// byte is what it was typed to - no change where that is what the file has -
/// and no other one is touched.
pub proof fn law_typing_keeps_good_order(edits: EditsView, at: u64, was: u8, now: u8, other: u64)
    requires
        sound(edits),
    ensures
        sound(byte_set(edits, at, was, now)),
        other != at ==> change_at(byte_set(edits, at, was, now).changed, other) == change_at(
            edits.changed,
            other,
        ),
        on_file(edits, at, was) == now ==> change_at(
            byte_set(edits, at, was, now).changed,
            at,
        ) is None,
        on_file(edits, at, was) != now ==> change_at(
            byte_set(edits, at, was, now).changed,
            at,
        ) == Some(Change { at, was: on_file(edits, at, was), now }),
{
    let out = byte_set(edits, at, was, now);
    let place = place_of(edits.changed, at);
    lemma_place_of(edits.changed, at);
    let first = on_file(edits, at, was);
    let change = Change { at, was: first, now };
    lemma_with_change(edits.changed, change, place);
    lemma_change_at(edits.changed, at);
    let there = place < edits.changed.len() && edits.changed[place].at == at;
    if first == now {
        lemma_without_offset(edits.order, at);
        if there {
            lemma_removed(edits.changed, place);
        }
        lemma_change_at(out.changed, at);
        assert forall|o: u64| #[trigger] out.order.contains(o) <==> touches(out.changed, o) by {
            if there {
                assert(o != at ==> (touches(out.changed, o) <==> touches(edits.changed, o)));
                assert(!touches(out.changed, at));
            }
            assert(edits.order.contains(o) <==> touches(edits.changed, o));
        }
    } else if there {
        lemma_updated(edits.changed, place, change);
        assert forall|o: u64| #[trigger] out.order.contains(o) <==> touches(out.changed, o) by {
            assert(edits.order.contains(o) <==> touches(edits.changed, o));
        }
    } else {
        lemma_inserted(edits.changed, place, change);
        assert(!touches(edits.changed, at));
        assert(!edits.order.contains(at));
        assert forall|o: u64| #[trigger] out.order.contains(o) <==> touches(out.changed, o) by {
            assert(edits.order.contains(o) <==> touches(edits.changed, o));
            if edits.order.contains(o) {
                let i = choose|i: int| 0 <= i < edits.order.len() && edits.order[i] == o;
                assert(out.order[i] == o);
            }
            if o == at {
                assert(out.order[edits.order.len() as int] == at);
            }
            if out.order.contains(o) && o != at {
                let i = choose|i: int| 0 <= i < out.order.len() && out.order[i] == o;
                assert(edits.order[i] == o);
            }
        }
        assert forall|i: int, j: int|
            0 <= i < out.order.len() && 0 <= j < out.order.len() && i != j implies out.order[i]
            != out.order[j] by {
            if i < edits.order.len() && j < edits.order.len() {
                assert(edits.order[i] != edits.order[j]);
            } else if i < edits.order.len() {
                assert(edits.order.contains(edits.order[i]));
            } else {
                assert(edits.order.contains(edits.order[j]));
            }
        }
    }
    if other != at {
        lemma_change_at(edits.changed, other);
        lemma_change_at(out.changed, other);
        if there && first == now {
            lemma_same_elsewhere_removed(edits.changed, place, other);
        } else if there {
            lemma_same_elsewhere_updated(edits.changed, place, change, other);
        } else if first != now {
            lemma_same_elsewhere_inserted(edits.changed, place, change, other);
        }
    }
}

/// The first place whose offset is not below one.
spec fn place_of(changed: Seq<Change>, at: u64) -> int
    decreases changed.len(),
{
    if changed.len() == 0 || changed.last().at < at {
        changed.len() as int
    } else {
        place_of(changed.drop_last(), at)
    }
}

proof fn lemma_place_of(changed: Seq<Change>, at: u64)
    requires
        by_offset(changed),
    ensures
        0 <= place_of(changed, at) <= changed.len(),
        forall|i: int| 0 <= i < place_of(changed, at) ==> (#[trigger] changed[i]).at < at,
        forall|i: int| place_of(changed, at) <= i < changed.len() ==> (#[trigger] changed[i]).at
            >= at,
    decreases changed.len(),
{
    if changed.len() > 0 {
        lemma_by_offset_front(changed);
        let front = changed.drop_last();
        if changed.last().at < at {
            assert forall|i: int| 0 <= i < changed.len() implies (#[trigger] changed[i]).at
                < at by {
                if i < front.len() {
                    assert(front[i].at < changed.last().at);
                }
            }
        } else {
            lemma_place_of(front, at);
            let place = place_of(front, at);
            assert forall|i: int| 0 <= i < place implies (#[trigger] changed[i]).at < at by {
                assert(front[i].at < at);
            }
            assert forall|i: int| place <= i < changed.len() implies (#[trigger] changed[i]).at
                >= at by {
                if i < front.len() {
                    assert(front[i].at >= at);
                }
            }
        }
    }
}

proof fn lemma_removed(changed: Seq<Change>, place: int)
    requires
        by_offset(changed),
        0 <= place < changed.len(),
    ensures
        by_offset(changed.remove(place)),
        !touches(changed.remove(place), changed[place].at),
        forall|o: u64|
            o != changed[place].at ==> (#[trigger] touches(changed.remove(place), o) <==> touches(
                changed,
                o,
            )),
{
    let out = changed.remove(place);
    assert forall|i: int, j: int| 0 <= i < j < out.len() implies (#[trigger] out[i]).at < (
    #[trigger] out[j]).at by {
        let a = if i < place {
            i
        } else {
            i + 1
        };
        let b = if j < place {
            j
        } else {
            j + 1
        };
        assert(changed[a].at < changed[b].at);
    }
    assert forall|i: int| 0 <= i < out.len() implies (#[trigger] out[i]).at != changed[place].at by {
        if i < place {
            assert(changed[i].at < changed[place].at);
        } else {
            assert(changed[place].at < changed[i + 1].at);
        }
    }
    assert forall|o: u64| o != changed[place].at implies (#[trigger] touches(out, o) <==> touches(
        changed,
        o,
    )) by {
        if touches(out, o) {
            let i = choose|i: int| 0 <= i < out.len() && (#[trigger] out[i]).at == o;
            if i < place {
                assert(changed[i].at == o);
            } else {
                assert(changed[i + 1].at == o);
            }
        }
        if touches(changed, o) {
            let i = choose|i: int| 0 <= i < changed.len() && (#[trigger] changed[i]).at == o;
            if i < place {
                assert(out[i].at == o);
            } else {
                assert(out[i - 1].at == o);
            }
        }
    }
}

proof fn lemma_updated(changed: Seq<Change>, place: int, change: Change)
    requires
        by_offset(changed),
        0 <= place < changed.len(),
        changed[place].at == change.at,
    ensures
        by_offset(changed.update(place, change)),
        forall|o: u64| #[trigger]
            touches(changed.update(place, change), o) <==> touches(changed, o),
        change_at(changed.update(place, change), change.at) == Some(change),
{
    let out = changed.update(place, change);
    assert forall|i: int, j: int| 0 <= i < j < out.len() implies (#[trigger] out[i]).at < (
    #[trigger] out[j]).at by {
        assert(changed[i].at < changed[j].at);
    }
    assert forall|o: u64| #[trigger] touches(out, o) <==> touches(changed, o) by {
        if touches(out, o) {
            let i = choose|i: int| 0 <= i < out.len() && (#[trigger] out[i]).at == o;
            assert(changed[i].at == o);
        }
        if touches(changed, o) {
            let i = choose|i: int| 0 <= i < changed.len() && (#[trigger] changed[i]).at == o;
            assert(out[i].at == o);
        }
    }
    assert forall|i: int| 0 <= i < place implies (#[trigger] out[i]).at < change.at by {
        assert(out[i].at < out[place].at);
    }
    assert forall|i: int| place <= i < out.len() implies (#[trigger] out[i]).at >= change.at by {
        if i > place {
            assert(out[place].at < out[i].at);
        }
    }
    lemma_with_change(out, change, place);
}

proof fn lemma_inserted(changed: Seq<Change>, place: int, change: Change)
    requires
        by_offset(changed),
        0 <= place <= changed.len(),
        forall|i: int| 0 <= i < place ==> (#[trigger] changed[i]).at < change.at,
        forall|i: int| place <= i < changed.len() ==> (#[trigger] changed[i]).at > change.at,
    ensures
        by_offset(changed.insert(place, change)),
        forall|o: u64| #[trigger]
            touches(changed.insert(place, change), o) <==> touches(changed, o) || o == change.at,
        change_at(changed.insert(place, change), change.at) == Some(change),
{
    let out = changed.insert(place, change);
    assert forall|i: int, j: int| 0 <= i < j < out.len() implies (#[trigger] out[i]).at < (
    #[trigger] out[j]).at by {
        let a = if i < place {
            i
        } else {
            i - 1
        };
        let b = if j < place {
            j
        } else {
            j - 1
        };
        if i != place && j != place {
            assert(changed[a].at < changed[b].at);
        } else if i == place {
            assert(changed[b].at > change.at);
        } else {
            assert(changed[a].at < change.at);
        }
    }
    assert forall|o: u64| #[trigger] touches(out, o) <==> touches(changed, o) || o == change.at by {
        if touches(out, o) {
            let i = choose|i: int| 0 <= i < out.len() && (#[trigger] out[i]).at == o;
            if i < place {
                assert(changed[i].at == o);
            } else if i > place {
                assert(changed[i - 1].at == o);
            }
        }
        if touches(changed, o) {
            let i = choose|i: int| 0 <= i < changed.len() && (#[trigger] changed[i]).at == o;
            if i < place {
                assert(out[i].at == o);
            } else {
                assert(out[i + 1].at == o);
            }
        }
        assert(out[place].at == change.at);
    }
    assert forall|i: int| 0 <= i < place implies (#[trigger] out[i]).at < change.at by {
        assert(out[i].at < out[place].at);
    }
    assert forall|i: int| place <= i < out.len() implies (#[trigger] out[i]).at >= change.at by {
        if i > place {
            assert(out[place].at < out[i].at);
        }
    }
    lemma_with_change(out, change, place);
}

/// A change that stands among others is the one found at its offset.
proof fn lemma_found(changed: Seq<Change>, i: int)
    requires
        by_offset(changed),
        0 <= i < changed.len(),
    ensures
        change_at(changed, changed[i].at) == Some(changed[i]),
    decreases changed.len(),
{
    if i < changed.len() - 1 {
        lemma_by_offset_front(changed);
        lemma_found(changed.drop_last(), i);
        assert(changed[i].at < changed[changed.len() - 1].at);
    }
}

proof fn lemma_same_elsewhere_removed(changed: Seq<Change>, place: int, other: u64)
    requires
        by_offset(changed),
        0 <= place < changed.len(),
        changed[place].at != other,
    ensures
        change_at(changed.remove(place), other) == change_at(changed, other),
{
    let out = changed.remove(place);
    lemma_removed(changed, place);
    lemma_change_at(changed, other);
    lemma_change_at(out, other);
    if touches(changed, other) {
        let i = choose|i: int| 0 <= i < changed.len() && (#[trigger] changed[i]).at == other;
        lemma_found(changed, i);
        if i < place {
            lemma_found(out, i);
        } else {
            lemma_found(out, i - 1);
        }
    }
}

proof fn lemma_same_elsewhere_updated(
    changed: Seq<Change>,
    place: int,
    change: Change,
    other: u64,
)
    requires
        by_offset(changed),
        0 <= place < changed.len(),
        changed[place].at == change.at,
        change.at != other,
    ensures
        change_at(changed.update(place, change), other) == change_at(changed, other),
{
    let out = changed.update(place, change);
    lemma_updated(changed, place, change);
    lemma_change_at(changed, other);
    lemma_change_at(out, other);
    if touches(changed, other) {
        let i = choose|i: int| 0 <= i < changed.len() && (#[trigger] changed[i]).at == other;
        lemma_found(changed, i);
        lemma_found(out, i);
    }
}

proof fn lemma_same_elsewhere_inserted(
    changed: Seq<Change>,
    place: int,
    change: Change,
    other: u64,
)
    requires
        by_offset(changed),
        0 <= place <= changed.len(),
        forall|i: int| 0 <= i < place ==> (#[trigger] changed[i]).at < change.at,
        forall|i: int| place <= i < changed.len() ==> (#[trigger] changed[i]).at > change.at,
        change.at != other,
    ensures
        change_at(changed.insert(place, change), other) == change_at(changed, other),
{
    let out = changed.insert(place, change);
    lemma_inserted(changed, place, change);
    lemma_change_at(changed, other);
    lemma_change_at(out, other);
    if touches(changed, other) {
        let i = choose|i: int| 0 <= i < changed.len() && (#[trigger] changed[i]).at == other;
        lemma_found(changed, i);
        if i < place {
            lemma_found(out, i);
        } else {
            lemma_found(out, i + 1);
        }
    }
}

impl Default for Edits {
    fn default() -> (r: Edits)
        ensures
            r@.changed.len() == 0,
            r@.order.len() == 0,
            sound(r@),
    {
        Edits { changed: Vec::new(), order: Vec::new() }
    }
}

impl Edits {
    /// The first place whose offset is not below `at`.
    fn place(&self, at: u64) -> (r: usize)
        requires
            by_offset(self@.changed),
        ensures
            r <= self@.changed.len(),
            forall|i: int| 0 <= i < r ==> (#[trigger] self@.changed[i]).at < at,
            forall|i: int| r <= i < self@.changed.len() ==> (#[trigger] self@.changed[i]).at >= at,
    {
        let mut place: usize = 0;
        while place < self.changed.len() && self.changed[place].at < at
            invariant
                by_offset(self@.changed),
                place <= self@.changed.len(),
                forall|i: int| 0 <= i < place ==> (#[trigger] self@.changed[i]).at < at,
            decreases self@.changed.len() - place,
        {
            place += 1;
        }
        assert forall|i: int| place <= i < self@.changed.len() implies (
        #[trigger] self@.changed[i]).at >= at by {
            if i > place {
                assert(self@.changed[place as int].at < self@.changed[i].at);
            }
        }
        place
    }

    fn drop_offset(&mut self, at: u64)
        ensures
            final(self)@ == (EditsView {
                order: without_offset(old(self)@.order, at),
                ..old(self)@
            }),
    {
        let ghost given = self.order@;
        let mut kept: Vec<u64> = Vec::new();
        let mut i: usize = 0;
        assert(given.take(0) =~= Seq::<u64>::empty());
        while i < self.order.len()
            invariant
                i <= self.order@.len(),
                given == self.order@,
                self@ == old(self)@,
                kept@ == without_offset(given.take(i as int), at),
            decreases self.order@.len() - i,
        {
            assert(given.take(i + 1).drop_last() =~= given.take(i as int));
            if self.order[i] != at {
                kept.push(self.order[i]);
            }
            i += 1;
        }
        assert(given.take(i as int) =~= given);
        self.order = kept;
    }

    /// Record a byte. `was` is what was shown at that offset: what the file
    /// has, or what an earlier change made of it.
    pub fn set(&mut self, at: u64, was: u8, now: u8)
        requires
            sound(old(self)@),
        ensures
            final(self)@ == byte_set(old(self)@, at, was, now),
            sound(final(self)@),
    {
        let ghost e = self@;
        let place: usize = self.place(at);
        let there: bool = place < self.changed.len() && self.changed[place].at == at;
        proof {
            law_typing_keeps_good_order(e, at, was, now, at);
        }
        let original: u8 = if there {
            self.changed[place].was
        } else {
            was
        };
        proof {
            lemma_with_change(e.changed, Change { at, was: original, now }, place as int);
        }
        if original == now {
            // Typed back to what the file has: not a change.
            if there {
                self.changed.remove(place);
            }
            self.drop_offset(at);
            return;
        }
        let change: Change = Change { at, was: original, now };
        if there {
            self.changed.set(place, change);
        } else {
            self.changed.insert(place, change);
            self.order.push(at);
        }
    }

    pub fn get(&self, at: u64) -> (r: Option<u8>)
        requires
            sound(self@),
        ensures
            r == match change_at(self@.changed, at) {
                Some(change) => Some(change.now),
                None => None,
            },
    {
        let place: usize = self.place(at);
        proof {
            lemma_with_change(self@.changed, Change { at, was: 0, now: 0 }, place as int);
        }
        if place < self.changed.len() && self.changed[place].at == at {
            Some(self.changed[place].now)
        } else {
            None
        }
    }

    pub fn is_changed(&self, at: u64) -> (r: bool)
        requires
            sound(self@),
        ensures
            r == touches(self@.changed, at),
    {
        proof {
            lemma_change_at(self@.changed, at);
        }
        self.get(at).is_some()
    }

    pub fn len(&self) -> (r: usize)
        ensures
            r == self@.changed.len(),
    {
        self.changed.len()
    }

    pub fn is_empty(&self) -> (r: bool)
        ensures
            r == (self@.changed.len() == 0),
    {
        self.changed.len() == 0
    }

    pub fn clear(&mut self)
        ensures
            final(self)@.changed.len() == 0,
            final(self)@.order.len() == 0,
            sound(final(self)@),
    {
        self.changed = Vec::new();
        self.order = Vec::new();
    }

    /// Undo the most recent change, and say where it was so the cursor can
    /// go and look at it.
    pub fn undo(&mut self) -> (r: Option<u64>)
        requires
            sound(old(self)@),
        ensures
            final(self)@ == undone(old(self)@),
            sound(final(self)@),
            r == if old(self)@.order.len() == 0 {
                None::<u64>
            } else {
                Some(old(self)@.order.last())
            },
    {
        let ghost e = self@;
        proof {
            law_undoing_keeps_good_order(e);
        }
        match self.order.pop() {
            None => None,
            Some(at) => {
                let place: usize = self.place(at);
                proof {
                    lemma_with_change(e.changed, Change { at, was: 0, now: 0 }, place as int);
                }
                if place < self.changed.len() && self.changed[place].at == at {
                    self.changed.remove(place);
                }
                assert(self@ =~= undone(e));
                Some(at)
            },
        }
    }

    /// Lay the changes over a row read from the file.
    pub fn overlay(&self, row: &mut Row)
        requires
            sound(self@),
            old(row).bytes@.len() > 0 ==> old(row).offset + old(row).bytes@.len() - 1 <= u64::MAX,
        ensures
            final(row).offset == old(row).offset,
            final(row).bytes@ == laid_over(self@.changed, old(row).offset, old(row).bytes@),
    {
        let ghost given = row.bytes@;
        let ghost wanted = laid_over(self@.changed, row.offset, given);
        let offset: u64 = row.offset;
        let mut out: Vec<u8> = Vec::new();
        let mut i: usize = 0;
        while i < row.bytes.len()
            invariant
                sound(self@),
                i <= row.bytes@.len(),
                row.bytes@ == given,
                row.offset == offset,
                old(row).offset == offset,
                given.len() > 0 ==> offset + given.len() - 1 <= u64::MAX,
                wanted == laid_over(self@.changed, offset, given),
                out@ =~= wanted.take(i as int),
            decreases row.bytes@.len() - i,
        {
            let byte: u8 = match self.get(offset + i as u64) {
                Some(now) => now,
                None => row.bytes[i],
            };
            assert(byte == wanted[i as int]);
            out.push(byte);
            i += 1;
        }
        row.bytes = out;
    }

    /// The changes as consecutive runs, which is what makes writing them one
    /// seek per run rather than one per byte.
    pub fn runs(&self) -> (r: Vec<(u64, Vec<u8>)>)
        requires
            sound(self@),
        ensures
            run_views(r@) == runs_of(self@.changed),
    {
        let ghost changed = self@.changed;
        let mut runs: Vec<(u64, Vec<u8>)> = Vec::new();
        let mut i: usize = 0;
        assert(changed.take(0) =~= Seq::<Change>::empty());
        assert(run_views(runs@) =~= Seq::empty());
        while i < self.changed.len()
            invariant
                changed == self@.changed,
                by_offset(changed),
                i <= changed.len(),
                run_views(runs@) == runs_of(changed.take(i as int)),
            decreases changed.len() - i,
        {
            let ghost front = changed.take(i as int);
            proof {
                assert(changed.take(i + 1).drop_last() =~= front);
                assert(changed.take(i + 1).last() == changed[i as int]);
                lemma_runs_end(front);
                if i > 0 {
                    assert(front.last() == changed[i - 1]);
                    assert(changed[i - 1].at < changed[i as int].at);
                }
            }
            let change: Change = self.changed[i];
            let ghost was = run_views(runs@);
            match runs.pop() {
                Some((start, bytes)) => {
                    let mut bytes: Vec<u8> = bytes;
                    proof {
                        assert(was.last() == (start, bytes@));
                        assert(run_views(runs@) =~= was.drop_last());
                    }
                    if start as u128 + bytes.len() as u128 == change.at as u128 {
                        let ghost before = bytes@;
                        bytes.push(change.now);
                        let ghost now = bytes@;
                        runs.push((start, bytes));
                        assert(run_views(runs@) =~= was.drop_last().push((start, now)));
                    } else {
                        let ghost kept = bytes@;
                        runs.push((start, bytes));
                        assert(run_views(runs@) =~= was.drop_last().push((start, kept)));
                        assert(was.drop_last().push(was.last()) =~= was);
                        let one: Vec<u8> = vec![change.now];
                        assert(one@ =~= seq![change.now]);
                        runs.push((change.at, one));
                        assert(run_views(runs@) =~= was.push((change.at, seq![change.now])));
                    }
                },
                None => {
                    let one: Vec<u8> = vec![change.now];
                    assert(one@ =~= seq![change.now]);
                    runs.push((change.at, one));
                    assert(run_views(runs@) =~= was.push((change.at, seq![change.now])));
                },
            }
            i += 1;
        }
        assert(changed.take(i as int) =~= changed);
        runs
    }

    /// What was changed, in words, for the line under the dump.
    pub fn describe(&self) -> (r: String)
        ensures
            r@ == edits_text(self@.changed),
    {
        if self.changed.len() == 0 {
            let none: String = String::new();
            assert(none@ =~= Seq::<char>::empty());
            return none;
        }
        if self.changed.len() == 1 {
            let change: Change = self.changed[0];
            let mut r: String = "1 byte changed: 0x".to_owned();
            r.append(text::hexadecimal_text(change.at).as_str());
            r.append(" ");
            r.append(pair_of(change.was).as_str());
            r.append(" -> ");
            r.append(pair_of(change.now).as_str());
            return r;
        }
        text::concat2(text::decimal_text(self.changed.len() as u64).as_str(), " bytes changed")
    }
}

/// A run ends right behind the last change, at the latest.
proof fn lemma_runs_end(changed: Seq<Change>)
    requires
        by_offset(changed),
    ensures
        changed.len() > 0 ==> runs_of(changed).len() > 0,
        runs_of(changed).len() > 0 ==> changed.len() > 0 && runs_of(changed).last().0 + runs_of(
            changed,
        ).last().1.len() == changed.last().at + 1,
{
}

/// What to write where, in a file of some size: the runs, but nothing past
/// its end. A file that shrank must not be extended by a write.
pub fn write_back(edits: &Edits, size: u64) -> (r: Vec<(u64, Vec<u8>)>)
    requires
        sound(edits@),
    ensures
        run_views(r@) == runs_inside(runs_of(edits@.changed), size),
{
    let runs: Vec<(u64, Vec<u8>)> = edits.runs();
    let ghost all = run_views(runs@);
    let ghost given = runs@;
    let mut out: Vec<(u64, Vec<u8>)> = Vec::new();
    assert(all.take(0) =~= Seq::<(u64, Seq<u8>)>::empty());
    assert(run_views(out@) =~= Seq::empty());
    for run in it: runs
        invariant
            it.seq() == given,
            all == run_views(given),
            run_views(out@) == runs_inside(all.take(it.index() as int), size),
    {
        proof {
            let i = it.index() as int;
            assert(all.take(i + 1).drop_last() =~= all.take(i));
            assert(all.take(i + 1).last() == (given[i].0, given[i].1@));
        }
        let (at, bytes): (u64, Vec<u8>) = run;
        if at < size {
            let room: u64 = size - at;
            let ghost was = run_views(out@);
            let part: Vec<u8> = if bytes.len() as u64 <= room {
                bytes
            } else {
                let part: Vec<u8> = bytes_between(bytes.as_slice(), 0, room as usize);
                assert(part@ =~= bytes@.take(room as int));
                part
            };
            let ghost kept = part@;
            out.push((at, part));
            assert(run_views(out@) =~= was.push((at, kept)));
        }
    }
    assert(all.take(all.len() as int) =~= all);
    out
}

// ---- laws -------------------------------------------------------------------------------------

/// Undoing keeps edits in good order, and takes out exactly the change that
/// was made last.
pub proof fn law_undoing_keeps_good_order(edits: EditsView)
    requires
        sound(edits),
    ensures
        sound(undone(edits)),
        edits.order.len() > 0 ==> change_at(undone(edits).changed, edits.order.last()) is None,
        forall|other: u64|
            edits.order.len() > 0 && other != edits.order.last() ==> #[trigger] change_at(
                undone(edits).changed,
                other,
            ) == change_at(edits.changed, other),
{
    if edits.order.len() > 0 {
        let at = edits.order.last();
        let out = undone(edits);
        let place = place_of(edits.changed, at);
        lemma_place_of(edits.changed, at);
        lemma_with_change(edits.changed, Change { at, was: 0, now: 0 }, place);
        assert(edits.order.contains(at));
        lemma_change_at(edits.changed, at);
        assert(touches(edits.changed, at));
        lemma_removed(edits.changed, place);
        lemma_change_at(out.changed, at);
        assert forall|o: u64| #[trigger] out.order.contains(o) <==> touches(out.changed, o) by {
            assert(edits.order.contains(o) <==> touches(edits.changed, o));
            if out.order.contains(o) {
                let i = choose|i: int| 0 <= i < out.order.len() && out.order[i] == o;
                assert(edits.order[i] == o);
                assert(edits.order[i] != edits.order[edits.order.len() - 1]);
            }
            if edits.order.contains(o) && o != at {
                let i = choose|i: int| 0 <= i < edits.order.len() && edits.order[i] == o;
                assert(out.order[i] == o);
            }
        }
        assert forall|other: u64| other != at implies #[trigger] change_at(out.changed, other)
            == change_at(edits.changed, other) by {
            lemma_same_elsewhere_removed(edits.changed, place, other);
        }
    }
}

/// Undoing a first change to a byte restores the edits as they were.
pub proof fn law_undoing_is_exact(edits: EditsView, at: u64, was: u8, now: u8)
    requires
        sound(edits),
        was != now,
        change_at(edits.changed, at) is None,
    ensures
        undone(byte_set(edits, at, was, now)) == edits,
{
    let place = place_of(edits.changed, at);
    lemma_place_of(edits.changed, at);
    let change = Change { at, was, now };
    lemma_with_change(edits.changed, change, place);
    lemma_inserted(edits.changed, place, change);
    let out = edits.changed.insert(place, change);
    assert forall|i: int| 0 <= i < place implies (#[trigger] out[i]).at < at by {
        assert(out[i] == edits.changed[i]);
    }
    assert forall|i: int| place <= i < out.len() implies (#[trigger] out[i]).at >= at by {
        if i > place {
            assert(out[i] == edits.changed[i - 1]);
        }
    }
    lemma_with_change(out, change, place);
    assert(out.remove(place) =~= edits.changed);
    assert(edits.order.push(at).drop_last() =~= edits.order);
}

/// A byte typed back to what the file has is no change, whatever it was shown
/// as before: the edits are as they were.
pub proof fn law_typing_back_is_no_change(
    edits: EditsView,
    at: u64,
    was: u8,
    now: u8,
    shown: u8,
)
    requires
        sound(edits),
        was != now,
        change_at(edits.changed, at) is None,
    ensures
        byte_set(byte_set(edits, at, was, now), at, shown, was) == edits,
{
    law_undoing_is_exact(edits, at, was, now);
    law_typing_keeps_good_order(edits, at, was, now, at);
    let once = byte_set(edits, at, was, now);
    lemma_change_at(edits.changed, at);
    assert(!edits.order.contains(at));
    lemma_without_offset(edits.order, at);
    assert(once.order.drop_last() =~= edits.order);
}

/// However often a byte is typed over, typing what the file has there ends the
/// change to it, and touches no other.
pub proof fn law_the_byte_of_the_file_is_no_change(
    edits: EditsView,
    at: u64,
    shown: u8,
    other: u64,
)
    requires
        sound(edits),
    ensures
        ({
            let after = byte_set(edits, at, shown, on_file(edits, at, shown));
            &&& change_at(after.changed, at) is None
            &&& !after.order.contains(at)
            &&& other != at ==> change_at(after.changed, other) == change_at(edits.changed, other)
        }),
{
    let now = on_file(edits, at, shown);
    law_typing_keeps_good_order(edits, at, shown, now, other);
    lemma_without_offset(edits.order, at);
}

/// The byte that some runs write at an offset, if they do.
pub open spec fn run_byte(runs: Seq<(u64, Seq<u8>)>, at: u64) -> Option<u8>
    decreases runs.len(),
{
    if runs.len() == 0 {
        None
    } else {
        let (start, bytes) = runs.last();
        if start <= at < start + bytes.len() {
            Some(bytes[at - start])
        } else {
            run_byte(runs.drop_last(), at)
        }
    }
}

/// The runs hold every change and nothing else.
pub proof fn law_runs_hold_the_changes(changed: Seq<Change>, at: u64)
    requires
        by_offset(changed),
    ensures
        run_byte(runs_of(changed), at) == match change_at(changed, at) {
            Some(change) => Some(change.now),
            None => None,
        },
    decreases changed.len(),
{
    let runs = runs_of(changed);
    if changed.len() > 0 {
        lemma_by_offset_front(changed);
        let front = changed.drop_last();
        law_runs_hold_the_changes(front, at);
        lemma_runs_end(front);
        let before = runs_of(front);
        if front.len() > 0 {
            assert(front.last().at < changed.last().at) by {
                assert(front[front.len() - 1].at < changed.last().at);
            }
        }
        if before.len() > 0 && before.last().0 + before.last().1.len() == changed.last().at {
            assert(runs.drop_last() =~= before.drop_last());
        } else {
            assert(runs.drop_last() =~= before);
        }
    }
}

/// Nothing is written past the end of the file.
pub proof fn law_the_file_never_grows(runs: Seq<(u64, Seq<u8>)>, size: u64, i: int)
    requires
        0 <= i < runs_inside(runs, size).len(),
    ensures
        runs_inside(runs, size)[i].0 + runs_inside(runs, size)[i].1.len() <= size,
    decreases runs.len(),
{
    if runs.len() > 0 {
        let front = runs_inside(runs.drop_last(), size);
        if i < front.len() {
            law_the_file_never_grows(runs.drop_last(), size, i);
        }
    }
}

/// What some rows hold, one after another.
pub open spec fn bytes_of_rows(rows: Seq<RowView>) -> Seq<u8>
    decreases rows.len(),
{
    if rows.len() == 0 {
        Seq::empty()
    } else {
        rows[0].bytes + bytes_of_rows(rows.skip(1))
    }
}

/// Rows hold every byte of the block they were cut from, in order.
pub proof fn law_rows_hold_the_bytes(bytes: Seq<u8>, offset: int)
    ensures
        bytes_of_rows(cut(bytes, offset)) == bytes,
    decreases bytes.len(),
{
    let rows = cut(bytes, offset);
    if bytes.len() == 0 {
        assert(bytes_of_rows(rows) =~= bytes);
    } else if bytes.len() <= 16 {
        assert(rows.skip(1) =~= Seq::<RowView>::empty());
        assert(bytes_of_rows(rows.skip(1)) =~= Seq::<u8>::empty());
        assert(bytes_of_rows(rows) =~= bytes);
    } else {
        law_rows_hold_the_bytes(bytes.skip(16), offset + 16);
        assert(rows.skip(1) =~= cut(bytes.skip(16), offset + 16));
        assert(bytes_of_rows(rows) =~= bytes.take(16) + bytes.skip(16));
        assert(bytes.take(16) + bytes.skip(16) =~= bytes);
    }
}

/// Comparing two files block by block comes to the same as comparing them
/// whole: what precedes is equal and does not matter.
pub proof fn law_blocks_add_up(before: Seq<u8>, left: Seq<u8>, right: Seq<u8>)
    ensures
        difference(before + left, before + right, 0) == match difference(left, right, 0) {
            Some(at) => Some(before.len() + at),
            None => None,
        },
{
    lemma_common_head(before, left, right, 0);
    lemma_shifted(before, left, right, 0);
}

proof fn lemma_common_head(before: Seq<u8>, left: Seq<u8>, right: Seq<u8>, from: int)
    requires
        0 <= from <= before.len(),
    ensures
        difference(before + left, before + right, from) == difference(
            before + left,
            before + right,
            before.len() as int,
        ),
    decreases before.len() - from,
{
    if from < before.len() {
        lemma_common_head(before, left, right, from + 1);
        assert((before + left)[from] == (before + right)[from]);
    }
}

proof fn lemma_shifted(before: Seq<u8>, left: Seq<u8>, right: Seq<u8>, from: int)
    requires
        0 <= from,
    ensures
        difference(before + left, before + right, before.len() + from) == match difference(
            left,
            right,
            from,
        ) {
            Some(at) => Some(before.len() + at),
            None => None,
        },
    decreases left.len() - from,
{
    if from < left.len() && from < right.len() {
        assert((before + left)[before.len() + from] == left[from]);
        assert((before + right)[before.len() + from] == right[from]);
        lemma_shifted(before, left, right, from + 1);
    }
}

/// Two files never differ exactly where they are the same.
pub proof fn law_no_difference_means_the_same(left: Seq<u8>, right: Seq<u8>)
    ensures
        difference(left, right, 0) is None <==> left == right,
{
    lemma_no_difference(left, right, 0);
    if difference(left, right, 0) is None {
        assert(left =~= right);
    }
}

proof fn lemma_no_difference(left: Seq<u8>, right: Seq<u8>, from: int)
    requires
        0 <= from,
        from <= left.len() || from <= right.len(),
    ensures
        difference(left, right, from) is None <==> left.len() == right.len() && forall|i: int|
            from <= i < left.len() ==> left[i] == right[i],
    decreases left.len() - from,
{
    if from < left.len() && from < right.len() && left[from] == right[from] {
        lemma_no_difference(left, right, from + 1);
    }
}

/// A digit typed over each half of a byte makes the byte of both digits.
pub proof fn law_two_digits_make_a_byte(current: u8, high: u8, low: u8)
    requires
        high < 16,
        low < 16,
    ensures
        typed_over(typed_over(current, high, false) as u8, low, true) == high * 16 + low,
{
}

/// A row shows what was typed: over the bytes of the file a typed byte stands
/// as it was typed, and every other byte as it did before.
pub proof fn law_rows_show_what_was_typed(
    edits: EditsView,
    at: u64,
    was: u8,
    now: u8,
    offset: u64,
    bytes: Seq<u8>,
    i: int,
)
    requires
        sound(edits),
        0 <= i < bytes.len(),
        offset + bytes.len() - 1 <= u64::MAX,
        offset + i == at ==> bytes[i] == on_file(edits, at, was),
    ensures
        laid_over(byte_set(edits, at, was, now).changed, offset, bytes).len() == bytes.len(),
        laid_over(byte_set(edits, at, was, now).changed, offset, bytes)[i] == if offset + i == at {
            now
        } else {
            laid_over(edits.changed, offset, bytes)[i]
        },
{
    law_typing_keeps_good_order(edits, at, was, now, (offset + i) as u64);
}

/// Where nothing was typed a row shows the file.
pub proof fn law_nothing_typed_shows_the_file(offset: u64, bytes: Seq<u8>)
    ensures
        laid_over(Seq::empty(), offset, bytes) == bytes,
{
    assert(laid_over(Seq::empty(), offset, bytes) =~= bytes);
}

proof fn lemma_runs_inside(runs: Seq<(u64, Seq<u8>)>, size: u64, at: u64)
    ensures
        run_byte(runs_inside(runs, size), at) == if at < size {
            run_byte(runs, at)
        } else {
            None
        },
    decreases runs.len(),
{
    if runs.len() > 0 {
        let front = runs.drop_last();
        lemma_runs_inside(front, size, at);
        let out = runs_inside(runs, size);
        if runs.last().0 < size {
            assert(out.drop_last() =~= runs_inside(front, size));
        }
    }
}

/// What is written back is what was typed, byte for byte and where it was
/// typed, as far as the file reaches; and nothing else.
pub proof fn law_what_was_typed_is_written(edits: EditsView, size: u64, at: u64)
    requires
        sound(edits),
    ensures
        run_byte(runs_inside(runs_of(edits.changed), size), at) == match change_at(
            edits.changed,
            at,
        ) {
            Some(change) => if at < size {
                Some(change.now)
            } else {
                None
            },
            None => None,
        },
{
    law_runs_hold_the_changes(edits.changed, at);
    lemma_runs_inside(runs_of(edits.changed), size, at);
}

/// The rows of some bytes are sixteen bytes long but the last, and each says
/// where its bytes stand.
pub proof fn law_rows_stand_sixteen_apart(bytes: Seq<u8>, offset: int, i: int)
    requires
        0 <= i < cut(bytes, offset).len(),
        0 <= offset,
        offset + bytes.len() <= u64::MAX,
    ensures
        cut(bytes, offset).len() == (bytes.len() + 15) / 16,
        cut(bytes, offset)[i].offset == offset + 16 * i,
        cut(bytes, offset)[i].bytes == bytes.subrange(
            16 * i,
            if 16 * i + 16 <= bytes.len() {
                16 * i + 16
            } else {
                bytes.len() as int
            },
        ),
    decreases bytes.len(),
{
    if bytes.len() > 16 {
        let rest = bytes.skip(16);
        let tail = cut(rest, offset + 16);
        assert(cut(rest, offset + 16).len() > 0);
        if i > 0 {
            law_rows_stand_sixteen_apart(rest, offset + 16, i - 1);
            assert(cut(bytes, offset)[i] == tail[i - 1]);
            let to = if 16 * i + 16 <= bytes.len() {
                16 * i + 16
            } else {
                bytes.len() as int
            };
            assert(rest.subrange(16 * (i - 1), to - 16) =~= bytes.subrange(16 * i, to));
        } else {
            law_rows_stand_sixteen_apart(rest, offset + 16, 0);
            assert(bytes.take(16) =~= bytes.subrange(0, 16));
        }
    } else {
        assert(bytes.subrange(0, bytes.len() as int) =~= bytes);
    }
}

/// A byte's two digits read as the byte.
pub proof fn law_two_digits_read_as_the_byte(byte: u8)
    ensures
        byte_pair(byte).len() == 2,
        text::hex_number(byte_pair(byte)) == byte,
{
    let pair = byte_pair(byte);
    assert(pair.drop_last().drop_last() =~= Seq::<char>::empty());
    assert(text::hex_number(pair.drop_last().drop_last()) == 0);
    assert(pair.drop_last().last() == pair[0]);
    assert(text::hex_number(pair.drop_last()) == byte / 16);
    assert(text::hex_number(pair) == text::hex_number(pair.drop_last()) * 16 + byte % 16);
}

proof fn lemma_hex_cells(bytes: Seq<u8>, count: nat, i: int)
    requires
        count <= 16,
    ensures
        hex_cells(bytes, count).len() == 3 * count + if count >= 8 {
            1int
        } else {
            0int
        },
        0 <= i < count ==> hex_cells(bytes, count).subrange(
            3 * i + if i >= 8 {
                1int
            } else {
                0int
            },
            3 * i + 2 + if i >= 8 {
                1int
            } else {
                0int
            },
        ) == pair_at(bytes, i),
    decreases count,
{
    reveal_strlit("  ");
    if count > 0 {
        lemma_hex_cells(bytes, (count - 1) as nat, i);
        let from = 3 * i + if i >= 8 {
            1int
        } else {
            0int
        };
        let all = hex_cells(bytes, count);
        let front = hex_cells(bytes, (count - 1) as nat);
        assert(pair_at(bytes, count - 1).len() == 2);
        if 0 <= i < count - 1 {
            assert(all.subrange(from, from + 2) =~= front.subrange(from, from + 2));
        } else if i == count - 1 {
            assert(all.subrange(from, from + 2) =~= pair_at(bytes, i));
        }
    }
}

/// The hex column has a place of its own for each of sixteen bytes, with a
/// wider gap in the middle; a byte that is not there leaves its place blank,
/// so all columns are of one width.
pub proof fn law_each_byte_has_its_place(bytes: Seq<u8>, i: int)
    requires
        0 <= i < 16,
    ensures
        hex_column(bytes).len() == 48,
        hex_column(bytes).subrange(
            3 * i + if i >= 8 {
                1int
            } else {
                0int
            },
            3 * i + 2 + if i >= 8 {
                1int
            } else {
                0int
            },
        ) == if i < bytes.len() {
            byte_pair(bytes[i])
        } else {
            seq![' ', ' ']
        },
{
    reveal_strlit("  ");
    assert("  "@ =~= seq![' ', ' ']);
    lemma_hex_cells(bytes, 16, i);
    let from = 3 * i + if i >= 8 {
        1int
    } else {
        0int
    };
    assert(hex_column(bytes).subrange(from, from + 2) =~= hex_cells(bytes, 16).subrange(
        from,
        from + 2,
    ));
}

/// The text column shows each byte by one character: itself where that can
/// be printed, and a dot where it cannot.
pub proof fn law_the_text_column_shows_what_prints(bytes: Seq<u8>, i: int)
    requires
        0 <= i < bytes.len(),
    ensures
        text_column(bytes).len() == bytes.len(),
        0x20 <= bytes[i] < 0x7f ==> text_column(bytes)[i] as u32 == bytes[i] as u32,
        !(0x20 <= bytes[i] < 0x7f) ==> text_column(bytes)[i] == '.',
{
}

/// The first difference of two runs of bytes is where they differ, with
/// everything in front the same; the end of the shorter one counts.
pub proof fn law_the_first_difference_is_the_first(left: Seq<u8>, right: Seq<u8>)
    ensures
        match difference(left, right, 0) {
            Some(at) => {
                &&& 0 <= at <= left.len() && at <= right.len()
                &&& left.take(at) == right.take(at)
                &&& at < left.len() && at < right.len() ==> left[at] != right[at]
                &&& at == left.len() || at == right.len() ==> left.len() != right.len()
            },
            None => left == right,
        },
{
    assert(left.take(0) =~= right.take(0));
    lemma_difference(left, right, 0);
}

proof fn lemma_difference(left: Seq<u8>, right: Seq<u8>, from: int)
    requires
        0 <= from <= left.len(),
        from <= right.len(),
        left.take(from) == right.take(from),
    ensures
        match difference(left, right, from) {
            Some(at) => {
                &&& from <= at <= left.len() && at <= right.len()
                &&& left.take(at) == right.take(at)
                &&& at < left.len() && at < right.len() ==> left[at] != right[at]
                &&& at == left.len() || at == right.len() ==> left.len() != right.len()
            },
            None => left == right,
        },
    decreases left.len() - from,
{
    if from < left.len() && from < right.len() {
        if left[from] == right[from] {
            assert(left.take(from + 1) =~= left.take(from).push(left[from]));
            assert(right.take(from + 1) =~= right.take(from).push(right[from]));
            lemma_difference(left, right, from + 1);
        }
    } else if left.len() == right.len() {
        assert(left.take(from) =~= left);
        assert(right.take(from) =~= right);
    }
}

/// A place asked for is kept where the file has it; before the file it is the
/// first byte, and past the end the last.
pub proof fn law_the_cursor_stays_in_the_file(at: int, size: u64)
    ensures
        size > 0 ==> 0 <= within(at, size) < size,
        0 <= at < size ==> within(at, size) == at,
        size > 0 && at >= size ==> within(at, size) == size - 1,
        at < 0 ==> within(at, size) == 0,
        size == 0 ==> within(at, size) == 0,
{
}

proof fn lemma_hexadecimal_reads(n: nat)
    ensures
        in_radix(text::hexadecimal(n), 16) == Some(n as int),
        text::hexadecimal(n).len() > 0,
        forall|i: int|
            0 <= i < text::hexadecimal(n).len() ==> digit_value(
                #[trigger] text::hexadecimal(n)[i],
            ) is Some,
    decreases n,
{
    let s = text::hexadecimal(n);
    if n < 16 {
        assert(s.drop_last() =~= Seq::<char>::empty());
        assert(in_radix(s.drop_last(), 16) == Some(0int));
        assert(digit_value(s.last()) == Some(n as int));
    } else {
        lemma_hexadecimal_reads(n / 16);
        assert(s.drop_last() =~= text::hexadecimal(n / 16));
        assert(digit_value(s.last()) == Some((n % 16) as int));
        assert forall|i: int| 0 <= i < s.len() implies digit_value(#[trigger] s[i]) is Some by {
            if i < s.len() - 1 {
                assert(s[i] == text::hexadecimal(n / 16)[i]);
            }
        }
    }
}

proof fn lemma_decimal_in_radix(n: nat)
    ensures
        in_radix(text::decimal(n), 10) == Some(n as int),
        text::decimal(n).len() > 0,
        forall|i: int|
            0 <= i < text::decimal(n).len() ==> '0' <= #[trigger] text::decimal(n)[i] <= '9',
    decreases n,
{
    let s = text::decimal(n);
    if n < 10 {
        assert(s.drop_last() =~= Seq::<char>::empty());
        assert(in_radix(s.drop_last(), 10) == Some(0int));
        assert(digit_value(s.last()) == Some(n as int));
    } else {
        lemma_decimal_in_radix(n / 10);
        assert(s.drop_last() =~= text::decimal(n / 10));
        assert(digit_value(s.last()) == Some((n % 10) as int));
        assert forall|i: int| 0 <= i < s.len() implies '0' <= #[trigger] s[i] <= '9' by {
            if i < s.len() - 1 {
                assert(s[i] == text::decimal(n / 10)[i]);
            }
        }
    }
}

proof fn lemma_ungrouped_same(s: Seq<char>)
    requires
        forall|i: int| 0 <= i < s.len() ==> digit_value(#[trigger] s[i]) is Some,
    ensures
        ungrouped(s) == s,
    decreases s.len(),
{
    if s.len() > 0 {
        let front = s.drop_last();
        assert forall|i: int| 0 <= i < front.len() implies digit_value(#[trigger] front[i]) is Some by {
            assert(front[i] == s[i]);
        }
        lemma_ungrouped_same(front);
        assert(digit_value(s[s.len() - 1]) is Some);
        assert(s =~= front.push(s.last()));
    } else {
        assert(ungrouped(s) =~= s);
    }
}

/// An offset reads as it was meant: in hexadecimal with `0x` in front or with
/// nothing, in decimal with `0n` or `+`; past the end of the file it is the
/// last byte.
pub proof fn law_an_offset_reads_as_it_is_written(n: nat, size: u64)
    ensures
        offset_meant(text::hexadecimal(n), size) == Some(within(n as int, size)),
        offset_meant(seq!['0', 'x'] + text::hexadecimal(n), size) == Some(within(n as int, size)),
        offset_meant(seq!['0', 'n'] + text::decimal(n), size) == Some(within(n as int, size)),
        offset_meant(seq!['+'] + text::decimal(n), size) == Some(within(n as int, size)),
{
    let h = text::hexadecimal(n);
    let d = text::decimal(n);
    lemma_hexadecimal_reads(n);
    lemma_decimal_in_radix(n);
    assert forall|i: int| 0 <= i < d.len() implies digit_value(#[trigger] d[i]) is Some by {
        assert('0' <= d[i] <= '9');
    }
    lemma_ungrouped_same(h);
    lemma_ungrouped_same(d);
    assert(digit_value(h[0]) is Some && digit_value(h[h.len() - 1]) is Some);
    if h.len() > 1 {
        assert(digit_value(h[1]) is Some);
    }
    assert(digit_value(d[0]) is Some && digit_value(d[d.len() - 1]) is Some);
    text::lemma_trimmed_fixed(h);
    let a = seq!['0', 'x'] + h;
    let b = seq!['0', 'n'] + d;
    let c = seq!['+'] + d;
    text::lemma_trimmed_fixed(a);
    text::lemma_trimmed_fixed(b);
    text::lemma_trimmed_fixed(c);
    assert(a.skip(2) =~= h);
    assert(b.skip(2) =~= d);
    assert(c.skip(1) =~= d);
}

/// A file has as many rows as hold its bytes, sixteen to a row, and no more;
/// an offset is shown with eight digits, or as many as its size needs.
pub proof fn law_a_file_has_the_rows_it_needs(size: u64)
    ensures
        16 * rows_in(size) >= size,
        16 * rows_in(size) < size + 16,
        offset_digits(size) >= 8,
        size > 0 ==> offset_digits(size) >= text::hexadecimal(size as nat).len(),
        offset_digits(size) > 8 ==> offset_digits(size) == text::hexadecimal(size as nat).len(),
{
    assert(text::hexadecimal(1).len() == 1);
}

/// What groups the digits of an offset says nothing: `_`, a space or a comma,
/// wherever it stands.
pub proof fn law_grouping_says_nothing(first: Seq<char>, second: Seq<char>)
    ensures
        ungrouped(first + seq!['_'] + second) == ungrouped(first + second),
        ungrouped(first + seq![' '] + second) == ungrouped(first + second),
        ungrouped(first + seq![','] + second) == ungrouped(first + second),
        ungrouped(first + second) == ungrouped(first) + ungrouped(second),
    decreases second.len(),
{
    lemma_ungrouped_two(first, second);
    lemma_ungrouped_two(first + seq!['_'], second);
    lemma_ungrouped_two(first + seq![' '], second);
    lemma_ungrouped_two(first + seq![','], second);
    assert((first + seq!['_']).drop_last() =~= first);
    assert((first + seq![' ']).drop_last() =~= first);
    assert((first + seq![',']).drop_last() =~= first);
}

proof fn lemma_ungrouped_two(a: Seq<char>, b: Seq<char>)
    ensures
        ungrouped(a + b) == ungrouped(a) + ungrouped(b),
    decreases b.len(),
{
    if b.len() == 0 {
        assert(a + b =~= a);
        assert(ungrouped(a) + ungrouped(b) =~= ungrouped(a));
    } else {
        assert((a + b).drop_last() =~= a + b.drop_last());
        lemma_ungrouped_two(a, b.drop_last());
        assert(ungrouped(a + b) =~= ungrouped(a) + ungrouped(b));
    }
}

} // verus!
