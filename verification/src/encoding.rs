//! What bytes a text is made of: recognising, reading and writing the
//! encodings that files come in, and their line endings.

use vstd::prelude::*;
use vstd::slice::slice_subrange;
use vstd::utf8::{decode_utf8, encode_utf8, valid_utf8};
use crate::text;
use crate::text::chars;

verus! {

broadcast use vstd::string::group_string_axioms;

/// An encoding this program can read and write.
#[derive(Debug, Clone, Copy, PartialEq, Eq, Structural)]
pub enum Encoding {
    Utf8,
    /// UTF-8 with the byte-order mark Windows editors like to write.
    Utf8Bom,
    Utf16Le,
    Utf16Be,
    /// Every byte is the code point of the same number. Lossless both ways,
    /// which is what makes it the safe fallback.
    Latin1,
    /// Windows western European: Latin-1 with the 0x80..0x9F range filled in.
    Cp1252,
    /// Windows Cyrillic.
    Cp1251,
}

/// The encodings, in the order they are offered.
pub const ALL: [Encoding; 7] = [
    Encoding::Utf8,
    Encoding::Utf8Bom,
    Encoding::Utf16Le,
    Encoding::Utf16Be,
    Encoding::Cp1252,
    Encoding::Cp1251,
    Encoding::Latin1,
];

impl Default for Encoding {
    fn default() -> (r: Encoding)
        ensures
            r == Encoding::Utf8,
    {
        Encoding::Utf8
    }
}

/// What an encoding is called.
pub open spec fn encoding_label(encoding: Encoding) -> Seq<char> {
    match encoding {
        Encoding::Utf8 => "UTF-8"@,
        Encoding::Utf8Bom => "UTF-8 with BOM"@,
        Encoding::Utf16Le => "UTF-16 LE"@,
        Encoding::Utf16Be => "UTF-16 BE"@,
        Encoding::Latin1 => "Latin-1"@,
        Encoding::Cp1252 => "Windows-1252"@,
        Encoding::Cp1251 => "Windows-1251"@,
    }
}

/// The byte-order mark of an encoding.
pub open spec fn mark(encoding: Encoding) -> Seq<u8> {
    match encoding {
        Encoding::Utf8Bom => seq![0xEFu8, 0xBB, 0xBF],
        Encoding::Utf16Le => seq![0xFFu8, 0xFE],
        Encoding::Utf16Be => seq![0xFEu8, 0xFF],
        _ => Seq::empty(),
    }
}

impl Encoding {
    pub fn label(self) -> (r: &'static str)
        ensures
            r@ == encoding_label(self),
    {
        match self {
            Encoding::Utf8 => "UTF-8",
            Encoding::Utf8Bom => "UTF-8 with BOM",
            Encoding::Utf16Le => "UTF-16 LE",
            Encoding::Utf16Be => "UTF-16 BE",
            Encoding::Latin1 => "Latin-1",
            Encoding::Cp1252 => "Windows-1252",
            Encoding::Cp1251 => "Windows-1251",
        }
    }

    /// The bytes that go in front of the text, if any.
    pub fn bom(self) -> (r: Vec<u8>)
        ensures
            r@ == mark(self),
    {
        let r: Vec<u8> = match self {
            Encoding::Utf8Bom => vec![0xEFu8, 0xBB, 0xBF],
            Encoding::Utf16Le => vec![0xFFu8, 0xFE],
            Encoding::Utf16Be => vec![0xFEu8, 0xFF],
            _ => Vec::new(),
        };
        assert(r@ =~= mark(self));
        r
    }

    /// Whether every possible sequence of bytes reads as *something*.
    ///
    /// True for the single-byte encodings, which is what makes them a
    /// fallback that cannot fail rather than one that fails differently.
    pub fn accepts_anything(self) -> (r: bool)
        ensures
            r == (self == Encoding::Latin1 || self == Encoding::Cp1252 || self
                == Encoding::Cp1251),
    {
        self == Encoding::Latin1 || self == Encoding::Cp1252 || self == Encoding::Cp1251
    }
}

/// How sure a detection is.
#[derive(Debug, Clone, Copy, PartialEq, Eq, Structural)]
pub enum Confidence {
    /// A byte-order mark said so. This is not a guess.
    Marked,
    /// The bytes are valid UTF-8 and there is enough of them to mean it.
    Certain,
    /// Nothing contradicted it, but a single-byte encoding never can be
    /// contradicted - so this is a guess, and says so.
    Guessed,
}

#[derive(Debug, Clone, Copy, PartialEq, Eq, Structural)]
pub struct Detected {
    pub encoding: Encoding,
    pub confidence: Confidence,
}

impl Detected {
    /// The words that go beside the encoding in the window.
    pub fn describe(&self) -> (r: String)
        ensures
            r@ == encoding_label(self.encoding) + match self.confidence {
                Confidence::Marked => " (byte-order mark)"@,
                Confidence::Certain => Seq::empty(),
                Confidence::Guessed => " (a guess)"@,
            },
    {
        match self.confidence {
            Confidence::Marked => text::concat2(self.encoding.label(), " (byte-order mark)"),
            Confidence::Certain => {
                let r: String = self.encoding.label().to_owned();
                assert(r@ =~= r@ + Seq::<char>::empty());
                r
            },
            Confidence::Guessed => text::concat2(self.encoding.label(), " (a guess)"),
        }
    }
}

// ---- recognising ---------------------------------------------------------------------

/// How much of a file is looked at.
pub const SNIFF: usize = 65536;

/// Whether some bytes begin with others.
pub open spec fn opens_with(bytes: Seq<u8>, head: Seq<u8>) -> bool {
    head.len() <= bytes.len() && bytes.take(head.len() as int) == head
}

/// Whether bytes are valid UTF-8 up to their end, where they may break off
/// inside a character.
pub open spec fn utf8_as_far_as_it_goes(bytes: Seq<u8>) -> bool {
    exists|rest: Seq<u8>| valid_utf8(#[trigger] (bytes + rest))
}

/// How many bytes are above ASCII.
pub open spec fn high_bytes(bytes: Seq<u8>) -> nat
    decreases bytes.len(),
{
    if bytes.len() == 0 {
        0
    } else {
        high_bytes(bytes.drop_last()) + (if bytes.last() >= 0x80 {
            1nat
        } else {
            0
        })
    }
}

/// How many of the first `pairs` pairs of bytes have a null in their first
/// (`side` 0) or second (`side` 1) byte.
pub open spec fn nulls(bytes: Seq<u8>, side: int, pairs: nat) -> nat
    decreases pairs,
{
    if pairs == 0 {
        0
    } else {
        nulls(bytes, side, (pairs - 1) as nat) + (if bytes[2 * (pairs - 1) + side] == 0 {
            1nat
        } else {
            0
        })
    }
}

/// The UTF-16 that bytes without a mark look like: nulls in well over half of
/// one side, and in almost none of the other.
pub open spec fn unmarked_utf16(bytes: Seq<u8>) -> Option<Encoding> {
    let pairs = bytes.len() / 2;
    let low = nulls(bytes, 0, pairs);
    let high = nulls(bytes, 1, pairs);
    if bytes.len() < 4 {
        None
    } else if high >= pairs * 3 / 4 && low * 8 < pairs {
        Some(Encoding::Utf16Le)
    } else if low >= pairs * 3 / 4 && high * 8 < pairs {
        Some(Encoding::Utf16Be)
    } else {
        None
    }
}

/// What bytes without a mark are taken for.
pub open spec fn guessed(bytes: Seq<u8>) -> Detected {
    if bytes.len() == 0 {
        Detected { encoding: Encoding::Utf8, confidence: Confidence::Certain }
    } else if unmarked_utf16(bytes) is Some {
        Detected { encoding: unmarked_utf16(bytes)->0, confidence: Confidence::Guessed }
    } else if utf8_as_far_as_it_goes(bytes) {
        Detected { encoding: Encoding::Utf8, confidence: Confidence::Certain }
    } else if high_bytes(bytes) * 4 >= bytes.len() {
        Detected { encoding: Encoding::Cp1251, confidence: Confidence::Guessed }
    } else {
        Detected { encoding: Encoding::Cp1252, confidence: Confidence::Guessed }
    }
}

/// The first bytes, [`SNIFF`] of them at the most.
pub open spec fn looked_at(bytes: Seq<u8>) -> Seq<u8> {
    if bytes.len() > SNIFF {
        bytes.take(SNIFF as int)
    } else {
        bytes
    }
}

/// What bytes are taken for.
pub open spec fn detected(bytes: Seq<u8>) -> Detected {
    if opens_with(bytes, mark(Encoding::Utf8Bom)) {
        Detected { encoding: Encoding::Utf8Bom, confidence: Confidence::Marked }
    } else if opens_with(bytes, mark(Encoding::Utf16Le)) {
        Detected { encoding: Encoding::Utf16Le, confidence: Confidence::Marked }
    } else if opens_with(bytes, mark(Encoding::Utf16Be)) {
        Detected { encoding: Encoding::Utf16Be, confidence: Confidence::Marked }
    } else {
        guessed(looked_at(bytes))
    }
}

/// Calls `std::str::from_utf8` and hands on `Utf8Error::error_len`. It
/// succeeds on valid UTF-8 and on nothing else, and the error has no length
/// exactly where the bytes broke off inside a character that more bytes could
/// complete.
#[verifier::external_body]
fn checked_utf8(bytes: &[u8]) -> (r: Result<(), Option<usize>>)
    ensures
        match r {
            Ok(_) => valid_utf8(bytes@),
            Err(None) => !valid_utf8(bytes@) && utf8_as_far_as_it_goes(bytes@),
            Err(Some(_)) => !valid_utf8(bytes@) && !utf8_as_far_as_it_goes(bytes@),
        },
{
    match std::str::from_utf8(bytes) {
        Ok(_) => Ok(()),
        Err(error) => Err(error.error_len()),
    }
}

/// Whether the bytes are UTF-8, allowing for the window having cut a
/// character in half.
pub fn is_utf8_allowing_a_cut(bytes: &[u8]) -> (r: bool)
    ensures
        r == utf8_as_far_as_it_goes(bytes@),
{
    match checked_utf8(bytes) {
        Ok(()) => {
            assert(bytes@ + Seq::<u8>::empty() =~= bytes@);
            true
        },
        Err(error_len) => error_len.is_none(),
    }
}

fn starts_with(bytes: &[u8], head: &Vec<u8>) -> (r: bool)
    ensures
        r == opens_with(bytes@, head@),
{
    if head.len() > bytes.len() {
        return false;
    }
    let mut i: usize = 0;
    while i < head.len()
        invariant
            i <= head@.len() <= bytes@.len(),
            forall|j: int| 0 <= j < i ==> bytes@[j] == head@[j],
        decreases head@.len() - i,
    {
        if bytes[i] != head[i] {
            assert(bytes@.take(head@.len() as int)[i as int] != head@[i as int]);
            return false;
        }
        i += 1;
    }
    assert(bytes@.take(head@.len() as int) =~= head@);
    true
}

fn utf16_without_a_mark(bytes: &[u8]) -> (r: Option<Encoding>)
    requires
        bytes@.len() <= SNIFF,
    ensures
        r == unmarked_utf16(bytes@),
{
    if bytes.len() < 4 {
        return None;
    }
    let pairs: usize = bytes.len() / 2;
    let mut low_nulls: usize = 0;
    let mut high_nulls: usize = 0;
    let mut i: usize = 0;
    while i < pairs
        invariant
            i <= pairs,
            pairs == bytes@.len() / 2,
            bytes@.len() <= SNIFF,
            low_nulls == nulls(bytes@, 0, i as nat),
            high_nulls == nulls(bytes@, 1, i as nat),
            low_nulls <= i,
            high_nulls <= i,
        decreases pairs - i,
    {
        if bytes[2 * i] == 0 {
            low_nulls += 1;
        }
        if bytes[2 * i + 1] == 0 {
            high_nulls += 1;
        }
        i += 1;
    }
    let strong: usize = pairs * 3 / 4;
    if high_nulls >= strong && low_nulls * 8 < pairs {
        return Some(Encoding::Utf16Le);
    }
    if low_nulls >= strong && high_nulls * 8 < pairs {
        return Some(Encoding::Utf16Be);
    }
    None
}

/// What a file's bytes are most likely to be.
///
/// A mark is proof. Nulls in every other byte are UTF-16. Valid UTF-8 is
/// UTF-8. Anything else is one of the single-byte tables, and since every one
/// of them accepts every byte, which one is a guess.
pub fn sniff(bytes: &[u8]) -> (r: Detected)
    ensures
        r == detected(bytes@),
{
    if starts_with(bytes, &Encoding::Utf8Bom.bom()) {
        return Detected { encoding: Encoding::Utf8Bom, confidence: Confidence::Marked };
    }
    if starts_with(bytes, &Encoding::Utf16Le.bom()) {
        return Detected { encoding: Encoding::Utf16Le, confidence: Confidence::Marked };
    }
    if starts_with(bytes, &Encoding::Utf16Be.bom()) {
        return Detected { encoding: Encoding::Utf16Be, confidence: Confidence::Marked };
    }
    let len: usize = if bytes.len() < SNIFF {
        bytes.len()
    } else {
        SNIFF
    };
    let window: &[u8] = slice_subrange(bytes, 0, len);
    assert(window@ =~= looked_at(bytes@));
    if window.len() == 0 {
        return Detected { encoding: Encoding::Utf8, confidence: Confidence::Certain };
    }
    if let Some(encoding) = utf16_without_a_mark(window) {
        return Detected { encoding, confidence: Confidence::Guessed };
    }
    if is_utf8_allowing_a_cut(window) {
        return Detected { encoding: Encoding::Utf8, confidence: Confidence::Certain };
    }
    let mut high: usize = 0;
    let mut i: usize = 0;
    assert(window@.take(0) =~= Seq::<u8>::empty());
    while i < window.len()
        invariant
            i <= window@.len() <= SNIFF,
            high == high_bytes(window@.take(i as int)),
            high <= i,
        decreases window@.len() - i,
    {
        assert(window@.take(i + 1).drop_last() =~= window@.take(i as int));
        if window[i] >= 0x80 {
            high += 1;
        }
        i += 1;
    }
    assert(window@.take(i as int) =~= window@);
    let encoding: Encoding = if high * 4 >= window.len() {
        Encoding::Cp1251
    } else {
        Encoding::Cp1252
    };
    Detected { encoding, confidence: Confidence::Guessed }
}

// ---- the tables ------------------------------------------------------------------------

/// The character of a byte in Windows-1252.
pub open spec fn cp1252(byte: u8) -> char {
    match byte {
        0x80 => '\u{20AC}',
        0x82 => '\u{201A}',
        0x83 => '\u{0192}',
        0x84 => '\u{201E}',
        0x85 => '\u{2026}',
        0x86 => '\u{2020}',
        0x87 => '\u{2021}',
        0x88 => '\u{02C6}',
        0x89 => '\u{2030}',
        0x8A => '\u{0160}',
        0x8B => '\u{2039}',
        0x8C => '\u{0152}',
        0x8E => '\u{017D}',
        0x91 => '\u{2018}',
        0x92 => '\u{2019}',
        0x93 => '\u{201C}',
        0x94 => '\u{201D}',
        0x95 => '\u{2022}',
        0x96 => '\u{2013}',
        0x97 => '\u{2014}',
        0x98 => '\u{02DC}',
        0x99 => '\u{2122}',
        0x9A => '\u{0161}',
        0x9B => '\u{203A}',
        0x9C => '\u{0153}',
        0x9E => '\u{017E}',
        0x9F => '\u{0178}',
        _ => byte as char,
    }
}

/// The character of a byte in Windows-1251.
pub open spec fn cp1251(byte: u8) -> char {
    match byte {
        0x80 => '\u{0402}',
        0x81 => '\u{0403}',
        0x82 => '\u{201A}',
        0x83 => '\u{0453}',
        0x84 => '\u{201E}',
        0x85 => '\u{2026}',
        0x86 => '\u{2020}',
        0x87 => '\u{2021}',
        0x88 => '\u{20AC}',
        0x89 => '\u{2030}',
        0x8A => '\u{0409}',
        0x8B => '\u{2039}',
        0x8C => '\u{040A}',
        0x8D => '\u{040C}',
        0x8E => '\u{040B}',
        0x8F => '\u{040F}',
        0x90 => '\u{0452}',
        0x91 => '\u{2018}',
        0x92 => '\u{2019}',
        0x93 => '\u{201C}',
        0x94 => '\u{201D}',
        0x95 => '\u{2022}',
        0x96 => '\u{2013}',
        0x97 => '\u{2014}',
        0x99 => '\u{2122}',
        0x9A => '\u{0459}',
        0x9B => '\u{203A}',
        0x9C => '\u{045A}',
        0x9D => '\u{045C}',
        0x9E => '\u{045B}',
        0x9F => '\u{045F}',
        0xA1 => '\u{040E}',
        0xA2 => '\u{045E}',
        0xA3 => '\u{0408}',
        0xA5 => '\u{0490}',
        0xA8 => '\u{0401}',
        0xAA => '\u{0404}',
        0xAF => '\u{0407}',
        0xB2 => '\u{0406}',
        0xB3 => '\u{0456}',
        0xB4 => '\u{0491}',
        0xB8 => '\u{0451}',
        0xB9 => '\u{2116}',
        0xBA => '\u{0454}',
        0xBC => '\u{0458}',
        0xBD => '\u{0405}',
        0xBE => '\u{0455}',
        0xBF => '\u{0457}',
        _ => if byte >= 0xC0 {
            (byte as u32 + 0x350) as char
        } else {
            byte as char
        },
    }
}

/// The character of a byte in a single-byte encoding.
pub open spec fn byte_char(encoding: Encoding, byte: u8) -> char {
    match encoding {
        Encoding::Cp1252 => cp1252(byte),
        Encoding::Cp1251 => cp1251(byte),
        _ => byte as char,
    }
}

/// `char::from_u32`: the character of a code point, and nothing for a number
/// that is none.
pub assume_specification[ char::from_u32 ](i: u32) -> (r: Option<char>)
    ensures
        r == if i <= 0xD7FF || 0xE000 <= i <= 0x10FFFF {
            Some(i as char)
        } else {
            None
        },
;

fn char_of(code: u32) -> (r: char)
    requires
        code <= 0xD7FF || 0xE000 <= code <= 0x10FFFF,
    ensures
        r == code as char,
{
    match char::from_u32(code) {
        Some(c) => c,
        None => '?',
    }
}

fn from_table(encoding: Encoding, byte: u8) -> (r: char)
    ensures
        r == byte_char(encoding, byte),
{
    match encoding {
        Encoding::Cp1252 => match byte {
            0x80 => '\u{20AC}',
            0x82 => '\u{201A}',
            0x83 => '\u{0192}',
            0x84 => '\u{201E}',
            0x85 => '\u{2026}',
            0x86 => '\u{2020}',
            0x87 => '\u{2021}',
            0x88 => '\u{02C6}',
            0x89 => '\u{2030}',
            0x8A => '\u{0160}',
            0x8B => '\u{2039}',
            0x8C => '\u{0152}',
            0x8E => '\u{017D}',
            0x91 => '\u{2018}',
            0x92 => '\u{2019}',
            0x93 => '\u{201C}',
            0x94 => '\u{201D}',
            0x95 => '\u{2022}',
            0x96 => '\u{2013}',
            0x97 => '\u{2014}',
            0x98 => '\u{02DC}',
            0x99 => '\u{2122}',
            0x9A => '\u{0161}',
            0x9B => '\u{203A}',
            0x9C => '\u{0153}',
            0x9E => '\u{017E}',
            0x9F => '\u{0178}',
            _ => byte as char,
        },
        Encoding::Cp1251 => match byte {
            0x80 => '\u{0402}',
            0x81 => '\u{0403}',
            0x82 => '\u{201A}',
            0x83 => '\u{0453}',
            0x84 => '\u{201E}',
            0x85 => '\u{2026}',
            0x86 => '\u{2020}',
            0x87 => '\u{2021}',
            0x88 => '\u{20AC}',
            0x89 => '\u{2030}',
            0x8A => '\u{0409}',
            0x8B => '\u{2039}',
            0x8C => '\u{040A}',
            0x8D => '\u{040C}',
            0x8E => '\u{040B}',
            0x8F => '\u{040F}',
            0x90 => '\u{0452}',
            0x91 => '\u{2018}',
            0x92 => '\u{2019}',
            0x93 => '\u{201C}',
            0x94 => '\u{201D}',
            0x95 => '\u{2022}',
            0x96 => '\u{2013}',
            0x97 => '\u{2014}',
            0x99 => '\u{2122}',
            0x9A => '\u{0459}',
            0x9B => '\u{203A}',
            0x9C => '\u{045A}',
            0x9D => '\u{045C}',
            0x9E => '\u{045B}',
            0x9F => '\u{045F}',
            0xA1 => '\u{040E}',
            0xA2 => '\u{045E}',
            0xA3 => '\u{0408}',
            0xA5 => '\u{0490}',
            0xA8 => '\u{0401}',
            0xAA => '\u{0404}',
            0xAF => '\u{0407}',
            0xB2 => '\u{0406}',
            0xB3 => '\u{0456}',
            0xB4 => '\u{0491}',
            0xB8 => '\u{0451}',
            0xB9 => '\u{2116}',
            0xBA => '\u{0454}',
            0xBC => '\u{0458}',
            0xBD => '\u{0405}',
            0xBE => '\u{0455}',
            0xBF => '\u{0457}',
            _ => if byte >= 0xC0 {
                char_of(byte as u32 + 0x350)
            } else {
                byte as char
            },
        },
        _ => byte as char,
    }
}

/// The first byte at or after `from` that writes a character; 256 where none
/// does.
pub open spec fn byte_for(encoding: Encoding, c: char, from: int) -> int
    decreases 256 - from,
{
    if from >= 256 {
        256
    } else if byte_char(encoding, from as u8) == c {
        from
    } else {
        byte_for(encoding, c, from + 1)
    }
}

/// The byte that writes a character in a single-byte encoding, if one does.
pub open spec fn table_byte(encoding: Encoding, c: char) -> Option<u8> {
    let found = byte_for(encoding, c, 0);
    if 0 <= found < 256 {
        Some(found as u8)
    } else {
        None
    }
}

proof fn lemma_byte_for(encoding: Encoding, c: char, from: int)
    requires
        0 <= from <= 256,
    ensures
        from <= byte_for(encoding, c, from) <= 256,
        byte_for(encoding, c, from) < 256 ==> byte_char(
            encoding,
            byte_for(encoding, c, from) as u8,
        ) == c,
        forall|b: int|
            from <= b < byte_for(encoding, c, from) ==> #[trigger] byte_char(encoding, b as u8) != c,
    decreases 256 - from,
{
    if from < 256 && byte_char(encoding, from as u8) != c {
        lemma_byte_for(encoding, c, from + 1);
    }
}

fn to_table(encoding: Encoding, c: char) -> (r: Option<u8>)
    ensures
        r == table_byte(encoding, c),
{
    let mut b: u16 = 0;
    while b < 256
        invariant
            b <= 256,
            byte_for(encoding, c, 0) == byte_for(encoding, c, b as int),
        decreases 256 - b,
    {
        if from_table(encoding, b as u8) == c {
            return Some(b as u8);
        }
        b += 1;
    }
    None
}

/// No two bytes of a single-byte encoding write the same character.
pub proof fn lemma_tables_distinct(encoding: Encoding, a: u8, b: u8)
    requires
        byte_char(encoding, a) == byte_char(encoding, b),
    ensures
        a == b,
{
}

// ---- reading ---------------------------------------------------------------------------

/// What `String::from_utf8_lossy` makes of some bytes.
pub uninterp spec fn lossy_utf8(bytes: Seq<u8>) -> Seq<char>;

/// The text of UTF-8 bytes. What is not valid is read with replacement
/// characters.
pub open spec fn utf8_text(bytes: Seq<u8>) -> Seq<char> {
    if valid_utf8(bytes) {
        decode_utf8(bytes)
    } else {
        lossy_utf8(bytes)
    }
}

/// Calls `String::from_utf8_lossy`. Valid UTF-8 is decoded as it stands;
/// where a replacement character goes in other bytes is not restated.
#[verifier::external_body]
pub(crate) fn from_utf8_lossy(bytes: &[u8]) -> (r: String)
    ensures
        r@ == if valid_utf8(bytes@) {
            decode_utf8(bytes@)
        } else {
            lossy_utf8(bytes@)
        },
{
    String::from_utf8_lossy(bytes).into_owned()
}

/// The text without its byte-order mark.
pub open spec fn body(bytes: Seq<u8>, encoding: Encoding) -> Seq<u8> {
    if opens_with(bytes, mark(encoding)) {
        bytes.skip(mark(encoding).len() as int)
    } else {
        bytes
    }
}

/// The UTF-16 units of some bytes; an odd byte at the end belongs to none.
pub open spec fn units(bytes: Seq<u8>, little: bool) -> Seq<u16> {
    Seq::new(
        bytes.len() / 2,
        |i: int|
            if little {
                (bytes[2 * i] + 256 * bytes[2 * i + 1]) as u16
            } else {
                (256 * bytes[2 * i] + bytes[2 * i + 1]) as u16
            },
    )
}

/// Whether a unit is the first half of a pair.
pub open spec fn first_half(unit: u16) -> bool {
    0xD800 <= unit <= 0xDBFF
}

/// Whether a unit is the second half of a pair.
pub open spec fn second_half(unit: u16) -> bool {
    0xDC00 <= unit <= 0xDFFF
}

/// The text of UTF-16 units: a half without its other half is replaced.
pub open spec fn utf16_text(units: Seq<u16>) -> Seq<char>
    decreases units.len(),
{
    if units.len() == 0 {
        Seq::empty()
    } else if first_half(units[0]) && units.len() > 1 && second_half(units[1]) {
        seq![
            (0x10000 + (units[0] - 0xD800) * 0x400 + (units[1] - 0xDC00)) as char,
        ] + utf16_text(units.skip(2))
    } else if first_half(units[0]) || second_half(units[0]) {
        seq!['\u{FFFD}'] + utf16_text(units.skip(1))
    } else {
        seq![units[0] as char] + utf16_text(units.skip(1))
    }
}

/// The text of UTF-16 bytes: an odd byte at the end is replaced rather than
/// lost.
pub open spec fn utf16_bytes_text(bytes: Seq<u8>, little: bool) -> Seq<char> {
    let whole = utf16_text(units(bytes, little));
    if bytes.len() % 2 == 1 {
        whole.push('\u{FFFD}')
    } else {
        whole
    }
}

/// The text of bytes in a single-byte encoding.
pub open spec fn table_text(bytes: Seq<u8>, encoding: Encoding) -> Seq<char> {
    bytes.map_values(|byte: u8| byte_char(encoding, byte))
}

/// The text that bytes are in an encoding.
pub open spec fn decoded(bytes: Seq<u8>, encoding: Encoding) -> Seq<char> {
    let body = body(bytes, encoding);
    match encoding {
        Encoding::Utf8 | Encoding::Utf8Bom => utf8_text(body),
        Encoding::Utf16Le => utf16_bytes_text(body, true),
        Encoding::Utf16Be => utf16_bytes_text(body, false),
        _ => table_text(body, encoding),
    }
}

/// The bytes without the byte-order mark of their encoding.
pub fn strip_bom(bytes: &[u8], encoding: Encoding) -> (r: &[u8])
    ensures
        r@ == body(bytes@, encoding),
{
    let bom: Vec<u8> = encoding.bom();
    if starts_with(bytes, &bom) {
        let r: &[u8] = slice_subrange(bytes, bom.len(), bytes.len());
        assert(r@ =~= bytes@.skip(bom@.len() as int));
        r
    } else {
        bytes
    }
}

fn decode_utf16(bytes: &[u8], little: bool) -> (r: String)
    ensures
        r@ == utf16_bytes_text(bytes@, little),
{
    let mut all: Vec<u16> = Vec::new();
    let len: usize = bytes.len();
    let pairs: usize = len / 2;
    let mut i: usize = 0;
    while i < pairs
        invariant
            i <= pairs,
            len == bytes@.len(),
            pairs == len / 2,
            all@ =~= units(bytes@, little).take(i as int),
        decreases pairs - i,
    {
        let a: u16 = bytes[2 * i] as u16;
        let b: u16 = bytes[2 * i + 1] as u16;
        all.push(
            if little {
                a + 256 * b
            } else {
                256 * a + b
            },
        );
        i += 1;
    }
    assert(all@ =~= units(bytes@, little));
    let mut out: String = String::new();
    let mut at: usize = 0;
    assert(all@.skip(0) =~= all@);
    assert(out@ + utf16_text(all@) =~= utf16_text(all@));
    while at < all.len()
        invariant
            at <= all@.len(),
            utf16_text(all@) == out@ + utf16_text(all@.skip(at as int)),
        decreases all@.len() - at,
    {
        let ghost was = out@;
        let ghost tail = all@.skip(at as int);
        let unit: u16 = all[at];
        if 0xD800 <= unit && unit <= 0xDBFF && at + 1 < all.len() && 0xDC00 <= all[at + 1]
            && all[at + 1] <= 0xDFFF {
            let code: u32 = 0x10000 + (unit as u32 - 0xD800) * 0x400 + (all[at + 1] as u32
                - 0xDC00);
            out.push(char_of(code));
            proof {
                assert(tail.skip(2) =~= all@.skip(at + 2));
                assert(was + (seq![code as char] + utf16_text(tail.skip(2))) =~= out@
                    + utf16_text(all@.skip(at + 2)));
            }
            at += 2;
        } else if 0xD800 <= unit && unit <= 0xDFFF {
            out.push('\u{FFFD}');
            proof {
                assert(tail.skip(1) =~= all@.skip(at + 1));
                assert(was + (seq!['\u{FFFD}'] + utf16_text(tail.skip(1))) =~= out@ + utf16_text(
                    all@.skip(at + 1),
                ));
            }
            at += 1;
        } else {
            out.push(char_of(unit as u32));
            proof {
                assert(tail.skip(1) =~= all@.skip(at + 1));
                assert(was + (seq![unit as char] + utf16_text(tail.skip(1))) =~= out@
                    + utf16_text(all@.skip(at + 1)));
            }
            at += 1;
        }
    }
    assert(all@.skip(at as int) =~= Seq::<u16>::empty());
    assert(out@ =~= utf16_text(all@));
    if bytes.len() % 2 == 1 {
        out.push('\u{FFFD}');
    }
    out
}

fn decode_table(bytes: &[u8], encoding: Encoding) -> (r: String)
    ensures
        r@ == table_text(bytes@, encoding),
{
    let mut out: String = String::new();
    let mut i: usize = 0;
    while i < bytes.len()
        invariant
            i <= bytes@.len(),
            out@ =~= table_text(bytes@, encoding).take(i as int),
        decreases bytes@.len() - i,
    {
        out.push(from_table(encoding, bytes[i]));
        i += 1;
    }
    out
}

/// Read bytes as text.
pub fn decode(bytes: &[u8], encoding: Encoding) -> (r: String)
    ensures
        r@ == decoded(bytes@, encoding),
{
    let body: &[u8] = strip_bom(bytes, encoding);
    match encoding {
        Encoding::Utf8 | Encoding::Utf8Bom => from_utf8_lossy(body),
        Encoding::Utf16Le => decode_utf16(body, true),
        Encoding::Utf16Be => decode_utf16(body, false),
        _ => decode_table(body, encoding),
    }
}

// ---- writing ---------------------------------------------------------------------------

/// What became of a text that was written as bytes.
#[derive(Debug, Clone, PartialEq, Eq)]
pub struct Encoded {
    pub bytes: Vec<u8>,
    /// Characters that had to be replaced, in the order they were met, with
    /// no repeats. Empty means nothing was lost.
    pub lost: Vec<char>,
}

/// The byte written for a character that an encoding cannot hold: `?`.
pub const UNREPRESENTABLE: u8 = 63;

/// The UTF-16 units of a character.
pub open spec fn char_units(c: char) -> Seq<u16> {
    if (c as int) < 0x10000 {
        seq![c as u16]
    } else {
        let v = c as int - 0x10000;
        seq![(0xD800 + v / 0x400) as u16, (0xDC00 + v % 0x400) as u16]
    }
}

/// The bytes of a UTF-16 unit.
pub open spec fn unit_bytes(unit: u16, little: bool) -> Seq<u8> {
    if little {
        seq![(unit % 256) as u8, (unit / 256) as u8]
    } else {
        seq![(unit / 256) as u8, (unit % 256) as u8]
    }
}

/// The bytes of some UTF-16 units.
pub open spec fn units_bytes(units: Seq<u16>, little: bool) -> Seq<u8> {
    Seq::new(
        2 * units.len(),
        |i: int| unit_bytes(units[i / 2], little)[i % 2],
    )
}

/// The UTF-16 units of a text.
pub open spec fn text_units(s: Seq<char>) -> Seq<u16>
    decreases s.len(),
{
    if s.len() == 0 {
        Seq::empty()
    } else {
        text_units(s.drop_last()) + char_units(s.last())
    }
}

/// The byte for a character in a single-byte encoding, `?` where it has none.
pub open spec fn byte_or_mark(encoding: Encoding, c: char) -> u8 {
    match table_byte(encoding, c) {
        Some(byte) => byte,
        None => UNREPRESENTABLE,
    }
}

/// The bytes of a text in an encoding, without the mark.
pub open spec fn text_bytes(s: Seq<char>, encoding: Encoding) -> Seq<u8> {
    match encoding {
        Encoding::Utf8 | Encoding::Utf8Bom => encode_utf8(s),
        Encoding::Utf16Le => units_bytes(text_units(s), true),
        Encoding::Utf16Be => units_bytes(text_units(s), false),
        _ => s.map_values(|c: char| byte_or_mark(encoding, c)),
    }
}

/// Whether an encoding can hold a character.
pub open spec fn can_hold(encoding: Encoding, c: char) -> bool {
    match encoding {
        Encoding::Latin1 | Encoding::Cp1252 | Encoding::Cp1251 => table_byte(encoding, c) is Some,
        _ => true,
    }
}

/// The characters that an encoding cannot hold, each once, as they are met.
pub open spec fn lost_of(s: Seq<char>, encoding: Encoding) -> Seq<char>
    decreases s.len(),
{
    if s.len() == 0 {
        Seq::empty()
    } else {
        let front = lost_of(s.drop_last(), encoding);
        if can_hold(encoding, s.last()) || front.contains(s.last()) {
            front
        } else {
            front.push(s.last())
        }
    }
}

impl Encoded {
    pub fn is_lossless(&self) -> (r: bool)
        ensures
            r == (self.lost@.len() == 0),
    {
        self.lost.len() == 0
    }

    /// What to warn with, or nothing where nothing was lost.
    pub fn complaint(&self, encoding: Encoding) -> (r: Option<String>)
        ensures
            match r {
                None => self.lost@.len() == 0,
                Some(why) => self.lost@.len() > 0 && why@ == encoding_label(encoding)
                    + " cannot hold "@ + text::decimal(self.lost@.len()) + " of these characters: "@
                    + (if self.lost@.len() > 8 {
                    self.lost@.take(8) + "..."@
                } else {
                    self.lost@
                }),
            },
    {
        if self.lost.len() == 0 {
            return None;
        }
        let count: String = text::decimal_text(self.lost.len() as u64);
        let mut why: String = text::concat3(encoding.label(), " cannot hold ", count.as_str());
        why.append(" of these characters: ");
        if self.lost.len() > 8 {
            let shown: String = text::part(&self.lost, 0, 8);
            assert(shown@ =~= self.lost@.take(8));
            why.append(text::concat2(shown.as_str(), "...").as_str());
        } else {
            let shown: String = text::string(&self.lost);
            why.append(shown.as_str());
        }
        Some(why)
    }
}

fn note(lost: &mut Vec<char>, c: char)
    ensures
        final(lost)@ == if old(lost)@.contains(c) {
            old(lost)@
        } else {
            old(lost)@.push(c)
        },
{
    let mut i: usize = 0;
    while i < lost.len()
        invariant
            i <= lost@.len(),
            lost@ == old(lost)@,
            forall|j: int| 0 <= j < i ==> lost@[j] != c,
        decreases lost@.len() - i,
    {
        if lost[i] == c {
            assert(lost@[i as int] == c);
            return ;
        }
        i += 1;
    }
    lost.push(c);
}

fn push_unit(bytes: &mut Vec<u8>, unit: u16, little: bool)
    ensures
        final(bytes)@ == old(bytes)@ + unit_bytes(unit, little),
{
    let low: u8 = (unit % 256) as u8;
    let high: u8 = (unit / 256) as u8;
    if little {
        bytes.push(low);
        bytes.push(high);
    } else {
        bytes.push(high);
        bytes.push(low);
    }
    assert(bytes@ =~= old(bytes)@ + unit_bytes(unit, little));
}

proof fn lemma_units_bytes_push(units: Seq<u16>, unit: u16, little: bool)
    ensures
        units_bytes(units.push(unit), little) == units_bytes(units, little) + unit_bytes(
            unit,
            little,
        ),
{
    let all = units.push(unit);
    let left = units_bytes(all, little);
    let right = units_bytes(units, little) + unit_bytes(unit, little);
    assert forall|i: int| 0 <= i < left.len() implies left[i] == right[i] by {
        if i < 2 * units.len() {
            assert(all[i / 2] == units[i / 2]);
        } else {
            assert(i / 2 == units.len());
        }
    }
    assert(left =~= right);
}

fn encode_utf16(s: &Vec<char>, little: bool, bytes: &mut Vec<u8>)
    ensures
        final(bytes)@ == old(bytes)@ + units_bytes(text_units(s@), little),
{
    let mut i: usize = 0;
    assert(s@.take(0) =~= Seq::<char>::empty());
    assert(units_bytes(text_units(s@.take(0)), little) =~= Seq::<u8>::empty());
    assert(bytes@ =~= old(bytes)@ + units_bytes(text_units(s@.take(0)), little));
    while i < s.len()
        invariant
            i <= s@.len(),
            bytes@ == old(bytes)@ + units_bytes(text_units(s@.take(i as int)), little),
        decreases s@.len() - i,
    {
        let c: char = s[i];
        let code: u32 = c as u32;
        let ghost front = text_units(s@.take(i as int));
        assert(s@.take(i + 1).drop_last() =~= s@.take(i as int));
        proof {
            text::lemma_code_point(c);
        }
        if code < 0x10000 {
            let unit: u16 = code as u16;
            push_unit(bytes, unit, little);
            proof {
                lemma_units_bytes_push(front, unit, little);
                assert(front + char_units(c) =~= front.push(unit));
                assert(bytes@ =~= old(bytes)@ + units_bytes(front.push(unit), little));
            }
        } else {
            let v: u32 = code - 0x10000;
            let first: u16 = (0xD800 + v / 0x400) as u16;
            let second: u16 = (0xDC00 + v % 0x400) as u16;
            push_unit(bytes, first, little);
            push_unit(bytes, second, little);
            proof {
                lemma_units_bytes_push(front, first, little);
                lemma_units_bytes_push(front.push(first), second, little);
                assert(front + char_units(c) =~= front.push(first).push(second));
                assert(bytes@ =~= old(bytes)@ + units_bytes(
                    front.push(first).push(second),
                    little,
                ));
            }
        }
        i += 1;
    }
    assert(s@.take(i as int) =~= s@);
}

/// Write text as bytes, saying what could not be held.
pub fn encode(text: &str, encoding: Encoding) -> (r: Encoded)
    ensures
        r.bytes@ == mark(encoding) + text_bytes(text@, encoding),
        r.lost@ == lost_of(text@, encoding),
{
    let mut bytes: Vec<u8> = encoding.bom();
    let mut lost: Vec<char> = Vec::new();
    match encoding {
        Encoding::Utf8 | Encoding::Utf8Bom => {
            let mut rest: Vec<u8> = text.as_bytes_vec();
            bytes.append(&mut rest);
            proof {
                lemma_nothing_lost(text@, encoding);
            }
        },
        Encoding::Utf16Le | Encoding::Utf16Be => {
            let s: Vec<char> = chars(text);
            encode_utf16(&s, encoding == Encoding::Utf16Le, &mut bytes);
            proof {
                lemma_nothing_lost(text@, encoding);
            }
        },
        _ => {
            let s: Vec<char> = chars(text);
            let mut i: usize = 0;
            assert(s@.take(0) =~= Seq::<char>::empty());
            assert(bytes@ =~= mark(encoding) + text_bytes(s@, encoding).take(0));
            while i < s.len()
                invariant
                    i <= s@.len(),
                    s@ == text@,
                    encoding == Encoding::Latin1 || encoding == Encoding::Cp1252 || encoding
                        == Encoding::Cp1251,
                    bytes@ =~= mark(encoding) + text_bytes(s@, encoding).take(i as int),
                    lost@ == lost_of(s@.take(i as int), encoding),
                decreases s@.len() - i,
            {
                let c: char = s[i];
                assert(s@.take(i + 1).drop_last() =~= s@.take(i as int));
                match to_table(encoding, c) {
                    Some(byte) => {
                        bytes.push(byte);
                    },
                    None => {
                        note(&mut lost, c);
                        bytes.push(UNREPRESENTABLE);
                    },
                }
                i += 1;
            }
            assert(s@.take(i as int) =~= s@);
        },
    }
    Encoded { bytes, lost }
}

proof fn lemma_nothing_lost(s: Seq<char>, encoding: Encoding)
    requires
        forall|i: int| 0 <= i < s.len() ==> can_hold(encoding, #[trigger] s[i]),
    ensures
        lost_of(s, encoding) == Seq::<char>::empty(),
    decreases s.len(),
{
    if s.len() > 0 {
        lemma_nothing_lost(s.drop_last(), encoding);
        assert(can_hold(encoding, s[s.len() - 1]));
    } else {
        assert(lost_of(s, encoding) =~= Seq::<char>::empty());
    }
}

// ---- line endings ------------------------------------------------------------------------

#[derive(Debug, Clone, Copy, PartialEq, Eq, Structural)]
pub enum Newline {
    Lf,
    Crlf,
    /// Classic Mac. Vanishingly rare, and cheap to keep rather than mangle.
    Cr,
}

impl Default for Newline {
    fn default() -> (r: Newline)
        ensures
            r == Newline::Lf,
    {
        Newline::Lf
    }
}

/// The characters of a line ending.
pub open spec fn ending(newline: Newline) -> Seq<char> {
    match newline {
        Newline::Lf => seq!['\n'],
        Newline::Crlf => seq!['\r', '\n'],
        Newline::Cr => seq!['\r'],
    }
}

impl Newline {
    pub fn label(self) -> (r: &'static str)
        ensures
            r@ == match self {
                Newline::Lf => "LF"@,
                Newline::Crlf => "CRLF"@,
                Newline::Cr => "CR"@,
            },
    {
        match self {
            Newline::Lf => "LF",
            Newline::Crlf => "CRLF",
            Newline::Cr => "CR",
        }
    }

    pub fn as_str(self) -> (r: &'static str)
        ensures
            r@ == ending(self),
    {
        proof {
            reveal_strlit("\n");
            reveal_strlit("\r\n");
            reveal_strlit("\r");
            assert("\n"@ =~= ending(Newline::Lf));
            assert("\r\n"@ =~= ending(Newline::Crlf));
            assert("\r"@ =~= ending(Newline::Cr));
        }
        match self {
            Newline::Lf => "\n",
            Newline::Crlf => "\r\n",
            Newline::Cr => "\r",
        }
    }
}

/// The line endings, in the order they are offered.
pub const NEWLINES: [Newline; 3] = [Newline::Lf, Newline::Crlf, Newline::Cr];

/// The line ending that a text begins with, if it begins with one.
pub open spec fn first_ending(s: Seq<char>) -> Option<Newline> {
    if s.len() > 1 && s[0] == '\r' && s[1] == '\n' {
        Some(Newline::Crlf)
    } else if s.len() > 0 && s[0] == '\r' {
        Some(Newline::Cr)
    } else if s.len() > 0 && s[0] == '\n' {
        Some(Newline::Lf)
    } else {
        None
    }
}

/// A text without its first character, or without the line ending it begins
/// with.
pub open spec fn past_first(s: Seq<char>) -> Seq<char> {
    if first_ending(s) == Some(Newline::Crlf) {
        s.skip(2)
    } else {
        s.skip(1)
    }
}

/// How many line endings of one sort a text has.
pub open spec fn endings_of(s: Seq<char>, newline: Newline) -> nat
    decreases s.len(),
{
    if s.len() == 0 {
        0
    } else {
        endings_of(past_first(s), newline) + (if first_ending(s) == Some(newline) {
            1nat
        } else {
            0
        })
    }
}

/// The line ending a text mostly has.
pub open spec fn most_used(s: Seq<char>) -> Newline {
    let crlf = endings_of(s, Newline::Crlf);
    let lf = endings_of(s, Newline::Lf);
    let cr = endings_of(s, Newline::Cr);
    if crlf >= lf && crlf >= cr && crlf > 0 {
        Newline::Crlf
    } else if cr > lf {
        Newline::Cr
    } else {
        Newline::Lf
    }
}

/// The line ending a text mostly has, so that saving does not convert the
/// majority to match one stray line.
pub fn sniff_newline(text: &str) -> (r: Newline)
    ensures
        r == most_used(text@),
{
    let s: Vec<char> = chars(text);
    let mut crlf: usize = 0;
    let mut lf: usize = 0;
    let mut cr: usize = 0;
    let mut at: usize = 0;
    assert(s@.skip(0) =~= s@);
    while at < s.len()
        invariant
            at <= s@.len(),
            s@ == text@,
            crlf + lf + cr <= at,
            endings_of(s@, Newline::Crlf) == crlf + endings_of(s@.skip(at as int), Newline::Crlf),
            endings_of(s@, Newline::Lf) == lf + endings_of(s@.skip(at as int), Newline::Lf),
            endings_of(s@, Newline::Cr) == cr + endings_of(s@.skip(at as int), Newline::Cr),
        decreases s@.len() - at,
    {
        proof {
            assert(s@.skip(at as int).skip(1) =~= s@.skip(at + 1));
            if at + 2 <= s@.len() {
                assert(s@.skip(at as int).skip(2) =~= s@.skip(at + 2));
            }
        }
        if s[at] == '\r' {
            if s.len() - at > 1 && s[at + 1] == '\n' {
                crlf += 1;
                at += 2;
            } else {
                cr += 1;
                at += 1;
            }
        } else {
            if s[at] == '\n' {
                lf += 1;
            }
            at += 1;
        }
    }
    assert(s@.skip(at as int) =~= Seq::<char>::empty());
    if crlf >= lf && crlf >= cr && crlf > 0 {
        Newline::Crlf
    } else if cr > lf && cr > 0 {
        Newline::Cr
    } else {
        Newline::Lf
    }
}

/// A text with every line ending, of whatever sort, replaced by one sort.
pub open spec fn with_endings(s: Seq<char>, newline: Newline) -> Seq<char>
    decreases s.len(),
{
    if s.len() == 0 {
        Seq::empty()
    } else if first_ending(s) is Some {
        ending(newline) + with_endings(past_first(s), newline)
    } else {
        seq![s[0]] + with_endings(past_first(s), newline)
    }
}

/// The text with its line endings all of one sort.
pub fn to_newline(text: &str, newline: Newline) -> (r: String)
    ensures
        r@ == with_endings(text@, newline),
{
    let s: Vec<char> = chars(text);
    let mut out: String = String::new();
    let mut at: usize = 0;
    assert(s@.skip(0) =~= s@);
    assert(out@ + with_endings(s@, newline) =~= with_endings(s@, newline));
    while at < s.len()
        invariant
            at <= s@.len(),
            s@ == text@,
            with_endings(s@, newline) == out@ + with_endings(s@.skip(at as int), newline),
        decreases s@.len() - at,
    {
        let ghost was = out@;
        let ghost tail = s@.skip(at as int);
        proof {
            assert(tail.skip(1) =~= s@.skip(at + 1));
            if at + 2 <= s@.len() {
                assert(tail.skip(2) =~= s@.skip(at + 2));
            }
        }
        if s[at] == '\r' || s[at] == '\n' {
            out.append(newline.as_str());
            let step: usize = if s[at] == '\r' && s.len() - at > 1 && s[at + 1] == '\n' {
                2
            } else {
                1
            };
            proof {
                assert(past_first(tail) =~= s@.skip(at + step));
                assert(was + (ending(newline) + with_endings(past_first(tail), newline)) =~= out@
                    + with_endings(s@.skip(at + step), newline));
            }
            at += step;
        } else {
            out.push(s[at]);
            proof {
                assert(past_first(tail) =~= s@.skip(at + 1));
                assert(was + (seq![tail[0]] + with_endings(past_first(tail), newline)) =~= out@
                    + with_endings(s@.skip(at + 1), newline));
            }
            at += 1;
        }
    }
    assert(s@.skip(at as int) =~= Seq::<char>::empty());
    assert(out@ =~= with_endings(s@, newline));
    out
}

// ---- laws ---------------------------------------------------------------------------------

/// Behind the mark stands the body.
pub proof fn lemma_body_of_marked(encoding: Encoding, rest: Seq<u8>)
    ensures
        body(mark(encoding) + rest, encoding) == rest,
{
    let all = mark(encoding) + rest;
    assert(all.take(mark(encoding).len() as int) =~= mark(encoding));
    assert(all.skip(mark(encoding).len() as int) =~= rest);
}

proof fn lemma_lost_nothing_holds_all(s: Seq<char>, encoding: Encoding)
    requires
        lost_of(s, encoding).len() == 0,
    ensures
        forall|i: int| 0 <= i < s.len() ==> can_hold(encoding, #[trigger] s[i]),
    decreases s.len(),
{
    if s.len() > 0 {
        let front = s.drop_last();
        lemma_lost_nothing_holds_all(front, encoding);
        assert(!lost_of(front, encoding).contains(s.last()));
        assert forall|i: int| 0 <= i < s.len() implies can_hold(encoding, #[trigger] s[i]) by {
            if i < front.len() {
                assert(s[i] == front[i]);
            }
        }
    }
}

proof fn lemma_text_units_first(c: char, rest: Seq<char>)
    ensures
        text_units(seq![c] + rest) == char_units(c) + text_units(rest),
    decreases rest.len(),
{
    let all = seq![c] + rest;
    if rest.len() == 0 {
        assert(all.drop_last() =~= Seq::<char>::empty());
        assert(text_units(all.drop_last()) =~= Seq::<u16>::empty());
        assert(text_units(rest) =~= Seq::<u16>::empty());
        assert(all.last() == c);
        assert(text_units(all) =~= char_units(c) + text_units(rest));
    } else {
        assert(all.drop_last() =~= seq![c] + rest.drop_last());
        assert(all.last() == rest.last());
        lemma_text_units_first(c, rest.drop_last());
        assert(text_units(all) =~= char_units(c) + text_units(rest));
    }
}

proof fn lemma_utf16_reads_back(s: Seq<char>)
    ensures
        utf16_text(text_units(s)) == s,
    decreases s.len(),
{
    if s.len() == 0 {
        assert(utf16_text(text_units(s)) =~= s);
    } else {
        let c = s[0];
        let rest = s.skip(1);
        assert(s =~= seq![c] + rest);
        lemma_text_units_first(c, rest);
        lemma_utf16_reads_back(rest);
        text::lemma_code_point(c);
        let all = text_units(s);
        if (c as int) < 0x10000 {
            assert(all[0] == c as u16);
            assert(all.skip(1) =~= text_units(rest));
            assert(all[0] as char == c);
            assert(utf16_text(all) =~= seq![c] + rest);
        } else {
            let v = c as int - 0x10000;
            assert(all[0] == 0xD800 + v / 0x400);
            assert(all[1] == 0xDC00 + v % 0x400);
            assert(all.skip(2) =~= text_units(rest));
            assert(0x10000 + (all[0] - 0xD800) * 0x400 + (all[1] - 0xDC00) == c as int);
            assert(utf16_text(all) =~= seq![c] + rest);
        }
    }
}

proof fn lemma_units_read_back(all: Seq<u16>, little: bool)
    ensures
        units(units_bytes(all, little), little) == all,
{
    let bytes = units_bytes(all, little);
    let again = units(bytes, little);
    assert forall|i: int| 0 <= i < all.len() implies again[i] == all[i] by {
        let pair = unit_bytes(all[i], little);
        assert(bytes[2 * i] == pair[0]) by {
            assert((2 * i) / 2 == i && (2 * i) % 2 == 0);
        }
        assert(bytes[2 * i + 1] == pair[1]) by {
            assert((2 * i + 1) / 2 == i && (2 * i + 1) % 2 == 1);
        }
        assert(all[i] == 256 * (all[i] / 256) + all[i] % 256);
    }
    assert(again =~= all);
}

proof fn lemma_table_reads_back(encoding: Encoding, byte: u8)
    ensures
        table_byte(encoding, byte_char(encoding, byte)) == Some(byte),
{
    let c = byte_char(encoding, byte);
    lemma_byte_for(encoding, c, 0);
    let found = byte_for(encoding, c, 0);
    if found > byte {
        assert(byte_char(encoding, byte as int as u8) != c);
    }
    lemma_tables_distinct(encoding, found as u8, byte);
}

/// UTF-16 holds every character.
pub proof fn lemma_nothing_lost_utf16(s: Seq<char>)
    ensures
        lost_of(s, Encoding::Utf16Le).len() == 0,
        lost_of(s, Encoding::Utf16Be).len() == 0,
{
    lemma_nothing_lost(s, Encoding::Utf16Le);
    lemma_nothing_lost(s, Encoding::Utf16Be);
}

/// A text that an encoding can hold, written and read again, is the text.
pub proof fn law_text_comes_back(s: Seq<char>, encoding: Encoding)
    requires
        lost_of(s, encoding).len() == 0,
    ensures
        decoded(mark(encoding) + text_bytes(s, encoding), encoding) == s,
{
    let bytes = text_bytes(s, encoding);
    lemma_body_of_marked(encoding, bytes);
    match encoding {
        Encoding::Utf8 | Encoding::Utf8Bom => {
            vstd::utf8::encode_utf8_valid_utf8(s);
            vstd::utf8::encode_utf8_decode_utf8(s);
        },
        Encoding::Utf16Le | Encoding::Utf16Be => {
            let little = encoding == Encoding::Utf16Le;
            lemma_units_read_back(text_units(s), little);
            lemma_utf16_reads_back(s);
        },
        _ => {
            lemma_lost_nothing_holds_all(s, encoding);
            assert forall|i: int| 0 <= i < s.len() implies byte_char(
                encoding,
                #[trigger] bytes[i],
            ) == s[i] by {
                assert(can_hold(encoding, s[i]));
                lemma_byte_for(encoding, s[i], 0);
            }
            assert(table_text(bytes, encoding) =~= s);
        },
    }
}

/// The single-byte encodings carry any bytes at all both ways: read and
/// written again, nothing is lost and every byte is the same.
pub proof fn law_bytes_come_back(bytes: Seq<u8>, encoding: Encoding)
    requires
        encoding == Encoding::Latin1 || encoding == Encoding::Cp1252 || encoding
            == Encoding::Cp1251,
    ensures
        text_bytes(decoded(bytes, encoding), encoding) == bytes,
        lost_of(decoded(bytes, encoding), encoding).len() == 0,
{
    assert(opens_with(bytes, mark(encoding))) by {
        assert(bytes.take(0) =~= mark(encoding));
    }
    assert(bytes.skip(0) =~= bytes);
    let s = decoded(bytes, encoding);
    assert(s =~= table_text(bytes, encoding));
    assert forall|i: int| 0 <= i < s.len() implies can_hold(encoding, #[trigger] s[i])
        && byte_or_mark(encoding, s[i]) == bytes[i] by {
        lemma_table_reads_back(encoding, bytes[i]);
    }
    lemma_nothing_lost(s, encoding);
    assert(text_bytes(s, encoding) =~= bytes);
}

proof fn lemma_endings_front(u: Seq<char>, newline: Newline)
    requires
        u.len() > 0 && newline != Newline::Lf ==> u[0] != '\n',
    ensures
        forall|other: Newline| #[trigger]
            with_endings(ending(newline) + u, other) == ending(other) + with_endings(u, other),
        forall|other: Newline|
            other != newline ==> #[trigger] endings_of(ending(newline) + u, other) == endings_of(
                u,
                other,
            ),
        endings_of(ending(newline) + u, newline) == endings_of(u, newline) + 1,
{
    let all = ending(newline) + u;
    assert(past_first(all) =~= u);
    assert(first_ending(all) == Some(newline));
}

proof fn lemma_plain_front(c: char, u: Seq<char>)
    requires
        c != '\n' && c != '\r',
    ensures
        forall|other: Newline| #[trigger]
            with_endings(seq![c] + u, other) == seq![c] + with_endings(u, other),
        forall|other: Newline| #[trigger] endings_of(seq![c] + u, other) == endings_of(u, other),
{
    let all = seq![c] + u;
    assert(past_first(all) =~= u);
    assert(first_ending(all) is None);
}

proof fn lemma_converted(s: Seq<char>, newline: Newline)
    ensures
        ({
            let t = with_endings(s, newline);
            &&& t.len() > 0 && newline != Newline::Lf ==> t[0] != '\n'
            &&& forall|other: Newline| #[trigger] with_endings(t, other) == with_endings(s, other)
            &&& forall|other: Newline| other != newline ==> #[trigger] endings_of(t, other) == 0
        }),
    decreases s.len(),
{
    if s.len() > 0 {
        let rest = past_first(s);
        lemma_converted(rest, newline);
        let u = with_endings(rest, newline);
        if first_ending(s) is Some {
            lemma_endings_front(u, newline);
        } else {
            lemma_plain_front(s[0], u);
        }
    } else {
        assert(with_endings(s, newline) =~= Seq::<char>::empty());
    }
}

/// Only the last conversion counts: what a text was converted to before makes
/// no difference. In particular, converting to what it already is does not
/// turn one CRLF into two.
pub proof fn law_the_last_conversion_counts(s: Seq<char>, first: Newline, then: Newline)
    ensures
        with_endings(with_endings(s, first), then) == with_endings(s, then),
{
    lemma_converted(s, first);
}

proof fn lemma_no_endings(s: Seq<char>, newline: Newline)
    requires
        forall|other: Newline| #[trigger] endings_of(s, other) == 0,
    ensures
        with_endings(s, newline) == s,
    decreases s.len(),
{
    if s.len() > 0 {
        assert(endings_of(s, Newline::Lf) == 0);
        assert(endings_of(s, Newline::Crlf) == 0);
        assert(endings_of(s, Newline::Cr) == 0);
        assert(first_ending(s) is None);
        let rest = past_first(s);
        assert forall|other: Newline| #[trigger] endings_of(rest, other) == 0 by {
            assert(endings_of(s, other) == 0);
        }
        lemma_no_endings(rest, newline);
        assert(with_endings(s, newline) =~= s);
    } else {
        assert(with_endings(s, newline) =~= s);
    }
}

/// A text whose line endings are all of one sort is not changed by giving it
/// the endings it mostly has.
pub proof fn law_own_endings_change_nothing(s: Seq<char>, newline: Newline)
    requires
        with_endings(s, newline) == s,
    ensures
        with_endings(s, most_used(s)) == s,
{
    lemma_converted(s, newline);
    assert(newline != Newline::Lf ==> endings_of(s, Newline::Lf) == 0);
    assert(newline != Newline::Crlf ==> endings_of(s, Newline::Crlf) == 0);
    assert(newline != Newline::Cr ==> endings_of(s, Newline::Cr) == 0);
    if endings_of(s, newline) == 0 {
        assert forall|other: Newline| #[trigger] endings_of(s, other) == 0 by {
            if other != newline {
                assert(endings_of(s, other) == 0);
            }
        }
        lemma_no_endings(s, most_used(s));
    } else {
        assert(most_used(s) == newline);
    }
}

/// A file opened and saved unchanged is byte for byte the same: its text is
/// read, its line endings recognised and put back, and the result written.
pub proof fn law_open_and_save_changes_nothing(
    s: Seq<char>,
    newline: Newline,
    encoding: Encoding,
)
    requires
        lost_of(s, encoding).len() == 0,
        with_endings(s, newline) == s,
    ensures
        ({
            let bytes = mark(encoding) + text_bytes(s, encoding);
            let read = decoded(bytes, encoding);
            let kept = with_endings(read, most_used(read));
            &&& mark(encoding) + text_bytes(kept, encoding) == bytes
            &&& lost_of(kept, encoding).len() == 0
        }),
{
    law_text_comes_back(s, encoding);
    law_own_endings_change_nothing(s, newline);
}

/// What is lost in writing a text is what the encoding cannot hold: each such
/// character once, in the order it is first met.
pub proof fn law_what_is_lost_is_what_cannot_be_held(s: Seq<char>, encoding: Encoding)
    ensures
        forall|c: char| #[trigger]
            lost_of(s, encoding).contains(c) <==> s.contains(c) && !can_hold(encoding, c),
        lost_of(s, encoding).no_duplicates(),
    decreases s.len(),
{
    let out = lost_of(s, encoding);
    if s.len() > 0 {
        let before = s.drop_last();
        let front = lost_of(before, encoding);
        law_what_is_lost_is_what_cannot_be_held(before, encoding);
        assert forall|c: char| #[trigger]
            out.contains(c) <==> s.contains(c) && !can_hold(encoding, c) by {
            if out.contains(c) {
                let k = choose|k: int| 0 <= k < out.len() && out[k] == c;
                if k < front.len() {
                    assert(front[k] == c);
                    assert(front.contains(c));
                    let j = choose|j: int| 0 <= j < before.len() && before[j] == c;
                    assert(s[j] == c);
                } else {
                    assert(s[s.len() - 1] == c);
                }
            }
            if s.contains(c) && !can_hold(encoding, c) {
                let j = choose|j: int| 0 <= j < s.len() && s[j] == c;
                if j < before.len() {
                    assert(before[j] == c);
                    assert(before.contains(c));
                }
                if front.contains(c) {
                    let k = choose|k: int| 0 <= k < front.len() && front[k] == c;
                    assert(out[k] == c);
                } else {
                    assert(out[out.len() - 1] == c);
                }
            }
        }
        assert forall|i: int, j: int| 0 <= i < j < out.len() implies out[i] != out[j] by {
            if j == front.len() {
                assert(front.contains(front[i]));
            }
        }
    }
}

/// What is lost of the beginning of a text comes first in what is lost of the
/// whole.
pub proof fn law_losses_come_in_the_order_they_are_met(
    first: Seq<char>,
    second: Seq<char>,
    encoding: Encoding,
)
    ensures
        lost_of(first, encoding).len() <= lost_of(first + second, encoding).len(),
        lost_of(first + second, encoding).take(lost_of(first, encoding).len() as int) == lost_of(
            first,
            encoding,
        ),
    decreases second.len(),
{
    let all = first + second;
    let head = lost_of(first, encoding);
    if second.len() == 0 {
        assert(all =~= first);
        assert(head.take(head.len() as int) =~= head);
    } else {
        assert(all.drop_last() =~= first + second.drop_last());
        law_losses_come_in_the_order_they_are_met(first, second.drop_last(), encoding);
        assert(lost_of(all, encoding).take(head.len() as int) =~= lost_of(
            first + second.drop_last(),
            encoding,
        ).take(head.len() as int));
    }
}

/// A table can hold a character exactly where one of its bytes stands for it,
/// and then writes a byte that does; for any other it writes `?`. One byte is
/// written for each character.
pub proof fn law_one_byte_for_each_character(s: Seq<char>, encoding: Encoding, i: int)
    requires
        encoding == Encoding::Latin1 || encoding == Encoding::Cp1252 || encoding
            == Encoding::Cp1251,
        0 <= i < s.len(),
    ensures
        text_bytes(s, encoding).len() == s.len(),
        can_hold(encoding, s[i]) <==> exists|byte: u8| #[trigger] byte_char(encoding, byte) == s[i],
        can_hold(encoding, s[i]) ==> byte_char(encoding, text_bytes(s, encoding)[i]) == s[i],
        !can_hold(encoding, s[i]) ==> text_bytes(s, encoding)[i] == 63,
{
    lemma_byte_for(encoding, s[i], 0);
    if exists|byte: u8| #[trigger] byte_char(encoding, byte) == s[i] {
        let byte = choose|byte: u8| #[trigger] byte_char(encoding, byte) == s[i];
        if byte_for(encoding, s[i], 0) >= 256 {
            assert(byte_char(encoding, byte as int as u8) != s[i]);
        }
    }
}

/// A mark is proof: what begins with an encoding's mark is read as that
/// encoding, whatever follows, and the mark is no part of the text.
pub proof fn law_a_mark_is_proof(rest: Seq<u8>, encoding: Encoding)
    requires
        mark(encoding).len() > 0,
    ensures
        detected(mark(encoding) + rest) == (Detected { encoding, confidence: Confidence::Marked }),
        body(mark(encoding) + rest, encoding) == rest,
{
    let bytes = mark(encoding) + rest;
    let len = mark(encoding).len() as int;
    assert(bytes.take(len) =~= mark(encoding));
    assert(bytes.skip(len) =~= rest);
    assert(bytes[0] == mark(encoding)[0] && bytes[1] == mark(encoding)[1]);
    if opens_with(bytes, mark(Encoding::Utf8Bom)) {
        assert(bytes.take(3)[0] == 0xEF);
    }
    if opens_with(bytes, mark(Encoding::Utf16Le)) {
        assert(bytes.take(2)[0] == 0xFF);
    }
}

/// Nothing is told to be marked that does not begin with the mark.
pub proof fn law_marked_only_with_a_mark(bytes: Seq<u8>)
    ensures
        detected(bytes).confidence == Confidence::Marked ==> {
            let head = mark(detected(bytes).encoding);
            head.len() > 0 && head.len() <= bytes.len() && bytes.take(head.len() as int) == head
        },
{
}

proof fn lemma_no_nulls(bytes: Seq<u8>, side: int, pairs: nat)
    requires
        0 <= side <= 1,
        2 * pairs <= bytes.len(),
        forall|i: int| 0 <= i < bytes.len() ==> bytes[i] != 0,
    ensures
        nulls(bytes, side, pairs) == 0,
    decreases pairs,
{
    if pairs > 0 {
        lemma_no_nulls(bytes, side, (pairs - 1) as nat);
    }
}

/// A file without a mark or null bytes that is UTF-8 is told to be that, and
/// not as a guess, however long it is and wherever the look at it ends.
pub proof fn law_utf8_is_told_for_certain(bytes: Seq<u8>)
    requires
        valid_utf8(bytes),
        forall|i: int| 0 <= i < bytes.len() ==> bytes[i] != 0,
        !opens_with(bytes, mark(Encoding::Utf8Bom)),
        !opens_with(bytes, mark(Encoding::Utf16Le)),
        !opens_with(bytes, mark(Encoding::Utf16Be)),
    ensures
        detected(bytes) == (Detected {
            encoding: Encoding::Utf8,
            confidence: Confidence::Certain,
        }),
{
    let seen = looked_at(bytes);
    let rest = bytes.skip(seen.len() as int);
    assert(seen + rest =~= bytes);
    assert(utf8_as_far_as_it_goes(seen));
    let pairs = seen.len() / 2;
    lemma_no_nulls(seen, 0, pairs);
    lemma_no_nulls(seen, 1, pairs);
    if seen.len() >= 4 {
        assert(pairs >= 2 && pairs * 3 / 4 >= 1);
    }
}

/// What is neither marked, nor UTF-16 by its nulls, nor UTF-8, is a guess
/// between the two tables: Cyrillic where a quarter of the bytes or more are
/// high ones.
pub proof fn law_the_rest_is_a_guess(bytes: Seq<u8>)
    requires
        0 < bytes.len() <= 65536,
        !opens_with(bytes, mark(Encoding::Utf8Bom)),
        !opens_with(bytes, mark(Encoding::Utf16Le)),
        !opens_with(bytes, mark(Encoding::Utf16Be)),
        unmarked_utf16(bytes) is None,
        forall|rest: Seq<u8>| !valid_utf8(#[trigger] (bytes + rest)),
    ensures
        detected(bytes).confidence == Confidence::Guessed,
        detected(bytes).encoding == if bytes.filter(|byte: u8| byte >= 0x80).len() * 4
            >= bytes.len() {
            Encoding::Cp1251
        } else {
            Encoding::Cp1252
        },
{
    lemma_high_bytes(bytes);
}

proof fn lemma_high_bytes(bytes: Seq<u8>)
    ensures
        high_bytes(bytes) == bytes.filter(|byte: u8| byte >= 0x80).len(),
    decreases bytes.len(),
{
    reveal(Seq::filter);
    if bytes.len() > 0 {
        lemma_high_bytes(bytes.drop_last());
    }
}

proof fn lemma_ascii_units(s: Seq<char>)
    requires
        forall|i: int| 0 <= i < s.len() ==> 0 < (#[trigger] s[i]) as u32 && (s[i] as u32) < 128,
    ensures
        text_units(s).len() == s.len(),
        forall|i: int| 0 <= i < s.len() ==> #[trigger] text_units(s)[i] == s[i] as u16,
    decreases s.len(),
{
    if s.len() > 0 {
        let front = s.drop_last();
        assert forall|i: int| 0 <= i < front.len() implies 0 < (#[trigger] front[i]) as u32 && (
        front[i] as u32) < 128 by {
            assert(front[i] == s[i]);
        }
        lemma_ascii_units(front);
        let last = s[s.len() - 1];
        assert(0 < last as u32 && (last as u32) < 128);
        text::lemma_code_point(last);
        assert(char_units(s.last()) =~= seq![last as u16]);
        assert forall|i: int| 0 <= i < s.len() implies #[trigger] text_units(s)[i]
            == s[i] as u16 by {
            if i < front.len() {
                assert(text_units(front)[i] == front[i] as u16);
            }
        }
    }
}

proof fn lemma_nulls_of_ascii(bytes: Seq<u8>, null_side: int, pairs: nat)
    requires
        0 <= null_side <= 1,
        2 * pairs <= bytes.len(),
        forall|i: int| #![trigger bytes[2 * i + null_side]]
            0 <= i < pairs ==> bytes[2 * i + null_side] == 0,
        forall|i: int| #![trigger bytes[2 * i + (1 - null_side)]]
            0 <= i < pairs ==> bytes[2 * i + (1 - null_side)] != 0,
    ensures
        nulls(bytes, null_side, pairs) == pairs,
        nulls(bytes, 1 - null_side, pairs) == 0,
    decreases pairs,
{
    if pairs > 0 {
        let last = pairs - 1;
        assert(bytes[2 * last + null_side] == 0);
        assert(bytes[2 * last + (1 - null_side)] != 0);
        lemma_nulls_of_ascii(bytes, null_side, last as nat);
    }
}

/// Latin text in UTF-16 is found without a mark, and the way round it is.
pub proof fn law_latin_text_in_utf16_is_found(s: Seq<char>, little: bool)
    requires
        2 <= s.len() <= 32768,
        forall|i: int| 0 <= i < s.len() ==> 0 < (#[trigger] s[i]) as u32 && (s[i] as u32) < 128,
    ensures
        detected(units_bytes(text_units(s), little)) == (Detected {
            encoding: if little {
                Encoding::Utf16Le
            } else {
                Encoding::Utf16Be
            },
            confidence: Confidence::Guessed,
        }),
{
    let units = text_units(s);
    let bytes = units_bytes(units, little);
    lemma_ascii_units(s);
    let null_side = if little {
        1int
    } else {
        0int
    };
    assert forall|i: int| #![trigger bytes[2 * i + null_side]]
        0 <= i < s.len() implies bytes[2 * i + null_side] == 0 by {
        assert(units[i] == s[i] as u16);
        assert(0 < s[i] as u32 && (s[i] as u32) < 128);
        text::lemma_code_point(s[i]);
        assert((2 * i + null_side) / 2 == i && (2 * i + null_side) % 2 == null_side);
    }
    assert forall|i: int| #![trigger bytes[2 * i + (1 - null_side)]]
        0 <= i < s.len() implies bytes[2 * i + (1 - null_side)] != 0 by {
        assert(units[i] == s[i] as u16);
        assert(0 < s[i] as u32 && (s[i] as u32) < 128);
        text::lemma_code_point(s[i]);
        assert((2 * i + (1 - null_side)) / 2 == i && (2 * i + (1 - null_side)) % 2 == 1
            - null_side);
    }
    lemma_nulls_of_ascii(bytes, null_side, s.len());
    assert(bytes.len() / 2 == s.len());
    assert(bytes[2 * 0 + null_side] == 0);
    assert(bytes[2 * 0 + (1 - null_side)] < 128) by {
        assert(units[0] == s[0] as u16);
        assert((s[0] as u32) < 128);
        text::lemma_code_point(s[0]);
    }
    assert(bytes[0] < 128 && bytes[1] < 128);
    if opens_with(bytes, mark(Encoding::Utf8Bom)) {
        assert(bytes.take(3)[0] == 0xEF);
    }
    if opens_with(bytes, mark(Encoding::Utf16Le)) {
        assert(bytes.take(2)[0] == 0xFF);
    }
    if opens_with(bytes, mark(Encoding::Utf16Be)) {
        assert(bytes.take(2)[0] == 0xFE);
    }
}

/// The sort of ending that a text is told to have is one that no other sort
/// outnumbers.
pub proof fn law_the_majority_is_told(s: Seq<char>, other: Newline)
    ensures
        endings_of(s, most_used(s)) >= endings_of(s, other),
{
}

/// Changing the endings of a text touches nothing else of it: its other
/// characters stay, in their order, and every ending gives one ending.
pub proof fn law_only_the_endings_change(s: Seq<char>, newline: Newline)
    ensures
        besides_endings(with_endings(s, newline)) == besides_endings(s),
        endings_of(with_endings(s, newline), newline) == endings_of(s, Newline::Lf) + endings_of(
            s,
            Newline::Crlf,
        ) + endings_of(s, Newline::Cr),
    decreases s.len(),
{
    if s.len() > 0 {
        let rest = past_first(s);
        law_only_the_endings_change(rest, newline);
        lemma_converted(rest, newline);
        let u = with_endings(rest, newline);
        if first_ending(s) is Some {
            lemma_endings_front(u, newline);
            let head = s.take(s.len() - rest.len());
            assert(s =~= head + rest);
            lemma_besides(head, rest);
            lemma_besides(ending(newline), u);
            lemma_endings_are_endings(head);
            lemma_endings_are_endings(ending(newline));
            assert(besides_endings(head) + besides_endings(rest) =~= besides_endings(rest));
            assert(besides_endings(ending(newline)) + besides_endings(u) =~= besides_endings(u));
        } else {
            lemma_plain_front(s[0], u);
            let head = seq![s[0]];
            assert(s =~= head + rest);
            lemma_besides(head, rest);
            lemma_besides(head, u);
        }
    } else {
        assert(with_endings(s, newline) =~= s);
    }
}

/// The characters of a text that belong to no line ending.
pub open spec fn besides_endings(s: Seq<char>) -> Seq<char>
    decreases s.len(),
{
    if s.len() == 0 {
        Seq::empty()
    } else {
        let front = besides_endings(s.drop_last());
        if s.last() == '\r' || s.last() == '\n' {
            front
        } else {
            front.push(s.last())
        }
    }
}

proof fn lemma_besides(a: Seq<char>, b: Seq<char>)
    ensures
        besides_endings(a + b) == besides_endings(a) + besides_endings(b),
    decreases b.len(),
{
    if b.len() == 0 {
        assert(a + b =~= a);
        assert(besides_endings(a) + besides_endings(b) =~= besides_endings(a));
    } else {
        assert((a + b).drop_last() =~= a + b.drop_last());
        lemma_besides(a, b.drop_last());
        assert(besides_endings(a + b) =~= besides_endings(a) + besides_endings(b));
    }
}

proof fn lemma_endings_are_endings(s: Seq<char>)
    requires
        forall|i: int| 0 <= i < s.len() ==> s[i] == '\r' || s[i] == '\n',
    ensures
        besides_endings(s).len() == 0,
    decreases s.len(),
{
    if s.len() > 0 {
        lemma_endings_are_endings(s.drop_last());
    }
}

/// A file of UTF-16 that ends in half a unit keeps what stands before it, and
/// says that something is missing.
pub proof fn law_half_a_unit_is_told(bytes: Seq<u8>, last: u8, little: bool)
    requires
        bytes.len() % 2 == 0,
    ensures
        utf16_bytes_text(bytes.push(last), little) == utf16_bytes_text(bytes, little).push(
            '\u{FFFD}',
        ),
{
    assert(units(bytes.push(last), little) =~= units(bytes, little));
}

/// In every table the first half is ASCII. Western text has the letters of
/// its upper half where Latin-1 has them, and Cyrillic has its alphabet in one
/// run.
pub proof fn law_tables_agree_on_ascii(byte: u8)
    ensures
        byte < 0x80 ==> byte_char(Encoding::Cp1252, byte) as u32 == byte as u32 && byte_char(
            Encoding::Cp1251,
            byte,
        ) as u32 == byte as u32,
        byte_char(Encoding::Latin1, byte) as u32 == byte as u32,
        byte >= 0xA0 ==> byte_char(Encoding::Cp1252, byte) as u32 == byte as u32,
        byte >= 0xC0 ==> byte_char(Encoding::Cp1251, byte) as u32 == byte as u32 - 0xC0 + 0x410,
{
}

/// Bytes without a mark are UTF-16 where three quarters of the pairs or more
/// have a null on one side, and fewer than one in eight on the other.
pub proof fn law_nulls_on_one_side_tell_utf16(bytes: Seq<u8>)
    ensures
        ({
            let pairs = bytes.len() / 2;
            let (low, high) = (nulls(bytes, 0, pairs), nulls(bytes, 1, pairs));
            &&& unmarked_utf16(bytes) == Some(Encoding::Utf16Le) <==> bytes.len() >= 4 && high
                >= pairs * 3 / 4 && low * 8 < pairs
            &&& bytes.len() >= 4 && low >= pairs * 3 / 4 && high * 8 < pairs
                ==> unmarked_utf16(bytes) is Some
            &&& unmarked_utf16(bytes) == Some(Encoding::Utf16Be) ==> bytes.len() >= 4 && low
                >= pairs * 3 / 4 && high * 8 < pairs
        }),
{
}

/// Where two sorts of ending are as many, CRLF is told before the others, and
/// LF before CR; a text without endings is told to have LF.
pub proof fn law_ties_between_endings(s: Seq<char>)
    ensures
        ({
            let (crlf, lf, cr) = (
                endings_of(s, Newline::Crlf),
                endings_of(s, Newline::Lf),
                endings_of(s, Newline::Cr),
            );
            &&& crlf > 0 && crlf >= lf && crlf >= cr ==> most_used(s) == Newline::Crlf
            &&& lf >= cr && lf > crlf ==> most_used(s) == Newline::Lf
            &&& cr > lf && cr > crlf ==> most_used(s) == Newline::Cr
            &&& crlf == 0 && lf == 0 && cr == 0 ==> most_used(s) == Newline::Lf
        }),
{
}

/// Endings are counted one by one: a plain character is none, and CR and LF
/// in a row are one.
pub proof fn law_endings_are_counted_one_by_one(c: char, rest: Seq<char>, newline: Newline)
    requires
        c != '\r',
        c != '\n',
    ensures
        endings_of(seq![c] + rest, newline) == endings_of(rest, newline),
        endings_of(seq!['\n'] + rest, newline) == endings_of(rest, newline) + (if newline
            == Newline::Lf {
            1nat
        } else {
            0
        }),
        endings_of(seq!['\r', '\n'] + rest, newline) == endings_of(rest, newline) + (if newline
            == Newline::Crlf {
            1nat
        } else {
            0
        }),
        rest.len() == 0 || rest[0] != '\n' ==> endings_of(seq!['\r'] + rest, newline)
            == endings_of(rest, newline) + (if newline == Newline::Cr {
            1nat
        } else {
            0
        }),
{
    assert((seq![c] + rest).skip(1) =~= rest);
    assert((seq!['\n'] + rest).skip(1) =~= rest);
    assert((seq!['\r'] + rest).skip(1) =~= rest);
    assert((seq!['\r', '\n'] + rest).skip(2) =~= rest);
}

} // verus!
