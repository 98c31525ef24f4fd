//! Text as sequences of characters.
//!
//! A `&str` or a `String` is modelled by its view, the sequence of its
//! characters. The specification functions here say what cutting, trimming
//! and joining mean on such sequences, and the executable functions beside
//! them do it.

use vstd::prelude::*;
use crate::order;

verus! {

broadcast use vstd::string::group_string_axioms;

// ---- what the standard library answers about characters ----------------------

/// `String::push`: the character goes to the end.
pub assume_specification[ String::push ](s: &mut String, c: char)
    ensures
        final(s)@ == old(s)@.push(c),
;

/// Whether every character of a text is an ASCII character.
pub open spec fn all_ascii(text: Seq<char>) -> bool {
    forall|i: int| 0 <= i < text.len() ==> (#[trigger] text[i] as u32) < 128
}

/// What `str::to_lowercase` makes of a text that is not all ASCII.
pub uninterp spec fn unicode_lowercase(text: Seq<char>) -> Seq<char>;

/// A text in small letters.
pub open spec fn lowercase(text: Seq<char>) -> Seq<char> {
    if all_ascii(text) {
        ascii_lower(text)
    } else {
        unicode_lowercase(text)
    }
}

/// Calls `str::to_lowercase`. The letters of an ASCII text become their small
/// forms and nothing else in it changes; of any other text the result is a
/// function of the text alone, and the Unicode tables that define it are not
/// restated.
#[verifier::external_body]
pub(crate) fn to_lowercase(text: &str) -> (r: String)
    ensures
        r@ == if all_ascii(text@) {
            ascii_lower(text@)
        } else {
            unicode_lowercase(text@)
        },
{
    text.to_lowercase()
}

/// Whether a character has the Unicode property `White_Space`.
pub open spec fn white_space(c: char) -> bool {
    let code = c as u32;
    ||| 0x9 <= code <= 0xD
    ||| code == 0x20
    ||| code == 0x85
    ||| code == 0xA0
    ||| code == 0x1680
    ||| 0x2000 <= code <= 0x200A
    ||| code == 0x2028
    ||| code == 0x2029
    ||| code == 0x202F
    ||| code == 0x205F
    ||| code == 0x3000
}

/// Whether a character has the Unicode property `White_Space`.
pub(crate) fn is_white_space(c: char) -> (r: bool)
    ensures
        r == white_space(c),
{
    let code: u32 = c as u32;
    (0x9 <= code && code <= 0xD) || code == 0x20 || code == 0x85 || code == 0xA0 || code == 0x1680
        || (0x2000 <= code && code <= 0x200A) || code == 0x2028 || code == 0x2029 || code == 0x202F
        || code == 0x205F || code == 0x3000
}

// ---- texts and characters -----------------------------------------------------

/// The characters of each text of a list.
pub open spec fn views(texts: Seq<String>) -> Seq<Seq<char>> {
    texts.map_values(|text: String| text@)
}

/// The characters of a text.
pub fn chars(text: &str) -> (r: Vec<char>)
    ensures
        r@ == text@,
{
    let mut r: Vec<char> = Vec::new();
    for c in it: text.chars()
        invariant
            r@ =~= it.seq().take(it.index() as int),
            it.seq() == text@,
    {
        r.push(c);
    }
    r
}

/// The text made of some characters.
pub fn string(chars: &Vec<char>) -> (r: String)
    ensures
        r@ == chars@,
{
    part(chars, 0, chars.len())
}

/// The text made of the characters from `from` up to `to`.
pub fn part(chars: &Vec<char>, from: usize, to: usize) -> (r: String)
    requires
        from <= to <= chars@.len(),
    ensures
        r@ == chars@.subrange(from as int, to as int),
{
    let mut r: String = String::new();
    let mut i: usize = from;
    while i < to
        invariant
            from <= i <= to <= chars@.len(),
            r@ =~= chars@.subrange(from as int, i as int),
        decreases to - i,
    {
        r.push(chars[i]);
        i += 1;
    }
    r
}

/// Whether two texts have the same characters.
pub fn same(a: &str, b: &str) -> (r: bool)
    ensures
        r == (a@ == b@),
{
    let x: Vec<char> = chars(a);
    let y: Vec<char> = chars(b);
    if x.len() != y.len() {
        return false;
    }
    let mut i: usize = 0;
    while i < x.len()
        invariant
            i <= x@.len(),
            x@ == a@,
            y@ == b@,
            x@.len() == y@.len(),
            forall|j: int| 0 <= j < i ==> x@[j] == y@[j],
        decreases x@.len() - i,
    {
        if x[i] != y[i] {
            return false;
        }
        i += 1;
    }
    assert(x@ =~= y@);
    true
}

// ---- looking for a character ---------------------------------------------------

/// The first position at or after `from` that holds `c`; the length where
/// there is none.
pub open spec fn seek(s: Seq<char>, c: char, from: int) -> int
    decreases s.len() - from,
{
    if from >= s.len() {
        s.len() as int
    } else if s[from] == c {
        from
    } else {
        seek(s, c, from + 1)
    }
}

/// The last position before `to` that holds `c`; -1 where there is none.
pub open spec fn seek_back(s: Seq<char>, c: char, to: int) -> int
    decreases to,
{
    if to <= 0 {
        -1
    } else if s[to - 1] == c {
        to - 1
    } else {
        seek_back(s, c, to - 1)
    }
}

/// What [`seek`] finds, said once and for all.
pub proof fn lemma_seek(s: Seq<char>, c: char, from: int)
    requires
        0 <= from <= s.len(),
    ensures
        from <= seek(s, c, from) <= s.len(),
        seek(s, c, from) < s.len() ==> s[seek(s, c, from)] == c,
        forall|j: int| from <= j < seek(s, c, from) ==> s[j] != c,
    decreases s.len() - from,
{
    if from < s.len() && s[from] != c {
        lemma_seek(s, c, from + 1);
    }
}

/// A position with `c` in it and nothing but other characters before it is
/// the one [`seek`] finds.
pub proof fn lemma_seek_is(s: Seq<char>, c: char, from: int, at: int)
    requires
        0 <= from <= at <= s.len(),
        at < s.len() ==> s[at] == c,
        forall|j: int| from <= j < at ==> s[j] != c,
    ensures
        seek(s, c, from) == at,
{
    lemma_seek(s, c, from);
    let found = seek(s, c, from);
    if found < at {
        assert(s[found] != c);
    } else if at < found {
        assert(s[at] != c);
    }
}

/// What [`seek_back`] finds, said once and for all.
pub proof fn lemma_seek_back(s: Seq<char>, c: char, to: int)
    requires
        0 <= to <= s.len(),
    ensures
        -1 <= seek_back(s, c, to) < to || to == 0,
        to == 0 ==> seek_back(s, c, to) == -1,
        seek_back(s, c, to) >= 0 ==> s[seek_back(s, c, to)] == c,
        forall|j: int| seek_back(s, c, to) < j < to ==> s[j] != c,
    decreases to,
{
    if to > 0 && s[to - 1] != c {
        lemma_seek_back(s, c, to - 1);
    }
}

/// A position with `c` in it and nothing but other characters after it is the
/// one [`seek_back`] finds.
pub proof fn lemma_seek_back_is(s: Seq<char>, c: char, to: int, at: int)
    requires
        -1 <= at < to <= s.len() || (at == -1 && to == 0),
        at >= 0 ==> s[at] == c,
        forall|j: int| at < j < to ==> s[j] != c,
    ensures
        seek_back(s, c, to) == at,
{
    lemma_seek_back(s, c, to);
    let found = seek_back(s, c, to);
    if found < at {
        assert(s[at] != c);
    } else if at < found {
        assert(s[found] != c);
    }
}

/// The first position at or after `from` that holds `c`, if there is one.
pub fn find_char(s: &Vec<char>, c: char, from: usize) -> (r: Option<usize>)
    requires
        from <= s@.len(),
    ensures
        match r {
            Some(i) => i < s@.len() && i == seek(s@, c, from as int),
            None => seek(s@, c, from as int) == s@.len(),
        },
{
    let mut i: usize = from;
    while i < s.len()
        invariant
            from <= i <= s@.len(),
            seek(s@, c, from as int) == seek(s@, c, i as int),
        decreases s@.len() - i,
    {
        if s[i] == c {
            return Some(i);
        }
        i += 1;
    }
    None
}

/// The last position that holds `c`, if there is one.
pub fn rfind_char(s: &Vec<char>, c: char) -> (r: Option<usize>)
    ensures
        match r {
            Some(i) => i < s@.len() && i == seek_back(s@, c, s@.len() as int),
            None => seek_back(s@, c, s@.len() as int) == -1,
        },
{
    let mut i: usize = s.len();
    while i > 0
        invariant
            i <= s@.len(),
            seek_back(s@, c, s@.len() as int) == seek_back(s@, c, i as int),
        decreases i,
    {
        if s[i - 1] == c {
            return Some(i - 1);
        }
        i -= 1;
    }
    None
}

// ---- cutting -------------------------------------------------------------------

/// The pieces of `s` between occurrences of `c`: always at least one.
pub open spec fn split(s: Seq<char>, c: char) -> Seq<Seq<char>>
    decreases s.len(),
{
    let at = seek(s, c, 0);
    if 0 <= at < s.len() {
        seq![s.take(at)] + split(s.skip(at + 1), c)
    } else {
        seq![s]
    }
}

/// Cutting off the piece before the first `c`.
pub proof fn lemma_split_at(s: Seq<char>, c: char, at: int)
    requires
        0 <= at < s.len(),
        s[at] == c,
        forall|j: int| 0 <= j < at ==> s[j] != c,
    ensures
        split(s, c) == seq![s.take(at)] + split(s.skip(at + 1), c),
{
    lemma_seek_is(s, c, 0, at);
}

/// A text without `c` is one piece.
pub proof fn lemma_split_whole(s: Seq<char>, c: char)
    requires
        forall|j: int| 0 <= j < s.len() ==> s[j] != c,
    ensures
        split(s, c) == seq![s],
{
    lemma_seek_is(s, c, 0, s.len() as int);
}

/// Every piece is free of the separator.
pub proof fn lemma_split_pieces(s: Seq<char>, c: char)
    ensures
        split(s, c).len() >= 1,
        forall|i: int, j: int|
            #![trigger split(s, c)[i][j]]
            0 <= i < split(s, c).len() && 0 <= j < split(s, c)[i].len() ==> split(s, c)[i][j] != c,
        forall|i: int| 0 <= i < split(s, c).len() ==> #[trigger] split(s, c)[i].len() <= s.len(),
    decreases s.len(),
{
    lemma_seek(s, c, 0);
    let at = seek(s, c, 0);
    if at < s.len() {
        lemma_split_pieces(s.skip(at + 1), c);
        let rest = split(s.skip(at + 1), c);
        assert forall|i: int| 0 <= i < split(s, c).len() implies #[trigger] split(s, c)[i].len()
            <= s.len() by {
            if i > 0 {
                assert(split(s, c)[i] == rest[i - 1]);
            }
        }
        assert forall|i: int, j: int|
            #![trigger split(s, c)[i][j]]
            0 <= i < split(s, c).len() && 0 <= j < split(s, c)[i].len() implies split(s, c)[i][j]
            != c by {
            if i > 0 {
                assert(split(s, c)[i] == rest[i - 1]);
                assert(rest[i - 1][j] != c);
            }
        }
    }
}

/// The pieces of a text between occurrences of `c`.
pub fn split_chars(s: &Vec<char>, c: char) -> (r: Vec<String>)
    ensures
        views(r@) == split(s@, c),
        r@.len() >= 1,
{
    let mut r: Vec<String> = Vec::new();
    let mut start: usize = 0;
    let mut i: usize = 0;
    assert(s@.skip(0) =~= s@);
    while i < s.len()
        invariant
            start <= i <= s@.len(),
            forall|j: int| start <= j < i ==> s@[j] != c,
            split(s@, c) == views(r@) + split(s@.skip(start as int), c),
        decreases s@.len() - i,
    {
        if s[i] == c {
            let piece: String = part(s, start, i);
            proof {
                let tail = s@.skip(start as int);
                lemma_split_at(tail, c, i - start);
                assert(tail.take(i - start) =~= piece@);
                assert(tail.skip(i - start + 1) =~= s@.skip(i + 1));
                assert(views(r@.push(piece)) =~= views(r@).push(piece@));
                assert(views(r@) + (seq![piece@] + split(s@.skip(i + 1), c)) =~= views(
                    r@.push(piece),
                ) + split(s@.skip(i + 1), c));
            }
            r.push(piece);
            start = i + 1;
        }
        i += 1;
    }
    let piece: String = part(s, start, i);
    proof {
        let tail = s@.skip(start as int);
        lemma_split_whole(tail, c);
        assert(tail =~= piece@);
        assert(views(r@.push(piece)) =~= views(r@) + seq![piece@]);
    }
    r.push(piece);
    r
}

/// The pieces of a text between occurrences of `c`.
pub fn split_text(text: &str, c: char) -> (r: Vec<String>)
    ensures
        views(r@) == split(text@, c),
        r@.len() >= 1,
{
    let s: Vec<char> = chars(text);
    split_chars(&s, c)
}

// ---- trimming ------------------------------------------------------------------

/// Without the white space in front.
pub open spec fn trim_start(s: Seq<char>) -> Seq<char>
    decreases s.len(),
{
    if s.len() > 0 && white_space(s[0]) {
        trim_start(s.skip(1))
    } else {
        s
    }
}

/// Without the white space behind.
pub open spec fn trim_end(s: Seq<char>) -> Seq<char>
    decreases s.len(),
{
    if s.len() > 0 && white_space(s.last()) {
        trim_end(s.drop_last())
    } else {
        s
    }
}

/// Without the white space at either end.
pub open spec fn trimmed(s: Seq<char>) -> Seq<char> {
    trim_end(trim_start(s))
}

/// Without the characters `c` in front.
pub open spec fn strip_start(s: Seq<char>, c: char) -> Seq<char>
    decreases s.len(),
{
    if s.len() > 0 && s[0] == c {
        strip_start(s.skip(1), c)
    } else {
        s
    }
}

/// Without the characters `c` behind.
pub open spec fn strip_end(s: Seq<char>, c: char) -> Seq<char>
    decreases s.len(),
{
    if s.len() > 0 && s.last() == c {
        strip_end(s.drop_last(), c)
    } else {
        s
    }
}

/// Without the characters `c` at either end.
pub open spec fn stripped(s: Seq<char>, c: char) -> Seq<char> {
    strip_end(strip_start(s, c), c)
}

/// A text with no white space at its ends is left alone.
pub proof fn lemma_trimmed_fixed(s: Seq<char>)
    requires
        s.len() > 0 ==> !white_space(s[0]) && !white_space(s.last()),
    ensures
        trimmed(s) == s,
{
}

/// The text without white space at either end.
pub fn trim<'a>(text: &'a str) -> (r: &'a str)
    ensures
        r@ == trimmed(text@),
{
    let s: Vec<char> = chars(text);
    let mut from: usize = 0;
    assert(s@.skip(0) =~= s@);
    while from < s.len() && is_white_space(s[from])
        invariant
            from <= s@.len(),
            s@ == text@,
            trim_start(s@) == trim_start(s@.skip(from as int)),
        decreases s@.len() - from,
    {
        assert(s@.skip(from as int).skip(1) =~= s@.skip(from + 1));
        from += 1;
    }
    let mut to: usize = s.len();
    assert(s@.subrange(from as int, to as int) =~= s@.skip(from as int));
    while to > from && is_white_space(s[to - 1])
        invariant
            from <= to <= s@.len(),
            s@ == text@,
            trim_end(s@.skip(from as int)) == trim_end(s@.subrange(from as int, to as int)),
        decreases to,
    {
        assert(s@.subrange(from as int, to as int).drop_last() =~= s@.subrange(
            from as int,
            to - 1,
        ));
        to -= 1;
    }
    text.substring_char(from, to)
}

/// Whether nothing but white space is there.
pub fn is_blank(text: &str) -> (r: bool)
    ensures
        r == (trimmed(text@).len() == 0),
{
    trim(text).is_empty()
}

/// The characters of a text without `c` at either end.
pub fn strip_chars(s: &Vec<char>, c: char) -> (r: Vec<char>)
    ensures
        r@ == stripped(s@, c),
{
    let mut from: usize = 0;
    assert(s@.skip(0) =~= s@);
    while from < s.len() && s[from] == c
        invariant
            from <= s@.len(),
            strip_start(s@, c) == strip_start(s@.skip(from as int), c),
        decreases s@.len() - from,
    {
        assert(s@.skip(from as int).skip(1) =~= s@.skip(from + 1));
        from += 1;
    }
    let mut to: usize = s.len();
    assert(s@.subrange(from as int, to as int) =~= s@.skip(from as int));
    while to > from && s[to - 1] == c
        invariant
            from <= to <= s@.len(),
            strip_end(s@.skip(from as int), c) == strip_end(
                s@.subrange(from as int, to as int),
                c,
            ),
        decreases to,
    {
        assert(s@.subrange(from as int, to as int).drop_last() =~= s@.subrange(
            from as int,
            to - 1,
        ));
        to -= 1;
    }
    slice(s, from, to)
}

/// The characters from `from` up to `to`.
pub fn slice(s: &Vec<char>, from: usize, to: usize) -> (r: Vec<char>)
    requires
        from <= to <= s@.len(),
    ensures
        r@ == s@.subrange(from as int, to as int),
{
    let mut r: Vec<char> = Vec::new();
    let mut i: usize = from;
    while i < to
        invariant
            from <= i <= to <= s@.len(),
            r@ =~= s@.subrange(from as int, i as int),
        decreases to - i,
    {
        r.push(s[i]);
        i += 1;
    }
    r
}

// ---- parts of a text -----------------------------------------------------------

/// Whether `needle` stands in `s` at `at`.
pub open spec fn stands_at(s: Seq<char>, needle: Seq<char>, at: int) -> bool {
    0 <= at && at + needle.len() <= s.len() && s.subrange(at, at + needle.len()) == needle
}

/// Whether `needle` stands anywhere in `s`.
pub open spec fn holds(s: Seq<char>, needle: Seq<char>) -> bool {
    exists|at: int| stands_at(s, needle, at)
}

/// Whether `s` begins with `head`.
pub open spec fn begins(s: Seq<char>, head: Seq<char>) -> bool {
    stands_at(s, head, 0)
}

/// Whether `s` ends with `tail`.
pub open spec fn ends(s: Seq<char>, tail: Seq<char>) -> bool {
    stands_at(s, tail, s.len() - tail.len())
}

/// Whether `needle` stands in `s` at `at`.
pub fn is_at(s: &Vec<char>, needle: &Vec<char>, at: usize) -> (r: bool)
    ensures
        r == stands_at(s@, needle@, at as int),
{
    let most: usize = s.len();
    if at > most || needle.len() > most - at {
        return false;
    }
    let mut i: usize = 0;
    while i < needle.len()
        invariant
            i <= needle@.len(),
            at + needle@.len() <= s@.len() == most,
            forall|j: int| 0 <= j < i ==> s@[at + j] == needle@[j],
        decreases needle@.len() - i,
    {
        if s[at + i] != needle[i] {
            proof {
                assert(s@.subrange(at as int, at + needle@.len())[i as int] != needle@[i as int]);
            }
            return false;
        }
        i += 1;
    }
    assert(s@.subrange(at as int, at + needle@.len()) =~= needle@);
    true
}

/// Whether the text begins with `head`.
pub fn starts_with(text: &str, head: &str) -> (r: bool)
    ensures
        r == begins(text@, head@),
{
    let s: Vec<char> = chars(text);
    let n: Vec<char> = chars(head);
    is_at(&s, &n, 0)
}

/// Whether the text ends with `tail`.
pub fn ends_with(text: &str, tail: &str) -> (r: bool)
    ensures
        r == ends(text@, tail@),
{
    let s: Vec<char> = chars(text);
    let n: Vec<char> = chars(tail);
    if n.len() > s.len() {
        return false;
    }
    is_at(&s, &n, s.len() - n.len())
}

/// Whether the text has `needle` in it anywhere.
pub fn contains(text: &str, needle: &str) -> (r: bool)
    ensures
        r == holds(text@, needle@),
{
    let s: Vec<char> = chars(text);
    let n: Vec<char> = chars(needle);
    let mut i: usize = 0;
    while i <= s.len()
        invariant
            i <= s@.len() + 1,
            s@ == text@,
            n@ == needle@,
            forall|at: int| 0 <= at < i ==> !stands_at(s@, n@, at),
        decreases s@.len() + 1 - i,
    {
        if is_at(&s, &n, i) {
            return true;
        }
        if i == s.len() {
            return false;
        }
        i += 1;
    }
    false
}

/// Whether one of the texts is `wanted`.
pub fn among(wanted: &str, texts: &Vec<String>) -> (r: bool)
    ensures
        r == views(texts@).contains(wanted@),
{
    let mut i: usize = 0;
    while i < texts.len()
        invariant
            i <= texts@.len(),
            forall|j: int| 0 <= j < i ==> texts@[j]@ != wanted@,
        decreases texts@.len() - i,
    {
        if same(texts[i].as_str(), wanted) {
            assert(views(texts@)[i as int] == wanted@);
            return true;
        }
        i += 1;
    }
    assert forall|j: int| 0 <= j < views(texts@).len() implies views(texts@)[j] != wanted@ by {
        assert(views(texts@)[j] == texts@[j]@);
    }
    false
}

// ---- order ---------------------------------------------------------------------

/// Whether `a` comes strictly before `b`, character by character.
pub open spec fn before(a: Seq<char>, b: Seq<char>) -> bool
    decreases a.len(),
{
    if b.len() == 0 {
        false
    } else if a.len() == 0 {
        true
    } else if a[0] == b[0] {
        before(a.skip(1), b.skip(1))
    } else {
        a[0] < b[0]
    }
}

/// The order has no ties but equality, and is transitive.
pub proof fn lemma_before_total(a: Seq<char>, b: Seq<char>)
    ensures
        before(a, b) || before(b, a) || a == b,
        !(before(a, b) && before(b, a)),
        !before(a, a),
    decreases a.len(),
{
    if a.len() > 0 && b.len() > 0 && a[0] == b[0] {
        lemma_before_total(a.skip(1), b.skip(1));
        if !before(a, b) && !before(b, a) {
            assert(a =~= seq![a[0]] + a.skip(1));
            assert(b =~= seq![b[0]] + b.skip(1));
        }
    } else if a.len() == 0 && b.len() == 0 {
        assert(a =~= b);
    }
    lemma_before_self(a);
}

proof fn lemma_before_self(a: Seq<char>)
    ensures
        !before(a, a),
    decreases a.len(),
{
    if a.len() > 0 {
        lemma_before_self(a.skip(1));
    }
}

pub proof fn lemma_before_transitive(a: Seq<char>, b: Seq<char>, c: Seq<char>)
    requires
        before(a, b),
        before(b, c),
    ensures
        before(a, c),
    decreases a.len(),
{
    if a.len() > 0 && a[0] == b[0] && b[0] == c[0] {
        lemma_before_transitive(a.skip(1), b.skip(1), c.skip(1));
    }
}

/// Whether the text `a` comes strictly before `b`.
pub fn comes_before(a: &str, b: &str) -> (r: bool)
    ensures
        r == before(a@, b@),
{
    let x: Vec<char> = chars(a);
    let y: Vec<char> = chars(b);
    let mut i: usize = 0;
    assert(x@.skip(0) =~= x@);
    assert(y@.skip(0) =~= y@);
    while i < x.len() && i < y.len()
        invariant
            i <= x@.len(),
            i <= y@.len(),
            x@ == a@,
            y@ == b@,
            before(a@, b@) == before(x@.skip(i as int), y@.skip(i as int)),
        decreases x@.len() - i,
    {
        if x[i] != y[i] {
            return x[i] < y[i];
        }
        assert(x@.skip(i as int).skip(1) =~= x@.skip(i + 1));
        assert(y@.skip(i as int).skip(1) =~= y@.skip(i + 1));
        i += 1;
    }
    i < y.len()
}

// ---- numbers -------------------------------------------------------------------

/// The digit for a value below ten.
pub open spec fn digit(value: nat) -> char {
    (48 + value) as char
}

/// A number in decimal, without leading zeros.
pub open spec fn decimal(n: nat) -> Seq<char>
    decreases n,
{
    if n < 10 {
        seq![digit(n)]
    } else {
        decimal(n / 10).push(digit(n % 10))
    }
}

/// `s` with as many `fill` in front as it takes to be `width` long.
pub open spec fn padded(s: Seq<char>, width: nat, fill: char) -> Seq<char> {
    if s.len() >= width {
        s
    } else {
        Seq::new((width - s.len()) as nat, |i: int| fill) + s
    }
}

/// The digit for a value below ten.
pub fn digit_char(value: u8) -> (r: char)
    requires
        value < 10,
    ensures
        r == digit(value as nat),
{
    (48u8 + value) as char
}

/// A number in decimal.
pub fn decimal_text(n: u64) -> (r: String)
    ensures
        r@ == decimal(n as nat),
    decreases n,
{
    if n < 10 {
        let mut r: String = String::new();
        r.push(digit_char(n as u8));
        assert(r@ =~= seq![digit(n as nat)]);
        r
    } else {
        let mut r: String = decimal_text(n / 10);
        r.push(digit_char((n % 10) as u8));
        r
    }
}

/// The text with as many `fill` in front as it takes to be `width` long.
pub fn pad_start(text: &str, width: usize, fill: char) -> (r: String)
    ensures
        r@ == padded(text@, width as nat, fill),
{
    let have: usize = text.unicode_len();
    let mut r: String = String::new();
    let mut i: usize = have;
    while i < width
        invariant
            have == text@.len(),
            have <= i,
            i <= width || i == have,
            r@ =~= Seq::new((i - have) as nat, |j: int| fill),
        decreases width - i,
    {
        r.push(fill);
        i += 1;
    }
    r.append(text);
    assert(have >= width ==> r@ =~= text@);
    r
}

/// Whether every character is a decimal digit.
pub open spec fn all_digits(s: Seq<char>) -> bool {
    forall|i: int| 0 <= i < s.len() ==> '0' <= #[trigger] s[i] <= '9'
}

/// The number that some digits write.
pub open spec fn number(s: Seq<char>) -> nat
    decreases s.len(),
{
    if s.len() == 0 {
        0
    } else {
        number(s.drop_last()) * 10 + (s.last() as nat - 48) as nat
    }
}

/// The digits of an unsigned number as it may be typed: one `+` in front of
/// them is allowed.
pub open spec fn unsigned(s: Seq<char>) -> Seq<char> {
    if s.len() > 0 && s[0] == '+' {
        s.skip(1)
    } else {
        s
    }
}

/// The number no greater than `most` that a text writes, if it writes one.
pub open spec fn parsed(s: Seq<char>, most: nat) -> Option<nat> {
    let digits = unsigned(s);
    if digits.len() > 0 && all_digits(digits) && number(digits) <= most {
        Some(number(digits))
    } else {
        None
    }
}

/// A number never shrinks as digits are added to it.
pub proof fn lemma_number_grows(s: Seq<char>, to: int)
    requires
        0 <= to <= s.len(),
    ensures
        number(s.take(to)) <= number(s),
    decreases s.len() - to,
{
    if to < s.len() {
        assert(s.take(to + 1).drop_last() =~= s.take(to));
        lemma_number_grows(s, to + 1);
    } else {
        assert(s.take(to) =~= s);
    }
}

/// Reads a number no greater than `most`.
pub fn parse_unsigned(text: &str, most: u64) -> (r: Option<u64>)
    ensures
        match r {
            Some(n) => parsed(text@, most as nat) == Some(n as nat),
            None => parsed(text@, most as nat) is None,
        },
{
    let s: Vec<char> = chars(text);
    let from: usize = if s.len() > 0 && s[0] == '+' {
        1
    } else {
        0
    };
    let ghost digits = unsigned(s@);
    assert(digits =~= s@.skip(from as int));
    if from >= s.len() {
        return None;
    }
    let mut n: u64 = 0;
    let mut i: usize = from;
    assert(digits.take(0) =~= Seq::<char>::empty());
    while i < s.len()
        invariant
            from <= i <= s@.len(),
            s@ == text@,
            digits == unsigned(s@),
            digits == s@.skip(from as int),
            forall|j: int| 0 <= j < i - from ==> '0' <= #[trigger] digits[j] <= '9',
            n == number(digits.take(i - from)),
            n <= most,
        decreases s@.len() - i,
    {
        let c: char = s[i];
        assert(digits[i - from] == c);
        if !('0' <= c && c <= '9') {
            return None;
        }
        let d: u64 = c as u64 - 48;
        proof {
            assert(digits.take(i - from + 1).drop_last() =~= digits.take(i - from));
            assert(number(digits.take(i - from + 1)) == n * 10 + d);
            lemma_number_grows(digits, i - from + 1);
        }
        if n > (u64::MAX - d) / 10 || n * 10 + d > most {
            return None;
        }
        n = n * 10 + d;
        i += 1;
    }
    assert(digits.take(i - from) =~= digits);
    Some(n)
}

// ---- whole texts ---------------------------------------------------------------

/// The first position at or after `from` where `needle` stands; the length
/// plus one where there is none.
pub open spec fn seek_text(s: Seq<char>, needle: Seq<char>, from: int) -> int
    decreases s.len() + 1 - from,
{
    if from > s.len() {
        s.len() as int + 1
    } else if stands_at(s, needle, from) {
        from
    } else {
        seek_text(s, needle, from + 1)
    }
}

/// A position where `needle` stands, with none before it, is the first.
pub proof fn lemma_seek_text_is(s: Seq<char>, needle: Seq<char>, from: int, at: int)
    requires
        0 <= from <= at <= s.len(),
        stands_at(s, needle, at),
        forall|j: int| from <= j < at ==> !stands_at(s, needle, j),
    ensures
        seek_text(s, needle, from) == at,
    decreases at - from,
{
    if from < at {
        lemma_seek_text_is(s, needle, from + 1, at);
    }
}

/// The first position where `needle` stands, if it stands anywhere.
pub fn find_text(s: &Vec<char>, needle: &Vec<char>) -> (r: Option<usize>)
    ensures
        match r {
            Some(i) => i <= s@.len() && i == seek_text(s@, needle@, 0) && stands_at(
                s@,
                needle@,
                i as int,
            ),
            None => seek_text(s@, needle@, 0) == s@.len() + 1,
        },
{
    let mut i: usize = 0;
    loop
        invariant
            i <= s@.len(),
            seek_text(s@, needle@, 0) == seek_text(s@, needle@, i as int),
        decreases s@.len() - i,
    {
        if is_at(s, needle, i) {
            return Some(i);
        }
        if i == s.len() {
            assert(seek_text(s@, needle@, i + 1) == s@.len() + 1);
            return None;
        }
        i += 1;
    }
}

/// Every `from` replaced by `to`.
pub open spec fn swapped(s: Seq<char>, from: char, to: char) -> Seq<char> {
    s.map_values(
        |c: char|
            if c == from {
                to
            } else {
                c
            },
    )
}

/// The characters with every `from` replaced by `to`.
pub fn swap_char(s: &Vec<char>, from: char, to: char) -> (r: Vec<char>)
    ensures
        r@ == swapped(s@, from, to),
{
    let mut r: Vec<char> = Vec::new();
    let mut i: usize = 0;
    while i < s.len()
        invariant
            i <= s@.len(),
            r@ =~= swapped(s@, from, to).take(i as int),
        decreases s@.len() - i,
    {
        r.push(
            if s[i] == from {
                to
            } else {
                s[i]
            },
        );
        i += 1;
    }
    r
}

/// An ASCII capital made small; anything else as it is.
pub open spec fn ascii_small(c: char) -> char {
    if 'A' <= c <= 'Z' {
        (c as u8 + 32) as char
    } else {
        c
    }
}

/// The text with its ASCII capitals made small.
pub open spec fn ascii_lower(s: Seq<char>) -> Seq<char> {
    s.map_values(|c: char| ascii_small(c))
}

/// The text with its ASCII capitals made small.
pub fn to_ascii_lower(text: &str) -> (r: String)
    ensures
        r@ == ascii_lower(text@),
{
    let s: Vec<char> = chars(text);
    let mut r: String = String::new();
    let mut i: usize = 0;
    while i < s.len()
        invariant
            i <= s@.len(),
            s@ == text@,
            r@ =~= ascii_lower(s@).take(i as int),
        decreases s@.len() - i,
    {
        let c: char = s[i];
        if 'A' <= c && c <= 'Z' {
            r.push((c as u8 + 32) as char);
        } else {
            r.push(c);
        }
        i += 1;
    }
    r
}

/// `s` with as many spaces behind as it takes to be `width` long.
pub open spec fn padded_end(s: Seq<char>, width: nat) -> Seq<char> {
    if s.len() >= width {
        s
    } else {
        s + Seq::new((width - s.len()) as nat, |i: int| ' ')
    }
}

/// The text with as many spaces behind as it takes to be `width` long.
pub fn pad_end(text: &str, width: usize) -> (r: String)
    ensures
        r@ == padded_end(text@, width as nat),
{
    let have: usize = text.unicode_len();
    let mut r: String = text.to_owned();
    let mut i: usize = have;
    assert(r@ =~= text@ + Seq::new(0, |j: int| ' '));
    while i < width
        invariant
            have == text@.len(),
            have <= i,
            i <= width || i == have,
            r@ =~= text@ + Seq::new((i - have) as nat, |j: int| ' '),
        decreases width - i,
    {
        r.push(' ');
        i += 1;
    }
    assert(have >= width ==> r@ =~= text@);
    r
}

/// Two texts, one after the other.
pub fn concat2(a: &str, b: &str) -> (r: String)
    ensures
        r@ == a@ + b@,
{
    let mut r: String = a.to_owned();
    r.append(b);
    r
}

/// Three texts, one after the other.
pub fn concat3(a: &str, b: &str, c: &str) -> (r: String)
    ensures
        r@ == a@ + b@ + c@,
{
    let mut r: String = a.to_owned();
    r.append(b);
    r.append(c);
    r
}

// ---- putting back together -----------------------------------------------------

/// Pieces, with `c` in front of every one.
pub open spec fn glued(pieces: Seq<Seq<char>>, c: char) -> Seq<char>
    decreases pieces.len(),
{
    if pieces.len() == 0 {
        Seq::empty()
    } else {
        glued(pieces.drop_last(), c) + seq![c] + pieces.last()
    }
}

/// Gluing one piece and then the others.
pub proof fn lemma_glued_first(first: Seq<char>, rest: Seq<Seq<char>>, c: char)
    ensures
        glued(seq![first] + rest, c) == seq![c] + first + glued(rest, c),
    decreases rest.len(),
{
    let all = seq![first] + rest;
    if rest.len() == 0 {
        assert(all =~= seq![first]);
        assert(all.drop_last() =~= Seq::<Seq<char>>::empty());
        assert(glued(all.drop_last(), c) =~= Seq::<char>::empty());
        assert(glued(all, c) =~= seq![c] + first + glued(rest, c));
    } else {
        assert(all.drop_last() =~= seq![first] + rest.drop_last());
        assert(all.last() == rest.last());
        lemma_glued_first(first, rest.drop_last(), c);
        assert(glued(all, c) =~= seq![c] + first + glued(rest, c));
    }
}

/// The pieces of a text, glued with the separator, are the text again.
pub proof fn lemma_split_glued(s: Seq<char>, c: char)
    ensures
        glued(split(s, c), c) == seq![c] + s,
    decreases s.len(),
{
    lemma_seek(s, c, 0);
    let at = seek(s, c, 0);
    if at < s.len() {
        let rest = split(s.skip(at + 1), c);
        lemma_split_glued(s.skip(at + 1), c);
        lemma_glued_first(s.take(at), rest, c);
        assert(seq![c] + s =~= seq![c] + s.take(at) + (seq![c] + s.skip(at + 1)));
    } else {
        lemma_glued_first(s, Seq::empty(), c);
        assert(seq![s] + Seq::<Seq<char>>::empty() =~= seq![s]);
        assert(glued(Seq::empty(), c) =~= Seq::<char>::empty());
        assert(glued(split(s, c), c) =~= seq![c] + s);
    }
}

/// A number in decimal is made of digits, and reads as itself.
pub proof fn lemma_decimal_reads(n: nat)
    ensures
        decimal(n).len() > 0,
        all_digits(decimal(n)),
        number(decimal(n)) == n,
    decreases n,
{
    if n < 10 {
        let s = seq![digit(n)];
        assert(s.drop_last() =~= Seq::<char>::empty());
        assert(number(s) == number(s.drop_last()) * 10 + (s.last() as nat - 48) as nat);
    } else {
        lemma_decimal_reads(n / 10);
        let s = decimal(n);
        assert(s.drop_last() =~= decimal(n / 10));
        assert forall|i: int| 0 <= i < s.len() implies '0' <= #[trigger] s[i] <= '9' by {
            if i < s.len() - 1 {
                assert(s[i] == decimal(n / 10)[i]);
            }
        }
    }
}

/// A list of texts, copied.
pub fn copied(texts: &Vec<String>) -> (r: Vec<String>)
    ensures
        views(r@) == views(texts@),
{
    let mut r: Vec<String> = Vec::new();
    let mut i: usize = 0;
    while i < texts.len()
        invariant
            i <= texts@.len(),
            r@.len() == i,
            forall|j: int| 0 <= j < i ==> (#[trigger] r@[j])@ == texts@[j]@,
        decreases texts@.len() - i,
    {
        r.push(texts[i].clone());
        i += 1;
    }
    assert(views(r@) =~= views(texts@));
    r
}

/// Pieces, with `c` between every two.
pub open spec fn joined_by(pieces: Seq<Seq<char>>, c: char) -> Seq<char> {
    if pieces.len() == 0 {
        Seq::empty()
    } else {
        glued(pieces, c).skip(1)
    }
}

/// Joining one more piece.
pub proof fn lemma_joined_push(pieces: Seq<Seq<char>>, piece: Seq<char>, c: char)
    ensures
        joined_by(pieces.push(piece), c) == if pieces.len() == 0 {
            piece
        } else {
            joined_by(pieces, c).push(c) + piece
        },
{
    let all = pieces.push(piece);
    assert(all.drop_last() =~= pieces);
    lemma_glued_len(pieces, c);
    if pieces.len() == 0 {
        assert(glued(pieces, c) =~= Seq::<char>::empty());
        assert(glued(all, c).skip(1) =~= piece);
    } else {
        assert(glued(all, c).skip(1) =~= glued(pieces, c).skip(1).push(c) + piece);
    }
}

pub proof fn lemma_glued_len(pieces: Seq<Seq<char>>, c: char)
    ensures
        glued(pieces, c).len() >= pieces.len(),
        pieces.len() > 0 ==> glued(pieces, c)[0] == c,
    decreases pieces.len(),
{
    if pieces.len() > 0 {
        lemma_glued_len(pieces.drop_last(), c);
    }
}

/// Joining pieces that are free of the separator, and cutting again, gives
/// the pieces back.
pub proof fn lemma_joined_splits(pieces: Seq<Seq<char>>, c: char)
    requires
        pieces.len() > 0,
        forall|i: int, j: int|
            #![trigger pieces[i][j]]
            0 <= i < pieces.len() && 0 <= j < pieces[i].len() ==> pieces[i][j] != c,
    ensures
        split(joined_by(pieces, c), c) == pieces,
    decreases pieces.len(),
{
    let first = pieces[0];
    let rest = pieces.skip(1);
    assert(pieces =~= seq![first] + rest);
    lemma_glued_first(first, rest, c);
    let all = joined_by(pieces, c);
    if rest.len() == 0 {
        assert(glued(rest, c) =~= Seq::<char>::empty());
        assert(all =~= first);
        assert forall|j: int| 0 <= j < all.len() implies all[j] != c by {
            assert(pieces[0][j] != c);
        }
        lemma_split_whole(all, c);
        assert(pieces =~= seq![all]);
    } else {
        assert forall|i: int, j: int|
            #![trigger rest[i][j]]
            0 <= i < rest.len() && 0 <= j < rest[i].len() implies rest[i][j] != c by {
            assert(pieces[i + 1][j] != c);
        }
        lemma_joined_splits(rest, c);
        lemma_glued_len(rest, c);
        let tail = joined_by(rest, c);
        assert(glued(rest, c) =~= seq![c] + tail);
        assert(all =~= first + seq![c] + tail);
        assert forall|j: int| 0 <= j < first.len() implies all[j] != c by {
            assert(pieces[0][j] != c);
        }
        lemma_split_at(all, c, first.len() as int);
        assert(all.take(first.len() as int) =~= first);
        assert(all.skip(first.len() as int + 1) =~= tail);
    }
}

/// A character is its code point, and no surrogate.
pub proof fn lemma_code_point(c: char)
    ensures
        (c as u32) as int == c as int,
        0 <= c as int <= 0x10FFFF,
        !(0xD800 <= c as int <= 0xDFFF),
{
}

// ---- lines ---------------------------------------------------------------------

/// Without one carriage return at the end.
pub open spec fn without_cr(s: Seq<char>) -> Seq<char> {
    if s.len() > 0 && s.last() == '\r' {
        s.drop_last()
    } else {
        s
    }
}

/// The lines of a text. A line ends with `\n` or `\r\n`; what follows the
/// last ending is a line if there is anything of it.
pub open spec fn lines(s: Seq<char>) -> Seq<Seq<char>>
    decreases s.len(),
{
    let at = seek(s, '\n', 0);
    if s.len() == 0 {
        Seq::empty()
    } else if 0 <= at < s.len() {
        seq![without_cr(s.take(at))] + lines(s.skip(at + 1))
    } else {
        seq![s]
    }
}

/// The lines of a text.
pub fn lines_of(text: &str) -> (r: Vec<String>)
    ensures
        views(r@) == lines(text@),
{
    let s: Vec<char> = chars(text);
    let len: usize = s.len();
    let mut r: Vec<String> = Vec::new();
    let mut start: usize = 0;
    assert(s@.skip(0) =~= s@);
    assert(views(r@) + lines(s@) =~= lines(s@));
    while start < len
        invariant
            start <= len == s@.len(),
            s@ == text@,
            lines(s@) == views(r@) + lines(s@.skip(start as int)),
        decreases len - start,
    {
        let ghost tail = s@.skip(start as int);
        match find_char(&s, '\n', start) {
            Some(at) => {
                proof {
                    lemma_seek(s@, '\n', start as int);
                    assert forall|j: int| 0 <= j < at - start implies tail[j] != '\n' by {
                        assert(s@[start + j] != '\n');
                    }
                    lemma_seek_is(tail, '\n', 0, at - start);
                    assert(tail.take(at - start) =~= s@.subrange(start as int, at as int));
                    assert(tail.skip(at - start + 1) =~= s@.skip(at + 1));
                }
                let end: usize = if at > start && s[at - 1] == '\r' {
                    at - 1
                } else {
                    at
                };
                let line: String = part(&s, start, end);
                proof {
                    assert(line@ =~= without_cr(s@.subrange(start as int, at as int)));
                    assert(views(r@.push(line)) =~= views(r@).push(line@));
                    assert(views(r@) + (seq![line@] + lines(s@.skip(at + 1))) =~= views(
                        r@.push(line),
                    ) + lines(s@.skip(at + 1)));
                }
                r.push(line);
                start = at + 1;
            },
            None => {
                proof {
                    lemma_seek(s@, '\n', start as int);
                    assert forall|j: int| 0 <= j < tail.len() implies tail[j] != '\n' by {
                        assert(s@[start + j] != '\n');
                    }
                    lemma_seek_is(tail, '\n', 0, tail.len() as int);
                }
                let line: String = part(&s, start, len);
                assert(line@ =~= tail);
                assert(views(r@.push(line)) =~= views(r@) + seq![line@]);
                r.push(line);
                return r;
            },
        }
    }
    assert(s@.skip(start as int) =~= Seq::<char>::empty());
    assert(views(r@) + lines(s@.skip(start as int)) =~= views(r@));
    r
}

// ---- replacing -----------------------------------------------------------------

/// Every `c` replaced by a text.
pub open spec fn spread(s: Seq<char>, c: char, with: Seq<char>) -> Seq<char>
    decreases s.len(),
{
    if s.len() == 0 {
        Seq::empty()
    } else if s[0] == c {
        with + spread(s.skip(1), c, with)
    } else {
        seq![s[0]] + spread(s.skip(1), c, with)
    }
}

/// The text with every `c` replaced by another text.
pub fn replace_char(text: &str, c: char, with: &str) -> (r: String)
    ensures
        r@ == spread(text@, c, with@),
{
    let s: Vec<char> = chars(text);
    let mut r: String = String::new();
    let mut i: usize = 0;
    assert(s@.skip(0) =~= s@);
    assert(r@ + spread(s@, c, with@) =~= spread(s@, c, with@));
    while i < s.len()
        invariant
            i <= s@.len(),
            s@ == text@,
            spread(s@, c, with@) == r@ + spread(s@.skip(i as int), c, with@),
        decreases s@.len() - i,
    {
        let ghost was = r@;
        let ghost tail = s@.skip(i as int);
        assert(tail.skip(1) =~= s@.skip(i + 1));
        if s[i] == c {
            r.append(with);
            assert(was + (with@ + spread(tail.skip(1), c, with@)) =~= r@ + spread(
                s@.skip(i + 1),
                c,
                with@,
            ));
        } else {
            r.push(s[i]);
            assert(was + (seq![tail[0]] + spread(tail.skip(1), c, with@)) =~= r@ + spread(
                s@.skip(i + 1),
                c,
                with@,
            ));
        }
        i += 1;
    }
    assert(s@.skip(i as int) =~= Seq::<char>::empty());
    assert(r@ =~= spread(s@, c, with@));
    r
}

/// Every `needle`, from the left and without overlaps, replaced by a text.
pub open spec fn replaced(s: Seq<char>, needle: Seq<char>, with: Seq<char>) -> Seq<char>
    decreases s.len(),
{
    if s.len() == 0 || needle.len() == 0 {
        s
    } else if begins(s, needle) {
        with + replaced(s.skip(needle.len() as int), needle, with)
    } else {
        seq![s[0]] + replaced(s.skip(1), needle, with)
    }
}

/// The text with every `needle` replaced by another text.
pub fn replace_text(text: &str, needle: &str, with: &str) -> (r: String)
    requires
        needle@.len() > 0,
    ensures
        r@ == replaced(text@, needle@, with@),
{
    let s: Vec<char> = chars(text);
    let n: Vec<char> = chars(needle);
    let mut r: String = String::new();
    let mut i: usize = 0;
    assert(s@.skip(0) =~= s@);
    assert(r@ + replaced(s@, n@, with@) =~= replaced(s@, n@, with@));
    while i < s.len()
        invariant
            i <= s@.len(),
            s@ == text@,
            n@ == needle@,
            n@.len() > 0,
            replaced(s@, n@, with@) == r@ + replaced(s@.skip(i as int), n@, with@),
        decreases s@.len() - i,
    {
        let ghost was = r@;
        let ghost tail = s@.skip(i as int);
        proof {
            assert(tail.skip(1) =~= s@.skip(i + 1));
            if stands_at(s@, n@, i as int) {
                assert(tail.subrange(0, n@.len() as int) =~= s@.subrange(
                    i as int,
                    i + n@.len(),
                ));
                assert(tail.skip(n@.len() as int) =~= s@.skip(i + n@.len()));
            }
            if begins(tail, n@) {
                assert(s@.subrange(i as int, i + n@.len()) =~= tail.subrange(
                    0,
                    n@.len() as int,
                ));
            }
        }
        if is_at(&s, &n, i) {
            r.append(with);
            assert(was + (with@ + replaced(tail.skip(n@.len() as int), n@, with@)) =~= r@
                + replaced(s@.skip(i + n@.len()), n@, with@));
            i += n.len();
        } else {
            r.push(s[i]);
            assert(was + (seq![tail[0]] + replaced(tail.skip(1), n@, with@)) =~= r@ + replaced(
                s@.skip(i + 1),
                n@,
                with@,
            ));
            i += 1;
        }
    }
    assert(s@.skip(i as int) =~= Seq::<char>::empty());
    assert(r@ =~= replaced(s@, n@, with@));
    r
}

/// The characters of each word of a list.
pub open spec fn words(list: Seq<&'static str>) -> Seq<Seq<char>> {
    list.map_values(|word: &'static str| word@)
}

/// Whether a word is on a list.
pub fn listed(word: &str, list: &Vec<&'static str>) -> (r: bool)
    ensures
        r == words(list@).contains(word@),
{
    let mut i: usize = 0;
    while i < list.len()
        invariant
            i <= list@.len(),
            forall|j: int| 0 <= j < i ==> (#[trigger] list@[j])@ != word@,
        decreases list@.len() - i,
    {
        if same(list[i], word) {
            assert(words(list@)[i as int] == word@);
            return true;
        }
        i += 1;
    }
    assert forall|j: int| 0 <= j < words(list@).len() implies words(list@)[j] != word@ by {
        assert(words(list@)[j] == list@[j]@);
    }
    false
}

/// What is not before, and not before that, is not before.
pub proof fn lemma_not_before_transitive(a: Seq<char>, b: Seq<char>, c: Seq<char>)
    requires
        !before(a, b),
        !before(b, c),
    ensures
        !before(a, c),
{
    lemma_before_total(a, b);
    lemma_before_total(b, c);
    lemma_before_total(a, c);
    if before(b, a) && before(c, b) {
        lemma_before_transitive(c, b, a);
    }
}

/// The order of texts, as a relation.
pub open spec fn text_order() -> spec_fn(Seq<char>, Seq<char>) -> bool {
    |a: Seq<char>, b: Seq<char>| before(a, b)
}

/// Coming before is an order.
pub proof fn lemma_texts_have_an_order()
    ensures
        order::orders(text_order()),
{
    let less = text_order();
    assert forall|a: Seq<char>| !#[trigger] less(a, a) by {
        lemma_before_total(a, a);
    }
    assert forall|a: Seq<char>, b: Seq<char>, c: Seq<char>|
        #[trigger] less(a, b) && #[trigger] less(b, c) implies less(a, c) by {
        lemma_before_transitive(a, b, c);
    }
    assert forall|a: Seq<char>, b: Seq<char>, c: Seq<char>|
        !#[trigger] less(a, b) && !#[trigger] less(b, c) implies !less(a, c) by {
        lemma_not_before_transitive(a, b, c);
    }
}

/// What a text is replaced by stands in the result, if there was anything to
/// replace.
pub proof fn lemma_replaced_holds(s: Seq<char>, needle: Seq<char>, with: Seq<char>)
    requires
        holds(s, needle),
        needle.len() > 0,
    ensures
        holds(replaced(s, needle, with), with),
    decreases s.len(),
{
    let r = replaced(s, needle, with);
    if begins(s, needle) {
        assert(r.subrange(0, with.len() as int) =~= with);
        assert(stands_at(r, with, 0));
    } else {
        let at = choose|at: int| stands_at(s, needle, at);
        let rest = s.skip(1);
        assert(rest.subrange(at - 1, at - 1 + needle.len()) =~= s.subrange(
            at,
            at + needle.len(),
        ));
        assert(stands_at(rest, needle, at - 1));
        lemma_replaced_holds(rest, needle, with);
        let inner = replaced(rest, needle, with);
        let k = choose|k: int| stands_at(inner, with, k);
        assert(r.subrange(k + 1, k + 1 + with.len()) =~= inner.subrange(k, k + with.len()));
        assert(stands_at(r, with, k + 1));
    }
}

/// A whole number in decimal, with a `-` in front of one below zero.
pub open spec fn signed(n: int) -> Seq<char> {
    if n < 0 {
        seq!['-'] + decimal((-n) as nat)
    } else {
        decimal(n as nat)
    }
}

/// A whole number in decimal, filled with zeros to a width that the sign
/// counts towards.
pub open spec fn signed_padded(n: int, width: nat) -> Seq<char> {
    if n < 0 {
        seq!['-'] + padded(
            decimal((-n) as nat),
            if width > 0 {
                (width - 1) as nat
            } else {
                0
            },
            '0',
        )
    } else {
        padded(decimal(n as nat), width, '0')
    }
}

/// A whole number in decimal.
pub fn signed_text(n: i64) -> (r: String)
    requires
        n > i64::MIN,
    ensures
        r@ == signed(n as int),
{
    if n < 0 {
        let mut r: String = String::new();
        r.push('-');
        r.append(decimal_text((-n) as u64).as_str());
        assert(r@ =~= signed(n as int));
        r
    } else {
        decimal_text(n as u64)
    }
}

/// A whole number in decimal, filled with zeros to a width.
pub fn signed_padded_text(n: i64, width: usize) -> (r: String)
    requires
        n > i64::MIN,
        width > 0,
    ensures
        r@ == signed_padded(n as int, width as nat),
{
    if n < 0 {
        let mut r: String = String::new();
        r.push('-');
        r.append(pad_start(decimal_text((-n) as u64).as_str(), width - 1, '0').as_str());
        assert(r@ =~= signed_padded(n as int, width as nat));
        r
    } else {
        pad_start(decimal_text(n as u64).as_str(), width, '0')
    }
}

/// The characters of a borrowed text that may be missing.
pub open spec fn maybe(text: Option<&str>) -> Option<Seq<char>> {
    match text {
        Some(text) => Some(text@),
        None => None,
    }
}

/// The text that may be missing, as characters.
pub open spec fn optional(text: Option<String>) -> Option<Seq<char>> {
    match text {
        Some(text) => Some(text@),
        None => None,
    }
}

/// A number padded with zeroes is read as the number.
pub proof fn lemma_padded_reads(n: nat, width: nat)
    ensures
        padded(decimal(n), width, '0').len() > 0,
        all_digits(padded(decimal(n), width, '0')),
        number(padded(decimal(n), width, '0')) == n,
{
    lemma_decimal_reads(n);
    let s = decimal(n);
    let p = padded(s, width, '0');
    if s.len() < width {
        let zeroes = Seq::new((width - s.len()) as nat, |i: int| '0');
        assert(p =~= zeroes + s);
        lemma_zeroes_read(zeroes, s);
        assert forall|i: int| 0 <= i < p.len() implies '0' <= #[trigger] p[i] <= '9' by {
            if i >= zeroes.len() {
                assert(p[i] == s[i - zeroes.len()]);
            }
        }
    }
}

proof fn lemma_zeroes_read(zeroes: Seq<char>, s: Seq<char>)
    requires
        forall|i: int| 0 <= i < zeroes.len() ==> zeroes[i] == '0',
    ensures
        number(zeroes + s) == number(s),
    decreases zeroes.len() + s.len(),
{
    if s.len() > 0 {
        lemma_zeroes_read(zeroes, s.drop_last());
        assert((zeroes + s).drop_last() =~= zeroes + s.drop_last());
    } else if zeroes.len() > 0 {
        lemma_zeroes_read(zeroes.drop_last(), s);
        assert((zeroes + s).drop_last() =~= zeroes.drop_last() + s);
    } else {
        assert(zeroes + s =~= s);
    }
}

/// The hexadecimal digit for a value below sixteen, in small letters.
pub open spec fn small_hex(value: nat) -> char {
    if value < 10 {
        (48 + value) as char
    } else {
        (87 + value) as char
    }
}

/// A number in hexadecimal digits, in small letters, without zeroes in front.
pub open spec fn hexadecimal(n: nat) -> Seq<char>
    decreases n,
{
    if n < 16 {
        seq![small_hex(n)]
    } else {
        hexadecimal(n / 16).push(small_hex(n % 16))
    }
}

/// The hexadecimal digit for a value below sixteen, in small letters.
pub fn small_hex_char(value: u8) -> (r: char)
    requires
        value < 16,
    ensures
        r == small_hex(value as nat),
{
    if value < 10 {
        (48 + value) as char
    } else {
        (87 + value) as char
    }
}

/// A number in hexadecimal digits, in small letters, without zeroes in front.
pub fn hexadecimal_text(n: u64) -> (r: String)
    ensures
        r@ == hexadecimal(n as nat),
    decreases n,
{
    if n < 16 {
        let mut r: String = String::new();
        r.push(small_hex_char(n as u8));
        assert(r@ =~= seq![small_hex(n as nat)]);
        r
    } else {
        let mut r: String = hexadecimal_text(n / 16);
        r.push(small_hex_char((n % 16) as u8));
        r
    }
}

/// The text without any of a character at its end.
pub fn strip_end_char(text: &str, c: char) -> (r: String)
    ensures
        r@ == strip_end(text@, c),
{
    let s: Vec<char> = chars(text);
    let mut to: usize = s.len();
    assert(s@.take(to as int) =~= s@);
    while to > 0 && s[to - 1] == c
        invariant
            to <= s@.len(),
            strip_end(s@, c) == strip_end(s@.take(to as int), c),
        decreases to,
    {
        assert(s@.take(to as int).drop_last() =~= s@.take(to - 1));
        to -= 1;
    }
    assert(s@.subrange(0, to as int) =~= s@.take(to as int));
    part(&s, 0, to)
}

/// The pieces with a character between them.
pub fn join_with(pieces: &Vec<String>, c: char) -> (r: String)
    ensures
        r@ == joined_by(views(pieces@), c),
{
    let ghost all = views(pieces@);
    let mut r: String = String::new();
    let mut i: usize = 0;
    assert(r@ =~= Seq::<char>::empty());
    assert(all.take(0) =~= Seq::<Seq<char>>::empty());
    while i < pieces.len()
        invariant
            i <= pieces@.len(),
            all == views(pieces@),
            r@ == joined_by(all.take(i as int), c),
        decreases pieces@.len() - i,
    {
        proof {
            lemma_joined_push(all.take(i as int), all[i as int], c);
            assert(all.take(i as int).push(all[i as int]) =~= all.take(i + 1));
        }
        if i > 0 {
            r.push(c);
        }
        r.append(pieces[i].as_str());
        proof {
            if i == 0 {
                assert(all.take(0) =~= Seq::<Seq<char>>::empty());
                assert(r@ =~= all[0]);
            }
        }
        i += 1;
    }
    assert(all.take(i as int) =~= all);
    r
}

/// A character that a text does not hold is in none of its pieces.
pub proof fn lemma_pieces_hold_no_more(s: Seq<char>, c: char, other: char)
    requires
        !s.contains(other),
    ensures
        forall|i: int|
            0 <= i < split(s, c).len() ==> !(#[trigger] split(s, c)[i]).contains(other),
    decreases s.len(),
{
    lemma_seek(s, c, 0);
    let at = seek(s, c, 0);
    let all = split(s, c);
    if at < s.len() {
        let rest = s.skip(at + 1);
        assert forall|j: int| 0 <= j < rest.len() implies rest[j] != other by {
            assert(s.contains(s[j + at + 1]));
        }
        lemma_pieces_hold_no_more(rest, c, other);
        assert forall|i: int| 0 <= i < all.len() implies !(#[trigger] all[i]).contains(other) by {
            if i == 0 {
                assert forall|j: int| 0 <= j < at implies s.take(at)[j] != other by {
                    assert(s.contains(s[j]));
                }
            } else {
                assert(all[i] == split(rest, c)[i - 1]);
            }
        }
    }
}

/// What is taken off the end of a text is nothing but the character, and all
/// of it.
pub proof fn lemma_strip_end(s: Seq<char>, c: char)
    ensures
        strip_end(s, c).len() <= s.len(),
        s.take(strip_end(s, c).len() as int) == strip_end(s, c),
        forall|k: int| strip_end(s, c).len() <= k < s.len() ==> #[trigger] s[k] == c,
        strip_end(s, c).len() > 0 ==> strip_end(s, c).last() != c,
    decreases s.len(),
{
    if s.len() > 0 && s.last() == c {
        let front = s.drop_last();
        lemma_strip_end(front, c);
        let out = strip_end(s, c);
        assert(s.take(out.len() as int) =~= front.take(out.len() as int));
        assert forall|k: int| out.len() <= k < s.len() implies #[trigger] s[k] == c by {
            if k < front.len() {
                assert(front[k] == c);
            }
        }
    } else {
        assert(s.take(s.len() as int) =~= s);
    }
}

// ---- laws -------------------------------------------------------------------------------------

/// Trimming takes white space off both ends, all of it and nothing else.
pub proof fn law_trimming_takes_only_white_space(s: Seq<char>)
    ensures
        exists|from: int, to: int|
            {
                &&& 0 <= from <= to <= s.len()
                &&& trimmed(s) == #[trigger] s.subrange(from, to)
                &&& forall|k: int| 0 <= k < from || to <= k < s.len() ==> white_space(s[k])
                &&& from < to ==> !white_space(s[from]) && !white_space(s[to - 1])
            },
{
    lemma_trim_start(s);
    let rest = trim_start(s);
    lemma_trim_end(rest);
    let from = s.len() - rest.len();
    let to = from + trim_end(rest).len();
    assert(rest == s.skip(from));
    assert(trimmed(s) =~= s.subrange(from, to));
    assert forall|k: int| 0 <= k < from || to <= k < s.len() implies white_space(s[k]) by {
        if k >= to {
            assert(rest[k - from] == s[k]);
        }
    }
    if from < to {
        assert(s[from] == rest[0]);
        assert(s[to - 1] == trim_end(rest).last());
    }
}

proof fn lemma_trim_start(s: Seq<char>)
    ensures
        trim_start(s).len() <= s.len(),
        trim_start(s) == s.skip(s.len() - trim_start(s).len()),
        forall|k: int| 0 <= k < s.len() - trim_start(s).len() ==> white_space(s[k]),
        trim_start(s).len() > 0 ==> !white_space(trim_start(s)[0]),
    decreases s.len(),
{
    if s.len() > 0 && white_space(s[0]) {
        let rest = s.skip(1);
        lemma_trim_start(rest);
        let cut = s.len() - trim_start(s).len();
        assert(rest.skip(cut - 1) =~= s.skip(cut));
        assert forall|k: int| 0 <= k < cut implies white_space(s[k]) by {
            if k > 0 {
                assert(rest[k - 1] == s[k]);
            }
        }
    } else {
        assert(s.skip(0) =~= s);
    }
}

proof fn lemma_trim_end(s: Seq<char>)
    ensures
        trim_end(s).len() <= s.len(),
        trim_end(s) == s.take(trim_end(s).len() as int),
        forall|k: int| trim_end(s).len() <= k < s.len() ==> white_space(s[k]),
        trim_end(s).len() > 0 ==> !white_space(trim_end(s).last()),
    decreases s.len(),
{
    if s.len() > 0 && white_space(s.last()) {
        let front = s.drop_last();
        lemma_trim_end(front);
        let cut = trim_end(s).len() as int;
        assert(front.take(cut) =~= s.take(cut));
        assert forall|k: int| cut <= k < s.len() implies white_space(s[k]) by {
            if k < front.len() {
                assert(front[k] == s[k]);
            }
        }
    } else {
        assert(s.take(s.len() as int) =~= s);
    }
}

/// Of two texts the one comes first that has the smaller character where they
/// first differ, or that ends there.
pub proof fn law_the_first_difference_decides(a: Seq<char>, b: Seq<char>)
    ensures
        before(a, b) <==> exists|k: int|
            {
                &&& 0 <= k <= a.len()
                &&& k < b.len()
                &&& #[trigger] a.take(k) == b.take(k)
                &&& k == a.len() || a[k] < b[k]
            },
    decreases a.len(),
{
    if a.len() > 0 && b.len() > 0 {
        let (x, y) = (a.skip(1), b.skip(1));
        law_the_first_difference_decides(x, y);
        if a[0] == b[0] {
            if before(a, b) {
                let k = choose|k: int|
                    {
                        &&& 0 <= k <= x.len()
                        &&& k < y.len()
                        &&& #[trigger] x.take(k) == y.take(k)
                        &&& k == x.len() || x[k] < y[k]
                    };
                assert(a.take(k + 1) =~= seq![a[0]] + x.take(k));
                assert(b.take(k + 1) =~= seq![b[0]] + y.take(k));
            }
            if exists|k: int|
                {
                    &&& 0 <= k <= a.len()
                    &&& k < b.len()
                    &&& #[trigger] a.take(k) == b.take(k)
                    &&& k == a.len() || a[k] < b[k]
                } {
                let k = choose|k: int|
                    {
                        &&& 0 <= k <= a.len()
                        &&& k < b.len()
                        &&& #[trigger] a.take(k) == b.take(k)
                        &&& k == a.len() || a[k] < b[k]
                    };
                assert(k > 0);
                assert(x.take(k - 1) =~= a.take(k).skip(1));
                assert(y.take(k - 1) =~= b.take(k).skip(1));
            }
        } else {
            assert(a.take(0) =~= b.take(0));
            assert forall|k: int| 0 < k <= a.len() && k < b.len() implies #[trigger] a.take(k)
                != b.take(k) by {
                assert(a.take(k)[0] == a[0] && b.take(k)[0] == b[0]);
            }
        }
    } else if b.len() > 0 {
        assert(a.take(0) =~= b.take(0));
    }
}

/// Putting something for a character goes piece by piece: every such
/// character is replaced, and no other is touched.
pub proof fn law_every_one_is_replaced(a: Seq<char>, b: Seq<char>, c: char, with: Seq<char>)
    ensures
        spread(a + b, c, with) == spread(a, c, with) + spread(b, c, with),
        spread(seq![c], c, with) == with,
        !a.contains(c) ==> spread(a, c, with) == a,
    decreases a.len(),
{
    let one = seq![c];
    assert(one.skip(1) =~= Seq::<char>::empty());
    assert(spread(one.skip(1), c, with) =~= Seq::<char>::empty());
    assert(spread(one, c, with) =~= with);
    if a.len() > 0 {
        let rest = a.skip(1);
        law_every_one_is_replaced(rest, b, c, with);
        assert((a + b).skip(1) =~= rest + b);
        assert(spread(a + b, c, with) =~= spread(a, c, with) + spread(b, c, with));
        if !a.contains(c) {
            assert forall|j: int| 0 <= j < rest.len() implies rest[j] != c by {
                assert(a.contains(a[j + 1]));
            }
            assert(a.contains(a[0]));
            assert(spread(a, c, with) =~= a);
        }
    } else {
        assert(a + b =~= b);
        assert(spread(a, c, with) =~= a);
    }
}

/// The lines of a text without carriage returns, with newlines between them
/// and one behind the last where the text ends in one, are the text again.
pub proof fn law_lines_make_the_text(s: Seq<char>)
    requires
        !s.contains('\r'),
    ensures
        joined_by(lines(s), '\n') + (if s.len() > 0 && s.last() == '\n' {
            seq!['\n']
        } else {
            Seq::empty()
        }) == s,
        forall|i: int| 0 <= i < lines(s).len() ==> !(#[trigger] lines(s)[i]).contains('\n'),
    decreases s.len(),
{
    lemma_seek(s, '\n', 0);
    let at = seek(s, '\n', 0);
    let all = lines(s);
    let none = Seq::<Seq<char>>::empty();
    assert(glued(none, '\n') =~= Seq::<char>::empty());
    if s.len() == 0 {
        assert(joined_by(all, '\n') =~= s);
    } else if at < s.len() {
        let first = s.take(at);
        let rest = s.skip(at + 1);
        if first.len() > 0 {
            assert(s.contains(s[at - 1]));
        }
        assert(without_cr(first) == first);
        assert forall|j: int| 0 <= j < rest.len() implies rest[j] != '\r' by {
            assert(s.contains(s[j + at + 1]));
        }
        law_lines_make_the_text(rest);
        let tail = lines(rest);
        assert(all =~= seq![first] + tail);
        lemma_glued_first(first, tail, '\n');
        lemma_glued_len(tail, '\n');
        if rest.len() == 0 {
            assert(tail =~= none);
            assert(all =~= seq![first]);
            assert(joined_by(all, '\n') =~= first);
            assert(s =~= first + seq!['\n']);
        } else {
            if tail.len() == 0 {
                assert(joined_by(tail, '\n') =~= Seq::<char>::empty());
                assert(rest =~= seq!['\n']);
                lemma_seek_is(rest, '\n', 0, 0);
                assert(tail.len() == 1 + lines(rest.skip(1)).len());
                assert(false);
            }
            assert(glued(tail, '\n') =~= seq!['\n'] + joined_by(tail, '\n'));
            assert(joined_by(all, '\n') =~= first + seq!['\n'] + joined_by(tail, '\n'));
            assert(rest.last() == s.last());
            assert(s =~= first + seq!['\n'] + rest);
        }
        assert forall|i: int| 0 <= i < all.len() implies !(#[trigger] all[i]).contains('\n') by {
            if i > 0 {
                assert(all[i] == tail[i - 1]);
            }
        }
    } else {
        lemma_glued_first(s, none, '\n');
        assert(seq![s] + none =~= seq![s]);
        assert(joined_by(all, '\n') =~= s);
        assert(s.contains(s.last()));
        assert(s[s.len() - 1] != '\n');
    }
}

/// A carriage return in front of a newline belongs to the line's end: a text
/// has the same lines with it and without.
pub proof fn law_either_ending_ends_a_line(line: Seq<char>, rest: Seq<char>)
    requires
        !line.contains('\n'),
        !line.contains('\r'),
    ensures
        lines(line + seq!['\r', '\n'] + rest) == seq![line] + lines(rest),
        lines(line + seq!['\n'] + rest) == seq![line] + lines(rest),
{
    let plain = line + seq!['\n'] + rest;
    let marked = line + seq!['\r', '\n'] + rest;
    let at = line.len() as int;
    assert forall|j: int| 0 <= j < at implies plain[j] != '\n' && marked[j] != '\n' by {
        assert(line.contains(line[j]));
    }
    lemma_seek_is(plain, '\n', 0, at);
    lemma_seek_is(marked, '\n', 0, at + 1);
    assert(plain.take(at) =~= line);
    assert(plain.skip(at + 1) =~= rest);
    assert(marked.take(at + 1) =~= line.push('\r'));
    assert(marked.take(at + 1).drop_last() =~= line);
    assert(marked.skip(at + 2) =~= rest);
    if line.len() > 0 {
        assert(line.contains(line.last()));
    }
}

/// What is read as a number is digits, with a `+` in front at the most, and a
/// number written in decimal reads as itself.
pub proof fn law_numbers_read_back(n: nat, most: nat, s: Seq<char>)
    ensures
        parsed(decimal(n), most) == if n <= most {
            Some(n)
        } else {
            None
        },
        parsed(seq!['+'] + decimal(n), most) == parsed(decimal(n), most),
        parsed(s, most) matches Some(value) ==> value <= most && s.len() > 0 && forall|i: int|
            0 <= i < s.len() ==> ('0' <= #[trigger] s[i] <= '9') || (i == 0 && s[i] == '+'),
{
    lemma_decimal_reads(n);
    assert('0' <= decimal(n)[0] <= '9');
    assert((seq!['+'] + decimal(n)).skip(1) =~= decimal(n));
    if parsed(s, most) is Some {
        let digits = unsigned(s);
        assert forall|i: int| 0 <= i < s.len() implies ('0' <= #[trigger] s[i] <= '9') || (i == 0
            && s[i] == '+') by {
            if s[0] == '+' {
                if i > 0 {
                    assert('0' <= digits[i - 1] <= '9');
                }
            } else {
                assert('0' <= digits[i] <= '9');
            }
        }
    }
}

/// The number that hexadecimal digits in small letters write.
pub open spec fn hex_number(s: Seq<char>) -> nat
    decreases s.len(),
{
    if s.len() == 0 {
        0
    } else {
        hex_number(s.drop_last()) * 16 + (if s.last() <= '9' {
            (s.last() as nat - 48) as nat
        } else {
            (s.last() as nat - 87) as nat
        })
    }
}

/// A number written in hexadecimal reads as itself, and has no zero in front.
pub proof fn law_hexadecimal_reads_back(n: nat)
    ensures
        hex_number(hexadecimal(n)) == n,
        n > 0 ==> hexadecimal(n)[0] != '0',
        hexadecimal(n).len() > 0,
    decreases n,
{
    if n < 16 {
        let s = seq![small_hex(n)];
        assert(s.drop_last() =~= Seq::<char>::empty());
        assert(hex_number(s.drop_last()) == 0);
    } else {
        law_hexadecimal_reads_back(n / 16);
        let s = hexadecimal(n);
        assert(s.drop_last() =~= hexadecimal(n / 16));
        assert(s[0] == hexadecimal(n / 16)[0]);
    }
}

/// A decimal number has no zero in front.
pub proof fn law_decimals_have_no_zero_in_front(n: nat)
    ensures
        n > 0 ==> decimal(n)[0] != '0',
        decimal(n).len() > 0,
    decreases n,
{
    if n >= 10 {
        law_decimals_have_no_zero_in_front(n / 10);
        assert(decimal(n)[0] == decimal(n / 10)[0]);
    }
}

/// Making letters small touches capitals alone, and two texts in ASCII that
/// differ only in case come out the same.
pub proof fn law_small_letters_stay_small(s: Seq<char>)
    ensures
        ascii_lower(ascii_lower(s)) == ascii_lower(s),
        ascii_lower(s).len() == s.len(),
        forall|i: int|
            0 <= i < s.len() ==> !('A' <= #[trigger] s[i] <= 'Z') ==> ascii_lower(s)[i] == s[i],
        forall|i: int|
            0 <= i < s.len() ==> 'A' <= #[trigger] s[i] <= 'Z' ==> ascii_lower(s)[i] as u32
                == s[i] as u32 + 32,
        all_ascii(s) ==> lowercase(s) == ascii_lower(s),
{
    assert(ascii_lower(ascii_lower(s)) =~= ascii_lower(s));
}

/// Replacing a text by another leaves what does not hold it as it is, and
/// goes on behind each place where it stood.
pub proof fn law_replacing_goes_on_behind(s: Seq<char>, needle: Seq<char>, with: Seq<char>)
    requires
        needle.len() > 0,
    ensures
        replaced(needle + s, needle, with) == with + replaced(s, needle, with),
        !holds(s, needle) ==> replaced(s, needle, with) == s,
    decreases s.len(),
{
    let whole = needle + s;
    assert(whole.subrange(0, needle.len() as int) =~= needle);
    assert(begins(whole, needle));
    assert(whole.skip(needle.len() as int) =~= s);
    if !holds(s, needle) && s.len() > 0 {
        assert(!stands_at(s, needle, 0));
        let rest = s.skip(1);
        assert(!holds(rest, needle)) by {
            if holds(rest, needle) {
                let at = choose|at: int| stands_at(rest, needle, at);
                assert(s.subrange(at + 1, at + 1 + needle.len()) =~= rest.subrange(
                    at,
                    at + needle.len(),
                ));
                assert(stands_at(s, needle, at + 1));
            }
        }
        law_replacing_goes_on_behind(rest, needle, with);
        assert(replaced(s, needle, with) =~= s);
    }
}

} // verus!
