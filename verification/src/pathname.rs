//! Path names, read the way the machine that holds them reads them.
//!
//! A path name is a text. On Unix `/` separates its components and a `/` in
//! front makes it absolute. On Windows `\` separates them as well, and a
//! drive, a share or a device may stand in front of everything; a path that
//! begins with `\\?\` is verbatim, and in it `/` and `.` are nothing special.
//! Elsewhere doubled separators and `.` in the middle say nothing. Two path
//! names are the same path when their components are the same.

use vstd::prelude::*;
use crate::order;
use crate::text;
use crate::text::{chars, part, split_chars, string};

verus! {

broadcast use vstd::string::group_string_axioms;

/// How path names are read and written.
#[derive(Debug, Clone, Copy, PartialEq, Eq, Structural)]
pub enum Style {
    Unix,
    Windows,
}

/// What may stand in front of the components of a path on Windows.
#[derive(Debug, Clone, Copy, PartialEq, Eq, Structural)]
pub enum Prefix {
    /// `\\?\pictures`.
    Verbatim,
    /// `\\?\UNC\server\share`.
    VerbatimUnc,
    /// `\\?\C:`.
    VerbatimDisk,
    /// `\\.\COM42`.
    Device,
    /// `\\server\share`.
    Unc,
    /// `C:`.
    Disk,
}

// ---- what stands in front ---------------------------------------------------------------------

/// The separator that paths are written with.
pub open spec fn separator(style: Style) -> char {
    match style {
        Style::Unix => '/',
        Style::Windows => '\\',
    }
}

/// Whether a character separates components.
pub open spec fn separates(style: Style, c: char) -> bool {
    c == '/' || (style == Style::Windows && c == '\\')
}

/// The end of the piece of a Windows path that begins at `from`. In a
/// verbatim path only `\` ends it.
pub open spec fn piece_end(p: Seq<char>, from: int, verbatim: bool) -> int
    decreases p.len() - from,
{
    if from < 0 || from >= p.len() {
        p.len() as int
    } else if p[from] == '\\' || (p[from] == '/' && !verbatim) {
        from
    } else {
        piece_end(p, from + 1, verbatim)
    }
}

/// The end of the share that follows the server that begins at `from`; the
/// end of the server, where nothing follows it.
pub open spec fn share_end(p: Seq<char>, from: int, verbatim: bool) -> int {
    let server = piece_end(p, from, verbatim);
    if server < p.len() {
        piece_end(p, server + 1, verbatim)
    } else {
        server
    }
}

/// Whether a drive stands at a place: a letter and a colon.
pub open spec fn drive_at(p: Seq<char>, at: int) -> bool {
    at + 2 <= p.len() && ('a' <= p[at] <= 'z' || 'A' <= p[at] <= 'Z') && p[at + 1] == ':'
}

/// Whether a path begins with `\\?\`, in just these characters.
pub open spec fn says_verbatim(p: Seq<char>) -> bool {
    p.len() >= 4 && p[0] == '\\' && p[1] == '\\' && p[2] == '?' && p[3] == '\\'
}

/// Whether a verbatim path goes on with `UNC\`.
pub open spec fn says_unc(p: Seq<char>) -> bool {
    p.len() >= 8 && p[4] == 'U' && p[5] == 'N' && p[6] == 'C' && separates(Style::Windows, p[7])
}

/// What a Windows path begins with, and how long that is.
pub open spec fn windows_prefix(p: Seq<char>) -> Option<(Prefix, int)> {
    if p.len() >= 2 && separates(Style::Windows, p[0]) && separates(Style::Windows, p[1]) {
        if says_verbatim(p) {
            if says_unc(p) {
                let server = piece_end(p, 8, true);
                let share = share_end(p, 8, true);
                Some((Prefix::VerbatimUnc, if share > server + 1 { share } else { server }))
            } else if drive_at(p, 4) && (p.len() == 6 || separates(Style::Windows, p[6])) {
                Some((Prefix::VerbatimDisk, 6))
            } else {
                Some((Prefix::Verbatim, piece_end(p, 4, true)))
            }
        } else if p.len() >= 4 && p[2] == '.' && separates(Style::Windows, p[3]) {
            Some((Prefix::Device, piece_end(p, 4, false)))
        } else {
            let server = piece_end(p, 2, false);
            let share = share_end(p, 2, false);
            if server > 2 && share > server + 1 {
                Some((Prefix::Unc, share))
            } else {
                None
            }
        }
    } else if drive_at(p, 0) {
        Some((Prefix::Disk, 2))
    } else {
        None
    }
}

/// What a path begins with, and how long that is.
pub open spec fn prefix(style: Style, p: Seq<char>) -> Option<(Prefix, int)> {
    match style {
        Style::Unix => None,
        Style::Windows => windows_prefix(p),
    }
}

/// How long the prefix of a path is.
pub open spec fn prefix_len(style: Style, p: Seq<char>) -> int {
    match prefix(style, p) {
        Some((_, len)) => len,
        None => 0,
    }
}

/// Whether a path is to be taken as it stands.
pub open spec fn verbatim(style: Style, p: Seq<char>) -> bool {
    match prefix(style, p) {
        Some((kind, _)) => kind == Prefix::Verbatim || kind == Prefix::VerbatimUnc || kind
            == Prefix::VerbatimDisk,
        None => false,
    }
}

/// Whether a path has a prefix below which there is nothing but a root.
pub open spec fn rooted_by_prefix(style: Style, p: Seq<char>) -> bool {
    match prefix(style, p) {
        Some((kind, _)) => kind != Prefix::Disk,
        None => false,
    }
}

/// Whether a root is written in a path.
pub open spec fn rooted(style: Style, p: Seq<char>) -> bool {
    let from = prefix_len(style, p);
    from < p.len() && separates(style, p[from])
}

/// Whether a path begins with a `.` of its own.
pub open spec fn dotted(style: Style, p: Seq<char>) -> bool {
    let from = prefix_len(style, p);
    &&& !rooted(style, p)
    &&& !rooted_by_prefix(style, p)
    &&& from < p.len()
    &&& p[from] == '.'
    &&& from + 1 == p.len() || separates(style, p[from + 1])
}

/// Whether a character of a path ends a component.
pub open spec fn cuts(style: Style, verbatim: bool, c: char) -> bool {
    separates(style, c) && !(verbatim && c == '/')
}

// ---- the last component -----------------------------------------------------------------------

/// Where the components begin: past the prefix, and past the root or a `.`
/// that stands in front of everything else.
pub open spec fn body_start(style: Style, p: Seq<char>) -> int {
    if rooted(style, p) || dotted(style, p) {
        prefix_len(style, p) + 1
    } else {
        prefix_len(style, p)
    }
}

/// The end of the last component that lies between `low` and `end`, past
/// which there is nothing but separators and `.`.
pub open spec fn body_end(style: Style, verbatim: bool, p: Seq<char>, low: int, end: int) -> int
    decreases end,
{
    if end <= low || end <= 0 {
        end
    } else if cuts(style, verbatim, p[end - 1]) {
        body_end(style, verbatim, p, low, end - 1)
    } else if p[end - 1] == '.' && !verbatim && (end - 1 <= low || cuts(
        style,
        verbatim,
        p[end - 2],
    )) {
        body_end(style, verbatim, p, low, end - 1)
    } else {
        end
    }
}

/// Where the component begins that lies past `low` and ends at `end`.
pub open spec fn back_to(style: Style, verbatim: bool, p: Seq<char>, low: int, end: int) -> int
    decreases end,
{
    if end <= low || end <= 0 || cuts(style, verbatim, p[end - 1]) {
        end
    } else {
        back_to(style, verbatim, p, low, end - 1)
    }
}

/// The end of the last component of all.
pub open spec fn last_end(style: Style, p: Seq<char>) -> int {
    body_end(style, verbatim(style, p), p, body_start(style, p), p.len() as int)
}

/// Where the last component begins.
pub open spec fn last_start(style: Style, p: Seq<char>) -> int {
    back_to(style, verbatim(style, p), p, body_start(style, p), last_end(style, p))
}

/// The name at the end of a path: the last component, unless that is a
/// prefix, the root, `.` or `..`.
pub open spec fn file_name(style: Style, p: Seq<char>) -> Option<Seq<char>> {
    if last_end(style, p) <= body_start(style, p) {
        None
    } else {
        let name = p.subrange(last_start(style, p), last_end(style, p));
        if name == seq!['.', '.'] || name == seq!['.'] {
            None
        } else {
            Some(name)
        }
    }
}

/// The path without its last component. A prefix, the root and the empty path
/// have no such thing.
pub open spec fn parent(style: Style, p: Seq<char>) -> Option<Seq<char>> {
    let low = body_start(style, p);
    if last_end(style, p) > low {
        Some(p.take(body_end(style, verbatim(style, p), p, low, last_start(style, p))))
    } else if dotted(style, p) && prefix(style, p) is None {
        Some(Seq::empty())
    } else {
        None
    }
}

/// What follows the last dot of the name at the end of a path. A dot in front
/// of everything is part of the name.
pub open spec fn extension(style: Style, p: Seq<char>) -> Option<Seq<char>> {
    match file_name(style, p) {
        None => None,
        Some(name) => {
            let dot = text::seek_back(name, '.', name.len() as int);
            if dot > 0 {
                Some(name.skip(dot + 1))
            } else {
                None
            }
        },
    }
}

// ---- components -------------------------------------------------------------------------------

/// The pieces between separators that count as components.
pub open spec fn kept(pieces: Seq<Seq<char>>, leading: bool, verbatim: bool) -> Seq<Seq<char>>
    decreases pieces.len(),
{
    if pieces.len() == 0 {
        Seq::empty()
    } else {
        let rest = kept(pieces.skip(1), false, verbatim);
        if pieces[0].len() == 0 || (pieces[0] == seq!['.'] && !leading && !verbatim) {
            rest
        } else {
            seq![pieces[0]] + rest
        }
    }
}

/// A path with one kind of separator between its components.
pub open spec fn evened(style: Style, p: Seq<char>) -> Seq<char> {
    if style == Style::Windows && !verbatim(style, p) {
        text::swapped(p, '/', '\\')
    } else {
        p
    }
}

/// The components that stand behind the prefix of a path, the root among them
/// as a separator.
pub open spec fn unprefixed(style: Style, p: Seq<char>) -> Seq<Seq<char>> {
    let has_root = rooted(style, p);
    let from = prefix_len(style, p) + if has_root {
        1int
    } else {
        0int
    };
    let root: Seq<Seq<char>> = if has_root || (rooted_by_prefix(style, p) && !verbatim(style, p)) {
        seq![seq![separator(style)]]
    } else {
        Seq::empty()
    };
    root + kept(
        text::split(evened(style, p).skip(from), separator(style)),
        !has_root && prefix(style, p) is None,
        verbatim(style, p),
    )
}

/// The components of a path, as they are written.
pub open spec fn components(style: Style, p: Seq<char>) -> Seq<Seq<char>> {
    let front: Seq<Seq<char>> = if prefix(style, p) is Some {
        seq![p.take(prefix_len(style, p))]
    } else {
        Seq::empty()
    };
    front + unprefixed(style, p)
}

/// Whether a path says where it is from the root of everything.
pub open spec fn absolute(style: Style, p: Seq<char>) -> bool {
    match style {
        Style::Unix => rooted(style, p),
        Style::Windows => prefix(style, p) is Some && (rooted(style, p) || rooted_by_prefix(
            style,
            p,
        )),
    }
}

// ---- a path below another ---------------------------------------------------------------------

/// Whether a component is a name: not the root, `.` or `..`.
pub open spec fn is_name(style: Style, part: Seq<char>) -> bool {
    part != seq![separator(style)] && part != seq!['.'] && part != seq!['.', '.']
}

/// The components of a verbatim path with others put behind them one by one:
/// `.` and `..` mean nothing in such a path, so they are followed here.
pub open spec fn followed(base: Seq<Seq<char>>, parts: Seq<Seq<char>>) -> Seq<Seq<char>>
    decreases parts.len(),
{
    if parts.len() == 0 {
        base
    } else {
        let front = followed(base, parts.drop_last());
        let part = parts.last();
        if part == seq!['\\'] {
            front.take(1).push(part)
        } else if part == seq!['.'] {
            front
        } else if part == seq!['.', '.'] {
            if front.len() > 1 && is_name(Style::Windows, front.last()) {
                front.drop_last()
            } else {
                front
            }
        } else {
            front.push(part)
        }
    }
}

/// The components of a Windows path written one behind the other.
pub open spec fn spelled(parts: Seq<Seq<char>>) -> Seq<char>
    decreases parts.len(),
{
    if parts.len() == 0 {
        Seq::empty()
    } else {
        let front = parts.drop_last();
        let root = seq!['\\'];
        if front.len() == 0 || front.last() == root || parts.last() == root {
            spelled(front) + parts.last()
        } else {
            spelled(front) + root + parts.last()
        }
    }
}

/// `tail` below `base`. An absolute `tail`, or one with a prefix, replaces it;
/// one that only begins at a root keeps the prefix of `base`.
pub open spec fn joined(style: Style, base: Seq<char>, tail: Seq<char>) -> Seq<char> {
    if absolute(style, tail) || prefix(style, tail) is Some {
        tail
    } else if verbatim(style, base) && tail.len() > 0 {
        spelled(followed(components(style, base), components(style, tail)))
    } else if rooted(style, tail) {
        base.take(prefix_len(style, base)) + tail
    } else if base.len() == 0 || separates(style, base.last()) || prefix(style, base) == Some(
        (Prefix::Disk, base.len() as int),
    ) {
        base + tail
    } else {
        base.push(separator(style)) + tail
    }
}

// ---- which paths are the same -----------------------------------------------------------------

/// A mark of its own for each kind of prefix, in the order of the kinds. No
/// component of a Windows path looks like it.
pub open spec fn mark(kind: Prefix) -> Seq<char> {
    match kind {
        Prefix::Verbatim => seq!['\\', '\\', '0'],
        Prefix::VerbatimUnc => seq!['\\', '\\', '1'],
        Prefix::VerbatimDisk => seq!['\\', '\\', '2'],
        Prefix::Device => seq!['\\', '\\', '3'],
        Prefix::Unc => seq!['\\', '\\', '4'],
        Prefix::Disk => seq!['\\', '\\', '5'],
    }
}

/// What the two names of a prefix are: a server and its share, or one name,
/// or the letter of a drive, whose case is no matter.
pub open spec fn prefix_names(kind: Prefix, p: Seq<char>, len: int) -> (Seq<char>, Seq<char>) {
    match kind {
        Prefix::Verbatim | Prefix::Device => (p.subrange(4, len), Seq::empty()),
        Prefix::VerbatimUnc => names_between(p, 8, piece_end(p, 8, true), len),
        Prefix::Unc => names_between(p, 2, piece_end(p, 2, false), len),
        Prefix::VerbatimDisk => (text::ascii_lower(p.subrange(4, 5)), Seq::empty()),
        Prefix::Disk => (text::ascii_lower(p.subrange(0, 1)), Seq::empty()),
    }
}

/// The names from `from` to `to`, one in front of `cut` and one past it.
pub open spec fn names_between(p: Seq<char>, from: int, cut: int, to: int) -> (
    Seq<char>,
    Seq<char>,
) {
    if to > cut {
        (p.subrange(from, cut), p.subrange(cut + 1, to))
    } else {
        (p.subrange(from, cut), Seq::empty())
    }
}

/// What paths are compared by: the kind and the names of the prefix, then the
/// components behind it.
pub open spec fn keys(style: Style, p: Seq<char>) -> Seq<Seq<char>> {
    match prefix(style, p) {
        Some((kind, len)) => {
            let names = prefix_names(kind, p, len);
            seq![mark(kind), seq!['\\'] + names.0, seq!['\\'] + names.1] + unprefixed(style, p)
        },
        None => unprefixed(style, p),
    }
}

/// Whether two path names are the same path.
pub open spec fn same(style: Style, a: Seq<char>, b: Seq<char>) -> bool {
    keys(style, a) == keys(style, b)
}

/// Whether a path ends at its root or its prefix, with nothing below it.
pub open spec fn at_root(style: Style, p: Seq<char>) -> bool {
    last_end(style, p) <= body_start(style, p) && (rooted(style, p) || prefix(style, p) is Some)
}

proof fn lemma_part_literals()
    ensures
        "\\"@ == seq!['\\'],
        "/"@ == seq!['/'],
        "."@ == seq!['.'],
        ".."@ == seq!['.', '.'],
{
    reveal_strlit("\\");
    reveal_strlit("/");
    reveal_strlit(".");
    reveal_strlit("..");
    assert("\\"@ =~= seq!['\\']);
    assert("/"@ =~= seq!['/']);
    assert("."@ =~= seq!['.']);
    assert(".."@ =~= seq!['.', '.']);
}

// ---- reading a path ---------------------------------------------------------------------------

proof fn lemma_piece_end(p: Seq<char>, from: int, verbatim: bool)
    requires
        0 <= from <= p.len(),
    ensures
        from <= piece_end(p, from, verbatim) <= p.len(),
    decreases p.len() - from,
{
    if from < p.len() {
        lemma_piece_end(p, from + 1, verbatim);
    }
}

proof fn lemma_prefix_len(style: Style, p: Seq<char>)
    ensures
        0 <= prefix_len(style, p) <= p.len(),
        prefix(style, p) is Some ==> prefix_len(style, p) >= 2,
        prefix(style, p) matches Some((kind, len)) ==> match kind {
            Prefix::Verbatim | Prefix::Device => len >= 4,
            Prefix::VerbatimUnc => {
                &&& 8 <= piece_end(p, 8, true) <= len
                &&& len == piece_end(p, 8, true) || len > piece_end(p, 8, true) + 1
            },
            Prefix::VerbatimDisk => len == 6,
            Prefix::Unc => 2 < piece_end(p, 2, false) && piece_end(p, 2, false) + 1 < len,
            Prefix::Disk => len == 2,
        },
{
    if style == Style::Windows {
        if p.len() >= 2 {
            lemma_piece_end(p, 2, false);
            if piece_end(p, 2, false) < p.len() {
                lemma_piece_end(p, piece_end(p, 2, false) + 1, false);
            }
        }
        if p.len() >= 4 {
            lemma_piece_end(p, 4, false);
            lemma_piece_end(p, 4, true);
        }
        if p.len() >= 8 {
            lemma_piece_end(p, 8, true);
            if piece_end(p, 8, true) < p.len() {
                lemma_piece_end(p, piece_end(p, 8, true) + 1, true);
            }
        }
    }
}

fn is_separator(style: Style, c: char) -> (r: bool)
    ensures
        r == separates(style, c),
{
    c == '/' || (style == Style::Windows && c == '\\')
}

fn find_piece_end(p: &Vec<char>, from: usize, verbatim: bool) -> (r: usize)
    requires
        from <= p@.len(),
    ensures
        r == piece_end(p@, from as int, verbatim),
        from <= r <= p@.len(),
{
    let mut at: usize = from;
    while at < p.len() && p[at] != '\\' && (p[at] != '/' || verbatim)
        invariant
            from <= at <= p@.len(),
            piece_end(p@, from as int, verbatim) == piece_end(p@, at as int, verbatim),
        decreases p@.len() - at,
    {
        at += 1;
    }
    at
}

fn find_share_end(p: &Vec<char>, from: usize, verbatim: bool) -> (r: usize)
    requires
        from <= p@.len(),
    ensures
        r == share_end(p@, from as int, verbatim),
        r <= p@.len(),
{
    let server: usize = find_piece_end(p, from, verbatim);
    if server < p.len() {
        find_piece_end(p, server + 1, verbatim)
    } else {
        server
    }
}

fn is_drive_at(p: &Vec<char>, at: usize) -> (r: bool)
    requires
        at <= 4,
    ensures
        r == drive_at(p@, at as int),
{
    p.len() >= at + 2 && (('a' <= p[at] && p[at] <= 'z') || ('A' <= p[at] && p[at] <= 'Z'))
        && p[at + 1] == ':'
}

/// What a path begins with, and how long that is.
fn prefix_of(style: Style, p: &Vec<char>) -> (r: Option<(Prefix, usize)>)
    ensures
        match r {
            Some((kind, len)) => prefix(style, p@) == Some((kind, len as int)) && len <= p@.len(),
            None => prefix(style, p@) is None,
        },
{
    proof {
        lemma_prefix_len(style, p@);
    }
    if style == Style::Unix {
        return None;
    }
    if p.len() >= 2 && is_separator(style, p[0]) && is_separator(style, p[1]) {
        if p.len() >= 4 && p[0] == '\\' && p[1] == '\\' && p[2] == '?' && p[3] == '\\' {
            if p.len() >= 8 && p[4] == 'U' && p[5] == 'N' && p[6] == 'C' && is_separator(
                style,
                p[7],
            ) {
                let server: usize = find_piece_end(p, 8, true);
                let share: usize = find_share_end(p, 8, true);
                if share > server && share - server > 1 {
                    Some((Prefix::VerbatimUnc, share))
                } else {
                    Some((Prefix::VerbatimUnc, server))
                }
            } else if is_drive_at(p, 4) && (p.len() == 6 || is_separator(style, p[6])) {
                Some((Prefix::VerbatimDisk, 6))
            } else {
                Some((Prefix::Verbatim, find_piece_end(p, 4, true)))
            }
        } else if p.len() >= 4 && p[2] == '.' && is_separator(style, p[3]) {
            Some((Prefix::Device, find_piece_end(p, 4, false)))
        } else {
            let server: usize = find_piece_end(p, 2, false);
            let share: usize = find_share_end(p, 2, false);
            if server > 2 && share > server && share - server > 1 {
                Some((Prefix::Unc, share))
            } else {
                None
            }
        }
    } else if is_drive_at(p, 0) {
        Some((Prefix::Disk, 2))
    } else {
        None
    }
}

/// How a path begins.
struct Front {
    prefix: Option<Prefix>,
    /// How long the prefix is.
    len: usize,
    verbatim: bool,
    by_prefix: bool,
    rooted: bool,
    dotted: bool,
    /// Where the components begin.
    start: usize,
}

spec fn front_is(front: Front, style: Style, p: Seq<char>) -> bool {
    &&& match front.prefix {
        Some(kind) => prefix(style, p) == Some((kind, front.len as int)),
        None => prefix(style, p) is None,
    }
    &&& front.len == prefix_len(style, p)
    &&& front.verbatim == verbatim(style, p)
    &&& front.by_prefix == rooted_by_prefix(style, p)
    &&& front.rooted == rooted(style, p)
    &&& front.dotted == dotted(style, p)
    &&& front.start == body_start(style, p)
    &&& front.len <= front.start <= p.len()
}

fn front_of(style: Style, p: &Vec<char>) -> (r: Front)
    ensures
        front_is(r, style, p@),
{
    let (kind, len): (Option<Prefix>, usize) = match prefix_of(style, p) {
        Some((kind, len)) => (Some(kind), len),
        None => (None, 0),
    };
    let verbatim: bool = match kind {
        Some(Prefix::Verbatim) | Some(Prefix::VerbatimUnc) | Some(Prefix::VerbatimDisk) => true,
        _ => false,
    };
    let by_prefix: bool = match kind {
        Some(Prefix::Disk) | None => false,
        _ => true,
    };
    let rooted: bool = len < p.len() && is_separator(style, p[len]);
    let dotted: bool = !rooted && !by_prefix && len < p.len() && p[len] == '.' && (len + 1
        == p.len() || is_separator(style, p[len + 1]));
    let start: usize = if rooted || dotted {
        len + 1
    } else {
        len
    };
    Front { prefix: kind, len, verbatim, by_prefix, rooted, dotted, start }
}

fn does_cut(style: Style, verbatim: bool, c: char) -> (r: bool)
    ensures
        r == cuts(style, verbatim, c),
{
    is_separator(style, c) && !(verbatim && c == '/')
}

fn end_of(style: Style, verbatim: bool, p: &Vec<char>, low: usize, end: usize) -> (r: usize)
    requires
        end <= p@.len(),
    ensures
        r == body_end(style, verbatim, p@, low as int, end as int),
        r <= end,
        end >= low ==> r >= low,
        r > low ==> !cuts(style, verbatim, p@[r - 1]),
{
    let mut e: usize = end;
    while e > low && (does_cut(style, verbatim, p[e - 1]) || (p[e - 1] == '.' && !verbatim && (e - 1
        <= low || does_cut(style, verbatim, p[e - 2]))))
        invariant
            e <= end <= p@.len(),
            end >= low ==> e >= low,
            body_end(style, verbatim, p@, low as int, end as int) == body_end(
                style,
                verbatim,
                p@,
                low as int,
                e as int,
            ),
        decreases e,
    {
        e -= 1;
    }
    e
}

/// Where the last component lies, if there is one.
fn last_of(style: Style, p: &Vec<char>, front: &Front) -> (r: Option<(usize, usize)>)
    requires
        front_is(*front, style, p@),
    ensures
        match r {
            Some((from, to)) => {
                &&& from == last_start(style, p@)
                &&& to == last_end(style, p@)
                &&& last_end(style, p@) > body_start(style, p@)
                &&& from < to <= p@.len()
            },
            None => last_end(style, p@) <= body_start(style, p@),
        },
{
    let low: usize = front.start;
    let to: usize = end_of(style, front.verbatim, p, low, p.len());
    if to <= low {
        return None;
    }
    let mut from: usize = to;
    while from > low && !does_cut(style, front.verbatim, p[from - 1])
        invariant
            low <= from <= to <= p@.len(),
            back_to(style, front.verbatim, p@, low as int, to as int) == back_to(
                style,
                front.verbatim,
                p@,
                low as int,
                from as int,
            ),
            from == to ==> to > low && !cuts(style, front.verbatim, p@[to - 1]),
        decreases from,
    {
        from -= 1;
    }
    Some((from, to))
}

/// The name at the end of a path.
pub fn file_name_of(style: Style, path: &str) -> (r: Option<String>)
    ensures
        match r {
            Some(name) => file_name(style, path@) == Some(name@),
            None => file_name(style, path@) is None,
        },
{
    let p: Vec<char> = chars(path);
    let front: Front = front_of(style, &p);
    match last_of(style, &p, &front) {
        None => None,
        Some((from, to)) => {
            let name: String = part(&p, from, to);
            if to - from == 2 && p[from] == '.' && p[from + 1] == '.' {
                assert(name@ =~= seq!['.', '.']);
                None
            } else if to - from == 1 && p[from] == '.' {
                assert(name@ =~= seq!['.']);
                None
            } else {
                assert(name@.len() == to - from);
                assert(name@.len() == 2 ==> name@[0] == p@[from as int] && name@[1] == p@[from + 1]);
                assert(name@.len() == 1 ==> name@[0] == p@[from as int]);
                Some(name)
            }
        },
    }
}

/// The path without its last component.
pub fn parent_of(style: Style, path: &str) -> (r: Option<String>)
    ensures
        match r {
            Some(above) => parent(style, path@) == Some(above@),
            None => parent(style, path@) is None,
        },
{
    let p: Vec<char> = chars(path);
    let front: Front = front_of(style, &p);
    match last_of(style, &p, &front) {
        None => {
            if front.dotted && front.prefix.is_none() {
                let r: String = String::new();
                assert(r@ =~= Seq::<char>::empty());
                Some(r)
            } else {
                None
            }
        },
        Some((from, to)) => {
            let end: usize = end_of(style, front.verbatim, &p, front.start, from);
            let r: String = part(&p, 0, end);
            assert(r@ =~= p@.take(end as int));
            Some(r)
        },
    }
}

/// What follows the last dot of the name at the end of a path.
pub fn extension_of(style: Style, path: &str) -> (r: Option<String>)
    ensures
        match r {
            Some(ending) => extension(style, path@) == Some(ending@),
            None => extension(style, path@) is None,
        },
{
    match file_name_of(style, path) {
        None => None,
        Some(name) => {
            let n: Vec<char> = chars(name.as_str());
            let len: usize = n.len();
            match text::rfind_char(&n, '.') {
                Some(dot) => {
                    if dot > 0 {
                        let r: String = part(&n, dot + 1, len);
                        assert(r@ =~= n@.skip(dot + 1));
                        Some(r)
                    } else {
                        None
                    }
                },
                None => None,
            }
        },
    }
}

/// Whether a path says where it is from the root of everything.
pub fn is_absolute(style: Style, path: &str) -> (r: bool)
    ensures
        r == absolute(style, path@),
{
    let p: Vec<char> = chars(path);
    let front: Front = front_of(style, &p);
    match style {
        Style::Unix => front.rooted,
        Style::Windows => front.prefix.is_some() && (front.rooted || front.by_prefix),
    }
}

/// Whether a path ends at its root or its prefix, with nothing below it.
pub fn ends_at_root(style: Style, path: &str) -> (r: bool)
    ensures
        r == at_root(style, path@),
{
    let p: Vec<char> = chars(path);
    let front: Front = front_of(style, &p);
    last_of(style, &p, &front).is_none() && (front.rooted || front.prefix.is_some())
}

fn written_separator(style: Style) -> (r: char)
    ensures
        r == separator(style),
{
    match style {
        Style::Unix => '/',
        Style::Windows => '\\',
    }
}

fn push_kept(
    pieces: &Vec<String>,
    leading: bool,
    verbatim: bool,
    out: &mut Vec<String>,
)
    ensures
        text::views(final(out)@) == text::views(old(out)@) + kept(
            text::views(pieces@),
            leading,
            verbatim,
        ),
{
    let ghost all = text::views(pieces@);
    let ghost was = text::views(out@);
    let mut i: usize = 0;
    assert(all.skip(0) =~= all);
    while i < pieces.len()
        invariant
            i <= pieces@.len(),
            all == text::views(pieces@),
            was + kept(all, leading, verbatim) == text::views(out@) + kept(
                all.skip(i as int),
                i == 0 && leading,
                verbatim,
            ),
        decreases pieces@.len() - i,
    {
        let piece: Vec<char> = chars(pieces[i].as_str());
        let dot: bool = piece.len() == 1 && piece[0] == '.';
        proof {
            let here = all.skip(i as int);
            assert(here[0] == pieces@[i as int]@);
            assert(here.skip(1) =~= all.skip(i + 1));
            assert(dot == (piece@ == seq!['.'])) by {
                if dot {
                    assert(piece@ =~= seq!['.']);
                }
            }
        }
        if piece.len() > 0 && (!dot || (i == 0 && leading) || verbatim) {
            let whole: String = string(&piece);
            proof {
                let rest = kept(all.skip(i + 1), false, verbatim);
                assert(text::views(out@.push(whole)) =~= text::views(out@).push(whole@));
                assert(text::views(out@) + (seq![whole@] + rest) =~= text::views(out@.push(whole))
                    + rest);
            }
            out.push(whole);
        }
        i += 1;
    }
    assert(text::views(out@) + kept(all.skip(i as int), i == 0 && leading, verbatim)
        =~= text::views(out@));
}

fn push_unprefixed(style: Style, p: &Vec<char>, front: &Front, out: &mut Vec<String>)
    requires
        front_is(*front, style, p@),
    ensures
        text::views(final(out)@) == text::views(old(out)@) + unprefixed(style, p@),
{
    let sep: char = written_separator(style);
    let ghost was = text::views(out@);
    let ghost root: Seq<Seq<char>> = if front.rooted || (front.by_prefix && !front.verbatim) {
        seq![seq![sep]]
    } else {
        Seq::empty()
    };
    if front.rooted || (front.by_prefix && !front.verbatim) {
        let mut root_text: String = String::new();
        root_text.push(sep);
        assert(root_text@ =~= seq![sep]);
        out.push(root_text);
        assert(text::views(out@) =~= was + root);
    } else {
        assert(text::views(out@) =~= was + root);
    }
    let even: Vec<char> = if style == Style::Windows && !front.verbatim {
        text::swap_char(p, '/', '\\')
    } else {
        text::slice(p, 0, p.len())
    };
    assert(even@ =~= evened(style, p@));
    let from: usize = if front.rooted {
        front.len + 1
    } else {
        front.len
    };
    let body: Vec<char> = text::slice(&even, from, even.len());
    assert(body@ =~= evened(style, p@).skip(from as int));
    let pieces: Vec<String> = split_chars(&body, sep);
    let leading: bool = !front.rooted && front.prefix.is_none();
    push_kept(&pieces, leading, front.verbatim, out);
    assert(text::views(out@) =~= was + (root + kept(text::views(pieces@), leading, front.verbatim)));
}

/// The components of a path, as they are written.
pub fn components_of(style: Style, path: &str) -> (r: Vec<String>)
    ensures
        text::views(r@) == components(style, path@),
{
    let p: Vec<char> = chars(path);
    let front: Front = front_of(style, &p);
    let mut r: Vec<String> = Vec::new();
    if front.prefix.is_some() {
        let whole: String = part(&p, 0, front.len);
        assert(whole@ =~= p@.take(front.len as int));
        r.push(whole);
        assert(text::views(r@) =~= seq![p@.take(front.len as int)]);
    } else {
        assert(text::views(r@) =~= Seq::<Seq<char>>::empty());
    }
    push_unprefixed(style, &p, &front, &mut r);
    r
}

fn mark_of(kind: Prefix) -> (r: String)
    ensures
        r@ == mark(kind),
{
    let mut r: String = String::new();
    r.push('\\');
    r.push('\\');
    r.push(
        match kind {
            Prefix::Verbatim => '0',
            Prefix::VerbatimUnc => '1',
            Prefix::VerbatimDisk => '2',
            Prefix::Device => '3',
            Prefix::Unc => '4',
            Prefix::Disk => '5',
        },
    );
    assert(r@ =~= mark(kind));
    r
}

fn two_names(p: &Vec<char>, from: usize, cut: usize, to: usize) -> (r: (String, String))
    requires
        from <= cut <= to <= p@.len(),
    ensures
        (r.0@, r.1@) == names_between(p@, from as int, cut as int, to as int),
{
    let first: String = part(p, from, cut);
    let second: String = if to > cut {
        part(p, cut + 1, to)
    } else {
        String::new()
    };
    assert(to <= cut ==> second@ =~= Seq::<char>::empty());
    (first, second)
}

fn names_of_prefix(kind: Prefix, p: &Vec<char>, len: usize) -> (r: (String, String))
    requires
        prefix(Style::Windows, p@) == Some((kind, len as int)),
    ensures
        (r.0@, r.1@) == prefix_names(kind, p@, len as int),
{
    proof {
        lemma_prefix_len(Style::Windows, p@);
    }
    match kind {
        Prefix::Verbatim | Prefix::Device => {
            let r: (String, String) = (part(p, 4, len), String::new());
            assert(r.1@ =~= Seq::<char>::empty());
            r
        },
        Prefix::VerbatimUnc => two_names(p, 8, find_piece_end(p, 8, true), len),
        Prefix::Unc => two_names(p, 2, find_piece_end(p, 2, false), len),
        Prefix::VerbatimDisk => {
            let r: (String, String) = (
                text::to_ascii_lower(part(p, 4, 5).as_str()),
                String::new(),
            );
            assert(r.1@ =~= Seq::<char>::empty());
            r
        },
        Prefix::Disk => {
            let r: (String, String) = (
                text::to_ascii_lower(part(p, 0, 1).as_str()),
                String::new(),
            );
            assert(r.1@ =~= Seq::<char>::empty());
            r
        },
    }
}

/// What paths are compared by.
fn keys_of(style: Style, path: &str) -> (r: Vec<String>)
    ensures
        text::views(r@) == keys(style, path@),
{
    let p: Vec<char> = chars(path);
    let front: Front = front_of(style, &p);
    let mut r: Vec<String> = Vec::new();
    assert(text::views(r@) =~= Seq::<Seq<char>>::empty());
    if let Some(kind) = front.prefix {
        proof {
            reveal_strlit("\\");
            assert("\\"@ =~= seq!['\\']);
        }
        let names: (String, String) = names_of_prefix(kind, &p, front.len);
        let mark_text: String = mark_of(kind);
        let first: String = text::concat2("\\", names.0.as_str());
        let second: String = text::concat2("\\", names.1.as_str());
        r.push(mark_text);
        r.push(first);
        r.push(second);
        assert(text::views(r@) =~= seq![
            mark(kind),
            seq!['\\'] + names.0@,
            seq!['\\'] + names.1@,
        ]);
    }
    push_unprefixed(style, &p, &front, &mut r);
    assert(prefix(style, p@) is None ==> text::views(r@) =~= unprefixed(style, p@));
    r
}

fn is_named(part: &str) -> (r: bool)
    ensures
        r == is_name(Style::Windows, part@),
{
    proof {
        lemma_part_literals();
    }
    !text::same(part, "\\") && !text::same(part, ".") && !text::same(part, "..")
}

/// Puts components behind those of a verbatim path, one by one.
fn follow(base: Vec<String>, parts: &Vec<String>) -> (r: Vec<String>)
    requires
        base@.len() > 0,
    ensures
        text::views(r@) == followed(text::views(base@), text::views(parts@)),
{
    let ghost head = text::views(base@);
    let ghost all = text::views(parts@);
    let mut out: Vec<String> = base;
    let mut i: usize = 0;
    proof {
        lemma_part_literals();
        assert(all.take(0) =~= Seq::<Seq<char>>::empty());
    }
    while i < parts.len()
        invariant
            i <= parts@.len(),
            all == text::views(parts@),
            out@.len() > 0,
            text::views(out@) == followed(head, all.take(i as int)),
            "\\"@ == seq!['\\'],
            "."@ == seq!['.'],
            ".."@ == seq!['.', '.'],
        decreases parts@.len() - i,
    {
        let ghost was = text::views(out@);
        proof {
            assert(all.take(i + 1).drop_last() =~= all.take(i as int));
            assert(all.take(i + 1).last() == parts@[i as int]@);
        }
        let part: &str = parts[i].as_str();
        let count: usize = out.len();
        if text::same(part, "\\") {
            out.truncate(1);
            assert(text::views(out@) =~= was.take(1));
            out.push(parts[i].clone());
            assert(text::views(out@) =~= was.take(1).push(parts@[i as int]@));
        } else if text::same(part, "..") {
            assert(out@[count - 1]@ == was.last());
            if count > 1 && is_named(out[count - 1].as_str()) {
                out.pop();
                assert(text::views(out@) =~= was.drop_last());
            }
        } else if !text::same(part, ".") {
            out.push(parts[i].clone());
            assert(text::views(out@) =~= was.push(parts@[i as int]@));
        }
        i += 1;
    }
    assert(all.take(i as int) =~= all);
    out
}

fn spell(parts: &Vec<String>) -> (r: String)
    ensures
        r@ == spelled(text::views(parts@)),
{
    let ghost all = text::views(parts@);
    let mut r: String = String::new();
    let mut i: usize = 0;
    proof {
        lemma_part_literals();
        assert(all.take(0) =~= Seq::<Seq<char>>::empty());
        assert(r@ =~= Seq::<char>::empty());
    }
    while i < parts.len()
        invariant
            i <= parts@.len(),
            all == text::views(parts@),
            r@ == spelled(all.take(i as int)),
            "\\"@ == seq!['\\'],
        decreases parts@.len() - i,
    {
        proof {
            assert(all.take(i + 1).drop_last() =~= all.take(i as int));
            assert(all.take(i + 1).last() == parts@[i as int]@);
            if i > 0 {
                assert(all.take(i as int).last() == parts@[i - 1]@);
            }
        }
        if i > 0 && !text::same(parts[i - 1].as_str(), "\\") && !text::same(
            parts[i].as_str(),
            "\\",
        ) {
            r.append("\\");
        }
        r.append(parts[i].as_str());
        i += 1;
    }
    assert(all.take(i as int) =~= all);
    r
}

/// `tail` below `base`.
pub fn join(style: Style, base: &str, tail: &str) -> (r: String)
    ensures
        r@ == joined(style, base@, tail@),
{
    let b: Vec<char> = chars(base);
    let t: Vec<char> = chars(tail);
    let below: Front = front_of(style, &t);
    let above: Front = front_of(style, &b);
    if is_absolute(style, tail) || below.prefix.is_some() {
        return tail.to_owned();
    }
    if above.verbatim && t.len() > 0 {
        let head: Vec<String> = components_of(style, base);
        let rest: Vec<String> = components_of(style, tail);
        assert(text::views(head@).len() > 0);
        return spell(&follow(head, &rest));
    }
    if below.rooted {
        let front: String = part(&b, 0, above.len);
        assert(front@ =~= b@.take(above.len as int));
        return text::concat2(front.as_str(), tail);
    }
    let mut r: String = base.to_owned();
    let whole_drive: bool = above.len == b.len() && match above.prefix {
        Some(Prefix::Disk) => true,
        _ => false,
    };
    if b.len() > 0 && !is_separator(style, b[b.len() - 1]) && !whole_drive {
        r.push(written_separator(style));
    }
    r.append(tail);
    r
}

/// Whether two lists hold the same texts in the same order.
pub fn same_texts(a: &Vec<String>, b: &Vec<String>) -> (r: bool)
    ensures
        r == (text::views(a@) == text::views(b@)),
{
    if a.len() != b.len() {
        assert(text::views(a@).len() != text::views(b@).len());
        return false;
    }
    let mut i: usize = 0;
    while i < a.len()
        invariant
            i <= a@.len(),
            a@.len() == b@.len(),
            forall|j: int| 0 <= j < i ==> a@[j]@ == b@[j]@,
        decreases a@.len() - i,
    {
        if !text::same(a[i].as_str(), b[i].as_str()) {
            assert(text::views(a@)[i as int] != text::views(b@)[i as int]);
            return false;
        }
        i += 1;
    }
    assert(text::views(a@) =~= text::views(b@));
    true
}

/// Whether two path names are the same path.
pub fn is_same(style: Style, a: &str, b: &str) -> (r: bool)
    ensures
        r == same(style, a@, b@),
{
    let x: Vec<String> = keys_of(style, a);
    let y: Vec<String> = keys_of(style, b);
    same_texts(&x, &y)
}

proof fn lemma_body_end(style: Style, verbatim: bool, p: Seq<char>, low: int, end: int)
    requires
        0 <= low <= end,
    ensures
        low <= body_end(style, verbatim, p, low, end) <= end,
    decreases end,
{
    if end > low {
        lemma_body_end(style, verbatim, p, low, end - 1);
    }
}

proof fn lemma_back_stays(style: Style, verbatim: bool, p: Seq<char>, low: int, end: int)
    requires
        0 <= low <= end,
    ensures
        low <= back_to(style, verbatim, p, low, end) <= end,
    decreases end,
{
    if end > low {
        lemma_back_stays(style, verbatim, p, low, end - 1);
    }
}

/// The last component lies past where the components begin, and so does what
/// is in front of it.
pub proof fn lemma_last_in_body(style: Style, p: Seq<char>)
    ensures
        0 <= body_start(style, p) <= last_start(style, p) <= last_end(style, p) <= p.len(),
        body_start(style, p) <= body_end(
            style,
            verbatim(style, p),
            p,
            body_start(style, p),
            last_start(style, p),
        ) <= p.len(),
{
    let low = body_start(style, p);
    lemma_prefix_len(style, p);
    lemma_body_end(style, verbatim(style, p), p, low, p.len() as int);
    lemma_back_stays(style, verbatim(style, p), p, low, last_end(style, p));
    lemma_body_end(style, verbatim(style, p), p, low, last_start(style, p));
}

/// A name that is one plain component is the name at the end of its path. On
/// Windows a name may be a drive, and a path may become a share or a device by
/// what is put behind it; in those cases it is not.
pub proof fn lemma_name_below(style: Style, base: Seq<char>, name: Seq<char>)
    requires
        name.len() > 0,
        forall|i: int| 0 <= i < name.len() ==> !separates(style, #[trigger] name[i]),
        name != seq!['.'],
        name != seq!['.', '.'],
        prefix(style, name) is None,
        !verbatim(style, base),
        prefix(style, joined(style, base, name)) == prefix(style, base),
    ensures
        file_name(style, joined(style, base, name)) == Some(name),
{
    let p = joined(style, base, name);
    let cut = p.len() - name.len();
    let low = body_start(style, p);
    lemma_prefix_len(style, base);
    assert(name[0] == name[0]);
    assert(!rooted(style, name));
    assert(p.subrange(cut, p.len() as int) =~= name);
    assert forall|j: int| cut <= j < p.len() implies !separates(style, #[trigger] p[j]) by {
        assert(p[j] == name[j - cut]);
    }
    assert(p[cut] == name[0]);
    let whole = base.len() == 0 || prefix(style, base) == Some((Prefix::Disk, base.len() as int));
    assert(whole || separates(style, p[cut - 1])) by {
        if !whole && separates(style, base.last()) {
            assert(p[cut - 1] == base.last());
        }
    }
    if dotted(style, p) && prefix_len(style, p) == cut {
        assert(name =~= seq!['.']) by {
            if name.len() > 1 {
                assert(p[cut + 1] == name[1]);
            }
        }
    }
    assert(low <= cut);
    let last = p[p.len() - 1];
    assert(last == name[name.len() - 1]);
    if last == '.' && (p.len() - 1 <= low || separates(style, p[p.len() - 2])) {
        if name.len() > 1 {
            assert(p[p.len() - 2] == name[name.len() - 2]);
        }
        assert(name =~= seq!['.']);
    }
    assert(last_end(style, p) == p.len());
    if whole {
        assert(low == cut);
    }
    lemma_back_to(style, false, p, low, cut, p.len() as int);
}

/// A component begins past the last separator in front of its end.
proof fn lemma_back_to(
    style: Style,
    verbatim: bool,
    p: Seq<char>,
    low: int,
    from: int,
    end: int,
)
    requires
        0 <= low <= from <= end <= p.len(),
        from == low || cuts(style, verbatim, p[from - 1]),
        forall|j: int| from <= j < end ==> !cuts(style, verbatim, #[trigger] p[j]),
    ensures
        back_to(style, verbatim, p, low, end) == from,
    decreases end - from,
{
    if end > from {
        lemma_back_to(style, verbatim, p, low, from, end - 1);
    }
}

// ---- the order of paths -----------------------------------------------------------------------

/// The mark of a prefix comes first, then the root, then `.`, then `..`, then
/// any name.
pub open spec fn part_rank(style: Style, part: Seq<char>) -> int {
    if style == Style::Windows && part.len() == 3 && part[0] == '\\' && part[1] == '\\' {
        -1
    } else if part == seq![separator(style)] {
        0
    } else if part == seq!['.'] {
        1
    } else if part == seq!['.', '.'] {
        2
    } else {
        3
    }
}

/// Whether one component comes before another.
pub open spec fn part_before(style: Style, a: Seq<char>, b: Seq<char>) -> bool {
    let x = part_rank(style, a);
    let y = part_rank(style, b);
    x < y || (x == y && text::before(a, b))
}

/// Whether some components come before others: by the first that differs, or
/// by being fewer.
pub open spec fn parts_before(style: Style, a: Seq<Seq<char>>, b: Seq<Seq<char>>) -> bool
    decreases a.len(),
{
    if b.len() == 0 {
        false
    } else if a.len() == 0 {
        true
    } else if a[0] == b[0] {
        parts_before(style, a.skip(1), b.skip(1))
    } else {
        part_before(style, a[0], b[0])
    }
}

/// Whether one path comes before another.
pub open spec fn precedes(style: Style, a: Seq<char>, b: Seq<char>) -> bool {
    parts_before(style, keys(style, a), keys(style, b))
}

proof fn lemma_part_before(style: Style, a: Seq<char>, b: Seq<char>)
    ensures
        !part_before(style, a, a),
        !(part_before(style, a, b) && part_before(style, b, a)),
        part_before(style, a, b) || part_before(style, b, a) || a == b,
{
    text::lemma_before_total(a, b);
    text::lemma_before_total(a, a);
}

proof fn lemma_part_before_transitive(style: Style, a: Seq<char>, b: Seq<char>, c: Seq<char>)
    requires
        part_before(style, a, b),
        part_before(style, b, c),
    ensures
        part_before(style, a, c),
{
    if part_rank(style, a) == part_rank(style, b) && part_rank(style, b) == part_rank(style, c) {
        text::lemma_before_transitive(a, b, c);
    }
}

/// Of two lists of components one comes before the other, unless they are the
/// same.
pub proof fn lemma_parts_before(style: Style, a: Seq<Seq<char>>, b: Seq<Seq<char>>)
    ensures
        !(parts_before(style, a, b) && parts_before(style, b, a)),
        parts_before(style, a, b) || parts_before(style, b, a) || a == b,
        a == b ==> !parts_before(style, a, b),
    decreases a.len(),
{
    if a.len() == 0 || b.len() == 0 {
        if a.len() == b.len() {
            assert(a =~= b);
        }
    } else if a[0] == b[0] {
        lemma_parts_before(style, a.skip(1), b.skip(1));
        if a.skip(1) == b.skip(1) {
            assert(a =~= seq![a[0]] + a.skip(1));
            assert(b =~= seq![b[0]] + b.skip(1));
        }
    } else {
        lemma_part_before(style, a[0], b[0]);
    }
}

/// Coming before carries over.
pub proof fn lemma_parts_before_transitive(
    style: Style,
    a: Seq<Seq<char>>,
    b: Seq<Seq<char>>,
    c: Seq<Seq<char>>,
)
    requires
        parts_before(style, a, b),
        parts_before(style, b, c),
    ensures
        parts_before(style, a, c),
    decreases a.len(),
{
    if a.len() > 0 && b.len() > 0 && c.len() > 0 {
        if a[0] == b[0] && b[0] == c[0] {
            lemma_parts_before_transitive(style, a.skip(1), b.skip(1), c.skip(1));
        } else if a[0] != b[0] && b[0] != c[0] {
            lemma_part_before_transitive(style, a[0], b[0], c[0]);
            lemma_part_before(style, a[0], b[0]);
        }
    }
}

/// The order of paths, as a relation.
pub open spec fn path_order(style: Style) -> spec_fn(Seq<char>, Seq<char>) -> bool {
    |a: Seq<char>, b: Seq<char>| precedes(style, a, b)
}

/// One path preceding another is an order.
pub proof fn lemma_paths_have_an_order(style: Style)
    ensures
        order::orders(path_order(style)),
{
    let less = path_order(style);
    assert forall|a: Seq<char>| !#[trigger] less(a, a) by {
        lemma_parts_before(style, keys(style, a), keys(style, a));
    }
    assert forall|a: Seq<char>, b: Seq<char>, c: Seq<char>|
        #[trigger] less(a, b) && #[trigger] less(b, c) implies less(a, c) by {
        lemma_parts_before_transitive(style, keys(style, a), keys(style, b), keys(style, c));
    }
    assert forall|a: Seq<char>, b: Seq<char>, c: Seq<char>|
        !#[trigger] less(a, b) && !#[trigger] less(b, c) implies !less(a, c) by {
        lemma_parts_before(style, keys(style, a), keys(style, b));
        lemma_parts_before(style, keys(style, b), keys(style, c));
        lemma_parts_before(style, keys(style, a), keys(style, c));
        if precedes(style, b, a) && precedes(style, c, b) {
            lemma_parts_before_transitive(style, keys(style, c), keys(style, b), keys(style, a));
        }
    }
}

fn rank_of(style: Style, part: &str) -> (r: i8)
    ensures
        r == part_rank(style, part@),
{
    let p: Vec<char> = chars(part);
    let sep: char = written_separator(style);
    proof {
        assert(p@.len() == 1 && p@[0] == sep ==> p@ =~= seq![sep]);
        assert(p@.len() == 1 && p@[0] == '.' ==> p@ =~= seq!['.']);
        assert(p@.len() == 2 && p@[0] == '.' && p@[1] == '.' ==> p@ =~= seq!['.', '.']);
    }
    if style == Style::Windows && p.len() == 3 && p[0] == '\\' && p[1] == '\\' {
        -1
    } else if p.len() == 1 && p[0] == sep {
        0
    } else if p.len() == 1 && p[0] == '.' {
        1
    } else if p.len() == 2 && p[0] == '.' && p[1] == '.' {
        2
    } else {
        3
    }
}

fn is_part_before(style: Style, a: &str, b: &str) -> (r: bool)
    ensures
        r == part_before(style, a@, b@),
{
    let x: i8 = rank_of(style, a);
    let y: i8 = rank_of(style, b);
    x < y || (x == y && text::comes_before(a, b))
}

/// Whether one path comes before another.
pub fn is_before(style: Style, a: &str, b: &str) -> (r: bool)
    ensures
        r == precedes(style, a@, b@),
{
    let x: Vec<String> = keys_of(style, a);
    let y: Vec<String> = keys_of(style, b);
    let ghost xs = text::views(x@);
    let ghost ys = text::views(y@);
    let mut i: usize = 0;
    assert(xs.skip(0) =~= xs);
    assert(ys.skip(0) =~= ys);
    while i < x.len() && i < y.len()
        invariant
            xs == text::views(x@),
            ys == text::views(y@),
            xs == keys(style, a@),
            ys == keys(style, b@),
            i <= x@.len(),
            i <= y@.len(),
            parts_before(style, xs, ys) == parts_before(
                style,
                xs.skip(i as int),
                ys.skip(i as int),
            ),
        decreases x@.len() - i,
    {
        proof {
            assert(xs.skip(i as int)[0] == x@[i as int]@);
            assert(ys.skip(i as int)[0] == y@[i as int]@);
            assert(xs.skip(i as int).skip(1) =~= xs.skip(i + 1));
            assert(ys.skip(i as int).skip(1) =~= ys.skip(i + 1));
        }
        if !text::same(x[i].as_str(), y[i].as_str()) {
            return is_part_before(style, x[i].as_str(), y[i].as_str());
        }
        i += 1;
    }
    i < y.len()
}

// ---- what lies below a path -------------------------------------------------------------------

/// Whether a list begins with another.
pub open spec fn starts_with(all: Seq<Seq<char>>, head: Seq<Seq<char>>) -> bool {
    head.len() <= all.len() && all.take(head.len() as int) == head
}

/// The components of a path that lie below another; none where it does not
/// lie there.
pub open spec fn below(style: Style, path: Seq<char>, base: Seq<char>) -> Option<Seq<Seq<char>>> {
    let all = components(style, path);
    let count = components(style, base).len();
    if starts_with(keys(style, path), keys(style, base)) && count <= all.len() {
        Some(all.skip(count as int))
    } else {
        None
    }
}

fn begins(all: &Vec<String>, head: &Vec<String>) -> (r: bool)
    ensures
        r == starts_with(text::views(all@), text::views(head@)),
{
    let ghost xs = text::views(all@);
    let ghost ys = text::views(head@);
    if head.len() > all.len() {
        return false;
    }
    let mut i: usize = 0;
    while i < head.len()
        invariant
            xs == text::views(all@),
            ys == text::views(head@),
            i <= head@.len() <= all@.len(),
            xs.take(i as int) =~= ys.take(i as int),
        decreases head@.len() - i,
    {
        if !text::same(all[i].as_str(), head[i].as_str()) {
            assert(xs.take(ys.len() as int)[i as int] != ys[i as int]);
            return false;
        }
        i += 1;
    }
    assert(ys.take(i as int) =~= ys);
    true
}

/// The components of a path that lie below another, with `/` between them.
pub fn below_text(style: Style, path: &str, base: &str) -> (r: Option<String>)
    ensures
        match r {
            Some(rest) => below(style, path@, base@) is Some && rest@ == text::joined_by(
                below(style, path@, base@)->0,
                '/',
            ),
            None => below(style, path@, base@) is None,
        },
{
    if !begins(&keys_of(style, path), &keys_of(style, base)) {
        return None;
    }
    let all: Vec<String> = components_of(style, path);
    let ghost xs = text::views(all@);
    let count: usize = components_of(style, base).len();
    assert(count == components(style, base@).len());
    assert(xs.len() == all@.len());
    if count > all.len() {
        return None;
    }
    let mut rest: Vec<String> = Vec::new();
    let mut j: usize = count;
    while j < all.len()
        invariant
            count <= j <= all@.len(),
            xs == text::views(all@),
            text::views(rest@) =~= xs.subrange(count as int, j as int),
        decreases all@.len() - j,
    {
        let ghost was = text::views(rest@);
        rest.push(all[j].clone());
        assert(text::views(rest@) =~= was.push(xs[j as int]));
        j += 1;
    }
    assert(text::views(rest@) =~= xs.skip(count as int));
    Some(text::join_with(&rest, '/'))
}

/// The name at the end of a path is what stands in front of the last dot, the
/// dot and the extension. A name without one has no dot but in front.
pub proof fn law_a_name_is_stem_and_extension(style: Style, p: Seq<char>)
    requires
        file_name(style, p) is Some,
    ensures
        ({
            let name = file_name(style, p)->0;
            match extension(style, p) {
                Some(ending) => {
                    let stem = name.take(name.len() - ending.len() - 1);
                    &&& ending.len() + 1 < name.len()
                    &&& name == stem + seq!['.'] + ending
                    &&& !ending.contains('.')
                },
                None => forall|i: int| 0 < i < name.len() ==> name[i] != '.',
            }
        }),
{
    let name = file_name(style, p)->0;
    let dot = text::seek_back(name, '.', name.len() as int);
    text::lemma_seek_back(name, '.', name.len() as int);
    if dot > 0 {
        let ending = name.skip(dot + 1);
        assert(name.take(name.len() - ending.len() - 1) =~= name.take(dot));
        assert(name =~= name.take(dot) + seq!['.'] + ending);
    }
}

/// The path above a name is the path the name was put below, where that does
/// not end in a separator or in `.`.
pub proof fn law_the_path_above_is_the_path_below_which(base: Seq<char>, name: Seq<char>)
    requires
        name.len() > 0,
        forall|i: int| 0 <= i < name.len() ==> name[i] != '/',
        name != seq!['.'],
        base.len() > 0,
        base.last() != '/',
        base.last() != '.',
    ensures
        parent(Style::Unix, joined(Style::Unix, base, name)) == Some(base),
{
    let style = Style::Unix;
    let p = joined(style, base, name);
    let cut = p.len() - name.len();
    let low = body_start(style, p);
    assert(name[0] == name[0]);
    assert(p == base.push('/') + name);
    assert(p[cut - 1] == '/');
    assert(p[cut - 2] == base.last());
    assert(low < cut);
    let last = p[p.len() - 1];
    assert(last == name[name.len() - 1]);
    if last == '.' && (p.len() - 1 <= low || separates(style, p[p.len() - 2])) {
        if name.len() > 1 {
            assert(p[p.len() - 2] == name[name.len() - 2]);
        }
        assert(name =~= seq!['.']);
    }
    assert(last_end(style, p) == p.len());
    assert forall|j: int| cut <= j < p.len() implies !cuts(style, false, #[trigger] p[j]) by {
        assert(p[j] == name[j - cut]);
    }
    lemma_back_to(style, false, p, low, cut, p.len() as int);
    assert(last_start(style, p) == cut);
    assert(base.len() == cut - 1);
    assert(body_end(style, false, p, low, cut) == body_end(style, false, p, low, cut - 1));
    assert(body_end(style, false, p, low, cut - 1) == cut - 1);
    assert(p.take(cut - 1) =~= base);
}

/// A path put below another has its components behind those of the other.
/// On Unix that holds of every path that does not begin at the root, with
/// whatever separators and `.` stand in it.
pub proof fn law_components_follow_those_above(base: Seq<char>, tail: Seq<char>)
    requires
        base.len() > 0,
        !(tail.len() > 0 && tail[0] == '/'),
    ensures
        components(Style::Unix, base + seq!['/'] + tail) == components(Style::Unix, base) + kept(
            text::split(tail, '/'),
            false,
            false,
        ),
{
    let style = Style::Unix;
    let p = base + seq!['/'] + tail;
    let root = rooted(style, base);
    assert(p[0] == base[0]);
    let from = if root {
        1int
    } else {
        0int
    };
    let body = base.skip(from);
    assert(p.skip(from) =~= body + seq!['/'] + tail);
    lemma_split_in_two(body, tail);
    text::lemma_split_pieces(body, '/');
    lemma_kept_in_two(text::split(body, '/'), text::split(tail, '/'), !root);
    let head: Seq<Seq<char>> = if root {
        seq![seq!['/']]
    } else {
        Seq::empty()
    };
    assert(components(style, p) =~= components(style, base) + kept(
        text::split(tail, '/'),
        false,
        false,
    ));
}

proof fn lemma_split_in_two(a: Seq<char>, b: Seq<char>)
    ensures
        text::split(a + seq!['/'] + b, '/') == text::split(a, '/') + text::split(b, '/'),
    decreases a.len(),
{
    let all = a + seq!['/'] + b;
    text::lemma_seek(a, '/', 0);
    let at = text::seek(a, '/', 0);
    if at < a.len() {
        let rest = a.skip(at + 1);
        lemma_split_in_two(rest, b);
        text::lemma_split_at(all, '/', at);
        assert(all.take(at) =~= a.take(at));
        assert(all.skip(at + 1) =~= rest + seq!['/'] + b);
        assert(seq![a.take(at)] + (text::split(rest, '/') + text::split(b, '/')) =~= (seq![
            a.take(at),
        ] + text::split(rest, '/')) + text::split(b, '/'));
    } else {
        text::lemma_split_at(all, '/', a.len() as int);
        text::lemma_split_whole(a, '/');
        assert(all.take(a.len() as int) =~= a);
        assert(all.skip(a.len() as int + 1) =~= b);
    }
}

proof fn lemma_kept_in_two(a: Seq<Seq<char>>, b: Seq<Seq<char>>, leading: bool)
    requires
        a.len() > 0,
    ensures
        kept(a + b, leading, false) == kept(a, leading, false) + kept(b, false, false),
    decreases a.len(),
{
    let all = a + b;
    assert(all.skip(1) =~= a.skip(1) + b);
    if a.len() == 1 {
        assert(a.skip(1) =~= Seq::<Seq<char>>::empty());
        assert(kept(a.skip(1), false, false) =~= Seq::<Seq<char>>::empty());
        assert(all.skip(1) =~= b);
    } else {
        lemma_kept_in_two(a.skip(1), b, false);
    }
    assert(kept(all, leading, false) =~= kept(a, leading, false) + kept(b, false, false));
}

/// An absolute path put below another replaces it, and a relative one stands
/// behind it, as it is.
pub proof fn law_a_path_below_another(base: Seq<char>, tail: Seq<char>)
    ensures
        tail.len() > 0 && tail[0] == '/' ==> joined(Style::Unix, base, tail) == tail,
        !(tail.len() > 0 && tail[0] == '/') && base.len() > 0 && base.last() != '/' ==> joined(
            Style::Unix,
            base,
            tail,
        ) == base + seq!['/'] + tail,
        !(tail.len() > 0 && tail[0] == '/') && (base.len() == 0 || base.last() == '/') ==> joined(
            Style::Unix,
            base,
            tail,
        ) == base + tail,
{
    assert(base.push('/') + tail =~= base + seq!['/'] + tail);
}

/// On Unix two paths are the same exactly where their components are, and a
/// path is made of its root, where it has one, and its names: a name alone is
/// one, and `.` behind something is none.
pub proof fn law_unix_paths_are_their_components(a: Seq<char>, b: Seq<char>, name: Seq<char>)
    ensures
        same(Style::Unix, a, b) <==> components(Style::Unix, a) == components(Style::Unix, b),
        name.len() > 0 && !name.contains('/') ==> components(Style::Unix, name) == seq![name],
        name.len() > 0 && !name.contains('/') ==> components(Style::Unix, seq!['/'] + name)
            == if name == seq!['.'] {
            seq![seq!['/']]
        } else {
            seq![seq!['/'], name]
        },
        components(Style::Unix, Seq::empty()).len() == 0,
        kept(text::split(seq!['.'], '/'), false, false).len() == 0,
        kept(text::split(Seq::empty(), '/'), false, false).len() == 0,
{
    let none = Seq::<Seq<char>>::empty();
    let style = Style::Unix;
    assert(none + unprefixed(style, a) =~= unprefixed(style, a));
    assert(none + unprefixed(style, b) =~= unprefixed(style, b));
    let dot = seq!['.'];
    let empty = Seq::<char>::empty();
    text::lemma_split_whole(dot, '/');
    text::lemma_split_whole(empty, '/');
    assert(seq![dot].skip(1) =~= none);
    assert(seq![empty].skip(1) =~= none);
    assert(kept(none, false, false) =~= none);
    assert(empty.skip(0) =~= empty);
    assert(components(style, empty) =~= none);
    if name.len() > 0 && !name.contains('/') {
        assert forall|j: int| 0 <= j < name.len() implies name[j] != '/' by {
            assert(name.contains(name[j]));
        }
        text::lemma_split_whole(name, '/');
        assert(seq![name].skip(1) =~= none);
        assert(name.skip(0) =~= name);
        assert(kept(seq![name], true, false) =~= seq![name]);
        assert(components(style, name) =~= seq![name]);
        let p = seq!['/'] + name;
        assert(p.skip(1) =~= name);
        assert(kept(seq![name], false, false) =~= if name == seq!['.'] {
            none
        } else {
            seq![name]
        });
        assert(components(style, p) =~= if name == seq!['.'] {
            seq![seq!['/']]
        } else {
            seq![seq!['/'], name]
        });
    }
}

/// Of two Unix paths the one comes first that has the lesser name where they
/// first differ, or that ends there.
pub proof fn law_paths_are_ordered_by_their_names(a: Seq<char>, b: Seq<char>, k: int)
    requires
        0 <= k <= components(Style::Unix, a).len(),
        k < components(Style::Unix, b).len(),
        components(Style::Unix, a).take(k) == components(Style::Unix, b).take(k),
    ensures
        k == components(Style::Unix, a).len() ==> precedes(Style::Unix, a, b),
        k < components(Style::Unix, a).len() ==> {
            let (x, y) = (components(Style::Unix, a)[k], components(Style::Unix, b)[k]);
            is_name(Style::Unix, x) && is_name(Style::Unix, y) && x != y ==> (precedes(
                Style::Unix,
                a,
                b,
            ) <==> text::before(x, y))
        },
{
    let style = Style::Unix;
    let none = Seq::<Seq<char>>::empty();
    assert(none + unprefixed(style, a) =~= unprefixed(style, a));
    assert(none + unprefixed(style, b) =~= unprefixed(style, b));
    lemma_past_the_same(style, keys(style, a), keys(style, b), k);
}

proof fn lemma_past_the_same(style: Style, a: Seq<Seq<char>>, b: Seq<Seq<char>>, k: int)
    requires
        0 <= k <= a.len(),
        k <= b.len(),
        a.take(k) == b.take(k),
    ensures
        parts_before(style, a, b) == parts_before(style, a.skip(k), b.skip(k)),
    decreases k,
{
    if k == 0 {
        assert(a.skip(0) =~= a);
        assert(b.skip(0) =~= b);
    } else {
        assert(a.take(k)[0] == a[0] && b.take(k)[0] == b[0]);
        let (x, y) = (a.skip(1), b.skip(1));
        assert(x.take(k - 1) =~= a.take(k).skip(1));
        assert(y.take(k - 1) =~= b.take(k).skip(1));
        lemma_past_the_same(style, x, y, k - 1);
        assert(x.skip(k - 1) =~= a.skip(k));
        assert(y.skip(k - 1) =~= b.skip(k));
    }
}

} // verus!
