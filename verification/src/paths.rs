//! Turning a path into one a person would write down.
//!
//! Lexical: it works on a path that does not exist and leaves symbolic links
//! alone, and it does not show the prefix by which Windows is told to skip its
//! own parsing.

use vstd::prelude::*;
use crate::pathname;
use crate::pathname::Style;
use crate::text;
use crate::text::chars;

verus! {

broadcast use vstd::string::group_string_axioms;

/// Components of a Unix path with `.` and `..` folded away: above the root is
/// the root, and a path that starts above where it stands keeps that.
pub open spec fn folded(parts: Seq<Seq<char>>) -> Seq<Seq<char>>
    decreases parts.len(),
{
    if parts.len() == 0 {
        Seq::empty()
    } else {
        let front = folded(parts.drop_last());
        let part = parts.last();
        if part == seq!['.'] {
            front
        } else if part == seq!['.', '.'] {
            if front.len() > 0 && pathname::is_name(Style::Unix, front.last()) {
                front.drop_last()
            } else if front.len() > 0 && front.last() == seq!['/'] {
                front
            } else {
                front.push(part)
            }
        } else {
            front.push(part)
        }
    }
}

/// Components written as a Unix path.
pub open spec fn written(parts: Seq<Seq<char>>) -> Seq<char> {
    if parts.len() > 0 && parts[0] == seq!['/'] {
        seq!['/'] + text::joined_by(parts.skip(1), '/')
    } else {
        text::joined_by(parts, '/')
    }
}

/// The path that components of a Windows path make when they are followed one
/// by one. Above the root or the prefix is the same root or prefix, and a path
/// that starts above where it stands keeps that.
pub open spec fn climbed(parts: Seq<Seq<char>>) -> Seq<char>
    decreases parts.len(),
{
    if parts.len() == 0 {
        Seq::empty()
    } else {
        let front = climbed(parts.drop_last());
        let part = parts.last();
        if part == seq!['.'] {
            front
        } else if part == seq!['.', '.'] && pathname::file_name(Style::Windows, front) is Some {
            pathname::parent(Style::Windows, front)->0
        } else if part == seq!['.', '.'] && pathname::at_root(Style::Windows, front) {
            front
        } else {
            pathname::joined(Style::Windows, front, part)
        }
    }
}

/// A path with `.` and `..` folded away.
pub open spec fn tidy(style: Style, path: Seq<char>) -> Seq<char> {
    match style {
        Style::Unix => written(folded(pathname::components(style, path))),
        Style::Windows => climbed(pathname::components(style, path)),
    }
}

proof fn lemma_part_literals()
    ensures
        "/"@ == seq!['/'],
        "."@ == seq!['.'],
        ".."@ == seq!['.', '.'],
{
    reveal_strlit("/");
    reveal_strlit(".");
    reveal_strlit("..");
    assert("/"@ =~= seq!['/']);
    assert("."@ =~= seq!['.']);
    assert(".."@ =~= seq!['.', '.']);
}

/// Fold away `.` and `..` so a path bar shows what a person would write.
pub fn tidied(style: Style, path: &str) -> (r: String)
    ensures
        r@ == tidy(style, path@),
{
    let parts: Vec<String> = pathname::components_of(style, path);
    match style {
        Style::Unix => fold(&parts),
        Style::Windows => climb(&parts),
    }
}

fn climb(parts: &Vec<String>) -> (r: String)
    ensures
        r@ == climbed(text::views(parts@)),
{
    let ghost all = text::views(parts@);
    let mut out: String = String::new();
    let mut i: usize = 0;
    proof {
        lemma_part_literals();
        assert(all.take(0) =~= Seq::<Seq<char>>::empty());
        assert(out@ =~= Seq::<char>::empty());
    }
    while i < parts.len()
        invariant
            i <= parts@.len(),
            all == text::views(parts@),
            out@ == climbed(all.take(i as int)),
            "."@ == seq!['.'],
            ".."@ == seq!['.', '.'],
        decreases parts@.len() - i,
    {
        proof {
            assert(all.take(i + 1).drop_last() =~= all.take(i as int));
            assert(all.take(i + 1).last() == parts@[i as int]@);
        }
        let part: &str = parts[i].as_str();
        if text::same(part, "..") {
            if pathname::file_name_of(Style::Windows, out.as_str()).is_some() {
                if let Some(above) = pathname::parent_of(Style::Windows, out.as_str()) {
                    out = above;
                }
            } else if !pathname::ends_at_root(Style::Windows, out.as_str()) {
                out = pathname::join(Style::Windows, out.as_str(), part);
            }
        } else if !text::same(part, ".") {
            out = pathname::join(Style::Windows, out.as_str(), part);
        }
        i += 1;
    }
    assert(all.take(i as int) =~= all);
    out
}

fn fold(parts: &Vec<String>) -> (r: String)
    ensures
        r@ == written(folded(text::views(parts@))),
{
    let ghost all = text::views(parts@);
    let mut out: Vec<String> = Vec::new();
    let mut i: usize = 0;
    proof {
        lemma_part_literals();
        assert(all.take(0) =~= Seq::<Seq<char>>::empty());
        assert(text::views(out@) =~= Seq::empty());
    }
    while i < parts.len()
        invariant
            i <= parts@.len(),
            all == text::views(parts@),
            text::views(out@) == folded(all.take(i as int)),
            "/"@ == seq!['/'],
            "."@ == seq!['.'],
            ".."@ == seq!['.', '.'],
        decreases parts@.len() - i,
    {
        let ghost was = text::views(out@);
        proof {
            assert(all.take(i + 1).drop_last() =~= all.take(i as int));
            assert(all.take(i + 1).last() == parts@[i as int]@);
        }
        let part: &str = parts[i].as_str();
        let count: usize = out.len();
        if text::same(part, "..") {
            let (climbs, stays): (bool, bool) = if count > 0 {
                let last: &str = out[count - 1].as_str();
                assert(last@ == was.last());
                let root: bool = text::same(last, "/");
                let name: bool = !root && !text::same(last, ".") && !text::same(last, "..");
                (name, root)
            } else {
                (false, false)
            };
            if climbs {
                out.pop();
                assert(text::views(out@) =~= was.drop_last());
            } else if !stays {
                out.push(parts[i].clone());
                assert(text::views(out@) =~= was.push(parts@[i as int]@));
            }
        } else if !text::same(part, ".") {
            out.push(parts[i].clone());
            assert(text::views(out@) =~= was.push(parts@[i as int]@));
        }
        i += 1;
    }
    assert(all.take(i as int) =~= all);
    write_out(&out)
}

fn write_out(parts: &Vec<String>) -> (r: String)
    ensures
        r@ == written(text::views(parts@)),
{
    proof {
        lemma_part_literals();
    }
    let ghost all = text::views(parts@);
    if parts.len() > 0 {
        assert(all[0] == parts@[0]@);
    }
    if parts.len() > 0 && text::same(parts[0].as_str(), "/") {
        let mut rest: Vec<String> = Vec::new();
        let mut i: usize = 1;
        while i < parts.len()
            invariant
                1 <= i <= parts@.len(),
                all == text::views(parts@),
                text::views(rest@) =~= all.subrange(1, i as int),
            decreases parts@.len() - i,
        {
            let ghost was = text::views(rest@);
            rest.push(parts[i].clone());
            assert(text::views(rest@) =~= was.push(all[i as int]));
            i += 1;
        }
        assert(text::views(rest@) =~= all.skip(1));
        text::concat2("/", text::join_with(&rest, '/').as_str())
    } else {
        text::join_with(parts, '/')
    }
}

/// Whether a text begins with a drive: a letter and a colon.
pub open spec fn begins_with_drive(s: Seq<char>) -> bool {
    s.len() >= 2 && ('a' <= s[0] <= 'z' || 'A' <= s[0] <= 'Z') && s[1] == ':'
}

/// A verbatim path without its prefix, where there is another spelling.
pub open spec fn plain_spelling(path: Seq<char>) -> Option<Seq<char>> {
    if text::begins(path, "\\\\?\\UNC\\"@) {
        Some("\\\\"@ + path.skip(8))
    } else if text::begins(path, "\\\\?\\"@) && begins_with_drive(path.skip(4)) {
        Some(path.skip(4))
    } else {
        None
    }
}

/// Names that Win32 takes for devices, in small letters.
pub open spec fn device_names() -> Seq<Seq<char>> {
    seq![
        "con"@, "prn"@, "aux"@, "nul"@, "conin$"@, "conout$"@, "com1"@, "com2"@, "com3"@, "com4"@,
        "com5"@, "com6"@, "com7"@, "com8"@, "com9"@, "lpt1"@, "lpt2"@, "lpt3"@, "lpt4"@, "lpt5"@,
        "lpt6"@, "lpt7"@, "lpt8"@, "lpt9"@,
    ]
}

/// What of a component says whether it is a device: what stands in front of
/// the first `.`, without spaces at its end, in small letters.
pub open spec fn device_part(part: Seq<char>) -> Seq<char> {
    text::ascii_lower(text::strip_end(part.take(text::seek(part, '.', 0)), ' '))
}

/// Whether Win32 would take a component for something else than it says: it
/// drops dots and spaces at the end, has `/` part components, and takes some
/// names for devices, whatever their ending.
pub open spec fn reinterpreted(part: Seq<char>) -> bool {
    part.len() > 0 && (part.last() == '.' || part.last() == ' ' || part.contains('/')
        || device_names().contains(device_part(part)))
}

/// Whether a path only means what it says because of its prefix: it is longer
/// than Win32 takes, or has a component that Win32 would reinterpret.
pub open spec fn needs_prefix(plain: Seq<char>) -> bool {
    plain.len() >= 260 || exists|i: int|
        0 <= i < text::split(plain, '\\').len() && reinterpreted(
            #[trigger] text::split(plain, '\\')[i],
        )
}

/// A path without the prefix of a verbatim one, where it is safe to leave it
/// out: a path that needs it keeps it.
pub open spec fn bare(path: Seq<char>) -> Seq<char> {
    match plain_spelling(path) {
        Some(plain) => if needs_prefix(plain) {
            path
        } else {
            plain
        },
        None => path,
    }
}

fn is_reinterpreted(part: &str) -> (r: bool)
    ensures
        r == reinterpreted(part@),
{
    let s: Vec<char> = chars(part);
    let len: usize = s.len();
    if len == 0 {
        return false;
    }
    if s[len - 1] == '.' || s[len - 1] == ' ' {
        return true;
    }
    proof {
        text::lemma_seek(s@, '/', 0);
    }
    if let Some(at) = text::find_char(&s, '/', 0) {
        assert(s@[at as int] == '/');
        return true;
    }
    let list: Vec<&'static str> = vec![
        "con", "prn", "aux", "nul", "conin$", "conout$", "com1", "com2", "com3", "com4", "com5",
        "com6", "com7", "com8", "com9", "lpt1", "lpt2", "lpt3", "lpt4", "lpt5", "lpt6", "lpt7",
        "lpt8", "lpt9",
    ];
    assert(text::words(list@) =~= device_names());
    let end: usize = match text::find_char(&s, '.', 0) {
        Some(dot) => dot,
        None => len,
    };
    let front: String = text::part(&s, 0, end);
    assert(front@ =~= s@.take(text::seek(s@, '.', 0)));
    let name: String = text::strip_end_char(front.as_str(), ' ');
    text::listed(text::to_ascii_lower(name.as_str()).as_str(), &list)
}

fn must_keep_prefix(plain: &str) -> (r: bool)
    ensures
        r == needs_prefix(plain@),
{
    if chars(plain).len() >= 260 {
        return true;
    }
    let parts: Vec<String> = text::split_text(plain, '\\');
    let ghost all = text::split(plain@, '\\');
    let mut i: usize = 0;
    while i < parts.len()
        invariant
            i <= parts@.len(),
            all == text::views(parts@),
            all == text::split(plain@, '\\'),
            forall|k: int| 0 <= k < i ==> !reinterpreted(#[trigger] all[k]),
        decreases parts@.len() - i,
    {
        assert(all[i as int] == parts@[i as int]@);
        if is_reinterpreted(parts[i].as_str()) {
            return true;
        }
        i += 1;
    }
    false
}

/// Strip the `\\?\` a Windows verbatim path carries, where it is safe to:
/// where the path still means the same without it.
pub fn undecorated(path: &str) -> (r: String)
    ensures
        r@ == bare(path@),
{
    let s: Vec<char> = chars(path);
    proof {
        reveal_strlit("\\\\?\\UNC\\");
        reveal_strlit("\\\\?\\");
        reveal_strlit("\\\\");
    }
    let plain: String = if text::starts_with(path, "\\\\?\\UNC\\") {
        assert(s@.subrange(8, s@.len() as int) =~= s@.skip(8));
        text::concat2("\\\\", text::part(&s, 8, s.len()).as_str())
    } else if text::starts_with(path, "\\\\?\\") {
        assert(s@.subrange(4, s@.len() as int) =~= s@.skip(4));
        let drive: bool = s.len() >= 6 && (('a' <= s[4] && s[4] <= 'z') || ('A' <= s[4] && s[4]
            <= 'Z')) && s[5] == ':';
        if !drive {
            return path.to_owned();
        }
        text::part(&s, 4, s.len())
    } else {
        return path.to_owned();
    };
    if must_keep_prefix(plain.as_str()) {
        return path.to_owned();
    }
    plain
}

/// A path that is not absolute, resolved against another.
pub open spec fn from_there(style: Style, path: Seq<char>, from: Seq<char>) -> Seq<char> {
    if pathname::absolute(style, path) {
        path
    } else {
        pathname::joined(style, from, path)
    }
}

/// What to show, and what to hand back to the rest of the program. Relative
/// input is resolved against `from`, and the result is tidy.
pub fn resolved(style: Style, path: &str, from: &str) -> (r: String)
    ensures
        r@ == bare(tidy(style, from_there(style, path@, from@))),
{
    let whole: String = if pathname::is_absolute(style, path) {
        path.to_owned()
    } else {
        pathname::join(style, from, path)
    };
    undecorated(tidied(style, whole.as_str()).as_str())
}

/// A file of the program's own, in the directory where a user's settings are
/// kept; none where there is no such directory.
pub open spec fn own(
    style: Style,
    config_dir: Option<Seq<char>>,
    name: Seq<char>,
) -> Option<Seq<char>> {
    match config_dir {
        Some(dir) => Some(pathname::joined(style, pathname::joined(style, dir, "lost-commander"@), name)),
        None => None,
    }
}

/// Where a file of the program's own is kept.
pub fn own_file(style: Style, config_dir: Option<&str>, name: &str) -> (r: Option<String>)
    ensures
        text::optional(r) == own(style, text::maybe(config_dir), name@),
{
    match config_dir {
        Some(dir) => Some(pathname::join(style, pathname::join(style, dir, "lost-commander").as_str(), name)),
        None => None,
    }
}

// ---- laws -------------------------------------------------------------------------------------

/// Folding away `.` and `..` leaves no `.`, and `..` only at the start of a
/// path that is not at the root.
pub proof fn law_folding_leaves_no_dots(parts: Seq<Seq<char>>, i: int)
    requires
        0 <= i < folded(parts).len(),
    ensures
        folded(parts)[i] != seq!['.'],
        folded(parts)[i] == seq!['.', '.'] ==> forall|k: int|
            0 <= k < i ==> #[trigger] folded(parts)[k] == seq!['.', '.'],
    decreases parts.len(),
{
    if parts.len() > 0 {
        let front = folded(parts.drop_last());
        let out = folded(parts);
        if i < front.len() {
            law_folding_leaves_no_dots(parts.drop_last(), i);
            assert(out[i] == front[i]);
            if front[i] == seq!['.', '.'] {
                assert forall|k: int| 0 <= k < i implies #[trigger] out[k] == seq!['.', '.'] by {
                    assert(out[k] == front[k]);
                }
            }
        } else {
            assert(seq!['.', '.'][1] == '.');
            assert(seq!['.'].len() != seq!['.', '.'].len());
            if out[i] == seq!['.', '.'] && front.len() > 0 {
                law_folding_leaves_no_dots(parts.drop_last(), front.len() - 1);
                assert(front.last() == seq!['.', '.']);
                assert forall|k: int| 0 <= k < i implies #[trigger] out[k] == seq!['.', '.'] by {
                    assert(out[k] == front[k]);
                }
            }
        }
    }
}

/// Folding what is folded changes nothing.
pub proof fn law_folding_once_is_enough(parts: Seq<Seq<char>>)
    requires
        forall|i: int| 0 < i < parts.len() ==> #[trigger] parts[i] != seq!['/'],
    ensures
        folded(folded(parts)) == folded(parts),
{
    lemma_root_stays_first(parts);
    lemma_fold_fixed(folded(parts), folded(parts).len() as int, parts);
    assert(folded(parts).take(folded(parts).len() as int) =~= folded(parts));
}

proof fn lemma_root_stays_first(parts: Seq<Seq<char>>)
    requires
        forall|i: int| 0 < i < parts.len() ==> #[trigger] parts[i] != seq!['/'],
    ensures
        forall|i: int| 0 < i < folded(parts).len() ==> #[trigger] folded(parts)[i] != seq!['/'],
        folded(parts).len() <= parts.len(),
        parts.len() > 0 && parts[0] == seq!['/'] ==> folded(parts).len() > 0 && folded(parts)[0]
            == seq!['/'],
        folded(parts).len() > 0 && folded(parts)[0] == seq!['/'] ==> parts[0] == seq!['/'],
    decreases parts.len(),
{
    if parts.len() > 0 {
        let before = parts.drop_last();
        assert forall|i: int| 0 < i < before.len() implies #[trigger] before[i] != seq!['/'] by {
            assert(before[i] == parts[i]);
        }
        lemma_root_stays_first(before);
        let front = folded(before);
        let out = folded(parts);
        let part = parts.last();
        assert(part == parts[parts.len() - 1]);
        assert(seq!['/'][0] == '/' && seq!['.'][0] == '.' && seq!['.', '.'][0] == '.');
        if before.len() > 0 {
            assert(before[0] == parts[0]);
        }
        assert forall|i: int| 0 < i < out.len() implies #[trigger] out[i] != seq!['/'] by {
            if i < front.len() {
                assert(out[i] == front[i]);
            }
        }
    }
}

proof fn lemma_fold_fixed(done: Seq<Seq<char>>, to: int, parts: Seq<Seq<char>>)
    requires
        done == folded(parts),
        0 <= to <= done.len(),
        forall|i: int| 0 < i < done.len() ==> #[trigger] done[i] != seq!['/'],
        done.len() > 0 && done[0] == seq!['/'] ==> parts.len() > 0,
    ensures
        folded(done.take(to)) == done.take(to),
    decreases to,
{
    if to > 0 {
        lemma_fold_fixed(done, to - 1, parts);
        let head = done.take(to);
        assert(head.drop_last() =~= done.take(to - 1));
        assert(head.last() == done[to - 1]);
        law_folding_leaves_no_dots(parts, to - 1);
        if done[to - 1] == seq!['.', '.'] && to > 1 {
            assert(done[to - 2] == seq!['.', '.']);
            assert(done.take(to - 1).last() == seq!['.', '.']);
            assert(seq!['/'][0] == '/' && seq!['.', '.'][0] == '.');
        }
        assert(done.take(to - 1).push(done[to - 1]) =~= head);
    } else {
        assert(done.take(0) =~= Seq::<Seq<char>>::empty());
        assert(folded(done.take(0)) =~= Seq::empty());
    }
}

/// Whether a text can be a name between separators.
spec fn clean(part: Seq<char>) -> bool {
    part.len() > 0 && forall|j: int| 0 <= j < part.len() ==> part[j] != '/'
}

proof fn lemma_kept(pieces: Seq<Seq<char>>, leading: bool)
    ensures
        forall|i: int|
            0 <= i < pathname::kept(pieces, leading, false).len() ==> (#[trigger] pathname::kept(
                pieces,
                leading,
                false,
            )[i]).len() > 0 && pieces.contains(pathname::kept(pieces, leading, false)[i]),
    decreases pieces.len(),
{
    if pieces.len() > 0 {
        let rest = pieces.skip(1);
        let out = pathname::kept(pieces, leading, false);
        let tail = pathname::kept(rest, false, false);
        lemma_kept(rest, false);
        assert forall|i: int| 0 <= i < out.len() implies (#[trigger] out[i]).len() > 0
            && pieces.contains(out[i]) by {
            let k = if out.len() == tail.len() {
                i
            } else {
                i - 1
            };
            if k >= 0 {
                assert(out[i] == tail[k]);
                let j = choose|j: int| 0 <= j < rest.len() && rest[j] == tail[k];
                assert(pieces[j + 1] == out[i]);
            } else {
                assert(pieces[0] == out[i]);
            }
        }
    }
}

proof fn lemma_all_kept(pieces: Seq<Seq<char>>, leading: bool)
    requires
        forall|i: int|
            0 <= i < pieces.len() ==> (#[trigger] pieces[i]).len() > 0 && pieces[i] != seq!['.'],
    ensures
        pathname::kept(pieces, leading, false) == pieces,
    decreases pieces.len(),
{
    if pieces.len() > 0 {
        let rest = pieces.skip(1);
        assert forall|i: int| 0 <= i < rest.len() implies (#[trigger] rest[i]).len() > 0 && rest[i]
            != seq!['.'] by {
            assert(rest[i] == pieces[i + 1]);
        }
        lemma_all_kept(rest, false);
        assert(pieces =~= seq![pieces[0]] + rest);
    } else {
        assert(pathname::kept(pieces, leading, false) =~= pieces);
    }
}

/// The components of a Unix path are names without separators, but for a root
/// in front.
proof fn lemma_components_clean(path: Seq<char>)
    ensures
        ({
            let parts = pathname::components(Style::Unix, path);
            forall|i: int|
                0 <= i < parts.len() ==> clean(#[trigger] parts[i]) || (i == 0 && parts[i]
                    == seq!['/'])
        }),
{
    let parts = pathname::components(Style::Unix, path);
    let rooted = pathname::rooted(Style::Unix, path);
    let body = path.skip(if rooted {
        1int
    } else {
        0int
    });
    let pieces = text::split(body, '/');
    let names = pathname::kept(pieces, !rooted, false);
    lemma_kept(pieces, !rooted);
    text::lemma_split_pieces(body, '/');
    assert forall|i: int| 0 <= i < parts.len() implies clean(#[trigger] parts[i]) || (i == 0
        && parts[i] == seq!['/']) by {
        let k = if rooted {
            i - 1
        } else {
            i
        };
        if k >= 0 {
            assert(parts[i] == names[k]);
            let j = choose|j: int| 0 <= j < pieces.len() && pieces[j] == names[k];
            assert forall|l: int| 0 <= l < parts[i].len() implies parts[i][l] != '/' by {
                assert(pieces[j][l] != '/');
            }
        }
    }
}

proof fn lemma_folded_from(parts: Seq<Seq<char>>)
    ensures
        forall|i: int|
            0 <= i < folded(parts).len() ==> parts.contains(#[trigger] folded(parts)[i]),
    decreases parts.len(),
{
    if parts.len() > 0 {
        let front = parts.drop_last();
        let out = folded(parts);
        lemma_folded_from(front);
        assert forall|i: int| 0 <= i < out.len() implies parts.contains(#[trigger] out[i]) by {
            if i < folded(front).len() {
                assert(out[i] == folded(front)[i]);
                let j = choose|j: int| 0 <= j < front.len() && front[j] == out[i];
                assert(parts[j] == out[i]);
            } else {
                assert(parts[parts.len() - 1] == out[i]);
            }
        }
    }
}

/// Folded components, written out, read back as they were.
proof fn lemma_written_reads_back(names: Seq<Seq<char>>)
    requires
        forall|i: int|
            0 <= i < names.len() ==> (clean(#[trigger] names[i]) && names[i] != seq!['.']) || (i
                == 0 && names[i] == seq!['/']),
    ensures
        pathname::components(Style::Unix, written(names)) == names,
{
    let out = written(names);
    let root = names.len() > 0 && names[0] == seq!['/'];
    let rest = if root {
        names.skip(1)
    } else {
        names
    };
    assert(seq!['/'][0] == '/');
    assert forall|i: int| 0 <= i < rest.len() implies clean(#[trigger] rest[i]) && rest[i]
        != seq!['.'] by {
        if root {
            assert(rest[i] == names[i + 1]);
        }
    }
    let body = text::joined_by(rest, '/');
    if rest.len() > 0 {
        assert forall|i: int, j: int|
            #![trigger rest[i][j]]
            0 <= i < rest.len() && 0 <= j < rest[i].len() implies rest[i][j] != '/' by {
            assert(clean(rest[i]));
        }
        text::lemma_joined_splits(rest, '/');
        lemma_all_kept(rest, !root);
        if !root {
            text::lemma_split_pieces(body, '/');
            assert(rest[0].len() > 0);
            if body.len() > 0 && body[0] == '/' {
                text::lemma_split_at(body, '/', 0);
                assert(body.take(0) =~= Seq::<char>::empty());
                assert(rest[0] == body.take(0));
            }
        }
    } else {
        assert(body =~= Seq::<char>::empty());
        text::lemma_split_whole(body, '/');
        let pieces = seq![body];
        assert(pieces.skip(1) =~= Seq::<Seq<char>>::empty());
        assert(pathname::kept(pieces.skip(1), false, false) =~= Seq::<Seq<char>>::empty());
        assert(pathname::kept(pieces, !root, false) =~= Seq::<Seq<char>>::empty());
    }
    if root {
        assert(out.skip(1) =~= body);
        assert(names =~= seq![seq!['/']] + rest);
    } else {
        assert(out.skip(0) =~= body);
        assert(Seq::<Seq<char>>::empty() + rest =~= names);
    }
    assert(Seq::<Seq<char>>::empty() + pathname::unprefixed(Style::Unix, out)
        =~= pathname::unprefixed(Style::Unix, out));
}

/// A tidy Unix path is left as it is.
pub proof fn law_tidying_once_is_enough(path: Seq<char>)
    ensures
        tidy(Style::Unix, tidy(Style::Unix, path)) == tidy(Style::Unix, path),
{
    let parts = pathname::components(Style::Unix, path);
    let names = folded(parts);
    lemma_components_clean(path);
    lemma_folded_from(parts);
    assert forall|i: int| 0 < i < parts.len() implies #[trigger] parts[i] != seq!['/'] by {
        assert(seq!['/'][0] == '/');
        assert(clean(parts[i]));
    }
    lemma_root_stays_first(parts);
    assert forall|i: int| 0 <= i < names.len() implies (clean(#[trigger] names[i]) && names[i]
        != seq!['.']) || (i == 0 && names[i] == seq!['/']) by {
        law_folding_leaves_no_dots(parts, i);
        let j = choose|j: int| 0 <= j < parts.len() && parts[j] == names[i];
        assert(clean(parts[j]) || parts[j] == seq!['/']);
    }
    lemma_written_reads_back(names);
    law_folding_once_is_enough(parts);
}

proof fn lemma_root_stays(parts: Seq<Seq<char>>)
    requires
        parts.len() > 0,
        parts[0] == seq!['/'],
    ensures
        folded(parts).len() > 0,
        folded(parts)[0] == seq!['/'],
    decreases parts.len(),
{
    assert(seq!['/'][0] == '/' && seq!['.'][0] == '.' && seq!['.', '.'][0] == '.');
    if parts.len() == 1 {
        assert(folded(parts.drop_last()) =~= Seq::empty());
    } else {
        let front = parts.drop_last();
        assert(front[0] == parts[0]);
        lemma_root_stays(front);
    }
}

/// A pane always knows where it is: whatever is asked for on Unix, from an
/// absolute directory it resolves to an absolute path.
pub proof fn law_resolving_gives_an_absolute_path(path: Seq<char>, from: Seq<char>)
    requires
        pathname::absolute(Style::Unix, from),
    ensures
        pathname::absolute(
            Style::Unix,
            bare(tidy(Style::Unix, from_there(Style::Unix, path, from))),
        ),
{
    let whole = from_there(Style::Unix, path, from);
    assert(pathname::absolute(Style::Unix, whole));
    let parts = pathname::components(Style::Unix, whole);
    assert(parts[0] == seq!['/']);
    lemma_root_stays(parts);
    let out = tidy(Style::Unix, whole);
    assert(out[0] == '/');
    reveal_strlit("\\\\?\\UNC\\");
    reveal_strlit("\\\\?\\");
    assert("\\\\?\\UNC\\"@[0] == '\\' && "\\\\?\\"@[0] == '\\');
    if text::begins(out, "\\\\?\\UNC\\"@) {
        assert(out.take("\\\\?\\UNC\\"@.len() as int)[0] == '\\');
    }
    if text::begins(out, "\\\\?\\"@) {
        assert(out.take("\\\\?\\"@.len() as int)[0] == '\\');
    }
}

/// Whether a path begins at the root of a drive.
pub open spec fn on_a_drive(path: Seq<char>) -> bool {
    pathname::prefix(Style::Windows, path) == Some((pathname::Prefix::Disk, 2int))
        && pathname::rooted(Style::Windows, path)
}

proof fn lemma_on_a_drive(path: Seq<char>)
    ensures
        on_a_drive(path) == (path.len() >= 3 && pathname::drive_at(path, 0)
            && pathname::separates(Style::Windows, path[2])),
        on_a_drive(path) ==> pathname::absolute(Style::Windows, path) && !pathname::verbatim(
            Style::Windows,
            path,
        ) && bare(path) == path,
{
    reveal_strlit("\\\\?\\UNC\\");
    reveal_strlit("\\\\?\\");
    if pathname::drive_at(path, 0) {
        assert(path.take(8)[0] == path[0] || path.len() < 8);
        assert(path.take(4)[0] == path[0] || path.len() < 4);
        assert("\\\\?\\UNC\\"@[0] == '\\' && "\\\\?\\"@[0] == '\\');
        assert(!text::begins(path, "\\\\?\\UNC\\"@));
        assert(!text::begins(path, "\\\\?\\"@));
    }
}

proof fn lemma_below_a_drive(base: Seq<char>, tail: Seq<char>)
    requires
        on_a_drive(base),
        pathname::prefix(Style::Windows, tail) is None,
    ensures
        on_a_drive(pathname::joined(Style::Windows, base, tail)),
{
    let out = pathname::joined(Style::Windows, base, tail);
    lemma_on_a_drive(base);
    lemma_on_a_drive(out);
    if pathname::rooted(Style::Windows, tail) {
        assert(out =~= base.take(2) + tail);
        assert(out[2] == tail[0]);
    } else {
        assert(out[2] == base[2]);
    }
    assert(out[0] == base[0] && out[1] == base[1]);
}

proof fn lemma_above_on_a_drive(path: Seq<char>)
    requires
        on_a_drive(path),
    ensures
        pathname::parent(Style::Windows, path) matches Some(above) ==> on_a_drive(above),
{
    let low = pathname::body_start(Style::Windows, path);
    let end = pathname::last_end(Style::Windows, path);
    if let Some(above) = pathname::parent(Style::Windows, path) {
        let from = pathname::last_start(Style::Windows, path);
        pathname::lemma_last_in_body(Style::Windows, path);
        lemma_on_a_drive(path);
        lemma_on_a_drive(above);
        assert(above[0] == path[0] && above[1] == path[1] && above[2] == path[2]);
    }
}

/// Whether nothing past the root of a drive looks like a drive.
pub open spec fn names_no_drive(parts: Seq<Seq<char>>) -> bool {
    forall|i: int|
        2 <= i < parts.len() ==> pathname::prefix(Style::Windows, #[trigger] parts[i]) is None
}

proof fn lemma_climbing_on_a_drive(parts: Seq<Seq<char>>)
    requires
        parts.len() >= 2,
        parts[0].len() == 2 && pathname::drive_at(parts[0], 0),
        parts[1] == seq!['\\'],
        names_no_drive(parts),
    ensures
        on_a_drive(climbed(parts)),
    decreases parts.len(),
{
    let front = parts.drop_last();
    if parts.len() == 2 {
        let drive = parts[0];
        let first = front.drop_last();
        assert(first =~= Seq::<Seq<char>>::empty());
        assert(climbed(first) =~= Seq::<char>::empty());
        assert(front.last() == drive);
        assert(drive[0] != '.');
        assert(climbed(front) == drive);
        let root = seq!['\\'];
        assert(parts.last() == root);
        assert(root[0] == '\\' && root.len() == 1);
        let out = climbed(parts);
        assert(out =~= drive + root);
        lemma_on_a_drive(out);
    } else {
        assert forall|i: int| 2 <= i < front.len() implies pathname::prefix(
            Style::Windows,
            #[trigger] front[i],
        ) is None by {
            assert(front[i] == parts[i]);
        }
        assert(front[0] == parts[0] && front[1] == parts[1]);
        lemma_climbing_on_a_drive(front);
        assert(parts.last() == parts[parts.len() - 1]);
        lemma_below_a_drive(climbed(front), parts.last());
        lemma_above_on_a_drive(climbed(front));
    }
}

/// A pane always knows where it is on Windows too: what is asked for there
/// from a directory on a drive, be it a path on a drive or one without a
/// prefix, resolves to an absolute path. That leaves out a path with a name
/// in it that looks like a drive.
pub proof fn law_resolving_stays_on_a_drive(path: Seq<char>, from: Seq<char>)
    requires
        on_a_drive(from),
        on_a_drive(path) || pathname::prefix(Style::Windows, path) is None,
        names_no_drive(
            pathname::components(Style::Windows, from_there(Style::Windows, path, from)),
        ),
    ensures
        pathname::absolute(
            Style::Windows,
            bare(tidy(Style::Windows, from_there(Style::Windows, path, from))),
        ),
{
    let whole = from_there(Style::Windows, path, from);
    if pathname::absolute(Style::Windows, path) {
        assert(on_a_drive(whole));
    } else {
        lemma_on_a_drive(path);
        lemma_below_a_drive(from, path);
    }
    lemma_on_a_drive(whole);
    let parts = pathname::components(Style::Windows, whole);
    assert(parts[0] == whole.take(2));
    assert(parts[0][0] == whole[0] && parts[0][1] == whole[1]);
    assert(parts[1] == pathname::unprefixed(Style::Windows, whole)[0]);
    lemma_climbing_on_a_drive(parts);
    lemma_on_a_drive(climbed(parts));
}

/// Folding goes name by name: a name is kept, `.` says nothing, and `..` takes
/// the name in front of it away; at the root it stays there, and where there
/// is nothing to take it is kept.
pub proof fn law_dots_fold_away(parts: Seq<Seq<char>>, name: Seq<char>)
    requires
        name != seq!['/'],
        name != seq!['.'],
        name != seq!['.', '.'],
    ensures
        folded(parts.push(name)) == folded(parts).push(name),
        folded(parts.push(seq!['.'])) == folded(parts),
        folded(parts.push(name).push(seq!['.', '.'])) == folded(parts),
        folded(seq![seq!['/'], seq!['.', '.']]) == seq![seq!['/']],
        folded(seq![seq!['.', '.']]) == seq![seq!['.', '.']],
{
    let up = seq!['.', '.'];
    let dot = seq!['.'];
    let root = seq!['/'];
    assert(up.len() == 2 && dot.len() == 1 && root[0] == '/' && dot[0] == '.');
    assert(parts.push(name).drop_last() =~= parts);
    assert(parts.push(dot).drop_last() =~= parts);
    let more = parts.push(name).push(up);
    assert(more.drop_last() =~= parts.push(name));
    let front = folded(parts.push(name));
    assert(front == folded(parts).push(name));
    assert(front.last() == name);
    assert(front.drop_last() =~= folded(parts));
    assert(more.last() == up);
    assert(folded(more) == front.drop_last());
    let none = Seq::<Seq<char>>::empty();
    let two = seq![root, up];
    assert(two.drop_last() =~= seq![root]);
    assert(seq![root].drop_last() =~= none);
    assert(folded(none) =~= none);
    assert(folded(seq![root]) =~= seq![root]);
    assert(two.last() == up);
    assert(seq![up].drop_last() =~= none);
    assert(folded(seq![up]) =~= seq![up]);
}

/// A path without the prefix of a verbatim one is left alone, and so is one
/// that is longer than Win32 takes; a path on a drive that is neither long nor
/// reinterpreted loses the prefix, and nothing else.
pub proof fn law_only_a_prefix_is_taken_off(s: Seq<char>)
    ensures
        !text::begins(s, seq!['\\', '\\', '?', '\\']) ==> bare(s) == s,
        s.len() >= 2 && ('a' <= s[0] <= 'z' || 'A' <= s[0] <= 'Z') && s[1] == ':' ==> bare(
            seq!['\\', '\\', '?', '\\'] + s,
        ) == if needs_prefix(s) {
            seq!['\\', '\\', '?', '\\'] + s
        } else {
            s
        },
        s.len() >= 260 ==> needs_prefix(s),
{
    reveal_strlit("\\\\?\\UNC\\");
    reveal_strlit("\\\\?\\");
    let short = seq!['\\', '\\', '?', '\\'];
    assert("\\\\?\\"@ =~= short);
    if text::begins(s, "\\\\?\\UNC\\"@) {
        assert(s.subrange(0, 4) =~= s.subrange(0, 8).subrange(0, 4));
        assert("\\\\?\\UNC\\"@.subrange(0, 4) =~= short);
    }
    let whole = short + s;
    assert(whole.subrange(0, 4) =~= short);
    assert(whole.skip(4) =~= s);
    if text::begins(whole, "\\\\?\\UNC\\"@) && s.len() >= 2 {
        assert(whole.subrange(0, 8)[5] == 'N');
        assert(whole[5] == s[1]);
    }
}

} // verus!
