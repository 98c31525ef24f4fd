//! Small, immediate file operations: what they are allowed to do, and what
//! they come to.

use vstd::prelude::*;
use crate::encoding;
use crate::encoding::{Detected, Encoding};
use crate::pathname;
use crate::pathname::Style;
use crate::text;
use crate::text::chars;
use crate::trouble::{Trouble, TroubleKind};

verus! {

broadcast use vstd::string::group_string_axioms;

/// Why a name would escape the target directory, or be none.
pub open spec fn name_trouble(name: Seq<char>) -> Option<Seq<char>> {
    let trimmed = text::trimmed(name);
    if trimmed.len() == 0 {
        Some("name must not be empty"@)
    } else if trimmed == "."@ || trimmed == ".."@ {
        Some("reserved name"@)
    } else if trimmed.contains('/') || trimmed.contains('\\') {
        Some("name must not contain path separators"@)
    } else {
        None
    }
}

fn invalid(message: &str) -> (r: Trouble)
    ensures
        r.kind == TroubleKind::InvalidInput,
        r.message@ == message@,
{
    Trouble::new(TroubleKind::InvalidInput, message)
}

/// Reject names that would escape the target directory.
pub fn validate_name(name: &str) -> (r: Result<(), Trouble>)
    ensures
        match r {
            Ok(_) => name_trouble(name@) is None,
            Err(trouble) => trouble.kind == TroubleKind::InvalidInput && name_trouble(name@)
                == Some(trouble.message@),
        },
{
    let trimmed: &str = text::trim(name);
    if trimmed.is_empty() {
        return Err(invalid("name must not be empty"));
    }
    if text::same(trimmed, ".") || text::same(trimmed, "..") {
        return Err(invalid("reserved name"));
    }
    let s: Vec<char> = chars(trimmed);
    let mut i: usize = 0;
    while i < s.len()
        invariant
            i <= s@.len(),
            s@ == text::trimmed(name@),
            s@.len() > 0,
            s@ != "."@,
            s@ != ".."@,
            forall|j: int| 0 <= j < i ==> s@[j] != '/' && s@[j] != '\\',
        decreases s@.len() - i,
    {
        if s[i] == '/' || s[i] == '\\' {
            assert(s@.contains(s@[i as int]));
            return Err(invalid("name must not contain path separators"));
        }
        i += 1;
    }
    assert(!s@.contains('/'));
    assert(!s@.contains('\\'));
    Ok(())
}

/// Where a rename leads: the new name in the directory that the file is in.
pub open spec fn renamed(style: Style, src: Seq<char>, new_name: Seq<char>) -> Option<Seq<char>> {
    match pathname::parent(style, src) {
        Some(parent) => Some(pathname::joined(style, parent, text::trimmed(new_name))),
        None => None,
    }
}

/// Where a rename in place would lead, or why it is refused.
pub fn rename_target(style: Style, src: &str, new_name: &str) -> (r: Result<String, Trouble>)
    ensures
        match r {
            Ok(target) => name_trouble(new_name@) is None && renamed(style, src@, new_name@) == Some(
                target@,
            ),
            Err(trouble) => trouble.kind == TroubleKind::InvalidInput && if name_trouble(
                new_name@,
            ) is Some {
                Some(trouble.message@) == name_trouble(new_name@)
            } else {
                renamed(style, src@, new_name@) is None && trouble.message@
                    == "cannot rename the filesystem root"@
            },
        },
{
    if let Err(trouble) = validate_name(new_name) {
        return Err(trouble);
    }
    match pathname::parent_of(style, src) {
        Some(parent) => Ok(pathname::join(style, parent.as_str(), text::trim(new_name))),
        None => Err(invalid("cannot rename the filesystem root")),
    }
}

/// What is said where a name is taken.
pub open spec fn taken(name: Seq<char>) -> Seq<char> {
    name + " already exists"@
}

/// Rename in place, within the same parent directory: where to, unless
/// something already exists there.
pub fn rename(style: Style, src: &str, new_name: &str, exists: bool) -> (r: Result<String, Trouble>)
    ensures
        match r {
            Ok(target) => name_trouble(new_name@) is None && renamed(style, src@, new_name@) == Some(
                target@,
            ) && !exists,
            Err(trouble) => trouble.kind == TroubleKind::InvalidInput && if name_trouble(
                new_name@,
            ) is Some {
                Some(trouble.message@) == name_trouble(new_name@)
            } else if renamed(style, src@, new_name@) is None {
                trouble.message@ == "cannot rename the filesystem root"@
            } else {
                exists && trouble.message@ == taken(new_name@)
            },
        },
{
    let target: String = match rename_target(style, src, new_name) {
        Ok(target) => target,
        Err(trouble) => {
            return Err(trouble);
        },
    };
    if exists {
        return Err(invalid(text::concat2(new_name, " already exists").as_str()));
    }
    Ok(target)
}

/// Where a new directory would be, or why it is refused.
pub fn dir_target(style: Style, parent: &str, name: &str) -> (r: Result<String, Trouble>)
    ensures
        match r {
            Ok(target) => name_trouble(name@) is None && target@ == pathname::joined(
                style,
                parent@,
                text::trimmed(name@),
            ),
            Err(trouble) => trouble.kind == TroubleKind::InvalidInput && Some(trouble.message@)
                == name_trouble(name@),
        },
{
    if let Err(trouble) = validate_name(name) {
        return Err(trouble);
    }
    Ok(pathname::join(style, parent, text::trim(name)))
}

/// Make a directory: where, unless something already exists there.
pub fn create_dir(
    style: Style,
    parent: &str,
    name: &str,
    exists: bool,
) -> (r: Result<String, Trouble>)
    ensures
        match r {
            Ok(target) => name_trouble(name@) is None && !exists && target@ == pathname::joined(
                style,
                parent@,
                text::trimmed(name@),
            ),
            Err(trouble) => trouble.kind == TroubleKind::InvalidInput && if name_trouble(
                name@,
            ) is Some {
                Some(trouble.message@) == name_trouble(name@)
            } else {
                exists && trouble.message@ == taken(name@)
            },
        },
{
    let target: String = match dir_target(style, parent, name) {
        Ok(target) => target,
        Err(trouble) => {
            return Err(trouble);
        },
    };
    if exists {
        return Err(invalid(text::concat2(name, " already exists").as_str()));
    }
    Ok(target)
}

/// The lines of a text with tabs as four spaces.
pub open spec fn shown_lines(text: Seq<char>) -> Seq<Seq<char>> {
    text::lines(text).map_values(|line: Seq<char>| text::spread(line, '\t', "    "@))
}

/// A file's first bytes as text for the viewer, and what encoding they appear
/// to be in. `force` reads them as another one. Binary content is shown
/// lossily rather than refused.
pub fn read_preview(bytes: &[u8], force: Option<Encoding>) -> (r: (Vec<String>, Detected))
    ensures
        r.1 == encoding::detected(bytes@),
        text::views(r.0@) == shown_lines(
            encoding::decoded(
                bytes@,
                match force {
                    Some(encoding) => encoding,
                    None => encoding::detected(bytes@).encoding,
                },
            ),
        ),
{
    let detected: Detected = encoding::sniff(bytes);
    let chosen: Encoding = match force {
        Some(encoding) => encoding,
        None => detected.encoding,
    };
    let text: String = encoding::decode(bytes, chosen);
    let lines: Vec<String> = text::lines_of(text.as_str());
    let ghost wanted = shown_lines(text@);
    let mut out: Vec<String> = Vec::new();
    let mut i: usize = 0;
    while i < lines.len()
        invariant
            i <= lines@.len(),
            text::views(lines@) == text::lines(text@),
            wanted == shown_lines(text@),
            out@.len() == i,
            forall|j: int| 0 <= j < i ==> (#[trigger] out@[j])@ == wanted[j],
        decreases lines@.len() - i,
    {
        assert(text::views(lines@)[i as int] == lines@[i as int]@);
        out.push(text::replace_char(lines[i].as_str(), '\t', "    "));
        i += 1;
    }
    assert(text::views(out@) =~= wanted);
    (out, detected)
}

// ---- laws -------------------------------------------------------------------------------------

/// A name that is accepted stays in the directory it is given for: it is the
/// last name of its path there.
///
/// On Windows that leaves out a name that begins with a drive, and a directory
/// that is only half of a share or a device.
pub proof fn law_accepted_names_stay_inside(style: Style, parent: Seq<char>, name: Seq<char>)
    requires
        name_trouble(name) is None,
        pathname::prefix(style, text::trimmed(name)) is None,
        !pathname::verbatim(style, parent),
        pathname::prefix(style, pathname::joined(style, parent, text::trimmed(name)))
            == pathname::prefix(style, parent),
    ensures
        pathname::file_name(style, pathname::joined(style, parent, text::trimmed(name))) == Some(
            text::trimmed(name),
        ),
{
    let trimmed = text::trimmed(name);
    reveal_strlit(".");
    reveal_strlit("..");
    assert("."@ =~= seq!['.']);
    assert(".."@ =~= seq!['.', '.']);
    assert forall|i: int| 0 <= i < trimmed.len() implies !pathname::separates(
        style,
        #[trigger] trimmed[i],
    ) by {
        assert(trimmed.contains(trimmed[i]));
    }
    pathname::lemma_name_below(style, parent, trimmed);
}

/// A name is refused exactly where nothing of it is left without the space
/// around it, where that is one of the two that mean a directory, or where it
/// has a separator in it.
pub proof fn law_which_names_are_refused(name: Seq<char>)
    ensures
        ({
            let s = text::trimmed(name);
            name_trouble(name) is Some <==> s.len() == 0 || s == seq!['.'] || s == seq!['.', '.']
                || exists|i: int| 0 <= i < s.len() && (#[trigger] s[i] == '/' || s[i] == '\\')
        }),
{
    reveal_strlit(".");
    reveal_strlit("..");
    assert("."@ =~= seq!['.']);
    assert(".."@ =~= seq!['.', '.']);
    let s = text::trimmed(name);
    if exists|i: int| 0 <= i < s.len() && (#[trigger] s[i] == '/' || s[i] == '\\') {
        let i = choose|i: int| 0 <= i < s.len() && (#[trigger] s[i] == '/' || s[i] == '\\');
        assert(s.contains(s[i]));
    }
}

/// A renamed file stays in its directory, under the new name without the
/// space around it; only what has no directory cannot be renamed.
pub proof fn law_a_renamed_file_stays_in_its_directory(
    style: Style,
    src: Seq<char>,
    new_name: Seq<char>,
)
    ensures
        match pathname::parent(style, src) {
            Some(dir) => renamed(style, src, new_name) == Some(
                pathname::joined(style, dir, text::trimmed(new_name)),
            ),
            None => renamed(style, src, new_name) is None,
        },
{
}

/// A preview has a line for each line of the text, with four spaces for each
/// tab and nothing else changed.
pub proof fn law_a_preview_shows_every_line(s: Seq<char>, i: int)
    requires
        0 <= i < text::lines(s).len(),
    ensures
        shown_lines(s).len() == text::lines(s).len(),
        !text::lines(s)[i].contains('\t') ==> shown_lines(s)[i] == text::lines(s)[i],
        forall|a: Seq<char>, b: Seq<char>|
            text::lines(s)[i] == #[trigger] (a + seq!['\t'] + b) ==> shown_lines(s)[i]
                == text::spread(a, '\t', seq![' ', ' ', ' ', ' ']) + seq![' ', ' ', ' ', ' ']
                + text::spread(b, '\t', seq![' ', ' ', ' ', ' ']),
{
    reveal_strlit("    ");
    let four = seq![' ', ' ', ' ', ' '];
    assert("    "@ =~= four);
    let line = text::lines(s)[i];
    text::law_every_one_is_replaced(line, line, '\t', four);
    assert forall|a: Seq<char>, b: Seq<char>| line == #[trigger] (a + seq!['\t'] + b) implies
        shown_lines(s)[i] == text::spread(a, '\t', four) + four + text::spread(b, '\t', four) by {
        text::law_every_one_is_replaced(a + seq!['\t'], b, '\t', four);
        text::law_every_one_is_replaced(a, seq!['\t'], '\t', four);
    }
}

} // verus!
