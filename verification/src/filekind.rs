//! What sort of thing a file is, for the colour and the icon it gets.

use vstd::prelude::*;
use crate::entry::{Entry, EntryKind};
use crate::text;
use crate::text::chars;

verus! {

broadcast use vstd::string::group_string_axioms;

#[derive(Debug, Clone, Copy, PartialEq, Eq, Structural)]
pub enum Kind {
    Parent,
    Folder,
    Image,
    Code,
    Archive,
    Audio,
    Video,
    Document,
    Binary,
    Plain,
}

impl Kind {
    /// A stable name for this kind, for crossing a boundary or writing down.
    pub fn label(self) -> (r: &'static str)
        ensures
            r@ == match self {
                Kind::Parent => "parent"@,
                Kind::Folder => "folder"@,
                Kind::Image => "image"@,
                Kind::Code => "code"@,
                Kind::Archive => "archive"@,
                Kind::Audio => "audio"@,
                Kind::Video => "video"@,
                Kind::Document => "document"@,
                Kind::Binary => "binary"@,
                Kind::Plain => "plain"@,
            },
    {
        match self {
            Kind::Parent => "parent",
            Kind::Folder => "folder",
            Kind::Image => "image",
            Kind::Code => "code",
            Kind::Archive => "archive",
            Kind::Audio => "audio",
            Kind::Video => "video",
            Kind::Document => "document",
            Kind::Binary => "binary",
            Kind::Plain => "plain",
        }
    }
}

/// The endings of a kind.
pub open spec fn endings(kind: Kind) -> Seq<Seq<char>> {
    match kind {
        Kind::Image => seq![
            "png"@, "jpg"@, "jpeg"@, "gif"@, "bmp"@, "webp"@, "svg"@, "ico"@, "tiff"@,
        ],
        Kind::Code => seq![
            "rs"@, "c"@, "h"@, "cpp"@, "hpp"@, "py"@, "js"@, "ts"@, "go"@, "java"@, "rb"@, "sh"@,
            "toml"@, "json"@, "yaml"@, "yml"@, "xml"@, "html"@, "css"@, "lock"@,
        ],
        Kind::Archive => seq!["zip"@, "gz"@, "bz2"@, "xz"@, "7z"@, "rar"@, "tar"@, "zst"@],
        Kind::Audio => seq!["mp3"@, "flac"@, "wav"@, "ogg"@, "m4a"@, "aac"@, "opus"@],
        Kind::Video => seq!["mp4"@, "mkv"@, "avi"@, "mov"@, "webm"@, "wmv"@, "m4v"@],
        Kind::Document => seq!["pdf"@, "doc"@, "docx"@, "odt"@, "rtf"@, "epub"@, "md"@, "txt"@],
        Kind::Binary => seq!["exe"@, "dll"@, "so"@, "dylib"@, "bin"@, "o"@, "a"@],
        _ => Seq::empty(),
    }
}

/// What follows the last dot of a name, in small letters; nothing where it
/// has none.
pub open spec fn ending_of(name: Seq<char>) -> Seq<char> {
    let dot = text::seek_back(name, '.', name.len() as int);
    if dot >= 0 {
        text::ascii_lower(name.skip(dot + 1))
    } else {
        Seq::empty()
    }
}

/// The kind of a file by its name: the first kind that has its ending.
pub open spec fn kind_of_name(name: Seq<char>) -> Kind {
    let ending = ending_of(name);
    if endings(Kind::Image).contains(ending) {
        Kind::Image
    } else if endings(Kind::Code).contains(ending) {
        Kind::Code
    } else if endings(Kind::Archive).contains(ending) {
        Kind::Archive
    } else if endings(Kind::Audio).contains(ending) {
        Kind::Audio
    } else if endings(Kind::Video).contains(ending) {
        Kind::Video
    } else if endings(Kind::Document).contains(ending) {
        Kind::Document
    } else if endings(Kind::Binary).contains(ending) {
        Kind::Binary
    } else {
        Kind::Plain
    }
}

/// What sort of thing an entry is.
pub fn classify(entry: &Entry) -> (r: Kind)
    ensures
        r == match entry.kind {
            EntryKind::Parent => Kind::Parent,
            EntryKind::Dir => Kind::Folder,
            EntryKind::File => kind_of_name(entry.name@),
        },
{
    if entry.is_parent() {
        return Kind::Parent;
    }
    if entry.is_dir() {
        return Kind::Folder;
    }
    of_name(entry.name.as_str())
}

fn has_ending(ending: &str, kind: Kind) -> (r: bool)
    ensures
        r == endings(kind).contains(ending@),
{
    let list: Vec<&'static str> = match kind {
        Kind::Image => vec!["png", "jpg", "jpeg", "gif", "bmp", "webp", "svg", "ico", "tiff"],
        Kind::Code => vec![
            "rs", "c", "h", "cpp", "hpp", "py", "js", "ts", "go", "java", "rb", "sh", "toml",
            "json", "yaml", "yml", "xml", "html", "css", "lock",
        ],
        Kind::Archive => vec!["zip", "gz", "bz2", "xz", "7z", "rar", "tar", "zst"],
        Kind::Audio => vec!["mp3", "flac", "wav", "ogg", "m4a", "aac", "opus"],
        Kind::Video => vec!["mp4", "mkv", "avi", "mov", "webm", "wmv", "m4v"],
        Kind::Document => vec!["pdf", "doc", "docx", "odt", "rtf", "epub", "md", "txt"],
        Kind::Binary => vec!["exe", "dll", "so", "dylib", "bin", "o", "a"],
        _ => Vec::new(),
    };
    assert(text::words(list@) =~= endings(kind));
    text::listed(ending, &list)
}

/// What sort of thing a file of a name is.
pub fn of_name(name: &str) -> (r: Kind)
    ensures
        r == kind_of_name(name@),
{
    let n: Vec<char> = chars(name);
    let len: usize = n.len();
    let ending: String = match text::rfind_char(&n, '.') {
        Some(dot) => {
            let behind: String = text::part(&n, dot + 1, len);
            assert(behind@ =~= n@.skip(dot + 1));
            text::to_ascii_lower(behind.as_str())
        },
        None => {
            let none: String = String::new();
            assert(none@ =~= Seq::<char>::empty());
            none
        },
    };
    let e: &str = ending.as_str();
    if has_ending(e, Kind::Image) {
        Kind::Image
    } else if has_ending(e, Kind::Code) {
        Kind::Code
    } else if has_ending(e, Kind::Archive) {
        Kind::Archive
    } else if has_ending(e, Kind::Audio) {
        Kind::Audio
    } else if has_ending(e, Kind::Video) {
        Kind::Video
    } else if has_ending(e, Kind::Document) {
        Kind::Document
    } else if has_ending(e, Kind::Binary) {
        Kind::Binary
    } else {
        Kind::Plain
    }
}

/// What a file is goes by what follows the last dot of its name, whatever
/// stands in front and whatever its case; without a dot it is plain.
pub proof fn law_a_kind_goes_by_the_ending(
    stem: Seq<char>,
    other: Seq<char>,
    ending: Seq<char>,
    same: Seq<char>,
)
    requires
        !ending.contains('.'),
        !same.contains('.'),
        text::ascii_lower(ending) == text::ascii_lower(same),
    ensures
        kind_of_name(stem + seq!['.'] + ending) == kind_of_name(other + seq!['.'] + same),
        ending_of(stem + seq!['.'] + ending) == text::ascii_lower(ending),
        !stem.contains('.') ==> ending_of(stem).len() == 0,
{
    let a = stem + seq!['.'] + ending;
    let b = other + seq!['.'] + same;
    assert forall|j: int| 0 <= j < ending.len() implies ending[j] != '.' by {
        assert(ending.contains(ending[j]));
    }
    assert forall|j: int| 0 <= j < same.len() implies same[j] != '.' by {
        assert(same.contains(same[j]));
    }
    text::lemma_seek_back_is(a, '.', a.len() as int, stem.len() as int);
    text::lemma_seek_back_is(b, '.', b.len() as int, other.len() as int);
    assert(a.skip(stem.len() as int + 1) =~= ending);
    assert(b.skip(other.len() as int + 1) =~= same);
    if !stem.contains('.') {
        text::lemma_seek_back(stem, '.', stem.len() as int);
        let at = text::seek_back(stem, '.', stem.len() as int);
        if at >= 0 {
            assert(stem.contains(stem[at]));
        }
    }
}

/// A name is told to be of a kind only where its ending is one of that kind's,
/// and one whose ending is nobody's is plain.
pub proof fn law_a_kind_has_the_ending(name: Seq<char>, kind: Kind)
    ensures
        kind_of_name(name) != Kind::Plain ==> endings(kind_of_name(name)).contains(ending_of(name)),
        endings(kind).contains(ending_of(name)) ==> kind_of_name(name) != Kind::Plain,
{
}

} // verus!
