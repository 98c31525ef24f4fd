//! Archives, read as folders.
//!
//! An archive is a directory that happens to be one file. What a panel needs
//! from a directory - names, sizes, dates - an archive can answer too, so it
//! may as well be walked into. Reading only.

use vstd::prelude::*;
use crate::moment::Moment;
use crate::pathname;
use crate::pathname::Style;
use crate::text;
use crate::text::{chars, part};
use crate::trouble::{Trouble, TroubleKind};

pub mod lha;
pub mod sevenz;

verus! {

broadcast use vstd::string::group_string_axioms;

/// One thing inside an archive.
#[derive(Debug, Clone, PartialEq, Eq)]
pub struct Member {
    /// Where it sits inside the archive: `/` separated, no leading slash, and
    /// no trailing one even on a directory.
    pub path: String,
    pub size: u64,
    /// What it occupies inside the archive, where the format says.
    pub packed: Option<u64>,
    pub modified: Option<Moment>,
    pub is_dir: bool,
    /// The Unix permission bits, where the format carries them.
    pub mode: Option<u32>,
    /// Whether reading this one needs a password.
    pub encrypted: bool,
}

impl Default for Member {
    fn default() -> (r: Member)
        ensures
            r.path@ == Seq::<char>::empty(),
            r.size == 0,
            r.packed is None,
            r.modified is None,
            !r.is_dir,
            r.mode is None,
            !r.encrypted,
    {
        Member {
            path: String::new(),
            size: 0,
            packed: None,
            modified: None,
            is_dir: false,
            mode: None,
            encrypted: false,
        }
    }
}

impl Member {
    /// The name on its own, without the directories above it.
    pub fn name(&self) -> (r: &str)
        ensures
            r@ == self.path@.skip(text::seek_back(self.path@, '/', self.path@.len() as int) + 1),
    {
        let p: Vec<char> = chars(self.path.as_str());
        let len: usize = p.len();
        let from: usize = match text::rfind_char(&p, '/') {
            Some(at) => at + 1,
            None => 0,
        };
        let r: &str = self.path.as_str().substring_char(from, len);
        assert(r@ =~= self.path@.skip(from as int));
        r
    }

    /// The directory it sits in, `""` for the top level.
    pub fn parent(&self) -> (r: &str)
        ensures
            ({
                let slash = text::seek_back(self.path@, '/', self.path@.len() as int);
                r@ == if slash >= 0 {
                    self.path@.take(slash)
                } else {
                    Seq::empty()
                }
            }),
    {
        let p: Vec<char> = chars(self.path.as_str());
        let to: usize = match text::rfind_char(&p, '/') {
            Some(at) => at,
            None => 0,
        };
        let r: &str = self.path.as_str().substring_char(0, to);
        assert(r@ =~= self.path@.take(to as int));
        r
    }
}

// ---- passwords -------------------------------------------------------------------

/// "Locked" means ask; "wrong" means ask again and say why.
pub const NEEDS_PASSWORD: &'static str = "this needs a password";

pub const WRONG_PASSWORD: &'static str = "that password does not open it";

pub fn needs_password() -> (r: Trouble)
    ensures
        r.kind == TroubleKind::PermissionDenied,
        r.message@ == NEEDS_PASSWORD@,
{
    Trouble::new(TroubleKind::PermissionDenied, NEEDS_PASSWORD)
}

pub fn wrong_password() -> (r: Trouble)
    ensures
        r.kind == TroubleKind::PermissionDenied,
        r.message@ == WRONG_PASSWORD@,
{
    Trouble::new(TroubleKind::PermissionDenied, WRONG_PASSWORD)
}

/// Whether an error is one a password would fix.
pub fn is_locked(error: &Trouble) -> (r: bool)
    ensures
        r == (error.kind == TroubleKind::PermissionDenied && (text::holds(
            error.message@,
            NEEDS_PASSWORD@,
        ) || text::holds(error.message@, WRONG_PASSWORD@))),
{
    error.kind == TroubleKind::PermissionDenied && (text::contains(
        error.message.as_str(),
        NEEDS_PASSWORD,
    ) || text::contains(error.message.as_str(), WRONG_PASSWORD))
}

/// Whether the password offered was refused, as opposed to never asked for.
pub fn was_refused(error: &Trouble) -> (r: bool)
    ensures
        r == text::holds(error.message@, WRONG_PASSWORD@),
{
    text::contains(error.message.as_str(), WRONG_PASSWORD)
}

// ---- formats -----------------------------------------------------------------------

/// The formats, in the order they are tried. Compound endings come before
/// their parts.
#[derive(Debug, Clone, Copy, PartialEq, Eq, Structural)]
pub enum FormatKind {
    Zip,
    TarGz,
    TarXz,
    TarBz2,
    Tar,
    SevenZ,
    Lha,
}

/// Bytes that identify a format, and where to look for them.
#[derive(Debug, Clone)]
pub struct Magic {
    pub at: usize,
    pub bytes: Vec<u8>,
}

/// A format this program can read.
#[derive(Debug, Clone)]
pub struct Format {
    /// What to call it.
    pub name: &'static str,
    /// The endings that suggest it.
    pub extensions: Vec<&'static str>,
    /// How to recognise it from the file itself. Empty where the format has
    /// no usable signature.
    pub magic: Vec<Magic>,
    pub kind: FormatKind,
}

/// What a format is called.
pub open spec fn format_name(kind: FormatKind) -> Seq<char> {
    match kind {
        FormatKind::Zip => "zip"@,
        FormatKind::TarGz => "tar.gz"@,
        FormatKind::TarXz => "tar.xz"@,
        FormatKind::TarBz2 => "tar.bz2"@,
        FormatKind::Tar => "tar"@,
        FormatKind::SevenZ => "7z"@,
        FormatKind::Lha => "lha"@,
    }
}

/// The endings that suggest a format.
pub open spec fn endings(kind: FormatKind) -> Seq<Seq<char>> {
    match kind {
        FormatKind::Zip => seq![
            ".zip"@,
            ".jar"@,
            ".war"@,
            ".ear"@,
            ".odt"@,
            ".ods"@,
            ".odp"@,
            ".epub"@,
            ".xpi"@,
        ],
        FormatKind::TarGz => seq![".tar.gz"@, ".tgz"@, ".taz"@],
        FormatKind::TarXz => seq![".tar.xz"@, ".txz"@],
        FormatKind::TarBz2 => seq![".tar.bz2"@, ".tbz"@, ".tbz2"@, ".tb2"@],
        FormatKind::Tar => seq![".tar"@],
        FormatKind::SevenZ => seq![".7z"@],
        FormatKind::Lha => seq![".lha"@, ".lzh"@, ".lzs"@],
    }
}

/// The signatures of a format: where they stand, and the bytes.
pub open spec fn signatures(kind: FormatKind) -> Seq<(int, Seq<u8>)> {
    match kind {
        FormatKind::Zip => seq![
            (0int, seq![80u8, 75, 3, 4]),
            (0int, seq![80u8, 75, 5, 6]),
            (0int, seq![80u8, 75, 7, 8]),
        ],
        FormatKind::Tar => seq![
            (257int, seq![117u8, 115, 116, 97, 114, 0]),
            (257int, seq![117u8, 115, 116, 97, 114, 32, 32, 0]),
        ],
        FormatKind::SevenZ => seq![(0int, seq![55u8, 122, 0xBC, 0xAF, 0x27, 0x1C])],
        FormatKind::Lha => seq![(2int, seq![45u8, 108])],
        _ => Seq::empty(),
    }
}

/// What a signature says as plain values.
pub open spec fn magic_view(magic: Magic) -> (int, Seq<u8>) {
    (magic.at as int, magic.bytes@)
}

/// Whether a format is filled in as its kind demands.
pub open spec fn filled_in(format: Format) -> bool {
    &&& format.name@ == format_name(format.kind)
    &&& format.extensions@.map_values(|end: &'static str| end@) == endings(format.kind)
    &&& format.magic@.map_values(|magic: Magic| magic_view(magic)) == signatures(format.kind)
}

/// Whether a signature stands in the first bytes of a file.
pub open spec fn stands_in(signature: (int, Seq<u8>), head: Seq<u8>) -> bool {
    &&& signature.0 + signature.1.len() <= head.len()
    &&& head.subrange(signature.0, signature.0 + signature.1.len()) == signature.1
}

/// Whether one of a format's signatures stands in the first bytes of a file.
pub open spec fn marked(kind: FormatKind, head: Seq<u8>) -> bool {
    exists|i: int|
        0 <= i < signatures(kind).len() && stands_in(#[trigger] signatures(kind)[i], head)
}

/// Whether a name ends in one of a format's endings.
pub open spec fn ends_like(kind: FormatKind, name: Seq<char>) -> bool {
    exists|i: int| 0 <= i < endings(kind).len() && text::ends(name, #[trigger] endings(kind)[i])
}

/// The kinds of format in the order they are tried.
pub open spec fn kind_order() -> Seq<FormatKind> {
    seq![
        FormatKind::Zip,
        FormatKind::TarGz,
        FormatKind::TarXz,
        FormatKind::TarBz2,
        FormatKind::Tar,
        FormatKind::SevenZ,
        FormatKind::Lha,
    ]
}

/// The first kind at or after `from` whose signature stands in `head`.
pub open spec fn kind_by_magic(head: Seq<u8>, from: int) -> Option<FormatKind>
    decreases kind_order().len() - from,
{
    if from >= kind_order().len() {
        None
    } else if marked(kind_order()[from], head) {
        Some(kind_order()[from])
    } else {
        kind_by_magic(head, from + 1)
    }
}

/// The first kind at or after `from` whose ending a name has.
pub open spec fn kind_by_ending(name: Seq<char>, from: int) -> Option<FormatKind>
    decreases kind_order().len() - from,
{
    if from >= kind_order().len() {
        None
    } else if ends_like(kind_order()[from], name) {
        Some(kind_order()[from])
    } else {
        kind_by_ending(name, from + 1)
    }
}

/// The kind that the end of a file's name suggests.
pub open spec fn kind_by_name(style: Style, path: Seq<char>) -> Option<FormatKind> {
    match pathname::file_name(style, path) {
        Some(name) => kind_by_ending(text::lowercase(name), 0),
        None => None,
    }
}

/// Whether the first bytes are those of a JPEG picture.
pub open spec fn is_picture(head: Seq<u8>) -> bool {
    stands_in((0, seq![0xFFu8, 0xD8, 0xFF]), head)
}

/// The kind of a file: by its bytes, and only where they say nothing
/// definite, by its name. A picture is definite, and no archive.
pub open spec fn kind_of(style: Style, head: Seq<u8>, path: Seq<char>) -> Option<FormatKind> {
    match kind_by_magic(head, 0) {
        Some(kind) => Some(kind),
        None => if is_picture(head) {
            None
        } else {
            kind_by_name(style, path)
        },
    }
}

fn magic(at: usize, bytes: Vec<u8>) -> (r: Magic)
    ensures
        magic_view(r) == (at as int, bytes@),
{
    Magic { at, bytes }
}

/// The format of a kind, filled in.
pub fn format(kind: FormatKind) -> (r: Format)
    ensures
        r.kind == kind,
        filled_in(r),
{
    let r: Format = match kind {
        FormatKind::Zip => Format {
            name: "zip",
            extensions: vec![
                ".zip",
                ".jar",
                ".war",
                ".ear",
                ".odt",
                ".ods",
                ".odp",
                ".epub",
                ".xpi",
            ],
            magic: vec![
                magic(0, vec![80u8, 75, 3, 4]),
                magic(0, vec![80u8, 75, 5, 6]),
                magic(0, vec![80u8, 75, 7, 8]),
            ],
            kind,
        },
        FormatKind::TarGz => Format {
            name: "tar.gz",
            extensions: vec![".tar.gz", ".tgz", ".taz"],
            magic: Vec::new(),
            kind,
        },
        FormatKind::TarXz => Format {
            name: "tar.xz",
            extensions: vec![".tar.xz", ".txz"],
            magic: Vec::new(),
            kind,
        },
        FormatKind::TarBz2 => Format {
            name: "tar.bz2",
            extensions: vec![".tar.bz2", ".tbz", ".tbz2", ".tb2"],
            magic: Vec::new(),
            kind,
        },
        FormatKind::Tar => Format {
            name: "tar",
            extensions: vec![".tar"],
            magic: vec![
                magic(257, vec![117u8, 115, 116, 97, 114, 0]),
                magic(257, vec![117u8, 115, 116, 97, 114, 32, 32, 0]),
            ],
            kind,
        },
        FormatKind::SevenZ => Format {
            name: "7z",
            extensions: vec![".7z"],
            magic: vec![magic(0, vec![55u8, 122, 0xBC, 0xAF, 0x27, 0x1C])],
            kind,
        },
        FormatKind::Lha => Format {
            name: "lha",
            extensions: vec![".lha", ".lzh", ".lzs"],
            magic: vec![magic(2, vec![45u8, 108])],
            kind,
        },
    };
    assert(r.extensions@.map_values(|end: &'static str| end@) =~= endings(kind));
    assert(r.magic@.map_values(|magic: Magic| magic_view(magic)) =~= signatures(kind)) by {
        let views = r.magic@.map_values(|magic: Magic| magic_view(magic));
        assert forall|i: int| 0 <= i < views.len() implies views[i] == signatures(kind)[i] by {
            assert(views[i] == magic_view(r.magic@[i]));
            assert(views[i].1 =~= signatures(kind)[i].1);
        }
    }
    r
}

fn order() -> (r: Vec<FormatKind>)
    ensures
        r@ == kind_order(),
{
    let r: Vec<FormatKind> = vec![
        FormatKind::Zip,
        FormatKind::TarGz,
        FormatKind::TarXz,
        FormatKind::TarBz2,
        FormatKind::Tar,
        FormatKind::SevenZ,
        FormatKind::Lha,
    ];
    assert(r@ =~= kind_order());
    r
}

fn magic_in(magic: &Magic, head: &[u8]) -> (r: bool)
    ensures
        r == stands_in(magic_view(*magic), head@),
{
    let len: usize = head.len();
    if magic.at > len || magic.bytes.len() > len - magic.at {
        return false;
    }
    let mut i: usize = 0;
    while i < magic.bytes.len()
        invariant
            i <= magic.bytes@.len(),
            magic.at + magic.bytes@.len() <= head@.len() == len,
            forall|j: int| 0 <= j < i ==> head@[magic.at + j] == magic.bytes@[j],
        decreases magic.bytes@.len() - i,
    {
        if head[magic.at + i] != magic.bytes[i] {
            assert(head@.subrange(magic.at as int, magic.at + magic.bytes@.len())[i as int]
                != magic.bytes@[i as int]);
            return false;
        }
        i += 1;
    }
    assert(head@.subrange(magic.at as int, magic.at + magic.bytes@.len()) =~= magic.bytes@);
    true
}

/// Recognise by signature.
pub fn by_magic(head: &[u8]) -> (r: Option<Format>)
    ensures
        match r {
            Some(format) => filled_in(format) && kind_by_magic(head@, 0) == Some(format.kind),
            None => kind_by_magic(head@, 0) is None,
        },
{
    let kinds: Vec<FormatKind> = order();
    let mut k: usize = 0;
    while k < kinds.len()
        invariant
            k <= kinds@.len(),
            kinds@ == kind_order(),
            kind_by_magic(head@, 0) == kind_by_magic(head@, k as int),
        decreases kinds@.len() - k,
    {
        let format: Format = format(kinds[k]);
        let ghost views = format.magic@.map_values(|magic: Magic| magic_view(magic));
        let mut i: usize = 0;
        while i < format.magic.len()
            invariant
                i <= format.magic@.len(),
                k < kinds@.len(),
                kinds@ == kind_order(),
                format.kind == kinds@[k as int],
                filled_in(format),
                views == format.magic@.map_values(|magic: Magic| magic_view(magic)),
                kind_by_magic(head@, 0) == kind_by_magic(head@, k as int),
                forall|j: int|
                    0 <= j < i ==> !stands_in(#[trigger] signatures(format.kind)[j], head@),
            decreases format.magic@.len() - i,
        {
            assert(views[i as int] == signatures(format.kind)[i as int]);
            if magic_in(&format.magic[i], head) {
                assert(marked(format.kind, head@));
                return Some(format);
            }
            i += 1;
        }
        assert(views.len() == signatures(format.kind).len());
        assert(!marked(format.kind, head@));
        k += 1;
    }
    None
}

/// Recognise by the end of the name.
///
/// Case-insensitively: `.ZIP` off a Windows machine is a zip.
pub fn by_name(style: Style, path: &str) -> (r: Option<Format>)
    ensures
        match r {
            Some(format) => filled_in(format) && kind_by_name(style, path@) == Some(format.kind),
            None => kind_by_name(style, path@) is None,
        },
{
    let name: String = match pathname::file_name_of(style, path) {
        Some(name) => text::to_lowercase(name.as_str()),
        None => {
            return None;
        },
    };
    let kinds: Vec<FormatKind> = order();
    let mut k: usize = 0;
    while k < kinds.len()
        invariant
            k <= kinds@.len(),
            kinds@ == kind_order(),
            kind_by_name(style, path@) == kind_by_ending(name@, k as int),
        decreases kinds@.len() - k,
    {
        let format: Format = format(kinds[k]);
        let ghost views = format.extensions@.map_values(|end: &'static str| end@);
        let mut i: usize = 0;
        while i < format.extensions.len()
            invariant
                i <= format.extensions@.len(),
                k < kinds@.len(),
                kinds@ == kind_order(),
                format.kind == kinds@[k as int],
                filled_in(format),
                views == format.extensions@.map_values(|end: &'static str| end@),
                kind_by_name(style, path@) == kind_by_ending(name@, k as int),
                forall|j: int|
                    0 <= j < i ==> !text::ends(name@, #[trigger] endings(format.kind)[j]),
            decreases format.extensions@.len() - i,
        {
            assert(views[i as int] == endings(format.kind)[i as int]);
            if text::ends_with(name.as_str(), format.extensions[i]) {
                assert(ends_like(format.kind, name@));
                return Some(format);
            }
            i += 1;
        }
        assert(views.len() == endings(format.kind).len());
        assert(!ends_like(format.kind, name@));
        k += 1;
    }
    None
}

fn looks_like_a_picture(head: &[u8]) -> (r: bool)
    ensures
        r == is_picture(head@),
{
    if head.len() >= 3 && head[0] == 0xFF && head[1] == 0xD8 && head[2] == 0xFF {
        assert(head@.subrange(0, 3) =~= seq![0xFFu8, 0xD8, 0xFF]);
        true
    } else {
        proof {
            if is_picture(head@) {
                let start = head@.subrange(0, 3);
                assert(start[0] == 0xFF && start[1] == 0xD8 && start[2] == 0xFF);
            }
        }
        false
    }
}

/// Which format a file is, if any, from its first bytes and its path.
///
/// The contents are asked first and the name second, because a name is a
/// claim and the bytes are the fact - `.zip` on a JPEG is a mistake worth
/// seeing through. Where the bytes say nothing definite, the ending decides;
/// a file that could not be read has no first bytes at all.
pub fn identify(style: Style, head: &[u8], path: &str) -> (r: Option<Format>)
    ensures
        match r {
            Some(format) => filled_in(format) && kind_of(style, head@, path@) == Some(format.kind),
            None => kind_of(style, head@, path@) is None,
        },
{
    match by_magic(head) {
        Some(format) => Some(format),
        None => if looks_like_a_picture(head) {
            None
        } else {
            by_name(style, path)
        },
    }
}

/// Whether this is something this program can walk into.
pub fn is_archive(style: Style, is_file: bool, head: &[u8], path: &str) -> (r: bool)
    ensures
        r == (is_file && kind_of(style, head@, path@) is Some),
{
    is_file && identify(style, head, path).is_some()
}

/// The format of a file, or that it is no archive.
pub fn identified(style: Style, head: &[u8], path: &str) -> (r: Result<Format, Trouble>)
    ensures
        match r {
            Ok(format) => filled_in(format) && kind_of(style, head@, path@) == Some(format.kind),
            Err(trouble) => kind_of(style, head@, path@) is None && trouble.kind
                == TroubleKind::InvalidData && trouble.message@
                == "not an archive this program can read"@,
        },
{
    match identify(style, head, path) {
        Some(format) => Ok(format),
        None => Err(Trouble::new(TroubleKind::InvalidData, "not an archive this program can read")),
    }
}

// ---- one shape for the paths inside -----------------------------------------------

/// Whether a piece of a path inside an archive is worth keeping.
pub open spec fn worth_keeping(piece: Seq<char>) -> bool {
    piece.len() > 0 && piece != seq!['.'] && piece != seq!['.', '.']
}

/// The pieces that are worth keeping.
pub open spec fn kept_pieces(pieces: Seq<Seq<char>>) -> Seq<Seq<char>>
    decreases pieces.len(),
{
    if pieces.len() == 0 {
        Seq::empty()
    } else if worth_keeping(pieces.last()) {
        kept_pieces(pieces.drop_last()).push(pieces.last())
    } else {
        kept_pieces(pieces.drop_last())
    }
}

/// The pieces of a path inside an archive, either slash cutting it.
pub open spec fn inner_pieces(path: Seq<char>) -> Seq<Seq<char>> {
    kept_pieces(text::split(text::swapped(path, '\\', '/'), '/'))
}

/// A path inside an archive in the one shape it is stored in.
pub open spec fn normal(path: Seq<char>) -> Seq<char> {
    text::joined_by(inner_pieces(path), '/')
}

/// A member path as this program stores it.
///
/// The formats do not agree: zip marks a directory with a trailing slash, tar
/// writes `./a/b`, and an archive made on Windows may well use backslashes.
pub fn normalise(path: &str) -> (r: String)
    ensures
        r@ == normal(path@),
{
    let raw: Vec<char> = chars(path);
    let slashes: Vec<char> = text::swap_char(&raw, '\\', '/');
    let pieces: Vec<String> = text::split_chars(&slashes, '/');
    let ghost all = text::views(pieces@);
    let mut out: String = String::new();
    let mut empty: bool = true;
    let mut i: usize = 0;
    assert(all.take(0) =~= Seq::<Seq<char>>::empty());
    while i < pieces.len()
        invariant
            i <= pieces@.len(),
            all == text::views(pieces@),
            empty == (kept_pieces(all.take(i as int)).len() == 0),
            out@ == text::joined_by(kept_pieces(all.take(i as int)), '/'),
        decreases pieces@.len() - i,
    {
        let piece: Vec<char> = chars(pieces[i].as_str());
        let dot: bool = piece.len() == 1 && piece[0] == '.';
        let dots: bool = piece.len() == 2 && piece[0] == '.' && piece[1] == '.';
        proof {
            assert(all.take(i + 1).drop_last() =~= all.take(i as int));
            assert(all.take(i + 1).last() == piece@);
            assert(dot ==> piece@ =~= seq!['.']);
            assert(dots ==> piece@ =~= seq!['.', '.']);
            text::lemma_joined_push(kept_pieces(all.take(i as int)), piece@, '/');
        }
        if piece.len() > 0 && !dot && !dots {
            if !empty {
                out.push('/');
            }
            let ghost was = out@;
            out.append(pieces[i].as_str());
            if empty {
                assert(out@ =~= piece@);
            }
            empty = false;
        }
        i += 1;
    }
    assert(all.take(i as int) =~= all);
    out
}

proof fn lemma_kept(pieces: Seq<Seq<char>>)
    ensures
        forall|i: int|
            0 <= i < kept_pieces(pieces).len() ==> worth_keeping(#[trigger] kept_pieces(pieces)[i]),
        forall|i: int|
            0 <= i < kept_pieces(pieces).len() ==> pieces.contains(
                #[trigger] kept_pieces(pieces)[i],
            ),
    decreases pieces.len(),
{
    if pieces.len() > 0 {
        let front = pieces.drop_last();
        lemma_kept(front);
        assert forall|i: int| 0 <= i < kept_pieces(pieces).len() implies pieces.contains(
            #[trigger] kept_pieces(pieces)[i],
        ) by {
            if i < kept_pieces(front).len() {
                assert(front.contains(kept_pieces(front)[i]));
                let k = choose|k: int| 0 <= k < front.len() && front[k] == kept_pieces(front)[i];
                assert(pieces[k] == kept_pieces(pieces)[i]);
            } else {
                assert(pieces[pieces.len() - 1] == kept_pieces(pieces)[i]);
            }
        }
    }
}

proof fn lemma_kept_all(pieces: Seq<Seq<char>>)
    requires
        forall|i: int| 0 <= i < pieces.len() ==> worth_keeping(#[trigger] pieces[i]),
    ensures
        kept_pieces(pieces) == pieces,
    decreases pieces.len(),
{
    if pieces.len() > 0 {
        let front = pieces.drop_last();
        assert forall|i: int| 0 <= i < front.len() implies worth_keeping(#[trigger] front[i]) by {
            assert(front[i] == pieces[i]);
        }
        lemma_kept_all(front);
        assert(worth_keeping(pieces[pieces.len() - 1]));
        assert(kept_pieces(pieces) =~= pieces);
    } else {
        assert(kept_pieces(pieces) =~= pieces);
    }
}

/// What is left of a path never holds `.`, `..`, an empty component or either
/// slash: nothing in it can climb out of the archive.
pub proof fn law_nothing_climbs_out(path: Seq<char>)
    ensures
        forall|i: int|
            0 <= i < inner_pieces(path).len() ==> worth_keeping(#[trigger] inner_pieces(path)[i]),
        forall|i: int, j: int|
            #![trigger inner_pieces(path)[i][j]]
            0 <= i < inner_pieces(path).len() && 0 <= j < inner_pieces(path)[i].len()
                ==> inner_pieces(path)[i][j] != '/' && inner_pieces(path)[i][j] != '\\',
{
    let swapped = text::swapped(path, '\\', '/');
    let pieces = text::split(swapped, '/');
    lemma_kept(pieces);
    text::lemma_split_pieces(swapped, '/');
    lemma_pieces_avoid(swapped, '/', '\\');
    assert forall|i: int, j: int|
        #![trigger inner_pieces(path)[i][j]]
        0 <= i < inner_pieces(path).len() && 0 <= j < inner_pieces(path)[i].len() implies inner_pieces(
        path,
    )[i][j] != '/' && inner_pieces(path)[i][j] != '\\' by {
        let piece = inner_pieces(path)[i];
        assert(pieces.contains(piece));
        let k = choose|k: int| 0 <= k < pieces.len() && pieces[k] == piece;
        assert(pieces[k][j] != '/');
        assert(pieces[k][j] != '\\');
    }
}

proof fn lemma_pieces_avoid(s: Seq<char>, c: char, other: char)
    requires
        forall|i: int| 0 <= i < s.len() ==> s[i] != other,
    ensures
        forall|i: int, j: int|
            #![trigger text::split(s, c)[i][j]]
            0 <= i < text::split(s, c).len() && 0 <= j < text::split(s, c)[i].len()
                ==> text::split(s, c)[i][j] != other,
    decreases s.len(),
{
    text::lemma_seek(s, c, 0);
    let at = text::seek(s, c, 0);
    if at < s.len() {
        let rest = text::split(s.skip(at + 1), c);
        lemma_pieces_avoid(s.skip(at + 1), c, other);
        assert forall|i: int, j: int|
            #![trigger text::split(s, c)[i][j]]
            0 <= i < text::split(s, c).len() && 0 <= j < text::split(s, c)[i].len() implies text::split(
            s,
            c,
        )[i][j] != other by {
            if i > 0 {
                assert(text::split(s, c)[i] == rest[i - 1]);
                assert(rest[i - 1][j] != other);
            }
        }
    }
}

/// A path in the one shape is left as it is.
pub proof fn law_normalising_once_is_enough(path: Seq<char>)
    ensures
        normal(normal(path)) == normal(path),
{
    law_nothing_climbs_out(path);
    let pieces = inner_pieces(path);
    let once = normal(path);
    if pieces.len() == 0 {
        assert(once =~= Seq::<char>::empty());
        assert(text::swapped(once, '\\', '/') =~= once);
        text::lemma_split_whole(once, '/');
        assert(text::split(once, '/') =~= seq![once]);
        assert(seq![once].drop_last() =~= Seq::<Seq<char>>::empty());
        assert(!worth_keeping(seq![once].last()));
        assert(kept_pieces(seq![once].drop_last()) =~= Seq::<Seq<char>>::empty());
        assert(inner_pieces(once) =~= Seq::<Seq<char>>::empty());
    } else {
        assert forall|i: int, j: int|
            #![trigger pieces[i][j]]
            0 <= i < pieces.len() && 0 <= j < pieces[i].len() implies pieces[i][j] != '/' by {
            assert(inner_pieces(path)[i][j] != '/');
        }
        text::lemma_joined_splits(pieces, '/');
        lemma_glued_avoids(pieces, '/', '\\');
        assert(text::swapped(once, '\\', '/') =~= once);
        lemma_kept_all(pieces);
    }
}

proof fn lemma_glued_avoids(pieces: Seq<Seq<char>>, c: char, other: char)
    requires
        c != other,
        forall|i: int, j: int|
            #![trigger pieces[i][j]]
            0 <= i < pieces.len() && 0 <= j < pieces[i].len() ==> pieces[i][j] != other,
    ensures
        forall|i: int| 0 <= i < text::glued(pieces, c).len() ==> text::glued(pieces, c)[i] != other,
    decreases pieces.len(),
{
    if pieces.len() > 0 {
        let front = pieces.drop_last();
        assert forall|i: int, j: int|
            #![trigger front[i][j]]
            0 <= i < front.len() && 0 <= j < front[i].len() implies front[i][j] != other by {
            assert(pieces[i][j] != other);
        }
        lemma_glued_avoids(front, c, other);
        let last = pieces.len() - 1;
        assert forall|i: int| 0 <= i < text::glued(pieces, c).len() implies text::glued(
            pieces,
            c,
        )[i] != other by {
            let n = text::glued(front, c).len();
            if i < n {
                assert(text::glued(pieces, c)[i] == text::glued(front, c)[i]);
            } else if i > n {
                assert(text::glued(pieces, c)[i] == pieces[last][i - n - 1]);
            }
        }
    }
}

// ---- the index -----------------------------------------------------------------------

/// Everything inside an archive, with the format that read it.
#[derive(Debug, Clone)]
pub struct Listing {
    pub format: &'static str,
    pub members: Vec<Member>,
}

impl Listing {
    /// Whether anything in here needs a password to read.
    pub fn any_locked(&self) -> (r: bool)
        ensures
            r == exists|i: int| 0 <= i < self.members@.len() && (#[trigger] self.members@[i]).encrypted,
    {
        let mut i: usize = 0;
        while i < self.members.len()
            invariant
                i <= self.members@.len(),
                forall|j: int| 0 <= j < i ==> !(#[trigger] self.members@[j]).encrypted,
            decreases self.members@.len() - i,
        {
            if self.members[i].encrypted {
                return true;
            }
            i += 1;
        }
        false
    }
}

/// A member with its path as characters.
pub struct MemberView {
    pub path: Seq<char>,
    pub size: u64,
    pub packed: Option<u64>,
    pub modified: Option<Moment>,
    pub is_dir: bool,
    pub mode: Option<u32>,
    pub encrypted: bool,
}

impl View for Member {
    type V = MemberView;

    open spec fn view(&self) -> MemberView {
        MemberView {
            path: self.path@,
            size: self.size,
            packed: self.packed,
            modified: self.modified,
            is_dir: self.is_dir,
            mode: self.mode,
            encrypted: self.encrypted,
        }
    }
}

/// The members with their paths in the one shape, without those whose path
/// comes to nothing.
pub open spec fn normal_members(members: Seq<Member>) -> Seq<MemberView>
    decreases members.len(),
{
    if members.len() == 0 {
        Seq::empty()
    } else {
        let front = normal_members(members.drop_last());
        let path = normal(members.last().path@);
        if path.len() > 0 {
            front.push((MemberView { path, ..members.last()@ }))
        } else {
            front
        }
    }
}

/// The characters of each member.
pub open spec fn member_views(members: Seq<Member>) -> Seq<MemberView> {
    members.map_values(|member: Member| member@)
}

/// An archive's index, made of what its reader found.
pub fn list_with(format: &Format, members: &[Member]) -> (r: Listing)
    ensures
        r.format == format.name,
        member_views(r.members@) == normal_members(members@),
{
    let mut out: Vec<Member> = Vec::new();
    let mut i: usize = 0;
    assert(members@.take(0) =~= Seq::<Member>::empty());
    assert(member_views(out@) =~= Seq::empty());
    while i < members.len()
        invariant
            i <= members@.len(),
            member_views(out@) == normal_members(members@.take(i as int)),
        decreases members@.len() - i,
    {
        let member: &Member = &members[i];
        let path: String = normalise(member.path.as_str());
        proof {
            assert(members@.take(i + 1).drop_last() =~= members@.take(i as int));
            assert(members@.take(i + 1).last() == *member);
        }
        if !path.as_str().is_empty() {
            let ghost was = member_views(out@);
            let kept: Member = Member {
                path,
                size: member.size,
                packed: member.packed,
                modified: member.modified,
                is_dir: member.is_dir,
                mode: member.mode,
                encrypted: member.encrypted,
            };
            out.push(kept);
            assert(member_views(out@) =~= was.push(kept@));
        }
        i += 1;
    }
    assert(members@.take(i as int) =~= members@);
    Listing { format: format.name, members: out }
}

/// Whether the name a member was stored under is the one asked for.
///
/// The name as stored may differ from the one shown, so both are brought to
/// one shape first.
pub fn is_wanted(stored: &str, member: &str) -> (r: bool)
    ensures
        r == (normal(stored@) == normal(member@)),
{
    text::same(normalise(stored).as_str(), normalise(member).as_str())
}

/// What is answered where no member of that name was found.
pub fn not_in_here(member: &str) -> (r: Trouble)
    ensures
        r.kind == TroubleKind::NotFound,
        r.message@ == member@ + " is not in here"@,
{
    Trouble {
        kind: TroubleKind::NotFound,
        message: text::concat2(member, " is not in here"),
    }
}

// ---- one level ------------------------------------------------------------------------

/// One line of a listing at one level inside an archive.
#[derive(Debug, Clone, PartialEq, Eq)]
pub struct Level {
    pub name: String,
    /// The full member path, for reading it back out.
    pub path: String,
    pub size: u64,
    pub modified: Option<Moment>,
    pub is_dir: bool,
    pub mode: Option<u32>,
}

/// A line with its texts as characters.
pub struct LevelView {
    pub name: Seq<char>,
    pub path: Seq<char>,
    pub size: u64,
    pub modified: Option<Moment>,
    pub is_dir: bool,
    pub mode: Option<u32>,
}

impl View for Level {
    type V = LevelView;

    open spec fn view(&self) -> LevelView {
        LevelView {
            name: self.name@,
            path: self.path@,
            size: self.size,
            modified: self.modified,
            is_dir: self.is_dir,
            mode: self.mode,
        }
    }
}

/// The characters of each line.
pub open spec fn level_views(levels: Seq<Level>) -> Seq<LevelView> {
    levels.map_values(|level: Level| level@)
}

/// The first line at or after `from` with a name; the length where there is
/// none.
pub open spec fn line_of(levels: Seq<LevelView>, name: Seq<char>, from: int) -> int
    decreases levels.len() - from,
{
    if from >= levels.len() {
        levels.len() as int
    } else if levels[from].name == name {
        from
    } else {
        line_of(levels, name, from + 1)
    }
}

/// What stands in front of every path at a level.
pub open spec fn level_prefix(inside: Seq<char>) -> Seq<char> {
    if normal(inside).len() == 0 {
        Seq::empty()
    } else {
        normal(inside) + "/"@
    }
}

/// The line for a directory that something below it stood up.
pub open spec fn implied_directory(prefix: Seq<char>, name: Seq<char>) -> LevelView {
    LevelView {
        name,
        path: prefix + name,
        size: 0,
        modified: None,
        is_dir: true,
        mode: None,
    }
}

/// The line for a member that stands at this level.
pub open spec fn own_line(member: Member, name: Seq<char>) -> LevelView {
    LevelView {
        name,
        path: member.path@,
        size: member.size,
        modified: member.modified,
        is_dir: member.is_dir,
        mode: member.mode,
    }
}

/// A level with one more member taken into account.
///
/// One further down stands up the directory it lies in, once. One at this
/// level is a line, or, where its name already has one, fills in the date and
/// the permissions if they are not known yet.
pub open spec fn with_member(
    levels: Seq<LevelView>,
    member: Member,
    prefix: Seq<char>,
) -> Seq<LevelView> {
    let rest = member.path@.skip(prefix.len() as int);
    let slash = text::seek(rest, '/', 0);
    if !text::begins(member.path@, prefix) || rest.len() == 0 {
        levels
    } else if slash < rest.len() {
        let directory = rest.take(slash);
        if line_of(levels, directory, 0) < levels.len() {
            levels
        } else {
            levels.push(implied_directory(prefix, directory))
        }
    } else {
        let at = line_of(levels, rest, 0);
        if at < levels.len() {
            if levels[at].modified is None {
                levels.update(
                    at,
                    (LevelView { modified: member.modified, mode: member.mode, ..levels[at] }),
                )
            } else {
                levels
            }
        } else {
            levels.push(own_line(member, rest))
        }
    }
}

/// The lines of a level, member by member.
pub open spec fn lines_at(members: Seq<Member>, prefix: Seq<char>) -> Seq<LevelView>
    decreases members.len(),
{
    if members.len() == 0 {
        Seq::empty()
    } else {
        with_member(lines_at(members.drop_last(), prefix), members.last(), prefix)
    }
}

fn prefix_of(inside: &str) -> (r: String)
    ensures
        r@ == level_prefix(inside@),
{
    let mut prefix: String = normalise(inside);
    if !prefix.as_str().is_empty() {
        prefix.append("/");
    } else {
        assert(prefix@ =~= Seq::<char>::empty());
    }
    prefix
}

fn find_line(levels: &Vec<Level>, name: &str) -> (r: Option<usize>)
    ensures
        match r {
            Some(i) => i < levels@.len() && line_of(level_views(levels@), name@, 0) == i,
            None => line_of(level_views(levels@), name@, 0) == levels@.len(),
        },
{
    let ghost views = level_views(levels@);
    let mut i: usize = 0;
    while i < levels.len()
        invariant
            i <= levels@.len(),
            views == level_views(levels@),
            line_of(views, name@, 0) == line_of(views, name@, i as int),
        decreases levels@.len() - i,
    {
        assert(views[i as int] == levels@[i as int]@);
        if text::same(levels[i].name.as_str(), name) {
            return Some(i);
        }
        i += 1;
    }
    None
}

/// What a panel should show at one level inside an archive.
///
/// Archives store a flat list, and many store no directory entries at all. So
/// the directories at each level are worked out from the members below them
/// rather than trusted to exist, and a directory entry that is present is not
/// shown twice.
pub fn at(members: &[Member], inside: &str) -> (r: Vec<Level>)
    ensures
        level_views(r@) == lines_at(members@, level_prefix(inside@)),
{
    let prefix: String = prefix_of(inside);
    let p: Vec<char> = chars(prefix.as_str());
    let mut out: Vec<Level> = Vec::new();
    let mut i: usize = 0;
    assert(members@.take(0) =~= Seq::<Member>::empty());
    assert(level_views(out@) =~= Seq::empty());
    while i < members.len()
        invariant
            i <= members@.len(),
            p@ == prefix@,
            level_views(out@) == lines_at(members@.take(i as int), prefix@),
        decreases members@.len() - i,
    {
        let member: &Member = &members[i];
        proof {
            assert(members@.take(i + 1).drop_last() =~= members@.take(i as int));
            assert(members@.take(i + 1).last() == *member);
        }
        i += 1;
        let ghost was = level_views(out@);
        let path: Vec<char> = chars(member.path.as_str());
        if !text::is_at(&path, &p, 0) || path.len() == p.len() {
            continue;
        }
        let rest: Vec<char> = text::slice(&path, p.len(), path.len());
        assert(rest@ =~= member.path@.skip(prefix@.len() as int));
        match text::find_char(&rest, '/', 0) {
            Some(slash) => {
                let directory: String = part(&rest, 0, slash);
                assert(directory@ =~= rest@.take(slash as int));
                if find_line(&out, directory.as_str()).is_none() {
                    let full: String = text::concat2(prefix.as_str(), directory.as_str());
                    let line: Level = Level {
                        name: directory,
                        path: full,
                        size: 0,
                        modified: None,
                        is_dir: true,
                        mode: None,
                    };
                    out.push(line);
                    assert(level_views(out@) =~= was.push(line@));
                }
            },
            None => {
                let name: String = text::string(&rest);
                match find_line(&out, name.as_str()) {
                    Some(at) => {
                        assert(was[at as int] == out@[at as int]@);
                        if out[at].modified.is_none() {
                            let line: Level = Level {
                                name: out[at].name.clone(),
                                path: out[at].path.clone(),
                                size: out[at].size,
                                modified: member.modified,
                                is_dir: out[at].is_dir,
                                mode: member.mode,
                            };
                            out.set(at, line);
                            assert(level_views(out@) =~= was.update(at as int, line@));
                        }
                    },
                    None => {
                        let line: Level = Level {
                            name,
                            path: member.path.clone(),
                            size: member.size,
                            modified: member.modified,
                            is_dir: member.is_dir,
                            mode: member.mode,
                        };
                        out.push(line);
                        assert(level_views(out@) =~= was.push(line@));
                    },
                }
            },
        }
    }
    assert(members@.take(i as int) =~= members@);
    out
}

/// Whether a member lies at or below a level other than the top.
pub open spec fn lies_in(path: Seq<char>, level: Seq<char>) -> bool {
    path == level || text::begins(path, level + "/"@)
}

/// Whether anything inside the archive sits at this level.
///
/// A path typed or remembered from last time can point at a directory that no
/// longer exists, and walking into nothing should say so.
pub fn holds(members: &[Member], inside: &str) -> (r: bool)
    ensures
        r == (normal(inside@).len() == 0 || exists|i: int|
            0 <= i < members@.len() && lies_in((#[trigger] members@[i]).path@, normal(inside@))),
{
    let level: String = normalise(inside);
    if level.as_str().is_empty() {
        return true;
    }
    let prefix: String = text::concat2(level.as_str(), "/");
    let mut i: usize = 0;
    while i < members.len()
        invariant
            i <= members@.len(),
            level@ == normal(inside@),
            prefix@ == level@ + "/"@,
            forall|j: int| 0 <= j < i ==> !lies_in((#[trigger] members@[j]).path@, level@),
        decreases members@.len() - i,
    {
        if text::same(members[i].path.as_str(), level.as_str()) || text::starts_with(
            members[i].path.as_str(),
            prefix.as_str(),
        ) {
            assert(lies_in(members@[i as int].path@, level@));
            return true;
        }
        i += 1;
    }
    false
}

/// The members at or below a level, in their order.
pub open spec fn members_in(members: Seq<Member>, level: Seq<char>) -> Seq<Member>
    decreases members.len(),
{
    if members.len() == 0 {
        Seq::empty()
    } else if level.len() == 0 || lies_in(members.last().path@, level) {
        members_in(members.drop_last(), level).push(members.last())
    } else {
        members_in(members.drop_last(), level)
    }
}

/// Everything at or below a level, for extracting a whole directory.
pub fn under<'a>(members: &'a [Member], inside: &str) -> (r: Vec<&'a Member>)
    ensures
        r@.map_values(|member: &'a Member| *member) == members_in(members@, normal(inside@)),
{
    let level: String = normalise(inside);
    let top: bool = level.as_str().is_empty();
    let prefix: String = text::concat2(level.as_str(), "/");
    let mut out: Vec<&'a Member> = Vec::new();
    let mut i: usize = 0;
    assert(members@.take(0) =~= Seq::<Member>::empty());
    assert(out@.map_values(|member: &'a Member| *member) =~= Seq::empty());
    while i < members.len()
        invariant
            i <= members@.len(),
            level@ == normal(inside@),
            top == (level@.len() == 0),
            prefix@ == level@ + "/"@,
            out@.map_values(|member: &'a Member| *member) == members_in(
                members@.take(i as int),
                level@,
            ),
        decreases members@.len() - i,
    {
        proof {
            assert(members@.take(i + 1).drop_last() =~= members@.take(i as int));
            assert(members@.take(i + 1).last() == members@[i as int]);
        }
        if top || text::same(members[i].path.as_str(), level.as_str()) || text::starts_with(
            members[i].path.as_str(),
            prefix.as_str(),
        ) {
            let ghost was = out@.map_values(|member: &'a Member| *member);
            out.push(&members[i]);
            assert(out@.map_values(|member: &'a Member| *member) =~= was.push(members@[i as int]));
        }
        i += 1;
    }
    assert(members@.take(i as int) =~= members@);
    out
}

// ---- what holds of every level ---------------------------------------------------------

/// Whether a name is on a list of lines.
pub open spec fn shows(levels: Seq<LevelView>, name: Seq<char>) -> bool {
    exists|i: int| 0 <= i < levels.len() && (#[trigger] levels[i]).name == name
}

/// The name under which a member shows at a level, if it shows there.
pub open spec fn shown_as(path: Seq<char>, prefix: Seq<char>) -> Option<Seq<char>> {
    let rest = path.skip(prefix.len() as int);
    if !text::begins(path, prefix) || rest.len() == 0 {
        None
    } else {
        Some(rest.take(text::seek(rest, '/', 0)))
    }
}

proof fn lemma_line_of(levels: Seq<LevelView>, name: Seq<char>, from: int)
    requires
        0 <= from <= levels.len(),
    ensures
        from <= line_of(levels, name, from) <= levels.len(),
        line_of(levels, name, from) < levels.len() ==> levels[line_of(levels, name, from)].name
            == name,
        forall|i: int|
            from <= i < line_of(levels, name, from) ==> (#[trigger] levels[i]).name != name,
    decreases levels.len() - from,
{
    if from < levels.len() && levels[from].name != name {
        lemma_line_of(levels, name, from + 1);
    }
}

/// A level shows each name once; it shows every member that lies below it,
/// by the first part of what is left of its path; and it shows nothing else.
pub proof fn law_level_shows_each_name_once(members: Seq<Member>, prefix: Seq<char>)
    ensures
        forall|i: int, j: int|
            0 <= i < j < lines_at(members, prefix).len() ==> (#[trigger] lines_at(
                members,
                prefix,
            )[i]).name != (#[trigger] lines_at(members, prefix)[j]).name,
        forall|k: int|
            0 <= k < members.len() ==> (shown_as((#[trigger] members[k]).path@, prefix) matches Some(
                name,
            ) ==> shows(lines_at(members, prefix), name)),
        forall|i: int|
            0 <= i < lines_at(members, prefix).len() ==> exists|k: int|
                0 <= k < members.len() && shown_as((#[trigger] members[k]).path@, prefix) == Some(
                    (#[trigger] lines_at(members, prefix)[i]).name,
                ),
    decreases members.len(),
{
    if members.len() > 0 {
        let front = members.drop_last();
        let last = members.last();
        law_level_shows_each_name_once(front, prefix);
        let was = lines_at(front, prefix);
        let now = lines_at(members, prefix);
        let rest = last.path@.skip(prefix.len() as int);
        let slash = text::seek(rest, '/', 0);
        text::lemma_seek(rest, '/', 0);
        let name = rest.take(slash);
        if slash == rest.len() {
            assert(name =~= rest);
        }
        lemma_line_of(was, name, 0);
        let at = line_of(was, name, 0);
        assert(forall|i: int| 0 <= i < was.len() ==> (#[trigger] now[i]).name == was[i].name);
        assert(now.len() > was.len() ==> now.len() == was.len() + 1 && now[was.len() as int].name
            == name && at == was.len());
        assert forall|k: int| 0 <= k < members.len() implies (shown_as(
            (#[trigger] members[k]).path@,
            prefix,
        ) matches Some(name) ==> shows(now, name)) by {
            if let Some(wanted) = shown_as(members[k].path@, prefix) {
                if k < front.len() {
                    assert(front[k] == members[k]);
                    assert(shows(was, wanted));
                    let i = choose|i: int|
                        0 <= i < was.len() && (#[trigger] was[i]).name == wanted;
                    assert(now[i].name == wanted);
                } else {
                    if at < was.len() {
                        assert(now[at].name == wanted);
                    } else {
                        assert(now[was.len() as int].name == wanted);
                    }
                }
            }
        }
        assert forall|i: int| 0 <= i < now.len() implies exists|k: int|
            0 <= k < members.len() && shown_as((#[trigger] members[k]).path@, prefix) == Some(
                (#[trigger] now[i]).name,
            ) by {
            if i < was.len() {
                let k = choose|k: int|
                    0 <= k < front.len() && shown_as((#[trigger] front[k]).path@, prefix) == Some(
                        was[i].name,
                    );
                assert(members[k] == front[k]);
            } else {
                assert(members[members.len() - 1] == last);
            }
        }
    }
}

/// What a level shows of each name: a line leads to the path of the level with
/// the name behind it; a file is shown as a member of that path has it; and
/// what is shown as a directory is one in the archive, or has something below
/// it there.
pub proof fn law_lines_show_what_is_in_the_archive(members: Seq<Member>, prefix: Seq<char>, i: int)
    requires
        0 <= i < lines_at(members, prefix).len(),
    ensures
        ({
            let line = lines_at(members, prefix)[i];
            &&& line.path == prefix + line.name
            &&& !line.is_dir ==> exists|k: int|
                0 <= k < members.len() && (#[trigger] members[k]).path@ == line.path
                    && !members[k].is_dir && members[k].size == line.size
            &&& line.is_dir ==> exists|k: int|
                0 <= k < members.len() && (((#[trigger] members[k]).path@ == line.path
                    && members[k].is_dir) || text::begins(
                    members[k].path@,
                    prefix + line.name + seq!['/'],
                ))
        }),
    decreases members.len(),
{
    let front = members.drop_last();
    let last = members.last();
    let was = lines_at(front, prefix);
    let now = lines_at(members, prefix);
    let rest = last.path@.skip(prefix.len() as int);
    let slash = text::seek(rest, '/', 0);
    text::lemma_seek(rest, '/', 0);
    let end = members.len() - 1;
    assert(members[end] == last);
    if slash == rest.len() {
        assert(rest.take(slash) =~= rest);
    }
    lemma_line_of(was, rest.take(slash), 0);
    if text::begins(last.path@, prefix) {
        assert(last.path@ =~= prefix + rest);
    }
    if i < was.len() {
        law_lines_show_what_is_in_the_archive(front, prefix, i);
        let line = was[i];
        assert(now[i].name == line.name && now[i].path == line.path && now[i].is_dir == line.is_dir
            && now[i].size == line.size);
        if !line.is_dir {
            let k = choose|k: int|
                0 <= k < front.len() && (#[trigger] front[k]).path@ == line.path
                    && !front[k].is_dir && front[k].size == line.size;
            assert(members[k] == front[k]);
        } else {
            let k = choose|k: int|
                0 <= k < front.len() && (((#[trigger] front[k]).path@ == line.path
                    && front[k].is_dir) || text::begins(
                    front[k].path@,
                    prefix + line.name + seq!['/'],
                ));
            assert(members[k] == front[k]);
        }
    } else if slash < rest.len() {
        let name = rest.take(slash);
        let head = prefix + name + seq!['/'];
        assert(now[i] == implied_directory(prefix, name));
        assert(last.path@.subrange(0, head.len() as int) =~= head);
        assert(text::begins(members[end].path@, head));
    } else {
        assert(now[i] == own_line(last, rest));
    }
}

/// Members of an archive as they are kept: each with its path in the one
/// shape, and nothing else of it changed; one whose path comes to nothing is
/// left out.
pub proof fn law_members_keep_all_but_their_spelling(members: Seq<Member>, member: Member)
    ensures
        normal_members(members.push(member)) == if normal(member.path@).len() == 0 {
            normal_members(members)
        } else {
            normal_members(members).push(
                (MemberView { path: normal(member.path@), ..member@ }),
            )
        },
{
    assert(members.push(member).drop_last() =~= members);
}

/// What is extracted for a level is what lies there or below, in the order of
/// the archive, and nothing else; at the top it is everything.
pub proof fn law_a_level_is_extracted_whole(members: Seq<Member>, level: Seq<char>)
    ensures
        level.len() == 0 ==> members_in(members, level) == members,
        level.len() > 0 ==> members_in(members, level) == members.filter(
            |member: Member| member.path@ == level || text::begins(member.path@, level.push('/')),
        ),
    decreases members.len(),
{
    reveal(Seq::filter);
    reveal_strlit("/");
    assert(level + "/"@ =~= level.push('/'));
    if members.len() > 0 {
        law_a_level_is_extracted_whole(members.drop_last(), level);
        assert(members =~= members.drop_last().push(members.last()));
    } else {
        assert(members_in(members, level) =~= members);
    }
}

/// The pieces of a path made of two are those of the one and those of the
/// other: nothing is dropped from between, and each piece is kept as it is
/// where it is not empty, `.` or `..`.
pub proof fn law_pieces_are_kept_one_by_one(first: Seq<char>, second: Seq<char>, piece: Seq<char>)
    ensures
        inner_pieces(first + seq!['/'] + second) == inner_pieces(first) + inner_pieces(second),
        inner_pieces(first + seq!['\\'] + second) == inner_pieces(first) + inner_pieces(second),
        !piece.contains('/') && !piece.contains('\\') ==> inner_pieces(piece) == if piece.len() == 0
            || piece == seq!['.'] || piece == seq!['.', '.'] {
            Seq::empty()
        } else {
            seq![piece]
        },
{
    let (a, b) = (text::swapped(first, '\\', '/'), text::swapped(second, '\\', '/'));
    lemma_split_two(a, b, '/');
    lemma_kept_two(text::split(a, '/'), text::split(b, '/'));
    assert(text::swapped(first + seq!['/'] + second, '\\', '/') =~= a + seq!['/'] + b);
    assert(text::swapped(first + seq!['\\'] + second, '\\', '/') =~= a + seq!['/'] + b);
    if !piece.contains('/') && !piece.contains('\\') {
        assert forall|j: int| 0 <= j < piece.len() implies piece[j] != '/' && piece[j] != '\\' by {
            assert(piece.contains(piece[j]));
        }
        assert(text::swapped(piece, '\\', '/') =~= piece);
        text::lemma_split_whole(piece, '/');
        assert(seq![piece].drop_last() =~= Seq::<Seq<char>>::empty());
        assert(kept_pieces(seq![piece].drop_last()) =~= Seq::<Seq<char>>::empty());
        assert(inner_pieces(piece) =~= if worth_keeping(piece) {
            seq![piece]
        } else {
            Seq::empty()
        });
    }
}

proof fn lemma_split_two(a: Seq<char>, b: Seq<char>, c: char)
    ensures
        text::split(a + seq![c] + b, c) == text::split(a, c) + text::split(b, c),
    decreases a.len(),
{
    let all = a + seq![c] + b;
    text::lemma_seek(a, c, 0);
    let at = text::seek(a, c, 0);
    if at < a.len() {
        let rest = a.skip(at + 1);
        lemma_split_two(rest, b, c);
        text::lemma_split_at(all, c, at);
        assert(all.take(at) =~= a.take(at));
        assert(all.skip(at + 1) =~= rest + seq![c] + b);
        assert(seq![a.take(at)] + (text::split(rest, c) + text::split(b, c)) =~= (seq![a.take(at)]
            + text::split(rest, c)) + text::split(b, c));
    } else {
        text::lemma_split_at(all, c, a.len() as int);
        text::lemma_split_whole(a, c);
        assert(all.take(a.len() as int) =~= a);
        assert(all.skip(a.len() as int + 1) =~= b);
    }
}

proof fn lemma_kept_two(a: Seq<Seq<char>>, b: Seq<Seq<char>>)
    ensures
        kept_pieces(a + b) == kept_pieces(a) + kept_pieces(b),
    decreases b.len(),
{
    if b.len() == 0 {
        assert(a + b =~= a);
        assert(kept_pieces(a) + kept_pieces(b) =~= kept_pieces(a));
    } else {
        assert((a + b).drop_last() =~= a + b.drop_last());
        lemma_kept_two(a, b.drop_last());
        assert(kept_pieces(a + b) =~= kept_pieces(a) + kept_pieces(b));
    }
}

/// The bytes decide before the name does, and the case of a name decides
/// nothing.
pub proof fn law_bytes_decide_before_the_name(
    style: Style,
    head: Seq<u8>,
    path: Seq<char>,
    other: Seq<char>,
)
    ensures
        kind_by_magic(head, 0) is Some ==> kind_of(style, head, path) == kind_by_magic(head, 0),
        kind_by_magic(head, 0) is Some ==> kind_of(style, head, path) == kind_of(
            style,
            head,
            other,
        ),
        pathname::file_name(style, path) is Some && pathname::file_name(style, other) is Some
            && text::all_ascii(pathname::file_name(style, path)->0) && text::all_ascii(
            pathname::file_name(style, other)->0,
        ) && text::ascii_lower(pathname::file_name(style, path)->0) == text::ascii_lower(
            pathname::file_name(style, other)->0,
        ) ==> kind_by_name(style, path) == kind_by_name(style, other),
{
}

/// A format is told by its bytes only where one of its signatures stands in
/// them, and by a name only where the name ends in one of its endings; and
/// where that is so for some format, one is told.
pub proof fn law_formats_are_told_by_their_signs(head: Seq<u8>, name: Seq<char>, kind: FormatKind)
    ensures
        kind_by_magic(head, 0) matches Some(found) ==> marked(found, head),
        marked(kind, head) ==> kind_by_magic(head, 0) is Some,
        kind_by_ending(name, 0) matches Some(found) ==> ends_like(found, name),
        ends_like(kind, name) ==> kind_by_ending(name, 0) is Some,
{
    lemma_told_by_magic(head, 0, kind);
    lemma_told_by_ending(name, 0, kind);
    let order = kind_order();
    assert(order[0] == FormatKind::Zip && order[1] == FormatKind::TarGz && order[2]
        == FormatKind::TarXz && order[3] == FormatKind::TarBz2 && order[4] == FormatKind::Tar
        && order[5] == FormatKind::SevenZ && order[6] == FormatKind::Lha);
    assert(order.contains(kind)) by {
        let at = match kind {
            FormatKind::Zip => 0int,
            FormatKind::TarGz => 1,
            FormatKind::TarXz => 2,
            FormatKind::TarBz2 => 3,
            FormatKind::Tar => 4,
            FormatKind::SevenZ => 5,
            FormatKind::Lha => 6,
        };
        assert(order[at] == kind);
    }
}

proof fn lemma_told_by_magic(head: Seq<u8>, from: int, kind: FormatKind)
    requires
        0 <= from <= kind_order().len(),
    ensures
        kind_by_magic(head, from) matches Some(found) ==> marked(found, head),
        marked(kind, head) && kind_order().skip(from).contains(kind) ==> kind_by_magic(
            head,
            from,
        ) is Some,
        from == 0 ==> kind_order().skip(from) == kind_order(),
    decreases kind_order().len() - from,
{
    assert(from == 0 ==> kind_order().skip(from) =~= kind_order());
    if from < kind_order().len() {
        lemma_told_by_magic(head, from + 1, kind);
        let here = kind_order().skip(from);
        let next = kind_order().skip(from + 1);
        if here.contains(kind) && kind != kind_order()[from] {
            let k = choose|k: int| 0 <= k < here.len() && here[k] == kind;
            assert(k > 0);
            assert(next[k - 1] == kind);
        }
    }
}

proof fn lemma_told_by_ending(name: Seq<char>, from: int, kind: FormatKind)
    requires
        0 <= from <= kind_order().len(),
    ensures
        kind_by_ending(name, from) matches Some(found) ==> ends_like(found, name),
        ends_like(kind, name) && kind_order().skip(from).contains(kind) ==> kind_by_ending(
            name,
            from,
        ) is Some,
        from == 0 ==> kind_order().skip(from) == kind_order(),
    decreases kind_order().len() - from,
{
    assert(from == 0 ==> kind_order().skip(from) =~= kind_order());
    if from < kind_order().len() {
        lemma_told_by_ending(name, from + 1, kind);
        let here = kind_order().skip(from);
        let next = kind_order().skip(from + 1);
        if here.contains(kind) && kind != kind_order()[from] {
            let k = choose|k: int| 0 <= k < here.len() && here[k] == kind;
            assert(k > 0);
            assert(next[k - 1] == kind);
        }
    }
}

/// A line has the time and the mode of a member of its path, or neither.
pub proof fn law_a_line_has_the_time_of_its_member(members: Seq<Member>, prefix: Seq<char>, i: int)
    requires
        0 <= i < lines_at(members, prefix).len(),
    ensures
        ({
            let line = lines_at(members, prefix)[i];
            (line.modified is None && line.mode is None) || exists|k: int|
                0 <= k < members.len() && (#[trigger] members[k]).path@ == line.path
                    && members[k].modified == line.modified && members[k].mode == line.mode
        }),
    decreases members.len(),
{
    let front = members.drop_last();
    let last = members.last();
    let was = lines_at(front, prefix);
    let now = lines_at(members, prefix);
    let rest = last.path@.skip(prefix.len() as int);
    let slash = text::seek(rest, '/', 0);
    text::lemma_seek(rest, '/', 0);
    let end = members.len() - 1;
    assert(members[end] == last);
    if slash == rest.len() {
        assert(rest.take(slash) =~= rest);
    }
    lemma_line_of(was, rest.take(slash), 0);
    if text::begins(last.path@, prefix) {
        assert(last.path@ =~= prefix + rest);
    }
    if i < was.len() {
        law_a_line_has_the_time_of_its_member(front, prefix, i);
        law_lines_show_what_is_in_the_archive(front, prefix, i);
        let line = was[i];
        if now[i] == line {
            if line.modified is Some || line.mode is Some {
                let k = choose|k: int|
                    0 <= k < front.len() && (#[trigger] front[k]).path@ == line.path
                        && front[k].modified == line.modified && front[k].mode == line.mode;
                assert(members[k] == front[k]);
            }
        } else {
            assert(line.name == rest);
            assert(members[end].path@ == now[i].path);
        }
    } else if slash >= rest.len() {
        assert(now[i] == own_line(last, rest));
        assert(members[end].path@ == now[i].path);
    }
}

/// A level is asked for by its path in the one shape, with a slash behind it;
/// the top by nothing.
pub proof fn law_a_level_is_asked_for_by_its_path(inside: Seq<char>)
    ensures
        normal(inside).len() == 0 ==> level_prefix(inside).len() == 0,
        normal(inside).len() > 0 ==> level_prefix(inside) == normal(inside) + seq!['/'],
        normal(inside) == text::joined_by(inner_pieces(inside), '/'),
{
    reveal_strlit("/");
    assert("/"@ =~= seq!['/']);
}

} // verus!
