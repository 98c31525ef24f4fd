//! LHA / LZH, read-only: what its headers mean here.

use vstd::prelude::*;
use super::Member;
use crate::moment::Moment;
use crate::trouble::{Trouble, TroubleKind};

verus! {

/// The LHA reader. The format has no encryption of its own, so a password is
/// never consulted.
#[derive(Debug, Clone, Copy)]
pub struct Lha;

/// One header of an LHA archive, as the decoder reports it.
#[derive(Debug, Clone)]
pub struct Header {
    pub path: String,
    pub original_size: u64,
    pub compressed_size: u64,
    /// The modification time in seconds since 1970, where the header has one
    /// that the local clock knew.
    pub modified: Option<i64>,
    pub is_directory: bool,
}

impl Lha {
    /// The member a header stands for. A time before 1970 is no time.
    pub fn member(header: &Header) -> (r: Member)
        ensures
            r.path == header.path,
            r.size == header.original_size,
            r.packed == Some(header.compressed_size),
            r.modified == match header.modified {
                Some(seconds) => if seconds >= 0 {
                    Some(Moment { nanos: (seconds * 1_000_000_000) as i128 })
                } else {
                    None
                },
                None => None,
            },
            r.is_dir == header.is_directory,
            r.mode is None,
            !r.encrypted,
    {
        Member {
            path: header.path.clone(),
            size: header.original_size,
            packed: Some(header.compressed_size),
            modified: match header.modified {
                Some(seconds) => if seconds >= 0 {
                    Some(Moment::from_seconds(seconds))
                } else {
                    None
                },
                None => None,
            },
            is_dir: header.is_directory,
            mode: None,
            encrypted: false,
        }
    }
}

/// What to do about a file of an archive while looking for a member.
#[derive(Debug, Clone)]
pub enum Step {
    /// Go on to the next file.
    Next,
    /// This is the one: unpack it.
    Unpack,
    /// This is the one, and it cannot be unpacked.
    Refuse(Trouble),
}

impl Lha {
    /// Whether the file at hand, by the path it is stored under, is the
    /// member looked for, and whether the decoder knows how it is packed.
    pub fn look_at(stored: &str, supported: bool, member: &str) -> (r: Step)
        ensures
            match r {
                Step::Next => super::normal(stored@) != super::normal(member@),
                Step::Unpack => super::normal(stored@) == super::normal(member@) && supported,
                Step::Refuse(trouble) => {
                    &&& super::normal(stored@) == super::normal(member@)
                    &&& !supported
                    &&& trouble.kind == TroubleKind::Other
                    &&& trouble.message@
                        == "this file uses a compression method that is not supported"@
                },
            },
    {
        if !super::is_wanted(stored, member) {
            return Step::Next;
        }
        if supported {
            Step::Unpack
        } else {
            Step::Refuse(
                Trouble::new(
                    TroubleKind::Other,
                    "this file uses a compression method that is not supported",
                ),
            )
        }
    }
}

} // verus!
