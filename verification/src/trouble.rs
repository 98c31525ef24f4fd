//! What can go wrong, with a kind a caller can act on and words for a person.

use vstd::prelude::*;

verus! {

/// What sort of trouble it is.
#[derive(Debug, Clone, Copy, PartialEq, Eq, Structural)]
pub enum TroubleKind {
    NotFound,
    PermissionDenied,
    AlreadyExists,
    InvalidInput,
    InvalidData,
    Unsupported,
    Other,
}

/// Something that went wrong.
#[derive(Debug, Clone, PartialEq, Eq)]
pub struct Trouble {
    pub kind: TroubleKind,
    pub message: String,
}

impl Trouble {
    pub fn new(kind: TroubleKind, message: &str) -> (r: Trouble)
        ensures
            r.kind == kind,
            r.message@ == message@,
    {
        Trouble { kind, message: message.to_owned() }
    }
}

} // verus!
