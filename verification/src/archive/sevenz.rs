//! 7z, read-only: what its entries and its refusals mean here.

use vstd::prelude::*;
use super::Member;
use crate::moment::Moment;
use crate::trouble::{Trouble, TroubleKind};

verus! {

/// The 7z reader.
#[derive(Debug, Clone, Copy)]
pub struct SevenZ;

/// One entry of a 7z index, as the decoder reports it.
#[derive(Debug, Clone)]
pub struct Entry {
    pub name: String,
    pub size: u64,
    pub compressed_size: u64,
    /// The modification time in 100ns ticks since 1601, where there is one.
    pub modified_ticks: Option<u64>,
    pub is_directory: bool,
}

/// What the decoder said when it refused.
#[derive(Debug, Clone)]
pub enum Refusal {
    /// It needs a password and had none.
    PasswordRequired,
    /// A checksum does not match: a wrong password, or a damaged archive.
    MaybeBadPassword,
    /// Anything else, in the decoder's own words.
    Other(String),
}

/// Seconds between 1601-01-01 and 1970-01-01.
pub const TO_UNIX: u64 = 11_644_473_600;

/// The moment of a Windows file time; nothing before 1970.
pub open spec fn windows_moment(ticks: u64) -> Option<Moment> {
    let seconds = ticks as int / 10_000_000;
    if seconds < TO_UNIX {
        None
    } else {
        Some(Moment { nanos: ((seconds - TO_UNIX) * 1_000_000_000) as i128 })
    }
}

/// Windows file time - 100ns ticks since 1601 - as a moment.
pub fn from_windows_time(ticks: u64) -> (r: Option<Moment>)
    ensures
        r == windows_moment(ticks),
{
    let seconds: u64 = ticks / 10_000_000;
    if seconds < TO_UNIX {
        None
    } else {
        Some(Moment { nanos: (seconds - TO_UNIX) as i128 * 1_000_000_000 })
    }
}

impl SevenZ {
    /// The member an entry stands for.
    ///
    /// An archive with an encrypted header has refused to list by now, so
    /// what needs the password is the content; the decoder does not say that
    /// per entry, so it is taken from whether one was needed to open it.
    pub fn member(entry: &Entry, password_given: bool) -> (r: Member)
        ensures
            r.path == entry.name,
            r.size == entry.size,
            r.packed == Some(entry.compressed_size),
            r.modified == match entry.modified_ticks {
                Some(ticks) => windows_moment(ticks),
                None => None,
            },
            r.is_dir == entry.is_directory,
            r.mode is None,
            r.encrypted == password_given,
    {
        Member {
            path: entry.name.clone(),
            size: entry.size,
            packed: Some(entry.compressed_size),
            modified: match entry.modified_ticks {
                Some(ticks) => from_windows_time(ticks),
                None => None,
            },
            is_dir: entry.is_directory,
            mode: None,
            encrypted: password_given,
        }
    }
}

/// Turn the decoder's refusal into ours, keeping "needs a password" and "that
/// password is wrong" apart from everything else and from each other.
///
/// The decoder cannot always tell a wrong password from a corrupt block.
/// Having just been given one, wrong is much the likelier of the two, and is
/// the one the user can do something about.
pub fn locked_or(refusal: Refusal, password_given: bool) -> (r: Trouble)
    ensures
        match refusal {
            Refusal::PasswordRequired => r.kind == TroubleKind::PermissionDenied && r.message@
                == super::NEEDS_PASSWORD@,
            Refusal::MaybeBadPassword => r.kind == TroubleKind::PermissionDenied && r.message@
                == (if password_given {
                super::WRONG_PASSWORD@
            } else {
                super::NEEDS_PASSWORD@
            }),
            Refusal::Other(said) => r.kind == TroubleKind::Other && r.message == said,
        },
{
    match refusal {
        Refusal::PasswordRequired => super::needs_password(),
        Refusal::MaybeBadPassword => {
            if password_given {
                super::wrong_password()
            } else {
                super::needs_password()
            }
        },
        Refusal::Other(said) => Trouble { kind: TroubleKind::Other, message: said },
    }
}

/// A Windows time counts tenths of microseconds from 1601, of which whole
/// seconds since 1970 are kept; what is earlier is not told.
pub proof fn law_windows_times_are_seconds_since_1970(seconds: int, ticks: int)
    requires
        0 <= ticks < 10_000_000,
        0 <= (seconds + 11_644_473_600) * 10_000_000 + ticks <= u64::MAX,
    ensures
        windows_moment(((seconds + 11_644_473_600) * 10_000_000 + ticks) as u64) == if seconds
            >= 0 {
            Some(Moment { nanos: (seconds * 1_000_000_000) as i128 })
        } else {
            None
        },
{
    let all = (seconds + 11_644_473_600) * 10_000_000 + ticks;
    assert(all / 10_000_000 == seconds + 11_644_473_600);
}

} // verus!
