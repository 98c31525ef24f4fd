//! Points in time, as the file system and the archives write them down.

use vstd::prelude::*;

verus! {

/// A point in time: nanoseconds since the beginning of 1970, UTC.
#[derive(Debug, Clone, Copy, PartialEq, Eq, Structural)]
pub struct Moment {
    pub nanos: i128,
}

impl Moment {
    /// The moment so many seconds after the beginning of 1970.
    pub fn from_seconds(seconds: i64) -> (r: Moment)
        ensures
            r.nanos == seconds * 1_000_000_000,
    {
        Moment { nanos: seconds as i128 * 1_000_000_000 }
    }

    /// Whether this moment is after another.
    pub fn is_after(self, other: Moment) -> (r: bool)
        ensures
            r == (self.nanos > other.nanos),
    {
        self.nanos > other.nanos
    }
}

} // verus!
