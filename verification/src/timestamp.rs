//! When files were made and used.
use vstd::prelude::*;

verus! {

/// A point in time as it is stored: the packed date and time, tens of
/// milliseconds to add to it, and the offset from UTC in quarters of an hour.
#[derive(Clone, Copy, Debug, PartialEq, Eq, Structural)]
pub struct Timestamp {
    pub timestamp: u32,
    pub increment_10ms: u8,
    pub utc_offset: i8,
}

impl Timestamp {
    pub fn new(timestamp: u32, increment_10ms: u8, utc_offset: i8) -> (r: Self)
        ensures
            r == (Timestamp { timestamp, increment_10ms, utc_offset }),
    {
        Timestamp { timestamp, increment_10ms, utc_offset }
    }
}

/// The times that are kept of a file or directory.
#[derive(Clone, Copy, Debug, PartialEq, Eq, Structural)]
pub struct Timestamps {
    pub created: Timestamp,
    pub modified: Timestamp,
    pub accessed: Timestamp,
}

impl Timestamps {
    pub fn new(created: Timestamp, modified: Timestamp, accessed: Timestamp) -> (r: Self)
        ensures
            r == (Timestamps { created, modified, accessed }),
    {
        Timestamps { created, modified, accessed }
    }
}

} // verus!
