//! The metadata that the cache keeps of a file.

use vstd::prelude::*;
use std::time::SystemTime;

verus! {

/// A point in time as the standard library measures it.  The cache carries
/// such values and never looks inside them.
#[verifier::external_type_specification]
#[verifier::external_body]
pub struct ExSystemTime(SystemTime);

/// The current time, `SystemTime::now` of the standard library.  Nothing is
/// claimed of the value: two calls may give any two times.
pub assume_specification[ SystemTime::now ]() -> (t: SystemTime)
;

#[derive(Clone, Copy, Debug)]
pub struct Metadata {
    /// Number of paths that name the file.
    pub nlinks: u32,
    /// Length of the file in bytes.
    pub size: i32,
    pub atim: SystemTime,
    pub mtim: SystemTime,
    pub ctim: SystemTime,
}

impl Metadata {
    /// The metadata of an empty file that no path names yet; its times are now.
    pub fn new() -> (m: Self)
        ensures
            m.nlinks == 0,
            m.size == 0,
    {
        Self {
            nlinks: 0,
            size: 0,
            atim: SystemTime::now(),
            mtim: SystemTime::now(),
            ctim: SystemTime::now(),
        }
    }
}

impl Default for Metadata {
    /// The metadata of an empty file that one path names; its times are now.
    fn default() -> (m: Self)
        ensures
            m.nlinks == 1,
            m.size == 0,
    {
        Self {
            nlinks: 1,
            size: 0,
            atim: SystemTime::now(),
            mtim: SystemTime::now(),
            ctim: SystemTime::now(),
        }
    }
}

} // verus!
