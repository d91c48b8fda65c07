//! Cluster numbers.

use vstd::prelude::*;

verus! {

/// A cluster number as stored on disk.  Only the low 28 bits of the 32-bit
/// representation are semantic; values 0 and 1 never name data, 2 is the
/// first usable cluster.
#[derive(Clone, Copy, Debug, PartialEq, Eq, Structural)]
pub struct Cluster(pub u32);

impl Cluster {
    pub fn from(raw: u32) -> (c: Cluster)
        ensures
            c.0 == raw,
    {
        Cluster(raw)
    }

    /// The raw 32-bit value.
    pub fn inner(&self) -> (r: u32)
        ensures
            r == self.0,
    {
        self.0
    }
}

} // verus!
