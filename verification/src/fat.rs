//! Classification of File Allocation Table entries.

use vstd::prelude::*;

use crate::cluster::Cluster;

verus! {

/// What a FAT entry says about its cluster.
#[derive(Clone, Copy, Debug, PartialEq, Eq, Structural)]
pub enum Status {
    /// The cluster is unused.
    Free,
    /// The cluster is reserved.
    Reserved,
    /// The cluster holds data and the chain continues at the named cluster.
    Data(Cluster),
    /// The cluster is marked bad (the disk failed there).
    Bad,
    /// The cluster holds data and is the last of its chain; the payload is
    /// the masked on-disk value.
    Eoc(u32),
}

/// One 4-byte FAT entry, kept with its reserved high 4 bits.
#[derive(Clone, Copy, Debug, PartialEq, Eq, Structural)]
pub struct FatEntry(pub u32);

/// The 28 semantic bits of a raw FAT entry: the high 4 bits are reserved
/// and are masked off before classification.
pub open spec fn masked(raw: u32) -> int {
    raw as int % 0x1000_0000
}

/// The status that a raw FAT entry denotes, per the 28-bit value:
/// 0 is free, 1 is reserved, 2 through 0xFFFFFEF chain to the next data
/// cluster, 0xFFFFFF0 through 0xFFFFFF6 are reserved, 0xFFFFFF7 is bad,
/// and 0xFFFFFF8 through 0xFFFFFFF end a chain.
pub open spec fn spec_status(raw: u32) -> Status {
    let v = masked(raw);
    if v == 0 {
        Status::Free
    } else if v == 1 {
        Status::Reserved
    } else if v <= 0xFFF_FFEF {
        Status::Data(Cluster(v as u32))
    } else if v <= 0xFFF_FFF6 {
        Status::Reserved
    } else if v == 0xFFF_FFF7 {
        Status::Bad
    } else {
        Status::Eoc(v as u32)
    }
}

impl FatEntry {
    /// The status of this entry.
    pub fn status(&self) -> (r: Status)
        ensures
            r == spec_status(self.0),
    {
        let v = self.0 % 0x1000_0000;
        if v == 0 {
            Status::Free
        } else if v == 1 {
            Status::Reserved
        } else if v <= 0xFFF_FFEF {
            Status::Data(Cluster(v))
        } else if v <= 0xFFF_FFF6 {
            Status::Reserved
        } else if v == 0xFFF_FFF7 {
            Status::Bad
        } else {
            Status::Eoc(v)
        }
    }
}

} // verus!
