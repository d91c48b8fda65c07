//! The error kinds surfaced by every fallible operation of the crate.

use vstd::prelude::*;

verus! {

/// Why an operation on the filesystem failed.
///
/// Every error propagates to the caller of the public API unchanged; the
/// crate performs no retries.
#[derive(Clone, Copy, Debug, PartialEq, Eq, Structural)]
pub enum Error {
    /// The underlying device could not serve a sector read.
    Io,
    /// The MBR or EBPB tail signature was not `[0x55, 0xAA]`.
    BadSignature,
    /// The partition with this index carries a boot indicator other than
    /// `0x00` or `0x80`.
    UnknownBootIndicator(u8),
    /// No FAT32 partition exists, a path component is missing, or a FAT
    /// index lies outside the table.
    NotFound,
    /// The caller handed in a malformed request: a relative path, a seek out
    /// of range, or a file in the middle of a path.
    InvalidInput,
    /// An on-disk structure violates the format's invariants: a bad cluster
    /// was referenced, a chain hit an unexpected FAT status, or a long
    /// filename record carries a bogus sequence number.
    InvalidData,
}

} // verus!
