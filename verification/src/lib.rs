//! A read-only FAT32 filesystem reader over a block-addressable storage
//! device.
//!
//! The crate parses a Master Boot Record, selects the first FAT32 partition,
//! decodes its Extended BIOS Parameter Block, and exposes the hierarchy
//! rooted at the partition's root directory cluster.  Clients can open a
//! path, enumerate directory entries (with long-filename assembly), and
//! stream file contents through a seekable handle.

pub mod byteops;
pub mod cache;
pub mod cluster;
pub mod device;
pub mod dir;
pub mod ebpb;
pub mod entry;
pub mod error;
pub mod fat;
pub mod file;
pub mod laws;
pub mod mbr;
pub mod names;
pub mod path;
pub mod metadata;
pub mod vfat;

pub use device::{BlockDevice, VecBlockDevice};
pub use entry::{Dir, Entry, File};
pub use error::Error;
pub use vfat::VFat;
