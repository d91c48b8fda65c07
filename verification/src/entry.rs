//! Runtime handles for files and directories, and their ghost views.

use vstd::prelude::*;

use crate::cluster::Cluster;
use crate::metadata::Metadata;

verus! {

/// The ghost view of a file handle.
pub struct FileV {
    pub name: Seq<u8>,
    pub metadata: Metadata,
    pub size: u32,
    pub first_cluster: u32,
    pub offset: u32,
}

/// The ghost view of a directory handle.
pub struct DirV {
    pub name: Seq<u8>,
    pub metadata: Metadata,
    pub first_cluster: u32,
}

/// The ghost view of a directory entry.
pub enum EntryV {
    File(FileV),
    Dir(DirV),
}

impl EntryV {
    /// The entry's decoded name, UTF-8 encoded.
    pub open spec fn name(self) -> Seq<u8> {
        match self {
            EntryV::File(f) => f.name,
            EntryV::Dir(d) => d.name,
        }
    }

    pub open spec fn first_cluster(self) -> u32 {
        match self {
            EntryV::File(f) => f.first_cluster,
            EntryV::Dir(d) => d.first_cluster,
        }
    }
}

/// A read-only handle to a file: its identity plus a stream offset.
#[derive(Debug)]
pub struct File {
    /// The decoded name, UTF-8 encoded.
    pub name: Vec<u8>,
    pub metadata: Metadata,
    /// The file size in bytes, as the directory entry gives it.
    pub size: u32,
    pub first_cluster: Cluster,
    /// The stream position for the next read.
    pub offset: u32,
}

impl View for File {
    type V = FileV;

    open spec fn view(&self) -> FileV {
        FileV {
            name: self.name@,
            metadata: self.metadata,
            size: self.size,
            first_cluster: self.first_cluster.0,
            offset: self.offset,
        }
    }
}

impl File {
    /// A handle on the file with the given identity, positioned at its
    /// start.
    pub fn new(name: Vec<u8>, metadata: Metadata, size: u32, first_cluster: Cluster) -> (f: File)
        ensures
            f@.name == name@,
            f@.metadata == metadata,
            f@.size == size,
            f@.first_cluster == first_cluster.0,
            f@.offset == 0,
    {
        File { name, metadata, size, first_cluster, offset: 0 }
    }

    /// The file size in bytes.
    pub fn size(&self) -> (r: u64)
        ensures
            r == self.size,
    {
        self.size as u64
    }
}

/// A handle to a directory.
#[derive(Debug)]
pub struct Dir {
    /// The decoded name, UTF-8 encoded; empty for the root.
    pub name: Vec<u8>,
    pub metadata: Metadata,
    pub first_cluster: Cluster,
}

impl View for Dir {
    type V = DirV;

    open spec fn view(&self) -> DirV {
        DirV { name: self.name@, metadata: self.metadata, first_cluster: self.first_cluster.0 }
    }
}

impl Dir {
    pub fn new(name: Vec<u8>, metadata: Metadata, first_cluster: Cluster) -> (d: Dir)
        ensures
            d@.name == name@,
            d@.metadata == metadata,
            d@.first_cluster == first_cluster.0,
    {
        Dir { name, metadata, first_cluster }
    }
}

/// A directory entry: either a file or a directory.
#[derive(Debug)]
pub enum Entry {
    File(File),
    Dir(Dir),
}

impl View for Entry {
    type V = EntryV;

    open spec fn view(&self) -> EntryV {
        match self {
            Entry::File(f) => EntryV::File(f@),
            Entry::Dir(d) => EntryV::Dir(d@),
        }
    }
}

impl Entry {
    /// The entry's decoded name, UTF-8 encoded.
    pub fn name(&self) -> (r: &Vec<u8>)
        ensures
            r@ == self@.name(),
    {
        match self {
            Entry::File(f) => &f.name,
            Entry::Dir(d) => &d.name,
        }
    }

    pub fn metadata(&self) -> (r: &Metadata)
        ensures
            *r == match self@ {
                EntryV::File(f) => f.metadata,
                EntryV::Dir(d) => d.metadata,
            },
    {
        match self {
            Entry::File(f) => &f.metadata,
            Entry::Dir(d) => &d.metadata,
        }
    }

    pub fn is_file(&self) -> (r: bool)
        ensures
            r == (self@ matches EntryV::File(_)),
    {
        match self {
            Entry::File(_) => true,
            Entry::Dir(_) => false,
        }
    }

    pub fn is_dir(&self) -> (r: bool)
        ensures
            r == (self@ matches EntryV::Dir(_)),
    {
        match self {
            Entry::File(_) => false,
            Entry::Dir(_) => true,
        }
    }
}

} // verus!
