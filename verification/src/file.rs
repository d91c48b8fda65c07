//! Seekable, read-only streaming over a file's cluster chain.

use vstd::prelude::*;

use crate::byteops::copy_into;
use crate::device::BlockDevice;
use crate::entry::{File, FileV};
use crate::error::Error;
use crate::fat::Status;
use crate::vfat::VFat;

verus! {

/// Where a seek measures its offset from.
#[derive(Clone, Copy, Debug, PartialEq, Eq, Structural)]
pub enum SeekFrom {
    /// From the start of the file; the offset is absolute.
    Start(u64),
    /// From the end of the file.
    End(i64),
    /// From the current position.
    Current(i64),
}

/// The absolute position a seek asks for.
pub open spec fn spec_seek_target(f: FileV, pos: SeekFrom) -> int {
    match pos {
        SeekFrom::Start(o) => o as int,
        SeekFrom::End(o) => f.size + o,
        SeekFrom::Current(o) => f.offset + o,
    }
}

/// Whether `f` names a finite chain long enough to hold its size.
pub open spec fn spec_file_valid<T: BlockDevice>(fs: VFat<T>, f: FileV) -> bool {
    &&& fs.chain_of(f.first_cluster) is Some
    &&& f.size <= fs.chain_of(f.first_cluster).unwrap().len() * fs.cluster_size_spec()
}

/// The bytes of the file: its chain concatenated, cut to its size.
pub open spec fn spec_file_content<T: BlockDevice>(fs: VFat<T>, f: FileV) -> Seq<u8> {
    fs.concat_chain(fs.chain_of(f.first_cluster).unwrap()).take(f.size as int)
}

/// How many bytes one read call serves: up to the end of the file, the
/// buffer, and the current cluster, whichever comes first.
pub open spec fn spec_read_count<T: BlockDevice>(fs: VFat<T>, f: FileV, buflen: int) -> int {
    let len = if f.size - f.offset <= buflen {
        f.size - f.offset
    } else {
        buflen
    };
    if len <= 0 {
        0
    } else {
        let off_in = f.offset as int % fs.cluster_size_spec();
        if fs.cluster_size_spec() - off_in <= len {
            fs.cluster_size_spec() - off_in
        } else {
            len
        }
    }
}

/// Whether one read call is owed success: it is at end-of-file or has an
/// empty buffer (and returns 0), or the file is valid and its chain
/// readable.
pub open spec fn spec_read_ok<T: BlockDevice>(fs: VFat<T>, f: FileV, buflen: int) -> bool {
    ||| f.offset >= f.size
    ||| buflen == 0
    ||| (spec_file_valid(fs, f) && fs.chain_readable(f.first_cluster))
}

impl File {
    /// A handle is well formed when its position is within the file.
    pub open spec fn wf(self) -> bool {
        self.offset <= self.size
    }

    /// Moves the stream position.
    ///
    /// A seek to exactly the end of the file is allowed; one before the
    /// start or past the end fails with `InvalidInput` and moves nothing.
    pub fn seek(&mut self, pos: SeekFrom) -> (r: Result<u64, Error>)
        ensures
            final(self)@.name == old(self)@.name,
            final(self)@.metadata == old(self)@.metadata,
            final(self)@.size == old(self)@.size,
            final(self)@.first_cluster == old(self)@.first_cluster,
            match r {
                Ok(p) => {
                    &&& p == spec_seek_target(old(self)@, pos)
                    &&& final(self)@.offset == p
                    &&& final(self).wf()
                },
                Err(e) => {
                    &&& e == Error::InvalidInput
                    &&& final(self)@.offset == old(self)@.offset
                },
            },
            r is Ok <==> 0 <= spec_seek_target(old(self)@, pos) <= old(self)@.size,
    {
        let target: i128 = match pos {
            SeekFrom::Start(o) => o as i128,
            SeekFrom::End(o) => self.size as i128 + o as i128,
            SeekFrom::Current(o) => self.offset as i128 + o as i128,
        };
        if target < 0 || target > self.size as i128 {
            return Err(Error::InvalidInput);
        }
        self.offset = target as u32;
        Ok(target as u64)
    }

    /// Reads bytes at the stream position into the front of `buf` and
    /// advances the position by the count read.  One call serves at most
    /// the rest of the current cluster; callers loop until a call returns
    /// zero, which happens exactly at end-of-file or with an empty
    /// buffer.
    #[verifier::rlimit(100)]
    pub fn read<T: BlockDevice>(&mut self, fs: &mut VFat<T>, buf: &mut Vec<u8>) -> (r: Result<
        usize,
        Error,
    >)
        requires
            old(fs).wf(),
            old(self).wf(),
        ensures
            final(fs).wf(),
            VFat::view_preserved(*old(fs), *final(fs)),
            final(buf)@.len() == old(buf)@.len(),
            final(self)@.name == old(self)@.name,
            final(self)@.metadata == old(self)@.metadata,
            final(self)@.size == old(self)@.size,
            final(self)@.first_cluster == old(self)@.first_cluster,
            final(self).wf(),
            match r {
                Ok(n) => {
                    &&& n == spec_read_count(*old(fs), old(self)@, old(buf)@.len() as int)
                    &&& final(self)@.offset == old(self)@.offset + n
                    &&& forall|i: int|
                        n <= i < final(buf)@.len() ==> final(buf)@[i] == old(buf)@[i]
                    &&& (spec_file_valid(*old(fs), old(self)@) ==> forall|i: int|
                        0 <= i < n ==> final(buf)@[i] == spec_file_content(*old(fs), old(self)@)[
                        old(self)@.offset + i])
                },
                Err(e) => {
                    &&& (e == Error::NotFound || e == Error::Io || e == Error::InvalidData || e
                        == Error::InvalidInput)
                    &&& final(self)@.offset == old(self)@.offset
                    &&& final(buf)@ == old(buf)@
                },
            },
            spec_read_ok(*old(fs), old(self)@, old(buf)@.len() as int) ==> r is Ok,
    {
        let ghost pre = *old(fs);
        let ghost f0 = old(self)@;
        let csize = fs.cluster_size();
        let avail = (self.size - self.offset) as usize;
        let len = if avail <= buf.len() {
            avail
        } else {
            buf.len()
        };
        if len == 0 {
            return Ok(0);
        }
        let offset = self.offset as usize;
        let cluster_index = offset / csize;
        let off_in = offset % csize;
        proof {
            if spec_file_valid(pre, f0) {
                let chain = pre.chain_of(f0.first_cluster).unwrap();
                assert(cluster_index < chain.len()) by (nonlinear_arith)
                    requires
                        cluster_index == offset as int / csize as int,
                        offset < f0.size,
                        f0.size <= chain.len() * csize,
                        0 < csize,
                {}
            }
        }
        let mut cur = self.first_cluster;
        let mut steps: usize = 0;
        while steps < cluster_index
            invariant
                pre == *old(fs),
                pre.wf(),
                fs.wf(),
                VFat::view_preserved(pre, *fs),
                steps <= cluster_index,
                spec_file_valid(pre, f0) ==> {
                    &&& cluster_index < pre.chain_of(f0.first_cluster).unwrap().len()
                    &&& cur.0 == pre.chain_of(f0.first_cluster).unwrap()[steps as int]
                },
                f0 == old(self)@,
                old(self).wf(),
                *self == *old(self),
                buf@ == old(buf)@,
                spec_read_ok(pre, f0, old(buf)@.len() as int) ==> (spec_file_valid(pre, f0)
                    && pre.chain_readable(f0.first_cluster)),
            decreases cluster_index - steps,
        {
            let ghost at_top = *fs;
            proof {
                VFat::lemma_view_preserved_facts(pre, at_top);
                VFat::lemma_view_preserved_read_ok(pre, at_top);
            }
            let entry = match fs.fat_entry(cur) {
                Ok(e) => e,
                Err(e) => {
                    proof {
                        if spec_read_ok(pre, f0, old(buf)@.len() as int) {
                            let chain = pre.chain_of(f0.first_cluster).unwrap();
                            assert(pre.cluster_fully_ok(chain[steps as int]));
                            assert(false);
                        }
                    }
                    return Err(e);
                },
            };
            match entry.status() {
                Status::Data(n) => {
                    proof {
                        if spec_file_valid(pre, f0) {
                            let chain = pre.chain_of(f0.first_cluster).unwrap();
                            assert(pre.fat_status_of(chain[steps as int]) == Status::Data(
                                crate::cluster::Cluster(chain[steps as int + 1]),
                            ));
                        }
                    }
                    cur = n;
                },
                _ => {
                    proof {
                        if spec_read_ok(pre, f0, old(buf)@.len() as int) {
                            let chain = pre.chain_of(f0.first_cluster).unwrap();
                            assert(pre.fat_status_of(chain[steps as int]) == Status::Data(
                                crate::cluster::Cluster(chain[steps as int + 1]),
                            ));
                            assert(false);
                        }
                    }
                    return Err(Error::InvalidData);
                },
            }
            steps = steps + 1;
        }
        let ghost before_read = *fs;
        proof {
            VFat::lemma_view_preserved_facts(pre, before_read);
            VFat::lemma_view_preserved_read_ok(pre, before_read);
            if spec_read_ok(pre, f0, old(buf)@.len() as int) {
                let chain = pre.chain_of(f0.first_cluster).unwrap();
                assert(pre.cluster_fully_ok(chain[cluster_index as int]));
                assert(before_read.cluster_fully_ok(cur.0));
                assert(before_read.cluster_read_ok(cur.0, off_in as int, len as int)) by {
                    let bps = before_read.bytes_per_sector as int;
                    let total = if before_read.cluster_size_spec() - off_in <= len {
                        before_read.cluster_size_spec() - off_in
                    } else {
                        len as int
                    };
                    if total > 0 {
                        assert forall|k: int|
                            off_in as int / bps <= k && k * bps < off_in + total implies
                            before_read.device.sector_ok(
                                #[trigger] before_read.data_sector(cur.0, k),
                            ) by {
                            assert(0 <= k) by (nonlinear_arith)
                                requires
                                    off_in as int / bps <= k,
                                    0 <= off_in,
                                    0 < bps,
                            {}
                            assert(k * bps < before_read.cluster_size_spec());
                            assert(0 as int / bps <= k);
                        }
                    }
                }
            }
        }
        let mut tmp: Vec<u8> = vec![0u8; len];
        let n = match fs.read_cluster(cur, off_in, &mut tmp) {
            Ok(n) => n,
            Err(e) => {
                return Err(e);
            },
        };
        copy_into(buf, 0, &tmp, 0, n);
        proof {
            if spec_file_valid(pre, f0) {
                let chain = pre.chain_of(f0.first_cluster).unwrap();
                VFat::lemma_view_preserved_facts(pre, before_read);
                assert(cur.0 == chain[cluster_index as int]);
                pre.lemma_concat_chain_len(chain);
                assert forall|i: int| 0 <= i < n implies tmp@[i] == spec_file_content(pre, f0)[
                    f0.offset + i] by {
                    let csz = pre.cluster_size_spec();
                    assert(tmp@[i] == pre.cluster_data(cur.0)[off_in + i]);
                    assert(offset == cluster_index * csz + off_in) by (nonlinear_arith)
                        requires
                            cluster_index == offset as int / csz,
                            off_in == offset as int % csz,
                            0 < csz,
                    {}
                    assert(off_in + i < csz);
                    pre.lemma_concat_chain_index(chain, offset + i);
                    assert((offset + i) / csz == cluster_index && (offset + i) % csz == off_in
                        + i) by {
                        vstd::arithmetic::div_mod::lemma_fundamental_div_mod_converse(
                            offset + i,
                            csz,
                            cluster_index as int,
                            off_in + i,
                        );
                    }
                    assert(offset + i < f0.size);
                }
            }
        }
        self.offset = self.offset + n as u32;
        Ok(n)
    }
}

} // verus!
