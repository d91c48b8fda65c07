//! The mounted FAT32 filesystem: geometry, FAT lookups, cluster reads and
//! chain reads.

use vstd::prelude::*;

use crate::byteops::{copy_into, le16, le32};
use crate::cache::{CachedDevice, Partition};
use crate::cluster::Cluster;
use crate::device::{spec_sector, BlockDevice};
use crate::ebpb::{ebpb_readable, has_ebpb_signature, BiosParameterBlock};
use crate::error::Error;
use crate::fat::{spec_status, FatEntry, Status};
use crate::mbr::{boot_indicator_ok, has_mbr_signature, mbr_readable, slot_off, MasterBootRecord};

verus! {

/// A mounted FAT32 filesystem over a cached block device.
pub struct VFat<T: BlockDevice> {
    pub device: CachedDevice<T>,
    pub bytes_per_sector: u16,
    pub sectors_per_cluster: u8,
    pub sectors_per_fat: u32,
    pub fat_start_sector: u64,
    pub data_start_sector: u64,
    pub root_dir_cluster: Cluster,
}

impl<T: BlockDevice> VFat<T> {
    /// The size of one cluster in bytes.
    pub open spec fn cluster_size_spec(self) -> int {
        self.sectors_per_cluster as int * self.bytes_per_sector as int
    }

    /// How many 4-byte FAT entries fit one logical sector.
    pub open spec fn entries_per_sector(self) -> int {
        self.bytes_per_sector as int / 4
    }

    pub open spec fn wf(self) -> bool {
        &&& self.device.wf()
        &&& self.bytes_per_sector == self.device.lss()
        &&& 0 < self.bytes_per_sector
        &&& self.bytes_per_sector as int % 4 == 0
        &&& 0 < self.sectors_per_cluster
        &&& self.fat_start_sector + self.sectors_per_fat <= self.data_start_sector
        &&& self.data_start_sector < 0x200_0000_0000
    }

    /// The logical sector that holds cluster `c`'s FAT entry.
    pub open spec fn fat_sector_of(self, c: u32) -> u64 {
        (self.fat_start_sector + c as int / self.entries_per_sector()) as u64
    }

    /// The byte offset of cluster `c`'s FAT entry within its sector.
    pub open spec fn fat_offset_in_sector(self, c: u32) -> int {
        (c as int % self.entries_per_sector()) * 4
    }

    /// Whether cluster `c`'s FAT entry lies within the table at all.
    pub open spec fn fat_in_range(self, c: u32) -> bool {
        c as int / self.entries_per_sector() < self.sectors_per_fat
    }

    /// The raw 32-bit FAT entry of cluster `c`, reserved bits included.
    pub open spec fn fat_raw(self, c: u32) -> u32 {
        le32(self.device.logical(self.fat_sector_of(c)), self.fat_offset_in_sector(c)) as u32
    }

    /// The status that cluster `c`'s FAT entry denotes.
    pub open spec fn fat_status_of(self, c: u32) -> Status {
        spec_status(self.fat_raw(c))
    }

    /// Whether the sector holding cluster `c`'s FAT entry can be read.
    pub open spec fn fat_sector_ok(self, c: u32) -> bool {
        self.device.sector_ok(self.fat_sector_of(c))
    }

    /// The logical sector holding byte `k * bytes_per_sector` of cluster
    /// `c`'s data; meaningful for `c >= 2`.
    pub open spec fn data_sector(self, c: u32, k: int) -> u64 {
        (self.data_start_sector + (c - 2) * self.sectors_per_cluster as int + k) as u64
    }

    /// The bytes of cluster `c`'s data region.
    pub open spec fn cluster_data(self, c: u32) -> Seq<u8> {
        Seq::new(
            self.cluster_size_spec() as nat,
            |i: int|
                self.device.logical(self.data_sector(c, i / self.bytes_per_sector as int))[i
                    % self.bytes_per_sector as int],
        )
    }

    /// What every read-side operation preserves: the geometry and the view
    /// of every logical sector.
    pub open spec fn view_preserved(pre: Self, post: Self) -> bool {
        &&& CachedDevice::view_preserved(pre.device, post.device)
        &&& post.bytes_per_sector == pre.bytes_per_sector
        &&& post.sectors_per_cluster == pre.sectors_per_cluster
        &&& post.sectors_per_fat == pre.sectors_per_fat
        &&& post.fat_start_sector == pre.fat_start_sector
        &&& post.data_start_sector == pre.data_start_sector
        &&& post.root_dir_cluster == pre.root_dir_cluster
    }

    /// Everything the contracts speak of is a function of the preserved
    /// view, so it carries across a preserved-view operation.
    pub proof fn lemma_view_preserved_facts(pre: Self, post: Self)
        requires
            Self::view_preserved(pre, post),
        ensures
            forall|c: u32| #[trigger] post.fat_raw(c) == pre.fat_raw(c),
            forall|c: u32| #[trigger] post.fat_status_of(c) == pre.fat_status_of(c),
            forall|c: u32| #[trigger] post.fat_sector_ok(c) == pre.fat_sector_ok(c),
            forall|c: u32| #[trigger] post.fat_in_range(c) == pre.fat_in_range(c),
            forall|c: u32| #[trigger] post.cluster_data(c) == pre.cluster_data(c),
            forall|c: u32, k: int| #[trigger] post.data_sector(c, k) == pre.data_sector(c, k),
            forall|v: u64| #[trigger] post.device.sector_ok(v) == pre.device.sector_ok(v),
            post.cluster_size_spec() == pre.cluster_size_spec(),
    {
        assert(forall|v: u64| #[trigger] post.device.logical(v) == pre.device.logical(v));
        assert forall|c: u32| #[trigger] post.cluster_data(c) == pre.cluster_data(c) by {
            assert(post.cluster_data(c) =~= pre.cluster_data(c));
        }
    }

    /// The cluster size in bytes.
    pub fn cluster_size(&self) -> (r: usize)
        requires
            self.wf(),
        ensures
            r == self.cluster_size_spec(),
            0 < r,
    {
        proof {
            assert(1 <= self.sectors_per_cluster as int * self.bytes_per_sector as int
                <= 255 * 65535) by (nonlinear_arith)
                requires
                    1 <= self.sectors_per_cluster <= 255,
                    1 <= self.bytes_per_sector <= 65535,
            {}
        }
        self.sectors_per_cluster as usize * self.bytes_per_sector as usize
    }

    /// The FAT entry of `cluster`, raw.
    ///
    /// Fails with `NotFound` when the entry lies beyond the table, and
    /// with `Io` when the sector holding it cannot be read.
    pub fn fat_entry(&mut self, cluster: Cluster) -> (r: Result<FatEntry, Error>)
        requires
            old(self).wf(),
        ensures
            final(self).wf(),
            Self::view_preserved(*old(self), *final(self)),
            match r {
                Ok(e) => {
                    &&& old(self).fat_in_range(cluster.0)
                    &&& old(self).fat_sector_ok(cluster.0)
                    &&& e.0 == old(self).fat_raw(cluster.0)
                },
                Err(e) => {
                    ||| (e == Error::NotFound && !old(self).fat_in_range(cluster.0))
                    ||| (e == Error::Io && old(self).fat_in_range(cluster.0) && !old(
                        self,
                    ).fat_sector_ok(cluster.0))
                },
            },
    {
        let bps = self.bytes_per_sector as u64;
        let eps = bps / 4;
        proof {
            vstd::arithmetic::div_mod::lemma_fundamental_div_mod(bps as int, 4);
            assert(eps * 4 == bps);
            assert(eps >= 1);
        }
        let c = cluster.inner() as u64;
        let sec_idx = c / eps;
        if sec_idx >= self.sectors_per_fat as u64 {
            return Err(Error::NotFound);
        }
        let nsector = self.fat_start_sector + sec_idx;
        let ghost pre = *self;
        let sector = match self.device.get(nsector) {
            Ok(s) => s,
            Err(_) => {
                return Err(Error::Io);
            },
        };
        let off_in = ((c % eps) * 4) as usize;
        proof {
            assert(c % eps < eps);
            assert((c % eps) * 4 + 4 <= eps * 4) by (nonlinear_arith)
                requires
                    c % eps < eps,
            {}
            assert(sector@.len() == pre.device.lss());
        }
        let value = crate::byteops::read_le32(&sector, off_in);
        Ok(FatEntry(value))
    }
}

impl<T: BlockDevice> VFat<T> {
    /// The error a failed cluster read reports, by the order the checks
    /// run: an entry beyond the FAT is `NotFound`, an unreadable FAT
    /// sector `Io`, a bad cluster `InvalidData`, a cluster below 2
    /// `InvalidInput`, and an unreadable data sector `Io` again.
    pub open spec fn read_cluster_err(self, c: u32) -> Error {
        if !self.fat_in_range(c) {
            Error::NotFound
        } else if !self.fat_sector_ok(c) {
            Error::Io
        } else if self.fat_status_of(c) == Status::Bad {
            Error::InvalidData
        } else if c < 2 {
            Error::InvalidInput
        } else {
            Error::Io
        }
    }

    /// What a cluster read leaves in a buffer: the first `m` bytes hold
    /// cluster `c`'s data from `offset` on, the rest is as it was.
    pub open spec fn cluster_bytes_prefix(
        self,
        c: u32,
        offset: int,
        pre_bytes: Seq<u8>,
        post_bytes: Seq<u8>,
        m: int,
    ) -> bool {
        &&& 0 <= m <= post_bytes.len()
        &&& post_bytes.len() == pre_bytes.len()
        &&& forall|i: int|
            0 <= i < post_bytes.len() ==> post_bytes[i] == if i < m {
                self.cluster_data(c)[offset + i]
            } else {
                pre_bytes[i]
            }
    }

    /// Whether a read of `len` bytes of cluster `c`'s data starting at
    /// byte `offset` can succeed: the cluster's FAT entry is within the
    /// table and readable and not bad, the cluster names data, and every
    /// touched data sector can be read.
    pub open spec fn cluster_read_ok(self, c: u32, offset: int, len: int) -> bool {
        let total = if self.cluster_size_spec() - offset <= len {
            self.cluster_size_spec() - offset
        } else {
            len
        };
        let bps = self.bytes_per_sector as int;
        &&& self.fat_in_range(c)
        &&& self.fat_sector_ok(c)
        &&& self.fat_status_of(c) != Status::Bad
        &&& 2 <= c
        &&& (total > 0 ==> forall|k: int|
            offset / bps <= k && k * bps < offset + total ==> self.device.sector_ok(
                #[trigger] self.data_sector(c, k),
            ))
    }

    /// Reads up to `cluster_size - offset` bytes, or `buf.len()` if that
    /// is smaller, from cluster `cluster`'s data starting at byte
    /// `offset`, into the front of `buf`; the count read is returned.
    ///
    /// Fails fast with `InvalidData` when the cluster is marked bad, with
    /// `InvalidInput` when it is below 2, and with `NotFound` or `Io` as
    /// the FAT lookup and the sector reads do.
    pub fn read_cluster(&mut self, cluster: Cluster, offset: usize, buf: &mut Vec<u8>) -> (r:
        Result<usize, Error>)
        requires
            old(self).wf(),
            offset <= old(self).cluster_size_spec(),
        ensures
            final(self).wf(),
            Self::view_preserved(*old(self), *final(self)),
            final(buf)@.len() == old(buf)@.len(),
            match r {
                Ok(n) => {
                    &&& old(self).cluster_read_ok(
                        cluster.0,
                        offset as int,
                        old(buf)@.len() as int,
                    )
                    &&& n == if old(self).cluster_size_spec() - offset <= old(buf)@.len() {
                        old(self).cluster_size_spec() - offset
                    } else {
                        old(buf)@.len() as int
                    }
                    &&& forall|i: int|
                        0 <= i < final(buf)@.len() ==> final(buf)@[i] == if i < n {
                            old(self).cluster_data(cluster.0)[offset + i]
                        } else {
                            old(buf)@[i]
                        }
                },
                Err(e) => {
                    &&& !old(self).cluster_read_ok(
                        cluster.0,
                        offset as int,
                        old(buf)@.len() as int,
                    )
                    &&& e == old(self).read_cluster_err(cluster.0)
                    &&& ((e == Error::NotFound || e == Error::InvalidData || e
                        == Error::InvalidInput || !old(self).fat_sector_ok(cluster.0))
                        ==> final(buf)@ == old(buf)@)
                    &&& exists|m: int|
                        old(self).cluster_bytes_prefix(
                            cluster.0,
                            offset as int,
                            old(buf)@,
                            final(buf)@,
                            m,
                        )
                },
            },
            old(self).cluster_read_ok(cluster.0, offset as int, old(buf)@.len() as int) ==> r
                is Ok,
    {
        let ghost pre = *old(self);
        let csize = self.cluster_size();
        let entry = match self.fat_entry(cluster) {
            Ok(e) => e,
            Err(e) => {
                proof {
                    assert(e == pre.read_cluster_err(cluster.0));
                    assert(pre.cluster_bytes_prefix(
                        cluster.0,
                        offset as int,
                        old(buf)@,
                        buf@,
                        0,
                    ));
                }
                return Err(e);
            },
        };
        match entry.status() {
            Status::Bad => {
                proof {
                    assert(pre.fat_status_of(cluster.0) == Status::Bad);
                    assert(pre.cluster_bytes_prefix(
                        cluster.0,
                        offset as int,
                        old(buf)@,
                        buf@,
                        0,
                    ));
                }
                return Err(Error::InvalidData);
            },
            _ => (),
        }
        let c32 = cluster.inner();
        if c32 < 2 {
            proof {
                assert(pre.fat_status_of(cluster.0) != Status::Bad);
                assert(pre.cluster_bytes_prefix(cluster.0, offset as int, old(buf)@, buf@, 0));
            }
            return Err(Error::InvalidInput);
        }
        let total = if csize - offset <= buf.len() {
            csize - offset
        } else {
            buf.len()
        };
        let bps = self.bytes_per_sector as usize;
        let spc = self.sectors_per_cluster as u64;
        proof {
            assert((c32 - 2) * spc <= 0xFFFF_FFFF * 255 && 0 <= (c32 - 2) * spc)
                by (nonlinear_arith)
                requires
                    0 <= c32 - 2 <= 0xFFFF_FFFF,
                    0 <= spc <= 255,
            {}
        }
        let base_sector = self.data_start_sector + (c32 as u64 - 2) * spc;
        let mut index: usize = 0;
        while index < total
            invariant
                pre == *old(self),
                pre.wf(),
                self.wf(),
                Self::view_preserved(pre, *self),
                0 <= index <= total,
                csize == pre.cluster_size_spec(),
                bps == pre.bytes_per_sector,
                spc == pre.sectors_per_cluster,
                2 <= c32 == cluster.0,
                base_sector == pre.data_start_sector + (c32 - 2) * spc,
                base_sector + spc <= u64::MAX,
                offset + total <= csize,
                total <= buf.len(),
                buf@.len() == old(buf)@.len(),
                pre.fat_in_range(cluster.0),
                pre.fat_sector_ok(cluster.0),
                pre.fat_status_of(cluster.0) != Status::Bad,
                total == if pre.cluster_size_spec() - offset <= old(buf)@.len() {
                    pre.cluster_size_spec() - offset
                } else {
                    old(buf)@.len() as int
                },
                forall|i: int|
                    0 <= i < buf@.len() ==> buf@[i] == if i < index {
                        pre.cluster_data(cluster.0)[offset + i]
                    } else {
                        old(buf)@[i]
                    },
                forall|k: int|
                    0 < index && offset as int / bps as int <= k && k * bps < offset + index
                        ==> pre.device.sector_ok(#[trigger] pre.data_sector(cluster.0, k)),
            decreases total - index,
        {
            let pos = offset + index;
            let k = pos / bps;
            proof {
                assert(k < spc && k * bps <= pos && pos < k * bps + bps) by (nonlinear_arith)
                    requires
                        k == pos as int / bps as int,
                        0 < bps,
                        pos < csize,
                        csize == spc * bps,
                {}
            }
            let nsector = base_sector + k as u64;
            proof {
                assert(nsector == pre.data_sector(cluster.0, k as int));
            }
            let sector = match self.device.get(nsector) {
                Ok(s) => s,
                Err(_) => {
                    proof {
                        assert(Error::Io == pre.read_cluster_err(cluster.0));
                        assert(pre.cluster_bytes_prefix(
                            cluster.0,
                            offset as int,
                            old(buf)@,
                            buf@,
                            index as int,
                        ));
                        assert(!pre.cluster_read_ok(
                            cluster.0,
                            offset as int,
                            old(buf)@.len() as int,
                        )) by {
                            assert(!pre.device.sector_ok(pre.data_sector(cluster.0, k as int)));
                            assert(offset as int / bps as int <= k && k * bps < offset + total)
                                by (nonlinear_arith)
                                requires
                                    k == (offset + index) as int / bps as int,
                                    0 < bps,
                                    offset <= offset + index < offset + total,
                                    k * bps <= offset + index,
                            {}
                        }
                    }
                    return Err(Error::Io);
                },
            };
            let off_in = pos % bps;
            let room = bps - off_in;
            let left = total - index;
            let n = if room <= left {
                room
            } else {
                left
            };
            proof {
                vstd::arithmetic::div_mod::lemma_fundamental_div_mod(pos as int, bps as int);
                assert(pos == bps * k + off_in);
            }
            copy_into(buf, index, &sector, off_in, n);
            proof {
                assert(sector@ == pre.device.logical(pre.data_sector(cluster.0, k as int)));
                assert forall|i: int|
                    index <= i < index + n implies buf@[i] == pre.cluster_data(cluster.0)[offset
                    + i] by {
                    let j = i - index;
                    assert(pos + j == (k as int) * (bps as int) + (off_in + j));
                    assert(0 <= off_in + j < bps);
                    vstd::arithmetic::div_mod::lemma_fundamental_div_mod_converse(
                        (pos + j) as int,
                        bps as int,
                        k as int,
                        (off_in + j) as int,
                    );
                    assert(pre.cluster_data(cluster.0)[offset + i] == pre.device.logical(
                        pre.data_sector(cluster.0, k as int),
                    )[off_in + j]);
                }
                assert forall|kk: int|
                    offset as int / bps as int <= kk && kk * bps < offset + index + n implies pre
                    .device.sector_ok(#[trigger] pre.data_sector(cluster.0, kk)) by {
                    if 0 < index && kk * bps < offset + index {
                        assert(pre.device.sector_ok(pre.data_sector(cluster.0, kk)));
                    } else {
                        assert(pos == bps * k + off_in);
                        assert(kk == k) by (nonlinear_arith)
                            requires
                                offset as int / bps as int <= kk,
                                kk * bps < offset + index + n,
                                index == 0 || offset + index <= kk * bps,
                                k == (offset + index) as int / bps as int,
                                bps * k + off_in == offset + index,
                                0 <= off_in < bps,
                                n <= bps - off_in,
                                0 < bps,
                        {}
                        assert(pre.device.sector_ok(pre.data_sector(cluster.0, k as int)));
                    }
                }
            }
            index = index + n;
        }
        proof {
            assert(pre.cluster_read_ok(cluster.0, offset as int, old(buf)@.len() as int));
        }
        Ok(total)
    }
}

impl<T: BlockDevice> VFat<T> {
    /// Whether consecutive elements of `cs` are linked through the FAT:
    /// every element but the last is an in-range entry that names its
    /// successor as the next data cluster.
    pub open spec fn chain_links(self, cs: Seq<u32>) -> bool {
        forall|i: int|
            0 <= i < cs.len() - 1 ==> self.fat_in_range(#[trigger] cs[i]) && self.fat_status_of(
                cs[i],
            ) == Status::Data(Cluster(cs[i + 1]))
    }

    /// Whether `cs` is the cluster chain that starts at `start`: linked
    /// throughout, with the last element marked end-of-chain.
    pub open spec fn is_chain(self, start: u32, cs: Seq<u32>) -> bool {
        &&& cs.len() > 0
        &&& cs[0] == start
        &&& self.chain_links(cs)
        &&& self.fat_in_range(cs.last())
        &&& self.fat_status_of(cs.last()) matches Status::Eoc(_)
    }

    /// The cluster chain starting at `start`, when a finite one exists.
    pub open spec fn chain_of(self, start: u32) -> Option<Seq<u32>> {
        if exists|cs: Seq<u32>| self.is_chain(start, cs) {
            Some(choose|cs: Seq<u32>| self.is_chain(start, cs))
        } else {
            None
        }
    }

    /// The FAT is a function, so at most one chain starts at any cluster.
    pub proof fn lemma_chain_unique(self, start: u32, cs1: Seq<u32>, cs2: Seq<u32>)
        requires
            self.is_chain(start, cs1),
            self.is_chain(start, cs2),
        ensures
            cs1 == cs2,
        decreases cs1.len(),
    {
        if cs1.len() == 1 {
            if cs2.len() > 1 {
                assert(self.fat_status_of(cs2[0]) == Status::Data(Cluster(cs2[1])));
                assert(false);
            }
            assert(cs1 =~= cs2);
        } else {
            if cs2.len() == 1 {
                assert(self.fat_status_of(cs1[0]) == Status::Data(Cluster(cs1[1])));
                assert(false);
            }
            assert(self.fat_status_of(cs1[0]) == Status::Data(Cluster(cs1[1])));
            assert(self.fat_status_of(cs2[0]) == Status::Data(Cluster(cs2[1])));
            let t1 = cs1.skip(1);
            let t2 = cs2.skip(1);
            assert(self.is_chain(cs1[1], t1)) by {
                assert forall|i: int|
                    0 <= i < t1.len() - 1 implies self.fat_in_range(#[trigger] t1[i])
                    && self.fat_status_of(t1[i]) == Status::Data(Cluster(t1[i + 1])) by {
                    assert(t1[i] == cs1[i + 1]);
                    assert(t1[i + 1] == cs1[i + 2]);
                }
                assert(t1.last() == cs1.last());
            }
            assert(self.is_chain(cs1[1], t2)) by {
                assert forall|i: int|
                    0 <= i < t2.len() - 1 implies self.fat_in_range(#[trigger] t2[i])
                    && self.fat_status_of(t2[i]) == Status::Data(Cluster(t2[i + 1])) by {
                    assert(t2[i] == cs2[i + 1]);
                    assert(t2[i + 1] == cs2[i + 2]);
                }
                assert(t2.last() == cs2.last());
            }
            self.lemma_chain_unique(cs1[1], t1, t2);
            assert(cs1 =~= cs2) by {
                assert forall|i: int| 0 <= i < cs1.len() implies cs1[i] == cs2[i] by {
                    if i >= 1 {
                        assert(cs1[i] == t1[i - 1]);
                        assert(cs2[i] == t2[i - 1]);
                    }
                }
            }
        }
    }

    /// Any linked run that starts where a chain starts is a prefix of it.
    pub proof fn lemma_chain_prefix(self, start: u32, cs: Seq<u32>, partial: Seq<u32>)
        requires
            self.is_chain(start, cs),
            partial.len() > 0,
            partial[0] == start,
            self.chain_links(partial),
        ensures
            partial.len() <= cs.len(),
            partial == cs.take(partial.len() as int),
        decreases partial.len(),
    {
        if partial.len() == 1 {
            assert(partial =~= cs.take(1));
        } else {
            assert(self.fat_status_of(partial[0]) == Status::Data(Cluster(partial[1])));
            if cs.len() == 1 {
                assert(false);
            }
            assert(self.fat_status_of(cs[0]) == Status::Data(Cluster(cs[1])));
            let csub = cs.skip(1);
            let psub = partial.skip(1);
            assert(self.is_chain(cs[1], csub)) by {
                assert forall|i: int|
                    0 <= i < csub.len() - 1 implies self.fat_in_range(#[trigger] csub[i])
                    && self.fat_status_of(csub[i]) == Status::Data(Cluster(csub[i + 1])) by {
                    assert(csub[i] == cs[i + 1]);
                    assert(csub[i + 1] == cs[i + 2]);
                }
                assert(csub.last() == cs.last());
            }
            assert(psub[0] == cs[1]);
            assert(self.chain_links(psub)) by {
                assert forall|i: int|
                    0 <= i < psub.len() - 1 implies self.fat_in_range(#[trigger] psub[i])
                    && self.fat_status_of(psub[i]) == Status::Data(Cluster(psub[i + 1])) by {
                    assert(psub[i] == partial[i + 1]);
                    assert(psub[i + 1] == partial[i + 2]);
                }
            }
            self.lemma_chain_prefix(cs[1], csub, psub);
            assert(partial =~= cs.take(partial.len() as int)) by {
                assert forall|i: int|
                    0 <= i < partial.len() implies partial[i] == cs.take(
                    partial.len() as int,
                )[i] by {
                    if i >= 1 {
                        assert(partial[i] == psub[i - 1]);
                        assert(psub[i - 1] == csub.take(psub.len() as int)[i - 1]);
                        assert(csub[i - 1] == cs[i]);
                    }
                }
            }
        }
    }

    /// The clusters of `cs` concatenated, data region after data region.
    pub open spec fn concat_chain(self, cs: Seq<u32>) -> Seq<u8>
        decreases cs.len(),
    {
        if cs.len() == 0 {
            Seq::empty()
        } else {
            self.cluster_data(cs[0]) + self.concat_chain(cs.skip(1))
        }
    }

    pub proof fn lemma_concat_chain_len(self, cs: Seq<u32>)
        ensures
            self.concat_chain(cs).len() == cs.len() * self.cluster_size_spec(),
        decreases cs.len(),
    {
        let csize = self.cluster_size_spec();
        if cs.len() == 0 {
            assert(0 * csize == 0) by (nonlinear_arith) {}
        } else {
            self.lemma_concat_chain_len(cs.skip(1));
            assert((cs.len() - 1) * csize + csize == cs.len() * csize) by (nonlinear_arith) {}
        }
    }

    pub proof fn lemma_concat_chain_push(self, cs: Seq<u32>, c: u32)
        ensures
            self.concat_chain(cs.push(c)) == self.concat_chain(cs) + self.cluster_data(c),
        decreases cs.len(),
    {
        if cs.len() == 0 {
            assert(cs.push(c)[0] == c);
            assert(cs.push(c).skip(1) =~= Seq::<u32>::empty());
            assert(self.concat_chain(Seq::<u32>::empty()) == Seq::<u8>::empty());
            assert(self.concat_chain(cs.push(c)) == self.cluster_data(c) + Seq::<u8>::empty());
            assert(self.cluster_data(c) + Seq::<u8>::empty() =~= self.cluster_data(c));
            assert(cs =~= Seq::<u32>::empty());
            assert(Seq::<u8>::empty() + self.cluster_data(c) =~= self.cluster_data(c));
        } else {
            assert(cs.push(c).skip(1) =~= cs.skip(1).push(c));
            self.lemma_concat_chain_push(cs.skip(1), c);
            assert(cs.push(c)[0] == cs[0]);
            assert(self.concat_chain(cs.push(c)) == self.cluster_data(cs[0]) + (self.concat_chain(
                cs.skip(1),
            ) + self.cluster_data(c)));
            assert((self.cluster_data(cs[0]) + self.concat_chain(cs.skip(1)))
                + self.cluster_data(c) =~= self.cluster_data(cs[0]) + (self.concat_chain(
                cs.skip(1),
            ) + self.cluster_data(c)));
        }
    }

    pub proof fn lemma_concat_chain_index(self, cs: Seq<u32>, i: int)
        requires
            0 < self.cluster_size_spec(),
            0 <= i < cs.len() * self.cluster_size_spec(),
        ensures
            self.concat_chain(cs)[i] == self.cluster_data(cs[i / self.cluster_size_spec()])[i
                % self.cluster_size_spec()],
        decreases cs.len(),
    {
        let csz = self.cluster_size_spec();
        self.lemma_concat_chain_len(cs);
        if cs.len() == 0 {
            assert(false) by (nonlinear_arith)
                requires
                    0 <= i < cs.len() * csz,
                    cs.len() == 0,
            {}
        } else if i < csz {
            vstd::arithmetic::div_mod::lemma_fundamental_div_mod_converse(i, csz, 0, i);
            assert(self.concat_chain(cs)[i] == self.cluster_data(cs[0])[i]);
        } else {
            assert(i - csz < (cs.len() - 1) * csz) by (nonlinear_arith)
                requires
                    i < cs.len() * csz,
                    cs.len() >= 1,
            {}
            self.lemma_concat_chain_index(cs.skip(1), i - csz);
            let q = (i - csz) / csz;
            let r = (i - csz) % csz;
            vstd::arithmetic::div_mod::lemma_fundamental_div_mod(i - csz, csz);
            assert(i == (q + 1) * csz + r) by (nonlinear_arith)
                requires
                    i - csz == q * csz + r,
            {}
            vstd::arithmetic::div_mod::lemma_fundamental_div_mod_converse(i, csz, q + 1, r);
            assert(0 <= q && q < cs.len() - 1) by (nonlinear_arith)
                requires
                    q == (i - csz) / csz,
                    0 <= i - csz,
                    i - csz < (cs.len() - 1) * csz,
                    0 < csz,
            {}
            assert(cs.skip(1)[q] == cs[q + 1]);
            assert(self.concat_chain(cs)[i] == self.concat_chain(cs.skip(1))[i - csz]);
        }
    }

    /// A whole-cluster read of `c` can succeed.
    pub open spec fn cluster_fully_ok(self, c: u32) -> bool {
        self.cluster_read_ok(c, 0, self.cluster_size_spec())
    }

    /// Whether the chain from `start` exists and every cluster of it can
    /// be read whole.
    pub open spec fn chain_readable(self, start: u32) -> bool {
        match self.chain_of(start) {
            Some(cs) => forall|i: int|
                0 <= i < cs.len() ==> self.cluster_fully_ok(#[trigger] cs[i]),
            None => false,
        }
    }

    /// `cluster_fully_ok` is a function of the preserved view.
    pub proof fn lemma_view_preserved_read_ok(pre: Self, post: Self)
        requires
            Self::view_preserved(pre, post),
        ensures
            forall|c: u32| #[trigger] post.cluster_fully_ok(c) == pre.cluster_fully_ok(c),
    {
        Self::lemma_view_preserved_facts(pre, post);
        let csize = pre.cluster_size_spec();
        let bps = pre.bytes_per_sector as int;
        assert forall|c: u32| #[trigger] post.cluster_fully_ok(c) == pre.cluster_fully_ok(c) by {
            if pre.cluster_fully_ok(c) {
                if csize > 0 {
                    assert forall|k: int|
                        0 as int / bps <= k && k * bps < 0 + csize implies post.device.sector_ok(
                            #[trigger] post.data_sector(c, k),
                        ) by {
                        assert(post.data_sector(c, k) == pre.data_sector(c, k));
                        assert(pre.device.sector_ok(pre.data_sector(c, k)));
                    }
                }
                assert(post.cluster_fully_ok(c));
            }
            if post.cluster_fully_ok(c) {
                if csize > 0 {
                    assert forall|k: int|
                        0 as int / bps <= k && k * bps < 0 + csize implies pre.device.sector_ok(
                            #[trigger] pre.data_sector(c, k),
                        ) by {
                        assert(post.data_sector(c, k) == pre.data_sector(c, k));
                        assert(post.device.sector_ok(post.data_sector(c, k)));
                    }
                }
                assert(pre.cluster_fully_ok(c));
            }
        }
    }

    /// `is_chain` is a function of the preserved view.
    proof fn lemma_is_chain_preserved(pre: Self, post: Self, c: u32, cs: Seq<u32>)
        requires
            Self::view_preserved(pre, post),
        ensures
            post.is_chain(c, cs) == pre.is_chain(c, cs),
    {
        Self::lemma_view_preserved_facts(pre, post);
        if pre.chain_links(cs) {
            assert forall|i: int|
                0 <= i < cs.len() - 1 implies post.fat_in_range(#[trigger] cs[i])
                && post.fat_status_of(cs[i]) == Status::Data(Cluster(cs[i + 1])) by {}
        }
        if post.chain_links(cs) {
            assert forall|i: int|
                0 <= i < cs.len() - 1 implies pre.fat_in_range(#[trigger] cs[i])
                && pre.fat_status_of(cs[i]) == Status::Data(Cluster(cs[i + 1])) by {}
        }
    }

    proof fn lemma_concat_chain_preserved(pre: Self, post: Self, cs: Seq<u32>)
        requires
            Self::view_preserved(pre, post),
        ensures
            post.concat_chain(cs) == pre.concat_chain(cs),
        decreases cs.len(),
    {
        Self::lemma_view_preserved_facts(pre, post);
        if cs.len() > 0 {
            Self::lemma_concat_chain_preserved(pre, post, cs.skip(1));
        }
    }

    /// Chains, their contents and their readability are functions of the
    /// preserved view, so they carry across a preserved-view operation.
    pub proof fn lemma_view_preserved_chains(pre: Self, post: Self)
        requires
            Self::view_preserved(pre, post),
        ensures
            forall|c: u32| #[trigger] post.chain_of(c) == pre.chain_of(c),
            forall|cs: Seq<u32>| #[trigger] post.concat_chain(cs) == pre.concat_chain(cs),
            forall|c: u32| #[trigger] post.chain_readable(c) == pre.chain_readable(c),
            post.cluster_size_spec() == pre.cluster_size_spec(),
    {
        Self::lemma_view_preserved_facts(pre, post);
        Self::lemma_view_preserved_read_ok(pre, post);
        assert forall|c: u32| #[trigger] post.chain_of(c) == pre.chain_of(c) by {
            if exists|cs: Seq<u32>| pre.is_chain(c, cs) {
                let cs1 = choose|cs: Seq<u32>| pre.is_chain(c, cs);
                Self::lemma_is_chain_preserved(pre, post, c, cs1);
                assert(post.is_chain(c, cs1));
                let cs2 = choose|cs: Seq<u32>| post.is_chain(c, cs);
                Self::lemma_is_chain_preserved(pre, post, c, cs2);
                pre.lemma_chain_unique(c, cs1, cs2);
            } else {
                if exists|cs: Seq<u32>| post.is_chain(c, cs) {
                    let cs2 = choose|cs: Seq<u32>| post.is_chain(c, cs);
                    Self::lemma_is_chain_preserved(pre, post, c, cs2);
                }
            }
        }
        assert forall|cs: Seq<u32>| #[trigger] post.concat_chain(cs) == pre.concat_chain(cs) by {
            Self::lemma_concat_chain_preserved(pre, post, cs);
        }
        assert forall|c: u32| #[trigger] post.chain_readable(c) == pre.chain_readable(c) by {
            assert(post.chain_of(c) == pre.chain_of(c));
            if pre.chain_of(c) is Some {
                let cs = pre.chain_of(c).unwrap();
                if pre.chain_readable(c) {
                    assert forall|i: int|
                        0 <= i < cs.len() implies post.cluster_fully_ok(#[trigger] cs[i]) by {}
                }
                if post.chain_readable(c) {
                    assert forall|i: int|
                        0 <= i < cs.len() implies pre.cluster_fully_ok(#[trigger] cs[i]) by {}
                }
            }
        }
    }

    /// The error a failed chain step at cluster `c` reports, with `buf_len`
    /// bytes already gathered: an entry beyond the FAT is `NotFound`, an
    /// unreadable FAT sector `Io`, a free, reserved or bad entry
    /// `InvalidData`, a buffer that cannot grow by one more cluster
    /// `InvalidData` as well, a cluster below 2 `InvalidInput`, and an
    /// unreadable data sector `Io`.
    pub open spec fn chain_step_err(self, c: u32, buf_len: int) -> Error {
        if !self.fat_in_range(c) {
            Error::NotFound
        } else if !self.fat_sector_ok(c) {
            Error::Io
        } else if !(self.fat_status_of(c) matches Status::Data(_) || self.fat_status_of(c)
            matches Status::Eoc(_)) {
            Error::InvalidData
        } else if buf_len > usize::MAX - self.cluster_size_spec() {
            Error::InvalidData
        } else if c < 2 {
            Error::InvalidInput
        } else {
            Error::Io
        }
    }

    /// What a failed chain read leaves behind: `cs` is the linked,
    /// readable run of clusters already gathered from `start`, and `next`
    /// is the cluster the walk stood at when it failed.
    pub open spec fn chain_prefix_upto(self, start: u32, cs: Seq<u32>, next: u32) -> bool {
        &&& cs.push(next)[0] == start
        &&& self.chain_links(cs.push(next))
        &&& forall|i: int| 0 <= i < cs.len() ==> self.cluster_fully_ok(#[trigger] cs[i])
    }

    /// Reads one cluster of a chain walk: looks up `cluster`'s FAT entry,
    /// appends the cluster's whole data region to `buf`, and returns the
    /// next cluster of the chain, or `None` at end-of-chain.
    fn chain_step(&mut self, cluster: Cluster, buf: &mut Vec<u8>) -> (r: Result<
        Option<Cluster>,
        Error,
    >)
        requires
            old(self).wf(),
        ensures
            final(self).wf(),
            Self::view_preserved(*old(self), *final(self)),
            match r {
                Ok(next) => {
                    &&& old(self).cluster_fully_ok(cluster.0)
                    &&& final(buf)@ == old(buf)@ + old(self).cluster_data(cluster.0)
                    &&& old(buf)@.len() + old(self).cluster_size_spec() <= usize::MAX
                    &&& match next {
                        Some(nc) => old(self).fat_status_of(cluster.0) == Status::Data(nc),
                        None => old(self).fat_status_of(cluster.0) matches Status::Eoc(_),
                    }
                },
                Err(e) => {
                    &&& e == old(self).chain_step_err(cluster.0, old(buf)@.len() as int)
                    &&& final(buf)@ == old(buf)@
                    &&& !(old(self).cluster_fully_ok(cluster.0) && (old(self).fat_status_of(
                        cluster.0,
                    ) matches Status::Data(_) || old(self).fat_status_of(cluster.0)
                        matches Status::Eoc(_)) && old(buf)@.len() + old(
                        self,
                    ).cluster_size_spec() <= usize::MAX)
                },
            },
    {
        let ghost pre = *old(self);
        let csize = self.cluster_size();
        let entry = match self.fat_entry(cluster) {
            Ok(e) => e,
            Err(e) => {
                return Err(e);
            },
        };
        let status = entry.status();
        let next: Option<Cluster> = match status {
            Status::Data(n) => Some(n),
            Status::Eoc(_) => None,
            _ => {
                return Err(Error::InvalidData);
            },
        };
        if buf.len() > usize::MAX - csize {
            return Err(Error::InvalidData);
        }
        let ghost before_read = *self;
        let mut tmp: Vec<u8> = vec![0u8; csize];
        match self.read_cluster(cluster, 0, &mut tmp) {
            Ok(_) => (),
            Err(e) => {
                proof {
                    Self::lemma_view_preserved_read_ok(pre, before_read);
                    Self::lemma_view_preserved_facts(pre, before_read);
                    assert(before_read.cluster_size_spec() == pre.cluster_size_spec());
                    assert(!before_read.cluster_fully_ok(cluster.0));
                    assert(!pre.cluster_fully_ok(cluster.0));
                    assert(e == before_read.read_cluster_err(cluster.0));
                    assert(e == pre.chain_step_err(cluster.0, old(buf)@.len() as int));
                }
                return Err(e);
            },
        };
        proof {
            Self::lemma_view_preserved_read_ok(pre, before_read);
            Self::lemma_view_preserved_facts(pre, before_read);
            assert(before_read.cluster_size_spec() == pre.cluster_size_spec());
            assert(before_read.cluster_fully_ok(cluster.0));
            assert(pre.cluster_fully_ok(cluster.0));
            assert(tmp@ =~= pre.cluster_data(cluster.0));
        }
        buf.append(&mut tmp);
        Ok(next)
    }

    /// Reads the whole cluster chain that starts at `start` into `buf`:
    /// after the call `buf` holds the chain's clusters concatenated, and
    /// the byte count is returned.
    ///
    /// Fails with `InvalidData` when the chain runs into a FAT entry that
    /// is neither data nor end-of-chain, or grows past what a buffer can
    /// hold (as a chain with a cycle would), and with `NotFound`, `Io` or
    /// `InvalidInput` as the FAT lookups and cluster reads do.
    #[verifier::rlimit(100)]
    pub fn read_chain(&mut self, start: Cluster, buf: &mut Vec<u8>) -> (r: Result<usize, Error>)
        requires
            old(self).wf(),
        ensures
            final(self).wf(),
            Self::view_preserved(*old(self), *final(self)),
            match r {
                Ok(n) => {
                    &&& old(self).chain_of(start.0) is Some
                    &&& n == old(self).chain_of(start.0).unwrap().len() * old(
                        self,
                    ).cluster_size_spec()
                    &&& final(buf)@ == old(self).concat_chain(old(self).chain_of(start.0).unwrap())
                    &&& n == final(buf)@.len()
                },
                Err(e) => {
                    &&& (e == Error::NotFound || e == Error::Io || e == Error::InvalidData || e
                        == Error::InvalidInput)
                    &&& exists|cs: Seq<u32>, next: u32|
                        #![trigger old(self).chain_prefix_upto(start.0, cs, next)]
                        {
                            &&& old(self).chain_prefix_upto(start.0, cs, next)
                            &&& final(buf)@ == old(self).concat_chain(cs)
                            &&& e == old(self).chain_step_err(
                                next,
                                cs.len() * old(self).cluster_size_spec(),
                            )
                        }
                },
            },
            (old(self).chain_readable(start.0) && old(self).chain_of(start.0).unwrap().len() * old(
                self,
            ).cluster_size_spec() <= usize::MAX) ==> r is Ok,
    {
        let ghost pre = *old(self);
        let csize = self.cluster_size();
        buf.clear();
        let mut cluster = start;
        let ghost mut cs: Seq<u32> = Seq::empty();
        loop
            invariant
                pre == *old(self),
                pre.wf(),
                self.wf(),
                Self::view_preserved(pre, *self),
                csize == pre.cluster_size_spec(),
                0 < csize,
                buf.len() == cs.len() * csize,
                buf@ == pre.concat_chain(cs),
                cs.push(cluster.0)[0] == start.0,
                pre.chain_links(cs.push(cluster.0)),
                forall|i: int| 0 <= i < cs.len() ==> pre.cluster_fully_ok(#[trigger] cs[i]),
            decreases usize::MAX - buf@.len(),
        {
            let ghost partial = cs.push(cluster.0);
            let ghost at_top = *self;
            proof {
                Self::lemma_view_preserved_facts(pre, at_top);
                Self::lemma_view_preserved_read_ok(pre, at_top);
                if pre.chain_readable(start.0) {
                    let chain = pre.chain_of(start.0).unwrap();
                    pre.lemma_chain_prefix(start.0, chain, partial);
                    assert(cluster.0 == chain.take(partial.len() as int)[cs.len() as int]);
                    assert(cluster.0 == chain[cs.len() as int]);
                    assert(pre.cluster_fully_ok(chain[cs.len() as int]));
                }
            }
            let next = match self.chain_step(cluster, buf) {
                Ok(n) => n,
                Err(e) => {
                    proof {
                        assert(at_top.chain_step_err(cluster.0, buf@.len() as int)
                            == pre.chain_step_err(cluster.0, buf@.len() as int));
                        assert(pre.chain_prefix_upto(start.0, cs, cluster.0));
                        assert(buf@ == pre.concat_chain(cs));
                        assert(e == pre.chain_step_err(
                            cluster.0,
                            cs.len() * pre.cluster_size_spec(),
                        ));
                        if pre.chain_readable(start.0) && pre.chain_of(start.0).unwrap().len()
                            * pre.cluster_size_spec() <= usize::MAX {
                            let chain = pre.chain_of(start.0).unwrap();
                            assert(at_top.cluster_fully_ok(cluster.0));
                            if cs.len() < chain.len() - 1 {
                                assert(pre.fat_status_of(chain[cs.len() as int])
                                    == Status::Data(Cluster(chain[cs.len() as int + 1])));
                            } else {
                                assert(chain[cs.len() as int] == chain.last());
                            }
                            assert(at_top.fat_status_of(cluster.0) matches Status::Data(_)
                                || at_top.fat_status_of(cluster.0) matches Status::Eoc(_));
                            assert((cs.len() + 1) * csize <= chain.len() * csize)
                                by (nonlinear_arith)
                                requires
                                    cs.len() + 1 <= chain.len(),
                                    0 < csize,
                            {}
                            assert((cs.len() + 1) * csize == cs.len() * csize + csize)
                                by (nonlinear_arith)
                            {}
                            assert(false);
                        }
                    }
                    return Err(e);
                },
            };
            proof {
                pre.lemma_concat_chain_push(cs, cluster.0);
                assert((cs.len() + 1) * csize == cs.len() * csize + csize) by (nonlinear_arith)
                {}
                cs = cs.push(cluster.0);
            }
            match next {
                Some(nc) => {
                    proof {
                        assert(pre.fat_status_of(cluster.0) == Status::Data(nc));
                        let p2 = cs.push(nc.0);
                        assert(p2[0] == start.0);
                        assert forall|i: int|
                            0 <= i < p2.len() - 1 implies pre.fat_in_range(#[trigger] p2[i])
                            && pre.fat_status_of(p2[i]) == Status::Data(Cluster(p2[i + 1])) by {
                            if i < p2.len() - 2 {
                                assert(p2[i] == partial[i]);
                                assert(p2[i + 1] == partial[i + 1]);
                            } else {
                                assert(p2[i] == cluster.0);
                                assert(p2[i + 1] == nc.0);
                            }
                        }
                    }
                    cluster = nc;
                },
                None => {
                    let total = buf.len();
                    proof {
                        assert(pre.is_chain(start.0, cs)) by {
                            assert(cs == partial);
                            assert(cs.last() == cluster.0);
                            assert(pre.fat_status_of(cluster.0) matches Status::Eoc(_));
                        }
                        let chosen = pre.chain_of(start.0).unwrap();
                        pre.lemma_chain_unique(start.0, chosen, cs);
                        pre.lemma_concat_chain_len(cs);
                    }
                    return Ok(total);
                },
            }
        }
    }
}

/// Whether a partition-table slot of the MBR bytes `s` names a FAT32
/// partition (type 0x0B or 0x0C).
pub open spec fn slot_is_fat32(s: Seq<u8>, i: int) -> bool {
    s[slot_off(i) + 4] == 0x0B || s[slot_off(i) + 4] == 0x0C
}

/// The index of the first FAT32 partition slot of the MBR bytes `s`, or 4
/// when none exists.
pub open spec fn fat32_slot_index(s: Seq<u8>) -> int {
    if slot_is_fat32(s, 0) {
        0
    } else if slot_is_fat32(s, 1) {
        1
    } else if slot_is_fat32(s, 2) {
        2
    } else if slot_is_fat32(s, 3) {
        3
    } else {
        4
    }
}

/// The MBR bytes of device `d`.
pub open spec fn spec_mbr_bytes<T: BlockDevice>(d: T) -> Seq<u8> {
    d.spec_disk().subrange(0, 512)
}

/// The sector where the first FAT32 partition of device `d` begins.
pub open spec fn spec_partition_start<T: BlockDevice>(d: T) -> int {
    le32(spec_mbr_bytes(d), slot_off(fat32_slot_index(spec_mbr_bytes(d))) + 8)
}

/// The EBPB bytes of device `d`: the first 512 bytes of the partition's
/// boot sector.
pub open spec fn spec_ebpb_bytes<T: BlockDevice>(d: T) -> Seq<u8> {
    spec_sector(d, spec_partition_start(d) as u64).subrange(0, 512)
}

/// Stage one of mounting: the MBR can be read and decodes cleanly.
pub open spec fn mount_mbr_ok<T: BlockDevice>(d: T) -> bool {
    &&& mbr_readable(d)
    &&& has_mbr_signature(spec_mbr_bytes(d))
    &&& forall|i: int| 0 <= i < 4 ==> boot_indicator_ok(spec_mbr_bytes(d), i)
}

/// Stage two: a FAT32 partition exists.
pub open spec fn mount_slot_ok<T: BlockDevice>(d: T) -> bool {
    mount_mbr_ok(d) && fat32_slot_index(spec_mbr_bytes(d)) < 4
}

/// Stage three: the partition's boot sector can be read and carries the
/// EBPB signature.
pub open spec fn mount_ebpb_ok<T: BlockDevice>(d: T) -> bool {
    &&& mount_slot_ok(d)
    &&& ebpb_readable(d, spec_partition_start(d) as u64)
    &&& has_ebpb_signature(spec_ebpb_bytes(d))
}

/// Stage four: the decoded geometry is one this reader can serve: logical
/// sectors are a positive multiple of physical ones and of four bytes,
/// clusters are not empty, and at least one FAT exists.
pub open spec fn mount_geometry_ok<T: BlockDevice>(d: T) -> bool {
    let e = spec_ebpb_bytes(d);
    &&& mount_ebpb_ok(d)
    &&& d.spec_sector_size() <= le16(e, 11)
    &&& le16(e, 11) % d.spec_sector_size() as int == 0
    &&& le16(e, 11) % 4 == 0
    &&& 0 < e[13]
    &&& 1 <= e[16]
}

/// Whether mounting device `d` succeeds.
pub open spec fn mount_ok<T: BlockDevice>(d: T) -> bool {
    mount_geometry_ok(d)
}

/// What the fields of a freshly mounted filesystem hold, relative to the
/// device's bytes.
pub open spec fn mounted_matches<T: BlockDevice>(v: VFat<T>, d: T) -> bool {
    let e = spec_ebpb_bytes(d);
    let start = spec_partition_start(d);
    &&& v.device.device.spec_disk() == d.spec_disk()
    &&& v.device.device.spec_sector_size() == d.spec_sector_size()
    &&& v.device.partition.start == start
    &&& v.device.partition.sector_size == le16(e, 11)
    &&& v.device.cache@ == Map::<u64, crate::cache::CacheEntry>::empty()
    &&& v.bytes_per_sector == le16(e, 11)
    &&& v.sectors_per_cluster == e[13]
    &&& v.sectors_per_fat == le32(e, 36)
    &&& v.fat_start_sector == start + le16(e, 14)
    &&& v.data_start_sector == start + le16(e, 14) + e[16] * le32(e, 36)
    &&& v.root_dir_cluster.0 == le32(e, 44)
}

impl<T: BlockDevice> VFat<T> {
    /// Mounts the first FAT32 partition of `device`.
    ///
    /// Reads and validates the MBR, selects the first partition of type
    /// 0x0B or 0x0C, decodes its EBPB, and wraps the device in a
    /// logical-sector cache.  Fails with the error of the first stage that
    /// goes wrong: `Io` when a needed sector cannot be read whole,
    /// `BadSignature` when the MBR or the EBPB signature is missing,
    /// `UnknownBootIndicator` for a malformed partition slot, `NotFound`
    /// when no FAT32 partition exists, and `InvalidData` when the geometry
    /// is one this reader cannot serve.
    pub fn from(device: T) -> (r: Result<VFat<T>, Error>)
        requires
            device.wf(),
        ensures
            r matches Ok(v) ==> mount_ok(device) && v.wf() && mounted_matches(v, device),
            r is Ok <==> mount_ok(device),
            r matches Err(e) ==> {
                ||| (e == Error::Io && (!mbr_readable(device) || (mount_slot_ok(device)
                    && !ebpb_readable(device, spec_partition_start(device) as u64))))
                ||| (e == Error::BadSignature && ((mbr_readable(device) && !has_mbr_signature(
                    spec_mbr_bytes(device),
                )) || (mount_slot_ok(device) && ebpb_readable(
                    device,
                    spec_partition_start(device) as u64,
                ) && !has_ebpb_signature(spec_ebpb_bytes(device)))))
                ||| (e matches Error::UnknownBootIndicator(i) && mbr_readable(device)
                    && has_mbr_signature(spec_mbr_bytes(device)) && 0 <= i < 4
                    && !boot_indicator_ok(spec_mbr_bytes(device), i as int))
                ||| (e == Error::NotFound && mount_mbr_ok(device) && fat32_slot_index(
                    spec_mbr_bytes(device),
                ) == 4)
                ||| (e == Error::InvalidData && mount_ebpb_ok(device) && !mount_geometry_ok(
                    device,
                ))
            },
    {
        let mut device = device;
        let ghost d0 = device;
        let mbr = match MasterBootRecord::from(&mut device) {
            Ok(m) => m,
            Err(e) => {
                return Err(e);
            },
        };
        let fat32 = match mbr.first_fat32_partition() {
            Some(p) => p,
            None => {
                proof {
                    let s = spec_mbr_bytes(d0);
                    assert forall|i: int| 0 <= i < 4 implies !slot_is_fat32(s, i) by {
                        assert(mbr.partition_table@[i] == crate::mbr::spec_partition_entry(
                            s,
                            slot_off(i),
                        ));
                        assert(!(mbr.partition_table@[i].partition_type == 0x0B
                            || mbr.partition_table@[i].partition_type == 0x0C));
                    }
                }
                return Err(Error::NotFound);
            },
        };
        proof {
            let s = spec_mbr_bytes(d0);
            assert forall|j: int|
                0 <= j < 4 implies mbr.partition_table@[j] == crate::mbr::spec_partition_entry(
                s,
                slot_off(j),
            ) by {}
            let i = choose|i: int|
                0 <= i < 4 && mbr.partition_table@[i] == fat32 && (fat32.partition_type == 0x0B
                    || fat32.partition_type == 0x0C) && forall|j: int|
                    0 <= j < i ==> !(#[trigger] mbr.partition_table@[j].partition_type == 0x0B
                        || mbr.partition_table@[j].partition_type == 0x0C);
            assert(slot_is_fat32(s, i));
            assert forall|j: int| 0 <= j < i implies !slot_is_fat32(s, j) by {
                assert(mbr.partition_table@[j] == crate::mbr::spec_partition_entry(
                    s,
                    slot_off(j),
                ));
                assert(!(mbr.partition_table@[j].partition_type == 0x0B
                    || mbr.partition_table@[j].partition_type == 0x0C));
            }
            assert(fat32_slot_index(s) == i);
            assert(fat32 == crate::mbr::spec_partition_entry(s, slot_off(fat32_slot_index(s))));
        }
        let start_sector = fat32.relative_sector as u64;
        let bpb = match BiosParameterBlock::from(&mut device, start_sector) {
            Ok(b) => b,
            Err(e) => {
                return Err(e);
            },
        };
        let pss = device.sector_size();
        let bps = bpb.bytes_per_sector;
        let spc = bpb.sectors_per_cluster;
        let nfats = bpb.number_of_fats;
        if !(pss <= bps as u64 && bps as u64 % pss == 0 && bps % 4 == 0 && spc > 0 && nfats >= 1) {
            return Err(Error::InvalidData);
        }
        let fat_start = start_sector + bpb.number_of_reserved_sectors as u64;
        proof {
            assert(nfats as int * bpb.sectors_per_fat as int <= 255 * 0xFFFF_FFFF)
                by (nonlinear_arith)
                requires
                    nfats <= 255,
                    bpb.sectors_per_fat <= 0xFFFF_FFFF,
                    0 <= nfats,
                    0 <= bpb.sectors_per_fat,
            {}
            assert(bpb.sectors_per_fat as int <= nfats as int * bpb.sectors_per_fat as int)
                by (nonlinear_arith)
                requires
                    1 <= nfats,
                    0 <= bpb.sectors_per_fat,
            {}
        }
        let data_start = fat_start + nfats as u64 * bpb.sectors_per_fat as u64;
        let cached = CachedDevice::new(
            device,
            Partition { start: start_sector, sector_size: bps as u64 },
        );
        let vfat = VFat {
            device: cached,
            bytes_per_sector: bps,
            sectors_per_cluster: spc,
            sectors_per_fat: bpb.sectors_per_fat,
            fat_start_sector: fat_start,
            data_start_sector: data_start,
            root_dir_cluster: Cluster(bpb.cluster_no_of_root_directory),
        };
        Ok(vfat)
    }
}

} // verus!
