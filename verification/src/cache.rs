//! A caching layer over a block device that serves *logical* sectors.
//!
//! The partition's logical sectors can be larger than the device's physical
//! sectors.  A virtual sector before the partition start maps one-to-one to
//! a physical sector; one at or after it spans `logical / physical`
//! contiguous physical sectors.  Every logical sector read is kept in an
//! in-memory cache keyed by the virtual sector number and served from there
//! afterwards.

use vstd::prelude::*;

use std::collections::HashMap;

use crate::byteops::{copy_into, subvec};
use crate::device::{sector_range_ok, BlockDevice};
use crate::error::Error;

verus! {

broadcast use vstd::std_specs::hash::group_hash_axioms;

/// Where the partition lies and how large its logical sectors are.
pub struct Partition {
    /// The physical sector where the partition begins.
    pub start: u64,
    /// The size, in bytes, of a logical sector in the partition.
    pub sector_size: u64,
}

/// One cached logical sector.
pub struct CacheEntry {
    /// The sector's bytes, exactly one logical sector long.
    pub data: Vec<u8>,
    /// Set when the sector was handed out for mutation or overwritten; a
    /// freshly loaded sector is clean.  The read-only core never writes
    /// back; the flag is kept for future write layering.
    pub dirty: bool,
}

/// A block device wrapped with a logical-sector cache.
pub struct CachedDevice<T: BlockDevice> {
    pub device: T,
    pub cache: HashMap<u64, CacheEntry>,
    pub partition: Partition,
}

impl<T: BlockDevice> CachedDevice<T> {
    /// The physical sector size.
    pub open spec fn pss(self) -> u64 {
        self.device.spec_sector_size()
    }

    /// The logical sector size.
    pub open spec fn lss(self) -> u64 {
        self.partition.sector_size
    }

    /// How many physical sectors one partition-area logical sector spans.
    pub open spec fn factor(self) -> int {
        self.lss() as int / self.pss() as int
    }

    pub open spec fn wf(self) -> bool {
        &&& self.device.wf()
        &&& 0 < self.pss()
        &&& self.pss() <= self.lss()
        &&& self.lss() as int % self.pss() as int == 0
        &&& self.lss() <= usize::MAX
        &&& forall|v: u64|
            self.cache@.contains_key(v) ==> (#[trigger] self.cache@[v]).data@.len() == self.lss()
    }

    /// The first physical sector backing virtual sector `v`.
    pub open spec fn phys_base(self, v: u64) -> int {
        if v < self.partition.start {
            v as int
        } else {
            self.partition.start + (v - self.partition.start) * self.factor()
        }
    }

    /// How many physical sectors back virtual sector `v`.
    pub open spec fn phys_count(self, v: u64) -> int {
        if v < self.partition.start {
            1
        } else {
            self.factor()
        }
    }

    /// The logical sector `v` as the device's contents give it: the backing
    /// physical sectors concatenated, zero-padded to one logical sector.
    pub open spec fn disk_logical(self, v: u64) -> Seq<u8> {
        Seq::new(
            self.lss() as nat,
            |i: int|
                if i < self.phys_count(v) * self.pss() {
                    self.device.spec_disk()[self.phys_base(v) * self.pss() + i]
                } else {
                    0u8
                },
        )
    }

    /// The current content of logical sector `v`: the cached copy when one
    /// exists, the device's bytes otherwise.
    pub open spec fn logical(self, v: u64) -> Seq<u8> {
        if self.cache@.contains_key(v) {
            self.cache@[v].data@
        } else {
            self.disk_logical(v)
        }
    }

    /// Whether a read of logical sector `v` can succeed: it is cached
    /// already, or every backing physical sector lies on the device (and
    /// its number fits the device's address width).
    pub open spec fn sector_ok(self, v: u64) -> bool {
        self.cache@.contains_key(v) || (self.phys_base(v) + self.phys_count(v) <= u64::MAX
            && (self.phys_base(v) + self.phys_count(v)) * self.pss()
            <= self.device.spec_disk().len())
    }

    /// What every read-side operation preserves: the geometry, and the
    /// content and availability of every logical sector.
    pub open spec fn view_preserved(pre: Self, post: Self) -> bool {
        &&& post.partition == pre.partition
        &&& post.device.spec_sector_size() == pre.device.spec_sector_size()
        &&& post.device.spec_disk() == pre.device.spec_disk()
        &&& forall|v: u64| #[trigger] post.logical(v) == pre.logical(v)
        &&& forall|v: u64| #[trigger] post.sector_ok(v) == pre.sector_ok(v)
    }

    proof fn lemma_same_geometry(pre: Self, post: Self)
        requires
            post.partition == pre.partition,
            post.device.spec_sector_size() == pre.device.spec_sector_size(),
            post.device.spec_disk() == pre.device.spec_disk(),
        ensures
            forall|v: u64| #[trigger] post.disk_logical(v) == pre.disk_logical(v),
            forall|v: u64| #[trigger] post.phys_base(v) == pre.phys_base(v),
            forall|v: u64| #[trigger] post.phys_count(v) == pre.phys_count(v),
    {
        assert forall|v: u64| #[trigger] post.disk_logical(v) == pre.disk_logical(v) by {
            assert(post.disk_logical(v) =~= pre.disk_logical(v));
        }
    }

    /// Wraps `device` with an empty cache over `partition`.  The logical
    /// sector size must be a positive integral multiple of the device's
    /// physical sector size.
    pub fn new(device: T, partition: Partition) -> (c: CachedDevice<T>)
        requires
            device.wf(),
            0 < device.spec_sector_size(),
            device.spec_sector_size() <= partition.sector_size,
            partition.sector_size as int % device.spec_sector_size() as int == 0,
            partition.sector_size <= usize::MAX,
        ensures
            c.wf(),
            c.device == device,
            c.partition == partition,
            c.cache@ == Map::<u64, CacheEntry>::empty(),
    {
        let c = CachedDevice { device, cache: HashMap::new(), partition };
        proof {
            assert(0 < c.pss()) by {
                assert(c.device.wf());
            }
        }
        c
    }

    /// The physical sector where virtual sector `virt` starts and how many
    /// physical sectors it spans; `None` when that range would not fit the
    /// device's address width.
    fn virtual_to_physical(&self, virt: u64) -> (r: Option<(u64, u64)>)
        requires
            self.wf(),
        ensures
            match r {
                Some(p) => {
                    &&& p.0 == self.phys_base(virt)
                    &&& p.1 == self.phys_count(virt)
                    &&& self.phys_base(virt) + self.phys_count(virt) <= u64::MAX
                },
                None => self.phys_base(virt) + self.phys_count(virt) > u64::MAX,
            },
    {
        let pss = self.device.sector_size();
        let lss = self.partition.sector_size;
        if pss == lss || virt < self.partition.start {
            proof {
                if virt >= self.partition.start {
                    assert((virt - self.partition.start) * 1 == virt - self.partition.start);
                    assert(self.factor() == 1) by {
                        assert(self.lss() as int / self.pss() as int == 1) by (nonlinear_arith)
                            requires
                                self.lss() == self.pss(),
                                0 < self.pss(),
                        {}
                    }
                }
            }
            if virt == u64::MAX {
                return None;
            }
            Some((virt, 1))
        } else {
            let factor = lss / pss;
            proof {
                assert(factor >= 1) by (nonlinear_arith)
                    requires
                        factor == lss as int / pss as int,
                        0 < pss <= lss,
                {}
            }
            let logical_offset = virt - self.partition.start;
            proof {
                assert((logical_offset + 1) * factor == logical_offset * factor + factor)
                    by (nonlinear_arith)
                {}
            }
            let span = match logical_offset.checked_add(1) {
                Some(x) => x,
                None => {
                    proof {
                        lemma_mul_ge(logical_offset as int + 1, factor as int);
                    }
                    return None;
                },
            };
            let scaled = match span.checked_mul(factor) {
                Some(x) => x,
                None => {
                    proof {
                        lemma_mul_ge(span as int, factor as int);
                    }
                    return None;
                },
            };
            let end = match scaled.checked_add(self.partition.start) {
                Some(x) => x,
                None => {
                    return None;
                },
            };
            let base = end - factor;
            proof {
                assert((logical_offset + 1) * factor == logical_offset * factor + factor)
                    by (nonlinear_arith)
                {}
            }
            Some((base, factor))
        }
    }

    /// Reads the physical sectors backing `sector` and caches the result
    /// as a clean entry.
    fn reload_sector(&mut self, sector: u64) -> (r: Result<(), Error>)
        requires
            old(self).wf(),
            !old(self).cache@.contains_key(sector),
        ensures
            final(self).wf(),
            Self::view_preserved(*old(self), *final(self)),
            match r {
                Ok(()) => {
                    &&& old(self).sector_ok(sector)
                    &&& final(self).cache@.contains_key(sector)
                    &&& !final(self).cache@[sector].dirty
                },
                Err(e) => !old(self).sector_ok(sector) && e == Error::Io,
            },
    {
        let ghost pre = *self;
        let (base, count) = match self.virtual_to_physical(sector) {
            Some(p) => p,
            None => {
                return Err(Error::Io);
            },
        };
        let pss = self.device.sector_size();
        let lss_usize = self.partition.sector_size as usize;
        proof {
            assert(count * pss <= self.lss()) by {
                if sector < self.partition.start {
                    assert(1 * self.pss() == self.pss());
                } else {
                    vstd::arithmetic::div_mod::lemma_fundamental_div_mod(
                        self.lss() as int,
                        self.pss() as int,
                    );
                }
            }
            assert(0 <= count * pss) by (nonlinear_arith)
                requires
                    count >= 0,
                    pss >= 1,
            {}
        }
        let mut data: Vec<u8> = vec![0u8; lss_usize];
        let mut i: u64 = 0;
        while i < count
            invariant
                pre == *old(self),
                pre.wf(),
                self.partition == pre.partition,
                self.cache@ == pre.cache@,
                self.device.wf(),
                self.device.spec_sector_size() == pre.device.spec_sector_size(),
                self.device.spec_disk() == pre.device.spec_disk(),
                !pre.cache@.contains_key(sector),
                0 <= i <= count,
                pss == pre.pss(),
                lss_usize == pre.lss(),
                base == pre.phys_base(sector),
                count == pre.phys_count(sector),
                base + count <= u64::MAX,
                count * pss <= lss_usize,
                data@.len() == lss_usize,
                forall|j: int|
                    0 <= j < data@.len() ==> data@[j] == if j < i * pss {
                        pre.device.spec_disk()[base * pss + j]
                    } else {
                        0u8
                    },
                forall|s: u64|
                    base <= s < base + i ==> sector_range_ok(
                        pre.pss(),
                        pre.device.spec_disk().len() as int,
                        s,
                    ),
            decreases count - i,
        {
            proof {
                assert(i * pss + pss <= count * pss && (i + 1) * pss == i * pss + pss && i * pss
                    >= 0) by (nonlinear_arith)
                    requires
                        0 <= i < count,
                        pss >= 1,
                        count * pss <= lss_usize,
                {}
            }
            let mut tmp: Vec<u8> = vec![0u8; pss as usize];
            match self.device.read_sector(base + i, &mut tmp) {
                Ok(_) => (),
                Err(_) => {
                    proof {
                        assert(!pre.sector_ok(sector)) by {
                            assert(!sector_range_ok(
                                pre.pss(),
                                pre.device.spec_disk().len() as int,
                                (base + i) as u64,
                            ));
                            assert((base + i + 1) * pss <= (base + count) * pss)
                                by (nonlinear_arith)
                                requires
                                    i < count,
                                    pss >= 1,
                            {}
                        }
                        Self::lemma_same_geometry(pre, *self);
                        assert(Self::view_preserved(pre, *self));
                    }
                    return Err(Error::Io);
                },
            };
            proof {
                assert((base + i) * pss == base * pss + i * pss) by (nonlinear_arith) {}
            }
            copy_into(&mut data, (i * pss) as usize, &tmp, 0, pss as usize);
            i = i + 1;
        }
        proof {
            assert(pre.sector_ok(sector)) by {
                if count > 0 {
                    assert(sector_range_ok(
                        pre.pss(),
                        pre.device.spec_disk().len() as int,
                        (base + (count - 1)) as u64,
                    ));
                    assert((base + count - 1 + 1) * pss == (base + count) * pss);
                } else {
                    assert(count == pre.phys_count(sector) >= 1) by {
                        if sector >= pre.partition.start {
                            assert(pre.factor() >= 1) by (nonlinear_arith)
                                requires
                                    pre.factor() == pre.lss() as int / pre.pss() as int,
                                    0 < pre.pss() <= pre.lss(),
                            {}
                        }
                    }
                }
            }
            Self::lemma_same_geometry(pre, *self);
            assert(data@ =~= pre.disk_logical(sector));
            assert(data@ =~= self.disk_logical(sector));
        }
        let ghost mid = *self;
        self.cache.insert(sector, CacheEntry { data, dirty: false });
        proof {
            Self::lemma_same_geometry(pre, *self);
            assert(self.wf());
            assert forall|v: u64| #[trigger] self.logical(v) == pre.logical(v) by {
                if v != sector {
                    assert(self.cache@.contains_key(v) == pre.cache@.contains_key(v));
                    if self.cache@.contains_key(v) {
                        assert(self.cache@[v] == pre.cache@[v]);
                    }
                } else {
                    assert(self.cache@[sector].data@ == pre.disk_logical(sector));
                }
            }
            assert forall|v: u64| #[trigger] self.sector_ok(v) == pre.sector_ok(v) by {
                if v != sector {
                    assert(self.cache@.contains_key(v) == pre.cache@.contains_key(v));
                }
            }
        }
        Ok(())
    }

    /// A copy of cached logical sector `sector`, reading it from the device
    /// first when it is not cached yet.  Reading never marks anything
    /// dirty: a sector loaded on a miss enters the cache clean, and a hit
    /// keeps whatever flag the entry had.
    pub fn get(&mut self, sector: u64) -> (r: Result<Vec<u8>, Error>)
        requires
            old(self).wf(),
        ensures
            final(self).wf(),
            Self::view_preserved(*old(self), *final(self)),
            match r {
                Ok(data) => {
                    &&& old(self).sector_ok(sector)
                    &&& data@ == old(self).logical(sector)
                    &&& data@.len() == old(self).lss()
                    &&& final(self).cache@.contains_key(sector)
                    &&& final(self).cache@[sector].dirty == (old(self).cache@.contains_key(sector)
                        && old(self).cache@[sector].dirty)
                },
                Err(e) => !old(self).sector_ok(sector) && e == Error::Io,
            },
    {
        if !self.cache.contains_key(&sector) {
            match self.reload_sector(sector) {
                Ok(()) => (),
                Err(e) => {
                    return Err(e);
                },
            }
        }
        match self.cache.get(&sector) {
            Some(entry) => {
                let n = entry.data.len();
                let data = subvec(&entry.data, 0, n);
                proof {
                    assert(data@ =~= entry.data@);
                    assert(entry.data@ == self.logical(sector));
                    assert(self.logical(sector) == old(self).logical(sector));
                    assert(self.sector_ok(sector) == old(self).sector_ok(sector));
                }
                Ok(data)
            },
            None => {
                proof {
                    assert(false);
                }
                Err(Error::Io)
            },
        }
    }

    /// Like [`CachedDevice::get`], but marks the cached sector dirty,
    /// recording that it was handed out for mutation.  The bytes come
    /// back as a copy, so a change to them reaches the cache only through
    /// [`CachedDevice::write_sector`].
    pub fn get_mut(&mut self, sector: u64) -> (r: Result<Vec<u8>, Error>)
        requires
            old(self).wf(),
        ensures
            final(self).wf(),
            Self::view_preserved(*old(self), *final(self)),
            match r {
                Ok(data) => {
                    &&& old(self).sector_ok(sector)
                    &&& data@ == old(self).logical(sector)
                    &&& data@.len() == old(self).lss()
                    &&& final(self).cache@.contains_key(sector)
                    &&& final(self).cache@[sector].dirty
                },
                Err(e) => !old(self).sector_ok(sector) && e == Error::Io,
            },
    {
        let data = match self.get(sector) {
            Ok(d) => d,
            Err(e) => {
                return Err(e);
            },
        };
        let ghost mid = *self;
        let n = data.len();
        let copy = subvec(&data, 0, n);
        self.cache.insert(sector, CacheEntry { data: copy, dirty: true });
        proof {
            Self::lemma_same_geometry(mid, *self);
            assert forall|v: u64| #[trigger] self.logical(v) == mid.logical(v) by {
                if v != sector {
                    assert(self.cache@.contains_key(v) == mid.cache@.contains_key(v));
                } else {
                    assert(self.cache@[sector].data@ == mid.logical(sector));
                }
            }
            assert forall|v: u64| #[trigger] self.sector_ok(v) == mid.sector_ok(v) by {
                if v != sector {
                    assert(self.cache@.contains_key(v) == mid.cache@.contains_key(v));
                }
            }
        }
        Ok(data)
    }

    /// Copies the first `min(logical sector size, buf.len())` bytes of
    /// logical sector `n` into the front of `buf`.
    pub fn read_sector(&mut self, n: u64, buf: &mut Vec<u8>) -> (r: Result<usize, Error>)
        requires
            old(self).wf(),
        ensures
            final(self).wf(),
            Self::view_preserved(*old(self), *final(self)),
            final(buf)@.len() == old(buf)@.len(),
            match r {
                Ok(cnt) => {
                    &&& old(self).sector_ok(n)
                    &&& cnt == if old(buf)@.len() <= old(self).lss() {
                        old(buf)@.len() as int
                    } else {
                        old(self).lss() as int
                    }
                    &&& forall|i: int|
                        0 <= i < final(buf)@.len() ==> final(buf)@[i] == if i < cnt {
                            old(self).logical(n)[i]
                        } else {
                            old(buf)@[i]
                        }
                },
                Err(e) => !old(self).sector_ok(n) && e == Error::Io,
            },
    {
        let data = match self.get(n) {
            Ok(d) => d,
            Err(e) => {
                return Err(e);
            },
        };
        let cnt = if buf.len() <= data.len() {
            buf.len()
        } else {
            data.len()
        };
        copy_into(buf, 0, &data, 0, cnt);
        Ok(cnt)
    }

    /// Replaces the cached copy of logical sector `n` with `buf`, which
    /// must be exactly one logical sector, and marks it dirty.  Nothing is
    /// written back to the device.
    pub fn write_sector(&mut self, n: u64, buf: &Vec<u8>) -> (r: Result<usize, Error>)
        requires
            old(self).wf(),
        ensures
            final(self).wf(),
            final(self).partition == old(self).partition,
            final(self).device.spec_sector_size() == old(self).device.spec_sector_size(),
            final(self).device.spec_disk() == old(self).device.spec_disk(),
            match r {
                Ok(cnt) => {
                    &&& buf@.len() == old(self).lss()
                    &&& old(self).sector_ok(n)
                    &&& cnt == old(self).lss()
                    &&& final(self).logical(n) == buf@
                    &&& final(self).cache@.contains_key(n)
                    &&& final(self).cache@[n].dirty
                    &&& forall|v: u64|
                        v != n ==> #[trigger] final(self).logical(v) == old(self).logical(v)
                    &&& forall|v: u64| #[trigger] final(self).sector_ok(v) == old(self).sector_ok(v)
                },
                Err(e) => {
                    &&& (buf@.len() != old(self).lss() || !old(self).sector_ok(n))
                    &&& e == Error::Io
                    &&& Self::view_preserved(*old(self), *final(self))
                },
            },
    {
        let sector_size = self.partition.sector_size as usize;
        if buf.len() != sector_size {
            return Err(Error::Io);
        }
        match self.get(n) {
            Ok(_) => (),
            Err(e) => {
                return Err(e);
            },
        }
        let ghost mid = *self;
        let copy = subvec(buf, 0, sector_size);
        self.cache.insert(n, CacheEntry { data: copy, dirty: true });
        proof {
            Self::lemma_same_geometry(mid, *self);
            assert(self.logical(n) =~= buf@);
            assert forall|v: u64| v != n implies #[trigger] self.logical(v) == mid.logical(v) by {
                assert(self.cache@.contains_key(v) == mid.cache@.contains_key(v));
            }
            assert forall|v: u64| #[trigger] self.sector_ok(v) == mid.sector_ok(v) by {
                if v != n {
                    assert(self.cache@.contains_key(v) == mid.cache@.contains_key(v));
                }
            }
        }
        Ok(sector_size)
    }
}

/// `a * b >= a` for positive `b`; used by the overflow guards.
proof fn lemma_mul_ge(a: int, b: int)
    requires
        0 <= a,
        1 <= b,
    ensures
        a * b >= a,
{
    assert(a * b >= a) by (nonlinear_arith)
        requires
            0 <= a,
            1 <= b,
    {}
}

} // verus!
