//! The block-device capability the filesystem is mounted over, and an
//! in-memory implementation of it.

use vstd::prelude::*;

use crate::error::Error;

verus! {

/// True when sector `n` of a device with sectors of `ss` bytes and
/// `disk_len` bytes in all lies wholly on the device.
pub open spec fn sector_range_ok(ss: u64, disk_len: int, n: u64) -> bool {
    (n + 1) * ss <= disk_len
}

/// A device that serves fixed-size sectors of bytes.
///
/// The device is modelled by two abstract quantities: its physical sector
/// size and its contents as one flat byte sequence.  Reading never changes
/// either; a sector read succeeds exactly when the sector lies wholly on
/// the device.
pub trait BlockDevice: Sized {
    /// Well-formedness of this device value; reads require it and keep it.
    spec fn wf(&self) -> bool;

    /// The physical sector size in bytes, constant over the device's life.
    spec fn spec_sector_size(&self) -> u64;

    /// The device's contents, as one flat sequence of bytes.
    spec fn spec_disk(&self) -> Seq<u8>;

    /// The physical sector size.
    fn sector_size(&self) -> (r: u64)
        requires
            self.wf(),
        ensures
            r == self.spec_sector_size(),
            0 < r,
    ;

    /// Reads sector `n` into the front of `buf`: the first
    /// `min(buf.len(), sector_size)` bytes of `buf` receive the sector's
    /// first bytes, the rest of `buf` stays, and the count is returned.
    /// Fails with `Error::Io` exactly when the sector is not wholly on the
    /// device.
    fn read_sector(&mut self, n: u64, buf: &mut Vec<u8>) -> (r: Result<usize, Error>)
        requires
            old(self).wf(),
        ensures
            final(self).wf(),
            final(self).spec_sector_size() == old(self).spec_sector_size(),
            final(self).spec_disk() == old(self).spec_disk(),
            final(buf)@.len() == old(buf)@.len(),
            match r {
                Ok(cnt) => {
                    &&& sector_range_ok(old(self).spec_sector_size(), old(self).spec_disk().len() as int, n)
                    &&& cnt == if old(buf)@.len() <= old(self).spec_sector_size() {
                        old(buf)@.len() as int
                    } else {
                        old(self).spec_sector_size() as int
                    }
                    &&& forall|i: int|
                        0 <= i < final(buf)@.len() ==> final(buf)@[i] == if i < cnt {
                            old(self).spec_disk()[n * old(self).spec_sector_size() + i]
                        } else {
                            old(buf)@[i]
                        }
                },
                Err(e) => !sector_range_ok(old(self).spec_sector_size(), old(self).spec_disk().len() as int, n) && e == Error::Io,
            },
    ;
}

/// True when sector `n` lies wholly on device `d`.
pub open spec fn sector_in_range<T: BlockDevice>(d: T, n: u64) -> bool {
    sector_range_ok(d.spec_sector_size(), d.spec_disk().len() as int, n)
}

/// The bytes of sector `n` of device `d`.
pub open spec fn spec_sector<T: BlockDevice>(d: T, n: u64) -> Seq<u8> {
    d.spec_disk().subrange(n * d.spec_sector_size(), n * d.spec_sector_size() + d.spec_sector_size())
}

/// A block device held wholly in memory: the byte buffer is the disk.
///
/// This is the device the test images are mounted from; a program that
/// reads a real medium loads or maps it into memory first.
pub struct VecBlockDevice {
    data: Vec<u8>,
    sector_bytes: u64,
}

impl VecBlockDevice {
    /// Wraps `data` as a device of `sector_size`-byte sectors.
    pub fn new(data: Vec<u8>, sector_size: u64) -> (d: VecBlockDevice)
        requires
            0 < sector_size,
        ensures
            d.wf(),
            d.spec_disk() == data@,
            d.spec_sector_size() == sector_size,
    {
        VecBlockDevice { data, sector_bytes: sector_size }
    }
}

impl BlockDevice for VecBlockDevice {
    closed spec fn wf(&self) -> bool {
        0 < self.sector_bytes
    }

    closed spec fn spec_sector_size(&self) -> u64 {
        self.sector_bytes
    }

    closed spec fn spec_disk(&self) -> Seq<u8> {
        self.data@
    }

    fn sector_size(&self) -> (r: u64) {
        self.sector_bytes
    }

    fn read_sector(&mut self, n: u64, buf: &mut Vec<u8>) -> (r: Result<usize, Error>) {
        let ss = self.sector_bytes;
        let len = self.data.len() as u64;
        // Sector n lies on the device iff (n + 1) * ss <= len; with ss > 0
        // that is iff n < len / ss, which avoids any overflowing multiply.
        if n >= len / ss {
            proof {
                assert(!sector_range_ok(ss, len as int, n)) by (nonlinear_arith)
                    requires
                        n >= len / ss,
                        0 < ss,
                {}
            }
            return Err(Error::Io);
        }
        proof {
            assert((n + 1) * ss <= len && n * ss + ss <= len && n * ss == n as int * ss as int)
                by (nonlinear_arith)
                requires
                    n < len / ss,
                    0 < ss,
            {}
        }
        let base = (n * ss) as usize;
        let cnt: usize = if buf.len() <= ss as usize {
            buf.len()
        } else {
            ss as usize
        };
        let mut k: usize = 0;
        while k < cnt
            invariant
                k <= cnt,
                base + cnt <= self.data.len(),
                cnt <= buf.len(),
                buf@.len() == old(buf)@.len(),
                self == old(self),
                forall|i: int|
                    0 <= i < buf@.len() ==> buf@[i] == if i < k {
                        self.data@[base + i]
                    } else {
                        old(buf)@[i]
                    },
            decreases cnt - k,
        {
            let b = self.data[base + k];
            buf[k] = b;
            k = k + 1;
        }
        Ok(cnt)
    }
}

} // verus!
