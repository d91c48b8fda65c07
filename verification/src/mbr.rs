//! The Master Boot Record: sector 0 of the disk, holding the partition
//! table.

use vstd::prelude::*;

use crate::byteops::{le16, le32, read_le16, read_le32, subvec};
use crate::device::{sector_in_range, BlockDevice};
use crate::error::Error;

verus! {

/// A legacy cylinder/head/sector address; kept raw, never interpreted.
#[derive(Clone, Copy, Debug, PartialEq, Eq, Structural)]
pub struct CHS {
    pub head: u8,
    /// Bits 0..6 the sector; the rest, with the next byte, the cylinder.
    pub sector_and_cylinder: u16,
}

/// One of the four 16-byte slots of the partition table.
#[derive(Clone, Copy, Debug, PartialEq, Eq, Structural)]
pub struct PartitionEntry {
    /// Boot indicator flag: 0x00 = no, 0x80 = bootable.
    pub boot_indicator: u8,
    pub starting_chs: CHS,
    /// Partition type: 0x0B or 0x0C for FAT32.
    pub partition_type: u8,
    pub ending_chs: CHS,
    /// Offset, in sectors, from the start of the disk to the partition.
    pub relative_sector: u32,
    /// Total sectors in the partition.
    pub total_sectors: u32,
}

/// The decoded master boot record.
#[derive(Clone, Debug, PartialEq, Eq)]
pub struct MasterBootRecord {
    /// The flat boot code, 436 bytes, kept uninterpreted.
    pub bootstrap: Vec<u8>,
    /// The optional disk id, 10 bytes.
    pub disk_id: Vec<u8>,
    /// The four slots of the partition table.
    pub partition_table: [PartitionEntry; 4],
    /// The tail signature, `[0x55, 0xAA]` on every accepted record.
    pub signature: [u8; 2],
}

/// The partition-table slot decoded from the 16 bytes of `s` at `off`.
pub open spec fn spec_partition_entry(s: Seq<u8>, off: int) -> PartitionEntry {
    PartitionEntry {
        boot_indicator: s[off],
        starting_chs: CHS { head: s[off + 1], sector_and_cylinder: le16(s, off + 2) as u16 },
        partition_type: s[off + 4],
        ending_chs: CHS { head: s[off + 5], sector_and_cylinder: le16(s, off + 6) as u16 },
        relative_sector: le32(s, off + 8) as u32,
        total_sectors: le32(s, off + 12) as u32,
    }
}

/// The byte offset of partition-table slot `i`.
pub open spec fn slot_off(i: int) -> int {
    446 + 16 * i
}

/// Whether the 512 bytes of `s` end in the `[0x55, 0xAA]` boot-sector
/// signature.
pub open spec fn has_mbr_signature(s: Seq<u8>) -> bool {
    s[510] == 0x55 && s[511] == 0xAA
}

/// Whether partition slot `i` of `s` carries a valid boot indicator.
pub open spec fn boot_indicator_ok(s: Seq<u8>, i: int) -> bool {
    s[slot_off(i)] == 0x00 || s[slot_off(i)] == 0x80
}

/// Whether `d` can serve the 512 bytes of a master boot record: its
/// sectors are at least that large and sector 0 lies on the device.
pub open spec fn mbr_readable<T: BlockDevice>(d: T) -> bool {
    d.spec_sector_size() >= 512 && sector_in_range(d, 0)
}

/// What a decoded record looks like, relative to the 512 source bytes.
pub open spec fn mbr_matches(m: MasterBootRecord, s: Seq<u8>) -> bool {
    &&& m.bootstrap@ == s.subrange(0, 436)
    &&& m.disk_id@ == s.subrange(436, 446)
    &&& forall|i: int| 0 <= i < 4 ==> m.partition_table@[i] == spec_partition_entry(s, slot_off(i))
    &&& m.signature@ == seq![0x55u8, 0xAAu8]
}

impl MasterBootRecord {
    /// Decodes a master boot record from the 512 bytes of sector 0.
    ///
    /// Fails with `BadSignature` when the buffer does not end in
    /// `[0x55, 0xAA]`, and with `UnknownBootIndicator(i)` when slot `i` is
    /// the first whose boot indicator is neither 0x00 nor 0x80.
    pub fn parse(buf: &Vec<u8>) -> (r: Result<MasterBootRecord, Error>)
        requires
            buf.len() == 512,
        ensures
            r matches Ok(m) ==> {
                &&& has_mbr_signature(buf@)
                &&& forall|i: int| 0 <= i < 4 ==> boot_indicator_ok(buf@, i)
                &&& mbr_matches(m, buf@)
            },
            r matches Err(e) ==> {
                ||| e == Error::BadSignature && !has_mbr_signature(buf@)
                ||| (e matches Error::UnknownBootIndicator(i) && has_mbr_signature(buf@) && 0 <= i
                    < 4 && !boot_indicator_ok(buf@, i as int) && (forall|j: int|
                    0 <= j < i ==> boot_indicator_ok(buf@, j)))
            },
            (has_mbr_signature(buf@) && forall|i: int| 0 <= i < 4 ==> boot_indicator_ok(buf@, i))
                ==> r is Ok,
    {
        if !(buf[510] == 0x55 && buf[511] == 0xAA) {
            return Err(Error::BadSignature);
        }
        let mut index: u8 = 0;
        while index < 4
            invariant
                index <= 4,
                buf.len() == 512,
                has_mbr_signature(buf@),
                forall|j: int| 0 <= j < index ==> boot_indicator_ok(buf@, j),
            decreases 4 - index,
        {
            let flag = buf[446 + 16 * index as usize];
            if !(flag == 0x00 || flag == 0x80) {
                proof {
                    assert(!boot_indicator_ok(buf@, index as int));
                }
                return Err(Error::UnknownBootIndicator(index));
            }
            index = index + 1;
        }
        let entries = [
            Self::parse_entry(buf, 446),
            Self::parse_entry(buf, 462),
            Self::parse_entry(buf, 478),
            Self::parse_entry(buf, 494),
        ];
        Ok(
            MasterBootRecord {
                bootstrap: subvec(buf, 0, 436),
                disk_id: subvec(buf, 436, 10),
                partition_table: entries,
                signature: [0x55, 0xAA],
            },
        )
    }

    fn parse_entry(buf: &Vec<u8>, off: usize) -> (e: PartitionEntry)
        requires
            off + 16 <= buf.len(),
        ensures
            e == spec_partition_entry(buf@, off as int),
    {
        PartitionEntry {
            boot_indicator: buf[off],
            starting_chs: CHS { head: buf[off + 1], sector_and_cylinder: read_le16(buf, off + 2) },
            partition_type: buf[off + 4],
            ending_chs: CHS { head: buf[off + 5], sector_and_cylinder: read_le16(buf, off + 6) },
            relative_sector: read_le32(buf, off + 8),
            total_sectors: read_le32(buf, off + 12),
        }
    }

    /// Reads and decodes the master boot record from sector 0 of `device`.
    ///
    /// Fails with `Io` when the device cannot serve 512 bytes at sector 0,
    /// and otherwise as [`MasterBootRecord::parse`] does.
    pub fn from<T: BlockDevice>(device: &mut T) -> (r: Result<MasterBootRecord, Error>)
        requires
            old(device).wf(),
        ensures
            final(device).wf(),
            final(device).spec_sector_size() == old(device).spec_sector_size(),
            final(device).spec_disk() == old(device).spec_disk(),
            r matches Ok(m) ==> mbr_readable(*old(device)) && {
                let s = old(device).spec_disk().subrange(0, 512);
                &&& has_mbr_signature(s)
                &&& forall|i: int| 0 <= i < 4 ==> boot_indicator_ok(s, i)
                &&& mbr_matches(m, s)
            },
            r matches Err(e) ==> ({
                ||| (e == Error::Io && !mbr_readable(*old(device)))
                ||| (mbr_readable(*old(device)) && {
                    let s = old(device).spec_disk().subrange(0, 512);
                    ||| (e == Error::BadSignature && !has_mbr_signature(s))
                    ||| (e matches Error::UnknownBootIndicator(i) && has_mbr_signature(s) && 0 <= i
                        < 4 && !boot_indicator_ok(s, i as int) && (forall|j: int|
                        0 <= j < i ==> boot_indicator_ok(s, j)))
                })
            }),
            (mbr_readable(*old(device)) && {
                let s = old(device).spec_disk().subrange(0, 512);
                has_mbr_signature(s) && forall|i: int| 0 <= i < 4 ==> boot_indicator_ok(s, i)
            }) ==> r is Ok,
    {
        let mut buf: Vec<u8> = vec![0u8; 512];
        let got = match device.read_sector(0, &mut buf) {
            Ok(n) => n,
            Err(_) => {
                return Err(Error::Io);
            },
        };
        if got != 512 {
            // The device's sectors are smaller than a full boot record.
            return Err(Error::Io);
        }
        proof {
            assert(old(device).spec_sector_size() >= 512);
            assert(old(device).spec_disk().len() >= 512);
            assert(buf@.len() == 512);
            assert(forall|i: int| 0 <= i < 512 ==> buf@[i] == old(device).spec_disk()[0 * old(
                device,
            ).spec_sector_size() + i]);
            assert(buf@ =~= old(device).spec_disk().subrange(0, 512));
        }
        Self::parse(&buf)
    }
}

impl MasterBootRecord {
    /// The first slot whose partition type is one of `types`, if any.
    pub fn first_partition_of(&self, types: &[u8]) -> (r: Option<PartitionEntry>)
        ensures
            match r {
                Some(e) => exists|i: int|
                    0 <= i < 4 && self.partition_table@[i] == e && types@.contains(
                        e.partition_type,
                    ) && forall|j: int|
                        0 <= j < i ==> !types@.contains(
                            #[trigger] self.partition_table@[j].partition_type,
                        ),
                None => forall|i: int|
                    0 <= i < 4 ==> !types@.contains(
                        #[trigger] self.partition_table@[i].partition_type,
                    ),
            },
    {
        let mut i: usize = 0;
        while i < 4
            invariant
                i <= 4,
                forall|j: int|
                    0 <= j < i ==> !types@.contains(
                        #[trigger] self.partition_table@[j].partition_type,
                    ),
            decreases 4 - i,
        {
            let entry = self.partition_table[i];
            if Self::contains_type(types, entry.partition_type) {
                return Some(entry);
            }
            i = i + 1;
        }
        None
    }

    fn contains_type(types: &[u8], t: u8) -> (r: bool)
        ensures
            r == types@.contains(t),
    {
        let n = types.len();
        let mut k: usize = 0;
        while k < n
            invariant
                k <= n,
                n == types@.len(),
                forall|j: int| 0 <= j < k ==> types@[j] != t,
            decreases n - k,
        {
            if types[k] == t {
                return true;
            }
            k = k + 1;
        }
        false
    }

    /// The first slot that names a FAT32 partition (type 0x0B or 0x0C).
    pub fn first_fat32_partition(&self) -> (r: Option<PartitionEntry>)
        ensures
            match r {
                Some(e) => exists|i: int|
                    0 <= i < 4 && self.partition_table@[i] == e && (e.partition_type == 0x0B
                        || e.partition_type == 0x0C) && forall|j: int|
                        0 <= j < i ==> !(#[trigger] self.partition_table@[j].partition_type
                            == 0x0B || self.partition_table@[j].partition_type == 0x0C),
                None => forall|i: int|
                    0 <= i < 4 ==> !(#[trigger] self.partition_table@[i].partition_type == 0x0B
                        || self.partition_table@[i].partition_type == 0x0C),
            },
    {
        let types: [u8; 2] = [0x0B, 0x0C];
        let r = self.first_partition_of(types.as_slice());
        proof {
            assert(forall|t: u8|
                #[trigger] types@.contains(t) <==> (t == 0x0B || t == 0x0C)) by {
                assert(types@[0] == 0x0Bu8);
                assert(types@[1] == 0x0Cu8);
                assert(forall|t: u8| (t == 0x0Bu8 || t == 0x0Cu8) ==> #[trigger] types@.contains(
                    t,
                )) by {
                    assert(types@.contains(0x0Bu8));
                    assert(types@.contains(0x0Cu8));
                }
            }
        }
        r
    }
}

} // verus!
