//! The FAT32 Extended BIOS Parameter Block: the boot sector of the chosen
//! partition, giving the filesystem's geometry.

use vstd::prelude::*;

use crate::byteops::{le16, le32, read_le16, read_le32, subvec};
use crate::device::{sector_in_range, spec_sector, BlockDevice};
use crate::error::Error;

verus! {

/// The decoded boot sector of a FAT32 partition.  All multi-byte fields
/// are little-endian and densely packed on disk; nothing is aligned.
#[derive(Clone, Debug, PartialEq, Eq)]
pub struct BiosParameterBlock {
    /// The jump instruction, 3 bytes, kept uninterpreted.
    pub first_three: Vec<u8>,
    /// The OEM identifier, 8 bytes.
    pub oem_identifier: Vec<u8>,
    pub bytes_per_sector: u16,
    pub sectors_per_cluster: u8,
    pub number_of_reserved_sectors: u16,
    pub number_of_fats: u8,
    pub max_no_of_director_entries: u16,
    pub total_logical_sectors: u16,
    pub fat_id: u8,
    /// Sectors per FAT for FAT12/16; zero on FAT32, which uses the 32-bit
    /// field further down.
    pub number_of_sectors_per_fat: u16,
    pub number_of_sectors_per_track: u16,
    pub number_of_heads_or_sides: u16,
    pub number_of_hidden_sectors: u32,
    pub total_logical_sectors_: u32,
    /// Sectors per FAT, the field FAT32 actually uses.
    pub sectors_per_fat: u32,
    pub flags: u16,
    pub fat_version_number: u16,
    pub cluster_no_of_root_directory: u32,
    pub sector_no_of_fsinfo_structure: u16,
    pub sector_no_of_backup_boot_sector: u16,
    /// Reserved, 12 bytes.
    pub reserved: Vec<u8>,
    pub drive_number: u8,
    pub flags_winnt: u8,
    pub signature: u8,
    pub volume_id_serial_no: u32,
    /// The volume label, 11 bytes.
    pub volume_label_string: Vec<u8>,
    /// The system identifier, 8 bytes.
    pub system_identifier_string: Vec<u8>,
    /// The flat boot code, 420 bytes, kept uninterpreted.
    pub boot_code: Vec<u8>,
    pub bootable_partition_signature: u16,
}

/// Whether the 512 bytes of `s` end in the `0xAA55` boot-sector signature.
pub open spec fn has_ebpb_signature(s: Seq<u8>) -> bool {
    le16(s, 510) == 0xAA55
}

/// What a decoded parameter block looks like, relative to the 512 source
/// bytes.
pub open spec fn ebpb_matches(b: BiosParameterBlock, s: Seq<u8>) -> bool {
    &&& b.first_three@ == s.subrange(0, 3)
    &&& b.oem_identifier@ == s.subrange(3, 11)
    &&& b.bytes_per_sector == le16(s, 11)
    &&& b.sectors_per_cluster == s[13]
    &&& b.number_of_reserved_sectors == le16(s, 14)
    &&& b.number_of_fats == s[16]
    &&& b.max_no_of_director_entries == le16(s, 17)
    &&& b.total_logical_sectors == le16(s, 19)
    &&& b.fat_id == s[21]
    &&& b.number_of_sectors_per_fat == le16(s, 22)
    &&& b.number_of_sectors_per_track == le16(s, 24)
    &&& b.number_of_heads_or_sides == le16(s, 26)
    &&& b.number_of_hidden_sectors == le32(s, 28)
    &&& b.total_logical_sectors_ == le32(s, 32)
    &&& b.sectors_per_fat == le32(s, 36)
    &&& b.flags == le16(s, 40)
    &&& b.fat_version_number == le16(s, 42)
    &&& b.cluster_no_of_root_directory == le32(s, 44)
    &&& b.sector_no_of_fsinfo_structure == le16(s, 48)
    &&& b.sector_no_of_backup_boot_sector == le16(s, 50)
    &&& b.reserved@ == s.subrange(52, 64)
    &&& b.drive_number == s[64]
    &&& b.flags_winnt == s[65]
    &&& b.signature == s[66]
    &&& b.volume_id_serial_no == le32(s, 67)
    &&& b.volume_label_string@ == s.subrange(71, 82)
    &&& b.system_identifier_string@ == s.subrange(82, 90)
    &&& b.boot_code@ == s.subrange(90, 510)
    &&& b.bootable_partition_signature == le16(s, 510)
}

/// Whether `d` can serve the 512 bytes of the parameter block at sector
/// `n`: its sectors are at least that large and the sector lies on the
/// device.
pub open spec fn ebpb_readable<T: BlockDevice>(d: T, n: u64) -> bool {
    d.spec_sector_size() >= 512 && sector_in_range(d, n)
}

impl BiosParameterBlock {
    /// Decodes a parameter block from the 512 bytes of a partition's boot
    /// sector.  Fails with `BadSignature` exactly when the buffer does not
    /// end in `0xAA55`.
    pub fn parse(buf: &Vec<u8>) -> (r: Result<BiosParameterBlock, Error>)
        requires
            buf.len() == 512,
        ensures
            r matches Ok(b) ==> has_ebpb_signature(buf@) && ebpb_matches(b, buf@),
            r matches Err(e) ==> e == Error::BadSignature && !has_ebpb_signature(buf@),
            has_ebpb_signature(buf@) ==> r is Ok,
    {
        if read_le16(buf, 510) != 0xAA55 {
            return Err(Error::BadSignature);
        }
        Ok(
            BiosParameterBlock {
                first_three: subvec(buf, 0, 3),
                oem_identifier: subvec(buf, 3, 8),
                bytes_per_sector: read_le16(buf, 11),
                sectors_per_cluster: buf[13],
                number_of_reserved_sectors: read_le16(buf, 14),
                number_of_fats: buf[16],
                max_no_of_director_entries: read_le16(buf, 17),
                total_logical_sectors: read_le16(buf, 19),
                fat_id: buf[21],
                number_of_sectors_per_fat: read_le16(buf, 22),
                number_of_sectors_per_track: read_le16(buf, 24),
                number_of_heads_or_sides: read_le16(buf, 26),
                number_of_hidden_sectors: read_le32(buf, 28),
                total_logical_sectors_: read_le32(buf, 32),
                sectors_per_fat: read_le32(buf, 36),
                flags: read_le16(buf, 40),
                fat_version_number: read_le16(buf, 42),
                cluster_no_of_root_directory: read_le32(buf, 44),
                sector_no_of_fsinfo_structure: read_le16(buf, 48),
                sector_no_of_backup_boot_sector: read_le16(buf, 50),
                reserved: subvec(buf, 52, 12),
                drive_number: buf[64],
                flags_winnt: buf[65],
                signature: buf[66],
                volume_id_serial_no: read_le32(buf, 67),
                volume_label_string: subvec(buf, 71, 11),
                system_identifier_string: subvec(buf, 82, 8),
                boot_code: subvec(buf, 90, 420),
                bootable_partition_signature: read_le16(buf, 510),
            },
        )
    }

    /// Reads and decodes the parameter block from sector `sector` of
    /// `device`.
    ///
    /// Fails with `Io` when the device cannot serve 512 bytes there, and
    /// with `BadSignature` as [`BiosParameterBlock::parse`] does.
    pub fn from<T: BlockDevice>(device: &mut T, sector: u64) -> (r: Result<
        BiosParameterBlock,
        Error,
    >)
        requires
            old(device).wf(),
        ensures
            final(device).wf(),
            final(device).spec_sector_size() == old(device).spec_sector_size(),
            final(device).spec_disk() == old(device).spec_disk(),
            r matches Ok(b) ==> ebpb_readable(*old(device), sector) && {
                let s = spec_sector(*old(device), sector).subrange(0, 512);
                has_ebpb_signature(s) && ebpb_matches(b, s)
            },
            r matches Err(e) ==> ({
                ||| (e == Error::Io && !ebpb_readable(*old(device), sector))
                ||| (ebpb_readable(*old(device), sector) && e == Error::BadSignature
                    && !has_ebpb_signature(spec_sector(*old(device), sector).subrange(0, 512)))
            }),
            (ebpb_readable(*old(device), sector) && has_ebpb_signature(
                spec_sector(*old(device), sector).subrange(0, 512),
            )) ==> r is Ok,
    {
        let mut buf: Vec<u8> = vec![0u8; 512];
        let got = match device.read_sector(sector, &mut buf) {
            Ok(n) => n,
            Err(_) => {
                return Err(Error::Io);
            },
        };
        if got != 512 {
            // The device's sectors are smaller than a full boot sector.
            return Err(Error::Io);
        }
        proof {
            assert(old(device).spec_sector_size() >= 512);
            let ss = old(device).spec_sector_size();
            assert((sector + 1) * ss == sector * ss + ss) by (nonlinear_arith) {}
            assert(buf@ =~= spec_sector(*old(device), sector).subrange(0, 512));
        }
        Self::parse(&buf)
    }
}

} // verus!
