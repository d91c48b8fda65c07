//! Unit tests for the decoders, classifiers and name conversion.

use fat32::cluster::Cluster;
use fat32::ebpb::BiosParameterBlock;
use fat32::error::Error;
use fat32::fat::{FatEntry, Status};
use fat32::dir::{VFatLfnDirEntry, VFatRegularDirEntry, VFatUnknownDirEntry};
use fat32::mbr::MasterBootRecord;
use fat32::metadata::{Attributes, Date, Metadata, Time, Timestamp};
use fat32::names::{take_short_prefix, take_units_prefix, utf16_units_to_utf8, utf8_lossy_clean};

fn le16set(buf: &mut [u8], off: usize, v: u16) {
    buf[off] = (v & 0xFF) as u8;
    buf[off + 1] = (v >> 8) as u8;
}

fn le32set(buf: &mut [u8], off: usize, v: u32) {
    buf[off] = (v & 0xFF) as u8;
    buf[off + 1] = (v >> 8 & 0xFF) as u8;
    buf[off + 2] = (v >> 16 & 0xFF) as u8;
    buf[off + 3] = (v >> 24 & 0xFF) as u8;
}

fn valid_mbr() -> Vec<u8> {
    let mut s = vec![0u8; 512];
    s[510] = 0x55;
    s[511] = 0xAA;
    // Slot 0: a bootable FAT32 partition starting at sector 1.
    s[446] = 0x80;
    s[446 + 4] = 0x0C;
    le32set(&mut s, 446 + 8, 1);
    le32set(&mut s, 446 + 12, 4095);
    s
}

#[test]
fn mbr_roundtrip_signature() {
    let s = valid_mbr();
    let m = MasterBootRecord::parse(&s).unwrap();
    assert_eq!(m.signature, [0x55, 0xAA]);
    assert_eq!(m.partition_table[0].boot_indicator, 0x80);
    assert_eq!(m.partition_table[0].partition_type, 0x0C);
    assert_eq!(m.partition_table[0].relative_sector, 1);
    assert_eq!(m.partition_table[0].total_sectors, 4095);
    assert_eq!(m.bootstrap.len(), 436);
    assert_eq!(m.disk_id.len(), 10);
}

#[test]
fn mbr_bad_signature_rejected() {
    let mut s = valid_mbr();
    s[511] = 0x00;
    assert_eq!(MasterBootRecord::parse(&s).unwrap_err(), Error::BadSignature);
}

#[test]
fn mbr_unknown_boot_indicator() {
    let mut s = valid_mbr();
    s[446 + 32] = 0x7F;
    assert_eq!(
        MasterBootRecord::parse(&s).unwrap_err(),
        Error::UnknownBootIndicator(2)
    );
}

#[test]
fn mbr_first_fat32_partition_picks_first_matching_slot() {
    let mut s = valid_mbr();
    // Slot 1 is FAT32 too; slot 0 must still win.
    s[446 + 16 + 4] = 0x0B;
    let m = MasterBootRecord::parse(&s).unwrap();
    let p = m.first_fat32_partition().unwrap();
    assert_eq!(p.relative_sector, 1);
    let none = MasterBootRecord::parse(&valid_mbr())
        .unwrap()
        .first_partition_of(&[0x07]);
    assert!(none.is_none());
}

fn valid_ebpb() -> Vec<u8> {
    let mut s = vec![0u8; 512];
    le16set(&mut s, 11, 512);
    s[13] = 2;
    le16set(&mut s, 14, 32);
    s[16] = 2;
    le32set(&mut s, 36, 100);
    le32set(&mut s, 44, 2);
    le16set(&mut s, 510, 0xAA55);
    s
}

#[test]
fn ebpb_fields_decode() {
    let b = BiosParameterBlock::parse(&valid_ebpb()).unwrap();
    assert_eq!(b.bytes_per_sector, 512);
    assert_eq!(b.sectors_per_cluster, 2);
    assert_eq!(b.number_of_reserved_sectors, 32);
    assert_eq!(b.number_of_fats, 2);
    assert_eq!(b.sectors_per_fat, 100);
    assert_eq!(b.cluster_no_of_root_directory, 2);
    assert_eq!(b.bootable_partition_signature, 0xAA55);
}

#[test]
fn ebpb_bad_signature_rejected() {
    let mut s = valid_ebpb();
    le16set(&mut s, 510, 0x55AA);
    assert_eq!(BiosParameterBlock::parse(&s).unwrap_err(), Error::BadSignature);
}

#[test]
fn fat_status_classification() {
    assert_eq!(FatEntry(0).status(), Status::Free);
    assert_eq!(FatEntry(1).status(), Status::Reserved);
    assert_eq!(FatEntry(2).status(), Status::Data(Cluster(2)));
    assert_eq!(FatEntry(0x0FFF_FFEF).status(), Status::Data(Cluster(0x0FFF_FFEF)));
    assert_eq!(FatEntry(0x0FFF_FFF0).status(), Status::Reserved);
    assert_eq!(FatEntry(0x0FFF_FFF6).status(), Status::Reserved);
    assert_eq!(FatEntry(0x0FFF_FFF7).status(), Status::Bad);
    assert_eq!(FatEntry(0x0FFF_FFF8).status(), Status::Eoc(0x0FFF_FFF8));
    assert_eq!(FatEntry(0x0FFF_FFFF).status(), Status::Eoc(0x0FFF_FFFF));
}

#[test]
fn fat_status_masks_reserved_high_bits() {
    // The high 4 bits are not semantic and must be ignored.
    assert_eq!(FatEntry(0xF000_0005).status(), Status::Data(Cluster(5)));
    assert_eq!(FatEntry(0xFFFF_FFFF).status(), Status::Eoc(0x0FFF_FFFF));
    assert_eq!(FatEntry(0xAFFF_FFF7).status(), Status::Bad);
}

#[test]
fn attributes_bits() {
    let a = Attributes::from(0x10 | 0x01);
    assert!(a.read_only());
    assert!(a.directory());
    assert!(!a.hidden());
    assert!(!a.system());
    assert!(!a.volume_id());
    assert!(!a.archive());
    assert!(!a.lfn());
    assert!(Attributes::from(0x0F).lfn());
    // The long-filename test is exact: extra bits disqualify the byte.
    assert!(!Attributes::from(0x1F).lfn());
    assert!(!Attributes::from(0x2F).lfn());
}

#[test]
fn timestamp_fields() {
    // 2009-07-04, 13:30:42.
    let date = Date::from(((2009 - 1980) << 9 | 7 << 5 | 4) as u16);
    let time = Time::from((13 << 11 | 30 << 5 | 21) as u16);
    let ts = Timestamp::from(date, time);
    assert_eq!(ts.year(), 2009);
    assert_eq!(ts.month(), 7);
    assert_eq!(ts.day(), 4);
    assert_eq!(ts.hour(), 13);
    assert_eq!(ts.minute(), 30);
    assert_eq!(ts.second(), 42);
}

#[test]
fn metadata_accessors() {
    let ts = Timestamp::from(Date::from(33), Time::from(7));
    let m = Metadata {
        attributes: Attributes::from(0x01),
        created_time: ts,
        accessed_time: Timestamp::from(Date::from(33), Time::from(0)),
        modified_time: ts,
    };
    assert!(m.read_only());
    assert!(!m.hidden());
    assert_eq!(m.created(), ts);
    assert_eq!(m.accessed().time, Time::from(0));
    assert_eq!(m.modified(), ts);
}

#[test]
fn utf16_conversion_plain_and_surrogates() {
    // "Ab" then U+00E9 then U+1F600 as a surrogate pair.
    let units: Vec<u16> = vec![0x41, 0x62, 0x00E9, 0xD83D, 0xDE00];
    let out = utf16_units_to_utf8(&units);
    assert_eq!(out, "Abé😀".as_bytes().to_vec());
}

#[test]
fn utf16_unpaired_surrogate_becomes_replacement() {
    let units: Vec<u16> = vec![0x41, 0xD800, 0x42];
    let out = utf16_units_to_utf8(&units);
    assert_eq!(out, "A\u{FFFD}B".as_bytes().to_vec());
}

#[test]
fn utf8_lossy_keeps_valid_and_replaces_invalid() {
    let ok: Vec<u8> = "héllo".as_bytes().to_vec();
    assert_eq!(utf8_lossy_clean(&ok), ok);
    let bad: Vec<u8> = vec![0x41, 0xFF, 0x42];
    assert_eq!(utf8_lossy_clean(&bad), "A\u{FFFD}B".as_bytes().to_vec());
}

#[test]
fn name_prefixes_stop_at_padding() {
    let name: Vec<u8> = vec![0x52, 0x45, 0x41, 0x44, 0x4D, 0x45, 0x20, 0x20];
    assert_eq!(take_short_prefix(&name), b"README".to_vec());
    let units: Vec<u16> = vec![0x41, 0x42, 0x0000, 0x43];
    assert_eq!(take_units_prefix(&units), vec![0x41, 0x42]);
    let units2: Vec<u16> = vec![0x41, 0xFFFF, 0x43];
    assert_eq!(take_units_prefix(&units2), vec![0x41]);
}

#[test]
fn regular_record_parses_field_for_field() {
    let mut r = vec![0u8; 32];
    r[..8].copy_from_slice(b"README  ");
    r[8..11].copy_from_slice(b"TXT");
    r[11] = 0x21;
    r[12] = 7;
    r[13] = 99;
    le16set(&mut r, 14, 0x1234);
    le16set(&mut r, 16, 0x2345);
    le16set(&mut r, 18, 0x3456);
    le16set(&mut r, 20, 0x0001);
    le16set(&mut r, 22, 0x4567);
    le16set(&mut r, 24, 0x5678);
    le16set(&mut r, 26, 0x8000);
    le32set(&mut r, 28, 123456);
    let e = VFatRegularDirEntry::parse(&r);
    assert_eq!(e.name, b"README  ".to_vec());
    assert_eq!(e.extension, b"TXT".to_vec());
    assert_eq!(e.attributes, Attributes::from(0x21));
    assert_eq!(e.nt_reserved, 7);
    assert_eq!(e.creation_time_tenths, 99);
    assert_eq!(e.ctime, Time::from(0x1234));
    assert_eq!(e.cdate, Date::from(0x2345));
    assert_eq!(e.adate, Date::from(0x3456));
    assert_eq!(e.first_cluster_higher_bits, 0x0001);
    assert_eq!(e.mtime, Time::from(0x4567));
    assert_eq!(e.mdate, Date::from(0x5678));
    assert_eq!(e.first_cluster_lower_bits, 0x8000);
    assert_eq!(e.size, 123456);
    assert_eq!(e.first_cluster(), 0x0001_8000);
}

#[test]
fn lfn_record_parses_units_in_order() {
    let mut r = vec![0u8; 32];
    r[0] = 0x43;
    r[11] = 0x0F;
    r[12] = 0;
    r[13] = 0xAB;
    let offs = [1usize, 3, 5, 7, 9, 14, 16, 18, 20, 22, 24, 28, 30];
    for (i, o) in offs.iter().enumerate() {
        le16set(&mut r, *o, 0x0100 + i as u16);
    }
    let e = VFatLfnDirEntry::parse(&r);
    assert_eq!(e.seq_num, 0x43);
    assert_eq!(e.attributes, Attributes::from(0x0F));
    assert_eq!(e.checksum, 0xAB);
    let units = e.name_units();
    let expect: Vec<u16> = (0..13).map(|i| 0x0100 + i as u16).collect();
    assert_eq!(units, expect);
    assert_eq!(e.name_characters_1.len(), 5);
    assert_eq!(e.name_characters_2.len(), 6);
    assert_eq!(e.name_characters_3.len(), 2);
}

#[test]
fn unknown_record_classifies() {
    let mut r = vec![0u8; 32];
    r[0] = 0xE5;
    r[11] = 0x10;
    let e = VFatUnknownDirEntry::parse(&r);
    assert_eq!(e.seq_num, 0xE5);
    assert_eq!(e.attributes, Attributes::from(0x10));
}
