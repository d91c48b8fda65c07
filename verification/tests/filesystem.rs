//! End-to-end tests over small in-memory FAT32 images.

use fat32::cache::{CachedDevice, Partition};
use fat32::cluster::Cluster;
use fat32::device::{BlockDevice, VecBlockDevice};
use fat32::entry::Entry;
use fat32::error::Error;
use fat32::file::SeekFrom;
use fat32::vfat::VFat;

// Image geometry: 512-byte sectors, 1 sector per cluster, partition at
// sector 1, 1 reserved sector, 1 FAT of 1 sector.  So the FAT is sector
// 2, data starts at sector 3, and cluster c lives in sector 3 + (c - 2).
const BPS: usize = 512;
const EOC: u32 = 0x0FFF_FFF8;
const BAD: u32 = 0x0FFF_FFF7;

fn le16set(buf: &mut [u8], off: usize, v: u16) {
    buf[off] = (v & 0xFF) as u8;
    buf[off + 1] = (v >> 8) as u8;
}

fn le32set(buf: &mut [u8], off: usize, v: u32) {
    buf[off] = (v & 0xFF) as u8;
    buf[off + 1] = (v >> 8 & 0xFF) as u8;
    buf[off + 2] = (v >> 16 & 0xFF) as u8;
    buf[off + 3] = (v >> 24 & 0xFF) as u8;
}

fn new_image(nsectors: usize) -> Vec<u8> {
    let mut img = vec![0u8; nsectors * BPS];
    // MBR: one FAT32 partition at sector 1.
    img[446] = 0x00;
    img[446 + 4] = 0x0C;
    le32set(&mut img, 446 + 8, 1);
    le32set(&mut img, 446 + 12, (nsectors - 1) as u32);
    img[510] = 0x55;
    img[511] = 0xAA;
    // EBPB at sector 1.
    let e = BPS;
    le16set(&mut img, e + 11, BPS as u16);
    img[e + 13] = 1; // sectors per cluster
    le16set(&mut img, e + 14, 1); // reserved sectors
    img[e + 16] = 1; // number of FATs
    le32set(&mut img, e + 36, 1); // sectors per FAT
    le32set(&mut img, e + 44, 2); // root directory cluster
    img[e + 510] = 0x55;
    img[e + 511] = 0xAA;
    img
}

fn set_fat(img: &mut [u8], cluster: u32, value: u32) {
    le32set(img, 2 * BPS + 4 * cluster as usize, value);
}

fn cluster_off(cluster: u32) -> usize {
    (3 + cluster as usize - 2) * BPS
}

fn short_record(name: &[u8], ext: &[u8], attr: u8, cluster: u32, size: u32) -> [u8; 32] {
    let mut r = [0u8; 32];
    for i in 0..8 {
        r[i] = if i < name.len() { name[i] } else { 0x20 };
    }
    for i in 0..3 {
        r[8 + i] = if i < ext.len() { ext[i] } else { 0x20 };
    }
    r[11] = attr;
    le16set(&mut r, 20, (cluster >> 16) as u16);
    le16set(&mut r, 26, (cluster & 0xFFFF) as u16);
    le32set(&mut r, 28, size);
    r
}

fn lfn_record(seq: u8, units: &[u16; 13]) -> [u8; 32] {
    let mut r = [0u8; 32];
    r[0] = seq;
    r[11] = 0x0F;
    let offs = [1, 3, 5, 7, 9, 14, 16, 18, 20, 22, 24, 28, 30];
    for i in 0..13 {
        le16set(&mut r, offs[i], units[i]);
    }
    r
}

fn put_record(img: &mut [u8], cluster: u32, index: usize, record: &[u8; 32]) {
    let off = cluster_off(cluster) + 32 * index;
    img[off..off + 32].copy_from_slice(record);
}

/// An image whose root holds README.TXT ("hello world"), a directory
/// `DOCS` with NOTES.MD (4096 patterned bytes over clusters 5..=12), and
/// a long-named file.
fn sample_image() -> Vec<u8> {
    let mut img = new_image(64);
    set_fat(&mut img, 2, EOC); // root directory
    set_fat(&mut img, 3, EOC); // README.TXT
    set_fat(&mut img, 4, EOC); // DOCS
    for c in 5..12 {
        set_fat(&mut img, c, c + 1); // NOTES.MD chain
    }
    set_fat(&mut img, 12, EOC);

    put_record(&mut img, 2, 0, &short_record(b"README", b"TXT", 0x20, 3, 11));
    put_record(&mut img, 2, 1, &short_record(b"DOCS", b"", 0x10, 4, 0));
    // "Résumé-2024.pdf" spans two long-filename records; the last logical
    // record (bit 6 set) comes first on disk.
    let units: Vec<u16> = "Résumé-2024.pdf".encode_utf16().collect();
    assert_eq!(units.len(), 15);
    let mut u1 = [0u16; 13];
    u1.copy_from_slice(&units[0..13]);
    let mut u2 = [0xFFFFu16; 13];
    u2[0] = units[13];
    u2[1] = units[14];
    u2[2] = 0x0000;
    put_record(&mut img, 2, 2, &lfn_record(0x42, &u2));
    put_record(&mut img, 2, 3, &lfn_record(0x01, &u1));
    put_record(&mut img, 2, 4, &short_record(b"RSUM~1", b"PDF", 0x20, 3, 11));

    img[cluster_off(3)..cluster_off(3) + 11].copy_from_slice(b"hello world");

    put_record(&mut img, 4, 0, &short_record(b"NOTES", b"MD", 0x20, 5, 4096));
    for i in 0..4096usize {
        img[cluster_off(5) + i] = (i % 251) as u8;
    }
    img
}

fn mount(img: Vec<u8>) -> VFat<VecBlockDevice> {
    VFat::from(VecBlockDevice::new(img, BPS as u64)).unwrap()
}

fn read_to_end(fs: &mut VFat<VecBlockDevice>, f: &mut fat32::entry::File) -> Vec<u8> {
    let mut out = Vec::new();
    let mut buf = vec![0u8; 37]; // odd size, to cross cluster boundaries
    loop {
        let n = f.read(fs, &mut buf).unwrap();
        if n == 0 {
            break;
        }
        out.extend_from_slice(&buf[..n]);
    }
    out
}

#[test]
fn open_and_read_small_file() {
    let mut fs = mount(sample_image());
    let entry = fs.open("/README.TXT").unwrap();
    assert!(entry.is_file());
    assert_eq!(entry.name(), &b"README.TXT".to_vec());
    match entry {
        Entry::File(mut f) => {
            assert_eq!(f.size(), 11);
            assert_eq!(read_to_end(&mut fs, &mut f), b"hello world".to_vec());
        }
        Entry::Dir(_) => panic!("expected a file"),
    }
}

#[test]
fn open_is_case_insensitive() {
    let mut fs = mount(sample_image());
    let lower = fs.open("/readme.txt").unwrap();
    let upper = fs.open("/README.TXT").unwrap();
    assert_eq!(lower.name(), upper.name());
    assert!(lower.is_file() && upper.is_file());
}

#[test]
fn open_nested_file_size() {
    let mut fs = mount(sample_image());
    let entry = fs.open("/docs/notes.md").unwrap();
    match entry {
        Entry::File(f) => assert_eq!(f.size(), 4096),
        Entry::Dir(_) => panic!("expected a file"),
    }
}

#[test]
fn open_root_and_directory() {
    let mut fs = mount(sample_image());
    let root = fs.open("/").unwrap();
    assert!(root.is_dir());
    assert_eq!(root.name(), &Vec::<u8>::new());
    let docs = fs.open("/DOCS").unwrap();
    assert!(docs.is_dir());
    assert_eq!(docs.name(), &b"DOCS".to_vec());
}

#[test]
fn seek_then_read_serves_the_right_window() {
    let mut fs = mount(sample_image());
    match fs.open("/DOCS/NOTES.MD").unwrap() {
        Entry::File(mut f) => {
            assert_eq!(f.seek(SeekFrom::Start(512)).unwrap(), 512);
            let mut buf = vec![0u8; 100];
            let n = f.read(&mut fs, &mut buf).unwrap();
            assert_eq!(n, 100);
            let expect: Vec<u8> = (512..612usize).map(|i| (i % 251) as u8).collect();
            assert_eq!(buf, expect);
            assert_eq!(f.seek(SeekFrom::Current(0)).unwrap(), 612);
        }
        Entry::Dir(_) => panic!("expected a file"),
    }
}

#[test]
fn reads_after_seek_return_exactly_the_tail() {
    let mut fs = mount(sample_image());
    for o in [0usize, 1, 511, 512, 513, 4000, 4096] {
        match fs.open("/DOCS/NOTES.MD").unwrap() {
            Entry::File(mut f) => {
                f.seek(SeekFrom::Start(o as u64)).unwrap();
                let got = read_to_end(&mut fs, &mut f);
                let expect: Vec<u8> = (o..4096usize).map(|i| (i % 251) as u8).collect();
                assert_eq!(got, expect);
            }
            Entry::Dir(_) => panic!("expected a file"),
        }
    }
}

#[test]
fn seek_bounds() {
    let mut fs = mount(sample_image());
    match fs.open("/README.TXT").unwrap() {
        Entry::File(mut f) => {
            assert_eq!(f.seek(SeekFrom::End(0)).unwrap(), 11);
            let mut buf = vec![0u8; 4];
            assert_eq!(f.read(&mut fs, &mut buf).unwrap(), 0);
            assert_eq!(f.seek(SeekFrom::Start(12)).unwrap_err(), Error::InvalidInput);
            assert_eq!(f.seek(SeekFrom::End(-12)).unwrap_err(), Error::InvalidInput);
            assert_eq!(f.seek(SeekFrom::End(-11)).unwrap(), 0);
            assert_eq!(f.seek(SeekFrom::Current(-1)).unwrap_err(), Error::InvalidInput);
        }
        Entry::Dir(_) => panic!("expected a file"),
    }
}

#[test]
fn long_filename_assembles_and_matches_case_insensitively() {
    let mut fs = mount(sample_image());
    let got = fs.open("/Résumé-2024.pdf").unwrap();
    assert_eq!(got.name(), &"Résumé-2024.pdf".as_bytes().to_vec());
    // ASCII case differences fold; the accented characters compare
    // byte-exactly, so only the ASCII letters may change case here.
    let again = fs.open("/résumé-2024.PDF").unwrap();
    assert_eq!(again.name(), got.name());
}

#[test]
fn listing_skips_deleted_and_stops_at_terminator() {
    let mut img = sample_image();
    // Mark DOCS deleted, and plant a record after the terminator that a
    // walk past the end would wrongly pick up.
    img[cluster_off(2) + 32] = 0xE5;
    put_record(&mut img, 2, 7, &short_record(b"GHOST", b"BIN", 0x20, 3, 1));
    let mut fs = mount(img);
    let root = match fs.open("/").unwrap() {
        Entry::Dir(d) => d,
        Entry::File(_) => panic!("expected a directory"),
    };
    let mut it = root.entries(&mut fs).unwrap();
    let mut names: Vec<Vec<u8>> = Vec::new();
    while let Some(e) = it.next() {
        names.push(e.name().clone());
    }
    assert_eq!(
        names,
        vec![
            b"README.TXT".to_vec(),
            "Résumé-2024.pdf".as_bytes().to_vec(),
        ]
    );
}

#[test]
fn scratchpad_clears_after_each_regular_entry() {
    let mut img = sample_image();
    // A short-named file right after the long-named one must not inherit
    // its scratchpad.
    put_record(&mut img, 2, 5, &short_record(b"PLAIN", b"TXT", 0x20, 3, 2));
    let mut fs = mount(img);
    let e = fs.open("/PLAIN.TXT").unwrap();
    assert_eq!(e.name(), &b"PLAIN.TXT".to_vec());
}

#[test]
fn bad_cluster_in_chain_fails_invalid_data() {
    let mut img = sample_image();
    set_fat(&mut img, 10, 11);
    set_fat(&mut img, 11, BAD);
    let mut fs = mount(img);
    let mut buf = Vec::new();
    assert_eq!(fs.read_chain(Cluster(10), &mut buf).unwrap_err(), Error::InvalidData);
}

#[test]
fn free_cluster_in_chain_fails_invalid_data() {
    let mut img = sample_image();
    set_fat(&mut img, 20, 21);
    // FAT[21] stays zero: Free.
    let mut fs = mount(img);
    let mut buf = Vec::new();
    assert_eq!(fs.read_chain(Cluster(20), &mut buf).unwrap_err(), Error::InvalidData);
}

#[test]
fn read_chain_returns_whole_clusters() {
    let mut fs = mount(sample_image());
    let mut buf = Vec::new();
    let n = fs.read_chain(Cluster(3), &mut buf).unwrap();
    assert_eq!(n, BPS);
    assert_eq!(&buf[..11], b"hello world");
    let n2 = fs.read_chain(Cluster(5), &mut buf).unwrap();
    assert_eq!(n2, 8 * BPS);
}

#[test]
fn fat_entry_out_of_table_not_found() {
    let mut fs = mount(sample_image());
    // One FAT sector holds 128 entries; cluster 128 lies beyond it.
    assert_eq!(fs.fat_entry(Cluster(128)).unwrap_err(), Error::NotFound);
    assert!(fs.fat_entry(Cluster(127)).is_ok());
}

#[test]
fn relative_and_malformed_paths_rejected() {
    let mut fs = mount(sample_image());
    assert_eq!(fs.open("relative/path").unwrap_err(), Error::InvalidInput);
    assert_eq!(fs.open("").unwrap_err(), Error::InvalidInput);
    assert_eq!(fs.open("/../DOCS").unwrap_err(), Error::InvalidInput);
    assert_eq!(fs.open("/README.TXT/more").unwrap_err(), Error::InvalidInput);
    assert_eq!(fs.open("/MISSING").unwrap_err(), Error::NotFound);
    // Lone dots and doubled slashes normalize away.
    assert!(fs.open("//DOCS/./NOTES.MD").unwrap().is_file());
}

#[test]
fn open_twice_yields_the_same_entry() {
    let mut fs = mount(sample_image());
    let a = fs.open("/DOCS/NOTES.MD").unwrap();
    let b = fs.open("/DOCS/NOTES.MD").unwrap();
    assert_eq!(a.name(), b.name());
    assert_eq!(a.is_file(), b.is_file());
    match (a, b) {
        (Entry::File(x), Entry::File(y)) => {
            assert_eq!(x.size, y.size);
            assert_eq!(x.first_cluster, y.first_cluster);
            assert_eq!(x.offset, y.offset);
        }
        _ => panic!("expected files"),
    }
}

#[test]
fn mount_rejects_bad_signatures() {
    let mut img = sample_image();
    img[BPS + 510] = 0; // EBPB signature
    match VFat::from(VecBlockDevice::new(img, BPS as u64)) {
        Err(Error::BadSignature) => (),
        _ => panic!("expected BadSignature"),
    }
    let mut img2 = sample_image();
    img2[510] = 0; // MBR signature
    match VFat::from(VecBlockDevice::new(img2, BPS as u64)) {
        Err(Error::BadSignature) => (),
        _ => panic!("expected BadSignature"),
    }
}

#[test]
fn mount_without_fat32_partition_not_found() {
    let mut img = sample_image();
    img[446 + 4] = 0x07;
    match VFat::from(VecBlockDevice::new(img, BPS as u64)) {
        Err(Error::NotFound) => (),
        _ => panic!("expected NotFound"),
    }
}

#[test]
fn device_read_out_of_range_is_io() {
    let mut dev = VecBlockDevice::new(vec![7u8; 1024], 512);
    let mut buf = vec![0u8; 512];
    assert_eq!(dev.read_sector(1, &mut buf).unwrap(), 512);
    assert_eq!(buf[0], 7);
    assert_eq!(dev.read_sector(2, &mut buf).unwrap_err(), Error::Io);
}

#[test]
fn cache_concatenates_physical_sectors() {
    // Logical sectors of 1024 bytes over a device of 512-byte sectors.
    let mut data = vec![0u8; 4 * 512];
    for (i, b) in data.iter_mut().enumerate() {
        *b = (i / 512) as u8 + 1;
    }
    let dev = VecBlockDevice::new(data, 512);
    let mut cached = CachedDevice::new(dev, Partition { start: 2, sector_size: 1024 });
    // Virtual sector 2 spans physical sectors 2 and 3.
    let s = cached.get(2).unwrap();
    assert_eq!(s.len(), 1024);
    assert!(s[..512].iter().all(|&b| b == 3));
    assert!(s[512..].iter().all(|&b| b == 4));
    // A sector before the partition is one physical sector, zero-padded.
    let p = cached.get(0).unwrap();
    assert_eq!(p.len(), 1024);
    assert!(p[..512].iter().all(|&b| b == 1));
    assert!(p[512..].iter().all(|&b| b == 0));
}

#[test]
fn cache_write_sector_is_visible_and_not_written_back() {
    let data = vec![9u8; 4 * 512];
    let dev = VecBlockDevice::new(data, 512);
    let mut cached = CachedDevice::new(dev, Partition { start: 0, sector_size: 512 });
    let newsec = vec![5u8; 512];
    assert_eq!(cached.write_sector(1, &newsec).unwrap(), 512);
    let mut buf = vec![0u8; 512];
    assert_eq!(cached.read_sector(1, &mut buf).unwrap(), 512);
    assert!(buf.iter().all(|&b| b == 5));
    // Wrong-size buffers are refused.
    assert_eq!(cached.write_sector(1, &vec![0u8; 100]).unwrap_err(), Error::Io);
    // Other sectors are untouched.
    assert_eq!(cached.read_sector(0, &mut buf).unwrap(), 512);
    assert!(buf.iter().all(|&b| b == 9));
}

#[test]
fn get_mut_returns_the_sector_too() {
    let data = vec![1u8; 1024];
    let dev = VecBlockDevice::new(data, 512);
    let mut cached = CachedDevice::new(dev, Partition { start: 0, sector_size: 512 });
    let s = cached.get_mut(1).unwrap();
    assert!(s.iter().all(|&b| b == 1));
}

#[test]
fn write_side_operations_always_fail() {
    let fs = mount(sample_image());
    assert!(fs.create_file("/new.txt").is_err());
    assert!(fs.create_dir("/newdir", false).is_err());
    assert!(fs.rename("/a", "/b").is_err());
    assert!(fs.remove("/a", false).is_err());
}

#[test]
fn mount_rejects_unusable_geometry() {
    let mut img = sample_image();
    img[BPS + 13] = 0; // zero sectors per cluster
    match VFat::from(VecBlockDevice::new(img, BPS as u64)) {
        Err(Error::InvalidData) => (),
        _ => panic!("expected InvalidData"),
    }
}

#[test]
fn entry_metadata_decodes_timestamps() {
    let mut img = sample_image();
    // README.TXT: created 2021-03-09 11:22:44, accessed 2021-03-10,
    // modified 2022-12-31 23:59:58.
    let off = cluster_off(2);
    le16set(&mut img[off..off + 32].as_mut(), 14, 11 << 11 | 22 << 5 | 22);
    le16set(&mut img[off..off + 32].as_mut(), 16, (2021 - 1980) << 9 | 3 << 5 | 9);
    le16set(&mut img[off..off + 32].as_mut(), 18, (2021 - 1980) << 9 | 3 << 5 | 10);
    le16set(&mut img[off..off + 32].as_mut(), 22, 23 << 11 | 59 << 5 | 29);
    le16set(&mut img[off..off + 32].as_mut(), 24, (2022 - 1980) << 9 | 12 << 5 | 31);
    let mut fs = mount(img);
    let e = fs.open("/README.TXT").unwrap();
    let md = e.metadata();
    assert_eq!(md.created().year(), 2021);
    assert_eq!(md.created().month(), 3);
    assert_eq!(md.created().day(), 9);
    assert_eq!(md.created().hour(), 11);
    assert_eq!(md.created().minute(), 22);
    assert_eq!(md.created().second(), 44);
    assert_eq!(md.accessed().day(), 10);
    assert_eq!(md.accessed().hour(), 0);
    assert_eq!(md.modified().year(), 2022);
    assert_eq!(md.modified().second(), 58);
    assert!(!md.read_only());
    assert!(!md.hidden());
}

/// An image whose logical sectors are 1024 bytes over 512-byte physical
/// sectors, so every logical read coalesces two physical ones.
fn wide_sector_image() -> Vec<u8> {
    let nphys = 16;
    let mut img = vec![0u8; nphys * 512];
    img[446 + 4] = 0x0B;
    le32set(&mut img, 446 + 8, 1);
    le32set(&mut img, 446 + 12, (nphys - 1) as u32);
    img[510] = 0x55;
    img[511] = 0xAA;
    // EBPB in physical sector 1: 1024-byte logical sectors.
    let e = 512;
    le16set(&mut img, e + 11, 1024);
    img[e + 13] = 1;
    le16set(&mut img, e + 14, 1);
    img[e + 16] = 1;
    le32set(&mut img, e + 36, 1);
    le32set(&mut img, e + 44, 2);
    img[e + 510] = 0x55;
    img[e + 511] = 0xAA;
    // Logical sector v maps to physical 1 + (v - 1) * 2.  The FAT is
    // logical sector 2 (physical 3 and 4); data starts at logical 3, so
    // cluster c is logical 3 + (c - 2), physical 5 + (c - 2) * 2.
    let fat = 3 * 512;
    le32set(&mut img, fat + 4 * 2, EOC);
    le32set(&mut img, fat + 4 * 3, EOC);
    let root = 5 * 512;
    let rec = short_record(b"CFG", b"TXT", 0x20, 3, 3);
    img[root..root + 32].copy_from_slice(&rec);
    let data = 7 * 512;
    img[data..data + 3].copy_from_slice(b"abc");
    img
}

#[test]
fn logical_sectors_coalesce_physical_ones() {
    let mut fs = VFat::from(VecBlockDevice::new(wide_sector_image(), 512)).unwrap();
    match fs.open("/cfg.txt").unwrap() {
        Entry::File(mut f) => {
            assert_eq!(f.size(), 3);
            assert_eq!(read_to_end(&mut fs, &mut f), b"abc".to_vec());
        }
        Entry::Dir(_) => panic!("expected a file"),
    }
}

#[test]
fn entry_iterator_walks_front_to_back() {
    let mut fs = mount(sample_image());
    let root = match fs.open("/").unwrap() {
        Entry::Dir(d) => d,
        Entry::File(_) => panic!("expected a directory"),
    };
    let mut it = root.entries(&mut fs).unwrap();
    assert_eq!(it.next().unwrap().name(), &b"README.TXT".to_vec());
    assert_eq!(it.next().unwrap().name(), &b"DOCS".to_vec());
    assert_eq!(
        it.next().unwrap().name(),
        &"Résumé-2024.pdf".as_bytes().to_vec()
    );
    assert!(it.next().is_none());
    assert!(it.next().is_none());
}

#[test]
fn load_is_clean_mutation_marks_dirty() {
    let data = vec![3u8; 4 * 512];
    let dev = VecBlockDevice::new(data, 512);
    let mut cached = CachedDevice::new(dev, Partition { start: 0, sector_size: 512 });
    // A sector loaded by a plain read enters the cache clean.
    cached.get(1).unwrap();
    assert!(!cached.cache.get(&1).unwrap().dirty);
    cached.read_sector(1, &mut vec![0u8; 16]).unwrap();
    assert!(!cached.cache.get(&1).unwrap().dirty);
    // Handing the sector out for mutation marks it dirty.
    cached.get_mut(1).unwrap();
    assert!(cached.cache.get(&1).unwrap().dirty);
    // Overwriting another sector marks that one dirty too.
    cached.write_sector(2, &vec![8u8; 512]).unwrap();
    assert!(cached.cache.get(&2).unwrap().dirty);
    assert!(!cached.cache.get(&0).is_some());
}

#[test]
fn read_cluster_error_kinds_and_untouched_buffer() {
    let mut img = sample_image();
    set_fat(&mut img, 13, BAD);
    let mut fs = mount(img);
    let mut buf = vec![0xAAu8; 16];
    // A FAT index beyond the table.
    assert_eq!(fs.read_cluster(Cluster(200), 0, &mut buf).unwrap_err(), Error::NotFound);
    assert!(buf.iter().all(|&b| b == 0xAA));
    // A bad cluster fails fast.
    assert_eq!(fs.read_cluster(Cluster(13), 0, &mut buf).unwrap_err(), Error::InvalidData);
    assert!(buf.iter().all(|&b| b == 0xAA));
    // Cluster numbers below 2 never name data.
    assert_eq!(fs.read_cluster(Cluster(0), 0, &mut buf).unwrap_err(), Error::InvalidInput);
    assert_eq!(fs.read_cluster(Cluster(1), 0, &mut buf).unwrap_err(), Error::InvalidInput);
    assert!(buf.iter().all(|&b| b == 0xAA));
}

#[test]
fn failed_chain_read_keeps_the_prefix() {
    let mut img = sample_image();
    set_fat(&mut img, 10, 11);
    set_fat(&mut img, 11, BAD);
    img[cluster_off(10)..cluster_off(10) + 3].copy_from_slice(b"xyz");
    let mut fs = mount(img);
    let mut buf = Vec::new();
    assert_eq!(fs.read_chain(Cluster(10), &mut buf).unwrap_err(), Error::InvalidData);
    // Cluster 10 was read before the walk hit the bad entry.
    assert_eq!(buf.len(), BPS);
    assert_eq!(&buf[..3], b"xyz");
}
