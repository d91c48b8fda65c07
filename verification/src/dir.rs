//! Directory decoding: 32-byte records, long-filename assembly, listing
//! and case-insensitive lookup.

use vstd::prelude::*;

use crate::byteops::{fold_bytes, le16, le32, read_le16, read_le32, subvec};
use crate::cluster::Cluster;
use crate::device::BlockDevice;
use crate::entry::{Dir, DirV, Entry, EntryV, File};
use crate::error::Error;
use crate::metadata::{root_metadata, spec_root_metadata, Attributes, Date, Metadata, Time,
    Timestamp};
use vstd::string::StringSliceAdditionalSpecFns;
use crate::names::{
    short_prefix, take_short_prefix, take_units_prefix, units_prefix, utf16_to_utf8,
    utf16_units_to_utf8, utf8_lossy, utf8_lossy_clean,
};
use crate::vfat::VFat;

verus! {

/// A decoded regular (short-name) directory record.
#[derive(Clone, Debug, PartialEq, Eq)]
pub struct VFatRegularDirEntry {
    /// The 8 raw name bytes, padded with 0x20, terminated early by 0x00.
    pub name: Vec<u8>,
    /// The 3 raw extension bytes, same padding and termination.
    pub extension: Vec<u8>,
    pub attributes: Attributes,
    /// Reserved for Windows NT.
    pub nt_reserved: u8,
    /// Creation time in tenths of a second.
    pub creation_time_tenths: u8,
    pub ctime: Time,
    pub cdate: Date,
    pub adate: Date,
    pub first_cluster_higher_bits: u16,
    pub mtime: Time,
    pub mdate: Date,
    pub first_cluster_lower_bits: u16,
    /// The file size in bytes.
    pub size: u32,
}

/// A decoded long-filename directory record.
#[derive(Clone, Debug, PartialEq, Eq)]
pub struct VFatLfnDirEntry {
    /// Bits 0..5 the sequence position (1-based); bit 6 marks the last
    /// logical record of the name.
    pub seq_num: u8,
    /// The first five UTF-16 code units.
    pub name_characters_1: Vec<u16>,
    /// Always 0x0F.
    pub attributes: Attributes,
    pub entry_type: u8,
    /// Checksum of the paired short name.
    pub checksum: u8,
    /// The next six UTF-16 code units.
    pub name_characters_2: Vec<u16>,
    /// The last two UTF-16 code units.
    pub name_characters_3: Vec<u16>,
}

/// The fields shared by every record interpretation: enough to classify
/// it.
#[derive(Clone, Copy, Debug, PartialEq, Eq, Structural)]
pub struct VFatUnknownDirEntry {
    /// The record's first byte: 0x00 ends the directory, 0xE5 marks a
    /// deleted slot.
    pub seq_num: u8,
    pub attributes: Attributes,
}

/// The 32 bytes of record `j` of a directory's raw contents.
pub open spec fn record_at(bytes: Seq<u8>, j: int) -> Seq<u8> {
    bytes.subrange(32 * j, 32 * j + 32)
}

/// The 13 UTF-16 code units a long-filename record carries, in order:
/// five, six and two units from its three disjoint ranges.
pub open spec fn lfn_units_of(r: Seq<u8>) -> Seq<u16> {
    Seq::new(
        13,
        |i: int|
            if i < 5 {
                le16(r, 1 + 2 * i) as u16
            } else if i < 11 {
                le16(r, 14 + 2 * (i - 5)) as u16
            } else {
                le16(r, 28 + 2 * (i - 11)) as u16
            },
    )
}

/// The scratchpad of 0x1F long-filename slots of 13 code units each,
/// zero-filled.
pub open spec fn empty_lfn() -> Seq<u16> {
    Seq::new(403, |i: int| 0u16)
}

/// The scratchpad after writing `units` into slot `s5` (1-based); an
/// absent scratchpad starts zero-filled.
pub open spec fn lfn_insert(lfn: Option<Seq<u16>>, s5: int, units: Seq<u16>) -> Seq<u16> {
    let cur = match lfn {
        Some(l) => l,
        None => empty_lfn(),
    };
    Seq::new(
        403,
        |i: int|
            if (s5 - 1) * 13 <= i < (s5 - 1) * 13 + 13 {
                units[i - (s5 - 1) * 13]
            } else {
                cur[i]
            },
    )
}

/// The decoded name of a regular record: the assembled long filename when
/// a scratchpad is pending, the 8.3 short name otherwise.
pub open spec fn spec_regular_name(r: Seq<u8>, lfn: Option<Seq<u16>>) -> Seq<u8> {
    match lfn {
        Some(l) => utf16_to_utf8(units_prefix(l)),
        None => {
            let base = utf8_lossy(short_prefix(r.subrange(0, 8)));
            let ext = short_prefix(r.subrange(8, 11));
            if ext.len() > 0 {
                base + seq![0x2Eu8] + utf8_lossy(ext)
            } else {
                base
            }
        },
    }
}

/// The entry a regular record denotes, given the pending scratchpad.
pub open spec fn spec_regular_entry(r: Seq<u8>, lfn: Option<Seq<u16>>) -> EntryV {
    let md = Metadata {
        attributes: Attributes(r[11]),
        created_time: Timestamp { date: Date(le16(r, 16) as u16), time: Time(le16(r, 14) as u16) },
        accessed_time: Timestamp { date: Date(le16(r, 18) as u16), time: Time(0) },
        modified_time: Timestamp { date: Date(le16(r, 24) as u16), time: Time(le16(r, 22) as u16) },
    };
    let cluster = (le16(r, 20) * 0x10000 + le16(r, 26)) as u32;
    let name = spec_regular_name(r, lfn);
    if r[11] & 0x10 == 0x10 {
        EntryV::Dir(DirV { name, metadata: md, first_cluster: cluster })
    } else {
        EntryV::File(
            crate::entry::FileV {
                name,
                metadata: md,
                size: le32(r, 28) as u32,
                first_cluster: cluster,
                offset: 0,
            },
        )
    }
}

/// The entries denoted by the records of `bytes` from record `j` on, with
/// scratchpad `lfn` pending; `None` when a long-filename record carries a
/// zero sequence position, which the format forbids.
///
/// Iteration ends at the first record whose first byte is 0x00, or when
/// no whole record is left.  A 0xE5 record is skipped, the scratchpad
/// untouched.
pub open spec fn spec_entries(bytes: Seq<u8>, j: int, lfn: Option<Seq<u16>>) -> Option<
    Seq<EntryV>,
>
    decreases bytes.len() - 32 * j,
{
    if j < 0 || 32 * j + 32 > bytes.len() {
        Some(Seq::empty())
    } else {
        let r = record_at(bytes, j);
        if r[0] == 0 {
            Some(Seq::empty())
        } else if r[0] == 0xE5 {
            spec_entries(bytes, j + 1, lfn)
        } else if r[11] == 0x0F {
            let s5 = r[0] as int % 32;
            if s5 == 0 {
                None
            } else {
                spec_entries(bytes, j + 1, Some(lfn_insert(lfn, s5, lfn_units_of(r))))
            }
        } else {
            match spec_entries(bytes, j + 1, None) {
                Some(rest) => Some(seq![spec_regular_entry(r, lfn)] + rest),
                None => None,
            }
        }
    }
}

/// The ghost views of a sequence of entries.
pub open spec fn views_of(v: Seq<Entry>) -> Seq<EntryV> {
    v.map_values(|e: Entry| e@)
}

/// `a` prepended to the payload of `b`, keeping `None`.
pub open spec fn opt_prepend(a: Seq<EntryV>, b: Option<Seq<EntryV>>) -> Option<Seq<EntryV>> {
    match b {
        Some(x) => Some(a + x),
        None => None,
    }
}

impl VFatRegularDirEntry {
    /// Decodes a regular record from the 32 bytes of `rec`.
    pub fn parse(rec: &Vec<u8>) -> (e: VFatRegularDirEntry)
        requires
            rec.len() == 32,
        ensures
            e.name@ == rec@.subrange(0, 8),
            e.extension@ == rec@.subrange(8, 11),
            e.attributes.0 == rec@[11],
            e.nt_reserved == rec@[12],
            e.creation_time_tenths == rec@[13],
            e.ctime.0 == le16(rec@, 14),
            e.cdate.0 == le16(rec@, 16),
            e.adate.0 == le16(rec@, 18),
            e.first_cluster_higher_bits == le16(rec@, 20),
            e.mtime.0 == le16(rec@, 22),
            e.mdate.0 == le16(rec@, 24),
            e.first_cluster_lower_bits == le16(rec@, 26),
            e.size == le32(rec@, 28),
    {
        VFatRegularDirEntry {
            name: subvec(rec, 0, 8),
            extension: subvec(rec, 8, 3),
            attributes: Attributes(rec[11]),
            nt_reserved: rec[12],
            creation_time_tenths: rec[13],
            ctime: Time(read_le16(rec, 14)),
            cdate: Date(read_le16(rec, 16)),
            adate: Date(read_le16(rec, 18)),
            first_cluster_higher_bits: read_le16(rec, 20),
            mtime: Time(read_le16(rec, 22)),
            mdate: Date(read_le16(rec, 24)),
            first_cluster_lower_bits: read_le16(rec, 26),
            size: read_le32(rec, 28),
        }
    }

    /// The entry's first cluster, composed from its two halves.
    pub fn first_cluster(&self) -> (r: u32)
        ensures
            r == self.first_cluster_higher_bits * 0x10000 + self.first_cluster_lower_bits,
    {
        self.first_cluster_higher_bits as u32 * 0x10000 + self.first_cluster_lower_bits as u32
    }
}

impl VFatLfnDirEntry {
    /// Decodes a long-filename record from the 32 bytes of `rec`.
    pub fn parse(rec: &Vec<u8>) -> (e: VFatLfnDirEntry)
        requires
            rec.len() == 32,
        ensures
            e.seq_num == rec@[0],
            e.attributes.0 == rec@[11],
            e.entry_type == rec@[12],
            e.checksum == rec@[13],
            e.name_characters_1@ + e.name_characters_2@ + e.name_characters_3@ == lfn_units_of(
                rec@,
            ),
    {
        let units = parse_lfn_units(rec, 0);
        let one = subvec16(&units, 0, 5);
        let two = subvec16(&units, 5, 6);
        let three = subvec16(&units, 11, 2);
        proof {
            assert(one@ + two@ + three@ =~= units@);
        }
        VFatLfnDirEntry {
            seq_num: rec[0],
            name_characters_1: one,
            attributes: Attributes(rec[11]),
            entry_type: rec[12],
            checksum: rec[13],
            name_characters_2: two,
            name_characters_3: three,
        }
    }

    /// The record's 13 code units, the three ranges concatenated.
    pub fn name_units(&self) -> (r: Vec<u16>)
        ensures
            r@ == self.name_characters_1@ + self.name_characters_2@ + self.name_characters_3@,
    {
        let mut out: Vec<u16> = Vec::new();
        let mut a = subvec16(&self.name_characters_1, 0, self.name_characters_1.len());
        let mut b = subvec16(&self.name_characters_2, 0, self.name_characters_2.len());
        let mut c = subvec16(&self.name_characters_3, 0, self.name_characters_3.len());
        proof {
            assert(a@ =~= self.name_characters_1@);
            assert(b@ =~= self.name_characters_2@);
            assert(c@ =~= self.name_characters_3@);
        }
        out.append(&mut a);
        out.append(&mut b);
        out.append(&mut c);
        proof {
            assert(out@ =~= self.name_characters_1@ + self.name_characters_2@
                + self.name_characters_3@);
        }
        out
    }
}

impl VFatUnknownDirEntry {
    /// Reads the classification fields of the 32-byte record `rec`.
    pub fn parse(rec: &Vec<u8>) -> (e: VFatUnknownDirEntry)
        requires
            rec.len() == 32,
        ensures
            e.seq_num == rec@[0],
            e.attributes.0 == rec@[11],
    {
        VFatUnknownDirEntry { seq_num: rec[0], attributes: Attributes(rec[11]) }
    }
}

/// A fresh copy of `n` units of `src` starting at `off`.
fn subvec16(src: &Vec<u16>, off: usize, n: usize) -> (r: Vec<u16>)
    requires
        off + n <= src.len(),
    ensures
        r@ == src@.subrange(off as int, off + n),
{
    let mut out: Vec<u16> = Vec::new();
    let mut k: usize = 0;
    while k < n
        invariant
            k <= n,
            off + n <= src.len(),
            out@ == src@.subrange(off as int, off + k),
        decreases n - k,
    {
        out.push(src[off + k]);
        proof {
            assert(out@ =~= src@.subrange(off as int, off + k + 1));
        }
        k = k + 1;
    }
    out
}

/// The 13 code units of the long-filename record at byte `off` of `buf`.
fn parse_lfn_units(buf: &Vec<u8>, off: usize) -> (r: Vec<u16>)
    requires
        off + 32 <= buf.len(),
    ensures
        r@ == lfn_units_of(buf@.subrange(off as int, off + 32)),
{
    let mut out: Vec<u16> = Vec::new();
    out.push(read_le16(buf, off + 1));
    out.push(read_le16(buf, off + 3));
    out.push(read_le16(buf, off + 5));
    out.push(read_le16(buf, off + 7));
    out.push(read_le16(buf, off + 9));
    out.push(read_le16(buf, off + 14));
    out.push(read_le16(buf, off + 16));
    out.push(read_le16(buf, off + 18));
    out.push(read_le16(buf, off + 20));
    out.push(read_le16(buf, off + 22));
    out.push(read_le16(buf, off + 24));
    out.push(read_le16(buf, off + 28));
    out.push(read_le16(buf, off + 30));
    proof {
        let rec = buf@.subrange(off as int, off + 32);
        assert forall|i: int| 0 <= i < 13 implies out@[i] == lfn_units_of(rec)[i] by {
            if i < 5 {
                assert(rec[1 + 2 * i] == buf@[off + 1 + 2 * i]);
                assert(rec[2 + 2 * i] == buf@[off + 2 + 2 * i]);
            } else if i < 11 {
                assert(rec[14 + 2 * (i - 5)] == buf@[off + 14 + 2 * (i - 5)]);
                assert(rec[15 + 2 * (i - 5)] == buf@[off + 15 + 2 * (i - 5)]);
            } else {
                assert(rec[28 + 2 * (i - 11)] == buf@[off + 28 + 2 * (i - 11)]);
                assert(rec[29 + 2 * (i - 11)] == buf@[off + 29 + 2 * (i - 11)]);
            }
        }
        assert(out@ =~= lfn_units_of(rec));
    }
    out
}

/// Decodes a directory's raw contents into its entries, assembling long
/// filenames across records.
///
/// Fails with `InvalidData` exactly when a long-filename record before
/// the terminator carries a zero sequence position.
pub fn decode_entries(bytes: &Vec<u8>) -> (r: Result<Vec<Entry>, Error>)
    ensures
        match r {
            Ok(v) => spec_entries(bytes@, 0, None) == Some(views_of(v@)),
            Err(e) => e == Error::InvalidData && spec_entries(bytes@, 0, None) is None,
        },
        r is Ok <==> spec_entries(bytes@, 0, None) is Some,
{
    let mut out: Vec<Entry> = Vec::new();
    let mut lfn_buf: Vec<u16> = vec![0u16; 403];
    let mut has_lfn: bool = false;
    let ghost mut glfn: Option<Seq<u16>> = None;
    let n = bytes.len();
    let nrec = n / 32;
    let mut j: usize = 0;
    proof {
        assert(views_of(out@) =~= Seq::<EntryV>::empty());
        assert(opt_prepend(views_of(out@), spec_entries(bytes@, 0, glfn)) == spec_entries(
            bytes@,
            0,
            None,
        ));
    }
    while j < nrec
        invariant
            j <= nrec,
            n == bytes.len(),
            nrec == n as int / 32,
            lfn_buf.len() == 403,
            glfn == if has_lfn {
                Some(lfn_buf@)
            } else {
                None::<Seq<u16>>
            },
            spec_entries(bytes@, 0, None) == opt_prepend(
                views_of(out@),
                spec_entries(bytes@, j as int, glfn),
            ),
        decreases nrec - j,
    {
        proof {
            assert(32 * j + 32 <= 32 * nrec <= n) by (nonlinear_arith)
                requires
                    j < nrec,
                    nrec == n as int / 32,
                    0 <= n,
            {}
        }
        let off = 32 * j;
        let ghost rec = bytes@.subrange(off as int, off + 32);
        proof {
            assert(rec == record_at(bytes@, j as int));
        }
        let first = bytes[off];
        if first == 0x00 {
            // Terminator: nothing past this record is visited.
            proof {
                assert(spec_entries(bytes@, j as int, glfn) == Some(Seq::<EntryV>::empty()));
                assert(views_of(out@) + Seq::<EntryV>::empty() =~= views_of(out@));
            }
            return Ok(out);
        }
        let attr = bytes[off + 11];
        if first == 0xE5 {
            // Deleted slot: skipped, the scratchpad left as it stands.
            proof {
                assert(spec_entries(bytes@, j as int, glfn) == spec_entries(
                    bytes@,
                    j + 1,
                    glfn,
                ));
            }
            j = j + 1;
        } else if attr == 0x0F {
            let seq5 = first & 0x1F;
            proof {
                assert(first & 0x1F == first % 32) by (bit_vector);
            }
            if seq5 == 0 {
                proof {
                    assert(spec_entries(bytes@, j as int, glfn) is None);
                }
                return Err(Error::InvalidData);
            }
            let units = parse_lfn_units(bytes, off);
            if !has_lfn {
                // A fresh name group starts from a zero-filled scratchpad.
                lfn_buf = vec![0u16; 403];
                proof {
                    assert(lfn_buf@ =~= empty_lfn());
                }
            }
            let base = (seq5 - 1) as usize * 13;
            let ghost old_buf = lfn_buf@;
            let mut t: usize = 0;
            while t < 13
                invariant
                    t <= 13,
                    base + 13 <= 403,
                    lfn_buf.len() == 403,
                    units.len() == 13,
                    forall|i: int|
                        0 <= i < 403 ==> lfn_buf@[i] == if base <= i < base + t {
                            units@[i - base]
                        } else {
                            old_buf[i]
                        },
                decreases 13 - t,
            {
                lfn_buf[base + t] = units[t];
                t = t + 1;
            }
            proof {
                assert(lfn_buf@ =~= lfn_insert(glfn, seq5 as int, lfn_units_of(rec)));
                assert(spec_entries(bytes@, j as int, glfn) == spec_entries(
                    bytes@,
                    j + 1,
                    Some(lfn_insert(glfn, seq5 as int, lfn_units_of(rec))),
                ));
                glfn = Some(lfn_buf@);
            }
            has_lfn = true;
            j = j + 1;
        } else {
            let name: Vec<u8> = if has_lfn {
                let pref = take_units_prefix(&lfn_buf);
                utf16_units_to_utf8(&pref)
            } else {
                let name_raw = subvec(bytes, off, 8);
                let ext_raw = subvec(bytes, off + 8, 3);
                let name_pref = take_short_prefix(&name_raw);
                let ext_pref = take_short_prefix(&ext_raw);
                let mut base = utf8_lossy_clean(&name_pref);
                proof {
                    assert(name_raw@ =~= rec.subrange(0, 8));
                    assert(ext_raw@ =~= rec.subrange(8, 11));
                }
                if ext_pref.len() > 0 {
                    let mut ext_clean = utf8_lossy_clean(&ext_pref);
                    let ghost b0 = base@;
                    base.push(0x2E);
                    base.append(&mut ext_clean);
                    proof {
                        assert(base@ =~= b0 + seq![0x2Eu8] + utf8_lossy(short_prefix(
                            rec.subrange(8, 11),
                        )));
                    }
                    base
                } else {
                    base
                }
            };
            proof {
                assert(name@ == spec_regular_name(rec, glfn));
            }
            let md = Metadata {
                attributes: Attributes(attr),
                created_time: Timestamp {
                    date: Date(read_le16(bytes, off + 16)),
                    time: Time(read_le16(bytes, off + 14)),
                },
                accessed_time: Timestamp { date: Date(read_le16(bytes, off + 18)), time: Time(0) },
                modified_time: Timestamp {
                    date: Date(read_le16(bytes, off + 24)),
                    time: Time(read_le16(bytes, off + 22)),
                },
            };
            let cluster = read_le16(bytes, off + 20) as u32 * 0x10000 + read_le16(
                bytes,
                off + 26,
            ) as u32;
            let entry: Entry = if attr & 0x10 == 0x10 {
                Entry::Dir(Dir::new(name, md, Cluster(cluster)))
            } else {
                let size = read_le32(bytes, off + 28);
                Entry::File(File::new(name, md, size, Cluster(cluster)))
            };
            proof {
                assert(rec[11] == bytes@[off + 11]);
                assert(entry@ == spec_regular_entry(rec, glfn));
            }
            let ghost out_before = out@;
            out.push(entry);
            proof {
                assert(views_of(out@) =~= views_of(out_before) + seq![entry@]);
                assert(spec_entries(bytes@, j as int, glfn) == match spec_entries(
                    bytes@,
                    j + 1,
                    None,
                ) {
                    Some(rest) => Some(seq![spec_regular_entry(rec, glfn)] + rest),
                    None => None::<Seq<EntryV>>,
                });
                if spec_entries(bytes@, j + 1, None) is Some {
                    let rest = spec_entries(bytes@, j + 1, None).unwrap();
                    assert((views_of(out_before) + seq![entry@]) + rest =~= views_of(out_before)
                        + (seq![entry@] + rest));
                }
                glfn = None;
            }
            has_lfn = false;
            j = j + 1;
        }
    }
    proof {
        assert(32 * nrec <= n < 32 * nrec + 32) by (nonlinear_arith)
            requires
                nrec == n as int / 32,
                0 <= n,
        {}
        assert(spec_entries(bytes@, j as int, glfn) == Some(Seq::<EntryV>::empty()));
        assert(views_of(out@) + Seq::<EntryV>::empty() =~= views_of(out@));
    }
    Ok(out)
}

/// The first entry of `es` whose case-folded name equals the case-folded
/// query `q`.
pub open spec fn spec_find(es: Seq<EntryV>, q: Seq<u8>) -> Option<EntryV>
    decreases es.len(),
{
    if es.len() == 0 {
        None
    } else if fold_bytes(es[0].name()) == fold_bytes(q) {
        Some(es[0])
    } else {
        spec_find(es.skip(1), q)
    }
}

/// The decoded listing of the directory whose chain starts at `cluster`.
pub open spec fn spec_dir_listing<T: BlockDevice>(fs: VFat<T>, cluster: u32) -> Option<
    Seq<EntryV>,
> {
    match fs.chain_of(cluster) {
        Some(cs) => spec_entries(fs.concat_chain(cs), 0, None),
        None => None,
    }
}

/// Whether listing the directory at `cluster` can succeed: its chain
/// exists and is readable, fits a buffer, and decodes cleanly.
pub open spec fn dir_readable<T: BlockDevice>(fs: VFat<T>, cluster: u32) -> bool {
    &&& fs.chain_readable(cluster)
    &&& fs.chain_of(cluster).unwrap().len() * fs.cluster_size_spec() <= usize::MAX
    &&& spec_entries(fs.concat_chain(fs.chain_of(cluster).unwrap()), 0, None) is Some
}

/// Listings and their readability are functions of the preserved view.
pub proof fn lemma_view_preserved_listing<T: BlockDevice>(pre: VFat<T>, post: VFat<T>)
    requires
        VFat::view_preserved(pre, post),
    ensures
        forall|c: u32| #[trigger] spec_dir_listing(post, c) == spec_dir_listing(pre, c),
        forall|c: u32| #[trigger] dir_readable(post, c) == dir_readable(pre, c),
{
    VFat::lemma_view_preserved_chains(pre, post);
    assert forall|c: u32| #[trigger] spec_dir_listing(post, c) == spec_dir_listing(pre, c) by {
        assert(post.chain_of(c) == pre.chain_of(c));
        if pre.chain_of(c) is Some {
            assert(post.concat_chain(pre.chain_of(c).unwrap()) == pre.concat_chain(
                pre.chain_of(c).unwrap(),
            ));
        }
    }
}

/// The synthetic root directory: empty name, the directory attribute,
/// and the partition's root cluster.
pub open spec fn spec_root_dir<T: BlockDevice>(fs: VFat<T>) -> DirV {
    DirV {
        name: Seq::empty(),
        metadata: spec_root_metadata(),
        first_cluster: fs.root_dir_cluster.0,
    }
}

/// An iterator over a directory's entries, decoded up front.
pub struct EntryIter {
    pub entries: Vec<Entry>,
}

impl EntryIter {
    /// An iterator over the given entries.
    pub fn new(entries: Vec<Entry>) -> (it: EntryIter)
        ensures
            it.entries@ == entries@,
    {
        EntryIter { entries }
    }

    /// The next entry, front to back.
    pub fn next(&mut self) -> (r: Option<Entry>)
        ensures
            match r {
                Some(e) => {
                    &&& old(self).entries@.len() > 0
                    &&& e@ == old(self).entries@[0]@
                    &&& final(self).entries@ == old(self).entries@.skip(1)
                },
                None => old(self).entries@.len() == 0 && final(self).entries@ == old(
                    self,
                ).entries@,
            },
    {
        if self.entries.len() > 0 {
            let e = self.entries.remove(0);
            proof {
                assert(self.entries@ =~= old(self).entries@.skip(1));
            }
            Some(e)
        } else {
            None
        }
    }
}

impl Dir {
    /// The synthetic root directory of a mounted filesystem.
    pub fn root_from_vfat<T: BlockDevice>(fs: &VFat<T>) -> (d: Dir)
        ensures
            d@ == spec_root_dir(*fs),
    {
        Dir::new(Vec::new(), root_metadata(), fs.root_dir_cluster)
    }

    /// Reads this directory's whole chain and decodes its entries.
    pub fn entries<T: BlockDevice>(&self, fs: &mut VFat<T>) -> (r: Result<EntryIter, Error>)
        requires
            old(fs).wf(),
        ensures
            final(fs).wf(),
            VFat::view_preserved(*old(fs), *final(fs)),
            match r {
                Ok(it) => spec_dir_listing(*old(fs), self@.first_cluster) == Some(
                    views_of(it.entries@),
                ),
                Err(e) => (e == Error::NotFound || e == Error::Io || e == Error::InvalidData || e
                    == Error::InvalidInput) && !dir_readable(*old(fs), self@.first_cluster),
            },
            dir_readable(*old(fs), self@.first_cluster) ==> r is Ok,
    {
        let mut buf: Vec<u8> = Vec::new();
        match fs.read_chain(self.first_cluster, &mut buf) {
            Ok(_) => (),
            Err(e) => {
                return Err(e);
            },
        }
        match decode_entries(&buf) {
            Ok(v) => Ok(EntryIter::new(v)),
            Err(e) => {
                return Err(e);
            },
        }
    }

    /// The first entry of this directory whose decoded name equals the
    /// byte string `name` up to ASCII case.
    ///
    /// Fails with `NotFound` when no entry matches, and as
    /// [`Dir::entries`] does when the directory cannot be listed.
    #[verifier::rlimit(50)]
    pub fn find_bytes<T: BlockDevice>(&self, fs: &mut VFat<T>, name: &[u8]) -> (r: Result<
        Entry,
        Error,
    >)
        requires
            old(fs).wf(),
        ensures
            final(fs).wf(),
            VFat::view_preserved(*old(fs), *final(fs)),
            r matches Ok(e) ==> (spec_dir_listing(*old(fs), self@.first_cluster) matches Some(es)
                && spec_find(es, name@) == Some(e@)),
            r matches Err(e) ==> (e == Error::NotFound || e == Error::Io || e == Error::InvalidData
                || e == Error::InvalidInput),
            dir_readable(*old(fs), self@.first_cluster) ==> match spec_find(
                spec_dir_listing(*old(fs), self@.first_cluster).unwrap(),
                name@,
            ) {
                Some(v) => r matches Ok(e) && e@ == v,
                None => r == Err::<Entry, Error>(Error::NotFound),
            },
    {
        let it = match self.entries(fs) {
            Ok(i) => i,
            Err(e) => {
                return Err(e);
            },
        };
        let mut es = it.entries;
        let ghost es0 = views_of(es@);
        let query = name;
        let n = es.len();
        let mut i: usize = 0;
        proof {
            assert(es0.skip(0) =~= es0);
        }
        while i < n
            invariant
                i <= n,
                n == es@.len(),
                es0 == views_of(es@),
                fs.wf(),
                VFat::view_preserved(*old(fs), *fs),
                spec_dir_listing(*old(fs), self@.first_cluster) == Some(es0),
                spec_find(es0, name@) == spec_find(es0.skip(i as int), name@),
                query@ == name@,
            decreases n - i,
        {
            let ghost rest = es0.skip(i as int);
            proof {
                assert(rest[0] == es0[i as int]);
                assert(rest.skip(1) =~= es0.skip(i + 1));
            }
            if crate::byteops::eq_ignore_ascii_case(es[i].name().as_slice(), query) {
                let e = es.remove(i);
                proof {
                    assert(e@ == es0[i as int]);
                    assert(spec_find(rest, name@) == Some(es0[i as int]));
                }
                return Ok(e);
            }
            i = i + 1;
        }
        proof {
            assert(es0.skip(n as int) =~= Seq::<EntryV>::empty());
        }
        Err(Error::NotFound)
    }

    /// The first entry of this directory whose decoded name equals `name`
    /// up to ASCII case; the UTF-8 bytes of `name` are compared.
    pub fn find<T: BlockDevice>(&self, fs: &mut VFat<T>, name: &str) -> (r: Result<Entry, Error>)
        requires
            old(fs).wf(),
        ensures
            final(fs).wf(),
            VFat::view_preserved(*old(fs), *final(fs)),
            r matches Ok(e) ==> (spec_dir_listing(*old(fs), self@.first_cluster) matches Some(es)
                && spec_find(es, name.spec_bytes()) == Some(e@)),
            r matches Err(e) ==> (e == Error::NotFound || e == Error::Io || e == Error::InvalidData
                || e == Error::InvalidInput),
            dir_readable(*old(fs), self@.first_cluster) ==> match spec_find(
                spec_dir_listing(*old(fs), self@.first_cluster).unwrap(),
                name.spec_bytes(),
            ) {
                Some(v) => r matches Ok(e) && e@ == v,
                None => r == Err::<Entry, Error>(Error::NotFound),
            },
    {
        self.find_bytes(fs, name.as_bytes())
    }
}

} // verus!
