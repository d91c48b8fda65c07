//! The general properties the library promises, stated and proved over
//! the same specification functions its contracts use.

use vstd::prelude::*;

use crate::byteops::{fold_byte, fold_bytes};
use crate::device::BlockDevice;
use crate::dir::{record_at, spec_entries, spec_find};
use crate::entry::EntryV;
use crate::fat::{masked, spec_status, Status};
use crate::mbr::{has_mbr_signature, mbr_matches, MasterBootRecord};
use crate::path::{lemma_view_preserved_resolve, spec_components, spec_resolve};
use crate::vfat::VFat;

verus! {

/// A decoded master boot record always carries the `[0x55, 0xAA]`
/// signature, both in its own field and in the bytes it was decoded
/// from: the decoder accepts exactly what a well-formed encoder writes.
pub proof fn lemma_mbr_signature_roundtrip(m: MasterBootRecord, s: Seq<u8>)
    requires
        s.len() == 512,
        mbr_matches(m, s),
        has_mbr_signature(s),
    ensures
        m.signature@ == seq![0x55u8, 0xAAu8],
        s[510] == 0x55 && s[511] == 0xAA,
{
}

/// Reading a whole chain yields one cluster's worth of bytes per chain
/// link: the buffer's length is the chain length times the cluster size,
/// and slice `i` of it is exactly cluster `i`'s data.
pub proof fn lemma_chain_concat_parts<T: BlockDevice>(fs: VFat<T>, cs: Seq<u32>, i: int)
    requires
        0 < fs.cluster_size_spec(),
        0 <= i < cs.len(),
    ensures
        fs.concat_chain(cs).len() == cs.len() * fs.cluster_size_spec(),
        fs.concat_chain(cs).subrange(
            i * fs.cluster_size_spec(),
            (i + 1) * fs.cluster_size_spec(),
        ) == fs.cluster_data(cs[i]),
{
    let csz = fs.cluster_size_spec();
    fs.lemma_concat_chain_len(cs);
    assert((i + 1) * csz == i * csz + csz) by (nonlinear_arith) {}
    assert(0 <= i * csz && (i + 1) * csz <= cs.len() * csz) by (nonlinear_arith)
        requires
            0 <= i < cs.len(),
            0 < csz,
    {}
    assert forall|t: int|
        0 <= t < csz implies fs.concat_chain(cs).subrange(i * csz, (i + 1) * csz)[t]
        == fs.cluster_data(cs[i])[t] by {
        fs.lemma_concat_chain_index(cs, i * csz + t);
        vstd::arithmetic::div_mod::lemma_fundamental_div_mod_converse(i * csz + t, csz, i, t);
    }
    assert(fs.concat_chain(cs).subrange(i * csz, (i + 1) * csz) =~= fs.cluster_data(cs[i]));
}

/// A FAT entry's status is decided by the low 28 bits of its raw value
/// alone, and each status names the range that value fell in.
pub proof fn lemma_fat_status_consistent(raw: u32)
    ensures
        spec_status(raw) == spec_status((masked(raw) + 0xF000_0000) as u32),
        spec_status(raw) matches Status::Data(c) ==> c.0 == masked(raw) && 2 <= c.0
            <= 0xFFF_FFEF,
        spec_status(raw) matches Status::Eoc(v) ==> v == masked(raw) && 0xFFF_FFF8 <= v
            <= 0xFFF_FFFF,
        spec_status(raw) == Status::Bad <==> masked(raw) == 0xFFF_FFF7,
        spec_status(raw) == Status::Free <==> masked(raw) == 0,
{
    assert(masked((masked(raw) + 0xF000_0000) as u32) == masked(raw));
}

/// A read serves zero bytes exactly at end-of-file or into an empty
/// buffer; anywhere else it makes progress, so reads repeated until zero
/// walk off the whole rest of the file.
pub proof fn lemma_read_progress<T: BlockDevice>(
    fs: VFat<T>,
    f: crate::entry::FileV,
    buflen: int,
)
    requires
        0 < fs.cluster_size_spec(),
        f.offset <= f.size,
        0 <= buflen,
    ensures
        crate::file::spec_read_count(fs, f, buflen) == 0 <==> (f.offset == f.size || buflen == 0),
        0 <= crate::file::spec_read_count(fs, f, buflen) <= f.size - f.offset,
{
}

/// The handle `f` moved to position `o`.
pub open spec fn with_offset(f: crate::entry::FileV, o: int) -> crate::entry::FileV {
    crate::entry::FileV {
        name: f.name,
        metadata: f.metadata,
        size: f.size,
        first_cluster: f.first_cluster,
        offset: o as u32,
    }
}

/// The bytes served by reading from position `f.offset` until a read
/// returns zero: each step takes what one `File::read` call returns
/// (`spec_read_count` bytes of the file) and advances by that count.
pub open spec fn reads_until_zero<T: BlockDevice>(
    fs: VFat<T>,
    f: crate::entry::FileV,
    buflen: int,
) -> Seq<u8>
    decreases f.size - f.offset,
    via reads_until_zero_decreases::<T>
{
    let n = crate::file::spec_read_count(fs, f, buflen);
    if f.offset >= f.size || fs.cluster_size_spec() <= 0 || n <= 0 {
        Seq::empty()
    } else {
        crate::file::spec_file_content(fs, f).subrange(f.offset as int, f.offset + n)
            + reads_until_zero(fs, with_offset(f, f.offset + n), buflen)
    }
}

#[via_fn]
proof fn reads_until_zero_decreases<T: BlockDevice>(
    fs: VFat<T>,
    f: crate::entry::FileV,
    buflen: int,
) {
    let n = crate::file::spec_read_count(fs, f, buflen);
    if !(f.offset >= f.size || fs.cluster_size_spec() <= 0 || n <= 0) {
        assert(n <= f.size - f.offset);
    }
}

/// The reads-until-zero law: from any position of a valid file, the
/// bytes successive reads serve until one returns zero concatenate to
/// exactly the file's bytes from that position to its end.  Each piece
/// is what `File::read`'s contract returns for that state, and
/// [`lemma_read_progress`] says the zero that ends the loop comes
/// exactly at end-of-file.
pub proof fn lemma_reads_until_zero<T: BlockDevice>(
    fs: VFat<T>,
    f: crate::entry::FileV,
    buflen: int,
)
    requires
        0 < fs.cluster_size_spec(),
        crate::file::spec_file_valid(fs, f),
        f.offset <= f.size,
        0 < buflen,
    ensures
        reads_until_zero(fs, f, buflen) == crate::file::spec_file_content(fs, f).subrange(
            f.offset as int,
            f.size as int,
        ),
    decreases f.size - f.offset,
{
    let content = crate::file::spec_file_content(fs, f);
    fs.lemma_concat_chain_len(fs.chain_of(f.first_cluster).unwrap());
    assert(content.len() == f.size);
    let n = crate::file::spec_read_count(fs, f, buflen);
    lemma_read_progress(fs, f, buflen);
    if n == 0 {
        assert(f.offset == f.size);
        assert(content.subrange(f.offset as int, f.size as int) =~= Seq::<u8>::empty());
    } else {
        let f2 = with_offset(f, f.offset + n);
        assert(crate::file::spec_file_content(fs, f2) == content);
        assert(crate::file::spec_file_valid(fs, f2));
        lemma_reads_until_zero(fs, f2, buflen);
        lemma_content_splits(content, f.offset as int, f.offset + n, f.size as int);
    }
}

/// Two adjacent stretches of a file's bytes concatenate to the whole
/// stretch: what successive reads return joins up seamlessly.
pub proof fn lemma_content_splits(content: Seq<u8>, o: int, m: int, p: int)
    requires
        0 <= o <= m <= p <= content.len(),
    ensures
        content.subrange(o, m) + content.subrange(m, p) == content.subrange(o, p),
{
    assert(content.subrange(o, m) + content.subrange(m, p) =~= content.subrange(o, p));
}

/// Lookup goes by case-folded names alone: two queries that fold to the
/// same bytes find the same entry.
pub proof fn lemma_find_depends_on_folded(es: Seq<EntryV>, q1: Seq<u8>, q2: Seq<u8>)
    requires
        fold_bytes(q1) == fold_bytes(q2),
    ensures
        spec_find(es, q1) == spec_find(es, q2),
    decreases es.len(),
{
    if es.len() > 0 {
        lemma_find_depends_on_folded(es.skip(1), q1, q2);
    }
}

/// The byte with ASCII small letters raised to capitals.
pub open spec fn raise_byte(b: u8) -> u8 {
    if 0x61 <= b <= 0x7A {
        (b - 0x20) as u8
    } else {
        b
    }
}

/// The upper-cased and the lower-cased spelling of a name find the same
/// entry.
pub proof fn lemma_find_case_insensitive(es: Seq<EntryV>, q: Seq<u8>)
    ensures
        spec_find(es, q.map_values(|b: u8| raise_byte(b))) == spec_find(
            es,
            q.map_values(|b: u8| fold_byte(b)),
        ),
        spec_find(es, q.map_values(|b: u8| raise_byte(b))) == spec_find(es, q),
{
    let up = q.map_values(|b: u8| raise_byte(b));
    let down = q.map_values(|b: u8| fold_byte(b));
    assert(fold_bytes(up) =~= fold_bytes(q)) by {
        assert forall|i: int| 0 <= i < q.len() implies fold_bytes(up)[i] == fold_bytes(q)[i] by {
            assert(fold_byte(raise_byte(q[i])) == fold_byte(q[i]));
        }
    }
    assert(fold_bytes(down) =~= fold_bytes(q)) by {
        assert forall|i: int| 0 <= i < q.len() implies fold_bytes(down)[i] == fold_bytes(q)[i] by {
            assert(fold_byte(fold_byte(q[i])) == fold_byte(q[i]));
        }
    }
    lemma_find_depends_on_folded(es, up, q);
    lemma_find_depends_on_folded(es, up, down);
}

/// Decoding never looks past the directory terminator: the entries of
/// `bytes` equal the entries of its prefix cut right after the first
/// record whose first byte is zero.
pub proof fn lemma_directory_termination(bytes: Seq<u8>, j: int, lfn: Option<Seq<u16>>, t: int)
    requires
        0 <= j <= t,
        32 * t + 32 <= bytes.len(),
        record_at(bytes, t)[0] == 0,
    ensures
        spec_entries(bytes, j, lfn) == spec_entries(bytes.take(32 * t + 32), j, lfn),
    decreases t - j,
{
    let cut = bytes.take(32 * t + 32);
    assert(record_at(cut, j) =~= record_at(bytes, j));
    assert(record_at(cut, t) =~= record_at(bytes, t));
    let r = record_at(bytes, j);
    if j == t {
        assert(spec_entries(bytes, j, lfn) == Some(Seq::<EntryV>::empty()));
        assert(spec_entries(cut, j, lfn) == Some(Seq::<EntryV>::empty()));
    } else {
        if r[0] == 0 {
        } else if r[0] == 0xE5 {
            lemma_directory_termination(bytes, j + 1, lfn, t);
        } else if r[11] == 0x0F {
            let s5 = r[0] as int % 32;
            if s5 != 0 {
                lemma_directory_termination(
                    bytes,
                    j + 1,
                    Some(crate::dir::lfn_insert(lfn, s5, crate::dir::lfn_units_of(r))),
                    t,
                );
            }
        } else {
            lemma_directory_termination(bytes, j + 1, None, t);
        }
    }
}

/// A record that carries a long-filename piece: live, marked with the
/// long-filename attribute, and holding a nonzero sequence position.
pub open spec fn is_lfn_record(r: Seq<u8>) -> bool {
    r[0] != 0 && r[0] != 0xE5 && r[11] == 0x0F && r[0] as int % 32 != 0
}

/// A record that a directory walk emits as an entry: live and not a
/// long-filename piece.
pub open spec fn is_regular_record(r: Seq<u8>) -> bool {
    r[0] != 0 && r[0] != 0xE5 && r[11] != 0x0F
}

/// The sequence position of the long-filename record `r`.
pub open spec fn lfn_pos(r: Seq<u8>) -> int {
    r[0] as int % 32
}

/// The scratchpad after the long-filename records `j..k` of `bytes` have
/// written their code units into their slots, starting from `scratch`.
pub open spec fn assembled(bytes: Seq<u8>, j: int, k: int, scratch: Option<Seq<u16>>) -> Seq<u16>
    decreases k - j,
{
    if j >= k {
        match scratch {
            Some(l) => l,
            None => crate::dir::empty_lfn(),
        }
    } else {
        assembled(
            bytes,
            j + 1,
            k,
            Some(
                crate::dir::lfn_insert(
                    scratch,
                    lfn_pos(record_at(bytes, j)),
                    crate::dir::lfn_units_of(record_at(bytes, j)),
                ),
            ),
        )
    }
}

/// Long-filename assembly, part one: a run of long-filename records
/// followed by a regular record decodes to exactly one entry whose name
/// comes from the assembled scratchpad, followed by whatever the rest of
/// the directory holds.
pub proof fn lemma_lfn_group(bytes: Seq<u8>, j: int, k: int, scratch: Option<Seq<u16>>)
    requires
        0 <= j <= k,
        j < k || scratch is Some,
        32 * (k + 1) <= bytes.len(),
        forall|m: int| j <= m < k ==> is_lfn_record(#[trigger] record_at(bytes, m)),
        is_regular_record(record_at(bytes, k)),
    ensures
        spec_entries(bytes, j, scratch) == crate::dir::opt_prepend(
            seq![
                crate::dir::spec_regular_entry(
                    record_at(bytes, k),
                    Some(assembled(bytes, j, k, scratch)),
                ),
            ],
            spec_entries(bytes, k + 1, None),
        ),
    decreases k - j,
{
    if j == k {
    } else {
        let r = record_at(bytes, j);
        assert(is_lfn_record(r));
        lemma_lfn_group(
            bytes,
            j + 1,
            k,
            Some(crate::dir::lfn_insert(scratch, lfn_pos(r), crate::dir::lfn_units_of(r))),
        );
    }
}

/// Long-filename assembly, part two: when the records' sequence
/// positions are pairwise distinct, each record's thirteen code units
/// land in its own slot of the scratchpad, and every other slot keeps
/// what it started with (zeroes, for a fresh group).  With positions
/// `1..k`, the scratchpad is the slot-ordered concatenation of the
/// records' units, and part one then gives the entry the name decoded
/// from that concatenation, truncated at the first 0x0000 or 0xFFFF
/// unit.
pub proof fn lemma_lfn_slots(bytes: Seq<u8>, j: int, k: int, scratch: Option<Seq<u16>>)
    requires
        0 <= j <= k,
        32 * (k + 1) <= bytes.len(),
        forall|m: int| j <= m < k ==> is_lfn_record(#[trigger] record_at(bytes, m)),
        forall|m1: int, m2: int|
            j <= m1 < k && j <= m2 < k && lfn_pos(#[trigger] record_at(bytes, m1)) == lfn_pos(
                #[trigger] record_at(bytes, m2),
            ) ==> m1 == m2,
    ensures
        forall|i: int, m: int|
            #![trigger assembled(bytes, j, k, scratch)[i], record_at(bytes, m)]
            j <= m < k && (lfn_pos(record_at(bytes, m)) - 1) * 13 <= i < lfn_pos(
                record_at(bytes, m),
            ) * 13 ==> assembled(bytes, j, k, scratch)[i] == crate::dir::lfn_units_of(
                record_at(bytes, m),
            )[i - (lfn_pos(record_at(bytes, m)) - 1) * 13],
        forall|i: int|
            0 <= i < 403 && (forall|m: int|
                j <= m < k ==> !((lfn_pos(#[trigger] record_at(bytes, m)) - 1) * 13 <= i
                    < lfn_pos(record_at(bytes, m)) * 13)) ==> assembled(bytes, j, k, scratch)[i]
                == (match scratch {
                Some(l) => l,
                None => crate::dir::empty_lfn(),
            })[i],
    decreases k - j,
{
    if j == k {
    } else {
        let r = record_at(bytes, j);
        let p = lfn_pos(r);
        let units = crate::dir::lfn_units_of(r);
        let scratch2 = Some(crate::dir::lfn_insert(scratch, p, units));
        lemma_lfn_slots(bytes, j + 1, k, scratch2);
        assert(1 <= p <= 31);
        let a = assembled(bytes, j, k, scratch);
        assert(a == assembled(bytes, j + 1, k, scratch2));
        assert forall|i: int, m: int|
            #![trigger assembled(bytes, j, k, scratch)[i], record_at(bytes, m)]
            j <= m < k && (lfn_pos(record_at(bytes, m)) - 1) * 13 <= i < lfn_pos(
                record_at(bytes, m),
            ) * 13 implies a[i] == crate::dir::lfn_units_of(record_at(bytes, m))[i - (lfn_pos(
            record_at(bytes, m),
        ) - 1) * 13] by {
            let pm = lfn_pos(record_at(bytes, m));
            assert(1 <= pm <= 31);
            if m == j {
                assert forall|m2: int|
                    j + 1 <= m2 < k implies !((lfn_pos(#[trigger] record_at(bytes, m2)) - 1) * 13
                    <= i < lfn_pos(record_at(bytes, m2)) * 13) by {
                    let p2 = lfn_pos(record_at(bytes, m2));
                    assert(p2 != p);
                    assert(1 <= p2 <= 31);
                    assert(!((p2 - 1) * 13 <= i < p2 * 13)) by (nonlinear_arith)
                        requires
                            (p - 1) * 13 <= i < p * 13,
                            p2 != p,
                            1 <= p2 <= 31,
                            1 <= p <= 31,
                    {}
                }
                assert(a[i] == crate::dir::lfn_insert(scratch, p, units)[i]);
                assert(crate::dir::lfn_insert(scratch, p, units)[i] == units[i - (p - 1) * 13]);
            }
        }
        assert forall|i: int|
            0 <= i < 403 && (forall|m: int|
                j <= m < k ==> !((lfn_pos(#[trigger] record_at(bytes, m)) - 1) * 13 <= i
                    < lfn_pos(record_at(bytes, m)) * 13)) implies a[i] == (match scratch {
            Some(l) => l,
            None => crate::dir::empty_lfn(),
        })[i] by {
            assert(!((lfn_pos(record_at(bytes, j)) - 1) * 13 <= i < lfn_pos(
                record_at(bytes, j),
            ) * 13));
            assert(a[i] == crate::dir::lfn_insert(scratch, p, units)[i]);
        }
    }
}

/// Opening one absolute path twice resolves identically: resolution is a
/// function of the filesystem view, and every read operation preserves
/// that view.
pub proof fn lemma_open_idempotent<T: BlockDevice>(fs1: VFat<T>, fs2: VFat<T>, path: Seq<u8>)
    requires
        VFat::view_preserved(fs1, fs2),
    ensures
        spec_resolve(
            fs2,
            spec_components(path),
            0,
            crate::dir::spec_root_dir(fs2),
        ) == spec_resolve(fs1, spec_components(path), 0, crate::dir::spec_root_dir(fs1)),
{
    assert(crate::dir::spec_root_dir(fs2) == crate::dir::spec_root_dir(fs1));
    lemma_view_preserved_resolve(
        fs1,
        fs2,
        spec_components(path),
        0,
        crate::dir::spec_root_dir(fs1),
    );
}

} // verus!
