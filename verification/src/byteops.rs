//! Little-endian readers and byte-buffer helpers shared by the decoders.
//!
//! Every on-disk structure of FAT32 is densely packed little-endian, so the
//! decoders never reinterpret memory; they read fields byte by byte through
//! these helpers.

use vstd::prelude::*;

verus! {

/// The 16-bit little-endian value stored at offset `i` of `s`.
pub open spec fn le16(s: Seq<u8>, i: int) -> int {
    s[i] + 0x100 * s[i + 1]
}

/// The 32-bit little-endian value stored at offset `i` of `s`.
pub open spec fn le32(s: Seq<u8>, i: int) -> int {
    s[i] + 0x100 * s[i + 1] + 0x10000 * s[i + 2] + 0x1000000 * s[i + 3]
}

/// The byte with ASCII capital letters folded to lower case; all other
/// values are left as they are.
pub open spec fn fold_byte(b: u8) -> u8 {
    if 0x41 <= b <= 0x5A {
        (b + 0x20) as u8
    } else {
        b
    }
}

/// The sequence with every byte case-folded by [`fold_byte`].
pub open spec fn fold_bytes(s: Seq<u8>) -> Seq<u8> {
    s.map_values(|b: u8| fold_byte(b))
}

pub fn read_le16(buf: &Vec<u8>, i: usize) -> (r: u16)
    requires
        i + 2 <= buf.len(),
    ensures
        r == le16(buf@, i as int),
{
    buf[i] as u16 + buf[i + 1] as u16 * 0x100
}

pub fn read_le32(buf: &Vec<u8>, i: usize) -> (r: u32)
    requires
        i + 4 <= buf.len(),
    ensures
        r == le32(buf@, i as int),
{
    buf[i] as u32 + buf[i + 1] as u32 * 0x100 + buf[i + 2] as u32 * 0x10000 + buf[i + 3] as u32
        * 0x1000000
}

/// Copies `n` bytes of `src`, starting at `src_off`, over the bytes of
/// `dst` starting at `dst_off`; everything else in `dst` stays.
pub fn copy_into(dst: &mut Vec<u8>, dst_off: usize, src: &Vec<u8>, src_off: usize, n: usize)
    requires
        dst_off + n <= old(dst).len(),
        src_off + n <= src.len(),
    ensures
        final(dst)@.len() == old(dst)@.len(),
        forall|j: int|
            0 <= j < final(dst)@.len() ==> final(dst)@[j] == if dst_off <= j < dst_off + n {
                src@[src_off + (j - dst_off)]
            } else {
                old(dst)@[j]
            },
{
    let mut k: usize = 0;
    while k < n
        invariant
            k <= n,
            dst_off + n <= dst.len(),
            src_off + n <= src.len(),
            dst@.len() == old(dst)@.len(),
            forall|j: int|
                0 <= j < dst@.len() ==> dst@[j] == if dst_off <= j < dst_off + k {
                    src@[src_off + (j - dst_off)]
                } else {
                    old(dst)@[j]
                },
        decreases n - k,
    {
        dst[dst_off + k] = src[src_off + k];
        k = k + 1;
    }
}

/// A fresh copy of the `n` bytes of `src` starting at `off`.
pub fn subvec(src: &Vec<u8>, off: usize, n: usize) -> (r: Vec<u8>)
    requires
        off + n <= src.len(),
    ensures
        r@ == src@.subrange(off as int, off + n),
{
    let mut out: Vec<u8> = Vec::new();
    let mut k: usize = 0;
    while k < n
        invariant
            k <= n,
            off + n <= src.len(),
            out@ == src@.subrange(off as int, off + k),
        decreases n - k,
    {
        out.push(src[off + k]);
        proof {
            assert(out@ =~= src@.subrange(off as int, off + k + 1));
        }
        k = k + 1;
    }
    out
}

/// The case-folded image of one byte.
pub fn fold_byte_exec(b: u8) -> (r: u8)
    ensures
        r == fold_byte(b),
{
    if 0x41 <= b && b <= 0x5A {
        b + 0x20
    } else {
        b
    }
}

/// Whether two byte strings are equal after ASCII case folding.
pub fn eq_ignore_ascii_case(a: &[u8], b: &[u8]) -> (r: bool)
    ensures
        r == (fold_bytes(a@) == fold_bytes(b@)),
{
    if a.len() != b.len() {
        proof {
            assert(fold_bytes(a@).len() == a@.len());
            assert(fold_bytes(b@).len() == b@.len());
        }
        return false;
    }
    let n = a.len();
    let mut k: usize = 0;
    while k < n
        invariant
            k <= n,
            a@.len() == n,
            b@.len() == n,
            forall|j: int| 0 <= j < k ==> fold_byte(a@[j]) == fold_byte(b@[j]),
        decreases n - k,
    {
        if fold_byte_exec(a[k]) != fold_byte_exec(b[k]) {
            proof {
                assert(fold_bytes(a@)[k as int] != fold_bytes(b@)[k as int]);
            }
            return false;
        }
        k = k + 1;
    }
    proof {
        assert(fold_bytes(a@) =~= fold_bytes(b@));
    }
    true
}

} // verus!
