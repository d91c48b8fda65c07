//! Decoding of on-disk names into UTF-8 byte strings.
//!
//! Long filenames are UTF-16 code units; short names are raw bytes.  Both
//! decode lossily: anything ill-formed becomes the replacement character
//! U+FFFD rather than an error, so directory listings are best-effort.

use vstd::prelude::*;

use crate::byteops::subvec;

verus! {

/// The UTF-8 encoding of the replacement character U+FFFD.
pub open spec fn replacement() -> Seq<u8> {
    seq![0xEFu8, 0xBFu8, 0xBDu8]
}

/// The UTF-8 encoding of the Unicode scalar value `cp`.
pub open spec fn utf8_encode(cp: int) -> Seq<u8> {
    if cp < 0x80 {
        seq![cp as u8]
    } else if cp < 0x800 {
        seq![(0xC0 + cp / 0x40) as u8, (0x80 + cp % 0x40) as u8]
    } else if cp < 0x10000 {
        seq![(0xE0 + cp / 0x1000) as u8, (0x80 + cp / 0x40 % 0x40) as u8, (0x80 + cp % 0x40) as u8]
    } else {
        seq![
            (0xF0 + cp / 0x40000) as u8,
            (0x80 + cp / 0x1000 % 0x40) as u8,
            (0x80 + cp / 0x40 % 0x40) as u8,
            (0x80 + cp % 0x40) as u8,
        ]
    }
}

pub open spec fn is_high_surrogate(u: u16) -> bool {
    0xD800 <= u < 0xDC00
}

pub open spec fn is_low_surrogate(u: u16) -> bool {
    0xDC00 <= u < 0xE000
}

/// The lossy UTF-8 transcription of a sequence of UTF-16 code units: a
/// surrogate pair becomes one scalar beyond the basic plane, an unpaired
/// surrogate becomes the replacement character, anything else encodes as
/// itself.
pub open spec fn utf16_to_utf8(units: Seq<u16>) -> Seq<u8>
    decreases units.len(),
{
    if units.len() == 0 {
        Seq::empty()
    } else if is_high_surrogate(units[0]) && units.len() > 1 && is_low_surrogate(units[1]) {
        utf8_encode(
            0x10000 + (units[0] - 0xD800) * 0x400 + (units[1] - 0xDC00),
        ) + utf16_to_utf8(units.skip(2))
    } else if is_high_surrogate(units[0]) || is_low_surrogate(units[0]) {
        replacement() + utf16_to_utf8(units.skip(1))
    } else {
        utf8_encode(units[0] as int) + utf16_to_utf8(units.skip(1))
    }
}

/// True when `b` is a UTF-8 continuation byte.
pub open spec fn is_continuation(b: u8) -> bool {
    0x80 <= b < 0xC0
}

/// The length of the well-formed UTF-8 sequence at the front of `s`, or 0
/// when the front is not one.
pub open spec fn utf8_valid_len(s: Seq<u8>) -> int {
    if s.len() == 0 {
        0
    } else {
        let b0 = s[0];
        if b0 < 0x80 {
            1
        } else if 0xC2 <= b0 <= 0xDF {
            if s.len() >= 2 && is_continuation(s[1]) {
                2
            } else {
                0
            }
        } else if b0 == 0xE0 {
            if s.len() >= 3 && 0xA0 <= s[1] <= 0xBF && is_continuation(s[2]) {
                3
            } else {
                0
            }
        } else if 0xE1 <= b0 <= 0xEC || 0xEE <= b0 <= 0xEF {
            if s.len() >= 3 && is_continuation(s[1]) && is_continuation(s[2]) {
                3
            } else {
                0
            }
        } else if b0 == 0xED {
            if s.len() >= 3 && 0x80 <= s[1] <= 0x9F && is_continuation(s[2]) {
                3
            } else {
                0
            }
        } else if b0 == 0xF0 {
            if s.len() >= 4 && 0x90 <= s[1] <= 0xBF && is_continuation(s[2]) && is_continuation(
                s[3],
            ) {
                4
            } else {
                0
            }
        } else if 0xF1 <= b0 <= 0xF3 {
            if s.len() >= 4 && is_continuation(s[1]) && is_continuation(s[2]) && is_continuation(
                s[3],
            ) {
                4
            } else {
                0
            }
        } else if b0 == 0xF4 {
            if s.len() >= 4 && 0x80 <= s[1] <= 0x8F && is_continuation(s[2]) && is_continuation(
                s[3],
            ) {
                4
            } else {
                0
            }
        } else {
            0
        }
    }
}

/// The lossy UTF-8 cleaning of raw bytes: each well-formed sequence is
/// kept as it stands; a byte that does not begin one becomes the
/// replacement character.
pub open spec fn utf8_lossy(s: Seq<u8>) -> Seq<u8>
    decreases s.len(),
{
    if s.len() == 0 {
        Seq::empty()
    } else {
        let n = utf8_valid_len(s);
        if n > 0 {
            s.take(n) + utf8_lossy(s.skip(n))
        } else {
            replacement() + utf8_lossy(s.skip(1))
        }
    }
}

/// The prefix of `l` that ends at the first unit equal to 0x0000 or
/// 0xFFFF, which terminate a long filename early.
pub open spec fn units_prefix(l: Seq<u16>) -> Seq<u16>
    decreases l.len(),
{
    if l.len() == 0 {
        Seq::empty()
    } else if l[0] == 0x0000 || l[0] == 0xFFFF {
        Seq::empty()
    } else {
        seq![l[0]] + units_prefix(l.skip(1))
    }
}

/// The prefix of `s` that ends at the first byte equal to 0x00 or 0x20,
/// which terminate a short name field early.
pub open spec fn short_prefix(s: Seq<u8>) -> Seq<u8>
    decreases s.len(),
{
    if s.len() == 0 {
        Seq::empty()
    } else if s[0] == 0x00 || s[0] == 0x20 {
        Seq::empty()
    } else {
        seq![s[0]] + short_prefix(s.skip(1))
    }
}

/// Appends the UTF-8 encoding of scalar `cp` to `out`.
fn push_utf8(out: &mut Vec<u8>, cp: u32)
    requires
        cp < 0x11_0000,
    ensures
        final(out)@ == old(out)@ + utf8_encode(cp as int),
{
    if cp < 0x80 {
        out.push(cp as u8);
    } else if cp < 0x800 {
        out.push((0xC0 + cp / 0x40) as u8);
        out.push((0x80 + cp % 0x40) as u8);
    } else if cp < 0x10000 {
        out.push((0xE0 + cp / 0x1000) as u8);
        out.push((0x80 + cp / 0x40 % 0x40) as u8);
        out.push((0x80 + cp % 0x40) as u8);
    } else {
        out.push((0xF0 + cp / 0x40000) as u8);
        out.push((0x80 + cp / 0x1000 % 0x40) as u8);
        out.push((0x80 + cp / 0x40 % 0x40) as u8);
        out.push((0x80 + cp % 0x40) as u8);
    }
    proof {
        assert(final(out)@ =~= old(out)@ + utf8_encode(cp as int));
    }
}

/// The lossy UTF-8 transcription of `units`, per [`utf16_to_utf8`].
pub fn utf16_units_to_utf8(units: &Vec<u16>) -> (r: Vec<u8>)
    ensures
        r@ == utf16_to_utf8(units@),
{
    let mut out: Vec<u8> = Vec::new();
    let mut i: usize = 0;
    let n = units.len();
    proof {
        assert(units@.skip(0) =~= units@);
        assert(Seq::<u8>::empty() + utf16_to_utf8(units@) =~= utf16_to_utf8(units@));
    }
    while i < n
        invariant
            i <= n,
            n == units@.len(),
            utf16_to_utf8(units@) == out@ + utf16_to_utf8(units@.skip(i as int)),
        decreases n - i,
    {
        let ghost rest = units@.skip(i as int);
        let u = units[i];
        proof {
            assert(rest[0] == units@[i as int]);
        }
        if 0xD800 <= u && u < 0xDC00 && i + 1 < n && 0xDC00 <= units[i + 1] && units[i + 1]
            < 0xE000 {
            let u2 = units[i + 1];
            proof {
                assert(rest[1] == units@[i + 1]);
                assert(rest.skip(2) =~= units@.skip(i + 2));
            }
            let cp: u32 = 0x10000 + (u as u32 - 0xD800) * 0x400 + (u2 as u32 - 0xDC00);
            let ghost before = out@;
            push_utf8(&mut out, cp);
            proof {
                assert(out@ + utf16_to_utf8(units@.skip(i + 2)) =~= before + (utf8_encode(
                    cp as int,
                ) + utf16_to_utf8(units@.skip(i + 2))));
            }
            i = i + 2;
        } else if 0xD800 <= u && u < 0xE000 {
            proof {
                assert(rest.skip(1) =~= units@.skip(i + 1));
            }
            let ghost before = out@;
            out.push(0xEF);
            out.push(0xBF);
            out.push(0xBD);
            proof {
                assert(out@ =~= before + replacement());
                assert(out@ + utf16_to_utf8(units@.skip(i + 1)) =~= before + (replacement()
                    + utf16_to_utf8(units@.skip(i + 1))));
            }
            i = i + 1;
        } else {
            proof {
                assert(rest.skip(1) =~= units@.skip(i + 1));
            }
            let ghost before = out@;
            push_utf8(&mut out, u as u32);
            proof {
                assert(out@ + utf16_to_utf8(units@.skip(i + 1)) =~= before + (utf8_encode(
                    u as int,
                ) + utf16_to_utf8(units@.skip(i + 1))));
            }
            i = i + 1;
        }
    }
    proof {
        assert(units@.skip(n as int) =~= Seq::<u16>::empty());
        assert(utf16_to_utf8(units@) =~= out@);
    }
    out
}

/// How long the well-formed UTF-8 sequence at `s[i..]` is, or 0.
fn valid_len_at(s: &Vec<u8>, i: usize) -> (r: usize)
    requires
        i < s.len(),
    ensures
        r == utf8_valid_len(s@.skip(i as int)),
        i + r <= s.len(),
        r <= 4,
{
    let ghost rest = s@.skip(i as int);
    let n = s.len();
    let b0 = s[i];
    proof {
        assert(rest[0] == s@[i as int]);
        assert(rest.len() == n - i);
        if rest.len() >= 2 {
            assert(rest[1] == s@[i + 1]);
        }
        if rest.len() >= 3 {
            assert(rest[2] == s@[i + 2]);
        }
        if rest.len() >= 4 {
            assert(rest[3] == s@[i + 3]);
        }
    }
    if b0 < 0x80 {
        1
    } else if 0xC2 <= b0 && b0 <= 0xDF {
        if n - i >= 2 && 0x80 <= s[i + 1] && s[i + 1] < 0xC0 {
            2
        } else {
            0
        }
    } else if b0 == 0xE0 {
        if n - i >= 3 && 0xA0 <= s[i + 1] && s[i + 1] <= 0xBF && 0x80 <= s[i + 2] && s[i + 2]
            < 0xC0 {
            3
        } else {
            0
        }
    } else if (0xE1 <= b0 && b0 <= 0xEC) || (0xEE <= b0 && b0 <= 0xEF) {
        if n - i >= 3 && 0x80 <= s[i + 1] && s[i + 1] < 0xC0 && 0x80 <= s[i + 2] && s[i + 2]
            < 0xC0 {
            3
        } else {
            0
        }
    } else if b0 == 0xED {
        if n - i >= 3 && 0x80 <= s[i + 1] && s[i + 1] <= 0x9F && 0x80 <= s[i + 2] && s[i + 2]
            < 0xC0 {
            3
        } else {
            0
        }
    } else if b0 == 0xF0 {
        if n - i >= 4 && 0x90 <= s[i + 1] && s[i + 1] <= 0xBF && 0x80 <= s[i + 2] && s[i + 2]
            < 0xC0 && 0x80 <= s[i + 3] && s[i + 3] < 0xC0 {
            4
        } else {
            0
        }
    } else if 0xF1 <= b0 && b0 <= 0xF3 {
        if n - i >= 4 && 0x80 <= s[i + 1] && s[i + 1] < 0xC0 && 0x80 <= s[i + 2] && s[i + 2]
            < 0xC0 && 0x80 <= s[i + 3] && s[i + 3] < 0xC0 {
            4
        } else {
            0
        }
    } else if b0 == 0xF4 {
        if n - i >= 4 && 0x80 <= s[i + 1] && s[i + 1] <= 0x8F && 0x80 <= s[i + 2] && s[i + 2]
            < 0xC0 && 0x80 <= s[i + 3] && s[i + 3] < 0xC0 {
            4
        } else {
            0
        }
    } else {
        0
    }
}

/// The lossy UTF-8 cleaning of `s`, per [`utf8_lossy`].
pub fn utf8_lossy_clean(s: &Vec<u8>) -> (r: Vec<u8>)
    ensures
        r@ == utf8_lossy(s@),
{
    let mut out: Vec<u8> = Vec::new();
    let mut i: usize = 0;
    let n = s.len();
    proof {
        assert(s@.skip(0) =~= s@);
        assert(Seq::<u8>::empty() + utf8_lossy(s@) =~= utf8_lossy(s@));
    }
    while i < n
        invariant
            i <= n,
            n == s@.len(),
            utf8_lossy(s@) == out@ + utf8_lossy(s@.skip(i as int)),
        decreases n - i,
    {
        let ghost rest = s@.skip(i as int);
        let vl = valid_len_at(s, i);
        if vl > 0 {
            let ghost before = out@;
            let piece = subvec(s, i, vl);
            let mut piece = piece;
            out.append(&mut piece);
            proof {
                assert(rest.take(vl as int) =~= s@.subrange(i as int, i + vl));
                assert(rest.skip(vl as int) =~= s@.skip(i + vl));
                assert(out@ + utf8_lossy(s@.skip(i + vl)) =~= before + (rest.take(vl as int)
                    + utf8_lossy(rest.skip(vl as int))));
            }
            i = i + vl;
        } else {
            let ghost before = out@;
            out.push(0xEF);
            out.push(0xBF);
            out.push(0xBD);
            proof {
                assert(rest.skip(1) =~= s@.skip(i + 1));
                assert(out@ =~= before + replacement());
                assert(out@ + utf8_lossy(s@.skip(i + 1)) =~= before + (replacement() + utf8_lossy(
                    rest.skip(1),
                )));
            }
            i = i + 1;
        }
    }
    proof {
        assert(s@.skip(n as int) =~= Seq::<u8>::empty());
        assert(utf8_lossy(s@) =~= out@);
    }
    out
}

/// The prefix of `l` up to the first 0x0000 or 0xFFFF unit.
pub fn take_units_prefix(l: &Vec<u16>) -> (r: Vec<u16>)
    ensures
        r@ == units_prefix(l@),
{
    let mut out: Vec<u16> = Vec::new();
    let mut i: usize = 0;
    let n = l.len();
    proof {
        assert(l@.skip(0) =~= l@);
        assert(Seq::<u16>::empty() + units_prefix(l@) =~= units_prefix(l@));
    }
    while i < n
        invariant
            i <= n,
            n == l@.len(),
            units_prefix(l@) == out@ + units_prefix(l@.skip(i as int)),
            forall|j: int| 0 <= j < i ==> l@[j] != 0x0000 && l@[j] != 0xFFFF,
        decreases n - i,
    {
        let ghost rest = l@.skip(i as int);
        let u = l[i];
        proof {
            assert(rest[0] == l@[i as int]);
            assert(rest.skip(1) =~= l@.skip(i + 1));
        }
        if u == 0x0000 || u == 0xFFFF {
            proof {
                assert(units_prefix(rest) =~= Seq::<u16>::empty());
                assert(units_prefix(l@) =~= out@);
            }
            return out;
        }
        let ghost before = out@;
        out.push(u);
        proof {
            assert(out@ =~= before + seq![u]);
            assert(out@ + units_prefix(l@.skip(i + 1)) =~= before + (seq![u] + units_prefix(
                rest.skip(1),
            )));
        }
        i = i + 1;
    }
    proof {
        assert(l@.skip(n as int) =~= Seq::<u16>::empty());
        assert(units_prefix(l@) =~= out@);
    }
    out
}

/// The prefix of `s` up to the first 0x00 or 0x20 byte.
pub fn take_short_prefix(s: &Vec<u8>) -> (r: Vec<u8>)
    ensures
        r@ == short_prefix(s@),
{
    let mut out: Vec<u8> = Vec::new();
    let mut i: usize = 0;
    let n = s.len();
    proof {
        assert(s@.skip(0) =~= s@);
        assert(Seq::<u8>::empty() + short_prefix(s@) =~= short_prefix(s@));
    }
    while i < n
        invariant
            i <= n,
            n == s@.len(),
            short_prefix(s@) == out@ + short_prefix(s@.skip(i as int)),
        decreases n - i,
    {
        let ghost rest = s@.skip(i as int);
        let b = s[i];
        proof {
            assert(rest[0] == s@[i as int]);
            assert(rest.skip(1) =~= s@.skip(i + 1));
        }
        if b == 0x00 || b == 0x20 {
            proof {
                assert(short_prefix(rest) =~= Seq::<u8>::empty());
                assert(short_prefix(s@) =~= out@);
            }
            return out;
        }
        let ghost before = out@;
        out.push(b);
        proof {
            assert(out@ =~= before + seq![b]);
            assert(out@ + short_prefix(s@.skip(i + 1)) =~= before + (seq![b] + short_prefix(
                rest.skip(1),
            )));
        }
        i = i + 1;
    }
    proof {
        assert(s@.skip(n as int) =~= Seq::<u8>::empty());
        assert(short_prefix(s@) =~= out@);
    }
    out
}

} // verus!
