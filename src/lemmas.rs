//! Facts about single words, proved by the bit-vector solver. Each one says
//! what bit `j` (or `k`) of a word built by shifts and masks is.

use vstd::prelude::*;
use crate::words::low_mask;

verus! {

/// Reading bits that lie in one word.
pub proof fn lemma_get_within(w: u64, off: u64, len: u64, k: u64)
    requires
        off < 64,
        len <= 64,
        off + len <= 64,
        k < 64,
    ensures
        ((((w >> off) & low_mask(len)) >> k) & 1u64 == 1u64) == (k < len && ((w >> ((off + k) as u64)) & 1u64 == 1u64)),
{
    let m = low_mask(len);
    assert(m == (if len >= 64 { 0xffff_ffff_ffff_ffffu64 } else { ((1u64 << len) - 1u64) as u64 }));
    assert(((((w >> off) & m) >> k) & 1u64 == 1u64) == (k < len && ((w >> ((off + k) as u64)) & 1u64 == 1u64)))
        by (bit_vector)
        requires
            off < 64,
            len <= 64,
            off + len <= 64,
            k < 64,
            m == (if len >= 64 { 0xffff_ffff_ffff_ffffu64 } else { ((1u64 << len) - 1u64) as u64 }),
    ;
}

/// Reading bits that straddle two words `w1`, `w2`.
pub proof fn lemma_get_straddle(w1: u64, w2: u64, off: u64, len: u64, k: u64)
    requires
        off < 64,
        len <= 64,
        off + len > 64,
        k < 64,
    ensures
        ({
            let shift = (64 - off) as u64;
            let r = (w1 >> off) | ((w2 & (low_mask(len) >> shift)) << shift);
            &&& k >= len ==> (r >> k) & 1u64 == 0u64
            &&& k < len && off + k < 64 ==> ((r >> k) & 1u64 == 1u64) == ((w1 >> ((off + k) as u64)) & 1u64 == 1u64)
            &&& k < len && off + k >= 64 ==> ((r >> k) & 1u64 == 1u64) == ((w2 >> ((k - shift) as u64)) & 1u64 == 1u64)
        }),
{
    let m = low_mask(len);
    let shift = (64 - off) as u64;
    assert(m == ((1u64 << len) - 1u64) as u64 || len == 64 && m == 0xffff_ffff_ffff_ffffu64);
    assert({
        let r = (w1 >> off) | ((w2 & (m >> shift)) << shift);
        &&& k >= len ==> (r >> k) & 1u64 == 0u64
        &&& k < len && off + k < 64 ==> ((r >> k) & 1u64 == 1u64) == ((w1 >> ((off + k) as u64)) & 1u64 == 1u64)
        &&& k < len && off + k >= 64 ==> ((r >> k) & 1u64 == 1u64) == ((w2 >> ((k - shift) as u64)) & 1u64 == 1u64)
    }) by (bit_vector)
        requires
            off < 64,
            len <= 64,
            off + len > 64,
            k < 64,
            shift == 64 - off,
            (len < 64 && m == ((1u64 << len) - 1u64) as u64) || (len == 64 && m == 0xffff_ffff_ffff_ffffu64),
    ;
}

/// Writing the low `len` bits of `v` at `off` in a word; bits past the word are dropped.
pub proof fn lemma_set_low(w: u64, v: u64, off: u64, len: u64, j: u64)
    requires
        off < 64,
        len <= 64,
        j < 64,
    ensures
        ({
            let m = low_mask(len);
            let r = (w & !(m << off)) | ((v & m) << off);
            ((r >> j) & 1u64 == 1u64) == if off <= j && j < off + len {
                (v >> ((j - off) as u64)) & 1u64 == 1u64
            } else {
                (w >> j) & 1u64 == 1u64
            }
        }),
{
    let m = low_mask(len);
    assert(m == ((1u64 << len) - 1u64) as u64 || len == 64 && m == 0xffff_ffff_ffff_ffffu64);
    assert({
        let r = (w & !(m << off)) | ((v & m) << off);
        ((r >> j) & 1u64 == 1u64) == if off <= j && j < off + len {
            (v >> ((j - off) as u64)) & 1u64 == 1u64
        } else {
            (w >> j) & 1u64 == 1u64
        }
    }) by (bit_vector)
        requires
            off < 64,
            len <= 64,
            j < 64,
            (len < 64 && m == ((1u64 << len) - 1u64) as u64) || (len == 64 && m == 0xffff_ffff_ffff_ffffu64),
    ;
}

/// Writing into the second word the bits of `v` that did not fit in the first one.
pub proof fn lemma_set_high(w: u64, v: u64, shift: u64, len: u64, j: u64)
    requires
        0 < shift < 64,
        len <= 64,
        j < 64,
    ensures
        ({
            let m = low_mask(len);
            let r = (w & !(m >> shift)) | ((v & m) >> shift);
            ((r >> j) & 1u64 == 1u64) == if j + shift < len {
                (v >> ((j + shift) as u64)) & 1u64 == 1u64
            } else {
                (w >> j) & 1u64 == 1u64
            }
        }),
{
    let m = low_mask(len);
    assert(m == ((1u64 << len) - 1u64) as u64 || len == 64 && m == 0xffff_ffff_ffff_ffffu64);
    assert({
        let r = (w & !(m >> shift)) | ((v & m) >> shift);
        ((r >> j) & 1u64 == 1u64) == if j + shift < len {
            (v >> ((j + shift) as u64)) & 1u64 == 1u64
        } else {
            (w >> j) & 1u64 == 1u64
        }
    }) by (bit_vector)
        requires
            0 < shift < 64,
            len <= 64,
            j < 64,
            (len < 64 && m == ((1u64 << len) - 1u64) as u64) || (len == 64 && m == 0xffff_ffff_ffff_ffffu64),
    ;
}

/// Xor-ing and or-ing `v`, of at most `len` bits, at `off` in a word.
pub proof fn lemma_xor_or_low(w: u64, v: u64, off: u64, len: u64, j: u64)
    requires
        off < 64,
        len <= 64,
        j < 64,
        v <= low_mask(len),
    ensures
        ({
            let in_range = off <= j && j < off + len;
            let vb = (v >> ((j - off) as u64)) & 1u64 == 1u64;
            let wb = (w >> j) & 1u64 == 1u64;
            &&& (((w ^ (v << off)) >> j) & 1u64 == 1u64) == if in_range { wb != vb } else { wb }
            &&& (((w | (v << off)) >> j) & 1u64 == 1u64) == if in_range { wb || vb } else { wb }
        }),
{
    let m = low_mask(len);
    assert(m == ((1u64 << len) - 1u64) as u64 || len == 64 && m == 0xffff_ffff_ffff_ffffu64);
    assert({
        let in_range = off <= j && j < off + len;
        let vb = (v >> ((j - off) as u64)) & 1u64 == 1u64;
        let wb = (w >> j) & 1u64 == 1u64;
        &&& (((w ^ (v << off)) >> j) & 1u64 == 1u64) == if in_range { wb != vb } else { wb }
        &&& (((w | (v << off)) >> j) & 1u64 == 1u64) == if in_range { wb || vb } else { wb }
    }) by (bit_vector)
        requires
            off < 64,
            len <= 64,
            j < 64,
            v <= m,
            (len < 64 && m == ((1u64 << len) - 1u64) as u64) || (len == 64 && m == 0xffff_ffff_ffff_ffffu64),
    ;
}

/// Xor-ing and or-ing into the second word the bits of `v` that did not fit in the first one.
pub proof fn lemma_xor_or_high(w: u64, v: u64, shift: u64, len: u64, j: u64)
    requires
        0 < shift < 64,
        len <= 64,
        j < 64,
        v <= low_mask(len),
    ensures
        ({
            let in_range = j + shift < len;
            let vb = (v >> ((j + shift) as u64)) & 1u64 == 1u64;
            let wb = (w >> j) & 1u64 == 1u64;
            &&& (((w ^ (v >> shift)) >> j) & 1u64 == 1u64) == if in_range { wb != vb } else { wb }
            &&& (((w | (v >> shift)) >> j) & 1u64 == 1u64) == if in_range { wb || vb } else { wb }
        }),
{
    let m = low_mask(len);
    assert(m == ((1u64 << len) - 1u64) as u64 || len == 64 && m == 0xffff_ffff_ffff_ffffu64);
    assert({
        let in_range = j + shift < len;
        let vb = (v >> ((j + shift) as u64)) & 1u64 == 1u64;
        let wb = (w >> j) & 1u64 == 1u64;
        &&& (((w ^ (v >> shift)) >> j) & 1u64 == 1u64) == if in_range { wb != vb } else { wb }
        &&& (((w | (v >> shift)) >> j) & 1u64 == 1u64) == if in_range { wb || vb } else { wb }
    }) by (bit_vector)
        requires
            0 < shift < 64,
            len <= 64,
            j < 64,
            v <= m,
            (len < 64 && m == ((1u64 << len) - 1u64) as u64) || (len == 64 && m == 0xffff_ffff_ffff_ffffu64),
    ;
}

/// Testing, setting, clearing and flipping the single bit `t` of a word.
pub proof fn lemma_single_bit(w: u64, t: u64, j: u64)
    requires
        t < 64,
        j < 64,
    ensures
        ((w & (1u64 << t)) != 0) == ((w >> t) & 1u64 == 1u64),
        (((w | (1u64 << t)) >> j) & 1u64 == 1u64) == (j == t || (w >> j) & 1u64 == 1u64),
        (((w & !(1u64 << t)) >> j) & 1u64 == 1u64) == (j != t && (w >> j) & 1u64 == 1u64),
        (((w ^ (1u64 << t)) >> j) & 1u64 == 1u64) == ((j == t) != ((w >> j) & 1u64 == 1u64)),
{
    assert(((w & (1u64 << t)) != 0) == ((w >> t) & 1u64 == 1u64)
        && (((w | (1u64 << t)) >> j) & 1u64 == 1u64) == (j == t || (w >> j) & 1u64 == 1u64)
        && (((w & !(1u64 << t)) >> j) & 1u64 == 1u64) == (j != t && (w >> j) & 1u64 == 1u64)
        && (((w ^ (1u64 << t)) >> j) & 1u64 == 1u64) == ((j == t) != ((w >> j) & 1u64 == 1u64)))
        by (bit_vector)
        requires
            t < 64,
            j < 64,
    ;
}

} // verus!
