//! Word arithmetic and the bit-level model that every contract of the crate
//! speaks of.

use vstd::prelude::*;

verus! {

/// Bit `k` (`0 <= k < 64`) of the word `w`.
pub open spec fn word_bit(w: u64, k: int) -> bool {
    (w >> (k as u64)) & 1u64 == 1u64
}

/// Bit `i` of the bit array stored in the words `s`: bit `i % 64` of word `i / 64`.
pub open spec fn bit_at(s: Seq<u64>, i: int) -> bool {
    word_bit(s[i / 64], i % 64)
}

/// The word whose `len` lowest bits are set and whose other bits are clear.
pub open spec fn low_mask(len: u64) -> u64 {
    if len >= 64 {
        0xffff_ffff_ffff_ffffu64
    } else {
        ((1u64 << len) - 1u64) as u64
    }
}

/// `v` has no bit set at position `len` or above, i.e. `v < 2^len`.
pub open spec fn fits(v: u64, len: u64) -> bool {
    v <= low_mask(len)
}

/// Returns the smallest `q` with `q * d >= n`.
pub fn ceiling_div(n: usize, d: usize) -> (q: usize)
    requires
        d > 0,
    ensures
        q as int * d >= n,
        q > 0 ==> (q - 1) * d < n,
        q == (n + d - 1) / (d as int),
{
    let q = n / d;
    let r = n % d;
    proof {
        vstd::arithmetic::div_mod::lemma_fundamental_div_mod(n as int, d as int);
    }
    if r == 0 {
        proof {
            vstd::arithmetic::div_mod::lemma_fundamental_div_mod_converse(
                n + d - 1, d as int, q as int, d - 1);
            assert(q * d == n && (q - 1) * d < n) by (nonlinear_arith)
                requires
                    n == d * q,
                    d > 0,
            ;
        }
        q
    } else {
        proof {
            assert((q + 1) * d + (r - 1) == n + d - 1 && q < n && q * d < n && (q + 1) * d >= n)
                by (nonlinear_arith)
                requires
                    n == d * q + r,
                    0 < r < d,
            ;
            vstd::arithmetic::div_mod::lemma_fundamental_div_mod_converse(
                n + d - 1, d as int, q + 1, r - 1);
        }
        q + 1
    }
}

/// Returns the word with exactly the `how_many` lowest bits set
/// (all bits for `how_many == 64`).
pub fn n_lowest_bits(how_many: u8) -> (r: u64)
    requires
        how_many <= 64,
    ensures
        r == low_mask(how_many as u64),
        forall|k: int| 0 <= k < 64 ==> #[trigger] word_bit(r, k) == (k < how_many),
{
    let r = if how_many >= 64 {
        u64::MAX
    } else {
        assert(1u64 << how_many >= 1) by (bit_vector) requires how_many < 64;
        (1u64 << how_many) - 1
    };
    proof {
        assert forall|k: int| 0 <= k < 64 implies #[trigger] word_bit(r, k) == (k < how_many) by {
            lemma_mask_bit(how_many as u64, k as u64);
        }
    }
    r
}

/// Bit `k` of `low_mask(len)` is set exactly below `len`.
pub proof fn lemma_mask_bit(len: u64, k: u64)
    requires
        len <= 64,
        k < 64,
    ensures
        ((low_mask(len) >> k) & 1u64 == 1u64) == (k < len),
{
    assert(((if len >= 64 { 0xffff_ffff_ffff_ffffu64 } else { ((1u64 << len) - 1u64) as u64 }) >> k)
        & 1u64 == 1u64 <==> k < len) by (bit_vector)
        requires
            len <= 64,
            k < 64,
    ;
}


/// `r` holds bits `[begin, begin + len)` of `s`, bit `begin + k` as bit `k`,
/// with every bit at position `len` or above clear.
pub open spec fn is_range_value(s: Seq<u64>, begin: int, len: int, r: u64) -> bool {
    forall|k: int| 0 <= k < 64 ==> #[trigger] word_bit(r, k) == (k < len && bit_at(s, begin + k))
}

/// The value of bits `[begin, begin + len)` of `s`, right-aligned.
pub open spec fn range_value(s: Seq<u64>, begin: int, len: int) -> u64 {
    choose|r: u64| is_range_value(s, begin, len, r)
}

/// `new` is `old` with bits `[begin, begin + len)` replaced by the `len` lowest
/// bits of `v`; every other bit is kept.
pub open spec fn bits_written(old: Seq<u64>, new: Seq<u64>, begin: int, len: int, v: u64) -> bool {
    &&& new.len() == old.len()
    &&& forall|i: int|
        0 <= i < 64 * old.len() ==> #[trigger] bit_at(new, i) == if begin <= i < begin + len {
            word_bit(v, i - begin)
        } else {
            bit_at(old, i)
        }
}

/// `new` is `old` with bits `[begin, begin + len)` flipped where the matching
/// bit of `v` is set; every other bit is kept.
pub open spec fn bits_xored(old: Seq<u64>, new: Seq<u64>, begin: int, len: int, v: u64) -> bool {
    &&& new.len() == old.len()
    &&& forall|i: int|
        0 <= i < 64 * old.len() ==> #[trigger] bit_at(new, i) == if begin <= i < begin + len {
            bit_at(old, i) != word_bit(v, i - begin)
        } else {
            bit_at(old, i)
        }
}

/// `new` is `old` with bit `b` equal to `value`; every other bit is kept.
pub open spec fn bit_changed(old: Seq<u64>, new: Seq<u64>, b: int, value: bool) -> bool {
    &&& new.len() == old.len()
    &&& forall|i: int|
        0 <= i < 64 * old.len() ==> #[trigger] bit_at(new, i) == if i == b {
            value
        } else {
            bit_at(old, i)
        }
}

/// Fragment `index` of width `width` (bits `[index * width, index * width + width)`)
/// lies inside the words `s`, and its first bit index fits in a `usize`.
pub open spec fn fragment_in(s: Seq<u64>, index: int, width: int) -> bool {
    &&& 0 <= width <= 64
    &&& 0 <= index
    &&& index * width < 64 * s.len()
    &&& index * width + width <= 64 * s.len()
    &&& index * width <= usize::MAX
}

/// `new` is `old` with the ranges of `len` bits at `b1` and `b2` exchanged.
pub open spec fn ranges_swapped(old: Seq<u64>, new: Seq<u64>, b1: int, b2: int, len: int) -> bool {
    &&& new.len() == old.len()
    &&& forall|i: int|
        0 <= i < 64 * old.len() ==> #[trigger] bit_at(new, i) == if b2 <= i < b2 + len {
            bit_at(old, b1 + (i - b2))
        } else if b1 <= i < b1 + len {
            bit_at(old, b2 + (i - b1))
        } else {
            bit_at(old, i)
        }
}

/// What a conditional update leaves: `old` itself where nothing is to be written,
/// else `old` with bits `[begin, begin + len)` replaced by the low bits of the value.
pub open spec fn updated_with(old: Seq<u64>, new: Seq<u64>, begin: int, len: int, o: Option<u64>) -> bool {
    match o {
        None => new == old,
        Some(v) => bits_written(old, new, begin, len, v),
    }
}

/// The zero word has no bit set.
pub proof fn lemma_zero_bits()
    ensures
        forall|k: int| 0 <= k < 64 ==> !#[trigger] word_bit(0u64, k),
{
    assert forall|k: int| 0 <= k < 64 implies !#[trigger] word_bit(0u64, k) by {
        let kk = k as u64;
        assert((0u64 >> kk) & 1u64 == 0u64) by (bit_vector);
    }
}

/// The position of bit `i` of a bit array: word `i / 64`, bit `i % 64` of it.
pub proof fn lemma_locate(i: int)
    requires
        0 <= i,
    ensures
        i == 64 * (i / 64) + i % 64,
        0 <= i % 64 < 64,
        0 <= i / 64,
{
    vstd::arithmetic::div_mod::lemma_fundamental_div_mod(i, 64);
}

/// Bit `k` of word `w` of a bit array is bit `64 * w + k` of the array.
pub proof fn lemma_word_bit_at(s: Seq<u64>, w: int, k: int)
    requires
        0 <= w,
        0 <= k < 64,
    ensures
        bit_at(s, 64 * w + k) == word_bit(s[w], k),
{
    vstd::arithmetic::div_mod::lemma_fundamental_div_mod_converse(64 * w + k, 64, w, k);
}

proof fn lemma_shr_eq(a: u64, b: u64, n: u64)
    requires
        n <= 64,
        forall|k: int| n <= k < 64 ==> #[trigger] word_bit(a, k) == word_bit(b, k),
    ensures
        a >> n == b >> n,
    decreases 64 - n,
{
    if n == 64 {
        assert(a >> 64u64 == 0 && b >> 64u64 == 0) by (bit_vector);
    } else {
        lemma_shr_eq(a, b, (n + 1) as u64);
        assert(word_bit(a, n as int) == word_bit(b, n as int));
        let m = (n + 1) as u64;
        assert(a >> n == b >> n) by (bit_vector)
            requires
                n < 64,
                m == n + 1,
                a >> m == b >> m,
                ((a >> n) & 1u64 == 1u64) == ((b >> n) & 1u64 == 1u64),
        ;
    }
}

/// Two words with the same bits are equal.
pub proof fn lemma_word_ext(a: u64, b: u64)
    requires
        forall|k: int| 0 <= k < 64 ==> #[trigger] word_bit(a, k) == word_bit(b, k),
    ensures
        a == b,
{
    lemma_shr_eq(a, b, 0);
    assert(a >> 0u64 == a && b >> 0u64 == b) by (bit_vector);
}

/// Two bit arrays of the same length with the same bits are equal.
pub proof fn lemma_seq_ext(a: Seq<u64>, b: Seq<u64>)
    requires
        a.len() == b.len(),
        forall|i: int| 0 <= i < 64 * a.len() ==> #[trigger] bit_at(a, i) == bit_at(b, i),
    ensures
        a == b,
{
    assert forall|w: int| 0 <= w < a.len() implies a[w] == b[w] by {
        assert forall|k: int| 0 <= k < 64 implies #[trigger] word_bit(a[w], k) == word_bit(b[w], k) by {
            lemma_word_bit_at(a, w, k);
            lemma_word_bit_at(b, w, k);
            assert(64 * w + k < 64 * a.len());
            assert(bit_at(a, 64 * w + k) == bit_at(b, 64 * w + k));
        }
        lemma_word_ext(a[w], b[w]);
    }
    assert(a =~= b);
}

/// A value of a range is unique: `range_value` is the one that `is_range_value` describes.
pub proof fn lemma_range_value_unique(s: Seq<u64>, begin: int, len: int, r: u64)
    requires
        is_range_value(s, begin, len, r),
    ensures
        range_value(s, begin, len) == r,
{
    let c = range_value(s, begin, len);
    assert(is_range_value(s, begin, len, c));
    assert forall|k: int| 0 <= k < 64 implies #[trigger] word_bit(c, k) == word_bit(r, k) by {
        assert(word_bit(c, k) == (k < len && bit_at(s, begin + k)));
        assert(word_bit(r, k) == (k < len && bit_at(s, begin + k)));
    }
    lemma_word_ext(c, r);
}

/// A value that fits in `len` bits has no bit set at `len` or above.
pub proof fn lemma_fits_bits(v: u64, len: u64)
    requires
        len <= 64,
        fits(v, len),
    ensures
        forall|k: int| len <= k < 64 ==> !#[trigger] word_bit(v, k),
{
    assert forall|k: int| len <= k < 64 implies !#[trigger] word_bit(v, k) by {
        let kk = k as u64;
        assert(!((v >> kk) & 1u64 == 1u64)) by (bit_vector)
            requires
                len <= kk < 64,
                v <= (if len >= 64 { 0xffff_ffff_ffff_ffffu64 } else { ((1u64 << len) - 1u64) as u64 }),
        ;
    }
}

/// A value with no bit set at `len` or above fits in `len` bits.
pub proof fn lemma_fits_from_bits(v: u64, len: u64)
    requires
        len <= 64,
        forall|k: int| len <= k < 64 ==> !#[trigger] word_bit(v, k),
    ensures
        fits(v, len),
{
    let m = low_mask(len);
    assert forall|k: int| 0 <= k < 64 implies #[trigger] word_bit(v & m, k) == word_bit(v, k) by {
        lemma_masked_bits(v, len);
    }
    lemma_word_ext(v & m, v);
    lemma_masked_bits(v, len);
}

/// Masking keeps exactly the bits below `len`.
pub proof fn lemma_masked_bits(v: u64, len: u64)
    requires
        len <= 64,
    ensures
        forall|k: int| 0 <= k < 64 ==> #[trigger] word_bit(v & low_mask(len), k) == (k < len && word_bit(v, k)),
        fits(v & low_mask(len), len),
{
    let m = low_mask(len);
    assert forall|k: int| 0 <= k < 64 implies #[trigger] word_bit(v & m, k) == (k < len && word_bit(v, k)) by {
        let kk = k as u64;
        lemma_mask_bit(len, kk);
        assert(((v & m) >> kk) & 1u64 == 1u64 <==> ((m >> kk) & 1u64 == 1u64 && (v >> kk) & 1u64 == 1u64))
            by (bit_vector);
    }
    assert(v & m <= m) by (bit_vector);
}

} // verus!
