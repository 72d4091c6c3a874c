//! Properties that relate several operations, stated over the spec functions
//! that the operations' contracts use, and proved.

use vstd::prelude::*;
use crate::words::{
    word_bit, bit_at, low_mask, fits, fragment_in, range_value, bits_written,
    ranges_swapped, updated_with, lemma_range_value_unique, lemma_fits_bits, lemma_masked_bits,
    lemma_seq_ext, lemma_zero_bits, lemma_locate,
};
use crate::bitvec::lemma_spliced;
use crate::ones::{
    word_ones, ones_of, total_ones, total_zeros, lemma_ones_of_len, lemma_total_bounds,
};

verus! {

/// The first bit of fragment `index` of width `width` is not negative.
proof fn lemma_fragment_start(index: int, width: int)
    requires
        0 <= index,
        0 <= width,
    ensures
        0 <= index * width,
{
    assert(0 <= index * width) by (nonlinear_arith)
        requires
            0 <= index,
            0 <= width,
    ;
}

/// Fragments of one width with different indices do not overlap.
proof fn lemma_fragments_disjoint(i: int, j: int, width: int)
    requires
        0 <= i,
        0 <= j,
        0 <= width,
        i != j,
    ensures
        i * width + width <= j * width || j * width + width <= i * width,
{
    if i < j {
        assert(i * width + width <= j * width) by (nonlinear_arith)
            requires
                i < j,
                0 <= width,
        ;
    } else {
        assert(j * width + width <= i * width) by (nonlinear_arith)
            requires
                j < i,
                0 <= width,
        ;
    }
}

/// After the range `[begin, begin + len)` is written with a value of at most
/// `len` bits, reading the range gives that value.
proof fn lemma_read_written(old: Seq<u64>, new: Seq<u64>, begin: int, len: int, v: u64)
    requires
        0 <= begin,
        0 <= len <= 64,
        begin + len <= 64 * old.len(),
        fits(v, len as u64),
        bits_written(old, new, begin, len, v),
    ensures
        range_value(new, begin, len) == v,
{
    lemma_fits_bits(v, len as u64);
    assert forall|k: int| 0 <= k < 64 implies #[trigger] word_bit(v, k) == (k < len && bit_at(new, begin + k)) by {
        if k < len {
            assert(bit_at(new, begin + k) == word_bit(v, begin + k - begin));
        }
    }
    lemma_range_value_unique(new, begin, len, v);
}

/// Round trip: writing a value of at most `width` bits into fragment `index`
/// and reading that fragment back gives the value.
pub proof fn law_fragment_round_trip(old: Seq<u64>, new: Seq<u64>, index: int, width: int, v: u64)
    requires
        fragment_in(old, index, width),
        fits(v, width as u64),
        bits_written(old, new, index * width, width, v),
    ensures
        range_value(new, index * width, width) == v,
{
    lemma_fragment_start(index, width);
    lemma_read_written(old, new, index * width, width, v);
}

/// Initialising fragment `index` of a zeroed array with `v` twice is allowed
/// both times (the fragment is `0`, then `v`), leaves the fragment equal to `v`
/// after each call, changes nothing the second time, and leaves every other
/// fragment of the same width as it was.
pub proof fn law_init_idempotent(s0: Seq<u64>, s1: Seq<u64>, s2: Seq<u64>, index: int, width: int, v: u64)
    requires
        fragment_in(s0, index, width),
        fits(v, width as u64),
        forall|w: int| 0 <= w < s0.len() ==> #[trigger] s0[w] == 0,
        bits_written(s0, s1, index * width, width, v),
        bits_written(s1, s2, index * width, width, v),
    ensures
        range_value(s0, index * width, width) == 0,
        range_value(s1, index * width, width) == v,
        range_value(s2, index * width, width) == v,
        s2 == s1,
        forall|j: int|
            j != index && fragment_in(s0, j, width) ==> #[trigger] range_value(s2, j * width, width)
                == range_value(s0, j * width, width),
{
    let b = index * width;
    lemma_fragment_start(index, width);
    lemma_zero_bits();
    assert forall|k: int| 0 <= k < 64 implies #[trigger] word_bit(0u64, k) == (k < width && bit_at(s0, b + k)) by {
        if k < width {
            lemma_locate(b + k);
        }
    }
    lemma_range_value_unique(s0, b, width, 0);
    lemma_read_written(s0, s1, b, width, v);
    lemma_read_written(s1, s2, b, width, v);
    assert forall|i: int| 0 <= i < 64 * s1.len() implies #[trigger] bit_at(s2, i) == bit_at(s1, i) by {}
    lemma_seq_ext(s2, s1);
    assert forall|j: int| j != index && fragment_in(s0, j, width) implies #[trigger] range_value(s2, j * width, width)
        == range_value(s0, j * width, width) by {
        let c = j * width;
        lemma_fragment_start(j, width);
        lemma_fragments_disjoint(index, j, width);
        lemma_spliced(s0, c, width as u64);
        let r = range_value(s0, c, width);
        assert forall|k: int| 0 <= k < 64 implies #[trigger] word_bit(r, k) == (k < width && bit_at(s2, c + k)) by {
            if k < width {
                assert(bit_at(s1, c + k) == bit_at(s0, c + k));
            }
        }
        lemma_range_value_unique(s2, c, width, r);
    }
}

/// Swapping the same two fragments twice restores the array.
pub proof fn law_swap_involution(s0: Seq<u64>, s1: Seq<u64>, s2: Seq<u64>, index1: int, index2: int, width: int)
    requires
        fragment_in(s0, index1, width),
        fragment_in(s0, index2, width),
        ranges_swapped(s0, s1, index1 * width, index2 * width, width),
        ranges_swapped(s1, s2, index1 * width, index2 * width, width),
    ensures
        s2 == s0,
{
    let b1 = index1 * width;
    let b2 = index2 * width;
    lemma_fragment_start(index1, width);
    lemma_fragment_start(index2, width);
    if index1 != index2 {
        lemma_fragments_disjoint(index1, index2, width);
    }
    assert forall|i: int| 0 <= i < 64 * s0.len() implies #[trigger] bit_at(s2, i) == bit_at(s0, i) by {
        if b2 <= i < b2 + width {
            assert(bit_at(s1, b1 + (i - b2)) == bit_at(s0, i));
        } else if b1 <= i < b1 + width {
            assert(bit_at(s1, b2 + (i - b1)) == bit_at(s0, i));
        }
    }
    lemma_seq_ext(s2, s0);
}

/// A conditional update that writes nothing leaves the words as they were; one
/// that writes `v` leaves the range holding `v` masked to `len` bits.
pub proof fn law_change_then_read(old: Seq<u64>, new: Seq<u64>, begin: int, len: int, o: Option<u64>)
    requires
        0 <= begin,
        0 <= len <= 64,
        begin + len <= 64 * old.len(),
        updated_with(old, new, begin, len, o),
    ensures
        o is None ==> new == old,
        o is Some ==> range_value(new, begin, len) == o->0 & low_mask(len as u64),
{
    if let Some(v) = o {
        let m = v & low_mask(len as u64);
        lemma_masked_bits(v, len as u64);
        assert forall|i: int| 0 <= i < 64 * old.len() implies #[trigger] bit_at(new, i) == if begin <= i < begin + len {
            word_bit(m, i - begin)
        } else {
            bit_at(old, i)
        } by {}
        lemma_read_written(old, new, begin, len, m);
    }
}

/// After a conditional copy that copied, the range of the destination holds
/// the value that the range of the source held.
pub proof fn law_copy_then_read(old: Seq<u64>, new: Seq<u64>, src: Seq<u64>, begin: int, len: int)
    requires
        0 <= begin,
        0 <= len <= 64,
        begin + len <= 64 * old.len(),
        bits_written(old, new, begin, len, range_value(src, begin, len)),
    ensures
        range_value(new, begin, len) == range_value(src, begin, len),
{
    let r = range_value(src, begin, len);
    lemma_spliced(src, begin, len as u64);
    assert forall|k: int| len <= k < 64 implies !#[trigger] word_bit(r, k) by {}
    assert(fits(r, len as u64)) by {
        crate::words::lemma_fits_from_bits(r, len as u64);
    }
    lemma_read_written(old, new, begin, len, r);
}

proof fn lemma_word_ones_sorted(w: u64, base: int, k: int)
    requires
        0 <= k <= 64,
    ensures
        forall|a: int| 0 <= a < word_ones(w, base, k).len() ==> base + k <= #[trigger] word_ones(w, base, k)[a] < base + 64,
        forall|a: int, b: int|
            0 <= a < b < word_ones(w, base, k).len() ==> #[trigger] word_ones(w, base, k)[a] < #[trigger] word_ones(w, base, k)[b],
    decreases 64 - k,
{
    if k < 64 {
        lemma_word_ones_sorted(w, base, k + 1);
        let rest = word_ones(w, base, k + 1);
        if word_bit(w, k) {
            let all = word_ones(w, base, k);
            assert(all == seq![base + k].add(rest));
            assert forall|a: int| 0 < a < all.len() implies #[trigger] all[a] == rest[a - 1] by {}
        }
    }
}

proof fn lemma_ones_of_sorted(s: Seq<u64>, base: int)
    ensures
        forall|a: int| 0 <= a < ones_of(s, base).len() ==> base <= #[trigger] ones_of(s, base)[a] < base + 64 * s.len(),
        forall|a: int, b: int|
            0 <= a < b < ones_of(s, base).len() ==> #[trigger] ones_of(s, base)[a] < #[trigger] ones_of(s, base)[b],
    decreases s.len(),
{
    if s.len() > 0 {
        lemma_ones_of_sorted(s.drop_first(), base + 64);
        lemma_word_ones_sorted(s[0], base, 0);
        let first = word_ones(s[0], base, 0);
        let rest = ones_of(s.drop_first(), base + 64);
        let all = ones_of(s, base);
        assert(all == first.add(rest));
        assert forall|a: int| first.len() <= a < all.len() implies #[trigger] all[a] == rest[a - first.len()] by {}
        assert forall|a: int| 0 <= a < first.len() implies #[trigger] all[a] == first[a] by {}
    }
}

/// The number of set bits equals the number of indices the set-bit iterator
/// yields; those indices come in strictly increasing order and are indices of
/// set bits; set and clear bits together are all `64 * s.len()` bits.
pub proof fn law_count_matches_iteration(s: Seq<u64>)
    ensures
        ones_of(s, 0).len() == total_ones(s),
        forall|a: int, b: int| 0 <= a < b < ones_of(s, 0).len() ==> #[trigger] ones_of(s, 0)[a] < #[trigger] ones_of(s, 0)[b],
        forall|a: int| 0 <= a < ones_of(s, 0).len() ==> 0 <= #[trigger] ones_of(s, 0)[a] < 64 * s.len(),
        total_ones(s) + total_zeros(s) == 64 * s.len(),
{
    lemma_ones_of_len(s, 0);
    lemma_ones_of_sorted(s, 0);
    lemma_total_bounds(s);
}

} // verus!
