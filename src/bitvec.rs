//! Bit and fragment access on arrays of 64-bit words.

use vstd::prelude::*;
use crate::words::{
    ceiling_div, lemma_zero_bits, n_lowest_bits, word_bit, bit_at, low_mask, fits, range_value, is_range_value,
    bits_written, bits_xored, bit_changed, fragment_in, ranges_swapped, updated_with, lemma_locate,
    lemma_range_value_unique,
};
use crate::ones::{BitOnesIterator, total_ones, total_zeros, ones_of, count_ones_in, count_zeros_in};
use crate::lemmas::{
    lemma_get_within, lemma_get_straddle, lemma_set_low, lemma_set_high, lemma_xor_or_low,
    lemma_xor_or_high, lemma_single_bit,
};

verus! {

/// Where bit `begin + k` of a bit array lies relative to the word that holds bit `begin`.
proof fn lemma_offset(begin: int, k: int)
    requires
        0 <= begin,
        0 <= k < 64,
    ensures
        begin % 64 + k < 64 ==> (begin + k) / 64 == begin / 64 && (begin + k) % 64 == begin % 64 + k,
        begin % 64 + k >= 64 ==> (begin + k) / 64 == begin / 64 + 1 && (begin + k) % 64 == begin % 64 + k - 64,
{
    lemma_locate(begin);
    if begin % 64 + k < 64 {
        vstd::arithmetic::div_mod::lemma_fundamental_div_mod_converse(
            begin + k, 64, begin / 64, begin % 64 + k);
    } else {
        vstd::arithmetic::div_mod::lemma_fundamental_div_mod_converse(
            begin + k, 64, begin / 64 + 1, begin % 64 + k - 64);
    }
}

/// Bits `[off, off + len)` of the adjacent words `w1`, `w2` (bit `64 + k` being
/// bit `k` of `w2`), right-aligned.
pub open spec fn spliced(w1: u64, w2: u64, off: u64, len: u64) -> u64 {
    if off + len > 64 {
        (w1 >> off) | ((w2 & (low_mask(len) >> ((64 - off) as u64))) << ((64 - off) as u64))
    } else {
        (w1 >> off) & low_mask(len)
    }
}

/// Splicing the two words that a range touches gives the value of the range;
/// in particular every range has a value.
pub proof fn lemma_spliced(s: Seq<u64>, begin: int, len: u64)
    requires
        0 <= begin,
        len <= 64,
    ensures
        ({
            let r = spliced(s[begin / 64], s[begin / 64 + 1], (begin % 64) as u64, len);
            is_range_value(s, begin, len as int, r) && range_value(s, begin, len as int) == r
        }),
{
    lemma_locate(begin);
    let off = (begin % 64) as u64;
    let r = spliced(s[begin / 64], s[begin / 64 + 1], off, len);
    assert forall|k: int| 0 <= k < 64 implies #[trigger] word_bit(r, k) == (k < len && bit_at(s, begin + k)) by {
        lemma_offset(begin, k);
        if off + len > 64 {
            lemma_get_straddle(s[begin / 64], s[begin / 64 + 1], off, len, k as u64);
        } else {
            lemma_get_within(s[begin / 64], off, len, k as u64);
        }
    }
    lemma_range_value_unique(s, begin, len as int, r);
}

/// Reads bits `[begin, begin + len)` of `s`, which may straddle two words.
fn read_bits(s: &[u64], begin: usize, len: u8) -> (r: u64)
    requires
        len <= 64,
        begin < 64 * s@.len(),
        begin + len <= 64 * s@.len(),
    ensures
        is_range_value(s@, begin as int, len as int, r),
        r == range_value(s@, begin as int, len as int),
{
    let index_segment = begin / 64;
    let offset = (begin % 64) as u64;
    let w1 = s[index_segment] >> offset;
    let v_mask = n_lowest_bits(len);
    proof {
        lemma_locate(begin as int);
        lemma_spliced(s@, begin as int, len as u64);
    }
    if offset + len as u64 > 64 {
        let shift = 64 - offset;
        w1 | ((s[index_segment + 1] & (v_mask >> shift)) << shift)
    } else {
        w1 & v_mask
    }
}

/// The words of `s` after bits `[begin, begin + len)` are replaced by the `len`
/// lowest bits of `v`: the word holding bit `begin` and, where the range
/// straddles, the next one.
pub open spec fn words_written(s: Seq<u64>, begin: int, len: u64, v: u64) -> Seq<u64> {
    let seg = begin / 64;
    let off = (begin % 64) as u64;
    let m = low_mask(len);
    let vm = v & m;
    let low = (s[seg] & !(m << off)) | (vm << off);
    if off + len > 64 {
        let shift = (64 - off) as u64;
        s.update(seg + 1, (s[seg + 1] & !(m >> shift)) | (vm >> shift)).update(seg, low)
    } else {
        s.update(seg, low)
    }
}

/// `words_written` writes the range and keeps every other bit.
pub proof fn lemma_words_written(s: Seq<u64>, begin: int, len: u64, v: u64)
    requires
        len <= 64,
        0 <= begin < 64 * s.len(),
        begin + len <= 64 * s.len(),
    ensures
        bits_written(s, words_written(s, begin, len, v), begin, len as int, v),
{
    lemma_locate(begin);
    let seg = begin / 64;
    let off = (begin % 64) as u64;
    let t = words_written(s, begin, len, v);
    assert forall|i: int| 0 <= i < 64 * s.len() implies #[trigger] bit_at(t, i) == if begin <= i < begin + len {
        word_bit(v, i - begin)
    } else {
        bit_at(s, i)
    } by {
        lemma_locate(i);
        let j = i % 64;
        if i / 64 == seg {
            lemma_set_low(s[seg], v, off, len, j as u64);
        } else if off + len > 64 && i / 64 == seg + 1 {
            lemma_set_high(s[seg + 1], v, (64 - off) as u64, len, j as u64);
        }
    }
}

/// Replaces bits `[begin, begin + len)` of `s` by the `len` lowest bits of `v`.
fn write_bits(s: &mut [u64], begin: usize, v: u64, len: u8)
    requires
        len <= 64,
        begin < 64 * old(s)@.len(),
        begin + len <= 64 * old(s)@.len(),
    ensures
        final(s)@ == words_written(old(s)@, begin as int, len as u64, v),
        bits_written(old(s)@, final(s)@, begin as int, len as int, v),
{
    let ghost s0 = s@;
    let index_segment = begin / 64;
    let offset = (begin % 64) as u64;
    let v_mask = n_lowest_bits(len);
    let vm = v & v_mask;
    proof {
        lemma_locate(begin as int);
    }
    if offset + len as u64 > 64 {
        let shift = 64 - offset;
        s[index_segment + 1] = (s[index_segment + 1] & !(v_mask >> shift)) | (vm >> shift);
    }
    s[index_segment] = (s[index_segment] & !(v_mask << offset)) | (vm << offset);
    proof {
        assert(s@ =~= words_written(s0, begin as int, len as u64, v));
        lemma_words_written(s0, begin as int, len as u64, v);
    }
}

/// Bit and fragment access on an array of 64-bit words, seen as one bit array:
/// bit `i` is bit `i % 64` of word `i / 64`.
pub trait BitAccess {
    /// The words of the array.
    spec fn words(&self) -> Seq<u64>;

    /// Gets the bit with index `bit_nr`.
    fn get_bit(&self, bit_nr: usize) -> (r: bool)
        requires
            bit_nr < 64 * self.words().len(),
        ensures
            r == bit_at(self.words(), bit_nr as int),
    ;

    /// Sets the bit with index `bit_nr` to `1`.
    fn set_bit(&mut self, bit_nr: usize)
        requires
            bit_nr < 64 * old(self).words().len(),
        ensures
            bit_changed(old(self).words(), final(self).words(), bit_nr as int, true),
    ;

    /// Sets the bit with index `bit_nr` to `0`.
    fn clear_bit(&mut self, bit_nr: usize)
        requires
            bit_nr < 64 * old(self).words().len(),
        ensures
            bit_changed(old(self).words(), final(self).words(), bit_nr as int, false),
    ;

    /// Gets bits `[begin, begin + len)`, bit `begin` as the lowest bit of the result.
    fn get_bits(&self, begin: usize, len: u8) -> (r: u64)
        requires
            len <= 64,
            begin < 64 * self.words().len(),
            begin + len <= 64 * self.words().len(),
        ensures
            is_range_value(self.words(), begin as int, len as int, r),
            r == range_value(self.words(), begin as int, len as int),
    ;

    /// Sets bits `[begin, begin + len)` to the `len` lowest bits of `v`.
    fn set_bits(&mut self, begin: usize, v: u64, len: u8)
        requires
            len <= 64,
            begin < 64 * old(self).words().len(),
            begin + len <= 64 * old(self).words().len(),
        ensures
            bits_written(old(self).words(), final(self).words(), begin as int, len as int, v),
    ;

    /// Xors bits `[begin, begin + len)` with `v`, which has no bit set at `len` or above.
    fn xor_bits(&mut self, begin: usize, v: u64, len: u8)
        requires
            len <= 64,
            fits(v, len as u64),
            begin < 64 * old(self).words().len(),
            begin + len <= 64 * old(self).words().len(),
        ensures
            bits_xored(old(self).words(), final(self).words(), begin as int, len as int, v),
    ;

    /// Returns the number of zeros (cleared bits).
    fn count_bit_zeros(&self) -> (r: usize)
        requires
            64 * self.words().len() <= usize::MAX,
        ensures
            r == total_zeros(self.words()),
    ;

    /// Returns the number of ones (set bits).
    fn count_bit_ones(&self) -> (r: usize)
        requires
            64 * self.words().len() <= usize::MAX,
        ensures
            r == total_ones(self.words()),
    ;

    /// Returns an iterator over the indices of ones (set bits).
    fn bit_ones(&self) -> (r: BitOnesIterator<'_>)
        requires
            64 * self.words().len() <= usize::MAX,
        ensures
            r.wf(),
            r.remaining() == ones_of(self.words(), 0),
    ;

    /// Gets the `v_size` bits `[index * v_size, index * v_size + v_size)`.
    fn get_fragment(&self, index: usize, v_size: u8) -> (r: u64)
        requires
            fragment_in(self.words(), index as int, v_size as int),
        ensures
            r == range_value(self.words(), index * v_size, v_size as int),
    {
        self.get_bits(index * v_size as usize, v_size)
    }

    /// Inits the `v_size` bits `[index * v_size, index * v_size + v_size)` to `v`.
    /// Before, they must be clear or already equal to `v`.
    fn init_fragment(&mut self, index: usize, v: u64, v_size: u8)
        requires
            fragment_in(old(self).words(), index as int, v_size as int),
            fits(v, v_size as u64),
            range_value(old(self).words(), index * v_size, v_size as int) == 0
                || range_value(old(self).words(), index * v_size, v_size as int) == v,
        ensures
            bits_written(old(self).words(), final(self).words(), index * v_size, v_size as int, v),
    {
        self.set_fragment(index, v, v_size)
    }

    /// Sets the `v_size` bits `[index * v_size, index * v_size + v_size)` to the
    /// `v_size` lowest bits of `v`.
    fn set_fragment(&mut self, index: usize, v: u64, v_size: u8)
        requires
            fragment_in(old(self).words(), index as int, v_size as int),
        ensures
            bits_written(old(self).words(), final(self).words(), index * v_size, v_size as int, v),
    {
        self.set_bits(index * v_size as usize, v, v_size);
    }

    /// Xors the `v_size` bits from `index * v_size` on with `v`, which has no bit
    /// set at `v_size` or above.
    fn xor_fragment(&mut self, index: usize, v: u64, v_size: u8)
        requires
            fragment_in(old(self).words(), index as int, v_size as int),
            fits(v, v_size as u64),
        ensures
            bits_xored(old(self).words(), final(self).words(), index * v_size, v_size as int, v),
    {
        self.xor_bits(index * v_size as usize, v, v_size);
    }

    /// Swaps the fragments `index1` and `index2` of width `v_size`.
    fn swap_fragments(&mut self, index1: usize, index2: usize, v_size: u8)
        requires
            fragment_in(old(self).words(), index1 as int, v_size as int),
            fragment_in(old(self).words(), index2 as int, v_size as int),
        ensures
            ranges_swapped(old(self).words(), final(self).words(), index1 * v_size, index2 * v_size, v_size as int),
    {
        let ghost s0 = self.words();
        let v1 = self.get_fragment(index1, v_size);
        let v2 = self.get_fragment(index2, v_size);
        self.set_fragment(index1, v2, v_size);
        let ghost s1 = self.words();
        self.set_fragment(index2, v1, v_size);
        proof {
            let b1 = index1 * v_size;
            let b2 = index2 * v_size;
            let w = v_size as int;
            assert(b1 >= 0 && b2 >= 0) by (nonlinear_arith)
                requires
                    b1 == index1 * v_size,
                    b2 == index2 * v_size,
            ;
            lemma_spliced(s0, b1, v_size as u64);
            lemma_spliced(s0, b2, v_size as u64);
            assert forall|i: int| 0 <= i < 64 * s0.len() implies #[trigger] bit_at(self.words(), i) == if b2 <= i < b2 + w {
                bit_at(s0, b1 + (i - b2))
            } else if b1 <= i < b1 + w {
                bit_at(s0, b2 + (i - b1))
            } else {
                bit_at(s0, i)
            } by {
                assert(bit_at(s1, i) == if b1 <= i < b1 + w { word_bit(v2, i - b1) } else { bit_at(s0, i) });
                if b2 <= i < b2 + w {
                    assert(word_bit(v1, i - b2) == (i - b2 < w && bit_at(s0, b1 + (i - b2))));
                } else if b1 <= i < b1 + w {
                    assert(word_bit(v2, i - b1) == (i - b1 < w && bit_at(s0, b2 + (i - b1))));
                }
            }
        }
    }

    /// Reads the value `old` of bits `[begin, begin + v_size)`, and where
    /// `new_value(old)` is `Some(v)`, replaces them by the `v_size` lowest bits of `v`.
    /// Returns `old`.
    fn conditionally_change_bits<NewValue>(&mut self, new_value: NewValue, begin: usize, v_size: u8) -> (r: u64)
        where
            NewValue: FnOnce(u64) -> Option<u64>,
        requires
            v_size <= 64,
            begin < 64 * old(self).words().len(),
            begin + v_size <= 64 * old(self).words().len(),
            new_value.requires((range_value(old(self).words(), begin as int, v_size as int),)),
        ensures
            r == range_value(old(self).words(), begin as int, v_size as int),
            exists|o: Option<u64>|
                #[trigger] new_value.ensures((r,), o)
                    && updated_with(old(self).words(), final(self).words(), begin as int, v_size as int, o),
    {
        let old_value = self.get_bits(begin, v_size);
        let change = new_value(old_value);
        if let Some(new) = change {
            self.set_bits(begin, new, v_size);
        }
        old_value
    }

    /// `conditionally_change_bits` on fragment `index` of width `v_size`.
    fn conditionally_change_fragment<NewValue>(&mut self, new_value: NewValue, index: usize, v_size: u8) -> (r: u64)
        where
            NewValue: FnOnce(u64) -> Option<u64>,
        requires
            fragment_in(old(self).words(), index as int, v_size as int),
            new_value.requires((range_value(old(self).words(), index * v_size, v_size as int),)),
        ensures
            r == range_value(old(self).words(), index * v_size, v_size as int),
            exists|o: Option<u64>|
                #[trigger] new_value.ensures((r,), o)
                    && updated_with(old(self).words(), final(self).words(), index * v_size, v_size as int, o),
    {
        self.conditionally_change_bits(new_value, index * v_size as usize, v_size)
    }

    /// Where `predicate(d, s)` holds, for the values `d` and `s` of bits
    /// `[begin, begin + v_size)` of `self` and `src`, copies those bits of `src` into `self`.
    fn conditionally_copy_bits<Pred>(&mut self, src: &Self, predicate: Pred, begin: usize, v_size: u8)
        where
            Pred: FnOnce(u64, u64) -> bool,
        requires
            v_size <= 64,
            begin < 64 * old(self).words().len(),
            begin + v_size <= 64 * old(self).words().len(),
            begin < 64 * src.words().len(),
            begin + v_size <= 64 * src.words().len(),
            predicate.requires((
                range_value(old(self).words(), begin as int, v_size as int),
                range_value(src.words(), begin as int, v_size as int),
            )),
        ensures
            exists|b: bool|
                #[trigger] predicate.ensures((
                    range_value(old(self).words(), begin as int, v_size as int),
                    range_value(src.words(), begin as int, v_size as int),
                ), b) && if b {
                    bits_written(old(self).words(), final(self).words(), begin as int, v_size as int,
                        range_value(src.words(), begin as int, v_size as int))
                } else {
                    final(self).words() == old(self).words()
                },
    {
        let src_bits = src.get_bits(begin, v_size);
        let self_bits = self.get_bits(begin, v_size);
        if predicate(self_bits, src_bits) {
            self.set_bits(begin, src_bits, v_size);
        }
    }

    /// `conditionally_copy_bits` on fragment `index` of width `v_size`.
    fn conditionally_copy_fragment<Pred>(&mut self, src: &Self, predicate: Pred, index: usize, v_size: u8)
        where
            Pred: FnOnce(u64, u64) -> bool,
        requires
            fragment_in(old(self).words(), index as int, v_size as int),
            fragment_in(src.words(), index as int, v_size as int),
            predicate.requires((
                range_value(old(self).words(), index * v_size, v_size as int),
                range_value(src.words(), index * v_size, v_size as int),
            )),
        ensures
            exists|b: bool|
                #[trigger] predicate.ensures((
                    range_value(old(self).words(), index * v_size, v_size as int),
                    range_value(src.words(), index * v_size, v_size as int),
                ), b) && if b {
                    bits_written(old(self).words(), final(self).words(), index * v_size, v_size as int,
                        range_value(src.words(), index * v_size, v_size as int))
                } else {
                    final(self).words() == old(self).words()
                },
    {
        self.conditionally_copy_bits(src, predicate, index * v_size as usize, v_size)
    }
}

impl BitAccess for [u64] {
    open spec fn words(&self) -> Seq<u64> {
        self@
    }

    fn get_bit(&self, bit_nr: usize) -> (r: bool) {
        proof {
            lemma_locate(bit_nr as int);
            lemma_single_bit(self@[(bit_nr / 64) as int], (bit_nr % 64) as u64, 0);
        }
        self[bit_nr / 64] & (1u64 << (bit_nr % 64) as u64) != 0
    }

    fn set_bit(&mut self, bit_nr: usize) {
        let ghost s0 = self@;
        proof {
            lemma_locate(bit_nr as int);
        }
        let t = (bit_nr % 64) as u64;
        self[bit_nr / 64] = self[bit_nr / 64] | (1u64 << t);
        proof {
            assert forall|i: int| 0 <= i < 64 * s0.len() implies #[trigger] bit_at(self@, i) == if i == bit_nr {
                true
            } else {
                bit_at(s0, i)
            } by {
                lemma_locate(i);
                if i / 64 == bit_nr / 64 {
                    lemma_single_bit(s0[i / 64], t, (i % 64) as u64);
                }
            }
        }
    }

    fn clear_bit(&mut self, bit_nr: usize) {
        let ghost s0 = self@;
        proof {
            lemma_locate(bit_nr as int);
        }
        let t = (bit_nr % 64) as u64;
        self[bit_nr / 64] = self[bit_nr / 64] & !(1u64 << t);
        proof {
            assert forall|i: int| 0 <= i < 64 * s0.len() implies #[trigger] bit_at(self@, i) == if i == bit_nr {
                false
            } else {
                bit_at(s0, i)
            } by {
                lemma_locate(i);
                if i / 64 == bit_nr / 64 {
                    lemma_single_bit(s0[i / 64], t, (i % 64) as u64);
                }
            }
        }
    }

    fn count_bit_zeros(&self) -> (r: usize) {
        count_zeros_in(self)
    }

    fn count_bit_ones(&self) -> (r: usize) {
        count_ones_in(self)
    }

    fn bit_ones(&self) -> (r: BitOnesIterator<'_>) {
        BitOnesIterator::new(self)
    }

    fn get_bits(&self, begin: usize, len: u8) -> (r: u64) {
        read_bits(self, begin, len)
    }

    fn set_bits(&mut self, begin: usize, v: u64, len: u8) {
        write_bits(self, begin, v, len)
    }

    fn xor_bits(&mut self, begin: usize, v: u64, len: u8) {
        let ghost s0 = self@;
        let index_segment = begin / 64;
        let offset = (begin % 64) as u64;
        let straddles = offset + len as u64 > 64;
        proof {
            lemma_locate(begin as int);
        }
        if straddles {
            let shift = 64 - offset;
            self[index_segment + 1] = self[index_segment + 1] ^ (v >> shift);
        }
        self[index_segment] = self[index_segment] ^ (v << offset);
        proof {
            let seg = index_segment as int;
            assert forall|i: int| 0 <= i < 64 * s0.len() implies #[trigger] bit_at(self@, i) == if begin <= i < begin + len {
                bit_at(s0, i) != word_bit(v, i - begin)
            } else {
                bit_at(s0, i)
            } by {
                lemma_locate(i);
                let j = i % 64;
                if i / 64 == seg {
                    lemma_xor_or_low(s0[seg], v, offset, len as u64, j as u64);
                } else if straddles && i / 64 == seg + 1 {
                    lemma_xor_or_high(s0[seg + 1], v, (64 - offset) as u64, len as u64, j as u64);
                }
            }
        }
    }

    fn init_fragment(&mut self, index: usize, v: u64, v_size: u8) {
        let ghost s0 = self@;
        let index_bit = index * v_size as usize;
        let index_segment = index_bit / 64;
        let offset = (index_bit % 64) as u64;
        let straddles = offset + v_size as u64 > 64;
        proof {
            lemma_locate(index_bit as int);
            lemma_spliced(s0, index_bit as int, v_size as u64);
        }
        if straddles {
            self[index_segment + 1] = self[index_segment + 1] | (v >> (64 - offset));
        }
        self[index_segment] = self[index_segment] | (v << offset);
        proof {
            let seg = index_segment as int;
            let b = index_bit as int;
            let rv = range_value(s0, b, v_size as int);
            assert forall|i: int| 0 <= i < 64 * s0.len() implies #[trigger] bit_at(self@, i) == if b <= i < b + v_size {
                word_bit(v, i - b)
            } else {
                bit_at(s0, i)
            } by {
                lemma_locate(i);
                let j = i % 64;
                if b <= i < b + v_size {
                    assert(word_bit(rv, i - b) == bit_at(s0, b + (i - b)));
                    lemma_zero_bits();
                }
                if i / 64 == seg {
                    lemma_xor_or_low(s0[seg], v, offset, v_size as u64, j as u64);
                } else if straddles && i / 64 == seg + 1 {
                    lemma_xor_or_high(s0[seg + 1], v, (64 - offset) as u64, v_size as u64, j as u64);
                }
            }
        }
    }

    fn conditionally_change_bits<NewValue>(&mut self, new_value: NewValue, begin: usize, v_size: u8) -> (r: u64)
        where
            NewValue: FnOnce(u64) -> Option<u64>,
    {
        let ghost s0 = self@;
        let index_segment = begin / 64;
        let offset = (begin % 64) as u64;
        let w1 = self[index_segment] >> offset;
        let end_bit = offset + v_size as u64;
        let v_mask = n_lowest_bits(v_size);
        proof {
            lemma_locate(begin as int);
            lemma_spliced(s0, begin as int, v_size as u64);
        }
        let r = if end_bit > 64 {
            let shift = 64 - offset;
            w1 | ((self[index_segment + 1] & (v_mask >> shift)) << shift)
        } else {
            w1 & v_mask
        };
        let change = new_value(r);
        if let Some(v) = change {
            let v = v & v_mask;
            if end_bit > 64 {
                let shift = 64 - offset;
                self[index_segment + 1] = (self[index_segment + 1] & !(v_mask >> shift)) | (v >> shift);
            }
            self[index_segment] = (self[index_segment] & !(v_mask << offset)) | (v << offset);
            proof {
                let nv = change->0;
                assert(v & v_mask == nv & v_mask) by (bit_vector)
                    requires
                        v == nv & v_mask,
                ;
                assert(self@ =~= words_written(s0, begin as int, v_size as u64, nv));
                lemma_words_written(s0, begin as int, v_size as u64, nv);
            }
        }
        r
    }

    fn conditionally_copy_bits<Pred>(&mut self, src: &Self, predicate: Pred, begin: usize, v_size: u8)
        where
            Pred: FnOnce(u64, u64) -> bool,
    {
        let ghost s0 = self@;
        let index_segment = begin / 64;
        let offset = (begin % 64) as u64;
        let self_w1 = self[index_segment] >> offset;
        let mut src_w1 = src[index_segment] >> offset;
        let end_bit = offset + v_size as u64;
        let v_mask = n_lowest_bits(v_size);
        proof {
            lemma_locate(begin as int);
            lemma_spliced(s0, begin as int, v_size as u64);
            lemma_spliced(src@, begin as int, v_size as u64);
        }
        if end_bit > 64 {
            let shift = 64 - offset;
            let w2_mask = v_mask >> shift;
            let self_bits = self_w1 | ((self[index_segment + 1] & w2_mask) << shift);
            let src_w2 = src[index_segment + 1] & w2_mask;
            let src_bits = src_w1 | (src_w2 << shift);
            let copy = predicate(self_bits, src_bits);
            if copy {
                self[index_segment + 1] = (self[index_segment + 1] & !w2_mask) | src_w2;
                self[index_segment] = (self[index_segment] & !(v_mask << offset)) | (src_w1 << offset);
                proof {
                    let x1 = src@[index_segment as int];
                    let x2 = src@[index_segment + 1];
                    let len = v_size as u64;
                    assert((src_bits & v_mask) >> shift == src_w2 && (src_bits & v_mask) << offset == src_w1 << offset)
                        by (bit_vector)
                        requires
                            offset < 64,
                            len <= 64,
                            offset + len > 64,
                            shift == 64 - offset,
                            src_w1 == x1 >> offset,
                            src_w2 == x2 & (v_mask >> shift),
                            src_bits == src_w1 | (src_w2 << shift),
                            (len < 64 && v_mask == ((1u64 << len) - 1u64) as u64)
                                || (len == 64 && v_mask == 0xffff_ffff_ffff_ffffu64),
                    ;
                    assert(self@ =~= words_written(s0, begin as int, v_size as u64, src_bits));
                    lemma_words_written(s0, begin as int, v_size as u64, src_bits);
                }
            }
        } else {
            src_w1 = src_w1 & v_mask;
            let copy = predicate(self_w1 & v_mask, src_w1);
            if copy {
                self[index_segment] = (self[index_segment] & !(v_mask << offset)) | (src_w1 << offset);
                proof {
                    let x1 = src@[index_segment as int];
                    assert(src_w1 & v_mask == src_w1) by (bit_vector)
                        requires
                            src_w1 == (x1 >> offset) & v_mask,
                    ;
                    assert(self@ =~= words_written(s0, begin as int, v_size as u64, src_w1));
                    lemma_words_written(s0, begin as int, v_size as u64, src_w1);
                }
            }
        }
    }
}


/// Relies on `Vec::into_boxed_slice`: the boxed slice holds the elements of the vector.
#[verifier::external_body]
fn into_boxed(v: Vec<u64>) -> (r: Box<[u64]>)
    ensures
        r@ == v@,
{
    v.into_boxed_slice()
}

/// Constructors of owned arrays of 64-bit words.
pub trait BitVec where Self: Sized {
    /// The words of the array.
    spec fn segments(&self) -> Seq<u64>;

    /// Returns `segments_len` 64-bit segments, each equal to `segments_value`.
    fn with_64bit_segments(segments_value: u64, segments_len: usize) -> (r: Self)
        ensures
            r.segments().len() == segments_len,
            forall|i: int| 0 <= i < segments_len ==> #[trigger] r.segments()[i] == segments_value,
    ;

    /// Returns `words_count` words of `word_len_bits` bits each, all equal to `word`,
    /// stored one after the other from bit 0 on, in as few segments as hold them.
    fn with_bitwords(word: u64, word_len_bits: u8, words_count: usize) -> (r: Self)
        requires
            word_len_bits <= 64,
            fits(word, word_len_bits as u64),
            words_count * word_len_bits <= usize::MAX,
            words_count > 0 ==> word_len_bits > 0,
        ensures
            r.segments().len() == (words_count * word_len_bits + 63) / 64,
            forall|i: int|
                0 <= i < 64 * r.segments().len() ==> #[trigger] bit_at(r.segments(), i) == (i
                    < words_count * word_len_bits && word_bit(word, i % (word_len_bits as int))),
    ;

    /// Returns `segments_len` 64-bit segments with all bits set to `0`.
    fn with_zeroed_64bit_segments(segments_len: usize) -> (r: Self)
        ensures
            r.segments().len() == segments_len,
            forall|i: int| 0 <= i < segments_len ==> #[trigger] r.segments()[i] == 0,
    {
        Self::with_64bit_segments(0, segments_len)
    }

    /// Returns `segments_len` 64-bit segments with all bits set to `1`.
    fn with_filled_64bit_segments(segments_len: usize) -> (r: Self)
        ensures
            r.segments().len() == segments_len,
            forall|i: int| 0 <= i < segments_len ==> #[trigger] r.segments()[i] == u64::MAX,
    {
        Self::with_64bit_segments(u64::MAX, segments_len)
    }

    /// Returns the fewest segments that hold `bit_len` bits, all set to `0`.
    fn with_zeroed_bits(bit_len: usize) -> (r: Self)
        ensures
            r.segments().len() == (bit_len + 63) / 64,
            forall|i: int| 0 <= i < r.segments().len() ==> #[trigger] r.segments()[i] == 0,
    {
        Self::with_zeroed_64bit_segments(ceiling_div(bit_len, 64))
    }

    /// Returns the fewest segments that hold `bit_len` bits, all set to `1`.
    fn with_filled_bits(bit_len: usize) -> (r: Self)
        ensures
            r.segments().len() == (bit_len + 63) / 64,
            forall|i: int| 0 <= i < r.segments().len() ==> #[trigger] r.segments()[i] == u64::MAX,
    {
        Self::with_filled_64bit_segments(ceiling_div(bit_len, 64))
    }
}

impl BitVec for Box<[u64]> {
    open spec fn segments(&self) -> Seq<u64> {
        self@
    }

    fn with_64bit_segments(segments_value: u64, segments_len: usize) -> (r: Self) {
        into_boxed(vec![segments_value; segments_len])
    }

    fn with_bitwords(word: u64, word_len_bits: u8, words_count: usize) -> (r: Self) {
        let mut result = Self::with_zeroed_bits(words_count * word_len_bits as usize);
        let ghost n = result@.len();
        let ghost w = word_len_bits as int;
        proof {
            lemma_zero_bits();
            assert forall|i: int| 0 <= i < 64 * n implies #[trigger] bit_at(result@, i) == (i < 0 * w && word_bit(word, i % w)) by {
                lemma_locate(i);
            }
            assert(64 * n >= words_count * w) by (nonlinear_arith)
                requires
                    n == (words_count * w + 63) / 64,
            ;
        }
        let mut index: usize = 0;
        while index < words_count
            invariant
                result@.len() == n,
                w == word_len_bits,
                0 <= w <= 64,
                fits(word, word_len_bits as u64),
                words_count * w <= usize::MAX,
                words_count > 0 ==> w > 0,
                64 * n >= words_count * w,
                index <= words_count,
                forall|i: int| 0 <= i < 64 * n ==> #[trigger] bit_at(result@, i) == (i < index * w && word_bit(word, i % w)),
            decreases words_count - index,
        {
            let ghost s0 = result@;
            let ghost b = index * w;
            proof {
                assert(b + w <= words_count * w && b < 64 * n) by (nonlinear_arith)
                    requires
                        b == index * w,
                        index < words_count,
                        w > 0,
                        64 * n >= words_count * w,
                ;
                lemma_zero_bits();
                assert forall|k: int| 0 <= k < 64 implies #[trigger] word_bit(0u64, k) == (k < w && bit_at(s0, b + k)) by {
                    if k < w {
                        assert(b + k < 64 * n);
                        assert(!(b + k < index * w));
                    }
                }
                lemma_range_value_unique(s0, b, w, 0);
            }
            result.init_fragment(index, word, word_len_bits);
            proof {
                assert forall|i: int| 0 <= i < 64 * n implies #[trigger] bit_at(result@, i) == (i < (index + 1) * w && word_bit(word, i % w)) by {
                    if b <= i < b + w {
                        vstd::arithmetic::div_mod::lemma_fundamental_div_mod_converse(i, w, index as int, i - b);
                    }
                    assert((index + 1) * w == b + w) by (nonlinear_arith)
                        requires
                            b == index * w,
                    ;
                }
            }
            index += 1;
        }
        result
    }
}

} // verus!
