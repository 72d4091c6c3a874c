//! Population counts of word arrays and the iterator over the indices of set bits.

use vstd::prelude::*;
use crate::words::word_bit;

verus! {

/// The number of set bits of `w` at positions `k..64`.
pub open spec fn ones_from(w: u64, k: int) -> nat
    decreases 64 - k,
{
    if k >= 64 {
        0
    } else {
        (if word_bit(w, k) { 1nat } else { 0nat }) + ones_from(w, k + 1)
    }
}

/// The number of set bits of `w`.
pub open spec fn popcount(w: u64) -> nat {
    ones_from(w, 0)
}

/// The number of set bits in the words `s`.
pub open spec fn total_ones(s: Seq<u64>) -> nat
    decreases s.len(),
{
    if s.len() == 0 {
        0
    } else {
        popcount(s[0]) + total_ones(s.drop_first())
    }
}

/// The number of clear bits in the words `s`.
pub open spec fn total_zeros(s: Seq<u64>) -> nat
    decreases s.len(),
{
    if s.len() == 0 {
        0
    } else {
        (64 - popcount(s[0])) as nat + total_zeros(s.drop_first())
    }
}

/// The positions `base + k`, for `k` in `k0..64` with bit `k` of `w` set, in increasing order.
pub open spec fn word_ones(w: u64, base: int, k0: int) -> Seq<int>
    decreases 64 - k0,
{
    if k0 >= 64 {
        Seq::empty()
    } else if word_bit(w, k0) {
        seq![base + k0].add(word_ones(w, base, k0 + 1))
    } else {
        word_ones(w, base, k0 + 1)
    }
}

/// The indices, counted from `base`, of the set bits of the bit array `s`, in increasing order.
pub open spec fn ones_of(s: Seq<u64>, base: int) -> Seq<int>
    decreases s.len(),
{
    if s.len() == 0 {
        Seq::empty()
    } else {
        word_ones(s[0], base, 0).add(ones_of(s.drop_first(), base + 64))
    }
}

/// Relies on `u64::count_ones`: the number of ones in the binary representation of `w`.
#[verifier::external_body]
fn word_count_ones(w: u64) -> (r: u32)
    ensures
        r == popcount(w),
{
    w.count_ones()
}

/// Relies on `u64::count_zeros`: the number of zeros in the binary representation of `w`.
#[verifier::external_body]
fn word_count_zeros(w: u64) -> (r: u32)
    ensures
        r == 64 - popcount(w),
{
    w.count_zeros()
}

pub proof fn lemma_ones_from_bound(w: u64, k: int)
    requires
        0 <= k <= 64,
    ensures
        ones_from(w, k) <= 64 - k,
    decreases 64 - k,
{
    if k < 64 {
        lemma_ones_from_bound(w, k + 1);
    }
}

pub proof fn lemma_total_bounds(s: Seq<u64>)
    ensures
        total_ones(s) <= 64 * s.len(),
        total_ones(s) + total_zeros(s) == 64 * s.len(),
    decreases s.len(),
{
    if s.len() > 0 {
        lemma_ones_from_bound(s[0], 0);
        lemma_total_bounds(s.drop_first());
    }
}

pub proof fn lemma_word_ones_len(w: u64, base: int, k: int)
    requires
        0 <= k <= 64,
    ensures
        word_ones(w, base, k).len() == ones_from(w, k),
    decreases 64 - k,
{
    if k < 64 {
        lemma_word_ones_len(w, base, k + 1);
    }
}

pub proof fn lemma_ones_of_len(s: Seq<u64>, base: int)
    ensures
        ones_of(s, base).len() == total_ones(s),
    decreases s.len(),
{
    if s.len() > 0 {
        lemma_word_ones_len(s[0], base, 0);
        lemma_ones_of_len(s.drop_first(), base + 64);
    }
}

/// Clear bits in `k..m` add no position.
pub proof fn lemma_skip_clear(w: u64, base: int, k: int, m: int)
    requires
        0 <= k <= m <= 64,
        forall|j: int| k <= j < m ==> !#[trigger] word_bit(w, j),
    ensures
        word_ones(w, base, k) == word_ones(w, base, m),
    decreases m - k,
{
    if k < m {
        lemma_skip_clear(w, base, k + 1, m);
    }
}

/// Words with the same bits from `k` on give the same positions from `k` on.
pub proof fn lemma_same_bits(w1: u64, w2: u64, base: int, k: int)
    requires
        0 <= k <= 64,
        forall|j: int| k <= j < 64 ==> #[trigger] word_bit(w1, j) == word_bit(w2, j),
    ensures
        word_ones(w1, base, k) == word_ones(w2, base, k),
    decreases 64 - k,
{
    if k < 64 {
        lemma_same_bits(w1, w2, base, k + 1);
    }
}

/// A zero word has no set bit.
pub proof fn lemma_zero_word(base: int)
    ensures
        word_ones(0u64, base, 0) == Seq::<int>::empty(),
        popcount(0u64) == 0,
{
    crate::words::lemma_zero_bits();
    lemma_skip_clear(0u64, base, 0, 64);
    lemma_word_ones_len(0u64, base, 0);
}

/// Clearing the lowest set bit `t` of `w` takes the first position off its positions.
pub proof fn lemma_clear_lowest(w: u64, base: int)
    requires
        w != 0,
    ensures
        ({
            let t = w.trailing_zeros() as u64;
            &&& t < 64
            &&& word_ones(w, base, 0) == seq![base + t].add(word_ones(w ^ (1u64 << t), base, 0))
        }),
{
    vstd::std_specs::bits::axiom_u64_trailing_zeros(w);
    let t = w.trailing_zeros() as u64;
    let w2 = w ^ (1u64 << t);
    assert forall|j: int| 0 <= j < t implies !#[trigger] word_bit(w, j) by {
        let jj = j as u64;
        assert((w >> jj) & 1u64 == 0u64);
    }
    assert forall|j: int| 0 <= j < 64 implies #[trigger] word_bit(w2, j) == (j != t && word_bit(w, j)) by {
        crate::lemmas::lemma_single_bit(w, t, j as u64);
    }
    lemma_skip_clear(w, base, 0, t as int);
    assert forall|j: int| 0 <= j < t + 1 implies !#[trigger] word_bit(w2, j) by {
        if j < t {
            assert(!word_bit(w, j));
        }
    }
    lemma_skip_clear(w2, base, 0, t + 1);
    lemma_same_bits(w, w2, base, t + 1);
}


/// Counts the set bits of the words `s`.
pub(crate) fn count_ones_in(s: &[u64]) -> (r: usize)
    requires
        64 * s@.len() <= usize::MAX,
    ensures
        r == total_ones(s@),
{
    let n = s.len();
    let mut acc: usize = 0;
    let mut i: usize = 0;
    proof {
        assert(s@.subrange(0, n as int) =~= s@);
    }
    while i < n
        invariant
            n == s@.len(),
            i <= n,
            64 * n <= usize::MAX,
            acc + total_ones(s@.subrange(i as int, n as int)) == total_ones(s@),
            acc <= 64 * i,
        decreases n - i,
    {
        proof {
            assert(s@.subrange(i as int, n as int).drop_first() =~= s@.subrange(i + 1, n as int));
            lemma_ones_from_bound(s@[i as int], 0);
        }
        acc = acc + word_count_ones(s[i]) as usize;
        i += 1;
    }
    proof {
        assert(s@.subrange(n as int, n as int) =~= Seq::<u64>::empty());
    }
    acc
}

/// Counts the clear bits of the words `s`.
pub(crate) fn count_zeros_in(s: &[u64]) -> (r: usize)
    requires
        64 * s@.len() <= usize::MAX,
    ensures
        r == total_zeros(s@),
{
    let n = s.len();
    let mut acc: usize = 0;
    let mut i: usize = 0;
    proof {
        assert(s@.subrange(0, n as int) =~= s@);
    }
    while i < n
        invariant
            n == s@.len(),
            i <= n,
            64 * n <= usize::MAX,
            acc + total_zeros(s@.subrange(i as int, n as int)) == total_zeros(s@),
            acc <= 64 * i,
        decreases n - i,
    {
        proof {
            assert(s@.subrange(i as int, n as int).drop_first() =~= s@.subrange(i + 1, n as int));
            lemma_ones_from_bound(s@[i as int], 0);
        }
        acc = acc + word_count_zeros(s[i]) as usize;
        i += 1;
    }
    proof {
        assert(s@.subrange(n as int, n as int) =~= Seq::<u64>::empty());
    }
    acc
}

/// Iterator over the indices of the set bits of a slice of `u64`, in increasing order.
pub struct BitOnesIterator<'a> {
    segments: &'a [u64],
    next_segment: usize,
    first_segment_bit: usize,
    current_segment: u64,
}

impl<'a> BitOnesIterator<'a> {
    /// The iterator's state is consistent: `current_segment` is what is left of
    /// word `next_segment - 1`, whose first bit has index `first_segment_bit`.
    pub closed spec fn wf(&self) -> bool {
        &&& 64 * self.segments@.len() <= usize::MAX
        &&& self.next_segment <= self.segments@.len()
        &&& if self.segments@.len() == 0 {
            self.next_segment == 0 && self.first_segment_bit == 0 && self.current_segment == 0
        } else {
            1 <= self.next_segment && self.first_segment_bit == 64 * (self.next_segment - 1)
        }
    }

    /// The indices that the iterator has still to yield, in order.
    pub closed spec fn remaining(&self) -> Seq<int> {
        word_ones(self.current_segment, self.first_segment_bit as int, 0).add(
            ones_of(
                self.segments@.subrange(self.next_segment as int, self.segments@.len() as int),
                self.first_segment_bit + 64,
            ),
        )
    }

    /// Constructs an iterator over the bits set in the given `slice`.
    pub fn new(slice: &'a [u64]) -> (r: Self)
        requires
            64 * slice@.len() <= usize::MAX,
        ensures
            r.wf(),
            r.remaining() == ones_of(slice@, 0),
    {
        let r = if slice.len() == 0 {
            BitOnesIterator { segments: slice, next_segment: 0, first_segment_bit: 0, current_segment: 0 }
        } else {
            BitOnesIterator { segments: slice, next_segment: 1, first_segment_bit: 0, current_segment: slice[0] }
        };
        proof {
            lemma_zero_word(0);
            assert(slice@.drop_first() =~= slice@.subrange(1, slice@.len() as int));
            assert(slice@.subrange(0, slice@.len() as int) =~= slice@);
            if slice@.len() == 0 {
                assert(r.remaining() =~= ones_of(slice@, 0));
            }
        }
        r
    }

    /// Yields the index of the next set bit, or `None` when there is none left.
    pub fn next(&mut self) -> (r: Option<usize>)
        requires
            old(self).wf(),
        ensures
            final(self).wf(),
            old(self).remaining().len() == 0 ==> r is None && final(self).remaining() == old(self).remaining(),
            old(self).remaining().len() > 0 ==> r == Some(old(self).remaining()[0] as usize)
                && final(self).remaining() == old(self).remaining().drop_first(),
    {
        let ghost rem0 = self.remaining();
        while self.current_segment == 0
            invariant
                self.wf(),
                self.remaining() == rem0,
                rem0 == old(self).remaining(),
            decreases self.segments@.len() - self.next_segment,
        {
            if self.next_segment >= self.segments.len() {
                proof {
                    lemma_zero_word(self.first_segment_bit as int);
                    assert(self.segments@.subrange(self.next_segment as int, self.segments@.len() as int)
                        =~= Seq::<u64>::empty());
                    assert(self.remaining() =~= Seq::<int>::empty());
                    assert(rem0.len() == 0);
                }
                return None;
            }
            let ghost before = self.remaining();
            let ghost rest = self.segments@.subrange(self.next_segment as int, self.segments@.len() as int);
            proof {
                lemma_zero_word(self.first_segment_bit as int);
                assert(rest.drop_first() =~= self.segments@.subrange(self.next_segment + 1, self.segments@.len() as int));
            }
            self.current_segment = self.segments[self.next_segment];
            self.next_segment = self.next_segment + 1;
            self.first_segment_bit = self.first_segment_bit + 64;
            proof {
                assert(self.remaining() =~= before);
            }
        }
        let result = self.current_segment.trailing_zeros();
        proof {
            lemma_clear_lowest(self.current_segment, self.first_segment_bit as int);
        }
        self.current_segment = self.current_segment ^ (1u64 << result);
        proof {
            assert(self.remaining() =~= rem0.drop_first());
        }
        Some(self.first_segment_bit + (result as usize))
    }

    /// The number of indices left to yield.
    pub fn len(&self) -> (r: usize)
        requires
            self.wf(),
        ensures
            r == self.remaining().len(),
    {
        let rest = &self.segments[self.next_segment..self.segments.len()];
        proof {
            lemma_word_ones_len(self.current_segment, self.first_segment_bit as int, 0);
            lemma_ones_of_len(rest@, self.first_segment_bit + 64);
            lemma_ones_from_bound(self.current_segment, 0);
            lemma_total_bounds(rest@);
            lemma_zero_word(0);
        }
        word_count_ones(self.current_segment) as usize + count_ones_in(rest)
    }

    /// The exact number of indices left to yield, as lower and upper bound.
    pub fn size_hint(&self) -> (r: (usize, Option<usize>))
        requires
            self.wf(),
        ensures
            r.0 == self.remaining().len(),
            r.1 == Some(r.0),
    {
        let result = self.len();
        (result, Some(result))
    }
}

} // verus!
