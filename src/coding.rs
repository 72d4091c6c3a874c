//! Encoding values into codewords, the step that precedes storing codes as fragments.

use vstd::prelude::*;

verus! {

/// Returns the number of bits needed to store the values from `0` up to `v`:
/// the position just above the highest set bit of `v`, `0` for `v == 0`.
pub fn bits_to_store(v: u32) -> (r: u8)
    ensures
        r <= 32,
        (r == 0) == (v == 0),
        v >> (r as u32) == 0,
        r > 0 ==> (v >> ((r - 1) as u32)) & 1u32 != 0u32,
{
    let lz = v.leading_zeros();
    proof {
        vstd::std_specs::bits::axiom_u32_leading_zeros(v);
    }
    (32 - lz) as u8
}

/// A way of assigning codewords to values, as coding schemes provide it.
pub trait Coding {
    /// The type of the values that are encoded.
    type Value;

    /// The type of the codewords.
    type Codeword;

    /// The state that encoding uses.
    type Encoder;

    /// The codeword assigned to `value`.
    spec fn codeword(&self, value: Self::Value) -> Self::Codeword;

    /// `encoder` is an encoder of this coding.
    spec fn is_encoder(&self, encoder: &Self::Encoder) -> bool;

    /// Returns an encoder of this coding.
    fn encoder(&self) -> (r: Self::Encoder)
        ensures
            self.is_encoder(&r),
    ;

    /// Returns the codeword of `value`.
    fn code_of(&self, encoder: &Self::Encoder, value: &Self::Value) -> (r: Self::Codeword)
        requires
            self.is_encoder(encoder),
        ensures
            r == self.codeword(*value),
    ;
}

/// Encodes all `values` using `value_coding`; returns their codewords in the same order.
pub fn encode_all<C: Coding>(value_coding: &C, values: &[C::Value]) -> (r: Vec<C::Codeword>)
    ensures
        r@.len() == values@.len(),
        forall|i: int| 0 <= i < values@.len() ==> #[trigger] r@[i] == value_coding.codeword(values@[i]),
{
    let encoder = value_coding.encoder();
    let mut result: Vec<C::Codeword> = Vec::new();
    let mut i: usize = 0;
    while i < values.len()
        invariant
            value_coding.is_encoder(&encoder),
            i <= values@.len(),
            result@.len() == i,
            forall|j: int| 0 <= j < i ==> #[trigger] result@[j] == value_coding.codeword(values@[j]),
        decreases values@.len() - i,
    {
        result.push(value_coding.code_of(&encoder, &values[i]));
        i += 1;
    }
    result
}


} // verus!
