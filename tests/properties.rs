use bitm::{BitAccess, BitVec, BitOnesIterator, Coding, ceiling_div, encode_all, n_lowest_bits};

#[test]
fn lowest_bits_masks() {
    assert_eq!(n_lowest_bits(0), 0);
    assert_eq!(n_lowest_bits(1), 1);
    assert_eq!(n_lowest_bits(3), 0b111);
    assert_eq!(n_lowest_bits(63), u64::MAX >> 1);
    assert_eq!(n_lowest_bits(64), u64::MAX);
}

#[test]
fn ceiling_division() {
    assert_eq!(ceiling_div(0, 64), 0);
    assert_eq!(ceiling_div(1, 64), 1);
    assert_eq!(ceiling_div(64, 64), 1);
    assert_eq!(ceiling_div(65, 64), 2);
    assert_eq!(ceiling_div(usize::MAX, 1), usize::MAX);
    assert_eq!(ceiling_div(usize::MAX, 2), usize::MAX / 2 + 1);
}

#[test]
fn round_trip_every_width_near_word_boundary() {
    for width in 1u8..=64 {
        let value = if width == 64 { 0xdead_beef_0123_4567u64 } else { 0xdead_beef_0123_4567u64 & ((1u64 << width) - 1) };
        for index in 0usize..(192 / width as usize) {
            let mut b = Box::<[u64]>::with_zeroed_64bit_segments(3);
            b.set_fragment(index, value, width);
            assert_eq!(b.get_fragment(index, width), value);
            if index > 0 {
                assert_eq!(b.get_fragment(index - 1, width), 0);
            }
            if (index + 2) * width as usize <= 192 {
                assert_eq!(b.get_fragment(index + 1, width), 0);
            }
        }
    }
}

#[test]
fn set_bits_masks_wide_values() {
    let mut b = Box::<[u64]>::with_zeroed_64bit_segments(2);
    b.set_bits(62, 0b1111_1111, 4);
    assert_eq!(b.get_bits(62, 4), 0b1111);
    assert_eq!(b.as_ref(), [0b11u64 << 62, 0b11u64]);
    b.set_bits(0, u64::MAX, 64);
    assert_eq!(b.as_ref(), [u64::MAX, 0b11u64]);
    assert_eq!(b.get_bits(1, 64), u64::MAX);
    assert_eq!(b.get_bits(5, 0), 0);
}

#[test]
fn straddling_range_reads_both_words() {
    let b = [0xF000_0000_0000_0000u64, 0x5u64];
    assert_eq!(b.get_bits(60, 8), 0b0101_1111);
    assert_eq!(b.get_bits(62, 3), 0b111);
    assert_eq!(b.get_bits(63, 2), 0b11);
}

#[test]
fn xor_across_words() {
    let mut b = Box::<[u64]>::with_zeroed_64bit_segments(2);
    b.xor_bits(62, 0b1011, 4);
    assert_eq!(b.as_ref(), [0b11u64 << 62, 0b10u64]);
    b.xor_fragment(1, 0b11, 2);
    assert_eq!(b.get_fragment(1, 2), 0b11);
    b.xor_bits(62, 0b1011, 4);
    assert_eq!(b.as_ref(), [0b1100u64, 0]);
}

#[test]
fn init_twice_keeps_value_and_neighbours() {
    let mut b = Box::<[u64]>::with_zeroed_64bit_segments(2);
    b.set_fragment(3, 0b11111, 5);
    b.set_fragment(5, 0b10001, 5);
    b.init_fragment(4, 0b10110, 5);
    assert_eq!(b.get_fragment(4, 5), 0b10110);
    b.init_fragment(4, 0b10110, 5);
    assert_eq!(b.get_fragment(4, 5), 0b10110);
    assert_eq!(b.get_fragment(3, 5), 0b11111);
    assert_eq!(b.get_fragment(5, 5), 0b10001);
    b.init_fragment(12, 0b10101, 5);
    assert_eq!(b.get_fragment(12, 5), 0b10101);
    assert_eq!(b.get_fragment(11, 5), 0);
    assert_eq!(b.get_fragment(13, 5), 0);
}

#[test]
fn swap_twice_restores() {
    let mut b = Box::<[u64]>::with_zeroed_64bit_segments(2);
    b.set_fragment(2, 0x1234_5678, 30);
    b.set_fragment(0, 0x0fed_cba9, 30);
    let before = b.clone();
    b.swap_fragments(0, 2, 30);
    assert_eq!(b.get_fragment(0, 30), 0x1234_5678 & ((1 << 30) - 1));
    assert_eq!(b.get_fragment(2, 30), 0x0fed_cba9);
    b.swap_fragments(0, 2, 30);
    assert_eq!(b, before);
    b.swap_fragments(2, 2, 30);
    assert_eq!(b, before);
}

#[test]
fn conditional_change_writes_masked_value() {
    let mut b = Box::<[u64]>::with_zeroed_64bit_segments(2);
    let old = b.conditionally_change_bits(|_| Some(u64::MAX), 60, 8);
    assert_eq!(old, 0);
    assert_eq!(b.get_bits(60, 8), 0xff);
    assert_eq!(b.as_ref(), [0xFu64 << 60, 0xF]);
    let old = b.conditionally_change_bits(|_| None, 60, 8);
    assert_eq!(old, 0xff);
    assert_eq!(b.as_ref(), [0xFu64 << 60, 0xF]);
}

#[test]
fn conditional_copy_straddling() {
    let src = [0xA000_0000_0000_0000u64, 0x3u64];
    let mut dst = [0u64, 0u64];
    dst.conditionally_copy_bits(&src, |d, s| { assert_eq!(d, 0); assert_eq!(s, 0b1110); false }, 62, 4);
    assert_eq!(dst, [0, 0]);
    dst.conditionally_copy_bits(&src, |d, s| { assert_eq!(d, 0); assert_eq!(s, 0b1110); true }, 62, 4);
    assert_eq!(dst, [0x8000_0000_0000_0000u64, 0x3u64]);
}

#[test]
fn constructors() {
    assert_eq!(Box::<[u64]>::with_zeroed_bits(0).len(), 0);
    assert_eq!(Box::<[u64]>::with_zeroed_bits(65).as_ref(), [0u64, 0u64]);
    assert_eq!(Box::<[u64]>::with_filled_bits(64).as_ref(), [u64::MAX]);
    assert_eq!(Box::<[u64]>::with_64bit_segments(7, 3).as_ref(), [7u64, 7, 7]);
    let b = Box::<[u64]>::with_bitwords(0b101, 3, 22);
    assert_eq!(b.len(), 2);
    for i in 0..22 {
        assert_eq!(b.get_fragment(i, 3), 0b101);
    }
    assert_eq!(b.get_bits(66, 62), 0);
    assert_eq!(b.count_bit_ones(), 44);
    assert_eq!(Box::<[u64]>::with_bitwords(0, 0, 0).len(), 0);
}

#[test]
fn counting_agrees_with_iteration() {
    let b = [0x8000_0000_0000_0001u64, 0, u64::MAX, 0b1010];
    let ones: Vec<usize> = {
        let mut it = b.bit_ones();
        let mut v = Vec::new();
        while let Some(i) = it.next() {
            v.push(i);
        }
        v
    };
    assert_eq!(ones.len(), b.count_bit_ones());
    assert!(ones.windows(2).all(|w| w[0] < w[1]));
    assert!(ones.iter().all(|&i| b.get_bit(i)));
    assert_eq!(b.count_bit_ones() + b.count_bit_zeros(), 64 * b.len());
    assert_eq!(ones[0], 0);
    assert_eq!(ones[1], 63);
    assert_eq!(ones[2], 128);
    assert_eq!(*ones.last().unwrap(), 195);
}

#[test]
fn iterator_on_empty_and_zero_words() {
    let empty: [u64; 0] = [];
    let mut it = BitOnesIterator::new(&empty);
    assert_eq!(it.size_hint(), (0, Some(0)));
    assert_eq!(it.next(), None);
    let zeros = [0u64, 0, 0];
    let mut it = zeros.bit_ones();
    assert_eq!(it.len(), 0);
    assert_eq!(it.next(), None);
    let last = [0u64, 0, 1u64 << 63];
    let mut it = last.bit_ones();
    assert_eq!(it.size_hint(), (1, Some(1)));
    assert_eq!(it.next(), Some(191));
    assert_eq!(it.next(), None);
}

struct ShiftCoding(u32);

impl Coding for ShiftCoding {
    type Value = u32;
    type Codeword = u64;
    type Encoder = u32;

    fn codeword(&self, value: u32) -> u64 {
        (value as u64) << self.0
    }

    fn is_encoder(&self, encoder: &u32) -> bool {
        *encoder == self.0
    }

    fn encoder(&self) -> u32 {
        self.0
    }

    fn code_of(&self, encoder: &u32, value: &u32) -> u64 {
        (*value as u64) << *encoder
    }
}

#[test]
fn encode_all_keeps_order() {
    let codes = encode_all(&ShiftCoding(4), &[1u32, 0, 3, 2]);
    assert_eq!(codes, vec![16u64, 0, 48, 32]);
    assert!(encode_all(&ShiftCoding(1), &[]).is_empty());
}
