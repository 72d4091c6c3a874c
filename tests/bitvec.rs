use bitm::{BitAccess, BitVec};

#[test]
fn fragments_init_set_swap() {
    let mut b = Box::<[u64]>::with_zeroed_64bit_segments(2);
    assert_eq!(b.as_ref(), [0u64, 0u64]);
    b.init_fragment(1, 0b101, 3);
    assert_eq!(b.get_fragment(1, 3), 0b101);
    assert_eq!(b.get_fragment(0, 3), 0);
    assert_eq!(b.get_fragment(2, 3), 0);
    b.init_fragment(2, 0b10110_10110_10110_10110_10110_10110, 30);
    assert_eq!(b.get_fragment(2, 30), 0b10110_10110_10110_10110_10110_10110);
    assert_eq!(b.get_fragment(1, 30), 0);
    assert_eq!(b.get_fragment(3, 30), 0);
    b.set_fragment(2, 0b11010_11010_11111_00000_11111_10110, 30);
    assert_eq!(b.get_fragment(2, 30), 0b11010_11010_11111_00000_11111_10110);
    assert_eq!(b.get_fragment(1, 30), 0);
    assert_eq!(b.get_fragment(3, 30), 0);
    b.swap_fragments(2, 3, 30);
    assert_eq!(b.get_fragment(3, 30), 0b11010_11010_11111_00000_11111_10110);
    assert_eq!(b.get_fragment(2, 30), 0);
    assert_eq!(b.get_fragment(1, 30), 0);
}

#[test]
fn fragments_conditionally_change() {
    let mut b = Box::<[u64]>::with_zeroed_64bit_segments(2);
    let old = b.conditionally_change_fragment(|old| if 0b101 > old { Some(0b101) } else { None }, 1, 3);
    assert_eq!(old, 0);
    assert_eq!(b.get_fragment(1, 3), 0b101);
    assert_eq!(b.get_fragment(0, 3), 0);
    assert_eq!(b.get_fragment(2, 3), 0);
    let bits = 0b10110_10110_10110_10110_10110_10110;
    let old = b.conditionally_change_fragment(|old| if old == bits { Some(bits) } else { None }, 2, 30);
    assert_eq!(old, 0);
    assert_eq!(b.get_fragment(2, 30), 0);
    assert_eq!(b.get_fragment(1, 30), 0);
    assert_eq!(b.get_fragment(3, 30), 0);
    let old = b.conditionally_change_fragment(|old| if old != bits { Some(bits) } else { None }, 2, 30);
    assert_eq!(old, 0);
    assert_eq!(b.get_fragment(2, 30), bits);
    assert_eq!(b.get_fragment(1, 30), 0);
    assert_eq!(b.get_fragment(3, 30), 0);
    let bits2 = 0b1100_11111_00000_10110_00111_11100;
    let old = b.conditionally_change_fragment(|old| if old != bits2 { Some(bits2) } else { None }, 2, 30);
    assert_eq!(old, bits);
    assert_eq!(b.get_fragment(2, 30), bits2);
    assert_eq!(b.get_fragment(1, 30), 0);
    assert_eq!(b.get_fragment(3, 30), 0);
}

#[test]
fn fragments_conditionally_copy() {
    let src = Box::<[u64]>::with_filled_64bit_segments(2);
    let mut dst = Box::<[u64]>::with_zeroed_64bit_segments(2);

    dst.conditionally_copy_fragment(&src,
                                    |old, new| { assert_eq!(old, 0); assert_eq!(new, 0b111); old > new },
                                    11, 3);
    assert_eq!(dst.get_fragment(11, 3), 0);
    assert_eq!(dst.get_fragment(12, 3), 0);
    dst.conditionally_copy_fragment(&src,
                                    |old, new| { assert_eq!(old, 0); assert_eq!(new, 0b111); old < new },
                                    11, 3);
    assert_eq!(dst.get_fragment(11, 3), 0b111);
    assert_eq!(dst.get_fragment(12, 3), 0);

    dst.conditionally_copy_fragment(&src,
        |old, new| { assert_eq!(old, 0); assert_eq!(new, 0b111); old > new },
        21, 3);
    assert_eq!(dst.get_fragment(21, 3), 0);
    assert_eq!(dst.get_fragment(22, 3), 0);
    dst.conditionally_copy_fragment(&src,
                                    |old, new| { assert_eq!(old, 0); assert_eq!(new, 0b111); old < new },
                                    21, 3);
    assert_eq!(dst.get_fragment(21, 3), 0b111);
    assert_eq!(dst.get_fragment(22, 3), 0);
}

#[test]
fn bits() {
    let mut b = Box::<[u64]>::with_filled_64bit_segments(2);
    assert_eq!(b.as_ref(), [u64::MAX, u64::MAX]);
    assert_eq!(b.count_bit_ones(), 128);
    assert_eq!(b.count_bit_zeros(), 0);
    assert!(b.get_bit(3));
    assert!(b.get_bit(73));
    b.clear_bit(73);
    assert_eq!(b.count_bit_ones(), 127);
    assert_eq!(b.count_bit_zeros(), 1);
    assert!(!b.get_bit(73));
    assert!(b.get_bit(72));
    assert!(b.get_bit(74));
    b.set_bit(73);
    assert!(b.get_bit(73));
    b.xor_bits(72, 0b011, 3);
    assert!(!b.get_bit(72));
    assert!(!b.get_bit(73));
    assert!(b.get_bit(74));
}

#[test]
fn iterators() {
    let b = [0b101u64, 0b10u64];
    let mut ones = b.bit_ones();
    assert_eq!(ones.len(), 3);
    assert_eq!(ones.next(), Some(0));
    assert_eq!(ones.len(), 2);
    assert_eq!(ones.next(), Some(2));
    assert_eq!(ones.len(), 1);
    assert_eq!(ones.next(), Some(64+1));
    assert_eq!(ones.len(), 0);
    assert_eq!(ones.next(), None);
    assert_eq!(ones.len(), 0);
    assert_eq!(ones.next(), None);
    assert_eq!(ones.len(), 0);
}
