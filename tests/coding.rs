use bitm::bits_to_store;

#[test]
fn test_bits_to_store() {
    assert_eq!(bits_to_store(0u32), 0);
    assert_eq!(bits_to_store(1u32), 1);
    assert_eq!(bits_to_store(2u32), 2);
    assert_eq!(bits_to_store(3u32), 2);
    assert_eq!(bits_to_store(4u32), 3);
    assert_eq!(bits_to_store(7u32), 3);
    assert_eq!(bits_to_store(8u32), 4);
    assert_eq!(bits_to_store(u32::MAX-1), 32);
    assert_eq!(bits_to_store(u32::MAX), 32);
}
