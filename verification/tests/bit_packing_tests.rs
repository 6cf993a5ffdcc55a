use kenlmrs::bit_packing::{read_int25, read_int57, required_bits, write_int25, write_int57, BitAddress, BitsMask};

#[test]
fn bit_packing_test_required_bits() {
    assert_eq!(required_bits(0), 0);
    assert_eq!(required_bits(1), 1);
    assert_eq!(required_bits(2), 2);
    assert_eq!(required_bits(3), 2);
    assert_eq!(required_bits(7), 3);
    assert_eq!(required_bits(255), 8);
}

#[test]
fn test_bits_mask() {
    let mask = BitsMask::by_max(255);
    assert_eq!(mask.bits, 8);
    assert_eq!(mask.mask, 255);
}

#[test]
fn bit_packing_test_read_write_int57() {
    let mut buffer = vec![0u8; 16];
    write_int57(&mut buffer, 0, 8, 42);
    assert_eq!(read_int57(&buffer, 0, 8, 0xFF), 42);
}

#[test]
fn read_write_int57_unaligned_round_trip() {
    let mut buffer = vec![0u8; 32];
    write_int57(&mut buffer, 3, 20, 0xABCDE);
    write_int57(&mut buffer, 23, 57, (1u64 << 57) - 1);
    assert_eq!(read_int57(&buffer, 3, 20, (1 << 20) - 1), 0xABCDE);
    assert_eq!(read_int57(&buffer, 23, 57, (1u64 << 57) - 1), (1u64 << 57) - 1);
}

#[test]
fn read_write_int57_out_of_range_is_dropped() {
    let mut buffer = vec![0u8; 8];
    write_int57(&mut buffer, 8, 8, 0xFF);
    assert_eq!(buffer, vec![0u8; 8]);
    assert_eq!(read_int57(&buffer, 8, 8, 0xFF), 0);
}

#[test]
fn read_write_int25_round_trip() {
    let mut buffer = vec![0u8; 8];
    write_int25(&mut buffer, 5, 25, 0x1ABCDEF);
    assert_eq!(read_int25(&buffer, 5, 25, (1 << 25) - 1), 0x1ABCDEF);
    assert_eq!(read_int25(&buffer, 40, 25, (1 << 25) - 1), 0);
}

#[test]
fn bits_mask_by_bits_and_from_max() {
    let m = BitsMask::by_bits(0);
    assert_eq!((m.bits, m.mask), (0, 0));
    let m = BitsMask::by_bits(12);
    assert_eq!((m.bits, m.mask), (12, 0xFFF));
    let mut m = BitsMask::default();
    m.from_max(1000);
    assert_eq!((m.bits, m.mask), (10, 1023));
    let m = BitsMask::by_max(0);
    assert_eq!((m.bits, m.mask), (0, 0));
}

#[test]
fn bit_address_new_keeps_fields() {
    let a = BitAddress::new(vec![1, 2, 3], 17);
    assert_eq!(a.base, vec![1, 2, 3]);
    assert_eq!(a.offset, 17);
}
