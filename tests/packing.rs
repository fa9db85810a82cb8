use closest_pair_rs::utils::{pack_numbers, unpack_numbers};

#[test]
fn test_basic_packing_unpacking() {
    let num1 = 42u32;
    let num2 = 123u32;
    let bits = 16u8;

    let packed = pack_numbers(num1, num2, bits);
    let (unpacked1, unpacked2) = unpack_numbers(packed, bits);

    assert_eq!(num1, unpacked1);
    assert_eq!(num2, unpacked2);
}

#[test]
fn test_with_large_numbers() {
    let num1 = 65535u32; // 2^16 - 1
    let num2 = 256u32; // 2^8
    let bits = 16u8;

    let packed = pack_numbers(num1, num2, bits);
    let (unpacked1, unpacked2) = unpack_numbers(packed, bits);

    assert_eq!(num1, unpacked1);
    assert_eq!(num2, unpacked2);
}

#[test]
fn test_with_different_bit_sizes() {
    let num1 = 127u32;
    let num2 = 255u32;
    let bits = 8u8;

    let packed = pack_numbers(num1, num2, bits);
    let (unpacked1, unpacked2) = unpack_numbers(packed, bits);

    assert_eq!(num1, unpacked1);
    assert_eq!(num2, unpacked2);

    let num1 = 16777215u32; // 2^24 - 1
    let num2 = 12345678u32;
    let bits = 24u8;

    let packed = pack_numbers(num1, num2, bits);
    let (unpacked1, unpacked2) = unpack_numbers(packed, bits);

    assert_eq!(num1, unpacked1);
    assert_eq!(num2, unpacked2);
}

#[test]
fn test_truncation() {
    let num1 = 1000u32;
    let num2 = 2000u32;
    let bits = 8u8;

    let packed = pack_numbers(num1, num2, bits);
    let (unpacked1, unpacked2) = unpack_numbers(packed, bits);

    assert_eq!(num1 & 0xFF, unpacked1); // 232
    assert_eq!(num2 & 0xFF, unpacked2); // 208
}

#[test]
fn test_zero_values() {
    let num1 = 0u32;
    let num2 = 0u32;
    let bits = 16u8;

    let packed = pack_numbers(num1, num2, bits);
    let (unpacked1, unpacked2) = unpack_numbers(packed, bits);

    assert_eq!(num1, unpacked1);
    assert_eq!(num2, unpacked2);
    assert_eq!(packed, 0);
}

#[test]
fn test_bit_boundary() {
    let num1 = u32::MAX;
    let num2 = u32::MAX;
    let bits = 32u8;

    let packed = pack_numbers(num1, num2, bits);
    let (unpacked1, unpacked2) = unpack_numbers(packed, bits);

    assert_eq!(num1, unpacked1);
    assert_eq!(num2, unpacked2);
}

#[test]
fn packed_key_places_first_number_above_second() {
    assert_eq!(pack_numbers(1, 2, 8), 0x0102);
    assert_eq!(pack_numbers(0xABCD, 0x1234, 16), 0xABCD_1234);
    assert_eq!(pack_numbers(3, 5, 32), (3u64 << 32) | 5);
    assert_eq!(pack_numbers(u32::MAX, 0, 32), 0xFFFF_FFFF_0000_0000);
}

#[test]
fn packed_key_truncates_high_bits() {
    // 1000 = 0x3E8 and 2000 = 0x7D0 keep only their low byte.
    assert_eq!(pack_numbers(1000, 2000, 8), 0xE8D0);
    assert_eq!(pack_numbers(0x1_23, 0x4_56, 1), 0b10);
}

#[test]
fn unpack_reads_both_fields() {
    assert_eq!(unpack_numbers(0x0102, 8), (1, 2));
    assert_eq!(unpack_numbers(0xFFFF_0001_0002, 16), (1, 2));
    assert_eq!(unpack_numbers(0xFFFF_FFFF_0000_0007, 32), (u32::MAX, 7));
}

#[test]
fn packed_keys_order_lexicographically() {
    assert!(pack_numbers(1, 900, 16) < pack_numbers(2, 0, 16));
    assert!(pack_numbers(2, 3, 16) < pack_numbers(2, 4, 16));
    assert!(pack_numbers(7, 7, 32) == pack_numbers(7, 7, 32));
}
