use cache_db::encoding::u64_le;

#[test]
fn u64_le_of_zero_is_eight_zero_bytes() {
    assert_eq!(u64_le(0), [0u8; 8]);
}

#[test]
fn u64_le_puts_the_low_byte_first() {
    assert_eq!(u64_le(0x0102030405060708), [8, 7, 6, 5, 4, 3, 2, 1]);
    assert_eq!(u64_le(1), [1, 0, 0, 0, 0, 0, 0, 0]);
    assert_eq!(u64_le(0x100), [0, 1, 0, 0, 0, 0, 0, 0]);
    assert_eq!(u64_le(1 << 56), [0, 0, 0, 0, 0, 0, 0, 1]);
}

#[test]
fn u64_le_of_the_largest_value() {
    assert_eq!(u64_le(u64::MAX), [0xff; 8]);
    assert_eq!(u64_le(u64::MAX - 1), [0xfe, 0xff, 0xff, 0xff, 0xff, 0xff, 0xff, 0xff]);
}

#[test]
fn u64_le_agrees_with_the_standard_conversion() {
    let samples: [u64; 6] =
        [0, 1, 255, 256, 0xdead_beef_cafe_f00d, 0x8000_0000_0000_0000];
    for value in samples {
        assert_eq!(u64_le(value), value.to_le_bytes());
    }
}

#[test]
fn u64_le_tells_values_apart() {
    assert_ne!(u64_le(0x0102030405060708), u64_le(0x0807060504030201));
    assert_ne!(u64_le(1), u64_le(1 << 8));
}
