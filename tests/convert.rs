use hx711::{i24_to_i32, MAX_VALUE, MIN_VALUE};

#[test]
fn convert() {
    assert_eq!(i24_to_i32(0x000001), 1);
    assert_eq!(i24_to_i32(0x000002), 2);
    assert_eq!(i24_to_i32(0xFFFFFF), -1);
    assert_eq!(i24_to_i32(0xFFFFF3), -13);
}

#[test]
fn positive_words_are_unchanged() {
    assert_eq!(i24_to_i32(0), 0);
    assert_eq!(i24_to_i32(0x123456), 0x123456);
    assert_eq!(i24_to_i32(0x7FFFFF), 0x7FFFFF);
}

#[test]
fn words_with_bit_23_set_are_negative() {
    assert_eq!(i24_to_i32(0x800000), -8388608);
    assert_eq!(i24_to_i32(0x800001), 0x800001 - 0x1000000);
    assert_eq!(i24_to_i32(0xABCDEF), 0xABCDEF - 0x1000000);
}

#[test]
fn published_limits() {
    assert_eq!(MAX_VALUE, 8388607);
    assert_eq!(MIN_VALUE, 8388608);
    assert_eq!(i24_to_i32(MAX_VALUE), MAX_VALUE);
    assert_eq!(i24_to_i32(MIN_VALUE), -MIN_VALUE);
}
