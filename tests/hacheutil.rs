use hache::hacheutil::bytes_to_u32;

#[test]
fn bytes_to_u32_is_little_endian() {
    assert_eq!(bytes_to_u32(&[0x78, 0x56, 0x34, 0x12]), 0x1234_5678);
    assert_eq!(bytes_to_u32(&[0xff, 0xff, 0xff, 0xff]), u32::MAX);
}

#[test]
fn bytes_to_u32_short_inputs() {
    assert_eq!(bytes_to_u32(&[]), 0);
    assert_eq!(bytes_to_u32(&[0x61]), 0x61);
    assert_eq!(bytes_to_u32(&[0x01, 0x02]), 0x0201);
    assert_eq!(bytes_to_u32(&[0x00, 0x00, 0x80]), 0x80_0000);
}
