//! Field-codec tests: the big-endian fixed-width encodings.

use lumen_core::endian::{u32_from_be_bytes, u32_to_be_bytes, u64_from_be_bytes, u64_to_be_bytes};

#[test]
fn u32_layout_and_round_trip() {
    let bytes = u32_to_be_bytes(0x0102_0304);
    assert_eq!(bytes, vec![1, 2, 3, 4]);
    assert_eq!(u32_from_be_bytes(&bytes), 0x0102_0304);
    assert_eq!(u32_to_be_bytes(0), vec![0, 0, 0, 0]);
    assert_eq!(u32_to_be_bytes(u32::MAX), vec![0xff, 0xff, 0xff, 0xff]);
}

#[test]
fn u64_layout_and_round_trip() {
    let bytes = u64_to_be_bytes(0x0102_0304_0506_0708);
    assert_eq!(bytes, vec![1, 2, 3, 4, 5, 6, 7, 8]);
    assert_eq!(u64_from_be_bytes(&bytes), 0x0102_0304_0506_0708);
    assert_eq!(u64_from_be_bytes(&u64_to_be_bytes(u64::MAX)), u64::MAX);
    assert_eq!(u64_to_be_bytes(1), vec![0, 0, 0, 0, 0, 0, 0, 1]);
}
