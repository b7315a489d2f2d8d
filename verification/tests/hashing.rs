use lzf::compress::{first, idx, next, not};

#[test]
fn first_joins_two_bytes() {
    assert_eq!(0x4142, first(b"ABCD", 0));
    assert_eq!(0x4344, first(b"ABCD", 2));
    assert_eq!(0xff00, first(&[0xff, 0x00], 0));
}

#[test]
fn next_moves_one_byte_in() {
    assert_eq!(0x414243, next(0x4142, b"ABCD", 0));
    assert_eq!(0x41424344, next(0x414243, b"ABCD", 1));
    // the byte that leaves at the top is dropped
    assert_eq!(0x42434445, next(0x41424344, b"ABCDE", 2));
}

#[test]
fn idx_is_the_reference_slot() {
    assert_eq!(0, idx(0));
    assert_eq!(62963, idx(0x0041_4243));
    assert_eq!(31356, idx(0x0061_6161));
    assert_eq!(4, idx(0xffff_ffff));
    assert_eq!(65531, idx(1));
    assert_eq!(64001, idx(0x00ff_0100));
}

#[test]
fn idx_ignores_the_top_byte() {
    assert_eq!(idx(0x0041_4243), idx(0x4441_4243));
    assert_eq!(0, idx(0x0100_0000));
}

#[test]
fn not_is_one_for_zero_only() {
    assert_eq!(1, not(0));
    assert_eq!(0, not(1));
    assert_eq!(0, not(32));
    assert_eq!(0, not(-1));
}
