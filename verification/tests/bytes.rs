//! Byte strings as integers and in order.

use p2p::reconcile::bytes::{bytes_copy, bytes_eq, bytes_lt, push_be, read_be, read_le};

#[test]
fn order_is_byte_by_byte_and_a_prefix_comes_first() {
    let ordered: [&[u8]; 6] = [b"", b"\x00", b"\x00\x01", b"a", b"ab", b"b"];
    for (i, a) in ordered.iter().enumerate() {
        for (j, b) in ordered.iter().enumerate() {
            assert_eq!(bytes_lt(a, b), i < j);
            assert_eq!(bytes_eq(a, b), i == j);
        }
    }
    assert_eq!(bytes_copy(b"abc"), b"abc");
}

#[test]
fn integers_spell_both_ways() {
    let mut out = vec![9];
    push_be(&mut out, 0x0102_0304_0506_0708, 8);
    assert_eq!(out, [9, 1, 2, 3, 4, 5, 6, 7, 8]);
    let mut short = Vec::new();
    push_be(&mut short, 0x1_ff02, 2);
    assert_eq!(short, [0xff, 0x02]);
    assert_eq!(read_be(&[1, 2, 3]), 0x01_0203);
    assert_eq!(read_be(&[0xff; 8]), u64::MAX);
    assert_eq!(read_le(&[1, 2, 3]), 0x03_0201);
    assert_eq!(read_le(&[]), 0);
}
