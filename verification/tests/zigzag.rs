use wire_codec::zigzag::{decode_i32, decode_i64, encode_i32, encode_i64};

#[test]
fn i32_round_trip() {
    for v in [0i32, 1, -1, 2, -2, 100, -100, i32::MAX, i32::MIN] {
        assert_eq!(decode_i32(encode_i32(v)), v);
    }
}

#[test]
fn i64_round_trip() {
    for v in [0i64, 1, -1, i64::MAX, i64::MIN, 1 << 40, -(1 << 40)] {
        assert_eq!(decode_i64(encode_i64(v)), v);
    }
}
