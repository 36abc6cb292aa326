use wire_codec::varint::{
    decode_u32, decode_u64, encode_u32, encode_u64, encoded_len_u32, encoded_len_u64, MAX_LEN_U32,
    MAX_LEN_U64,
};
use wire_codec::{Error, ReadBuf, WriteBuf};

fn round_trip_u32(value: u32) {
    let mut storage = [0u8; MAX_LEN_U32];
    let mut w = WriteBuf::new(&mut storage);
    encode_u32(value, &mut w).unwrap();
    let n = w.position();
    assert_eq!(n, encoded_len_u32(value));
    let mut r = ReadBuf::new(&storage[..n]);
    assert_eq!(decode_u32(&mut r).unwrap(), value);
    assert!(r.is_empty());
}

fn round_trip_u64(value: u64) {
    let mut storage = [0u8; MAX_LEN_U64];
    let mut w = WriteBuf::new(&mut storage);
    encode_u64(value, &mut w).unwrap();
    let n = w.position();
    assert_eq!(n, encoded_len_u64(value));
    let mut r = ReadBuf::new(&storage[..n]);
    assert_eq!(decode_u64(&mut r).unwrap(), value);
    assert!(r.is_empty());
}

#[test]
fn u32_boundaries() {
    for &v in &[
        0u32,
        1,
        127,
        128,
        16_383,
        16_384,
        2_097_151,
        2_097_152,
        u32::MAX,
    ] {
        round_trip_u32(v);
    }
}

#[test]
fn u64_boundaries() {
    for &v in &[0u64, 127, 128, 1 << 35, 1 << 56, u64::MAX] {
        round_trip_u64(v);
    }
}

#[test]
fn decode_u32_overflow_on_sixth_byte() {
    let mut buf = ReadBuf::new(&[0x80, 0x80, 0x80, 0x80, 0x80, 0x01]);
    assert_eq!(decode_u32(&mut buf), Err(Error::VarintOverflow));
}

#[test]
fn decode_u32_overflow_in_final_byte() {
    // Five bytes, terminator carries bits above the 32-bit window.
    let mut buf = ReadBuf::new(&[0xFF, 0xFF, 0xFF, 0xFF, 0x10]);
    assert_eq!(decode_u32(&mut buf), Err(Error::VarintOverflow));
}

#[test]
fn decode_truncated() {
    // Continuation bit set on the only byte present.
    let mut buf = ReadBuf::new(&[0x80]);
    assert_eq!(decode_u32(&mut buf), Err(Error::UnexpectedEof));
}
