//! Concrete checks of the library's laws and edge cases.

use wire_codec::varint::{
    decode_u32, decode_u64, encode_u32, encode_u64, encoded_len_u32, encoded_len_u64, MAX_LEN_U16,
    MAX_LEN_U32, MAX_LEN_U64,
};
use wire_codec::zigzag::{decode_i32, decode_i64, encode_i32, encode_i64};
use wire_codec::{Decode, Encode, Error, ReadBuf, WriteBuf};

#[test]
fn varint_encodes_300_as_two_bytes() {
    let mut out = [0u8; 5];
    let mut buf = WriteBuf::new(&mut out);
    encode_u32(300, &mut buf).unwrap();
    assert_eq!(buf.written(), &[0xAC, 0x02]);
}

#[test]
fn varint_encoded_len_values() {
    assert_eq!(encoded_len_u32(0), 1);
    assert_eq!(encoded_len_u32(127), 1);
    assert_eq!(encoded_len_u32(128), 2);
    assert_eq!(encoded_len_u32(16_383), 2);
    assert_eq!(encoded_len_u32(16_384), 3);
    assert_eq!(encoded_len_u32(u32::MAX), 5);
    assert_eq!(encoded_len_u64(0), 1);
    assert_eq!(encoded_len_u64(1 << 63), 10);
    assert_eq!(encoded_len_u64(u64::MAX), 10);
    assert_eq!(MAX_LEN_U16, 3);
    assert_eq!(MAX_LEN_U32, 5);
    assert_eq!(MAX_LEN_U64, 10);
}

#[test]
fn varint_round_trip_with_trailing_bytes() {
    for &v in &[0u64, 1, 300, 1 << 35, u64::MAX] {
        let mut storage = [0xEEu8; 16];
        let mut w = WriteBuf::new(&mut storage);
        encode_u64(v, &mut w).unwrap();
        let n = w.position();
        let mut r = ReadBuf::new(&storage);
        assert_eq!(decode_u64(&mut r).unwrap(), v);
        assert_eq!(r.position(), n);
    }
}

#[test]
fn varint_every_truncation_is_eof() {
    let mut storage = [0u8; MAX_LEN_U64];
    let mut w = WriteBuf::new(&mut storage);
    encode_u64(1 << 40, &mut w).unwrap();
    let n = w.position();
    for cut in 0..n {
        let mut r = ReadBuf::new(&storage[..cut]);
        assert_eq!(decode_u64(&mut r), Err(Error::UnexpectedEof));
        assert_eq!(r.position(), cut);
    }
}

#[test]
fn varint_overlong_u32_consumes_five_bytes() {
    let bytes = [0x80u8; 8];
    let mut r = ReadBuf::new(&bytes);
    assert_eq!(decode_u32(&mut r), Err(Error::VarintOverflow));
    assert_eq!(r.position(), 5);
}

#[test]
fn varint_u64_final_byte_limits() {
    let mut max = [0xFFu8; 10];
    max[9] = 0x01;
    let mut r = ReadBuf::new(&max);
    assert_eq!(decode_u64(&mut r), Ok(u64::MAX));

    let mut over = [0xFFu8; 10];
    over[9] = 0x02;
    let mut r = ReadBuf::new(&over);
    assert_eq!(decode_u64(&mut r), Err(Error::VarintOverflow));
    assert_eq!(r.position(), 10);
}

#[test]
fn varint_partial_write_on_full_buffer() {
    let mut storage = [0u8; 1];
    let mut w = WriteBuf::new(&mut storage);
    assert_eq!(encode_u32(300, &mut w), Err(Error::BufferFull));
    assert_eq!(w.position(), 1);
    assert_eq!(storage, [0xAC]);
}

#[test]
fn zigzag_table() {
    assert_eq!(encode_i32(0), 0);
    assert_eq!(encode_i32(-1), 1);
    assert_eq!(encode_i32(1), 2);
    assert_eq!(encode_i32(-2), 3);
    assert_eq!(encode_i32(2), 4);
    assert_eq!(encode_i32(i32::MIN), u32::MAX);
    assert_eq!(decode_i32(u32::MAX), i32::MIN);
    assert_eq!(encode_i64(i64::MIN), u64::MAX);
    assert_eq!(decode_i64(3), -2);
}

#[test]
fn zigzag_codes_round_trip() {
    for u in [0u32, 1, 2, 3, 1000, u32::MAX - 1, u32::MAX] {
        assert_eq!(encode_i32(decode_i32(u)), u);
    }
    for u in [0u64, 7, u64::MAX - 1, u64::MAX] {
        assert_eq!(encode_i64(decode_i64(u)), u);
    }
}

#[test]
fn zigzag_small_magnitude_stays_small() {
    for v in -1_000i32..1_000 {
        assert!(encode_i32(v) < 2_001);
    }
    assert!(encode_i32(5) < encode_i32(-6));
}

#[test]
fn read_buf_fixed_widths() {
    let data = [0x01, 0x02, 0x03, 0x04, 0x05, 0x06, 0x07, 0x08];
    let mut be = ReadBuf::new(&data);
    assert_eq!(be.read_u64_be().unwrap(), 0x0102030405060708);
    let mut le = ReadBuf::new(&data);
    assert_eq!(le.read_u64_le().unwrap(), 0x0807060504030201);
    let mut r = ReadBuf::new(&data);
    assert_eq!(r.read_u16_le().unwrap(), 0x0201);
    assert_eq!(r.read_u32_le().unwrap(), 0x06050403);
    assert_eq!(r.read_u32_be(), Err(Error::UnexpectedEof));
    assert_eq!(r.position(), 6);
}

#[test]
fn write_then_read_fixed_widths() {
    let mut storage = [0u8; 28];
    let mut w = WriteBuf::new(&mut storage);
    w.write_u16_le(0xBEEF).unwrap();
    w.write_u32_be(0xCAFEBABE).unwrap();
    w.write_u32_le(0x12345678).unwrap();
    w.write_u64_be(0x0102030405060708).unwrap();
    w.write_u64_le(u64::MAX - 1).unwrap();
    w.write_u16_be(7).unwrap();
    assert_eq!(w.remaining(), 0);
    let mut r = ReadBuf::new(&storage);
    assert_eq!(r.read_u16_le().unwrap(), 0xBEEF);
    assert_eq!(r.read_u32_be().unwrap(), 0xCAFEBABE);
    assert_eq!(r.read_u32_le().unwrap(), 0x12345678);
    assert_eq!(r.read_u64_be().unwrap(), 0x0102030405060708);
    assert_eq!(r.read_u64_le().unwrap(), u64::MAX - 1);
    assert_eq!(r.read_u16_be().unwrap(), 7);
    assert!(r.is_empty());
}

#[test]
fn read_buf_cursor_operations() {
    let data = [1u8, 2, 3, 4, 5];
    let mut r = ReadBuf::new(&data);
    assert_eq!(r.peek(6), Err(Error::UnexpectedEof));
    assert_eq!(r.peek(usize::MAX), Err(Error::UnexpectedEof));
    r.advance(2).unwrap();
    assert_eq!(r.remaining_slice(), &[3, 4, 5]);
    assert_eq!(r.advance(4), Err(Error::UnexpectedEof));
    assert_eq!(r.position(), 2);
    assert_eq!(r.read_bytes(3).unwrap(), &[3, 4, 5]);
    assert_eq!(r.read_bytes(1), Err(Error::UnexpectedEof));
    let copy = r.clone();
    assert_eq!(copy.position(), 5);
}

#[test]
fn write_buf_cursor_operations() {
    let mut storage = [9u8; 4];
    let mut w = WriteBuf::new(&mut storage);
    assert_eq!(w.capacity(), 4);
    w.write_bytes(&[1, 2]).unwrap();
    assert_eq!(w.write_bytes(&[3, 4, 5]), Err(Error::BufferFull));
    assert_eq!(w.position(), 2);
    assert_eq!(w.written(), &[1, 2]);
    assert_eq!(w.write_u32_be(1), Err(Error::BufferFull));
    let prefix = w.into_written();
    assert_eq!(prefix, &[1, 2]);
    assert_eq!(storage, [1, 2, 9, 9]);
}

#[test]
fn u8_codec_traits() {
    let mut storage = [0u8; 1];
    let mut w = WriteBuf::new(&mut storage);
    assert_eq!(7u8.encoded_size(), 1);
    7u8.encode(&mut w).unwrap();
    assert_eq!(8u8.encode(&mut w), Err(Error::BufferFull));
    let mut r = ReadBuf::new(&storage);
    assert_eq!(u8::decode(&mut r), Ok(7));
    assert_eq!(u8::decode(&mut r), Err(Error::UnexpectedEof));
}

#[test]
fn error_messages() {
    assert_eq!(
        Error::FrameTooLarge { len: 5, limit: 4 }.message(),
        "frame length 5 exceeds configured limit 4"
    );
    assert_eq!(
        Error::FrameTooLarge { len: 1234, limit: 0 }.message(),
        "frame length 1234 exceeds configured limit 0"
    );
    assert_eq!(Error::UnexpectedEof.message(), "unexpected end of input");
    assert_eq!(Error::BufferFull.message(), "output buffer is full");
    assert_eq!(
        Error::VarintOverflow.message(),
        "varint encoded length exceeded the target width"
    );
    assert_eq!(
        Error::InvalidLengthPrefix.message(),
        "length prefix is structurally invalid"
    );
    assert_eq!(Error::DelimiterNotFound.message(), "delimiter not found in input");
    assert_eq!(
        Error::InvalidEncoding.message(),
        "encoded data violates a structural invariant"
    );
    assert_eq!(Error::BitOverflow.message(), "bit width or value out of range");
    assert_eq!(Error::EmptyDelimiter.message(), "delimiter must be non-empty");
}
