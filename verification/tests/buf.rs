use wire_codec::{Error, ReadBuf, WriteBuf};

#[test]
fn read_buf_round_trip() {
    let data = [0x01, 0x02, 0x03, 0x04, 0x05, 0x06, 0x07, 0x08];
    let mut buf = ReadBuf::new(&data);
    assert_eq!(buf.read_u8().unwrap(), 0x01);
    assert_eq!(buf.read_u16_be().unwrap(), 0x0203);
    assert_eq!(buf.read_u32_be().unwrap(), 0x04050607);
    assert_eq!(buf.remaining(), 1);
    assert_eq!(buf.read_u8().unwrap(), 0x08);
    assert!(buf.is_empty());
}

#[test]
fn read_buf_eof() {
    let mut buf = ReadBuf::new(&[0x01]);
    assert_eq!(buf.read_u8().unwrap(), 0x01);
    assert_eq!(buf.read_u8(), Err(Error::UnexpectedEof));
}

#[test]
fn read_buf_peek_does_not_advance() {
    let buf = ReadBuf::new(&[0xAA, 0xBB]);
    assert_eq!(buf.peek(2).unwrap(), &[0xAA, 0xBB]);
    assert_eq!(buf.position(), 0);
}

#[test]
fn write_buf_round_trip() {
    let mut storage = [0u8; 8];
    let mut buf = WriteBuf::new(&mut storage);
    buf.write_u8(0x01).unwrap();
    buf.write_u16_be(0x0203).unwrap();
    buf.write_u32_le(0x07060504).unwrap();
    buf.write_u8(0x08).unwrap();
    assert_eq!(&storage, &[0x01, 0x02, 0x03, 0x04, 0x05, 0x06, 0x07, 0x08]);
}

#[test]
fn write_buf_full() {
    let mut storage = [0u8; 2];
    let mut buf = WriteBuf::new(&mut storage);
    buf.write_u16_be(0x1234).unwrap();
    assert_eq!(buf.write_u8(0), Err(Error::BufferFull));
}
