use wire_codec::framing::{Endian, Framer, LengthPrefixed, LengthWidth};
use wire_codec::{Error, WriteBuf};

#[test]
fn u8_big_round_trip() {
    let framer = LengthPrefixed::new(LengthWidth::U8, Endian::Big);
    let mut out = [0u8; 32];
    let mut buf = WriteBuf::new(&mut out);
    framer.write_frame(b"abc", &mut buf).unwrap();
    let n = buf.position();
    assert_eq!(&out[..n], &[0x03, b'a', b'b', b'c']);

    let frame = framer.next_frame(&out[..n]).unwrap().unwrap();
    assert_eq!(frame.payload(), b"abc");
    assert_eq!(frame.consumed(), 4);
}

#[test]
fn partial_frame_returns_none() {
    let framer = LengthPrefixed::new(LengthWidth::U16, Endian::Big);
    // Header advertises 10 bytes but only 3 follow.
    let input = &[0x00, 0x0A, 0x01, 0x02, 0x03];
    assert_eq!(framer.next_frame(input).unwrap(), None);
}

#[test]
fn empty_input_returns_none() {
    let framer = LengthPrefixed::new(LengthWidth::U16, Endian::Big);
    assert_eq!(framer.next_frame(&[]).unwrap(), None);
}

#[test]
fn exceeds_max_payload() {
    let framer = LengthPrefixed::new(LengthWidth::U16, Endian::Big).with_max_payload(4);
    let input = &[0x00, 0x05, 0, 0, 0, 0, 0];
    assert!(matches!(
        framer.next_frame(input),
        Err(Error::FrameTooLarge { len: 5, limit: 4 })
    ));
}

#[test]
fn write_rejects_oversize_payload() {
    let framer = LengthPrefixed::new(LengthWidth::U8, Endian::Big).with_max_payload(3);
    let mut out = [0u8; 16];
    let mut buf = WriteBuf::new(&mut out);
    assert!(matches!(
        framer.write_frame(&[0u8; 4], &mut buf),
        Err(Error::FrameTooLarge { len: 4, limit: 3 })
    ));
}
