use wire_codec::framing::{Delimited, Framer};
use wire_codec::{Error, WriteBuf};

#[test]
fn newline_round_trip() {
    let framer = Delimited::new(b"\n").unwrap();
    let mut storage = [0u8; 32];
    let mut buf = WriteBuf::new(&mut storage);
    framer.write_frame(b"hello", &mut buf).unwrap();
    let n = buf.position();
    assert_eq!(&storage[..n], b"hello\n");

    let frame = framer.next_frame(&storage[..n]).unwrap().unwrap();
    assert_eq!(frame.payload(), b"hello");
    assert_eq!(frame.consumed(), 6);
}

#[test]
fn multi_byte_delimiter() {
    let framer = Delimited::new(b"\r\n").unwrap();
    let frame = framer.next_frame(b"GET /\r\nrest").unwrap().unwrap();
    assert_eq!(frame.payload(), b"GET /");
    assert_eq!(frame.consumed(), 7);
}

#[test]
fn no_delimiter_returns_none() {
    let framer = Delimited::new(b"\n").unwrap();
    assert_eq!(framer.next_frame(b"no terminator here").unwrap(), None);
}

#[test]
fn exceeds_max_payload_short_circuits_search() {
    // Input is 6 bytes; max_payload=3 limits the scan window to 4 bytes
    // (3 + delimiter length). The delimiter is beyond the window, so the
    // framer bails with FrameTooLarge instead of scanning to the end.
    let framer = Delimited::new(b"\n").unwrap().with_max_payload(3);
    let result = framer.next_frame(b"abcde\n");
    assert!(matches!(result, Err(Error::FrameTooLarge { limit: 3, .. })));
}

#[test]
fn empty_payload_is_valid() {
    let framer = Delimited::new(b"\n").unwrap();
    let frame = framer.next_frame(b"\nrest").unwrap().unwrap();
    assert_eq!(frame.payload(), b"");
    assert_eq!(frame.consumed(), 1);
}

#[test]
fn empty_delimiter_rejected() {
    let result = Delimited::new(b"");
    assert!(matches!(result, Err(Error::EmptyDelimiter)));
}
