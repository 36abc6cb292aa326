//! Concrete checks of the bit cursors and framers.

use wire_codec::bitfield::MAX_BIT_WIDTH;
use wire_codec::framing::{Delimited, Endian, Frame, Framer, LengthPrefixed, LengthWidth};
use wire_codec::{BitReader, BitWriter, Error, WriteBuf};

#[test]
fn bit_reader_msb_first() {
    let mut r = BitReader::new(&[0xAC]);
    assert_eq!(r.read_bits(3).unwrap(), 0b101);
    assert_eq!(r.bits_consumed(), 3);
    assert_eq!(r.bits_remaining(), 5);
    assert_eq!(r.read_bits(5).unwrap(), 0b01100);
}

#[test]
fn bit_reader_errors_leave_cursor() {
    let mut r = BitReader::new(&[0xFF, 0x00]);
    assert_eq!(r.read_bits(0), Err(Error::BitOverflow));
    assert_eq!(r.read_bits(MAX_BIT_WIDTH + 1), Err(Error::BitOverflow));
    assert_eq!(r.read_bits(17), Err(Error::UnexpectedEof));
    assert_eq!(r.bits_consumed(), 0);
    assert_eq!(r.read_bits(1).unwrap(), 1);
    r.align_to_byte();
    assert_eq!(r.bits_consumed(), 8);
    r.align_to_byte();
    assert_eq!(r.bits_consumed(), 8);
    assert_eq!(r.read_bits(8).unwrap(), 0);
}

#[test]
fn bit_writer_full_width_round_trip() {
    let mut storage = [0u8; 9];
    let mut w = BitWriter::new(&mut storage);
    w.write_bits(1, 1).unwrap();
    w.write_bits(u64::MAX - 5, 64).unwrap();
    assert_eq!(w.bits_written(), 65);
    assert_eq!(w.write_bits(0, 8), Err(Error::BufferFull));
    let n = w.finish();
    assert_eq!(n, 9);
    let mut r = BitReader::new(&storage[..n]);
    assert_eq!(r.read_bits(1).unwrap(), 1);
    assert_eq!(r.read_bits(64).unwrap(), u64::MAX - 5);
}

#[test]
fn bit_writer_zero_pads_reused_buffer() {
    let mut storage = [0xFFu8; 3];
    let mut w = BitWriter::new(&mut storage);
    w.write_bits(0b101, 3).unwrap();
    w.align_to_byte().unwrap();
    w.write_bits(0b1, 1).unwrap();
    assert_eq!(w.finish(), 2);
    assert_eq!(storage, [0b1010_0000, 0b1000_0000, 0xFF]);
}

#[test]
fn bit_writer_rejects_bad_widths() {
    let mut storage = [0u8; 2];
    let mut w = BitWriter::new(&mut storage);
    assert_eq!(w.write_bits(0, 0), Err(Error::BitOverflow));
    assert_eq!(w.write_bits(0, 65), Err(Error::BitOverflow));
    assert_eq!(w.write_bits(4, 2), Err(Error::BitOverflow));
    assert_eq!(w.write_bits(3, 2), Ok(()));
    assert_eq!(w.finish(), 1);
}

#[test]
fn bit_writer_later_fields_keep_earlier_ones() {
    let mut storage = [0u8; 4];
    let mut w = BitWriter::new(&mut storage);
    let fields = [(0b1u64, 1u32), (0x2A, 7), (0x3FF, 10), (0, 3), (0x5, 3)];
    for &(v, n) in &fields {
        w.write_bits(v, n).unwrap();
    }
    let n = w.finish();
    assert_eq!(n, 3);
    let mut r = BitReader::new(&storage[..n]);
    for &(v, width) in &fields {
        assert_eq!(r.read_bits(width).unwrap(), v);
    }
}

#[test]
fn length_widths() {
    assert_eq!(LengthWidth::U8.header_size(), 1);
    assert_eq!(LengthWidth::U16.header_size(), 2);
    assert_eq!(LengthWidth::U32.header_size(), 4);
    assert_eq!(LengthWidth::U8.max_payload(), 255);
    assert_eq!(LengthWidth::U16.max_payload(), 65_535);
    assert_eq!(LengthWidth::U32.max_payload(), 4_294_967_295);
}

#[test]
fn length_prefixed_builder_clamps() {
    let f = LengthPrefixed::new(LengthWidth::U8, Endian::Little);
    assert_eq!(f.width(), LengthWidth::U8);
    assert_eq!(f.endian(), Endian::Little);
    assert_eq!(f.max_payload(), 255);
    assert_eq!(f.with_max_payload(1000).max_payload(), 255);
    assert_eq!(f.with_max_payload(10).max_payload(), 10);
}

#[test]
fn length_prefixed_little_endian_u32() {
    let framer = LengthPrefixed::new(LengthWidth::U32, Endian::Little);
    let mut out = [0u8; 16];
    let mut buf = WriteBuf::new(&mut out);
    framer.write_frame(b"hey", &mut buf).unwrap();
    let n = buf.position();
    assert_eq!(&out[..n], &[3, 0, 0, 0, b'h', b'e', b'y']);
    let frame = framer.next_frame(&out[..n + 2]).unwrap().unwrap();
    assert_eq!(frame.payload(), b"hey");
    assert_eq!(frame.consumed(), 7);
}

#[test]
fn length_prefixed_header_written_when_payload_does_not_fit() {
    let framer = LengthPrefixed::new(LengthWidth::U16, Endian::Big);
    let mut out = [0xEEu8; 4];
    let mut buf = WriteBuf::new(&mut out);
    assert_eq!(framer.write_frame(b"abc", &mut buf), Err(Error::BufferFull));
    assert_eq!(buf.position(), 2);
    assert_eq!(out, [0x00, 0x03, 0xEE, 0xEE]);

    let mut tiny = [0u8; 1];
    let mut buf = WriteBuf::new(&mut tiny);
    assert_eq!(framer.write_frame(b"abc", &mut buf), Err(Error::BufferFull));
    assert_eq!(buf.position(), 0);
}

#[test]
fn length_prefixed_over_limit_on_decode() {
    let framer = LengthPrefixed::new(LengthWidth::U8, Endian::Big).with_max_payload(2);
    assert_eq!(
        framer.next_frame(&[3, 1, 2, 3]),
        Err(Error::FrameTooLarge { len: 3, limit: 2 })
    );
}

#[test]
fn frame_accessors() {
    let data = [1u8, 2, 3];
    let f = Frame::new(&data[..2], 3);
    assert_eq!(f.payload(), &[1, 2]);
    assert_eq!(f.consumed(), 3);
}

#[test]
fn delimited_accessors() {
    let d = Delimited::new(b"\r\n").unwrap();
    assert_eq!(d.delimiter(), b"\r\n");
    assert_eq!(d.max_payload(), usize::MAX);
    assert_eq!(d.with_max_payload(7).max_payload(), 7);
}

#[test]
fn delimited_no_delimiter_past_window() {
    let framer = Delimited::new(b"\n").unwrap().with_max_payload(3);
    assert_eq!(
        framer.next_frame(b"abcdef"),
        Err(Error::FrameTooLarge { len: 6, limit: 3 })
    );
    assert_eq!(framer.next_frame(b"abcd"), Ok(None));
    let frame = framer.next_frame(b"abc\nxyz").unwrap().unwrap();
    assert_eq!(frame.payload(), b"abc");
}

#[test]
fn delimited_write_rejects_oversize() {
    let framer = Delimited::new(b"\n").unwrap().with_max_payload(2);
    let mut out = [0u8; 8];
    let mut buf = WriteBuf::new(&mut out);
    assert_eq!(
        framer.write_frame(b"abc", &mut buf),
        Err(Error::FrameTooLarge { len: 3, limit: 2 })
    );
    assert_eq!(buf.position(), 0);
    let mut small = [0u8; 2];
    let mut buf = WriteBuf::new(&mut small);
    assert_eq!(framer.write_frame(b"ab", &mut buf), Err(Error::BufferFull));
    assert_eq!(buf.position(), 2);
}

#[test]
fn delimited_overlapping_delimiter_splits_early() {
    // The payload "a" does not contain "aa", but "a" + "aa" has its first
    // "aa" at offset 0, so the frame read back is empty.
    let framer = Delimited::new(b"aa").unwrap();
    let mut out = [0u8; 3];
    let mut buf = WriteBuf::new(&mut out);
    framer.write_frame(b"a", &mut buf).unwrap();
    let frame = framer.next_frame(&out).unwrap().unwrap();
    assert_eq!(frame.payload(), b"");
    assert_eq!(frame.consumed(), 2);
}

#[test]
fn length_prefixed_reads_prefix_from_longer_input() {
    let framer = LengthPrefixed::new(LengthWidth::U16, Endian::Big);
    let frame = framer.next_frame(&[0, 2, b'h', b'i', 9, 9]).unwrap().unwrap();
    assert_eq!(frame.payload(), b"hi");
    assert_eq!(frame.consumed(), 4);
    let framer = LengthPrefixed::new(LengthWidth::U16, Endian::Little);
    let frame = framer.next_frame(&[1, 0, b'z', 7]).unwrap().unwrap();
    assert_eq!(frame.payload(), b"z");
    assert_eq!(frame.consumed(), 3);
}

#[test]
fn delimited_delimiter_past_limit() {
    let framer = Delimited::new(b"\n").unwrap().with_max_payload(2);
    assert_eq!(
        framer.next_frame(b"abc\n"),
        Err(Error::FrameTooLarge { len: 4, limit: 2 })
    );
    assert_eq!(framer.next_frame(b"abc"), Ok(None));
    let frame = framer.next_frame(b"ab\ncd\n").unwrap().unwrap();
    assert_eq!(frame.payload(), b"ab");
    assert_eq!(frame.consumed(), 3);
}

#[test]
fn bit_writer_into_written_hands_back_finished_prefix() {
    let mut storage = [0xFFu8; 4];
    let mut w = BitWriter::new(&mut storage);
    w.write_bits(0b101, 3).unwrap();
    w.write_bits(0x1FF, 9).unwrap();
    let written = w.into_written();
    assert_eq!(written, &[0b1011_1111, 0b1111_0000]);
    let mut r = BitReader::new(written);
    assert_eq!(r.read_bits(3).unwrap(), 0b101);
    assert_eq!(r.read_bits(9).unwrap(), 0x1FF);
    assert_eq!(storage, [0b1011_1111, 0b1111_0000, 0xFF, 0xFF]);
}
