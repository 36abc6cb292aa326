use wire_codec::{BitReader, BitWriter, Error};

#[test]
fn pack_unpack_round_trip() {
    let mut storage = [0u8; 4];
    let mut w = BitWriter::new(&mut storage);
    w.write_bits(0b1011, 4).unwrap();
    w.write_bits(0b1100_1010, 8).unwrap();
    w.write_bits(0b1111_0000, 8).unwrap();
    let n = w.finish();
    assert_eq!(n, 3);

    let mut r = BitReader::new(&storage[..n]);
    assert_eq!(r.read_bits(4).unwrap(), 0b1011);
    assert_eq!(r.read_bits(8).unwrap(), 0b1100_1010);
    assert_eq!(r.read_bits(8).unwrap(), 0b1111_0000);
}

#[test]
fn write_rejects_value_overflow() {
    let mut storage = [0u8; 1];
    let mut w = BitWriter::new(&mut storage);
    // 0b1_0000 needs 5 bits but only 4 were requested.
    assert_eq!(w.write_bits(0b1_0000, 4), Err(Error::BitOverflow));
}

#[test]
fn align_rounds_up_to_byte() {
    let mut storage = [0u8; 2];
    let mut w = BitWriter::new(&mut storage);
    w.write_bits(0b101, 3).unwrap();
    w.align_to_byte().unwrap();
    w.write_bits(0xFF, 8).unwrap();
    assert_eq!(w.finish(), 2);
    assert_eq!(storage, [0b1010_0000, 0xFF]);
}
