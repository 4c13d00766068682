use chesspack::Error;
use chesspack::bits::BitReader;
use chesspack::bits::BitWriter;

#[test]
fn bits_fill_bytes_from_the_top() {
    let mut w = BitWriter::new();
    w.write_bit(true);
    w.write_bit(false);
    w.write_bit(true);
    w.pad_to_byte();
    assert_eq!(w.into_bytes(), vec![0b1010_0000]);
}

#[test]
fn multi_bit_writes_cross_byte_boundaries() {
    let mut w = BitWriter::new();
    w.write_bits(0xabc, 12);
    w.pad_to_byte();
    assert_eq!(w.into_bytes(), vec![0xab, 0xc0]);
}

#[test]
fn only_the_low_count_bits_are_written() {
    let mut w = BitWriter::new();
    w.write_bits(0xffff_ffff, 4);
    w.write_bits(0, 4);
    assert_eq!(w.into_bytes(), vec![0xf0]);
}

#[test]
fn padding_an_aligned_stream_adds_nothing() {
    let mut w = BitWriter::new();
    w.write_bits(0x5a, 8);
    w.pad_to_byte();
    assert_eq!(w.into_bytes(), vec![0x5a]);
}

#[test]
fn an_empty_writer_finishes_empty() {
    let mut w = BitWriter::new();
    w.pad_to_byte();
    assert_eq!(w.into_bytes(), Vec::<u8>::new());
}

#[test]
fn the_reader_returns_bits_msb_first() {
    let data = [0b1100_0101u8];
    let mut r = BitReader::new(&data);
    let expected = [true, true, false, false, false, true, false, true];
    for &bit in &expected {
        assert_eq!(r.read_bit(), Ok(bit));
    }
    assert_eq!(r.read_bit(), Err(Error::IO));
    assert_eq!(r.read_bit(), Err(Error::IO));
}

#[test]
fn reading_back_gives_the_written_bits() {
    let mut w = BitWriter::new();
    w.write_bits(0b1_0110_1110_0101_0001_1010_1111_0100, 29);
    w.pad_to_byte();
    let bytes = w.into_bytes();
    assert_eq!(bytes.len(), 4);

    let mut r = BitReader::new(&bytes);
    let mut value: u32 = 0;
    for _ in 0..29 {
        value = (value << 1) | (r.read_bit().unwrap() as u32);
    }
    assert_eq!(value, 0b1_0110_1110_0101_0001_1010_1111_0100);
    // The padding bits are zero.
    assert_eq!(r.read_bit(), Ok(false));
    assert_eq!(r.read_bit(), Ok(false));
    assert_eq!(r.read_bit(), Ok(false));
    assert_eq!(r.read_bit(), Err(Error::IO));
}
