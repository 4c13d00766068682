use chesspack::Error;
use chesspack::leb128::read_leb128;
use chesspack::leb128::write_leb128;

fn encode(n: u64) -> Vec<u8> {
    let mut out = Vec::new();
    write_leb128(&mut out, n);
    out
}

#[test]
fn small_values_take_one_byte() {
    assert_eq!(encode(0), vec![0x00]);
    assert_eq!(encode(1), vec![0x01]);
    assert_eq!(encode(127), vec![0x7f]);
}

#[test]
fn seven_bit_groups_grow_little_end_first() {
    assert_eq!(encode(128), vec![0x80, 0x01]);
    assert_eq!(encode(300), vec![0xac, 0x02]);
    assert_eq!(encode(624485), vec![0xe5, 0x8e, 0x26]);
}

#[test]
fn the_largest_value_takes_ten_bytes() {
    assert_eq!(
        encode(u64::MAX),
        vec![0xff, 0xff, 0xff, 0xff, 0xff, 0xff, 0xff, 0xff, 0xff, 0x01]
    );
}

#[test]
fn reading_inverts_writing() {
    for &n in &[0u64, 1, 127, 128, 300, 16384, 624485, u32::MAX as u64, u64::MAX] {
        let mut bytes = encode(n);
        bytes.push(0xaa); // trailing data is left alone
        let (value, end) = read_leb128(&bytes, 0).unwrap();
        assert_eq!(value, n);
        assert_eq!(end, bytes.len() - 1);
    }
}

#[test]
fn reading_starts_at_the_given_offset() {
    let bytes = vec![0x55, 0xac, 0x02];
    assert_eq!(read_leb128(&bytes, 1), Ok((300, 3)));
}

#[test]
fn truncated_input_is_an_error() {
    assert_eq!(read_leb128(&[], 0), Err(Error::Leb128));
    assert_eq!(read_leb128(&[0x80], 0), Err(Error::Leb128));
    assert_eq!(read_leb128(&[0xff, 0xff], 0), Err(Error::Leb128));
}

#[test]
fn a_value_beyond_64_bits_is_an_error() {
    // Ten continuation groups: the tenth byte may only be 0x00 or 0x01.
    let too_big = vec![0xff, 0xff, 0xff, 0xff, 0xff, 0xff, 0xff, 0xff, 0xff, 0x02];
    assert_eq!(read_leb128(&too_big, 0), Err(Error::Leb128));
    let endless = vec![0x80, 0x80, 0x80, 0x80, 0x80, 0x80, 0x80, 0x80, 0x80, 0x80, 0x00];
    assert_eq!(read_leb128(&endless, 0), Err(Error::Leb128));
}

#[test]
fn non_minimal_encodings_are_accepted() {
    // 0x80 0x00 is zero written in two bytes.
    assert_eq!(read_leb128(&[0x80, 0x00], 0), Ok((0, 2)));
}
