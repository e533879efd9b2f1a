use ntre_demo_dumper::demo::bits::{BitReader, BitWriter, WireError};

#[test]
fn lsb_first_within_bytes() {
    // 0b1101_0010, 0b0000_1011
    let data = [0xD2u8, 0x0B];
    let mut r = BitReader::new(&data);
    assert!(!r.read_bit().unwrap()); // bit 0 of 0xD2
    assert!(r.read_bit().unwrap()); // bit 1
    assert_eq!(r.read_bits(6).unwrap(), 0b110100); // bits 2..8
    assert_eq!(r.read_bits(8).unwrap(), 0x0B);
    assert_eq!(r.bits_left(), 0);
    assert!(r.read_bit().is_err());
}

#[test]
fn values_spanning_byte_boundaries() {
    // 12-bit value 0xABC split across two bytes, LSB-first
    let v: u16 = 0xABC;
    let bytes = [(v & 0xFF) as u8, (v >> 8) as u8];
    let mut r = BitReader::new(&bytes);
    assert_eq!(r.read_bits(12).unwrap(), 0xABC);
}

#[test]
fn written_bits_read_back_truncated() {
    let mut w = BitWriter::default();
    w.write_bits(5, 3);
    w.write_bits(0xFFFF_FFFF, 32);
    w.write_bits(0x1FF, 4); // only the low 4 bits are written
    w.write_bit(true);
    assert_eq!(w.len_bits(), 40);
    let chunk = w.into_chunk();
    let mut r = chunk.reader();
    assert_eq!(r.read_bits(3).unwrap(), 5);
    assert_eq!(r.read_bits(32).unwrap(), 0xFFFF_FFFF);
    assert_eq!(r.read_bits(4).unwrap(), 0xF);
    assert!(r.read_bit().unwrap());
    assert_eq!(r.read_bits(1), Err(WireError::Exhausted));
}

#[test]
fn failed_read_leaves_cursor() {
    let data = [0xFFu8];
    let mut r = BitReader::new(&data);
    assert_eq!(r.read_bits(9), Err(WireError::Exhausted));
    assert_eq!(r.bits_left(), 8);
    assert_eq!(r.read_u8().unwrap(), 0xFF);
}

#[test]
fn fixed_width_reads() {
    let data = [0x34u8, 0x12, 0xFE, 0xFF, 0x78, 0x56, 0x34, 0x12];
    let mut r = BitReader::new(&data);
    assert_eq!(r.read_i16().unwrap(), 0x1234);
    assert_eq!(r.read_i16().unwrap(), -2);
    assert_eq!(r.read_u32().unwrap(), 0x1234_5678);
}

#[test]
fn strings_chunks_and_varints() {
    let mut w = BitWriter::default();
    w.write_bit(true); // misalign everything after
    w.write_string("abc");
    w.write_bits(0x96, 8); // varint 150: 0x96 0x01
    w.write_bits(0x01, 8);
    w.write_bits(0b1011, 4);
    let chunk = w.into_chunk();
    let mut r = chunk.reader();
    assert!(r.read_bit().unwrap());
    assert_eq!(r.read_string().unwrap(), "abc");
    assert_eq!(r.read_var_int().unwrap(), 150);
    let c = r.read_chunk(4).unwrap();
    assert_eq!(c.len_bits(), 4);
    let mut cr = c.reader();
    assert_eq!(cr.read_bits(4).unwrap(), 0b1011);
    assert_eq!(r.bits_left(), 0);
}

#[test]
fn unterminated_string_is_exhausted() {
    let data = [b'a', b'b'];
    let mut r = BitReader::new(&data);
    assert_eq!(r.read_string(), Err(WireError::Exhausted));
    assert_eq!(r.bits_left(), 16);
}

#[test]
fn skip_and_read_bytes() {
    let data = [0x01u8, 0x02, 0x03, 0x04];
    let mut r = BitReader::new(&data);
    r.skip_bits(8).unwrap();
    assert_eq!(r.read_bytes(2).unwrap(), vec![0x02, 0x03]);
    assert!(r.skip_bits(9).is_err());
    assert_eq!(r.bits_left(), 8);
}

#[test]
fn floats_roundtrip() {
    let bytes = 123.456f32.to_le_bytes();
    let mut r = BitReader::new(&bytes);
    assert_eq!(f32::from_bits(r.read_u32().unwrap()), 123.456f32);
}

#[test]
fn strings_decode_utf8_exactly_and_invalid_bytes_lossily() {
    let data = [b'h', 0xC3, 0xA9, b'!', 0, b'a', 0xFF, b'b', 0];
    let mut r = BitReader::new(&data);
    assert_eq!(r.read_string().unwrap(), "h\u{e9}!");
    assert_eq!(r.read_string().unwrap(), "a\u{fffd}b");
    assert_eq!(r.bits_left(), 0);
}
