use knot::bitio::{BitReader, BitWriter};
use knot::error::KnotError;

#[test]
fn bits_round_trip() {
    let mut w = BitWriter::new();
    w.write_bits(0b1, 1);
    w.write_bits(0b101, 3);
    w.write_bits(0b0, 1);
    w.write_bits(0xABCD, 16);
    w.write_bits(0b11, 2);
    let bytes = w.finish();

    let mut r = BitReader::new(&bytes);
    assert_eq!(r.read_bits(1).unwrap(), 0b1);
    assert_eq!(r.read_bits(3).unwrap(), 0b101);
    assert_eq!(r.read_bits(1).unwrap(), 0b0);
    assert_eq!(r.read_bits(16).unwrap(), 0xABCD);
    assert_eq!(r.read_bits(2).unwrap(), 0b11);
}

#[test]
fn reading_past_end_errors() {
    let mut r = BitReader::new(&[0xFF]);
    assert!(r.read_bits(8).is_ok());
    assert!(r.read_bits(1).is_err());
}

#[test]
fn zero_bit_reads_and_writes() {
    let mut w = BitWriter::new();
    w.write_bits(0, 0);
    w.write_bits(0xFF, 8);
    let bytes = w.finish();
    assert_eq!(bytes, vec![0xFF]);

    let mut r = BitReader::new(&bytes);
    assert_eq!(r.read_bits(0).unwrap(), 0);
    assert_eq!(r.read_bits(8).unwrap(), 0xFF);
}

#[test]
fn writer_pads_final_byte_with_zeros() {
    let mut w = BitWriter::new();
    w.write_bits(0b101, 3);
    assert_eq!(w.finish(), vec![0b1010_0000]);
}

#[test]
fn writer_keeps_only_low_bits() {
    let mut w = BitWriter::new();
    w.write_bits(0xFFFF_FF0F, 4);
    w.write_bits(0, 4);
    assert_eq!(w.finish(), vec![0xF0]);
}

#[test]
fn full_width_fields_round_trip() {
    let mut w = BitWriter::new();
    w.write_bits(1, 1);
    w.write_bits(0xDEAD_BEEF, 32);
    let bytes = w.finish();
    assert_eq!(bytes.len(), 5);
    let mut r = BitReader::new(&bytes);
    assert_eq!(r.read_bits(1).unwrap(), 1);
    assert_eq!(r.read_bits(32).unwrap(), 0xDEAD_BEEF);
}

#[test]
fn reading_past_end_is_truncated() {
    let mut r = BitReader::new(&[0x80, 0x01]);
    assert_eq!(r.read_bits(9).unwrap(), 0b1_0000_0000);
    assert!(matches!(r.read_bits(8), Err(KnotError::Truncated)));
}

#[test]
fn failed_read_keeps_the_unread_bits() {
    let mut r = BitReader::new(&[0xA5, 0x0F]);
    assert_eq!(r.read_bits(4).unwrap(), 0xA);
    assert!(matches!(r.read_bits(13), Err(KnotError::Truncated)));
    assert_eq!(r.read_bits(12).unwrap(), 0x50F);
    assert!(r.read_bits(1).is_err());
}
