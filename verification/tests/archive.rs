use knot::archive::{tie_bytes, untie_bytes};
use knot::checksum::crc32;
use knot::error::KnotError;
use knot::format::{Header, FLAG_STORED, VERSION};

fn check_roundtrip(name: &str, data: &[u8]) {
    let tied = tie_bytes(name.to_string(), data);
    let (header, back) = untie_bytes(&tied).unwrap();
    assert_eq!(back, data, "round-trip mismatch for {name}");
    assert_eq!(header.filename, name);
    assert_eq!(header.version, VERSION);
    assert_eq!(header.original_size, data.len() as u64);
    assert_eq!(header.crc32, crc32(data));
}

#[test]
fn empty_file() {
    check_roundtrip("empty", b"");
}

#[test]
fn tiny_text() {
    check_roundtrip("tiny", b"shoelaces");
}

#[test]
fn compressible_text() {
    let data = b"the quick brown fox ".repeat(500);
    check_roundtrip("compressible", &data);
    let tied = tie_bytes("compressible".to_string(), &data);
    assert!(tied.len() < data.len());
    let (header, _) = Header::parse(&tied).unwrap();
    assert!(!header.is_stored());
}

#[test]
fn incompressible_uses_stored_fallback() {
    // Pseudo-random data can't shrink, so the stored fallback should keep the
    // .knot from growing beyond the original (plus the small header).
    let mut data = Vec::new();
    let mut x = 0x1234_5678u32;
    for _ in 0..20_000 {
        x = x.wrapping_mul(1_664_525).wrapping_add(1_013_904_223);
        data.push((x >> 24) as u8);
    }

    let tied = tie_bytes("incompressible".to_string(), &data);
    let knot_size = tied.len();
    assert!(
        knot_size <= data.len() + 128,
        "stored fallback should avoid bloat: {knot_size} vs {}",
        data.len()
    );
    let (header, _) = Header::parse(&tied).unwrap();
    assert_eq!(header.flags, FLAG_STORED);

    let (_, back) = untie_bytes(&tied).unwrap();
    assert_eq!(back, data);
}

#[test]
fn truncated_archive_is_detected() {
    let data = b"integrity matters; tie it tight. ".repeat(300);
    let mut bytes = tie_bytes("truncated".to_string(), &data);
    bytes.truncate(bytes.len() * 3 / 4); // lop off the tail of the payload
    assert!(
        untie_bytes(&bytes).is_err(),
        "a truncated .knot must be rejected, never silently restored"
    );
}

#[test]
fn tampered_checksum_is_detected() {
    let data = b"integrity matters; tie it tight. ".repeat(300);
    let name = "checksum";
    let mut bytes = tie_bytes(name.to_string(), &data);
    // The CRC32 field sits at offset 16 + filename_len (see the format spec).
    let crc_offset = 16 + name.len();
    bytes[crc_offset] ^= 0xFF;
    assert!(untie_bytes(&bytes).is_err(), "a tampered checksum must be caught");
    assert!(matches!(
        untie_bytes(&bytes),
        Err(KnotError::ChecksumMismatch { .. })
    ));
}

#[test]
fn tampered_size_is_detected() {
    let data = b"shoelaces".to_vec();
    let name = "size";
    let mut bytes = tie_bytes(name.to_string(), &data);
    let size_offset = 8 + name.len();
    bytes[size_offset] = 10;
    assert!(matches!(
        untie_bytes(&bytes),
        Err(KnotError::SizeMismatch { expected: 10, actual: 9 })
    ));
}

#[test]
fn stored_archive_is_header_then_data() {
    let data = b"ab".to_vec();
    let tied = tie_bytes("f".to_string(), &data);
    assert_eq!(tied.len(), 20 + 1 + 2);
    assert_eq!(&tied[21..], b"ab");
    assert_eq!(tied[5], FLAG_STORED);
}

#[test]
fn crc32_check_value() {
    assert_eq!(crc32(b"123456789"), 0xCBF4_3926);
    assert_eq!(crc32(b""), 0);
    assert_eq!(crc32(b"a"), 0xE8B7_BE43);
}

#[test]
fn not_a_knot_is_rejected() {
    assert!(matches!(untie_bytes(b"PK\x03\x04 zip file"), Err(KnotError::BadMagic)));
}
