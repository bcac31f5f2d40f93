use knot::error::KnotError;
use knot::format::{Header, FLAG_STORED, MAGIC, VERSION};

#[test]
fn header_round_trips() {
    let header = Header {
        version: VERSION,
        flags: FLAG_STORED,
        filename: "hello.txt".to_string(),
        original_size: 12345,
        crc32: 0xDEAD_BEEF,
    };
    let mut bytes = header.to_bytes();
    bytes.extend_from_slice(b"the payload");

    let (parsed, payload) = Header::parse(&bytes).unwrap();
    assert_eq!(parsed.version, VERSION);
    assert!(parsed.is_stored());
    assert_eq!(parsed.filename, "hello.txt");
    assert_eq!(parsed.original_size, 12345);
    assert_eq!(parsed.crc32, 0xDEAD_BEEF);
    assert_eq!(payload, b"the payload");
}

#[test]
fn rejects_bad_magic() {
    assert!(matches!(
        Header::parse(b"NOPE and then some").unwrap_err(),
        KnotError::BadMagic
    ));
}

#[test]
fn rejects_truncated() {
    assert!(matches!(
        Header::parse(b"KN").unwrap_err(),
        KnotError::Truncated
    ));
}

#[test]
fn header_layout_is_little_endian() {
    let header = Header {
        version: VERSION,
        flags: 0,
        filename: "ab".to_string(),
        original_size: 0x0102,
        crc32: 0x0A0B_0C0D,
    };
    assert_eq!(
        header.to_bytes(),
        vec![
            b'K', b'N', b'O', b'T', 1, 0, 2, 0, b'a', b'b', 0x02, 0x01, 0, 0, 0, 0, 0, 0, 0x0D, 0x0C, 0x0B,
            0x0A
        ]
    );
    assert_eq!(MAGIC, *b"KNOT");
}

#[test]
fn not_stored_without_the_flag() {
    let header = Header {
        version: VERSION,
        flags: 0b1111_1110,
        filename: String::new(),
        original_size: 0,
        crc32: 0,
    };
    assert!(!header.is_stored());
}

#[test]
fn rejects_unknown_version() {
    assert!(matches!(
        Header::parse(b"KNOT\x07\x00\x00\x00").unwrap_err(),
        KnotError::UnsupportedVersion(7)
    ));
}

#[test]
fn rejects_non_utf8_filename() {
    let mut bytes = b"KNOT\x01\x00\x02\x00".to_vec();
    bytes.extend_from_slice(&[0xC3, 0x28]);
    bytes.extend_from_slice(&[0u8; 12]);
    assert!(matches!(Header::parse(&bytes).unwrap_err(), KnotError::BadFilename));
}

#[test]
fn utf8_filename_round_trips() {
    let header = Header {
        version: VERSION,
        flags: 0,
        filename: "naïve café.txt".to_string(),
        original_size: 7,
        crc32: 1,
    };
    let bytes = header.to_bytes();
    assert_eq!(bytes.len(), 20 + "naïve café.txt".len());
    let (parsed, payload) = Header::parse(&bytes).unwrap();
    assert_eq!(parsed.filename, "naïve café.txt");
    assert!(payload.is_empty());
}

#[test]
fn rejects_header_cut_before_checksum() {
    let header = Header {
        version: VERSION,
        flags: 0,
        filename: "x".to_string(),
        original_size: 1,
        crc32: 2,
    };
    let bytes = header.to_bytes();
    assert!(matches!(
        Header::parse(&bytes[..bytes.len() - 1]).unwrap_err(),
        KnotError::Truncated
    ));
}

#[test]
fn io_errors_convert() {
    let e = KnotError::from(std::io::Error::new(std::io::ErrorKind::NotFound, "gone"));
    assert!(matches!(e, KnotError::Io(_)));
}

#[test]
fn rejects_empty_filename() {
    let mut bytes = b"KNOT\x01\x00\x00\x00".to_vec();
    bytes.extend_from_slice(&[0u8; 12]);
    assert!(matches!(Header::parse(&bytes).unwrap_err(), KnotError::BadFilename));
}
