use knot::codec::{compress, decompress};
use knot::error::KnotError;

fn round_trip(data: &[u8]) {
    let packed = compress(data);
    let back = decompress(&packed).unwrap();
    assert_eq!(back, data, "codec round-trip mismatch");
}

#[test]
fn codec_empty() {
    round_trip(b"");
}

#[test]
fn codec_single_byte() {
    round_trip(b"!");
}

#[test]
fn english_text() {
    round_trip(b"the quick brown fox jumps over the lazy dog, the quick brown fox");
}

#[test]
fn highly_repetitive() {
    round_trip(&vec![b'z'; 5000]);
}

#[test]
fn source_like() {
    let snippet = r#"
            fn main() {
                let mut total = 0u64;
                for i in 0..100 { total += i; }
                println!("total = {}", total);
            }
        "#
    .repeat(60);
    round_trip(snippet.as_bytes());
}

#[test]
fn codec_pseudo_random_bytes() {
    let mut v = Vec::new();
    let mut x = 0x9E37_79B9u32;
    for _ in 0..10_000 {
        x = x.wrapping_mul(1_664_525).wrapping_add(1_013_904_223);
        v.push((x >> 24) as u8);
    }
    round_trip(&v);
}

#[test]
fn actually_compresses_repetitive_input() {
    let data = vec![b'a'; 10_000];
    let packed = compress(&data);
    assert!(
        packed.len() < data.len(),
        "expected compression: {} >= {}",
        packed.len(),
        data.len()
    );
}

#[test]
fn truncated_payload_errors() {
    // Too short to even hold the code-length tables.
    assert!(decompress(b"\x00\x00\x00").is_err());
}

#[test]
fn short_payload_is_truncated() {
    assert!(matches!(decompress(b"\x00\x00\x00"), Err(KnotError::Truncated)));
    // The tables take 158 bytes; one fewer cannot hold them.
    assert!(matches!(decompress(&[0u8; 157]), Err(KnotError::Truncated)));
}

#[test]
fn empty_tables_have_no_codes() {
    // All code lengths zero: the first symbol matches no code.
    assert!(matches!(
        decompress(&[0u8; 200]),
        Err(KnotError::Corrupt("invalid Huffman code in stream"))
    ));
}

#[test]
fn empty_input_packs_to_tables_and_end_code() {
    // 316 lengths of 4 bits, then the one-bit end-of-block code, padded.
    let packed = compress(b"");
    assert_eq!(packed.len(), 159);
    assert_eq!(decompress(&packed).unwrap(), Vec::<u8>::new());
}

#[test]
fn cut_payload_is_rejected() {
    let data = b"integrity matters; tie it tight. ".repeat(30);
    let packed = compress(&data);
    let cut = &packed[..packed.len() - 2];
    assert!(decompress(cut).is_err());
}
