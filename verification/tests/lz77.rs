use knot::error::KnotError;
use knot::lz77::{decode, encode, Token};

fn roundtrip(data: &[u8]) {
    let tokens = encode(data);
    let back = decode(&tokens).unwrap();
    assert_eq!(back, data, "round-trip mismatch");
}

#[test]
fn lz77_empty() {
    roundtrip(b"");
}

#[test]
fn lz77_single_byte() {
    roundtrip(b"x");
}

#[test]
fn no_repeats() {
    roundtrip(b"abcdefghijklmnop");
}

#[test]
fn simple_repeats() {
    roundtrip(b"abcabcabcabcabcabc");
}

#[test]
fn long_run_of_one_byte() {
    // Exercises overlapping copies (distance 1) past MAX_MATCH.
    roundtrip(&[b'a'; 1000]);
}

#[test]
fn english_like() {
    let mut v = Vec::new();
    for _ in 0..200 {
        v.extend_from_slice(b"the quick brown fox jumps over the lazy dog ");
    }
    roundtrip(&v);
}

#[test]
fn produces_matches_on_repetition() {
    let tokens = encode(b"abcabcabcabcabc");
    assert!(tokens.iter().any(|t| matches!(t, Token::Match { .. })));
}

#[test]
fn lz77_pseudo_random_bytes() {
    // A cheap LCG so the test is deterministic but non-repetitive.
    let mut v = Vec::new();
    let mut x = 0x1234_5678u32;
    for _ in 0..8000 {
        x = x.wrapping_mul(1_103_515_245).wrapping_add(12_345);
        v.push((x >> 16) as u8);
    }
    roundtrip(&v);
}

#[test]
fn rejects_bad_backreference() {
    // distance points before the start of output.
    let bad = [Token::Match { length: 3, distance: 5 }];
    assert!(decode(&bad).is_err());
}

#[test]
fn greedy_parse_of_a_repeat() {
    let tokens = encode(b"abcabcabc");
    assert_eq!(
        tokens,
        vec![
            Token::Literal(b'a'),
            Token::Literal(b'b'),
            Token::Literal(b'c'),
            Token::Match { length: 6, distance: 3 },
        ]
    );
}

#[test]
fn matches_stay_in_range() {
    let data = vec![b'q'; 5000];
    let tokens = encode(&data);
    for t in &tokens {
        if let Token::Match { length, distance } = *t {
            assert!((3..=258).contains(&length));
            assert!((1..=32768).contains(&distance));
        }
    }
    assert!(tokens.len() <= data.len());
}

#[test]
fn overlapping_copy_repeats_a_run() {
    let tokens = [Token::Literal(b'z'), Token::Match { length: 4, distance: 1 }];
    assert_eq!(decode(&tokens).unwrap(), b"zzzzz".to_vec());
}

#[test]
fn zero_distance_is_corrupt() {
    let tokens = [Token::Literal(b'z'), Token::Match { length: 3, distance: 0 }];
    assert!(matches!(
        decode(&tokens),
        Err(KnotError::Corrupt("back-reference points outside the window"))
    ));
}
