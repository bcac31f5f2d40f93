use knot::bitio::{BitReader, BitWriter};
use knot::error::KnotError;
use knot::huffman::{canonical_codes, code_lengths, Decoder, MAX_CODE_BITS};

const EOB: usize = 256;

/// Encode bytes with a per-input Huffman table, then decode and compare.
fn round_trip(data: &[u8]) {
    let mut freqs = vec![0u32; 257];
    for &b in data {
        freqs[b as usize] += 1;
    }
    freqs[EOB] = 1; // always need an end marker

    let lengths = code_lengths(&freqs);
    assert!(lengths.iter().all(|&l| l <= MAX_CODE_BITS));
    let codes = canonical_codes(&lengths);

    let mut w = BitWriter::new();
    for &b in data {
        let (code, len) = codes[b as usize];
        w.write_bits(code as u32, len);
    }
    let (code, len) = codes[EOB];
    w.write_bits(code as u32, len);
    let bytes = w.finish();

    let decoder = Decoder::from_lengths(&lengths).unwrap();
    let mut r = BitReader::new(&bytes);
    let mut out = Vec::new();
    loop {
        let sym = decoder.read_symbol(&mut r).unwrap();
        if sym == EOB {
            break;
        }
        out.push(sym as u8);
    }
    assert_eq!(out, data, "huffman round-trip mismatch");
}

#[test]
fn single_symbol_gets_one_bit() {
    let mut freqs = vec![0u32; 4];
    freqs[2] = 9;
    let lengths = code_lengths(&freqs);
    assert_eq!(lengths[2], 1);
    assert!(lengths.iter().enumerate().all(|(i, &l)| i == 2 || l == 0));
}

#[test]
fn empty_input() {
    round_trip(b"");
}

#[test]
fn huffman_single_byte() {
    round_trip(b"Z");
}

#[test]
fn skewed_text() {
    round_trip(b"aaaaaaaaaabbbbbccd");
}

#[test]
fn full_byte_range() {
    let data: Vec<u8> = (0..=255).collect();
    round_trip(&data);
}

#[test]
fn pseudo_random() {
    let mut v = Vec::new();
    let mut x = 0xC0FF_EE00u32;
    for _ in 0..6000 {
        x = x.wrapping_mul(1_103_515_245).wrapping_add(12_345);
        v.push((x >> 16) as u8);
    }
    round_trip(&v);
}

#[test]
fn limits_degenerate_tree() {
    // Fibonacci frequencies force a maximally deep tree (~39 levels); the
    // limiter must pull every code down to <= MAX_CODE_BITS and still leave
    // a valid prefix code that decodes each symbol back to itself.
    let mut freqs = vec![0u32; 40];
    let (mut a, mut b) = (1u32, 1u32);
    for f in freqs.iter_mut() {
        *f = a;
        let c = a + b;
        a = b;
        b = c;
    }
    let lengths = code_lengths(&freqs);
    assert!(lengths.iter().all(|&l| l <= MAX_CODE_BITS && l > 0));

    let codes = canonical_codes(&lengths);
    let decoder = Decoder::from_lengths(&lengths).unwrap();
    for (sym, &(code, len)) in codes.iter().enumerate() {
        let mut w = BitWriter::new();
        w.write_bits(code as u32, len);
        let bytes = w.finish();
        let mut r = BitReader::new(&bytes);
        assert_eq!(decoder.read_symbol(&mut r).unwrap(), sym);
    }
}

#[test]
fn no_used_symbols_get_no_codes() {
    assert_eq!(code_lengths(&[0, 0, 0]), vec![0, 0, 0]);
    assert_eq!(code_lengths(&[]), Vec::<u8>::new());
}

#[test]
fn two_symbols_get_one_bit_each() {
    assert_eq!(code_lengths(&[5, 0, 7]), vec![1, 0, 1]);
}

#[test]
fn frequent_symbols_get_shorter_codes() {
    let lengths = code_lengths(&[8, 4, 2, 1, 1]);
    assert_eq!(lengths, vec![1, 2, 3, 4, 4]);
}

#[test]
fn canonical_codes_follow_the_lengths() {
    // Lengths 2, 1, 3, 3 give codes 10, 0, 110, 111.
    let codes = canonical_codes(&[2, 1, 3, 3]);
    assert_eq!(codes, vec![(0b10, 2), (0b0, 1), (0b110, 3), (0b111, 3)]);
    assert_eq!(canonical_codes(&[0, 0]), vec![(0, 0), (0, 0)]);
}

#[test]
fn overlong_lengths_are_rejected() {
    assert!(matches!(
        Decoder::from_lengths(&[1, 16]),
        Err(KnotError::Corrupt("Huffman code length exceeds maximum"))
    ));
}

#[test]
fn unused_code_is_corrupt_and_short_input_truncated() {
    // Only the code "0" exists: "1" matches no code.
    let decoder = Decoder::from_lengths(&[1, 0]).unwrap();
    let mut r = BitReader::new(&[0x80]);
    assert!(matches!(
        decoder.read_symbol(&mut r),
        Err(KnotError::Corrupt("invalid Huffman code in stream"))
    ));
    // Codes of 2 bits, but the stream holds none.
    let decoder = Decoder::from_lengths(&[2, 2, 2, 2]).unwrap();
    let mut r = BitReader::new(&[]);
    assert!(matches!(decoder.read_symbol(&mut r), Err(KnotError::Truncated)));
}

fn fibonacci_freqs(n: usize) -> Vec<u32> {
    let mut freqs = vec![0u32; n];
    let (mut a, mut b) = (1u32, 1u32);
    for f in freqs.iter_mut() {
        *f = a;
        let c = a + b;
        a = b;
        b = c;
    }
    freqs
}

#[test]
fn limited_lengths_favour_frequent_symbols() {
    let freqs = fibonacci_freqs(40);
    let lengths = code_lengths(&freqs);
    for i in 0..freqs.len() {
        for j in 0..freqs.len() {
            if freqs[i] > freqs[j] {
                assert!(lengths[i] <= lengths[j]);
            }
        }
    }
}

#[test]
fn lengths_form_a_complete_code() {
    for freqs in [fibonacci_freqs(40), vec![3, 1, 4, 1, 5, 9, 2, 6], vec![1, 1]] {
        let lengths = code_lengths(&freqs);
        let kraft: u64 = lengths
            .iter()
            .filter(|&&l| l > 0)
            .map(|&l| 1u64 << (15 - l))
            .sum();
        assert_eq!(kraft, 1 << 15);
    }
}

#[test]
fn empty_table_reads_nothing() {
    let decoder = Decoder::from_lengths(&[0, 0, 0]).unwrap();
    let mut r = BitReader::new(&[0xC0]);
    assert!(matches!(
        decoder.read_symbol(&mut r),
        Err(KnotError::Corrupt("invalid Huffman code in stream"))
    ));
    assert_eq!(r.read_bits(2).unwrap(), 0b11);
}

#[test]
fn lengths_are_the_huffman_tree_depths() {
    // The two light symbols merge first, then join one heavy symbol.
    assert_eq!(code_lengths(&[10, 10, 1, 1]), vec![2, 1, 3, 3]);
    // Equal weights merge in arena order, giving a balanced tree.
    assert_eq!(code_lengths(&[5, 5, 5, 5]), vec![2, 2, 2, 2]);
}

#[test]
fn limited_lengths_follow_the_redistributed_histogram() {
    // A Fibonacci alphabet builds a tree far deeper than 15 bits; the limited
    // lengths hand the shortest codes to the most frequent symbols.
    let mut expected = vec![15u8; 28];
    expected.extend_from_slice(&[14, 14, 10, 9, 8, 7, 6, 5, 4, 3, 2, 1]);
    assert_eq!(code_lengths(&fibonacci_freqs(40)), expected);

    let mut freqs = fibonacci_freqs(30);
    freqs.extend_from_slice(&[1, 1, 1]);
    assert_eq!(
        code_lengths(&freqs),
        vec![
            15, 15, 15, 15, 15, 14, 14, 13, 12, 12, 11, 11, 10, 10, 9, 9, 8, 8, 7, 7, 6, 6, 5, 5, 4, 4,
            3, 3, 2, 2, 15, 15, 15
        ]
    );
}

#[test]
fn huffman_lengths_code_in_the_fewest_bits() {
    let freqs = [10u32, 10, 1, 1];
    let size = |lens: &[u8]| -> u32 { freqs.iter().zip(lens).map(|(&f, &l)| f * l as u32).sum() };
    let best = size(&code_lengths(&freqs));
    assert_eq!(best, 36);
    // Every other complete prefix code over four symbols costs at least as much.
    for other in [[2u8, 2, 2, 2], [1, 2, 3, 3], [3, 3, 2, 1], [2, 1, 3, 3], [1, 3, 3, 2]] {
        assert!(best <= size(&other));
    }
}
