use knot::tables::{distance_code, length_code, DIST_BASE, LENGTH_BASE};

#[test]
fn length_boundaries() {
    assert_eq!(length_code(3), (257, 0, 0));
    assert_eq!(length_code(10), (264, 0, 0));
    assert_eq!(length_code(11), (265, 1, 0));
    assert_eq!(length_code(12), (265, 1, 1));
    assert_eq!(length_code(258), (285, 0, 0));
}

#[test]
fn distance_boundaries() {
    assert_eq!(distance_code(1), (0, 0, 0));
    assert_eq!(distance_code(4), (3, 0, 0));
    assert_eq!(distance_code(5), (4, 1, 0));
    assert_eq!(distance_code(6), (4, 1, 1));
    assert_eq!(distance_code(32768), (29, 13, 8191));
}

/// Every length/distance must round-trip through code + extra back to itself.
#[test]
fn codes_reconstruct_values() {
    for length in 3u16..=258 {
        let (sym, _bits, extra) = length_code(length);
        assert_eq!(LENGTH_BASE[sym - 257] + extra, length);
    }
    for distance in 1u16..=32768 {
        let (sym, _bits, extra) = distance_code(distance);
        assert_eq!(DIST_BASE[sym] + extra, distance);
    }
}

#[test]
fn middle_of_a_range_uses_extra_bits() {
    assert_eq!(length_code(227), (284, 5, 0));
    assert_eq!(length_code(257), (284, 5, 30));
    assert_eq!(distance_code(24577), (29, 13, 0));
    assert_eq!(distance_code(1000), (19, 8, 231));
}
