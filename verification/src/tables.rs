//! DEFLATE-style length and distance code tables.
//!
//! A match length (3..=258) or distance (1..=32768) is split into a *code*
//! (which gets a Huffman symbol) plus a few *extra bits* that pick a value
//! within the code's range. The encoder and the decoder both read these tables.
use vstd::prelude::*;
use vstd::arithmetic::power2::{pow2, lemma2_to64};

verus! {

/// Base length for length codes 257..=285 (index 0 == code 257).
pub const LENGTH_BASE: [u16; 29] = [
    3, 4, 5, 6, 7, 8, 9, 10, 11, 13, 15, 17, 19, 23, 27, 31, 35, 43, 51, 59, 67, 83, 99, 115, 131,
    163, 195, 227, 258,
];

/// Extra bits read after each length code.
pub const LENGTH_EXTRA: [u8; 29] = [
    0, 0, 0, 0, 0, 0, 0, 0, 1, 1, 1, 1, 2, 2, 2, 2, 3, 3, 3, 3, 4, 4, 4, 4, 5, 5, 5, 5, 0,
];

/// Base distance for distance codes 0..=29.
pub const DIST_BASE: [u16; 30] = [
    1, 2, 3, 4, 5, 7, 9, 13, 17, 25, 33, 49, 65, 97, 129, 193, 257, 385, 513, 769, 1025, 1537,
    2049, 3073, 4097, 6145, 8193, 12289, 16385, 24577,
];

/// Extra bits read after each distance code.
pub const DIST_EXTRA: [u8; 30] = [
    0, 0, 0, 0, 1, 1, 2, 2, 3, 3, 4, 4, 5, 5, 6, 6, 7, 7, 8, 8, 9, 9, 10, 10, 11, 11, 12, 12, 13,
    13,
];

/// Each length code's range is exactly what its extra bits can express: the
/// next code starts no later than `base + 2^extra`, and the last code covers
/// only 258.
pub proof fn lemma_length_table()
    ensures
        forall|i: int| 0 <= i < 28 ==> LENGTH_BASE[i + 1] <= LENGTH_BASE[i] + pow2(#[trigger] LENGTH_EXTRA[i] as nat),
        forall|i: int| 0 <= i < 29 ==> #[trigger] LENGTH_EXTRA[i] <= 5,
        LENGTH_BASE[0] == 3,
        LENGTH_BASE[28] == 258,
        LENGTH_EXTRA[28] == 0,
{
    lemma2_to64();
    assert forall|i: int| 0 <= i < 28 implies LENGTH_BASE[i + 1] <= LENGTH_BASE[i] + pow2(#[trigger] LENGTH_EXTRA[i] as nat) by {
        lemma2_to64();
    }
}

/// Each distance code's range is exactly what its extra bits can express; the
/// last code reaches 32768.
pub proof fn lemma_dist_table()
    ensures
        forall|i: int| 0 <= i < 29 ==> DIST_BASE[i + 1] == DIST_BASE[i] + pow2(#[trigger] DIST_EXTRA[i] as nat),
        forall|i: int| 0 <= i < 30 ==> #[trigger] DIST_EXTRA[i] <= 13,
        DIST_BASE[0] == 1,
        DIST_BASE[29] == 24577,
        DIST_EXTRA[29] == 13,
        pow2(13) == 8192,
{
    lemma2_to64();
    assert forall|i: int| 0 <= i < 29 implies DIST_BASE[i + 1] == DIST_BASE[i] + pow2(#[trigger] DIST_EXTRA[i] as nat) by {
        lemma2_to64();
    }
}

/// Whether length code `i` (0-based, code `257 + i`) covers `length`: its base
/// is at most `length`, and the next code's base (if any) is above it.
pub open spec fn length_slot(i: int, length: int) -> bool {
    &&& 0 <= i < 29
    &&& LENGTH_BASE[i] <= length
    &&& (i == 28 || length < LENGTH_BASE[i + 1])
}

/// The length code (0-based) whose range holds `length`.
pub open spec fn length_index(length: int) -> int {
    choose|i: int| length_slot(i, length)
}

/// Whether distance code `i` covers `distance`.
pub open spec fn dist_slot(i: int, distance: int) -> bool {
    &&& 0 <= i < 30
    &&& DIST_BASE[i] <= distance
    &&& (i == 29 || distance < DIST_BASE[i + 1])
}

/// The distance code whose range holds `distance`.
pub open spec fn dist_index(distance: int) -> int {
    choose|i: int| dist_slot(i, distance)
}

/// The length bases increase.
proof fn lemma_length_base_sorted(a: int, b: int)
    requires
        0 <= a <= b < 29,
    ensures
        LENGTH_BASE[a] <= LENGTH_BASE[b],
    decreases b - a,
{
    if a < b {
        lemma_length_base_sorted(a, b - 1);
        assert(forall|i: int| 0 <= i < 28 ==> LENGTH_BASE[i] < #[trigger] LENGTH_BASE[i + 1]);
    }
}

/// The distance bases increase.
proof fn lemma_dist_base_sorted(a: int, b: int)
    requires
        0 <= a <= b < 30,
    ensures
        DIST_BASE[a] <= DIST_BASE[b],
    decreases b - a,
{
    if a < b {
        lemma_dist_base_sorted(a, b - 1);
        assert(forall|i: int| 0 <= i < 29 ==> DIST_BASE[i] < #[trigger] DIST_BASE[i + 1]);
    }
}

/// Some length code at or after `i` covers `length`.
proof fn lemma_length_slot_from(length: int, i: int)
    requires
        0 <= i < 29,
        LENGTH_BASE[i] <= length,
    ensures
        exists|j: int| length_slot(j, length),
    decreases 29 - i,
{
    if i == 28 || length < LENGTH_BASE[i + 1] {
        assert(length_slot(i, length));
    } else {
        lemma_length_slot_from(length, i + 1);
    }
}

/// Some distance code at or after `i` covers `distance`.
proof fn lemma_dist_slot_from(distance: int, i: int)
    requires
        0 <= i < 30,
        DIST_BASE[i] <= distance,
    ensures
        exists|j: int| dist_slot(j, distance),
    decreases 30 - i,
{
    if i == 29 || distance < DIST_BASE[i + 1] {
        assert(dist_slot(i, distance));
    } else {
        lemma_dist_slot_from(distance, i + 1);
    }
}

/// Every length of at least 3 has its code.
pub proof fn lemma_length_index_slot(length: int)
    requires
        3 <= length,
    ensures
        length_slot(length_index(length), length),
{
    lemma_length_slot_from(length, 0);
}

/// Every distance of at least 1 has its code.
pub proof fn lemma_dist_index_slot(distance: int)
    requires
        1 <= distance,
    ensures
        dist_slot(dist_index(distance), distance),
{
    lemma_dist_slot_from(distance, 0);
}

/// Exactly one length code covers a length of at least 3.
pub proof fn lemma_length_index(i: int, length: int)
    requires
        length_slot(i, length),
    ensures
        length_index(length) == i,
{
    let j = length_index(length);
    assert(length_slot(j, length));
    if j < i {
        lemma_length_base_sorted(j + 1, i);
    } else if i < j {
        lemma_length_base_sorted(i + 1, j);
    }
}

/// Exactly one distance code covers a distance of at least 1.
pub proof fn lemma_dist_index(i: int, distance: int)
    requires
        dist_slot(i, distance),
    ensures
        dist_index(distance) == i,
{
    let j = dist_index(distance);
    assert(dist_slot(j, distance));
    if j < i {
        lemma_dist_base_sorted(j + 1, i);
    } else if i < j {
        lemma_dist_base_sorted(i + 1, j);
    }
}

/// Map a match length to its literal/length alphabet symbol (257..=285), the
/// number of extra bits, and the extra value to write after the code.
pub fn length_code(length: u16) -> (r: (usize, u8, u16))
    requires
        3 <= length,
    ensures
        257 <= r.0 <= 285,
        r.0 == 257 + length_index(length as int),
        LENGTH_BASE[r.0 - 257] <= length,
        r.0 < 285 ==> length < LENGTH_BASE[r.0 - 256],
        r.1 == LENGTH_EXTRA[r.0 - 257],
        r.2 == length - LENGTH_BASE[r.0 - 257],
        length <= 258 ==> r.2 < pow2(r.1 as nat),
{
    proof {
        lemma_length_table();
    }
    let mut idx: usize = 0;
    while idx + 1 < LENGTH_BASE.len() && LENGTH_BASE[idx + 1] <= length
        invariant
            idx < 29,
            LENGTH_BASE[idx as int] <= length,
                forall|i: int| 0 <= i < 28 ==> LENGTH_BASE[i + 1] <= LENGTH_BASE[i] + pow2(#[trigger] LENGTH_EXTRA[i] as nat),
            LENGTH_BASE[28] == 258,
            LENGTH_EXTRA[28] == 0,
        decreases 29 - idx,
    {
        idx += 1;
    }
    proof {
        lemma2_to64();
        lemma_length_index(idx as int, length as int);
    }
    (257 + idx, LENGTH_EXTRA[idx], length - LENGTH_BASE[idx])
}

/// Map a match distance to its distance alphabet symbol (0..=29), the number of
/// extra bits, and the extra value to write after the code.
pub fn distance_code(distance: u16) -> (r: (usize, u8, u16))
    requires
        1 <= distance,
    ensures
        r.0 <= 29,
        r.0 == dist_index(distance as int),
        DIST_BASE[r.0 as int] <= distance,
        r.0 < 29 ==> distance < DIST_BASE[r.0 + 1],
        r.1 == DIST_EXTRA[r.0 as int],
        r.2 == distance - DIST_BASE[r.0 as int],
        distance <= 32768 ==> r.2 < pow2(r.1 as nat),
{
    proof {
        lemma_dist_table();
    }
    let mut idx: usize = 0;
    while idx + 1 < DIST_BASE.len() && DIST_BASE[idx + 1] <= distance
        invariant
            idx < 30,
            DIST_BASE[idx as int] <= distance,
                forall|i: int| 0 <= i < 29 ==> DIST_BASE[i + 1] == DIST_BASE[i] + pow2(#[trigger] DIST_EXTRA[i] as nat),
            DIST_BASE[29] == 24577,
            DIST_EXTRA[29] == 13,
            pow2(13) == 8192,
        decreases 30 - idx,
    {
        idx += 1;
    }
    proof {
        lemma_dist_index(idx as int, distance as int);
    }
    (idx, DIST_EXTRA[idx], distance - DIST_BASE[idx])
}

} // verus!
