//! The mathematics of canonical Huffman codes: from code lengths alone, the
//! codes of each length are consecutive numbers, starting where the codes of
//! the previous length left off (doubled). The decoder reads bits until the
//! value read lands in some length's range.
use vstd::prelude::*;
use vstd::arithmetic::power2::{pow2, lemma_pow2_adds, lemma_pow2_pos, lemma_pow2_unfold, lemma2_to64,
    lemma_pow2_strictly_increases};
use vstd::arithmetic::div_mod::{lemma_fundamental_div_mod, lemma_div_is_ordered,
    lemma_div_by_multiple, lemma_mod_pos_bound};
use crate::bitio::{bits_of, value_of, lemma_bits_of_split, lemma_value_of_bits, lemma_bits_of_len};
use crate::huffman::{kraft_sum, kraft_ok};

verus! {

/// The symbols whose code length is `l`, in increasing order.
pub open spec fn syms_of_len(lens: Seq<u8>, l: nat) -> Seq<nat>
    decreases lens.len(),
{
    if lens.len() == 0 {
        Seq::empty()
    } else {
        let p = syms_of_len(lens.drop_last(), l);
        if lens.last() == l {
            p.push((lens.len() - 1) as nat)
        } else {
            p
        }
    }
}

/// How many symbols have a code of length `l` (lengths of 0 are not codes).
pub open spec fn count_len(lens: Seq<u8>, l: nat) -> nat {
    if l == 0 {
        0
    } else {
        syms_of_len(lens, l).len()
    }
}

/// The longest code length.
pub open spec fn max_len(lens: Seq<u8>) -> nat
    decreases lens.len(),
{
    if lens.len() == 0 {
        0
    } else {
        let m = max_len(lens.drop_last());
        if lens.last() > m {
            lens.last() as nat
        } else {
            m
        }
    }
}

/// The first canonical code of length `l`, computed as the construction does
/// in 32-bit arithmetic: `first(l) = 2 * (first(l-1) + count(l-1))`.
pub open spec fn first_code(lens: Seq<u8>, l: nat) -> nat
    decreases l,
{
    if l == 0 {
        0
    } else {
        ((first_code(lens, (l - 1) as nat) + count_len(lens, (l - 1) as nat)) * 2) % 0x1_0000_0000
    }
}

/// The position of symbol `s` among the symbols of its length.
pub open spec fn rank(lens: Seq<u8>, s: int) -> nat {
    syms_of_len(lens.take(s), lens[s] as nat).len()
}

/// The canonical code of symbol `s`: the first code of its length plus its rank.
pub open spec fn canonical_code(lens: Seq<u8>, s: int) -> nat {
    first_code(lens, lens[s] as nat) + rank(lens, s)
}

/// The number of symbols that have a code.
pub open spec fn num_codes(lens: Seq<u8>) -> nat
    decreases lens.len(),
{
    if lens.len() == 0 {
        0
    } else {
        num_codes(lens.drop_last()) + if lens.last() > 0 { 1nat } else { 0nat }
    }
}

/// Where the codes of each length start and end never overflow 32 bits, up to `hi`.
pub open spec fn codes_fit_to(lens: Seq<u8>, hi: nat) -> bool {
    forall|l: nat| 1 <= l <= hi ==> #[trigger] first_code(lens, l) + count_len(lens, l) <= u32::MAX
}

/// The code space used by the codes of length at most `l`, in units of `2^-l`:
/// `space(l) = 2 * space(l-1) + count(l)`, computed exactly.
pub open spec fn space_at(lens: Seq<u8>, l: nat) -> nat
    decreases l,
{
    if l == 0 {
        0
    } else {
        2 * space_at(lens, (l - 1) as nat) + count_len(lens, l)
    }
}

/// The outcome of looking up a code at the front of a bit sequence.
pub enum Lookup {
    /// A code of `used` bits for `symbol`.
    Found { symbol: nat, used: nat },
    /// The bits ran out before any code matched.
    OutOfBits,
    /// No code of any length matches.
    NoCode,
}

/// Canonical decoding: try lengths `l, l+1, ...` up to the longest code; at
/// each, read `l` bits as a number and check whether it falls in the range of
/// codes of that length.
pub open spec fn lookup_from(lens: Seq<u8>, bits: Seq<bool>, l: nat) -> Lookup
    decreases 16 - l,
{
    if l == 0 || l > 15 || l > max_len(lens) {
        Lookup::NoCode
    } else if bits.len() < l {
        Lookup::OutOfBits
    } else {
        let code = value_of(bits.take(l as int));
        let first = first_code(lens, l);
        if first <= code && code < first + count_len(lens, l) {
            Lookup::Found { symbol: syms_of_len(lens, l)[code - first] % 0x1_0000, used: l }
        } else {
            lookup_from(lens, bits, l + 1)
        }
    }
}

/// Decode the symbol whose code starts `bits`.
pub open spec fn lookup(lens: Seq<u8>, bits: Seq<bool>) -> Lookup {
    lookup_from(lens, bits, 1)
}

/// A code found by the lookup uses at least one bit and no more bits than there are.
pub proof fn lemma_lookup_used(lens: Seq<u8>, bits: Seq<bool>, l: nat)
    ensures
        lookup_from(lens, bits, l) is Found ==> 1 <= lookup_from(lens, bits, l)->used <= bits.len(),
    decreases 16 - l,
{
    if !(l == 0 || l > 15 || l > max_len(lens)) && bits.len() >= l {
        lemma_lookup_used(lens, bits, l + 1);
    }
}

// ---------------------------------------------------------------------------
// Lemmas about prefixes of the length sequence.
// ---------------------------------------------------------------------------

pub proof fn lemma_syms_take_step(lens: Seq<u8>, i: int, l: nat)
    requires
        0 <= i < lens.len(),
    ensures
        syms_of_len(lens.take(i + 1), l) == if lens[i] == l {
            syms_of_len(lens.take(i), l).push(i as nat)
        } else {
            syms_of_len(lens.take(i), l)
        },
{
    assert(lens.take(i + 1).drop_last() =~= lens.take(i));
}

pub proof fn lemma_max_take_step(lens: Seq<u8>, i: int)
    requires
        0 <= i < lens.len(),
    ensures
        max_len(lens.take(i + 1)) == if lens[i] > max_len(lens.take(i)) { lens[i] as nat } else { max_len(lens.take(i)) },
{
    assert(lens.take(i + 1).drop_last() =~= lens.take(i));
}

/// The symbols of a length in a prefix are a prefix of all the symbols of that length.
pub proof fn lemma_syms_prefix(lens: Seq<u8>, i: int, l: nat)
    requires
        0 <= i <= lens.len(),
    ensures
        syms_of_len(lens.take(i), l).len() <= syms_of_len(lens, l).len(),
        forall|k: int| 0 <= k < syms_of_len(lens.take(i), l).len() ==>
            #[trigger] syms_of_len(lens.take(i), l)[k] == syms_of_len(lens, l)[k],
    decreases lens.len() - i,
{
    if i < lens.len() {
        lemma_syms_prefix(lens, i + 1, l);
        lemma_syms_take_step(lens, i, l);
        let a = syms_of_len(lens.take(i), l);
        let b = syms_of_len(lens.take(i + 1), l);
        assert forall|k: int| 0 <= k < a.len() implies #[trigger] a[k] == syms_of_len(lens, l)[k] by {
            assert(a[k] == b[k]);
        }
    } else {
        assert(lens.take(i) =~= lens);
    }
}

/// The symbols of length `l` are all below `lens.len()` and really have length `l`.
pub proof fn lemma_syms_members(lens: Seq<u8>, l: nat)
    ensures
        forall|k: int| 0 <= k < syms_of_len(lens, l).len() ==> #[trigger] syms_of_len(lens, l)[k] < lens.len()
            && lens[syms_of_len(lens, l)[k] as int] == l,
    decreases lens.len(),
{
    if lens.len() > 0 {
        lemma_syms_members(lens.drop_last(), l);
        let p = syms_of_len(lens.drop_last(), l);
        assert forall|k: int| 0 <= k < syms_of_len(lens, l).len() implies #[trigger] syms_of_len(lens, l)[k] < lens.len()
            && lens[syms_of_len(lens, l)[k] as int] == l by {
            if k < p.len() {
                assert(syms_of_len(lens, l)[k] == p[k]);
                assert(lens.drop_last()[p[k] as int] == lens[p[k] as int]);
            }
        }
    }
}

/// Symbol `s` sits at position `rank(s)` among the symbols of its length.
pub proof fn lemma_rank_index(lens: Seq<u8>, s: int)
    requires
        0 <= s < lens.len(),
    ensures
        rank(lens, s) < count_len(lens, lens[s] as nat) || lens[s] == 0,
        rank(lens, s) < syms_of_len(lens, lens[s] as nat).len(),
        syms_of_len(lens, lens[s] as nat)[rank(lens, s) as int] == s,
{
    let l = lens[s] as nat;
    lemma_syms_take_step(lens, s, l);
    lemma_syms_prefix(lens, s + 1, l);
    let pre = syms_of_len(lens.take(s + 1), l);
    assert(pre[rank(lens, s) as int] == s);
}

/// A code's length is at most the longest length.
pub proof fn lemma_max_len_bound(lens: Seq<u8>, s: int)
    requires
        0 <= s < lens.len(),
    ensures
        lens[s] <= max_len(lens),
    decreases lens.len(),
{
    if s < lens.len() - 1 {
        lemma_max_len_bound(lens.drop_last(), s);
    }
}

pub proof fn lemma_max_len_is_some(lens: Seq<u8>)
    ensures
        max_len(lens) <= 255,
        max_len(lens) > 0 ==> exists|s: int| 0 <= s < lens.len() && lens[s] == max_len(lens),
    decreases lens.len(),
{
    if lens.len() > 0 {
        lemma_max_len_is_some(lens.drop_last());
        if max_len(lens.drop_last()) > 0 && lens.last() <= max_len(lens.drop_last()) {
            let s = choose|s: int| 0 <= s < lens.drop_last().len() && lens.drop_last()[s] == max_len(lens.drop_last());
            assert(lens[s] == max_len(lens));
        } else if max_len(lens) > 0 {
            assert(lens[lens.len() - 1] == max_len(lens));
        }
    }
}

/// When every length is at most `m`, so is the longest.
pub proof fn lemma_max_len_at_most(lens: Seq<u8>, m: nat)
    requires
        forall|i: int| 0 <= i < lens.len() ==> lens[i] <= m,
    ensures
        max_len(lens) <= m,
{
    lemma_max_len_is_some(lens);
    if max_len(lens) > 0 {
        let s = choose|s: int| 0 <= s < lens.len() && lens[s] == max_len(lens);
        assert(lens[s] <= m);
    }
}

/// No symbol has a code longer than the longest length.
pub proof fn lemma_count_above_max(lens: Seq<u8>, l: nat)
    requires
        l > max_len(lens),
    ensures
        count_len(lens, l) == 0,
{
    if l > 0 {
        lemma_syms_members(lens, l);
        if syms_of_len(lens, l).len() > 0 {
            let s = syms_of_len(lens, l)[0] as int;
            lemma_max_len_bound(lens, s);
        }
    }
}

/// Each count is at most the number of coded symbols.
pub proof fn lemma_count_le_codes(lens: Seq<u8>, l: nat)
    ensures
        count_len(lens, l) <= num_codes(lens),
    decreases lens.len(),
{
    if lens.len() > 0 && l > 0 {
        lemma_count_le_codes(lens.drop_last(), l);
    }
}

// ---------------------------------------------------------------------------
// Kraft's inequality and the canonical codes.
// ---------------------------------------------------------------------------

/// Adding one symbol of length `x` adds its share `2^(l-x)` to the space up to `l`.
pub proof fn lemma_space_push(lens: Seq<u8>, x: u8, l: nat)
    ensures
        space_at(lens.push(x), l) == space_at(lens, l) + if 1 <= x <= l { pow2((l - x) as nat) } else { 0 },
    decreases l,
{
    assert(lens.push(x).drop_last() =~= lens);
    if l > 0 {
        lemma_space_push(lens, x, (l - 1) as nat);
        if 1 <= x <= l - 1 {
            lemma_pow2_unfold((l - x) as nat);
        } else if x == l {
            lemma2_to64();
        }
    }
}

/// The per-symbol Kraft sum is the space used up to length 15.
pub proof fn lemma_kraft_is_space(lens: Seq<u8>)
    requires
        forall|i: int| 0 <= i < lens.len() ==> lens[i] <= 15,
    ensures
        kraft_sum(lens) == space_at(lens, 15),
    decreases lens.len(),
{
    if lens.len() == 0 {
        lemma_space_empty(lens, 15);
    } else {
        let t = lens.drop_last();
        lemma_kraft_is_space(t);
        lemma_space_push(t, lens.last(), 15);
        assert(t.push(lens.last()) =~= lens);
    }
}

pub proof fn lemma_space_empty(lens: Seq<u8>, l: nat)
    requires
        lens.len() == 0,
    ensures
        space_at(lens, l) == 0,
    decreases l,
{
    if l > 0 {
        lemma_space_empty(lens, (l - 1) as nat);
    }
}

/// The space up to a shorter length, scaled, never exceeds the space up to a longer one.
pub proof fn lemma_space_grows(lens: Seq<u8>, a: nat, b: nat)
    requires
        a <= b,
    ensures
        space_at(lens, a) * pow2((b - a) as nat) <= space_at(lens, b),
    decreases b,
{
    if a == b {
        lemma2_to64();
        let x = space_at(lens, a);
        assert(x * pow2(0) == x) by (nonlinear_arith)
            requires
                pow2(0) == 1,
        ;
    } else {
        lemma_space_grows(lens, a, (b - 1) as nat);
        lemma_pow2_unfold((b - a) as nat);
        let x = space_at(lens, a);
        let p = pow2((b - 1 - a) as nat);
        assert(x * (2 * p) == 2 * (x * p)) by (nonlinear_arith);
    }
}

/// Under Kraft's inequality the first codes are exact (no 32-bit wrap-around),
/// equal to twice the space used by shorter codes, and every length's codes fit in its bits.
pub proof fn lemma_kraft_first_code(lens: Seq<u8>, l: nat)
    requires
        kraft_ok(lens),
        1 <= l <= 15,
    ensures
        first_code(lens, l) == 2 * space_at(lens, (l - 1) as nat),
        first_code(lens, l) + count_len(lens, l) == space_at(lens, l),
        space_at(lens, l) <= pow2(l),
    decreases l,
{
    lemma_kraft_is_space(lens);
    lemma_space_grows(lens, l, 15);
    lemma_pow2_adds(l, (15 - l) as nat);
    lemma_pow2_pos((15 - l) as nat);
    let x = space_at(lens, l);
    let p = pow2((15 - l) as nat);
    assert(x <= pow2(l)) by (nonlinear_arith)
        requires
            x * p <= pow2(15),
            pow2(15) == pow2(l) * p,
            p > 0,
    ;
    lemma2_to64();
    lemma_pow2_strictly_increases(l, 32);
    if l > 1 {
        lemma_kraft_first_code(lens, (l - 1) as nat);
        let y = space_at(lens, (l - 1) as nat);
        lemma_pow2_unfold(l);
        assert(y * 2 <= pow2(l));
        vstd::arithmetic::div_mod::lemma_small_mod(y * 2, 0x1_0000_0000);
    } else {
        assert(first_code(lens, 0) == 0);
        assert(count_len(lens, 0) == 0);
        assert(space_at(lens, 0) == 0);
    }
}

/// Reading the first `l` of the `len` bits of `v` gives `v / 2^(len - l)`.
pub proof fn lemma_bits_prefix_value(v: nat, len: nat, l: nat)
    requires
        l <= len,
        v < pow2(len),
    ensures
        bits_of(v, len).take(l as int) == bits_of(v / pow2((len - l) as nat), l),
        value_of(bits_of(v, len).take(l as int)) == v / pow2((len - l) as nat),
{
    let r = (len - l) as nat;
    lemma_pow2_pos(r);
    let hi = v / pow2(r);
    let lo = v % pow2(r);
    lemma_fundamental_div_mod(v as int, pow2(r) as int);
    lemma_mod_pos_bound(v as int, pow2(r) as int);
    assert(v == hi * pow2(r) + lo) by (nonlinear_arith)
        requires
            v as int == pow2(r) * (v as int / pow2(r) as int) + (v as int % pow2(r) as int),
            hi == v as int / pow2(r) as int,
            lo == v as int % pow2(r) as int,
    ;
    lemma_bits_of_split(hi, lo, l, r);
    lemma_bits_of_len(hi, l);
    assert(bits_of(v, len).take(l as int) =~= bits_of(hi, l));
    lemma_value_of_bits(hi, l);
    lemma_pow2_adds(l, r);
    assert(hi < pow2(l)) by (nonlinear_arith)
        requires
            v == hi * pow2(r) + lo,
            v < pow2(l) * pow2(r),
            pow2(r) > 0,
    ;
    vstd::arithmetic::div_mod::lemma_small_mod(hi, pow2(l));
}

/// Canonical codes form a prefix code: when the lengths satisfy Kraft's
/// inequality, the code of each symbol, followed by anything, decodes back to
/// that symbol and uses exactly its code's bits.
pub proof fn lemma_lookup_canonical(lens: Seq<u8>, s: int, rest: Seq<bool>)
    requires
        kraft_ok(lens),
        0 <= s < lens.len(),
        lens.len() <= 0x1_0000,
        lens[s] > 0,
    ensures
        canonical_code(lens, s) < pow2(lens[s] as nat),
        lookup(lens, bits_of(canonical_code(lens, s), lens[s] as nat) + rest)
            == (Lookup::Found { symbol: s as nat, used: lens[s] as nat }),
{
    let len = lens[s] as nat;
    let code = canonical_code(lens, s);
    let bits = bits_of(code, len) + rest;
    lemma_rank_index(lens, s);
    lemma_kraft_first_code(lens, len);
    lemma_max_len_bound(lens, s);
    lemma_bits_of_len(code, len);
    assert(code < pow2(len));
    lemma_lookup_skip(lens, s, rest, 1);
}

/// The lookup passes over every length shorter than the symbol's own.
proof fn lemma_lookup_skip(lens: Seq<u8>, s: int, rest: Seq<bool>, l: nat)
    requires
        kraft_ok(lens),
        0 <= s < lens.len(),
        lens.len() <= 0x1_0000,
        lens[s] > 0,
        1 <= l <= lens[s],
        canonical_code(lens, s) < pow2(lens[s] as nat),
        canonical_code(lens, s) < space_at(lens, lens[s] as nat),
        first_code(lens, lens[s] as nat) <= canonical_code(lens, s),
        rank(lens, s) < syms_of_len(lens, lens[s] as nat).len(),
        syms_of_len(lens, lens[s] as nat)[rank(lens, s) as int] == s,
        lens[s] <= max_len(lens),
    ensures
        lookup_from(lens, bits_of(canonical_code(lens, s), lens[s] as nat) + rest, l)
            == (Lookup::Found { symbol: s as nat, used: lens[s] as nat }),
    decreases lens[s] - l,
{
    let len = lens[s] as nat;
    let code = canonical_code(lens, s);
    let bits = bits_of(code, len) + rest;
    lemma_bits_of_len(code, len);
    lemma_bits_prefix_value(code, len, l);
    assert(bits.take(l as int) =~= bits_of(code, len).take(l as int));
    lemma_kraft_first_code(lens, len);
    lemma_kraft_first_code(lens, l);
    if l < len {
        // The first `l` bits of the code lie above every code of length `l`.
        let r = (len - l) as nat;
        lemma_space_grows(lens, l, (len - 1) as nat);
        lemma_pow2_unfold(r);
        let sp = space_at(lens, l);
        let q = pow2((len - 1 - l) as nat);
        assert(sp * pow2(r) <= first_code(lens, len)) by (nonlinear_arith)
            requires
                sp * q <= space_at(lens, (len - 1) as nat),
                first_code(lens, len) == 2 * space_at(lens, (len - 1) as nat),
                pow2(r) == 2 * q,
        ;
        lemma_pow2_pos(r);
        assert(sp <= code / pow2(r)) by {
            lemma_div_is_ordered((sp * pow2(r)) as int, code as int, pow2(r) as int);
            lemma_div_by_multiple(sp as int, pow2(r) as int);
        }
        lemma_lookup_skip(lens, s, rest, l + 1);
    } else {
        assert(code - first_code(lens, len) == rank(lens, s));
        vstd::arithmetic::div_mod::lemma_small_mod(s as nat, 0x1_0000);
        lemma2_to64();
        assert(code / pow2(0) == code);
    }
}

/// The first `l < len` bits of a symbol's code read as a number above every
/// code of length `l`.
proof fn lemma_code_above(lens: Seq<u8>, s: int, l: nat)
    requires
        kraft_ok(lens),
        0 <= s < lens.len(),
        lens.len() <= 0x1_0000,
        lens[s] > 0,
        1 <= l < lens[s],
    ensures
        first_code(lens, l) + count_len(lens, l)
            <= value_of(bits_of(canonical_code(lens, s), lens[s] as nat).take(l as int)),
{
    let len = lens[s] as nat;
    let code = canonical_code(lens, s);
    lemma_lookup_canonical(lens, s, Seq::empty());
    lemma_rank_index(lens, s);
    lemma_bits_prefix_value(code, len, l);
    lemma_kraft_first_code(lens, len);
    lemma_kraft_first_code(lens, l);
    let r = (len - l) as nat;
    lemma_space_grows(lens, l, (len - 1) as nat);
    lemma_pow2_unfold(r);
    let sp = space_at(lens, l);
    let q = pow2((len - 1 - l) as nat);
    assert(sp * pow2(r) <= first_code(lens, len)) by (nonlinear_arith)
        requires
            sp * q <= space_at(lens, (len - 1) as nat),
            first_code(lens, len) == 2 * space_at(lens, (len - 1) as nat),
            pow2(r) == 2 * q,
    ;
    lemma_pow2_pos(r);
    assert(first_code(lens, len) <= code);
    assert(sp <= code / pow2(r)) by {
        lemma_div_is_ordered((sp * pow2(r)) as int, code as int, pow2(r) as int);
        lemma_div_by_multiple(sp as int, pow2(r) as int);
    }
}

/// A code cut short matches no code: the lookup runs out of bits.
pub proof fn lemma_lookup_cut(lens: Seq<u8>, s: int, bits: Seq<bool>)
    requires
        kraft_ok(lens),
        0 <= s < lens.len(),
        lens.len() <= 0x1_0000,
        lens[s] > 0,
        bits.len() < lens[s],
        bits == bits_of(canonical_code(lens, s), lens[s] as nat).take(bits.len() as int),
    ensures
        lookup(lens, bits) == Lookup::OutOfBits,
{
    lemma_lookup_cut_from(lens, s, bits, 1);
}

proof fn lemma_lookup_cut_from(lens: Seq<u8>, s: int, bits: Seq<bool>, l: nat)
    requires
        kraft_ok(lens),
        0 <= s < lens.len(),
        lens.len() <= 0x1_0000,
        lens[s] > 0,
        bits.len() < lens[s],
        bits == bits_of(canonical_code(lens, s), lens[s] as nat).take(bits.len() as int),
        1 <= l <= bits.len() + 1,
    ensures
        lookup_from(lens, bits, l) == Lookup::OutOfBits,
    decreases bits.len() + 1 - l,
{
    lemma_max_len_bound(lens, s);
    assert(lens[s] <= 15);
    if l <= bits.len() {
        let code = canonical_code(lens, s);
        let len = lens[s] as nat;
        lemma_bits_of_len(code, len);
        assert(bits.take(l as int) =~= bits_of(code, len).take(l as int));
        lemma_code_above(lens, s, l);
        lemma_lookup_cut_from(lens, s, bits, l + 1);
    }
}

} // verus!
