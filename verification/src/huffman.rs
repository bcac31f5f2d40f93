//! Canonical Huffman coding.
//!
//! Given how often each symbol occurs we build an optimal set of bit-lengths
//! (shorter codes for common symbols): the leaf depths of a Huffman tree,
//! capped at `MAX_CODE_BITS` so codes always fit in a u16 and the decoder
//! stays bounded. The contracts state the lengths as the depths of the tree
//! that Huffman's merging builds (`optimal.rs` proves that no other prefix
//! code is shorter). From the *lengths alone* both sides rebuild identical
//! codes ("canonical" codes), so only the lengths are stored.
use vstd::prelude::*;
use vstd::arithmetic::power2::{pow2, lemma_pow2_adds, lemma_pow2_pos, lemma2_to64, lemma_pow2_unfold};
use vstd::bits::{lemma_u64_shl_is_mul, lemma_u64_pow2_no_overflow};
use crate::kraft::{hist_sum, sym_sum, space_w, clamp_w, ge_w, gt_w, deep_w, one_w, zero_w,
    lemma_hist_sum_zero_tail, lemma_hist_sum_congruent, lemma_sym_sum_push,
    lemma_sym_sum_take, lemma_sym_sum_update, lemma_sym_sum_linear, lemma_sym_sum_le, lemma_sym_sum_pos,
    lemma_space_split, lemma_sym_sum_zero, lemma_hist_sum_mono, lemma_hist_entry_le, lemma_hist_two_entries,
    lemma_hist_ge_is_entry, lemma_hist_only_top, lemma_hist_sum_add, lemma_hist_sum_unit_step};
use crate::canonical::{syms_of_len, count_len, max_len, first_code, canonical_code, num_codes,
    codes_fit_to, space_at, Lookup, lookup_from, lookup, lemma_syms_take_step,
    lemma_max_take_step, lemma_syms_prefix, lemma_count_above_max, lemma_count_le_codes};
use crate::bitio::{BitReader, value_of};
use crate::error::{KnotError, Result};
use crate::forest::{NO_PARENT, forest_wf, root_of, depth_of, leaf_sum, leaf_term, merged, lemma_root_facts,
    lemma_merged_wf, lemma_merge_node, lemma_merge_sums, lemma_initial_sums};

verus! {

/// Maximum code length; codes therefore fit in 15 bits.
pub const MAX_CODE_BITS: u8 = 15;

/// The number of symbols with a nonzero frequency.
pub open spec fn num_used(freqs: Seq<u32>) -> nat
    decreases freqs.len(),
{
    if freqs.len() == 0 {
        0
    } else {
        num_used(freqs.drop_last()) + if freqs.last() > 0 { 1nat } else { 0nat }
    }
}

/// The share of the 15-bit code space that codes of these lengths take, in
/// units of `2^-15` (a length of 0 means "no code").
pub open spec fn kraft_sum(lens: Seq<u8>) -> nat
    decreases lens.len(),
{
    if lens.len() == 0 {
        0
    } else {
        kraft_sum(lens.drop_last()) + if 1 <= lens.last() <= 15 {
            pow2((15 - lens.last()) as nat)
        } else {
            0
        }
    }
}

/// Lengths of at most 15 bits that fit a prefix code (Kraft's inequality).
pub open spec fn kraft_ok(lens: Seq<u8>) -> bool {
    &&& forall|i: int| 0 <= i < lens.len() ==> #[trigger] lens[i] <= 15
    &&& kraft_sum(lens) <= pow2(15)
}

pub proof fn lemma_num_used_take(freqs: Seq<u32>, i: int)
    requires
        0 <= i < freqs.len(),
    ensures
        num_used(freqs.take(i + 1)) == num_used(freqs.take(i)) + if freqs[i] > 0 { 1nat } else { 0nat },
{
    assert(freqs.take(i + 1).drop_last() =~= freqs.take(i));
}

proof fn lemma_num_used_le(freqs: Seq<u32>, i: int)
    requires
        0 <= i <= freqs.len(),
    ensures
        num_used(freqs.take(i)) <= num_used(freqs),
        num_used(freqs) <= freqs.len(),
    decreases freqs.len() - i,
{
    if i < freqs.len() {
        lemma_num_used_take(freqs, i);
        lemma_num_used_le(freqs, i + 1);
    } else {
        assert(freqs.take(i) =~= freqs);
        lemma_num_used_bound(freqs);
    }
}

pub proof fn lemma_num_used_bound(freqs: Seq<u32>)
    ensures
        num_used(freqs) <= freqs.len(),
    decreases freqs.len(),
{
    if freqs.len() > 0 {
        lemma_num_used_bound(freqs.drop_last());
    }
}

/// With no symbol used, every frequency is zero.
proof fn lemma_num_used_zero(freqs: Seq<u32>, i: int)
    requires
        num_used(freqs) == 0,
        0 <= i < freqs.len(),
    ensures
        freqs[i] == 0,
    decreases freqs.len(),
{
    if i < freqs.len() - 1 {
        lemma_num_used_zero(freqs.drop_last(), i);
    }
}

/// With exactly one symbol used, any two used symbols are the same.
proof fn lemma_num_used_one(freqs: Seq<u32>, a: int, b: int)
    requires
        num_used(freqs) == 1,
        0 <= a < freqs.len(),
        0 <= b < freqs.len(),
        freqs[a] > 0,
        freqs[b] > 0,
    ensures
        a == b,
    decreases freqs.len(),
{
    let t = freqs.drop_last();
    let last = freqs.len() - 1;
    if a < last && b < last {
        if freqs.last() > 0 {
            lemma_num_used_pos(t, a);
        } else {
            lemma_num_used_one(t, a, b);
        }
    } else if a < last {
        assert(freqs.last() > 0);
        lemma_num_used_pos(t, a);
    } else if b < last {
        assert(freqs.last() > 0);
        lemma_num_used_pos(t, b);
    }
}

pub proof fn lemma_num_used_pos(freqs: Seq<u32>, a: int)
    requires
        0 <= a < freqs.len(),
        freqs[a] > 0,
    ensures
        num_used(freqs) >= 1,
    decreases freqs.len(),
{
    if a < freqs.len() - 1 {
        lemma_num_used_pos(freqs.drop_last(), a);
    }
}

/// When lengths are nonzero exactly for the used symbols, counting the nonzero
/// lengths counts the used symbols.
proof fn lemma_count_nonzero(lens: Seq<usize>, freqs: Seq<u32>)
    requires
        lens.len() == freqs.len(),
        forall|i: int| 0 <= i < lens.len() ==> (lens[i] == 0) == (freqs[i] == 0),
    ensures
        sym_sum(lens, one_w()) == num_used(freqs),
    decreases lens.len(),
{
    if lens.len() > 0 {
        let k = lens.len() - 1;
        assert((lens[k] == 0) == (freqs[k] == 0));
        lemma_count_nonzero(lens.drop_last(), freqs.drop_last());
    }
}

/// The Kraft sum of byte lengths equals the 15-bit space sum of the same lengths held as `usize`.
proof fn lemma_kraft_sum_matches(lens: Seq<u8>, raw: Seq<usize>)
    requires
        lens.len() == raw.len(),
        forall|i: int| 0 <= i < lens.len() ==> lens[i] as usize == raw[i],
    ensures
        kraft_sum(lens) == sym_sum(raw, space_w(15)),
    decreases lens.len(),
{
    if lens.len() > 0 {
        let k = lens.len() - 1;
        assert(lens[k] as usize == raw[k]);
        lemma_kraft_sum_matches(lens.drop_last(), raw.drop_last());
    }
}

/// How many entries of `lens` equal `l`.
pub open spec fn count_eq(lens: Seq<usize>, l: nat) -> nat
    decreases lens.len(),
{
    if lens.len() == 0 {
        0
    } else {
        count_eq(lens.drop_last(), l) + if lens.last() == l { 1nat } else { 0nat }
    }
}

/// How many entries of `lens` are at least `l`.
pub open spec fn count_ge(lens: Seq<usize>, l: nat) -> nat
    decreases lens.len(),
{
    if lens.len() == 0 {
        0
    } else {
        count_ge(lens.drop_last(), l) + if lens.last() >= l { 1nat } else { 0nat }
    }
}

/// The histogram of the lengths `lens` (entry `l` counts the lengths equal to
/// `l`, for `1 <= l <= limit`), with every length beyond `limit` folded down
/// onto `limit`.
pub open spec fn folded_hist(lens: Seq<usize>, limit: nat) -> Seq<u32> {
    Seq::new(limit + 1, |l: int|
        if l == 0 {
            0u32
        } else if l < limit {
            count_eq(lens, l as nat) as u32
        } else {
            count_ge(lens, limit) as u32
        })
}

/// The longest length `1 <= l <= j` that the histogram `h` still uses, or 0.
pub open spec fn top_used(h: Seq<u32>, j: nat) -> nat
    decreases j,
{
    if j == 0 {
        0
    } else if h[j as int] > 0 {
        j
    } else {
        top_used(h, (j - 1) as nat)
    }
}

/// Restoring Kraft's inequality on the histogram `h` whose Kraft sum, in units
/// of `2^-limit`, is `kraft`: while it exceeds the whole space, one code leaves
/// the limit and the longest shorter code splits into two codes one bit longer
/// (stopping, with that code removed, if there is no shorter code).
pub open spec fn rebalanced(h: Seq<u32>, limit: nat, kraft: nat) -> Seq<u32>
    decreases kraft,
{
    if kraft <= pow2(limit) {
        h
    } else {
        let h1 = h.update(limit as int, (h[limit as int] - 1) as u32);
        let j = top_used(h1, (limit - 1) as nat);
        if j == 0 {
            h1
        } else {
            rebalanced(
                h1.update(j as int, (h1[j as int] - 1) as u32).update(j + 1int, (h1[j + 1int] + 2) as u32),
                limit,
                (kraft - 1) as nat,
            )
        }
    }
}

/// The histogram of the lengths that limiting `lens` to `limit` bits hands out:
/// the folded histogram, rebalanced until Kraft's inequality holds again.
pub open spec fn limited_hist(lens: Seq<usize>, limit: nat) -> Seq<u32> {
    let h = folded_hist(lens, limit);
    rebalanced(h, limit, hist_sum(h, limit, clamp_w(limit)))
}

proof fn lemma_count_take_step(s: Seq<usize>, i: int, l: nat)
    requires
        0 <= i < s.len(),
    ensures
        count_eq(s.take(i + 1), l) == count_eq(s.take(i), l) + if s[i] == l { 1nat } else { 0nat },
{
    assert(s.take(i + 1).drop_last() =~= s.take(i));
}

proof fn lemma_count_ge_split(s: Seq<usize>, l: nat)
    ensures
        count_ge(s, l) == count_eq(s, l) + count_ge(s, l + 1),
    decreases s.len(),
{
    if s.len() > 0 {
        lemma_count_ge_split(s.drop_last(), l);
    }
}

proof fn lemma_count_ge_none(s: Seq<usize>, l: nat)
    requires
        forall|i: int| 0 <= i < s.len() ==> s[i] < l,
    ensures
        count_ge(s, l) == 0,
    decreases s.len(),
{
    if s.len() > 0 {
        lemma_count_ge_none(s.drop_last(), l);
    }
}

proof fn lemma_count_eq_none(s: Seq<usize>, l: nat)
    requires
        forall|i: int| 0 <= i < s.len() ==> s[i] != l,
    ensures
        count_eq(s, l) == 0,
    decreases s.len(),
{
    if s.len() > 0 {
        lemma_count_eq_none(s.drop_last(), l);
    }
}

proof fn lemma_count_eq_update(s: Seq<usize>, i: int, v: usize, l: nat)
    requires
        0 <= i < s.len(),
    ensures
        count_eq(s.update(i, v), l) + (if s[i] == l { 1nat } else { 0nat })
            == count_eq(s, l) + (if v == l { 1nat } else { 0nat }),
    decreases s.len(),
{
    let t = s.update(i, v);
    if i == s.len() - 1 {
        assert(t.drop_last() =~= s.drop_last());
    } else {
        assert(t.drop_last() =~= s.drop_last().update(i, v));
        lemma_count_eq_update(s.drop_last(), i, v, l);
    }
}

proof fn lemma_hist_sum_agree(c: Seq<u32>, d: Seq<u32>, hi: nat, f: spec_fn(nat) -> nat)
    requires
        hi < c.len(),
        hi < d.len(),
        forall|l: int| 1 <= l <= hi ==> c[l] == d[l],
    ensures
        hist_sum(c, hi, f) == hist_sum(d, hi, f),
    decreases hi,
{
    if hi > 0 {
        lemma_hist_sum_agree(c, d, (hi - 1) as nat, f);
    }
}

/// Clamp code lengths to `limit` bits while keeping a complete prefix code,
/// then hand the shortest codes to the most frequent symbols: fold the
/// overflow down, then restore the Kraft equality by splitting shorter codes.
/// The lengths handed out are those of `limited_hist`, given in order of
/// `comes_before` (more frequent first, ties by symbol). `limit` lies in
/// `1..=63`, so that the Kraft sum in units of `2^-limit` fits in 64 bits.
#[verifier::spinoff_prover]
#[verifier::rlimit(40)]
fn limit_lengths(lengths: &mut Vec<usize>, freqs: &[u32], limit: u8, Ghost(kk): Ghost<nat>)
    requires
        old(lengths)@.len() == freqs@.len(),
        freqs@.len() <= u32::MAX,
        1 <= limit <= 63,
        limit <= kk,
        forall|i: int| 0 <= i < freqs@.len() ==> (old(lengths)@[i] == 0) == (freqs@[i] == 0),
        forall|i: int| 0 <= i < freqs@.len() ==> old(lengths)@[i] < kk,
        forall|i: int| 0 <= i < freqs@.len() ==> old(lengths)@[i] < usize::MAX,
        sym_sum(old(lengths)@, space_w(kk)) == pow2(kk),
    ensures
        final(lengths)@.len() == old(lengths)@.len(),
        (forall|i: int| 0 <= i < freqs@.len() ==> old(lengths)@[i] <= limit) ==> final(lengths)@ == old(lengths)@,
        forall|i: int| 0 <= i < freqs@.len() ==> final(lengths)@[i] <= limit,
        forall|i: int| 0 <= i < freqs@.len() ==> freqs@[i] == 0 ==> final(lengths)@[i] == 0,
        num_used(freqs@) <= pow2(limit as nat) ==> {
            &&& forall|i: int| 0 <= i < freqs@.len() ==> freqs@[i] > 0 ==> final(lengths)@[i] > 0
            &&& sym_sum(final(lengths)@, space_w(limit as nat)) == pow2(limit as nat)
            &&& (exists|i: int| 0 <= i < freqs@.len() && old(lengths)@[i] > limit) ==> forall|a: int, b: int|
                0 <= a < freqs@.len() && 0 <= b < freqs@.len() && freqs@[a] > freqs@[b] && freqs@[b] > 0
                ==> final(lengths)@[a] <= final(lengths)@[b]
        },
        num_used(freqs@) <= pow2(limit as nat) && (exists|i: int| 0 <= i < freqs@.len() && old(lengths)@[i] > limit)
            ==> {
            &&& forall|l: int| 1 <= l <= limit ==> count_eq(final(lengths)@, l as nat)
                == #[trigger] limited_hist(old(lengths)@, limit as nat)[l]
            &&& forall|a: int, b: int| 0 <= a < freqs@.len() && 0 <= b < freqs@.len() && freqs@[a] > 0 && freqs@[b] > 0
                && #[trigger] comes_before(freqs@, a as usize, b as usize)
                ==> final(lengths)@[a] <= final(lengths)@[b]
        },
{
    let ghost lim = limit as nat;
    let ghost orig = lengths@;
    let limit_u = limit as usize;
    let n = lengths.len();
    let mut max: usize = 0;
    let mut at: usize = 0;
    let mut i: usize = 0;
    while i < n
        invariant
            n == lengths@.len(),
            lengths@ == orig,
            i <= n,
            forall|t: int| 0 <= t < i ==> orig[t] <= max,
            max > 0 ==> at < n && orig[at as int] == max,
            max < kk,
            max < usize::MAX,
            forall|t: int| 0 <= t < n ==> orig[t] < kk,
            forall|t: int| 0 <= t < n ==> orig[t] < usize::MAX,
        decreases n - i,
    {
        if lengths[i] > max {
            max = lengths[i];
            at = i;
        }
        i += 1;
    }
    // The space sum at precision `kk` splits into the part at precision `limit` and the deep part.
    proof {
        assert forall|t: int| 0 <= t < orig.len() && orig[t] >= 1 implies space_w(kk)(orig[t] as nat)
            == pow2((kk - lim) as nat) * space_w(lim)(orig[t] as nat) + deep_w(lim, kk)(orig[t] as nat) by {
            lemma_space_split(lim, kk, orig[t] as nat);
        }
        lemma_sym_sum_linear(orig, space_w(kk), pow2((kk - lim) as nat), space_w(lim), deep_w(lim, kk));
        lemma_pow2_adds((kk - lim) as nat, lim);
        lemma_pow2_pos((kk - lim) as nat);
    }
    if max <= limit_u {
        proof {
            assert forall|t: int| 0 <= t < orig.len() && orig[t] >= 1 implies deep_w(lim, kk)(orig[t] as nat)
                <= zero_w()(orig[t] as nat) by {}
            lemma_sym_sum_le(orig, deep_w(lim, kk), zero_w());
            lemma_sym_sum_zero(orig);
            let a = pow2((kk - lim) as nat);
            let x = sym_sum(orig, space_w(lim));
            assert(x == pow2(lim)) by (nonlinear_arith)
                requires
                    a * x == a * pow2(lim),
                    a > 0,
            ;
        }
        return;
    }
    let ghost shallow = sym_sum(orig, space_w(lim));
    let ghost deep = sym_sum(orig, gt_w(lim));
    let ghost used = sym_sum(orig, one_w());
    proof {
        // Some code is longer than the limit, so the deep part is positive and the
        // part within the limit falls short of the whole space.
        assert forall|t: int| 0 <= t < orig.len() && orig[t] >= 1 implies clamp_w(lim)(orig[t] as nat)
            == 1 * space_w(lim)(orig[t] as nat) + gt_w(lim)(orig[t] as nat) by {
            lemma_space_split(lim, kk, orig[t] as nat);
        }
        lemma_sym_sum_linear(orig, clamp_w(lim), 1, space_w(lim), gt_w(lim));
        assert forall|t: int| 0 <= t < orig.len() && orig[t] >= 1 implies gt_w(lim)(orig[t] as nat)
            <= deep_w(lim, kk)(orig[t] as nat) by {
            lemma_space_split(lim, kk, orig[t] as nat);
        }
        lemma_sym_sum_le(orig, gt_w(lim), deep_w(lim, kk));
        assert forall|t: int| 0 <= t < orig.len() && orig[t] >= 1 implies gt_w(lim)(orig[t] as nat)
            <= ge_w(lim)(orig[t] as nat) by {
            lemma_space_split(lim, kk, orig[t] as nat);
        }
        lemma_sym_sum_le(orig, gt_w(lim), ge_w(lim));
        assert forall|t: int| 0 <= t < orig.len() && orig[t] >= 1 implies gt_w(lim)(orig[t] as nat)
            <= one_w()(orig[t] as nat) by {}
        lemma_sym_sum_le(orig, gt_w(lim), one_w());
        lemma_sym_sum_pos(orig, gt_w(lim), at as int);
        let a = pow2((kk - lim) as nat);
        let dd = sym_sum(orig, deep_w(lim, kk));
        assert(shallow < pow2(lim)) by (nonlinear_arith)
            requires
                a * shallow + dd == a * pow2(lim),
                dd >= 1,
                a > 0,
        ;
        // Each deep code takes less than one unit at the limit, so counting
        // each as a whole unit covers at least the whole space.
        let scaled = |l: nat| a * gt_w(lim)(l);
        assert forall|t: int| 0 <= t < orig.len() && orig[t] >= 1 implies deep_w(lim, kk)(orig[t] as nat)
            <= scaled(orig[t] as nat) by {
            let l = orig[t] as nat;
            if lim < l && l <= kk {
                vstd::arithmetic::power2::lemma_pow2_strictly_increases((kk - l) as nat, (kk - lim) as nat);
            }
        }
        lemma_sym_sum_le(orig, deep_w(lim, kk), scaled);
        assert forall|t: int| 0 <= t < orig.len() && orig[t] >= 1 implies scaled(orig[t] as nat)
            == a * gt_w(lim)(orig[t] as nat) + zero_w()(orig[t] as nat) by {}
        lemma_sym_sum_linear(orig, scaled, a, gt_w(lim), zero_w());
        lemma_sym_sum_zero(orig);
        assert(pow2(lim) <= shallow + deep) by (nonlinear_arith)
            requires
                a * shallow + dd == a * pow2(lim),
                dd <= a * deep,
                a > 0,
        ;
        lemma_count_nonzero(orig, freqs@);
        lemma_num_used_bound(freqs@);
    }

    // Histogram of the lengths.
    let mut count: Vec<u32> = Vec::new();
    let mut z: usize = 0;
    while z <= max
        invariant
            z <= max + 1,
            max < usize::MAX,
            count@.len() == z,
            forall|l: int| 0 <= l < z ==> count@[l] == 0,
        decreases max + 1 - z,
    {
        count.push(0);
        z += 1;
    }
    proof {
        lemma_hist_only_top(count@, max as nat, max as nat, clamp_w(lim));
        lemma_hist_only_top(count@, max as nat, max as nat, ge_w(lim));
        lemma_hist_only_top(count@, max as nat, max as nat, one_w());
        assert(orig.take(0) =~= Seq::<usize>::empty());
    }
    let mut i: usize = 0;
    while i < n
        invariant
            n == lengths@.len(),
            n == freqs@.len(),
            n <= u32::MAX,
            lengths@ == orig,
            i <= n,
            count@.len() == max + 1,
            forall|t: int| 0 <= t < n ==> orig[t] <= max,
            forall|l: int| 0 <= l <= max ==> count@[l] <= i,
            count@[0] == 0,
            hist_sum(count@, max as nat, clamp_w(lim)) == sym_sum(orig.take(i as int), clamp_w(lim)),
            hist_sum(count@, max as nat, ge_w(lim)) == sym_sum(orig.take(i as int), ge_w(lim)),
            hist_sum(count@, max as nat, one_w()) == sym_sum(orig.take(i as int), one_w()),
            forall|l: int| 1 <= l <= max ==> count@[l] == count_eq(orig.take(i as int), l as nat),
        decreases n - i,
    {
        let l = lengths[i];
        proof {
            assert forall|l2: int| 1 <= l2 <= max implies #[trigger] count_eq(orig.take(i as int + 1), l2 as nat)
                == count_eq(orig.take(i as int), l2 as nat) + if orig[i as int] == l2 { 1nat } else { 0nat } by {
                lemma_count_take_step(orig, i as int, l2 as nat);
            }
            lemma_sym_sum_take(orig, i as int, clamp_w(lim));
            lemma_sym_sum_take(orig, i as int, ge_w(lim));
            lemma_sym_sum_take(orig, i as int, one_w());
        }
        if l > 0 {
            let ghost before = count@;
            count[l] = count[l] + 1;
            proof {
                lemma_hist_sum_add(before, max as nat, clamp_w(lim), l as int, count@[l as int], clamp_w(lim)(l as nat), 1);
                lemma_hist_sum_add(before, max as nat, ge_w(lim), l as int, count@[l as int], ge_w(lim)(l as nat), 1);
                lemma_hist_sum_add(before, max as nat, one_w(), l as int, count@[l as int], one_w()(l as nat), 1);
            }
        }
        i += 1;
    }
    proof {
        assert(orig.take(n as int) =~= orig);
        lemma_count_ge_none(orig, (max + 1) as nat);
    }
    // Fold every length beyond the limit down to the limit.
    let mut len = max;
    while len > limit_u
        invariant
            limit_u < len + 1,
            len <= max,
            limit_u < max,
            count@.len() == max + 1,
            count@[0] == 0,
            hist_sum(count@, max as nat, clamp_w(lim)) == shallow + deep,
            hist_sum(count@, max as nat, ge_w(lim)) == sym_sum(orig, ge_w(lim)),
            hist_sum(count@, max as nat, one_w()) == used,
            used <= u32::MAX,
            forall|l: int| len < l <= max ==> count@[l] == 0,
            lim == limit_u,
            1 <= limit_u,
            forall|l: int| 1 <= l < limit_u ==> count@[l] == count_eq(orig, l as nat),
            forall|l: int| limit_u < l <= len ==> count@[l] == count_eq(orig, l as nat),
            count@[limit_u as int] == count_eq(orig, lim) + count_ge(orig, (len + 1) as nat),
        decreases len,
    {
        let ghost before = count@;
        proof {
            lemma_hist_two_entries(before, max as nat, limit_u as int, len as int);
            lemma_count_ge_split(orig, len as nat);
        }
        count[limit_u] = count[limit_u] + count[len];
        let ghost mid = count@;
        count[len] = 0;
        proof {
            lemma2_to64();
            assert(clamp_w(lim)(limit_u as nat) == 1);
            assert(clamp_w(lim)(len as nat) == 1);
            let moved = before[len as int] as int;
            lemma_hist_sum_add(before, max as nat, clamp_w(lim), limit_u as int, mid[limit_u as int], 1, moved);
            lemma_hist_sum_add(mid, max as nat, clamp_w(lim), len as int, 0, 1, -moved);
            lemma_hist_sum_add(before, max as nat, ge_w(lim), limit_u as int, mid[limit_u as int], 1, moved);
            lemma_hist_sum_add(mid, max as nat, ge_w(lim), len as int, 0, 1, -moved);
            lemma_hist_sum_add(before, max as nat, one_w(), limit_u as int, mid[limit_u as int], 1, moved);
            lemma_hist_sum_add(mid, max as nat, one_w(), len as int, 0, 1, -moved);
        }
        len -= 1;
    }
    proof {
        lemma_hist_sum_zero_tail(count@, lim, max as nat, clamp_w(lim));
        lemma_hist_sum_zero_tail(count@, lim, max as nat, ge_w(lim));
        lemma_hist_sum_zero_tail(count@, lim, max as nat, one_w());
        lemma_hist_ge_is_entry(count@, lim);
        assert(count@[limit_u as int] >= deep);
        lemma_count_ge_split(orig, lim);
        assert(count@.take(lim as int + 1) =~= folded_hist(orig, lim));
    }

    // The Kraft sum of the clamped lengths, in units of 2^-limit.
    proof {
        lemma_u64_pow2_no_overflow(lim);
        vstd::bits::lemma_u64_shl_is_mul(1, limit as u64);
    }
    let max_kraft: u64 = 1u64 << (limit as u64);
    let mut kraft: u64 = 0;
    let mut len: usize = 1;
    while len <= limit_u
        invariant
            1 <= len <= limit_u + 1,
            limit_u < max,
            count@.len() == max + 1,
            lim == limit_u,
            lim <= 63,
            kraft == hist_sum(count@, (len - 1) as nat, clamp_w(lim)),
            hist_sum(count@, lim, clamp_w(lim)) == shallow + deep,
            hist_sum(count@, lim, one_w()) == used,
            count@[limit_u as int] >= deep,
            shallow < pow2(lim),
            deep <= used,
            used <= u32::MAX,
            count@.take(lim as int + 1) == folded_hist(orig, lim),
        decreases limit_u + 1 - len,
    {
        proof {
            lemma_hist_entry_le(count@, lim, clamp_w(lim), len as int);
            lemma_hist_sum_mono(count@, len as nat, lim, clamp_w(lim));
            lemma_u64_pow2_no_overflow(lim);
            if lim < 63 {
                vstd::arithmetic::power2::lemma_pow2_strictly_increases(lim, 63);
            }
            lemma2_to64();
            vstd::arithmetic::power2::lemma2_to64_rest();
            assert(pow2(lim) <= 0x8000_0000_0000_0000);
            lemma_u64_pow2_no_overflow((lim - len) as nat);
            assert(clamp_w(lim)(len as nat) == pow2((lim - len) as nat));
            assert(count@[len as int] as nat * pow2((lim - len) as nat) <= shallow + deep);
            assert(hist_sum(count@, len as nat, clamp_w(lim)) == kraft + count@[len as int] as nat
                * pow2((lim - len) as nat));
            lemma_u64_shl_is_mul(count@[len as int] as u64, (limit_u - len) as u64);
        }
        kraft = kraft + ((count[len] as u64) << ((limit_u - len) as u64));
        len += 1;
    }
    proof {
        assert(max_kraft == pow2(lim));
        lemma_hist_sum_agree(count@.take(lim as int + 1), count@, lim, clamp_w(lim));
        assert(rebalanced(count@.take(lim as int + 1), lim, kraft as nat) == limited_hist(orig, lim));
    }
    // Restore Kraft's inequality by splitting the shortest code below the limit.
    let ghost mut broke = false;
    while kraft > max_kraft
        invariant_except_break
            kraft == hist_sum(count@, lim, clamp_w(lim)),
            hist_sum(count@, lim, one_w()) == used,
            kraft < pow2(lim) + count@[limit_u as int],
            kraft >= max_kraft,
            rebalanced(count@.take(lim as int + 1), lim, kraft as nat) == limited_hist(orig, lim),
        invariant
            count@.len() == max + 1,
            limit_u < max,
            lim == limit_u,
            1 <= limit_u <= 63,
            max_kraft == pow2(lim),
            used <= u32::MAX,
            count@[0] == 0,
            broke ==> used > pow2(lim),
        ensures
            !broke ==> kraft == hist_sum(count@, lim, clamp_w(lim)) && hist_sum(count@, lim, one_w()) == used
                && kraft == max_kraft,
            !broke ==> count@.take(lim as int + 1) == limited_hist(orig, lim),
            broke ==> used > pow2(lim),
        decreases kraft,
    {
        let ghost c0 = count@;
        count[limit_u] = count[limit_u] - 1;
        let ghost c0h = count@;
        let mut j = limit_u - 1;
        while j > 0 && count[j] == 0
            invariant
                j < limit_u,
                limit_u < max,
                count@.len() == max + 1,
                forall|l: int| j < l < limit_u ==> count@[l] == 0,
                count@ == c0h,
                lim == limit_u,
                top_used(c0h.take(lim as int + 1), j as nat) == top_used(c0h.take(lim as int + 1), (lim - 1) as nat),
            decreases j,
        {
            j -= 1;
        }
        if j == 0 {
            proof {
                // Every code sits at the limit, so the Kraft sum is the number of symbols.
                assert forall|l: int| 1 <= l < lim && l < c0.len() implies c0[l] == 0 by {
                    assert(count@[l] == c0[l]);
                }
                lemma_hist_only_top(c0, lim, lim, clamp_w(lim));
                lemma_hist_only_top(c0, lim, lim, one_w());
                lemma2_to64();
                assert(clamp_w(lim)(lim) == 1);
                broke = true;
            }
            break;
        }
        let ghost c1 = count@;
        proof {
            lemma2_to64();
            assert(clamp_w(lim)(lim) == 1);
            assert(one_w()(lim) == 1);
            lemma_hist_sum_add(c0, lim, one_w(), limit_u as int, c1[limit_u as int], 1, -1);
            lemma_hist_sum_add(c0, lim, clamp_w(lim), limit_u as int, c1[limit_u as int], 1, -1);
            lemma_hist_two_entries(c1, lim, j as int, (j + 1) as int);
            assert(c1[j as int] >= 1);
        }
        count[j] = count[j] - 1;
        let ghost c2 = count@;
        count[j + 1] = count[j + 1] + 2;
        proof {
            let h0 = c0.take(lim as int + 1);
            let h1 = h0.update(lim as int, (h0[lim as int] - 1) as u32);
            assert(h1 =~= c0h.take(lim as int + 1));
            assert(top_used(h1, (lim - 1) as nat) == j);
            assert(count@.take(lim as int + 1) =~= h1.update(j as int, (h1[j as int] - 1) as u32)
                .update(j + 1int, (h1[j + 1int] + 2) as u32));
            let wj = pow2((lim - j) as nat);
            let wj1 = pow2((lim - j - 1) as nat);
            assert(clamp_w(lim)(j as nat) == wj);
            assert(clamp_w(lim)((j + 1) as nat) == wj1);
            vstd::arithmetic::power2::lemma_pow2_unfold((lim - j) as nat);
            assert(wj == 2 * wj1);
            lemma_hist_sum_add(c1, lim, one_w(), j as int, c2[j as int], 1, -1);
            lemma_hist_sum_add(c2, lim, one_w(), (j + 1) as int, count@[(j + 1) as int], 1, 2);
            lemma_hist_sum_add(c1, lim, clamp_w(lim), j as int, c2[j as int], wj, -1);
            lemma_hist_sum_add(c2, lim, clamp_w(lim), (j + 1) as int, count@[(j + 1) as int], wj1, 2);
        }
        kraft = kraft - 1;
    }

    // The symbols in use, most frequent first (ties by symbol).
    let mut used_syms: Vec<usize> = Vec::new();
    let mut i: usize = 0;
    while i < n
        invariant
            n == freqs@.len(),
            i <= n,
            forall|a: int, b: int| 0 <= a < b < used_syms@.len() ==> used_syms@[a] < used_syms@[b],
            forall|a: int| 0 <= a < used_syms@.len() ==> used_syms@[a] < i && freqs@[used_syms@[a] as int] > 0,
            forall|s: int| 0 <= s < i && freqs@[s] > 0 ==> used_syms@.contains(s as usize),
            used_syms@.len() == num_used(freqs@.take(i as int)),
        decreases n - i,
    {
        proof {
            lemma_num_used_take(freqs@, i as int);
        }
        if freqs[i] > 0 {
            let ghost old_u = used_syms@;
            used_syms.push(i);
            proof {
                assert forall|s: int| 0 <= s < i + 1 && freqs@[s] > 0 implies used_syms@.contains(s as usize) by {
                    if s < i {
                        assert(old_u.contains(s as usize));
                        let k = choose|k: int| 0 <= k < old_u.len() && old_u[k] == s as usize;
                        assert(used_syms@[k] == s as usize);
                    } else {
                        assert(used_syms@[used_syms@.len() - 1] == s as usize);
                    }
                }
            }
        }
        i += 1;
    }
    proof {
        assert(freqs@.take(n as int) =~= freqs@);
        assert(used_syms@.no_duplicates()) by {
            assert forall|a: int, b: int| 0 <= a < used_syms@.len() && 0 <= b < used_syms@.len() && a != b
                implies used_syms@[a] != used_syms@[b] by {
                if a < b {
                    assert(used_syms@[a] < used_syms@[b]);
                } else {
                    assert(used_syms@[b] < used_syms@[a]);
                }
            }
        }
    }
    sort_by_frequency(&mut used_syms, freqs);
    proof {
        assert forall|a: int| 0 <= a < used_syms@.len() implies used_syms@[a] < n && freqs@[used_syms@[a] as int] > 0 by {
            assert(used_syms@.contains(used_syms@[a]));
        }
    }

    // Reassign: most frequent symbols get the shortest available codes.
    let ghost zeros = Seq::new(n as nat, |t: int| 0usize);
    let mut i: usize = 0;
    while i < n
        invariant
            n == lengths@.len(),
            i <= n,
            forall|t: int| 0 <= t < i ==> lengths@[t] == 0,
        decreases n - i,
    {
        lengths[i] = 0;
        i += 1;
    }
    proof {
        assert forall|t: int| 0 <= t < lengths@.len() && lengths@[t] >= 1 implies space_w(lim)(lengths@[t] as nat)
            <= zero_w()(lengths@[t] as nat) by {}
        lemma_sym_sum_le(lengths@, space_w(lim), zero_w());
        lemma_sym_sum_zero(lengths@);
    }
    let total = used_syms.len();
    let mut next: usize = 0;
    let mut len: usize = 1;
    while len <= limit_u
        invariant
            1 <= len <= limit_u + 1,
            lim == limit_u,
            limit_u < max,
            count@.len() == max + 1,
            n == lengths@.len(),
            n == freqs@.len(),
            total == used_syms@.len(),
            used_syms@.no_duplicates(),
            forall|a: int| 0 <= a < total ==> used_syms@[a] < n && freqs@[used_syms@[a] as int] > 0,
            next <= total,
            forall|t: int| 0 <= t < n ==> lengths@[t] < len,
            forall|t: int| 0 <= t < n ==> freqs@[t] == 0 ==> lengths@[t] == 0,
            forall|a: int| 0 <= a < next ==> lengths@[used_syms@[a] as int] >= 1,
            forall|a: int| next <= a < total ==> lengths@[used_syms@[a] as int] == 0,
            forall|a: int, b: int| 0 <= a < b < next ==> lengths@[used_syms@[a] as int] <= lengths@[used_syms@[b] as int],
            !broke ==> next == hist_sum(count@, (len - 1) as nat, one_w()),
            !broke ==> sym_sum(lengths@, space_w(lim)) == hist_sum(count@, (len - 1) as nat, clamp_w(lim)),
            !broke ==> hist_sum(count@, lim, one_w()) == used,
            used == total,
            !broke ==> count@.take(lim as int + 1) == limited_hist(orig, lim),
            !broke ==> forall|l: int| 1 <= l < len ==> count_eq(lengths@, l as nat) == count@[l],
        decreases limit_u + 1 - len,
    {
        let cnt = count[len];
        let mut k: u32 = 0;
        proof {
            if !broke {
                lemma_hist_sum_mono(count@, len as nat, lim, one_w());
            }
            assert(one_w()(len as nat) == 1);
            lemma_hist_sum_unit_step(count@, len as nat, one_w());
            lemma_count_eq_none(lengths@, len as nat);
        }
        while k < cnt
            invariant
                1 <= len <= limit_u,
                limit_u < max,
                lim == limit_u,
                count@.len() == max + 1,
                cnt == count@[len as int],
                k <= cnt,
                n == lengths@.len(),
                n == freqs@.len(),
                total == used_syms@.len(),
                used_syms@.no_duplicates(),
                forall|a: int| 0 <= a < total ==> used_syms@[a] < n && freqs@[used_syms@[a] as int] > 0,
                next <= total,
                forall|t: int| 0 <= t < n ==> lengths@[t] <= len,
                forall|t: int| 0 <= t < n ==> freqs@[t] == 0 ==> lengths@[t] == 0,
                forall|a: int| 0 <= a < next ==> lengths@[used_syms@[a] as int] >= 1,
                forall|a: int| next <= a < total ==> lengths@[used_syms@[a] as int] == 0,
                forall|a: int, b: int| 0 <= a < b < next ==> lengths@[used_syms@[a] as int] <= lengths@[used_syms@[b] as int],
                !broke ==> next == hist_sum(count@, (len - 1) as nat, one_w()) + k,
                !broke ==> sym_sum(lengths@, space_w(lim)) == hist_sum(count@, (len - 1) as nat, clamp_w(lim))
                    + k * pow2((lim - len) as nat),
                !broke ==> hist_sum(count@, len as nat, one_w()) <= total,
                !broke ==> hist_sum(count@, len as nat, one_w()) == hist_sum(count@, (len - 1) as nat, one_w()) + cnt,
                !broke ==> forall|l: int| 1 <= l < len ==> count_eq(lengths@, l as nat) == count@[l],
                !broke ==> count_eq(lengths@, len as nat) == k,
            decreases cnt - k,
        {
            proof {
                if !broke {
                    assert(next < total);
                }
            }
            if next < total {
                let sym = used_syms[next];
                proof {
                    assert(space_w(lim)(len as nat) == pow2((lim - len) as nat));
                }
                let ghost before = lengths@;
                proof {
                    assert(before[sym as int] == 0);
                }
                lengths[sym] = len;
                proof {
                    assert forall|l: int| 1 <= l <= len implies #[trigger] count_eq(lengths@, l as nat)
                        == count_eq(before, l as nat) + if l == len { 1nat } else { 0nat } by {
                        assert(lengths@ == before.update(sym as int, len));
                        lemma_count_eq_update(before, sym as int, len, l as nat);
                    }
                    assert(lengths@ == before.update(sym as int, len));
                    lemma_count_eq_update(before, sym as int, len, len as nat);
                    assert(count_eq(lengths@, len as nat) == count_eq(before, len as nat) + 1);
                    lemma_sym_sum_update(before, sym as int, len, space_w(lim));
                    assert forall|a: int| next + 1 <= a < total implies lengths@[used_syms@[a] as int] == 0 by {
                        assert(used_syms@[a] != used_syms@[next as int]);
                    }
                    assert forall|a: int, b: int| 0 <= a < b < next + 1 implies lengths@[used_syms@[a] as int]
                        <= lengths@[used_syms@[b] as int] by {
                        assert(used_syms@[a] != used_syms@[next as int]);
                        if b < next {
                            assert(used_syms@[b] != used_syms@[next as int]);
                        }
                    }
                    assert(k * pow2((lim - len) as nat) + pow2((lim - len) as nat) == (k + 1) * pow2((lim - len) as nat))
                        by (nonlinear_arith);
                }
                next += 1;
            }
            k += 1;
        }
        proof {
            assert(one_w()(len as nat) == 1);
            assert(clamp_w(lim)(len as nat) == pow2((lim - len) as nat));
        }
        len += 1;
    }
    proof {
        if !broke {
            assert forall|s: int| 0 <= s < n && freqs@[s] > 0 implies lengths@[s] > 0 by {
                assert(used_syms@.contains(s as usize));
                let a = choose|a: int| 0 <= a < total && used_syms@[a] == s as usize;
            }
            lemma_hist_sum_congruent(count@, lim, clamp_w(lim), clamp_w(lim));
            // The symbols were handed out in order, most frequent first.
            assert forall|x: int, y: int| 0 <= x < n && 0 <= y < n && freqs@[x] > freqs@[y] && freqs@[y] > 0
                implies lengths@[x] <= lengths@[y] by {
                assert(used_syms@.contains(x as usize));
                assert(used_syms@.contains(y as usize));
                let ix = choose|a: int| 0 <= a < total && used_syms@[a] == x as usize;
                let iy = choose|a: int| 0 <= a < total && used_syms@[a] == y as usize;
                if iy < ix {
                    assert(comes_before(freqs@, used_syms@[iy], used_syms@[ix]));
                }
            }
            // The same holds of ties, broken by symbol.
            assert forall|x: int, y: int| 0 <= x < n && 0 <= y < n && freqs@[x] > 0 && freqs@[y] > 0
                && #[trigger] comes_before(freqs@, x as usize, y as usize) implies lengths@[x] <= lengths@[y] by {
                assert(used_syms@.contains(x as usize));
                assert(used_syms@.contains(y as usize));
                let ix = choose|a: int| 0 <= a < total && used_syms@[a] == x as usize;
                let iy = choose|a: int| 0 <= a < total && used_syms@[a] == y as usize;
                if iy < ix {
                    assert(comes_before(freqs@, used_syms@[iy], used_syms@[ix]));
                }
            }
            assert forall|l: int| 1 <= l <= lim implies count_eq(lengths@, l as nat)
                == #[trigger] limited_hist(orig, lim)[l] by {
                assert(count@.take(lim as int + 1)[l] == count@[l]);
            }
        }
    }
}

/// The total weight of the trees still waiting to be merged.
pub open spec fn weight_sum(s: Seq<(u64, usize)>) -> nat
    decreases s.len(),
{
    if s.len() == 0 {
        0
    } else {
        weight_sum(s.drop_last()) + s.last().0 as nat
    }
}

pub proof fn lemma_weight_sum_remove(s: Seq<(u64, usize)>, i: int)
    requires
        0 <= i < s.len(),
    ensures
        weight_sum(s) == weight_sum(s.remove(i)) + s[i].0,
    decreases s.len(),
{
    if i < s.len() - 1 {
        lemma_weight_sum_remove(s.drop_last(), i);
        assert(s.remove(i).drop_last() =~= s.drop_last().remove(i));
        assert(s.remove(i).last() == s.last());
    } else {
        assert(s.remove(i) =~= s.drop_last());
    }
}

/// `(weight, node)` pairs ordered as a min-heap would pop them: by weight, then
/// by node (the arena index breaks ties, keeping the tree deterministic).
pub open spec fn pops_first(x: (u64, usize), y: (u64, usize)) -> bool {
    x.0 < y.0 || (x.0 == y.0 && x.1 <= y.1)
}

/// The state of the Huffman forest while merging: the arena is well formed,
/// the waiting list holds exactly its roots (each once), every tree has a full
/// Kraft sum over its leaves, and the newest node is still waiting.
spec fn forest_state(p: Seq<usize>, act: Seq<(u64, usize)>, m: nat, kk: nat) -> bool {
    &&& forest_wf(p)
    &&& m <= p.len()
    &&& p.len() + act.len() == 2 * m
    &&& 1 <= act.len()
    &&& forall|j: int| 0 <= j < act.len() ==> #[trigger] act[j].1 < p.len() && p[act[j].1 as int] == NO_PARENT
    &&& forall|j1: int, j2: int| 0 <= j1 < act.len() && 0 <= j2 < act.len() && j1 != j2
            ==> act[j1].1 != act[j2].1
    &&& forall|y: int| 0 <= y < p.len() && p[y] == NO_PARENT
            ==> exists|j: int| 0 <= j < act.len() && act[j].1 == y
    &&& forall|y: int| 0 <= y < p.len() && p[y] == NO_PARENT
            ==> #[trigger] leaf_sum(p, y, kk, m) == pow2(kk)
    &&& p.len() > m ==> exists|j: int| 0 <= j < act.len() && act[j].1 == p.len() - 1
}

/// The two trees popped for merging are different roots.
proof fn lemma_merge_step_distinct(p: Seq<usize>, act: Seq<(u64, usize)>, ia: int, ib: int, m: nat, kk: nat)
    requires
        forest_state(p, act, m, kk),
        act.len() >= 2,
        0 <= ia < act.len(),
        0 <= ib < act.len() - 1,
    ensures
        act[ia].1 != act.remove(ia)[ib].1,
        act[ia].1 < p.len(),
        act.remove(ia)[ib].1 < p.len(),
        p[act[ia].1 as int] == NO_PARENT,
        p[act.remove(ia)[ib].1 as int] == NO_PARENT,
{
    let jb = if ib < ia { ib } else { ib + 1 };
    assert(act.remove(ia)[ib] == act[jb]);
}

/// Merging the two popped roots under a new node keeps the forest state.
#[verifier::rlimit(40)]
proof fn lemma_merge_step(p: Seq<usize>, act: Seq<(u64, usize)>, ia: int, ib: int, m: nat, kk: nat, w: u64)
    requires
        forest_state(p, act, m, kk),
        act.len() >= 2,
        0 <= ia < act.len(),
        0 <= ib < act.len() - 1,
        kk == 2 * m + 15,
        m <= usize::MAX / 2,
    ensures
        forest_state(
            merged(p, act[ia].1 as int, act.remove(ia)[ib].1 as int),
            act.remove(ia).remove(ib).push((w, p.len() as usize)),
            m,
            kk,
        ),
{
    let a = act[ia].1 as int;
    let act1 = act.remove(ia);
    let b = act1[ib].1 as int;
    let act2 = act1.remove(ib);
    let idx = p.len() as int;
    let q = merged(p, a, b);
    let nact = act2.push((w, p.len() as usize));
    lemma_merge_step_distinct(p, act, ia, ib, m, kk);
    let jb = if ib < ia { ib } else { ib + 1 };
    assert(act1[ib] == act[jb]);
    lemma_merged_wf(p, a, b);
    assert forall|j: int| 0 <= j < nact.len() implies #[trigger] nact[j].1 < q.len()
        && q[nact[j].1 as int] == NO_PARENT by {
        if j < nact.len() - 1 {
            let j1 = if j < ib { j } else { j + 1 };
            let j0 = if j1 < ia { j1 } else { j1 + 1 };
            assert(nact[j] == act2[j]);
            assert(act2[j] == act1[j1]);
            assert(act1[j1] == act[j0]);
            assert(j0 != ia);
            assert(j0 != jb);
        }
    }
    assert forall|j1: int, j2: int| 0 <= j1 < nact.len() && 0 <= j2 < nact.len() && j1 != j2
        implies nact[j1].1 != nact[j2].1 by {
        if j1 < nact.len() - 1 && j2 < nact.len() - 1 {
            let k1 = if j1 < ib { j1 } else { j1 + 1 };
            let k2 = if j2 < ib { j2 } else { j2 + 1 };
            let l1 = if k1 < ia { k1 } else { k1 + 1 };
            let l2 = if k2 < ia { k2 } else { k2 + 1 };
            assert(nact[j1] == act[l1]);
            assert(nact[j2] == act[l2]);
        } else if j1 < nact.len() - 1 {
            let k1 = if j1 < ib { j1 } else { j1 + 1 };
            let l1 = if k1 < ia { k1 } else { k1 + 1 };
            assert(nact[j1] == act[l1]);
        } else if j2 < nact.len() - 1 {
            let k2 = if j2 < ib { j2 } else { j2 + 1 };
            let l2 = if k2 < ia { k2 } else { k2 + 1 };
            assert(nact[j2] == act[l2]);
        }
    }
    assert forall|y: int| 0 <= y < q.len() && q[y] == NO_PARENT
        implies exists|j: int| 0 <= j < nact.len() && nact[j].1 == y by {
        if y == idx {
            assert(nact[nact.len() - 1].1 == y);
        } else {
            assert(q[y] == p[y]);
            let j0 = choose|j: int| 0 <= j < act.len() && act[j].1 == y;
            assert(j0 != ia);
            let j1 = if j0 < ia { j0 } else { j0 - 1 };
            assert(act1[j1] == act[j0]);
            assert(j1 != ib);
            let j2 = if j1 < ib { j1 } else { j1 - 1 };
            assert(act2[j2] == act1[j1]);
            assert(nact[j2].1 == y);
        }
    }
    assert forall|y: int| 0 <= y < q.len() && q[y] == NO_PARENT
        implies #[trigger] leaf_sum(q, y, kk, m) == pow2(kk) by {
        lemma_merge_sums(p, a, b, kk, m, y);
        if y != idx {
            assert(q[y] == p[y]);
        } else {
            assert(leaf_sum(p, a, kk, m) == pow2(kk));
            assert(leaf_sum(p, b, kk, m) == pow2(kk));
        }
    }
    assert(nact[nact.len() - 1].1 == q.len() - 1);
}

/// Node `u` pops before node `v`: it is lighter, or as heavy and older.
spec fn pops_before(wts: Seq<u64>, u: int, v: int) -> bool {
    wts[u] < wts[v] || (wts[u] == wts[v] && u < v)
}

/// For leaves `x` and `y` where `y` pops first: `x` sits no deeper than `y`,
/// and when the two are as deep in different trees, `y`'s tree pops first.
spec fn heavier_not_deeper(p: Seq<usize>, wts: Seq<u64>, x: int, y: int) -> bool {
    pops_before(wts, y, x) ==> {
        &&& depth_of(p, x) <= depth_of(p, y)
        &&& (root_of(p, x) != root_of(p, y) && depth_of(p, x) == depth_of(p, y))
            ==> pops_before(wts, root_of(p, y), root_of(p, x))
    }
}

/// The weights of the forest while merging: each node's weight is recorded,
/// every parent is a merged node, any two waiting trees together weigh at
/// least the last merge, no merged root weighs more than it, and of two leaves
/// the one that pops later sits no deeper.
spec fn order_state(p: Seq<usize>, wts: Seq<u64>, act: Seq<(u64, usize)>, m: nat, last: nat) -> bool {
    &&& wts.len() == p.len()
    &&& forall|j: int| 0 <= j < act.len() ==> #[trigger] act[j].0 == wts[act[j].1 as int]
    &&& forall|x: int| 0 <= x < p.len() ==> #[trigger] p[x] == NO_PARENT || p[x] >= m
    &&& forall|j1: int, j2: int| 0 <= j1 < act.len() && 0 <= j2 < act.len() && j1 != j2
            ==> act[j1].0 + act[j2].0 >= last
    &&& forall|r: int| m <= r < p.len() && p[r] == NO_PARENT ==> #[trigger] wts[r] <= last
    &&& forall|x: int, y: int| 0 <= x < m && 0 <= y < m ==> #[trigger] heavier_not_deeper(p, wts, x, y)
}

/// A node below a merged node has a merged root.
proof fn lemma_root_is_merged(p: Seq<usize>, y: int, m: nat)
    requires
        forest_wf(p),
        0 <= y < p.len(),
        p[y] != NO_PARENT,
        forall|x: int| 0 <= x < p.len() ==> #[trigger] p[x] == NO_PARENT || p[x] >= m,
    ensures
        root_of(p, y) >= m,
{
    lemma_root_facts(p, p[y] as int);
    assert(root_of(p, y) == root_of(p, p[y] as int));
}

/// Merging the two trees that pop first keeps the order state, with the new
/// node's weight as the last merge.
#[verifier::rlimit(60)]
proof fn lemma_merge_order(p: Seq<usize>, wts: Seq<u64>, act: Seq<(u64, usize)>, ia: int, ib: int, m: nat,
    kk: nat, last: nat, w: u64)
    requires
        forest_state(p, act, m, kk),
        order_state(p, wts, act, m, last),
        act.len() >= 2,
        0 <= ia < act.len(),
        0 <= ib < act.len() - 1,
        forall|k: int| 0 <= k < act.len() ==> pops_first(act[ia], #[trigger] act[k]),
        forall|k: int| 0 <= k < act.len() - 1 ==> pops_first(act.remove(ia)[ib], #[trigger] act.remove(ia)[k]),
        w == act[ia].0 + act.remove(ia)[ib].0,
        p.len() < usize::MAX,
    ensures
        order_state(
            merged(p, act[ia].1 as int, act.remove(ia)[ib].1 as int),
            wts.push(w),
            act.remove(ia).remove(ib).push((w, p.len() as usize)),
            m,
            w as nat,
        ),
{
    let a = act[ia].1 as int;
    let act1 = act.remove(ia);
    let b = act1[ib].1 as int;
    let act2 = act1.remove(ib);
    let n = p.len() as int;
    let q = merged(p, a, b);
    let wq = wts.push(w);
    let nact = act2.push((w, p.len() as usize));
    lemma_merge_step_distinct(p, act, ia, ib, m, kk);
    let jb = if ib < ia { ib } else { ib + 1 };
    assert(act1[ib] == act[jb]);
    assert(wts[a] == act[ia].0);
    assert(wts[b] == act[jb].0);
    assert(act[ia].0 + act[jb].0 >= last);
    // Where each waiting entry came from.
    assert forall|j: int| 0 <= j < act2.len() implies exists|l: int| 0 <= l < act.len() && l != ia && l != jb
        && #[trigger] act2[j] == act[l] && act1[if j < ib { j } else { j + 1 }] == act[l] by {
        let k1 = if j < ib { j } else { j + 1 };
        let l = if k1 < ia { k1 } else { k1 + 1 };
        assert(act2[j] == act1[k1]);
        assert(act1[k1] == act[l]);
    }
    assert forall|j: int| 0 <= j < nact.len() implies #[trigger] nact[j].0 == wq[nact[j].1 as int] by {
        if j < nact.len() - 1 {
            let l = choose|l: int| 0 <= l < act.len() && l != ia && l != jb && act2[j] == act[l]
                && act1[if j < ib { j } else { j + 1 }] == act[l];
            assert(nact[j] == act[l]);
            assert(act[l].0 == wts[act[l].1 as int]);
        }
    }
    assert forall|x: int| 0 <= x < q.len() implies #[trigger] q[x] == NO_PARENT || q[x] >= m by {
        if x < n && x != a && x != b {
            assert(q[x] == p[x]);
        }
    }
    assert forall|j1: int, j2: int| 0 <= j1 < nact.len() && 0 <= j2 < nact.len() && j1 != j2
        implies nact[j1].0 + nact[j2].0 >= w as nat by {
        if j1 < nact.len() - 1 && j2 < nact.len() - 1 {
            let l1 = choose|l: int| 0 <= l < act.len() && l != ia && l != jb && act2[j1] == act[l]
                && act1[if j1 < ib { j1 } else { j1 + 1 }] == act[l];
            let l2 = choose|l: int| 0 <= l < act.len() && l != ia && l != jb && act2[j2] == act[l]
                && act1[if j2 < ib { j2 } else { j2 + 1 }] == act[l];
            assert(pops_first(act[ia], act[l1]));
            assert(pops_first(act1[ib], act1[if j2 < ib { j2 } else { j2 + 1 }]));
            assert(nact[j1] == act[l1]);
            assert(nact[j2] == act[l2]);
        }
    }
    assert forall|r: int| m <= r < q.len() && q[r] == NO_PARENT implies #[trigger] wq[r] <= w as nat by {
        if r < n {
            assert(r != a && r != b);
            assert(q[r] == p[r]);
            assert(wq[r] == wts[r]);
        }
    }
    assert forall|x: int, y: int| 0 <= x < m && 0 <= y < m implies #[trigger] heavier_not_deeper(q, wq, x, y) by {
        lemma_heavier_after_merge(p, wts, act, ia, ib, m, kk, last, w, x, y);
    }
}

/// One pair of leaves after a merge: see `lemma_merge_order`.
#[verifier::rlimit(40)]
proof fn lemma_heavier_after_merge(p: Seq<usize>, wts: Seq<u64>, act: Seq<(u64, usize)>, ia: int, ib: int,
    m: nat, kk: nat, last: nat, w: u64, x: int, y: int)
    requires
        forest_state(p, act, m, kk),
        order_state(p, wts, act, m, last),
        act.len() >= 2,
        0 <= ia < act.len(),
        0 <= ib < act.len() - 1,
        forall|k: int| 0 <= k < act.len() ==> pops_first(act[ia], #[trigger] act[k]),
        forall|k: int| 0 <= k < act.len() - 1 ==> pops_first(act.remove(ia)[ib], #[trigger] act.remove(ia)[k]),
        w == act[ia].0 + act.remove(ia)[ib].0,
        p.len() < usize::MAX,
        0 <= x < m,
        0 <= y < m,
    ensures
        heavier_not_deeper(merged(p, act[ia].1 as int, act.remove(ia)[ib].1 as int), wts.push(w), x, y),
{
    let a = act[ia].1 as int;
    let act1 = act.remove(ia);
    let b = act1[ib].1 as int;
    let n = p.len() as int;
    let q = merged(p, a, b);
    let wq = wts.push(w);
    lemma_merge_step_distinct(p, act, ia, ib, m, kk);
    let jb = if ib < ia { ib } else { ib + 1 };
    assert(act1[ib] == act[jb]);
    assert(wts[a] == act[ia].0);
    assert(wts[b] == act[jb].0);
    assert(act[ia].0 + act[jb].0 >= last);
    if pops_before(wq, y, x) {
        assert(wq[x] == wts[x] && wq[y] == wts[y]);
        assert(heavier_not_deeper(p, wts, x, y));
        lemma_merge_node(p, a, b, x);
        lemma_merge_node(p, a, b, y);
        lemma_root_facts(p, x);
        lemma_root_facts(p, y);
        let rx = root_of(p, x);
        let ry = root_of(p, y);
        let inx = rx == a || rx == b;
        let iny = ry == a || ry == b;
        if rx != ry {
            if inx && !iny {
                let jy = choose|j: int| 0 <= j < act.len() && act[j].1 == ry;
                assert(act[jy].0 == wts[ry]);
                if depth_of(p, x) == depth_of(p, y) {
                    assert(pops_before(wts, ry, rx));
                    if rx == a {
                        assert(pops_first(act[ia], act[jy]));
                    } else {
                        assert(jy != ia);
                        let k = if jy < ia { jy } else { jy - 1 };
                        assert(act1[k] == act[jy]);
                        assert(pops_first(act1[ib], act1[k]));
                    }
                }
                if depth_of(p, x) + 1 == depth_of(p, y) {
                    lemma_root_is_merged(p, y, m);
                    assert(p[ry] == NO_PARENT);
                    assert(wts[ry] <= last);
                    assert(wq[ry] == wts[ry]);
                    assert(wq[n] == w);
                }
            } else if !inx && !iny {
                assert(wq[rx] == wts[rx] && wq[ry] == wts[ry]);
            }
        }
    }
}

/// The first position holding the pair that a min-heap of `(weight, node)`
/// would pop next.
pub open spec fn first_lightest(s: Seq<(u64, usize)>) -> int
    decreases s.len(),
{
    if s.len() <= 1 {
        0
    } else {
        let j = first_lightest(s.drop_last());
        if pops_first(s[j], s.last()) {
            j
        } else {
            s.len() - 1
        }
    }
}

/// `first_lightest` picks a position inside a nonempty list.
pub proof fn lemma_first_lightest_range(s: Seq<(u64, usize)>)
    requires
        s.len() >= 1,
    ensures
        0 <= first_lightest(s) < s.len(),
    decreases s.len(),
{
    if s.len() > 1 {
        lemma_first_lightest_range(s.drop_last());
    }
}

/// Huffman's algorithm on a forest `p` whose roots wait in `act` as
/// `(weight, node)` pairs: while two or more trees wait, the two that a
/// min-heap pops first become the children of a new node, which waits with
/// their summed weight. The result is the finished forest.
pub open spec fn huffman_merge(p: Seq<usize>, act: Seq<(u64, usize)>) -> Seq<usize>
    decreases act.len(),
{
    if act.len() <= 1 {
        p
    } else {
        let ia = first_lightest(act);
        let rest = act.remove(ia);
        let ib = first_lightest(rest);
        proof {
            lemma_first_lightest_range(act);
            lemma_first_lightest_range(rest);
        }
        huffman_merge(
            merged(p, act[ia].1 as int, rest[ib].1 as int),
            rest.remove(ib).push(((act[ia].0 + rest[ib].0) as u64, p.len() as usize)),
        )
    }
}

/// The weights of the used symbols (those with a nonzero frequency), in order.
pub open spec fn leaf_weights(freqs: Seq<u32>) -> Seq<u64>
    decreases freqs.len(),
{
    if freqs.len() == 0 {
        Seq::empty()
    } else if freqs.last() > 0 {
        leaf_weights(freqs.drop_last()).push(freqs.last() as u64)
    } else {
        leaf_weights(freqs.drop_last())
    }
}

/// The Huffman tree of `freqs`, as parent links: one leaf per used symbol, in
/// order, then the merged nodes in the order they are made.
pub open spec fn huffman_tree(freqs: Seq<u32>) -> Seq<usize> {
    let lw = leaf_weights(freqs);
    huffman_merge(Seq::new(lw.len(), |x: int| NO_PARENT), Seq::new(lw.len(), |t: int| (lw[t], t as usize)))
}

/// The depth of symbol `i`'s leaf in the Huffman tree of `freqs`.
pub open spec fn tree_depth(freqs: Seq<u32>, i: int) -> nat {
    depth_of(huffman_tree(freqs), num_used(freqs.take(i)) as int)
}

/// Every used symbol's leaf lies at most `MAX_CODE_BITS` deep in the Huffman tree.
pub open spec fn tree_fits(freqs: Seq<u32>) -> bool {
    forall|i: int| 0 <= i < freqs.len() && freqs[i] > 0 ==> #[trigger] tree_depth(freqs, i) <= MAX_CODE_BITS
}

/// When Huffman's merging is done, leaf `x` hangs under the one root, at a
/// depth of at least one and less than the arena's size.
proof fn lemma_leaf_under_root(p: Seq<usize>, act: Seq<(u64, usize)>, m: nat, kk: nat, root: int, x: int)
    requires
        forest_state(p, act, m, kk),
        act.len() == 1,
        root == act[0].1,
        root == p.len() - 1,
        2 <= m,
        p.len() == 2 * m - 1,
        kk == 2 * m + 15,
        0 <= x < m,
    ensures
        root_of(p, x) == root,
        depth_of(p, x) >= 1,
        depth_of(p, x) < kk,
        depth_of(p, x) < p.len(),
{
    lemma_root_facts(p, x);
    let rx = root_of(p, x);
    assert(0 <= rx < p.len() && p[rx] == NO_PARENT);
    let j = choose|j: int| 0 <= j < act.len() && act[j].1 == rx;
    assert(j == 0);
    assert(rx == root);
}

/// The position of the pair that a min-heap of `(weight, node)` would pop next.
fn min_index(active: &Vec<(u64, usize)>) -> (i: usize)
    requires
        active@.len() > 0,
    ensures
        i < active@.len(),
        i == first_lightest(active@),
        forall|k: int| 0 <= k < active@.len() ==> pops_first(active@[i as int], active@[k]),
{
    let mut best: usize = 0;
    let mut k: usize = 1;
    proof {
        assert(active@.take(1).len() == 1);
    }
    while k < active.len()
        invariant
            1 <= k <= active@.len(),
            best < k,
            best == first_lightest(active@.take(k as int)),
            forall|t: int| 0 <= t < k ==> pops_first(active@[best as int], active@[t]),
        decreases active@.len() - k,
    {
        proof {
            let s = active@.take(k as int + 1);
            assert(s.drop_last() =~= active@.take(k as int));
            assert(s[best as int] == active@[best as int]);
            assert(s.last() == active@[k as int]);
        }
        let (w, node) = active[k];
        let (bw, bnode) = active[best];
        if w < bw || (w == bw && node < bnode) {
            best = k;
        }
        k += 1;
    }
    proof {
        assert(active@.take(k as int) =~= active@);
    }
    best
}

/// The depth of each used symbol's leaf in the Huffman tree of `freqs` (0 for
/// an unused symbol).
pub open spec fn tree_depths(freqs: Seq<u32>) -> Seq<usize> {
    Seq::new(freqs.len(), |i: int| if freqs[i] > 0 { tree_depth(freqs, i) as usize } else { 0usize })
}

/// Counting byte lengths is counting the same lengths held as `usize`.
proof fn lemma_count_len_matches(lens: Seq<u8>, raw: Seq<usize>, l: nat)
    requires
        lens.len() == raw.len(),
        1 <= l,
        forall|i: int| 0 <= i < lens.len() ==> lens[i] as usize == raw[i],
    ensures
        count_len(lens, l) == count_eq(raw, l),
    decreases lens.len(),
{
    if lens.len() > 0 {
        let k = lens.len() - 1;
        assert(lens[k] as usize == raw[k]);
        lemma_count_len_matches(lens.drop_last(), raw.drop_last(), l);
    }
}

/// What `code_lengths` promises of the lengths `lens` it builds for `freqs`.
pub open spec fn huffman_lengths(freqs: Seq<u32>, lens: Seq<u8>) -> bool {
    &&& lens.len() == freqs.len()
    &&& forall|i: int| 0 <= i < freqs.len() ==> #[trigger] lens[i] <= MAX_CODE_BITS
    &&& forall|i: int| 0 <= i < freqs.len() ==> freqs[i] == 0 ==> #[trigger] lens[i] == 0
    &&& num_used(freqs) == 1 ==> forall|i: int| 0 <= i < freqs.len() ==> freqs[i] > 0 ==> #[trigger] lens[i] == 1
    &&& num_used(freqs) <= pow2(MAX_CODE_BITS as nat) ==> {
        &&& forall|i: int| 0 <= i < freqs.len() ==> freqs[i] > 0 ==> #[trigger] lens[i] > 0
        &&& kraft_ok(lens)
    }
    &&& 2 <= num_used(freqs) <= pow2(MAX_CODE_BITS as nat) ==> kraft_sum(lens) == pow2(MAX_CODE_BITS as nat)
    &&& num_used(freqs) <= pow2(MAX_CODE_BITS as nat) ==> forall|a: int, b: int|
        0 <= a < freqs.len() && 0 <= b < freqs.len() && freqs[a] > freqs[b] && freqs[b] > 0
        ==> #[trigger] lens[a] <= #[trigger] lens[b]
    &&& 2 <= num_used(freqs) && tree_fits(freqs) ==> forall|i: int|
        0 <= i < freqs.len() && freqs[i] > 0 ==> #[trigger] lens[i] == tree_depth(freqs, i)
    &&& 2 <= num_used(freqs) <= pow2(MAX_CODE_BITS as nat) && !tree_fits(freqs) ==> {
        &&& forall|l: int| 1 <= l <= MAX_CODE_BITS ==> count_len(lens, l as nat)
            == #[trigger] limited_hist(tree_depths(freqs), MAX_CODE_BITS as nat)[l]
        &&& forall|a: int, b: int| 0 <= a < freqs.len() && 0 <= b < freqs.len() && freqs[a] > 0 && freqs[b] > 0
            && #[trigger] comes_before(freqs, a as usize, b as usize) ==> lens[a] <= lens[b]
    }
}

/// How many of `lens` lie in `1..=l`.
pub open spec fn le_count(lens: Seq<u8>, l: nat) -> nat
    decreases lens.len(),
{
    if lens.len() == 0 {
        0
    } else {
        le_count(lens.drop_last(), l) + if 1 <= lens.last() <= l { 1nat } else { 0nat }
    }
}

proof fn lemma_le_count_step(lens: Seq<u8>, l: nat)
    requires
        1 <= l,
    ensures
        le_count(lens, l) == le_count(lens, (l - 1) as nat) + count_len(lens, l),
    decreases lens.len(),
{
    if lens.len() > 0 {
        lemma_le_count_step(lens.drop_last(), l);
    }
}

proof fn lemma_le_count_zero(lens: Seq<u8>)
    ensures
        le_count(lens, 0) == 0,
    decreases lens.len(),
{
    if lens.len() > 0 {
        lemma_le_count_zero(lens.drop_last());
    }
}

proof fn lemma_le_count_same(a: Seq<u8>, b: Seq<u8>, l: nat)
    requires
        forall|x: nat| 1 <= x <= l ==> #[trigger] count_len(a, x) == count_len(b, x),
    ensures
        le_count(a, l) == le_count(b, l),
    decreases l,
{
    if l == 0 {
        lemma_le_count_zero(a);
        lemma_le_count_zero(b);
    } else {
        lemma_le_count_same(a, b, (l - 1) as nat);
        lemma_le_count_step(a, l);
        lemma_le_count_step(b, l);
    }
}

/// If every entry of `b` in `1..=l` has its entry of `a` in `1..=l` too, and
/// entry `x` of `a` is there but not that of `b`, then `b` has fewer there.
proof fn lemma_le_count_fewer(a: Seq<u8>, b: Seq<u8>, l: nat, x: int)
    requires
        a.len() == b.len(),
        0 <= x < a.len(),
        forall|i: int| 0 <= i < a.len() && 1 <= #[trigger] b[i] <= l ==> 1 <= a[i] <= l,
        1 <= a[x] <= l,
        !(1 <= b[x] <= l),
    ensures
        le_count(b, l) < le_count(a, l),
    decreases a.len(),
{
    if x < a.len() - 1 {
        lemma_le_count_fewer(a.drop_last(), b.drop_last(), l, x);
    } else {
        lemma_le_count_within(a.drop_last(), b.drop_last(), l);
    }
}

proof fn lemma_le_count_within(a: Seq<u8>, b: Seq<u8>, l: nat)
    requires
        a.len() == b.len(),
        forall|i: int| 0 <= i < a.len() && 1 <= #[trigger] b[i] <= l ==> 1 <= a[i] <= l,
    ensures
        le_count(b, l) <= le_count(a, l),
    decreases a.len(),
{
    if a.len() > 0 {
        lemma_le_count_within(a.drop_last(), b.drop_last(), l);
    }
}

/// Two tables that both meet the promise for a tree deeper than
/// `MAX_CODE_BITS` cannot give symbol `x` a shorter length in `a` than in `b`:
/// the symbols of length at most `a[x]` in `b` would be fewer than in `a`.
proof fn lemma_limited_not_shorter(freqs: Seq<u32>, a: Seq<u8>, b: Seq<u8>, x: int)
    requires
        huffman_lengths(freqs, a),
        huffman_lengths(freqs, b),
        2 <= num_used(freqs) <= pow2(MAX_CODE_BITS as nat),
        !tree_fits(freqs),
        freqs.len() <= usize::MAX,
        0 <= x < freqs.len(),
        freqs[x] > 0,
    ensures
        !(a[x] < b[x]),
{
    if a[x] < b[x] {
        let l = a[x] as nat;
        assert(1 <= l <= MAX_CODE_BITS);
        assert forall|y: nat| 1 <= y <= l implies #[trigger] count_len(a, y) == count_len(b, y) by {
            assert(count_len(a, y) == limited_hist(tree_depths(freqs), MAX_CODE_BITS as nat)[y as int]);
            assert(count_len(b, y) == limited_hist(tree_depths(freqs), MAX_CODE_BITS as nat)[y as int]);
        }
        lemma_le_count_same(a, b, l);
        assert forall|i: int| 0 <= i < a.len() && 1 <= #[trigger] b[i] <= l implies 1 <= a[i] <= l by {
            assert(freqs[i] > 0);
            assert(i != x);
            if comes_before(freqs, x as usize, i as usize) {
                assert(b[x] <= b[i]);
            } else {
                assert((i as usize) as int == i && (x as usize) as int == x);
                assert(comes_before(freqs, i as usize, x as usize));
                assert(a[i] <= a[x]);
            }
        }
        lemma_le_count_fewer(a, b, l, x);
    }
}

/// What `code_lengths` promises pins its result down: two tables that both
/// meet the promise are equal, whenever the Huffman tree of `freqs` is no
/// deeper than `MAX_CODE_BITS` or at most `2^MAX_CODE_BITS` symbols are used.
pub proof fn lemma_huffman_lengths_unique(freqs: Seq<u32>, a: Seq<u8>, b: Seq<u8>)
    requires
        huffman_lengths(freqs, a),
        huffman_lengths(freqs, b),
        tree_fits(freqs) || num_used(freqs) <= pow2(MAX_CODE_BITS as nat),
        freqs.len() <= usize::MAX,
    ensures
        a == b,
{
    assert forall|i: int| 0 <= i < freqs.len() implies a[i] == b[i] by {
        if freqs[i] > 0 {
            lemma_num_used_pos(freqs, i);
            if 2 <= num_used(freqs) && !tree_fits(freqs) {
                lemma_limited_not_shorter(freqs, a, b, i);
                lemma_limited_not_shorter(freqs, b, a, i);
            }
        }
    }
    assert(a =~= b);
}

/// Compute canonical code lengths for `freqs`. Symbols with frequency 0 get
/// length 0 ("not present"). The returned vector is the same length as `freqs`.
///
/// The lengths are those of a Huffman tree (built by repeatedly merging the two
/// lightest trees, `huffman_tree`): with two or more used symbols and a tree no
/// deeper than `MAX_CODE_BITS`, each used symbol's length is exactly its leaf's
/// depth. A deeper tree is limited to `MAX_CODE_BITS`: the lengths then have
/// the histogram `limited_hist` of the tree's depths and go, shortest first, to
/// the symbols in `comes_before` order. For any
/// alphabet of at most `2^15` used symbols they describe a prefix code:
/// every used symbol gets a code, and Kraft's inequality holds; with two or
/// more used symbols the code is complete (the Kraft sum is exactly one); and
/// a more frequent symbol never gets a longer code than a less frequent one.
#[verifier::spinoff_prover]
#[verifier::rlimit(40)]
pub fn code_lengths(freqs: &[u32]) -> (lengths: Vec<u8>)
    requires
        freqs@.len() <= u32::MAX,
        freqs@.len() <= usize::MAX / 2,
    ensures
        lengths@.len() == freqs@.len(),
        forall|i: int| 0 <= i < freqs@.len() ==> #[trigger] lengths@[i] <= MAX_CODE_BITS,
        forall|i: int| 0 <= i < freqs@.len() ==> freqs@[i] == 0 ==> #[trigger] lengths@[i] == 0,
        num_used(freqs@) == 1 ==> forall|i: int| 0 <= i < freqs@.len() ==> freqs@[i] > 0 ==> #[trigger] lengths@[i] == 1,
        num_used(freqs@) <= pow2(MAX_CODE_BITS as nat) ==> {
            &&& forall|i: int| 0 <= i < freqs@.len() ==> freqs@[i] > 0 ==> #[trigger] lengths@[i] > 0
            &&& kraft_ok(lengths@)
        },
        2 <= num_used(freqs@) <= pow2(MAX_CODE_BITS as nat) ==> kraft_sum(lengths@) == pow2(MAX_CODE_BITS as nat),
        num_used(freqs@) <= pow2(MAX_CODE_BITS as nat) ==> forall|a: int, b: int|
            0 <= a < freqs@.len() && 0 <= b < freqs@.len() && freqs@[a] > freqs@[b] && freqs@[b] > 0
            ==> #[trigger] lengths@[a] <= #[trigger] lengths@[b],
        2 <= num_used(freqs@) && tree_fits(freqs@) ==> forall|i: int|
            0 <= i < freqs@.len() && freqs@[i] > 0 ==> #[trigger] lengths@[i] == tree_depth(freqs@, i),
        2 <= num_used(freqs@) <= pow2(MAX_CODE_BITS as nat) && !tree_fits(freqs@) ==> {
            &&& forall|l: int| 1 <= l <= MAX_CODE_BITS ==> count_len(lengths@, l as nat)
                == #[trigger] limited_hist(tree_depths(freqs@), MAX_CODE_BITS as nat)[l]
            &&& forall|a: int, b: int| 0 <= a < freqs@.len() && 0 <= b < freqs@.len() && freqs@[a] > 0 && freqs@[b] > 0
                && #[trigger] comes_before(freqs@, a as usize, b as usize) ==> lengths@[a] <= lengths@[b]
        },
{
    let n = freqs.len();
    let mut used: Vec<usize> = Vec::new();
    let mut i: usize = 0;
    while i < n
        invariant
            n == freqs@.len(),
            i <= n,
            used@.len() == num_used(freqs@.take(i as int)),
            forall|k: int| 0 <= k < used@.len() ==> used@[k] < n && freqs@[used@[k] as int] > 0,
            forall|t: int| 0 <= t < i && freqs@[t] > 0 ==> num_used(#[trigger] freqs@.take(t)) < used@.len()
                && used@[num_used(freqs@.take(t)) as int] == t,
            leaf_weights(freqs@.take(i as int)).len() == used@.len(),
            forall|t: int| 0 <= t < used@.len() ==> #[trigger] leaf_weights(freqs@.take(i as int))[t]
                == freqs@[used@[t] as int] as u64,
        decreases n - i,
    {
        proof {
            lemma_num_used_take(freqs@, i as int);
            assert(freqs@.take(i as int + 1).drop_last() =~= freqs@.take(i as int));
            assert(freqs@.take(i as int + 1).last() == freqs@[i as int]);
        }
        if freqs[i] > 0 {
            let ghost before = used@;
            used.push(i);
            proof {
                assert forall|t: int| 0 <= t < i + 1 && freqs@[t] > 0 implies num_used(#[trigger] freqs@.take(t))
                    < used@.len() && used@[num_used(freqs@.take(t)) as int] == t by {
                    if t < i {
                        assert(used@[num_used(freqs@.take(t)) as int] == before[num_used(freqs@.take(t)) as int]);
                    }
                }
            }
        }
        i += 1;
    }
    proof {
        assert(freqs@.take(n as int) =~= freqs@);
        lemma_num_used_bound(freqs@);
        lemma2_to64();
    }
    let ghost lw = leaf_weights(freqs@);
    let m = used.len();
    if m == 0 {
        let mut lengths: Vec<u8> = Vec::new();
        let mut i: usize = 0;
        while i < n
            invariant
                i <= n,
                lengths@.len() == i,
                forall|t: int| 0 <= t < i ==> lengths@[t] == 0,
            decreases n - i,
        {
            lengths.push(0);
            i += 1;
        }
        proof {
            assert forall|t: int| 0 <= t < n implies freqs@[t] == 0 by {
                lemma_num_used_zero(freqs@, t);
            }
            assert forall|t: int| 0 <= t < n implies !(lengths@[t] >= 1) by {}
            kraft_sum_zero(lengths@);
        }
        return lengths;
    }
    if m == 1 {
        // A lone symbol still needs at least one bit so it can be written.
        let only = used[0];
        let mut lengths: Vec<u8> = Vec::new();
        let mut i: usize = 0;
        while i < n
            invariant
                i <= n,
                n == freqs@.len(),
                only < n,
                lengths@.len() == i,
                forall|t: int| 0 <= t < i ==> lengths@[t] == if t == only { 1u8 } else { 0u8 },
            decreases n - i,
        {
            if i == only {
                lengths.push(1);
            } else {
                lengths.push(0);
            }
            i += 1;
        }
        proof {
            assert forall|t: int| 0 <= t < n && freqs@[t] > 0 implies t == only by {
                lemma_num_used_one(freqs@, t, only as int);
            }
            assert forall|a: int, b: int| 0 <= a < n && 0 <= b < n && freqs@[a] > freqs@[b] && freqs@[b] > 0
                implies #[trigger] lengths@[a] <= #[trigger] lengths@[b] by {
                lemma_num_used_one(freqs@, a, b);
            }
            kraft_sum_single(lengths@, only as int);
            assert(pow2(14) <= pow2(15)) by {
                vstd::arithmetic::power2::lemma_pow2_strictly_increases(14, 15);
            }
        }
        return lengths;
    }

    // Tree nodes live in an arena of parent links: the first `m` nodes are the
    // leaves (the used symbols, in order); each merge appends the new parent.
    let ghost kk: nat = (2 * m + 15) as nat;
    let mut parent: Vec<usize> = Vec::new();
    let mut active: Vec<(u64, usize)> = Vec::new();
    // The weight of every node of the arena.
    let ghost mut wts: Seq<u64> = Seq::empty();
    let mut k: usize = 0;
    while k < m
        invariant
            k <= m,
            m == used@.len(),
            forall|t: int| 0 <= t < used@.len() ==> used@[t] < freqs@.len(),
            parent@ =~= Seq::new(k as nat, |x: int| NO_PARENT),
            active@.len() == k,
            wts.len() == k,
            forall|t: int| 0 <= t < k ==> #[trigger] active@[t].1 == t,
            forall|t: int| 0 <= t < k ==> #[trigger] wts[t] == freqs@[used@[t] as int] && active@[t].0 == wts[t],
            weight_sum(active@) <= k * 0xFFFF_FFFFnat,
            lw == leaf_weights(freqs@),
            lw.len() == m,
            forall|t: int| 0 <= t < m ==> #[trigger] lw[t] == freqs@[used@[t] as int] as u64,
        decreases m - k,
    {
        let w = freqs[used[k]] as u64;
        let ghost before = active@;
        parent.push(NO_PARENT);
        active.push((w, k));
        proof {
            assert(active@.drop_last() =~= before);
            wts = wts.push(w);
        }
        k += 1;
    }
    let ghost mut last: nat = 0;
    proof {
        assert(parent@ =~= Seq::new(lw.len(), |x: int| NO_PARENT));
        assert forall|t: int| 0 <= t < m implies #[trigger] active@[t] == (lw[t], t as usize) by {
            assert(active@[t].1 == t);
            assert(wts[t] == freqs@[used@[t] as int] && active@[t].0 == wts[t]);
        }
        assert(active@ =~= Seq::new(lw.len(), |t: int| (lw[t], t as usize)));
        assert(huffman_merge(parent@, active@) == huffman_tree(freqs@));
    }
    proof {
        let p0 = parent@;
        assert forall|x: int, y: int| 0 <= x < m && 0 <= y < m implies #[trigger] heavier_not_deeper(p0, wts, x, y) by {
            assert(p0[x] == NO_PARENT && p0[y] == NO_PARENT);
        }
        assert forall|j: int| 0 <= j < active@.len() implies #[trigger] active@[j].0 == wts[active@[j].1 as int] by {
            assert(active@[j].1 == j);
            assert(wts[j] == freqs@[used@[j] as int] && active@[j].0 == wts[j]);
        }
        assert(order_state(p0, wts, active@, m as nat, last));
    }
    proof {
        assert forall|r: int| 0 <= r < m implies leaf_sum(parent@, r, kk, m as nat) == pow2(kk) by {
            lemma_initial_sums(m as nat, kk, r, m as nat);
        }
        assert(forest_wf(parent@));
        assert forall|y: int| 0 <= y < parent@.len() && parent@[y] == NO_PARENT implies
            exists|j: int| 0 <= j < active@.len() && active@[j].1 == y by {
            assert(active@[y].1 == y);
        }
        assert(m * 0xFFFF_FFFFnat <= 0xFFFF_FFFF_FFFF_FFFFnat) by (nonlinear_arith)
            requires
                m <= 0xFFFF_FFFF,
        ;
    }
    proof {
        assert forall|j: int| 0 <= j < active@.len() implies #[trigger] active@[j].1 < parent@.len()
            && parent@[active@[j].1 as int] == NO_PARENT by {}
        assert forall|j1: int, j2: int| 0 <= j1 < active@.len() && 0 <= j2 < active@.len() && j1 != j2
            implies active@[j1].1 != active@[j2].1 by {
            assert(active@[j1].1 == j1);
            assert(active@[j2].1 == j2);
        }
    }
    while active.len() > 1
        invariant
            2 <= m <= u32::MAX,
            m <= usize::MAX / 2,
            kk == 2 * m + 15,
            forest_state(parent@, active@, m as nat, kk),
            order_state(parent@, wts, active@, m as nat, last),
            m == used@.len(),
            forall|t: int| 0 <= t < m ==> #[trigger] wts[t] == freqs@[used@[t] as int],
            weight_sum(active@) <= 0xFFFF_FFFF_FFFF_FFFFnat,
            huffman_merge(parent@, active@) == huffman_tree(freqs@),
        decreases active@.len(),
    {
        let ghost p = parent@;
        let ghost act = active@;
        let ia = min_index(&active);
        let (w1, a) = active.remove(ia);
        let ghost act1 = active@;
        let ib = min_index(&active);
        let (w2, b) = active.remove(ib);
        proof {
            lemma_weight_sum_remove(act, ia as int);
            lemma_weight_sum_remove(act1, ib as int);
            lemma_merge_step_distinct(p, act, ia as int, ib as int, m as nat, kk);
        }
        let ghost act2 = active@;
        let idx = parent.len();
        parent[a] = idx;
        parent[b] = idx;
        parent.push(NO_PARENT);
        let nw = w1 + w2;
        active.push((nw, idx));
        proof {
            assert(parent@ =~= merged(p, a as int, b as int));
            lemma_merge_step(p, act, ia as int, ib as int, m as nat, kk, nw);
            lemma_merge_order(p, wts, act, ia as int, ib as int, m as nat, kk, last, nw);
            assert(active@ =~= act.remove(ia as int).remove(ib as int).push((nw, p.len() as usize)));
            assert(active@ =~= act1.remove(ib as int).push(((act[ia as int].0 + act1[ib as int].0) as u64,
                p.len() as usize)));
            assert(huffman_merge(p, act) == huffman_merge(parent@, active@));
            assert(active@.drop_last() =~= act2);
            wts = wts.push(nw);
            last = nw as nat;
        }
    }
    let ghost p = parent@;
    let root = active[0].1;
    proof {
        assert(p == huffman_tree(freqs@));
        assert(p.len() == 2 * m - 1);
        assert(root == p.len() - 1);
        assert(forest_wf(p));
    }

    proof {
        assert forall|x: int| 0 <= x < m implies #[trigger] root_of(p, x) == root && depth_of(p, x) >= 1
            && depth_of(p, x) < kk && depth_of(p, x) < p.len() by {
            lemma_leaf_under_root(p, active@, m as nat, kk, root as int, x);
        }
        assert(p[root as int] == NO_PARENT);
        assert(leaf_sum(p, root as int, kk, m as nat) == pow2(kk));
    }
    let raw = leaf_depths(&parent, freqs, Ghost(m as nat), Ghost(kk), Ghost(root as int));
    proof {
        // Of two used symbols, the more frequent one's leaf pops later, so it is no deeper.
        assert forall|x: int, y: int| 0 <= x < n && 0 <= y < n && freqs@[x] > freqs@[y] && freqs@[y] > 0
            implies raw@[x] <= raw@[y] by {
            let kx = num_used(freqs@.take(x)) as int;
            let ky = num_used(freqs@.take(y)) as int;
            assert(num_used(freqs@.take(x)) < used@.len() && used@[kx] == x);
            assert(num_used(freqs@.take(y)) < used@.len() && used@[ky] == y);
            assert(wts[kx] == freqs@[used@[kx] as int]);
            assert(wts[ky] == freqs@[used@[ky] as int]);
            assert(heavier_not_deeper(p, wts, kx, ky));
            assert(raw@[x] == depth_of(p, kx));
            assert(raw@[y] == depth_of(p, ky));
        }
    }
    proof {
        assert forall|i: int| 0 <= i < n implies raw@[i] == #[trigger] tree_depths(freqs@)[i] by {
            if freqs@[i] > 0 {
                assert(raw@[i] == depth_of(p, num_used(freqs@.take(i)) as int));
            }
        }
        assert(raw@ =~= tree_depths(freqs@));
        lemma_sym_sum_zero(raw@);
    }
    let lengths = limit_to_bytes(raw, freqs, Ghost(kk));
    proof {
        let depths = tree_depths(freqs@);
        if tree_fits(freqs@) {
            assert forall|i: int| 0 <= i < n implies depths[i] <= MAX_CODE_BITS by {
                if freqs@[i] > 0 {
                    assert(tree_depth(freqs@, i) <= MAX_CODE_BITS);
                }
            }
            assert forall|i: int| 0 <= i < n && freqs@[i] > 0 implies #[trigger] lengths@[i] == tree_depth(freqs@, i) by {
                assert(lengths@[i] as usize == depths[i]);
            }
        } else if num_used(freqs@) <= pow2(MAX_CODE_BITS as nat) {
            let i = choose|i: int| !(0 <= i < freqs@.len() && freqs@[i] > 0 ==> #[trigger] tree_depth(freqs@, i) <= MAX_CODE_BITS);
            assert(depths[i] > MAX_CODE_BITS);
        }
    }
    lengths
}

/// The depth of each used symbol's leaf in the finished Huffman forest
/// `parent` (0 for an unused symbol).
fn leaf_depths(parent: &Vec<usize>, freqs: &[u32], Ghost(m): Ghost<nat>, Ghost(kk): Ghost<nat>, Ghost(root): Ghost<int>)
    -> (raw: Vec<usize>)
    requires
        freqs@.len() <= u32::MAX,
        m == num_used(freqs@),
        2 <= m,
        kk == 2 * m + 15,
        forest_wf(parent@),
        parent@.len() == 2 * m - 1,
        parent@.len() < usize::MAX,
        forall|x: int| 0 <= x < m ==> #[trigger] root_of(parent@, x) == root && depth_of(parent@, x) >= 1
            && depth_of(parent@, x) < kk && depth_of(parent@, x) < parent@.len(),
        leaf_sum(parent@, root, kk, m) == pow2(kk),
    ensures
        raw@.len() == freqs@.len(),
        forall|t: int| 0 <= t < freqs@.len() ==> (raw@[t] == 0) == (freqs@[t] == 0),
        forall|t: int| 0 <= t < freqs@.len() ==> raw@[t] < kk,
        forall|t: int| 0 <= t < freqs@.len() ==> raw@[t] < parent@.len(),
        forall|t: int| 0 <= t < freqs@.len() && freqs@[t] > 0 ==> #[trigger] raw@[t]
            == depth_of(parent@, num_used(freqs@.take(t)) as int),
        sym_sum(raw@, space_w(kk)) == pow2(kk),
{
    let n = freqs.len();
    let ghost p = parent@;
    // A node's depth is one more than its parent's; parents come later in the arena.
    let total = parent.len();
    let mut depth: Vec<usize> = Vec::new();
    let mut z: usize = 0;
    while z < total
        invariant
            z <= total,
            depth@.len() == z,
        decreases total - z,
    {
        depth.push(0);
        z += 1;
    }
    let mut j = total;
    while j > 0
        invariant
            j <= total,
            total == p.len(),
            parent@ == p,
            forest_wf(p),
            depth@.len() == total,
            forall|x: int| j <= x < total ==> depth@[x] == depth_of(p, x),
        decreases j,
    {
        j -= 1;
        let pj = parent[j];
        if pj != NO_PARENT {
            proof {
                lemma_root_facts(p, pj as int);
            }
            depth[j] = depth[pj] + 1;
        } else {
            depth[j] = 0;
        }
    }

    proof {
        assert(total == p.len());
    }

    // A leaf's depth is its code length.
    let mut raw: Vec<usize> = Vec::new();
    let mut s: usize = 0;
    let mut leaf: usize = 0;
    proof {
        assert(freqs@.take(0) =~= Seq::<u32>::empty());
        assert(forall|x: int| 0 <= x < m ==> #[trigger] root_of(p, x) == root && depth_of(p, x) >= 1
                && depth_of(p, x) < kk && depth_of(p, x) < total);
        assert(sym_sum(raw@, space_w(kk)) == leaf_sum(p, root as int, kk, leaf as nat));
        assert(forall|x: int| 0 <= x < total ==> depth@[x] == depth_of(p, x));
    }
    while s < n
        invariant
            s <= n,
            n == freqs@.len(),
            raw@.len() == s,
            leaf == num_used(freqs@.take(s as int)),
            m == num_used(freqs@),
            2 <= m,
            kk == 2 * m + 15,
            depth@.len() == total,
            total == p.len(),
            m <= total,
            forall|x: int| 0 <= x < total ==> depth@[x] == depth_of(p, x),
            forall|x: int| 0 <= x < m ==> #[trigger] root_of(p, x) == root && depth_of(p, x) >= 1
                && depth_of(p, x) < kk && depth_of(p, x) < total,
            forall|t: int| 0 <= t < s ==> (raw@[t] == 0) == (freqs@[t] == 0),
            forall|t: int| 0 <= t < s ==> raw@[t] < kk,
            forall|t: int| 0 <= t < s ==> raw@[t] < total,
            forall|t: int| 0 <= t < s && freqs@[t] > 0 ==> #[trigger] raw@[t] == depth_of(p, num_used(freqs@.take(t)) as int),
            sym_sum(raw@, space_w(kk)) == leaf_sum(p, root as int, kk, leaf as nat),
        decreases n - s,
    {
        proof {
            lemma_num_used_take(freqs@, s as int);
            lemma_num_used_le(freqs@, s as int + 1);
        }
        let ghost before = raw@;
        if freqs[s] > 0 {
            proof {
                assert(root_of(p, leaf as int) == root);
            }
            let d = depth[leaf];
            raw.push(d);
            proof {
                assert(raw@[s as int] == d);
                assert(d < kk && d < total);
                lemma_sym_sum_push(before, d, space_w(kk));
                assert(leaf_term(p, root as int, kk, leaf as int) == pow2((kk - depth_of(p, leaf as int)) as nat));
            }
            leaf += 1;
        } else {
            raw.push(0);
            proof {
                lemma_sym_sum_push(before, 0, space_w(kk));
            }
        }
        s += 1;
    }
    proof {
        assert(freqs@.take(n as int) =~= freqs@);
        assert(leaf == m);
    }
    raw
}

/// Limit the leaf depths `raw` (one per symbol, 0 for an unused symbol) to
/// `MAX_CODE_BITS` and hold them as bytes.
fn limit_to_bytes(raw: Vec<usize>, freqs: &[u32], Ghost(kk): Ghost<nat>) -> (lengths: Vec<u8>)
    requires
        raw@.len() == freqs@.len(),
        freqs@.len() <= u32::MAX,
        MAX_CODE_BITS <= kk,
        forall|i: int| 0 <= i < freqs@.len() ==> (raw@[i] == 0) == (freqs@[i] == 0),
        forall|i: int| 0 <= i < freqs@.len() ==> raw@[i] < kk,
        forall|i: int| 0 <= i < freqs@.len() ==> raw@[i] < usize::MAX,
        sym_sum(raw@, space_w(kk)) == pow2(kk),
        forall|a: int, b: int| 0 <= a < freqs@.len() && 0 <= b < freqs@.len() && freqs@[a] > freqs@[b] && freqs@[b] > 0
            ==> raw@[a] <= raw@[b],
    ensures
        lengths@.len() == freqs@.len(),
        forall|i: int| 0 <= i < freqs@.len() ==> #[trigger] lengths@[i] <= MAX_CODE_BITS,
        forall|i: int| 0 <= i < freqs@.len() ==> freqs@[i] == 0 ==> #[trigger] lengths@[i] == 0,
        (forall|i: int| 0 <= i < freqs@.len() ==> raw@[i] <= MAX_CODE_BITS) ==> forall|i: int|
            0 <= i < freqs@.len() ==> #[trigger] lengths@[i] as usize == raw@[i],
        num_used(freqs@) <= pow2(MAX_CODE_BITS as nat) ==> {
            &&& forall|i: int| 0 <= i < freqs@.len() ==> freqs@[i] > 0 ==> #[trigger] lengths@[i] > 0
            &&& kraft_sum(lengths@) == pow2(MAX_CODE_BITS as nat)
            &&& forall|a: int, b: int| 0 <= a < freqs@.len() && 0 <= b < freqs@.len() && freqs@[a] > freqs@[b]
                && freqs@[b] > 0 ==> #[trigger] lengths@[a] <= #[trigger] lengths@[b]
        },
        num_used(freqs@) <= pow2(MAX_CODE_BITS as nat) && (exists|i: int| 0 <= i < freqs@.len() && raw@[i] > MAX_CODE_BITS)
            ==> {
            &&& forall|l: int| 1 <= l <= MAX_CODE_BITS ==> count_len(lengths@, l as nat)
                == #[trigger] limited_hist(raw@, MAX_CODE_BITS as nat)[l]
            &&& forall|a: int, b: int| 0 <= a < freqs@.len() && 0 <= b < freqs@.len() && freqs@[a] > 0 && freqs@[b] > 0
                && #[trigger] comes_before(freqs@, a as usize, b as usize) ==> lengths@[a] <= lengths@[b]
        },
{
    let n = raw.len();
    let ghost raw0 = raw@;
    let mut raw = raw;
    limit_lengths(&mut raw, freqs, MAX_CODE_BITS, Ghost(kk));
    proof {
        if num_used(freqs@) <= pow2(MAX_CODE_BITS as nat) {
            if forall|i: int| 0 <= i < n ==> raw0[i] <= MAX_CODE_BITS {
                assert(raw@ == raw0);
            } else {
                let i = choose|i: int| !(0 <= i < n ==> raw0[i] <= MAX_CODE_BITS);
                assert(0 <= i < n && raw0[i] > MAX_CODE_BITS);
            }
            assert forall|a: int, b: int| 0 <= a < n && 0 <= b < n && freqs@[a] > freqs@[b] && freqs@[b] > 0
                implies raw@[a] <= raw@[b] by {
                assert(raw0[a] <= raw0[b]);
            }
        }
    }
    let mut lengths: Vec<u8> = Vec::new();
    let mut s: usize = 0;
    while s < n
        invariant
            s <= n,
            n == raw@.len(),
            n == freqs@.len(),
            lengths@.len() == s,
            forall|t: int| 0 <= t < n ==> raw@[t] <= 15,
            forall|t: int| 0 <= t < s ==> lengths@[t] as usize == raw@[t],
        decreases n - s,
    {
        lengths.push(raw[s] as u8);
        s += 1;
    }
    proof {
        lemma_kraft_sum_matches(lengths@, raw@);
        lemma2_to64();
        assert forall|i: int| 0 <= i < n implies #[trigger] lengths@[i] <= MAX_CODE_BITS by {
            assert(lengths@[i] as usize == raw@[i]);
        }
        if forall|i: int| 0 <= i < n ==> raw0[i] <= MAX_CODE_BITS {
            assert(raw@ == raw0);
        }
        if num_used(freqs@) <= pow2(MAX_CODE_BITS as nat) {
            assert forall|a: int, b: int| 0 <= a < n && 0 <= b < n && freqs@[a] > freqs@[b] && freqs@[b] > 0
                implies #[trigger] lengths@[a] <= #[trigger] lengths@[b] by {
                assert(lengths@[a] as usize == raw@[a]);
                assert(lengths@[b] as usize == raw@[b]);
            }
            assert forall|i: int| 0 <= i < n && freqs@[i] > 0 implies #[trigger] lengths@[i] > 0 by {
                assert(lengths@[i] as usize == raw@[i]);
            }
            if exists|i: int| 0 <= i < n && raw0[i] > MAX_CODE_BITS {
                assert forall|l: int| 1 <= l <= MAX_CODE_BITS implies count_len(lengths@, l as nat)
                    == #[trigger] limited_hist(raw0, MAX_CODE_BITS as nat)[l] by {
                    lemma_count_len_matches(lengths@, raw@, l as nat);
                }
                assert forall|a: int, b: int| 0 <= a < n && 0 <= b < n && freqs@[a] > 0 && freqs@[b] > 0
                    && #[trigger] comes_before(freqs@, a as usize, b as usize) implies lengths@[a] <= lengths@[b] by {
                    assert(lengths@[a] as usize == raw@[a]);
                    assert(lengths@[b] as usize == raw@[b]);
                }
            }
        }
    }
    lengths
}

proof fn kraft_sum_zero(lens: Seq<u8>)
    requires
        forall|t: int| 0 <= t < lens.len() ==> lens[t] == 0,
    ensures
        kraft_sum(lens) == 0,
    decreases lens.len(),
{
    if lens.len() > 0 {
        kraft_sum_zero(lens.drop_last());
    }
}

proof fn kraft_sum_single(lens: Seq<u8>, only: int)
    requires
        0 <= only < lens.len(),
        forall|t: int| 0 <= t < lens.len() ==> lens[t] == if t == only { 1u8 } else { 0u8 },
    ensures
        kraft_sum(lens) == pow2(14),
    decreases lens.len(),
{
    let t = lens.drop_last();
    if only < lens.len() - 1 {
        kraft_sum_single(t, only);
    } else {
        kraft_sum_zero(t);
    }
}

/// `(x + c) << 1` in 32-bit arithmetic.
proof fn lemma_shl1(x: u32)
    ensures
        (x << 1u32) == (x as nat * 2) % 0x1_0000_0000,
{
    assert((x << 1u32) == (x as nat * 2) % 0x1_0000_0000) by (bit_vector);
}

/// The longest length, computed.
fn longest(lengths: &[u8]) -> (max: u8)
    ensures
        max as nat == max_len(lengths@),
{
    let mut max: u8 = 0;
    let mut i: usize = 0;
    proof {
        assert(lengths@.take(0) =~= Seq::<u8>::empty());
    }
    while i < lengths.len()
        invariant
            i <= lengths@.len(),
            max as nat == max_len(lengths@.take(i as int)),
        decreases lengths@.len() - i,
    {
        proof {
            lemma_max_take_step(lengths@, i as int);
        }
        if lengths[i] > max {
            max = lengths[i];
        }
        i += 1;
    }
    proof {
        assert(lengths@.take(lengths@.len() as int) =~= lengths@);
    }
    max
}

/// How many symbols have each code length `1..=max` (entry 0 stays 0).
fn count_lengths(lengths: &[u8], max: u8) -> (count: Vec<u32>)
    requires
        max as nat == max_len(lengths@),
        forall|l: nat| 1 <= l <= max ==> #[trigger] count_len(lengths@, l) <= u32::MAX,
    ensures
        count@.len() == max + 1,
        count@[0] == 0,
        forall|l: int| 1 <= l <= max ==> #[trigger] count@[l] == count_len(lengths@, l as nat),
{
    let maxu = max as usize;
    let mut count: Vec<u32> = Vec::new();
    let mut z: usize = 0;
    while z <= maxu
        invariant
            maxu == max,
            z <= maxu + 1,
            count@.len() == z,
            forall|l: int| 0 <= l < z ==> count@[l] == 0,
        decreases maxu + 1 - z,
    {
        count.push(0);
        z += 1;
    }
    let mut i: usize = 0;
    proof {
        assert(lengths@.take(0) =~= Seq::<u8>::empty());
    }
    while i < lengths.len()
        invariant
            i <= lengths@.len(),
            maxu == max,
            max as nat == max_len(lengths@),
            count@.len() == maxu + 1,
            count@[0] == 0,
            forall|l: nat| 1 <= l <= max ==> #[trigger] count_len(lengths@, l) <= u32::MAX,
            forall|l: int| 1 <= l <= maxu ==> #[trigger] count@[l] == count_len(lengths@.take(i as int), l as nat),
        decreases lengths@.len() - i,
    {
        let l = lengths[i];
        proof {
            assert forall|k: nat| 1 <= k <= max implies syms_of_len(lengths@.take(i as int + 1), k)
                == if lengths@[i as int] == k { syms_of_len(lengths@.take(i as int), k).push(i as nat) }
                else { syms_of_len(lengths@.take(i as int), k) } by {
                lemma_syms_take_step(lengths@, i as int, k);
            }
            crate::canonical::lemma_max_len_bound(lengths@, i as int);
        }
        if l > 0 {
            proof {
                lemma_syms_prefix(lengths@, i as int + 1, l as nat);
                assert(count_len(lengths@, l as nat) <= u32::MAX);
            }
            count[l as usize] = count[l as usize] + 1;
        }
        i += 1;
    }
    proof {
        assert(lengths@.take(lengths@.len() as int) =~= lengths@);
    }
    count
}

/// The first canonical code of each length `1..=max`, computed in 32-bit arithmetic.
fn first_codes(lengths: &[u8], max: u8, count: &Vec<u32>) -> (firsts: Vec<u32>)
    requires
        count@.len() == max + 1,
        count@[0] == 0,
        forall|l: int| 1 <= l <= max ==> #[trigger] count@[l] == count_len(lengths@, l as nat),
        forall|l: nat| 1 <= l < max ==> #[trigger] first_code(lengths@, l) + count_len(lengths@, l) <= u32::MAX,
    ensures
        firsts@.len() == max + 1,
        forall|l: int| 1 <= l <= max ==> #[trigger] firsts@[l] == first_code(lengths@, l as nat),
{
    let maxu = max as usize;
    let mut firsts: Vec<u32> = Vec::new();
    firsts.push(0);
    let mut code: u32 = 0;
    let mut bits: usize = 1;
    while bits <= maxu
        invariant
            1 <= bits <= maxu + 1,
            maxu == max,
            count@.len() == maxu + 1,
            count@[0] == 0,
            forall|l: int| 1 <= l <= max ==> #[trigger] count@[l] == count_len(lengths@, l as nat),
            forall|l: nat| 1 <= l < max ==> #[trigger] first_code(lengths@, l) + count_len(lengths@, l) <= u32::MAX,
            firsts@.len() == bits,
            code == first_code(lengths@, (bits - 1) as nat),
            forall|l: int| 1 <= l < bits ==> #[trigger] firsts@[l] == first_code(lengths@, l as nat),
        decreases maxu + 1 - bits,
    {
        proof {
            if bits - 1 >= 1 {
                assert(count@[bits - 1] == count_len(lengths@, (bits - 1) as nat));
                assert(first_code(lengths@, (bits - 1) as nat) + count_len(lengths@, (bits - 1) as nat) <= u32::MAX);
            }
            lemma_shl1((code + count@[bits - 1]) as u32);
        }
        code = (code + count[bits - 1]) << 1u32;
        firsts.push(code);
        bits += 1;
    }
    firsts
}

/// Build canonical codes from code lengths: returns `(code, len)` per symbol
/// (a length of 0 means the symbol is unused). Codes are emitted high-bit-first:
/// the codes of each length are consecutive, in symbol order, starting at the
/// first code of that length.
pub fn canonical_codes(lengths: &[u8]) -> (codes: Vec<(u16, u8)>)
    requires
        codes_fit_to(lengths@, max_len(lengths@)),
    ensures
        codes@.len() == lengths@.len(),
        forall|s: int| 0 <= s < lengths@.len() ==> #[trigger] codes@[s] == if lengths@[s] == 0 {
            (0u16, 0u8)
        } else {
            ((canonical_code(lengths@, s) % 0x1_0000) as u16, lengths@[s])
        },
{
    let n = lengths.len();
    let max = longest(lengths);
    let mut codes: Vec<(u16, u8)> = Vec::new();
    if max == 0 {
        let mut i: usize = 0;
        while i < n
            invariant
                i <= n,
                n == lengths@.len(),
                max_len(lengths@) == 0,
                codes@.len() == i,
                forall|s: int| 0 <= s < i ==> #[trigger] codes@[s] == (0u16, 0u8),
            decreases n - i,
        {
            codes.push((0, 0));
            i += 1;
        }
        proof {
            assert forall|s: int| 0 <= s < n implies lengths@[s] == 0 by {
                crate::canonical::lemma_max_len_bound(lengths@, s);
            }
        }
        return codes;
    }
    proof {
        assert forall|l: nat| 1 <= l <= max implies #[trigger] count_len(lengths@, l) <= u32::MAX by {
            assert(first_code(lengths@, l) + count_len(lengths@, l) <= u32::MAX);
        }
    }
    let count = count_lengths(lengths, max);
    let mut next = first_codes(lengths, max, &count);
    let mut sym: usize = 0;
    proof {
        assert(lengths@.take(0) =~= Seq::<u8>::empty());
    }
    while sym < n
        invariant
            sym <= n,
            n == lengths@.len(),
            max as nat == max_len(lengths@),
            codes_fit_to(lengths@, max_len(lengths@)),
            next@.len() == max + 1,
            forall|l: int| 1 <= l <= max ==> #[trigger] next@[l] == first_code(lengths@, l as nat)
                + count_len(lengths@.take(sym as int), l as nat),
            codes@.len() == sym,
            forall|s: int| 0 <= s < sym ==> #[trigger] codes@[s] == if lengths@[s] == 0 {
                (0u16, 0u8)
            } else {
                ((canonical_code(lengths@, s) % 0x1_0000) as u16, lengths@[s])
            },
        decreases n - sym,
    {
        let len = lengths[sym];
        proof {
            assert forall|k: nat| 1 <= k <= max implies syms_of_len(lengths@.take(sym as int + 1), k)
                == if lengths@[sym as int] == k { syms_of_len(lengths@.take(sym as int), k).push(sym as nat) }
                else { syms_of_len(lengths@.take(sym as int), k) } by {
                lemma_syms_take_step(lengths@, sym as int, k);
            }
            crate::canonical::lemma_max_len_bound(lengths@, sym as int);
        }
        if len != 0 {
            proof {
                lemma_syms_prefix(lengths@, sym as int + 1, len as nat);
                assert(first_code(lengths@, len as nat) + count_len(lengths@, len as nat) <= u32::MAX);
            }
            let c = next[len as usize];
            proof {
                assert(c == canonical_code(lengths@, sym as int));
                assert((c as u16) == (c % 0x1_0000)) by (bit_vector);
            }
            codes.push((c as u16, len));
            next[len as usize] = c + 1;
        } else {
            codes.push((0, 0));
        }
        sym += 1;
    }
    codes
}

/// Where the codes of each length start in the decoder's symbol table: the
/// number of symbols with a shorter code.
pub open spec fn index_base(lens: Seq<u8>, l: nat) -> nat
    decreases l,
{
    if l <= 1 {
        0
    } else {
        index_base(lens, (l - 1) as nat) + count_len(lens, (l - 1) as nat)
    }
}

/// The decoder's 32-bit arithmetic never overflows on these lengths.
pub open spec fn decoder_fits(lens: Seq<u8>) -> bool {
    max_len(lens) <= MAX_CODE_BITS ==> {
        &&& num_codes(lens) <= u32::MAX
        &&& forall|l: nat| 1 <= l < max_len(lens) ==> #[trigger] first_code(lens, l) + count_len(lens, l) <= u32::MAX
    }
}

/// No more symbols have codes than there are symbols.
proof fn lemma_num_codes_le_len(lens: Seq<u8>)
    ensures
        num_codes(lens) <= lens.len(),
    decreases lens.len(),
{
    if lens.len() > 0 {
        lemma_num_codes_le_len(lens.drop_last());
    }
}

/// The code space used up to length `l` is at most `2^l` for each code of length at most `l`.
proof fn lemma_space_bound(lens: Seq<u8>, l: nat)
    ensures
        space_at(lens, l) <= pow2(l) * index_base(lens, l + 1),
    decreases l,
{
    if l == 0 {
        lemma2_to64();
    } else {
        let l1 = (l - 1) as nat;
        lemma_space_bound(lens, l1);
        let sp = space_at(lens, l1);
        let s = index_base(lens, l);
        let c = count_len(lens, l);
        let p = pow2(l1);
        lemma_pow2_unfold(l);
        lemma_pow2_pos(l1);
        assert(index_base(lens, l + 1) == s + c);
        assert(2 * sp + c <= (2 * p) * (s + c)) by (nonlinear_arith)
            requires
                sp <= p * s,
                p >= 1,
        ;
    }
}

/// With at most 2^16 symbols, the first code of each length up to 15 is exact
/// (no 32-bit wrap-around): twice the space used by shorter codes.
proof fn lemma_first_code_exact(lens: Seq<u8>, l: nat)
    requires
        lens.len() <= 0x1_0000,
        1 <= l <= 15,
    ensures
        first_code(lens, l) == 2 * space_at(lens, (l - 1) as nat),
        first_code(lens, l) + count_len(lens, l) == space_at(lens, l),
        space_at(lens, l) <= pow2(l) * 0x1_0000,
    decreases l,
{
    lemma_space_bound(lens, l);
    lemma_index_base_le(lens, l + 1);
    lemma_num_codes_le_len(lens);
    let p = pow2(l);
    let ib = index_base(lens, l + 1);
    lemma_pow2_pos(l);
    assert(space_at(lens, l) <= p * 0x1_0000) by (nonlinear_arith)
        requires
            space_at(lens, l) <= p * ib,
            ib <= 0x1_0000,
            p > 0,
    ;
    lemma2_to64();
    if l > 1 {
        let l1 = (l - 1) as nat;
        lemma_first_code_exact(lens, l1);
        if l1 < 14 {
            vstd::arithmetic::power2::lemma_pow2_strictly_increases(l1, 14);
        }
        let sp = space_at(lens, l1);
        assert(sp * 2 < 0x1_0000_0000) by (nonlinear_arith)
            requires
                sp <= pow2(l1) * 0x1_0000,
                pow2(l1) <= 0x4000,
        ;
        vstd::arithmetic::div_mod::lemma_small_mod(sp * 2, 0x1_0000_0000);
    } else {
        assert(first_code(lens, 0) == 0);
        assert(count_len(lens, 0) == 0);
        assert(space_at(lens, 0) == 0);
    }
}

/// For an alphabet of at most 2^16 symbols, the decoder's and the code
/// builder's 32-bit arithmetic never overflows, whatever the lengths.
pub proof fn lemma_small_alphabet_fits(lens: Seq<u8>)
    requires
        lens.len() <= 0x1_0000,
    ensures
        decoder_fits(lens),
        max_len(lens) <= MAX_CODE_BITS ==> codes_fit_to(lens, max_len(lens)),
{
    lemma_num_codes_le_len(lens);
    lemma2_to64();
    assert forall|l: nat| 1 <= l <= 15 implies #[trigger] first_code(lens, l) + count_len(lens, l) <= u32::MAX by {
        lemma_first_code_exact(lens, l);
        if l < 15 {
            vstd::arithmetic::power2::lemma_pow2_strictly_increases(l, 15);
        }
        assert(pow2(l) * 0x1_0000 <= 0x8000_0000) by (nonlinear_arith)
            requires
                pow2(l) <= 0x8000,
        ;
    }
}

/// The symbols with codes shorter than `l` are counted by `index_base(l)`.
proof fn lemma_index_base_push(lens: Seq<u8>, x: u8, l: nat)
    ensures
        index_base(lens.push(x), l) == index_base(lens, l) + if 1 <= x < l { 1nat } else { 0nat },
    decreases l,
{
    assert(lens.push(x).drop_last() =~= lens);
    if l > 1 {
        lemma_index_base_push(lens, x, (l - 1) as nat);
    }
}

proof fn lemma_index_base_le(lens: Seq<u8>, l: nat)
    ensures
        index_base(lens, l) <= num_codes(lens),
    decreases lens.len(),
{
    if lens.len() == 0 {
        lemma_index_base_empty(lens, l);
    } else {
        let t = lens.drop_last();
        lemma_index_base_le(t, l);
        lemma_index_base_push(t, lens.last(), l);
        assert(t.push(lens.last()) =~= lens);
    }
}

proof fn lemma_index_base_empty(lens: Seq<u8>, l: nat)
    requires
        lens.len() == 0,
    ensures
        index_base(lens, l) == 0,
    decreases l,
{
    if l > 1 {
        lemma_index_base_empty(lens, (l - 1) as nat);
    }
}

/// A decoder rebuilt from code lengths alone. Reads one symbol at a time by
/// shifting in bits until the accumulated value lands in some length's code
/// range.
pub struct Decoder {
    max_len: u8,
    /// count[len] = number of codes of that length
    count: Vec<u32>,
    /// first canonical code of each length
    first_code: Vec<u32>,
    /// where length `len`'s symbols start in `symbols`
    first_index: Vec<u32>,
    /// symbols ordered by (length, symbol)
    symbols: Vec<u16>,
    /// the code lengths the decoder was built from
    lens: Ghost<Seq<u8>>,
}

impl Decoder {
    /// The code lengths this decoder was built from.
    pub closed spec fn lengths(&self) -> Seq<u8> {
        self.lens@
    }

    /// The tables agree with the code lengths.
    pub closed spec fn wf(&self) -> bool {
        let lens = self.lens@;
        let max = self.max_len as int;
        &&& max == max_len(lens)
        &&& max <= 15
        &&& self.count@.len() == max + 1
        &&& self.first_code@.len() == max + 1
        &&& self.first_index@.len() == max + 1
        &&& self.symbols@.len() <= u32::MAX
        &&& forall|l: int| 1 <= l <= max ==> {
            &&& #[trigger] self.count@[l] == count_len(lens, l as nat)
            &&& self.first_code@[l] == first_code(lens, l as nat)
            &&& self.first_index@[l] + self.count@[l] <= self.symbols@.len()
            &&& forall|k: int| 0 <= k < self.count@[l] ==> #[trigger] self.symbols@[self.first_index@[l] + k]
                == (syms_of_len(lens, l as nat)[k] % 0x1_0000) as u16
        }
    }

    /// Build the decoding tables for `lengths`; fails when a length exceeds `MAX_CODE_BITS`.
    #[verifier::spinoff_prover]
    pub fn from_lengths(lengths: &[u8]) -> (r: Result<Decoder>)
        requires
            decoder_fits(lengths@),
        ensures
            match r {
                Ok(d) => max_len(lengths@) <= MAX_CODE_BITS && d.wf() && d.lengths() == lengths@,
                Err(e) => max_len(lengths@) > MAX_CODE_BITS
                    && e == KnotError::Corrupt("Huffman code length exceeds maximum"),
            },
    {
        let max = longest(lengths);
        if max == 0 {
            let mut count: Vec<u32> = Vec::new();
            count.push(0);
            let mut first_code: Vec<u32> = Vec::new();
            first_code.push(0);
            let mut first_index: Vec<u32> = Vec::new();
            first_index.push(0);
            return Ok(Decoder {
                max_len: 0,
                count,
                first_code,
                first_index,
                symbols: Vec::new(),
                lens: Ghost(lengths@),
            });
        }
        if max > MAX_CODE_BITS {
            return Err(KnotError::Corrupt("Huffman code length exceeds maximum"));
        }
        proof {
            assert forall|l: nat| 1 <= l <= max implies #[trigger] count_len(lengths@, l) <= u32::MAX by {
                lemma_count_le_codes(lengths@, l);
            }
        }
        let count = count_lengths(lengths, max);
        let maxu = max as usize;

        // Symbols sorted by (length, symbol): the same order codes are assigned.
        let mut first_index: Vec<u32> = Vec::new();
        let mut cursor: Vec<u32> = Vec::new();
        first_index.push(0);
        cursor.push(0);
        let mut idx: u32 = 0;
        let mut len: usize = 1;
        while len <= maxu
            invariant
                1 <= len <= maxu + 1,
                maxu == max,
                max as nat == max_len(lengths@),
                num_codes(lengths@) <= u32::MAX,
                count@.len() == maxu + 1,
                forall|l: int| 1 <= l <= max ==> #[trigger] count@[l] == count_len(lengths@, l as nat),
                first_index@.len() == len,
                cursor@ == first_index@,
                idx == index_base(lengths@, len as nat),
                forall|l: int| 1 <= l < len ==> #[trigger] first_index@[l] == index_base(lengths@, l as nat),
            decreases maxu + 1 - len,
        {
            first_index.push(idx);
            cursor.push(idx);
            proof {
                lemma_index_base_le(lengths@, len as nat + 1);
            }
            idx = idx + count[len];
            len += 1;
        }
        proof {
            lemma_count_above_max(lengths@, maxu as nat + 1);
        }
        let mut symbols: Vec<u16> = Vec::new();
        let mut z: u32 = 0;
        while z < idx
            invariant
                z <= idx,
                symbols@.len() == z,
            decreases idx - z,
        {
            symbols.push(0);
            z += 1;
        }
        let n = lengths.len();
        let mut sym: usize = 0;
        proof {
            assert(lengths@.take(0) =~= Seq::<u8>::empty());
        }
        while sym < n
            invariant
                sym <= n,
                n == lengths@.len(),
                maxu == max,
                1 <= max <= 15,
                max as nat == max_len(lengths@),
                count@.len() == maxu + 1,
                forall|l: int| 1 <= l <= max ==> #[trigger] count@[l] == count_len(lengths@, l as nat),
                first_index@.len() == maxu + 1,
                cursor@.len() == maxu + 1,
                idx == index_base(lengths@, maxu as nat + 1),
                symbols@.len() == idx,
                forall|l: int| 1 <= l <= max ==> #[trigger] first_index@[l] == index_base(lengths@, l as nat),
                forall|l: int| 1 <= l <= max ==> #[trigger] cursor@[l] == first_index@[l]
                    + count_len(lengths@.take(sym as int), l as nat),
                forall|l: int, k: int| 1 <= l <= max && 0 <= k < count_len(lengths@.take(sym as int), l as nat)
                    ==> #[trigger] symbols@[first_index@[l] + k]
                    == (syms_of_len(lengths@.take(sym as int), l as nat)[k] % 0x1_0000) as u16,
            decreases n - sym,
        {
            let l = lengths[sym];
            let ghost before = symbols@;
            proof {
                assert forall|k: nat| 1 <= k <= max implies syms_of_len(lengths@.take(sym as int + 1), k)
                    == if lengths@[sym as int] == k { syms_of_len(lengths@.take(sym as int), k).push(sym as nat) }
                    else { syms_of_len(lengths@.take(sym as int), k) } by {
                    lemma_syms_take_step(lengths@, sym as int, k);
                }
                crate::canonical::lemma_max_len_bound(lengths@, sym as int);
            }
            if l > 0 {
                let lu = l as usize;
                let ghost pos = cursor@[lu as int] as int;
                proof {
                    lemma_syms_prefix(lengths@, sym as int + 1, l as nat);
                    lemma_index_regions(lengths@, lu as nat, maxu as nat);
                }
                symbols[cursor[lu] as usize] = sym as u16;
                cursor[lu] = cursor[lu] + 1;
                proof {
                    assert((sym as u16) == ((sym % 0x1_0000) as u16)) by (bit_vector);
                    assert(symbols@ == before.update(pos, sym as u16));
                    assert forall|l2: int, k: int| 1 <= l2 <= max && 0 <= k < count_len(lengths@.take(sym as int + 1), l2 as nat)
                        implies #[trigger] symbols@[first_index@[l2] + k]
                        == (syms_of_len(lengths@.take(sym as int + 1), l2 as nat)[k] % 0x1_0000) as u16 by {
                        lemma_index_regions(lengths@, l2 as nat, maxu as nat);
                        lemma_syms_prefix(lengths@, sym as int, l2 as nat);
                        lemma_syms_prefix(lengths@, sym as int + 1, l2 as nat);
                        let at = first_index@[l2] + k;
                        if l2 != lu {
                            lemma_index_disjoint(lengths@, l2 as nat, lu as nat, maxu as nat);
                            assert(at != pos);
                            assert(symbols@[at] == before[at]);
                        } else if k < count_len(lengths@.take(sym as int), l2 as nat) {
                            assert(at != pos);
                            assert(symbols@[at] == before[at]);
                        } else {
                            assert(at == pos);
                            assert(syms_of_len(lengths@.take(sym as int + 1), l2 as nat)[k] == sym as nat);
                        }
                    }
                }
            }
            sym += 1;
        }
        proof {
            assert(lengths@.take(n as int) =~= lengths@);
        }
        let first_code = first_codes(lengths, max, &count);
        let d = Decoder {
            max_len: max,
            count,
            first_code,
            first_index,
            symbols,
            lens: Ghost(lengths@),
        };
        proof {
            lemma_index_base_le(lengths@, maxu as nat + 1);
            assert forall|l: int| 1 <= l <= max implies d.first_index@[l] + d.count@[l] <= d.symbols@.len() by {
                lemma_index_regions(lengths@, l as nat, maxu as nat);
            }
        }
        Ok(d)
    }

    /// Read one symbol from `reader`, returning its index in the alphabet.
    pub fn read_symbol(&self, reader: &mut BitReader) -> (r: Result<usize>)
        requires
            self.wf(),
            old(reader).wf(),
        ensures
            match r {
                Ok(sym) => {
                    &&& lookup(self.lengths(), old(reader)@) is Found
                    &&& sym as nat == lookup(self.lengths(), old(reader)@)->symbol
                    &&& final(reader).wf()
                    &&& final(reader)@ == old(reader)@.skip(lookup(self.lengths(), old(reader)@)->used as int)
                },
                Err(e) => {
                    &&& final(reader).wf()
                    &&& {
                        ||| lookup(self.lengths(), old(reader)@) is OutOfBits && e == KnotError::Truncated
                            && final(reader)@ == Seq::<bool>::empty()
                        ||| lookup(self.lengths(), old(reader)@) is NoCode
                            && e == KnotError::Corrupt("invalid Huffman code in stream")
                            && final(reader)@ == old(reader)@.skip(max_len(self.lengths()) as int)
                    }
                },
            },
    {
        let ghost lens = self.lens@;
        let ghost bits = reader@;
        let mut code: u32 = 0;
        let mut len: usize = 1;
        proof {
            lemma2_to64();
            assert(bits.take(0) =~= Seq::<bool>::empty());
        }
        while len <= self.max_len as usize
            invariant
                self.wf(),
                lens == self.lens@,
                bits == old(reader)@,
                1 <= len <= self.max_len + 1,
                reader.wf(),
                len - 1 <= bits.len(),
                reader@ == bits.skip(len - 1),
                code == value_of(bits.take(len - 1)),
                code < pow2((len - 1) as nat),
                lookup_from(lens, bits, 1) == lookup_from(lens, bits, len as nat),
            decreases self.max_len + 1 - len,
        {
            let ghost here = reader@;
            let bit = match reader.read_bits(1) {
                Ok(b) => b,
                Err(e) => {
                    proof {
                        assert(bits.len() < len);
                        assert(reader@ =~= Seq::<bool>::empty());
                    }
                    return Err(e);
                },
            };
            proof {
                assert(here.take(1).drop_last() =~= Seq::<bool>::empty());
                assert(value_of(Seq::<bool>::empty()) == 0);
                assert(bit <= 1);
                assert(here.take(1) =~= seq![bits[len - 1]]);
                assert(seq![bits[len - 1]].drop_last() =~= Seq::<bool>::empty());
                assert(bits.take(len as int).drop_last() =~= bits.take(len - 1));
                assert(bits.take(len as int).last() == bits[len - 1]);
                assert(reader@ =~= bits.skip(len as int));
                lemma_pow2_unfold_exec(len as nat);
                assert((code << 1u32) | bit == code * 2 + bit) by (bit_vector)
                    requires
                        code < 0x4000,
                        bit <= 1,
                ;
            }
            code = (code << 1u32) | bit;
            let cnt = self.count[len];
            if cnt > 0 {
                let first = self.first_code[len];
                if code >= first && code - first < cnt {
                    let index = self.first_index[len] + (code - first);
                    proof {
                        let k = (code - first) as int;
                        assert(self.symbols@[self.first_index@[len as int] + k]
                            == (syms_of_len(lens, len as nat)[k] % 0x1_0000) as u16);
                        assert(lookup_from(lens, bits, len as nat) == (Lookup::Found {
                            symbol: syms_of_len(lens, len as nat)[k] % 0x1_0000,
                            used: len as nat,
                        }));
                    }
                    return Ok(self.symbols[index as usize] as usize);
                }
            }
            len += 1;
        }
        proof {
            assert(lookup_from(lens, bits, len as nat) is NoCode);
        }
        Err(KnotError::Corrupt("invalid Huffman code in stream"))
    }
}

proof fn lemma_pow2_unfold_exec(l: nat)
    requires
        1 <= l <= 15,
    ensures
        pow2((l - 1) as nat) <= 0x4000,
        pow2(l) == 2 * pow2((l - 1) as nat),
{
    lemma2_to64();
    vstd::arithmetic::power2::lemma_pow2_unfold(l);
    if l < 15 {
        vstd::arithmetic::power2::lemma_pow2_strictly_increases((l - 1) as nat, 14);
    }
}

/// The region of the symbol table for length `l` ends where the next begins.
proof fn lemma_index_regions(lens: Seq<u8>, l: nat, max: nat)
    requires
        1 <= l <= max,
    ensures
        index_base(lens, l) + count_len(lens, l) == index_base(lens, l + 1),
        index_base(lens, l + 1) <= index_base(lens, max + 1),
    decreases max - l,
{
    if l < max {
        lemma_index_regions(lens, l + 1, max);
    }
}

/// The regions of two different lengths do not overlap.
proof fn lemma_index_disjoint(lens: Seq<u8>, a: nat, b: nat, max: nat)
    requires
        1 <= a <= max,
        1 <= b <= max,
        a != b,
    ensures
        a < b ==> index_base(lens, a) + count_len(lens, a) <= index_base(lens, b),
        b < a ==> index_base(lens, b) + count_len(lens, b) <= index_base(lens, a),
    decreases max,
{
    if a < b {
        lemma_index_regions(lens, a, (b - 1) as nat);
    } else {
        lemma_index_regions(lens, b, (a - 1) as nat);
    }
}

/// Whether symbol `a` comes before symbol `b`: more frequent first, then by symbol.
pub open spec fn comes_before(freqs: Seq<u32>, a: usize, b: usize) -> bool {
    freqs[a as int] > freqs[b as int] || (freqs[a as int] == freqs[b as int] && a < b)
}

/// Sort symbols so that the most frequent come first (ties broken by symbol),
/// keeping exactly the same symbols.
fn sort_by_frequency(syms: &mut Vec<usize>, freqs: &[u32])
    requires
        old(syms)@.no_duplicates(),
        forall|a: int| 0 <= a < old(syms)@.len() ==> old(syms)@[a] < freqs@.len(),
    ensures
        final(syms)@.len() == old(syms)@.len(),
        final(syms)@.no_duplicates(),
        forall|x: usize| final(syms)@.contains(x) == old(syms)@.contains(x),
        forall|a: int, b: int| 0 <= a < b < final(syms)@.len() ==> comes_before(freqs@, final(syms)@[a], final(syms)@[b]),
{
    let ghost orig = syms@;
    let n = syms.len();
    let mut i: usize = 1;
    if n == 0 {
        return;
    }
    while i < n
        invariant
            1 <= i <= n,
            n == syms@.len(),
            syms@.no_duplicates(),
            forall|a: int| 0 <= a < n ==> syms@[a] < freqs@.len(),
            forall|x: usize| syms@.contains(x) == orig.contains(x),
            forall|a: int, b: int| 0 <= a < b < i ==> comes_before(freqs@, syms@[a], syms@[b]),
        decreases n - i,
    {
        let mut j = i;
        while j > 0 && (freqs[syms[j]] > freqs[syms[j - 1]] || (freqs[syms[j]] == freqs[syms[j - 1]] && syms[j] < syms[j - 1]))
            invariant
                0 <= j <= i < n,
                n == syms@.len(),
                syms@.no_duplicates(),
                forall|a: int| 0 <= a < n ==> syms@[a] < freqs@.len(),
                forall|x: usize| syms@.contains(x) == orig.contains(x),
                forall|a: int, b: int| 0 <= a < b <= i && a != j && b != j ==> comes_before(freqs@, syms@[a], syms@[b]),
                forall|b: int| j < b <= i ==> comes_before(freqs@, syms@[j as int], syms@[b]),
            decreases j,
        {
            let ghost s0 = syms@;
            let x = syms[j];
            let y = syms[j - 1];
            syms[j] = y;
            syms[j - 1] = x;
            proof {
                let s1 = syms@;
                assert(s1 =~= s0.update(j as int, y).update(j - 1, x));
                assert forall|v: usize| s1.contains(v) == s0.contains(v) by {
                    if s0.contains(v) {
                        let k = choose|k: int| 0 <= k < s0.len() && s0[k] == v;
                        if k == j {
                            assert(s1[j - 1] == v);
                        } else if k == j - 1 {
                            assert(s1[j as int] == v);
                        } else {
                            assert(s1[k] == v);
                        }
                    }
                    if s1.contains(v) {
                        let k = choose|k: int| 0 <= k < s1.len() && s1[k] == v;
                        if k == j {
                            assert(s0[j - 1] == v);
                        } else if k == j - 1 {
                            assert(s0[j as int] == v);
                        } else {
                            assert(s0[k] == v);
                        }
                    }
                }
                assert forall|a: int, b: int| 0 <= a < s1.len() && 0 <= b < s1.len() && a != b implies s1[a] != s1[b] by {
                    let pa = if a == j { j - 1 } else if a == j - 1 { j as int } else { a };
                    let pb = if b == j { j - 1 } else if b == j - 1 { j as int } else { b };
                    assert(s1[a] == s0[pa]);
                    assert(s1[b] == s0[pb]);
                }
            }
            j -= 1;
        }
        proof {
            assert forall|a: int, b: int| 0 <= a < b < i + 1 implies comes_before(freqs@, syms@[a], syms@[b]) by {
                if a != j && b == j {
                    // `syms[j]` stopped moving: it comes after `syms[j - 1]`.
                    assert(syms@[j - 1] != syms@[j as int]);
                    assert(comes_before(freqs@, syms@[j - 1], syms@[j as int]));
                    if a < j - 1 {
                        assert(comes_before(freqs@, syms@[a], syms@[j - 1]));
                    }
                }
            }
        }
        i += 1;
    }
}

} // verus!
