//! Weighted sums used to reason about code lengths: sums over a histogram
//! (`count[l]` symbols of length `l`) and over the per-symbol lengths
//! themselves. A length of 0 means "no code" and never contributes.
use vstd::prelude::*;
use vstd::arithmetic::power2::{pow2, lemma_pow2_adds, lemma_pow2_pos};

verus! {

/// `sum_{l = 1..=hi} c[l] * f(l)` over a histogram `c`.
pub open spec fn hist_sum(c: Seq<u32>, hi: nat, f: spec_fn(nat) -> nat) -> nat
    decreases hi,
{
    if hi == 0 {
        0
    } else {
        hist_sum(c, (hi - 1) as nat, f) + if hi < c.len() { c[hi as int] as nat * f(hi) } else { 0 }
    }
}

/// `sum f(s[i])` over the entries of `s` that are at least 1.
pub open spec fn sym_sum(s: Seq<usize>, f: spec_fn(nat) -> nat) -> nat
    decreases s.len(),
{
    if s.len() == 0 {
        0
    } else {
        sym_sum(s.drop_last(), f) + if s.last() >= 1 { f(s.last() as nat) } else { 0 }
    }
}

/// The term that one entry contributes to `sym_sum`.
pub open spec fn sym_term(x: usize, f: spec_fn(nat) -> nat) -> nat {
    if x >= 1 { f(x as nat) } else { 0 }
}

/// `2^(k - l)` for `l <= k`, else 0: the share of the code space taken by a
/// code of length `l`, in units of `2^-k`.
pub open spec fn space_w(k: nat) -> spec_fn(nat) -> nat {
    |l: nat| if l <= k { pow2((k - l) as nat) } else { 0 }
}

/// Like `space_w(k)`, but lengths beyond `k` count as exactly one unit.
pub open spec fn clamp_w(k: nat) -> spec_fn(nat) -> nat {
    |l: nat| if l <= k { pow2((k - l) as nat) } else { 1 }
}

/// 1 for lengths of at least `k`.
pub open spec fn ge_w(k: nat) -> spec_fn(nat) -> nat {
    |l: nat| if l >= k { 1 } else { 0 }
}

/// 1 for lengths beyond `k`.
pub open spec fn gt_w(k: nat) -> spec_fn(nat) -> nat {
    |l: nat| if l > k { 1 } else { 0 }
}

/// `2^(kk - l)` for lengths `k < l <= kk`.
pub open spec fn deep_w(k: nat, kk: nat) -> spec_fn(nat) -> nat {
    |l: nat| if k < l <= kk { pow2((kk - l) as nat) } else { 0 }
}

/// 1 for every length.
pub open spec fn one_w() -> spec_fn(nat) -> nat {
    |l: nat| 1
}

pub proof fn lemma_hist_sum_update(c: Seq<u32>, hi: nat, f: spec_fn(nat) -> nat, i: int, v: u32)
    requires
        1 <= i <= hi,
        i < c.len(),
    ensures
        hist_sum(c.update(i, v), hi, f) + c[i] as nat * f(i as nat) == hist_sum(c, hi, f) + v as nat * f(i as nat),
    decreases hi,
{
    if hi > i {
        lemma_hist_sum_update(c, (hi - 1) as nat, f, i, v);
        if hi < c.len() {
            assert(c.update(i, v)[hi as int] == c[hi as int]);
        }
    } else {
        lemma_hist_sum_frame_update(c, (hi - 1) as nat, f, i, v);
        assert(c.update(i, v)[i] == v);
    }
}

/// Updating an entry above `hi` leaves the sum up to `hi` unchanged.
pub proof fn lemma_hist_sum_frame_update(c: Seq<u32>, hi: nat, f: spec_fn(nat) -> nat, i: int, v: u32)
    requires
        hi < i,
        0 <= i < c.len(),
    ensures
        hist_sum(c.update(i, v), hi, f) == hist_sum(c, hi, f),
    decreases hi,
{
    if hi > 0 {
        lemma_hist_sum_frame_update(c, (hi - 1) as nat, f, i, v);
        if hi < c.len() {
            assert(c.update(i, v)[hi as int] == c[hi as int]);
        }
    }
}

/// Entries above `lo` that are zero do not change the sum.
pub proof fn lemma_hist_sum_zero_tail(c: Seq<u32>, lo: nat, hi: nat, f: spec_fn(nat) -> nat)
    requires
        lo <= hi,
        forall|l: int| lo < l <= hi && l < c.len() ==> c[l] == 0,
    ensures
        hist_sum(c, hi, f) == hist_sum(c, lo, f),
    decreases hi,
{
    if hi > lo {
        lemma_hist_sum_zero_tail(c, lo, (hi - 1) as nat, f);
    }
}

/// Two weights that agree on `1..=hi` give the same histogram sum.
pub proof fn lemma_hist_sum_congruent(c: Seq<u32>, hi: nat, f: spec_fn(nat) -> nat, g: spec_fn(nat) -> nat)
    requires
        forall|l: nat| 1 <= l <= hi ==> #[trigger] f(l) == g(l),
    ensures
        hist_sum(c, hi, f) == hist_sum(c, hi, g),
    decreases hi,
{
    if hi > 0 {
        lemma_hist_sum_congruent(c, (hi - 1) as nat, f, g);
    }
}

pub proof fn lemma_sym_sum_push(s: Seq<usize>, x: usize, f: spec_fn(nat) -> nat)
    ensures
        sym_sum(s.push(x), f) == sym_sum(s, f) + sym_term(x, f),
{
    assert(s.push(x).drop_last() =~= s);
}

pub proof fn lemma_sym_sum_take(s: Seq<usize>, i: int, f: spec_fn(nat) -> nat)
    requires
        0 <= i < s.len(),
    ensures
        sym_sum(s.take(i + 1), f) == sym_sum(s.take(i), f) + sym_term(s[i], f),
{
    assert(s.take(i + 1).drop_last() =~= s.take(i));
}

pub proof fn lemma_sym_sum_update(s: Seq<usize>, i: int, v: usize, f: spec_fn(nat) -> nat)
    requires
        0 <= i < s.len(),
    ensures
        sym_sum(s.update(i, v), f) + sym_term(s[i], f) == sym_sum(s, f) + sym_term(v, f),
    decreases s.len(),
{
    if i < s.len() - 1 {
        lemma_sym_sum_update(s.drop_last(), i, v, f);
        assert(s.update(i, v).drop_last() =~= s.drop_last().update(i, v));
    } else {
        assert(s.update(i, v).drop_last() =~= s.drop_last());
    }
}

/// `sym_sum` is linear: if `f = a*g + h` on every value of `s`, the sums agree.
pub proof fn lemma_sym_sum_linear(s: Seq<usize>, f: spec_fn(nat) -> nat, a: nat, g: spec_fn(nat) -> nat, h: spec_fn(nat) -> nat)
    requires
        forall|i: int| 0 <= i < s.len() && s[i] >= 1 ==> f(s[i] as nat) == a * g(s[i] as nat) + h(s[i] as nat),
    ensures
        sym_sum(s, f) == a * sym_sum(s, g) + sym_sum(s, h),
    decreases s.len(),
{
    if s.len() > 0 {
        let t = s.drop_last();
        assert forall|i: int| 0 <= i < t.len() && t[i] >= 1 implies f(t[i] as nat) == a * g(t[i] as nat) + h(t[i] as nat) by {
            assert(t[i] == s[i]);
        }
        lemma_sym_sum_linear(t, f, a, g, h);
        let x = s.last();
        let gt = sym_sum(t, g);
        assert(s[s.len() - 1] == x);
        if x >= 1 {
            let gx = g(x as nat);
            assert(f(x as nat) == a * gx + h(x as nat));
            assert(a * (gt + gx) == a * gt + a * gx) by (nonlinear_arith);
            assert(sym_sum(s, g) == gt + gx);
            assert(sym_sum(s, h) == sym_sum(t, h) + h(x as nat));
            assert(sym_sum(s, f) == sym_sum(t, f) + f(x as nat));
        } else {
            assert(sym_sum(s, g) == gt);
            assert(sym_sum(s, h) == sym_sum(t, h));
            assert(sym_sum(s, f) == sym_sum(t, f));
        }
    } else {
        assert(a * 0 == 0) by (nonlinear_arith);
    }
}

/// `sym_sum` is monotone in the weight.
pub proof fn lemma_sym_sum_le(s: Seq<usize>, f: spec_fn(nat) -> nat, g: spec_fn(nat) -> nat)
    requires
        forall|i: int| 0 <= i < s.len() && s[i] >= 1 ==> f(s[i] as nat) <= g(s[i] as nat),
    ensures
        sym_sum(s, f) <= sym_sum(s, g),
    decreases s.len(),
{
    if s.len() > 0 {
        let t = s.drop_last();
        assert forall|i: int| 0 <= i < t.len() && t[i] >= 1 implies f(t[i] as nat) <= g(t[i] as nat) by {
            assert(t[i] == s[i]);
        }
        lemma_sym_sum_le(t, f, g);
    }
}

/// If some entry has positive weight, so has the sum.
pub proof fn lemma_sym_sum_pos(s: Seq<usize>, f: spec_fn(nat) -> nat, i: int)
    requires
        0 <= i < s.len(),
        s[i] >= 1,
        f(s[i] as nat) > 0,
    ensures
        sym_sum(s, f) > 0,
    decreases s.len(),
{
    if i < s.len() - 1 {
        lemma_sym_sum_pos(s.drop_last(), f, i);
    }
}

/// The space weights at two precisions: a code of length `l <= kk` takes
/// `2^(kk-k)` times its `k`-precision share when `l <= k`, else its own deep share.
pub proof fn lemma_space_split(k: nat, kk: nat, l: nat)
    requires
        k <= kk,
        l <= kk,
    ensures
        space_w(kk)(l) == pow2((kk - k) as nat) * space_w(k)(l) + deep_w(k, kk)(l),
        clamp_w(k)(l) == space_w(k)(l) + gt_w(k)(l),
        gt_w(k)(l) <= deep_w(k, kk)(l),
        gt_w(k)(l) <= ge_w(k)(l),
{
    if l <= k {
        lemma_pow2_adds((kk - k) as nat, (k - l) as nat);
        assert((kk - k) + (k - l) == kk - l);
    } else {
        lemma_pow2_pos((kk - l) as nat);
    }
}

/// 0 for every length.
pub open spec fn zero_w() -> spec_fn(nat) -> nat {
    |l: nat| 0
}

pub proof fn lemma_sym_sum_zero(s: Seq<usize>)
    ensures
        sym_sum(s, zero_w()) == 0,
    decreases s.len(),
{
    if s.len() > 0 {
        lemma_sym_sum_zero(s.drop_last());
    }
}

/// Partial histogram sums grow with the bound.
pub proof fn lemma_hist_sum_mono(c: Seq<u32>, lo: nat, hi: nat, f: spec_fn(nat) -> nat)
    requires
        lo <= hi,
    ensures
        hist_sum(c, lo, f) <= hist_sum(c, hi, f),
    decreases hi,
{
    if hi > lo {
        lemma_hist_sum_mono(c, lo, (hi - 1) as nat, f);
    }
}

/// One histogram entry never exceeds the sum.
pub proof fn lemma_hist_entry_le(c: Seq<u32>, hi: nat, f: spec_fn(nat) -> nat, a: int)
    requires
        1 <= a <= hi,
        a < c.len(),
    ensures
        c[a] as nat * f(a as nat) <= hist_sum(c, hi, f),
    decreases hi,
{
    if hi > a {
        lemma_hist_entry_le(c, (hi - 1) as nat, f, a);
    }
}

/// Two distinct histogram entries never exceed the total count.
pub proof fn lemma_hist_two_entries(c: Seq<u32>, hi: nat, a: int, b: int)
    requires
        1 <= a <= hi,
        1 <= b <= hi,
        a != b,
        a < c.len(),
        b < c.len(),
    ensures
        c[a] + c[b] <= hist_sum(c, hi, one_w()),
    decreases hi,
{
    assert(one_w()(a as nat) == 1);
    assert(one_w()(b as nat) == 1);
    assert(one_w()(hi) == 1);
    if hi == a {
        lemma_hist_entry_le(c, (hi - 1) as nat, one_w(), b);
    } else if hi == b {
        lemma_hist_entry_le(c, (hi - 1) as nat, one_w(), a);
    } else {
        lemma_hist_two_entries(c, (hi - 1) as nat, a, b);
    }
}

/// Below `k`, the weight `ge_w(k)` is zero.
pub proof fn lemma_hist_ge_low(c: Seq<u32>, hi: nat, k: nat)
    requires
        hi < k,
    ensures
        hist_sum(c, hi, ge_w(k)) == 0,
    decreases hi,
{
    if hi > 0 {
        lemma_hist_ge_low(c, (hi - 1) as nat, k);
        assert(ge_w(k)(hi) == 0);
        if hi < c.len() {
            assert(c[hi as int] as nat * 0 == 0);
        }
    }
}

/// Up to `k`, the sum with weight `ge_w(k)` is the entry at `k`.
pub proof fn lemma_hist_ge_is_entry(c: Seq<u32>, k: nat)
    requires
        1 <= k < c.len(),
    ensures
        hist_sum(c, k, ge_w(k)) == c[k as int],
{
    lemma_hist_ge_low(c, (k - 1) as nat, k);
}

/// With every entry below `k` empty, the sums up to `k` are `c[k]` times the weight at `k`.
pub proof fn lemma_hist_only_top(c: Seq<u32>, hi: nat, k: nat, f: spec_fn(nat) -> nat)
    requires
        hi <= k,
        1 <= k,
        forall|l: int| 1 <= l < k && l < c.len() ==> c[l] == 0,
    ensures
        hi < k ==> hist_sum(c, hi, f) == 0,
        hi == k && k < c.len() ==> hist_sum(c, hi, f) == c[k as int] as nat * f(k),
    decreases hi,
{
    if hi > 0 {
        lemma_hist_only_top(c, (hi - 1) as nat, k, f);
        if hi < k && hi < c.len() {
            assert(c[hi as int] == 0);
            assert(c[hi as int] as nat * f(hi) == 0);
        }
    }
}

/// Changing entry `i` by `delta` changes the sum by `delta` times its weight.
pub proof fn lemma_hist_sum_add(c: Seq<u32>, hi: nat, f: spec_fn(nat) -> nat, i: int, v: u32, w: nat, delta: int)
    requires
        1 <= i <= hi,
        i < c.len(),
        f(i as nat) == w,
        v as int == c[i] as int + delta,
    ensures
        hist_sum(c.update(i, v), hi, f) as int == hist_sum(c, hi, f) as int + delta * w,
{
    lemma_hist_sum_update(c, hi, f, i, v);
    let ci = c[i] as int;
    assert(v as int * w == ci * w + delta * w) by (nonlinear_arith)
        requires
            v as int == ci + delta,
    ;
}

/// One step of the histogram sum at a weight-1 entry.
pub proof fn lemma_hist_sum_unit_step(c: Seq<u32>, hi: nat, f: spec_fn(nat) -> nat)
    requires
        1 <= hi < c.len(),
        f(hi) == 1,
    ensures
        hist_sum(c, hi, f) == hist_sum(c, (hi - 1) as nat, f) + c[hi as int],
{
    let x = c[hi as int] as nat;
    assert(x * f(hi) == x) by (nonlinear_arith)
        requires
            f(hi) == 1,
    ;
}

} // verus!
