//! Optimality of Huffman's code lengths: no prefix code gives a shorter
//! coded size than the depths of the Huffman tree.
//!
//! The proof has two halves. First, the coded size of the tree's depths is the
//! sum of the weights of the trees merged along the way (`merge_cost`).
//! Second, that sum is at most the coded size of any lengths that satisfy
//! Kraft's inequality: the two lightest symbols can always be given two of the
//! longest lengths without growing the size, and then they merge into one
//! symbol one bit shorter, which is the same problem with one symbol fewer.
use vstd::prelude::*;
use vstd::arithmetic::power2::{pow2, lemma_pow2_unfold, lemma_pow2_pos, lemma_pow2_adds};
use crate::forest::{NO_PARENT, forest_wf, root_of, depth_of, merged, lemma_root_facts, lemma_merged_wf,
    lemma_merge_node};
use crate::huffman::{num_used, huffman_lengths, first_lightest,
    lemma_first_lightest_range, huffman_merge, leaf_weights, huffman_tree, tree_depth, tree_fits, weight_sum,
    lemma_weight_sum_remove, lemma_num_used_pos, lemma_num_used_take, lemma_num_used_bound};

verus! {

// ---------------------------------------------------------------------------
// The coded size of the Huffman tree is the weight of its merges.
// ---------------------------------------------------------------------------

/// The summed weights of the trees merged by Huffman's algorithm on the waiting
/// list `act`, the new nodes numbered from `next` on (as `huffman_merge` does).
pub open spec fn merge_cost(act: Seq<(u64, usize)>, next: nat) -> nat
    decreases act.len(),
{
    if act.len() <= 1 {
        0
    } else {
        let ia = first_lightest(act);
        let rest = act.remove(ia);
        let ib = first_lightest(rest);
        proof {
            lemma_first_lightest_range(act);
            lemma_first_lightest_range(rest);
        }
        act[ia].0 as nat + rest[ib].0 as nat + merge_cost(
            rest.remove(ib).push(((act[ia].0 + rest[ib].0) as u64, next as usize)),
            next + 1,
        )
    }
}

/// `sum lw[x]` over the leaves `x < i` of the tree rooted at `r`.
pub open spec fn tree_weight(p: Seq<usize>, lw: Seq<u64>, r: int, i: nat) -> nat
    decreases i,
{
    if i == 0 {
        0
    } else {
        tree_weight(p, lw, r, (i - 1) as nat) + if root_of(p, i - 1) == r { lw[i - 1] as nat } else { 0 }
    }
}

/// `sum lw[x] * depth(x)` over the leaves `x < i`.
pub open spec fn depth_cost(p: Seq<usize>, lw: Seq<u64>, i: nat) -> nat
    decreases i,
{
    if i == 0 {
        0
    } else {
        depth_cost(p, lw, (i - 1) as nat) + lw[i - 1] as nat * depth_of(p, i - 1)
    }
}

proof fn lemma_merge_weights(p: Seq<usize>, lw: Seq<u64>, a: int, b: int, i: nat, r: int)
    requires
        forest_wf(p),
        0 <= a < p.len(),
        0 <= b < p.len(),
        a != b,
        p[a] == NO_PARENT,
        p[b] == NO_PARENT,
        i <= p.len(),
        p.len() < usize::MAX,
    ensures
        depth_cost(merged(p, a, b), lw, i) == depth_cost(p, lw, i) + tree_weight(p, lw, a, i)
            + tree_weight(p, lw, b, i),
        tree_weight(merged(p, a, b), lw, p.len() as int, i) == tree_weight(p, lw, a, i) + tree_weight(p, lw, b, i),
        r != a && r != b && r != p.len() ==> tree_weight(merged(p, a, b), lw, r, i) == tree_weight(p, lw, r, i),
    decreases i,
{
    if i > 0 {
        let x = i - 1;
        lemma_merge_weights(p, lw, a, b, (i - 1) as nat, r);
        lemma_merge_node(p, a, b, x);
        lemma_root_facts(p, x);
        let q = merged(p, a, b);
        let d = depth_of(p, x);
        let w = lw[x] as nat;
        if root_of(p, x) == a || root_of(p, x) == b {
            assert(w * (d + 1) == w * d + w) by (nonlinear_arith);
        }
    }
}

/// The waiting list `act` holds distinct roots of `p`, each with the weight of
/// its tree's leaves, and the new nodes still fit in a `usize`.
pub open spec fn weighed_roots(p: Seq<usize>, lw: Seq<u64>, act: Seq<(u64, usize)>) -> bool {
    &&& forest_wf(p)
    &&& lw.len() <= p.len()
    &&& p.len() + act.len() < usize::MAX
    &&& weight_sum(act) <= u64::MAX
    &&& forall|j: int| 0 <= j < act.len() ==> #[trigger] act[j].1 < p.len() && p[act[j].1 as int] == NO_PARENT
        && act[j].0 == tree_weight(p, lw, act[j].1 as int, lw.len())
    &&& forall|j1: int, j2: int| 0 <= j1 < act.len() && 0 <= j2 < act.len() && j1 != j2
            ==> act[j1].1 != act[j2].1
}

/// Running Huffman's algorithm adds the weight of its merges to the coded size.
pub proof fn lemma_merge_depth_cost(p: Seq<usize>, lw: Seq<u64>, act: Seq<(u64, usize)>)
    requires
        weighed_roots(p, lw, act),
    ensures
        depth_cost(huffman_merge(p, act), lw, lw.len()) == depth_cost(p, lw, lw.len()) + merge_cost(act, p.len()),
    decreases act.len(),
{
    if act.len() > 1 {
        let m = lw.len();
        let ia = first_lightest(act);
        lemma_first_lightest_range(act);
        let rest = act.remove(ia);
        let ib = first_lightest(rest);
        lemma_first_lightest_range(rest);
        let jb = if ib < ia { ib } else { ib + 1 };
        assert(rest[ib] == act[jb]);
        let (wa, a) = act[ia];
        let (wb, b) = rest[ib];
        assert(a != b);
        let q = merged(p, a as int, b as int);
        lemma_merged_wf(p, a as int, b as int);
        lemma_weight_sum_remove(act, ia);
        lemma_weight_sum_remove(rest, ib);
        let w = (wa + wb) as u64;
        assert(w == wa + wb);
        let nxt = rest.remove(ib).push((w, p.len() as usize));
        lemma_merge_weights(p, lw, a as int, b as int, m, 0);
        assert(weight_sum(nxt) == weight_sum(act)) by {
            assert(nxt.drop_last() =~= rest.remove(ib));
        }
        assert forall|j: int| 0 <= j < nxt.len() implies #[trigger] nxt[j].1 < q.len()
            && q[nxt[j].1 as int] == NO_PARENT && nxt[j].0 == tree_weight(q, lw, nxt[j].1 as int, m) by {
            if j < nxt.len() - 1 {
                let k = if j < ib { j } else { j + 1 };
                assert(nxt[j] == rest[k]);
                let k2 = if k < ia { k } else { k + 1 };
                assert(rest[k] == act[k2]);
                assert(k2 != ia && k2 != jb);
                lemma_merge_weights(p, lw, a as int, b as int, m, act[k2].1 as int);
            } else {
                lemma_merge_weights(p, lw, a as int, b as int, m, p.len() as int);
            }
        }
        assert forall|j1: int, j2: int| 0 <= j1 < nxt.len() && 0 <= j2 < nxt.len() && j1 != j2
            implies nxt[j1].1 != nxt[j2].1 by {
            if j1 < nxt.len() - 1 && j2 < nxt.len() - 1 {
                let k1 = if j1 < ib { j1 } else { j1 + 1 };
                let k2 = if j2 < ib { j2 } else { j2 + 1 };
                let l1 = if k1 < ia { k1 } else { k1 + 1 };
                let l2 = if k2 < ia { k2 } else { k2 + 1 };
                assert(nxt[j1] == act[l1]);
                assert(nxt[j2] == act[l2]);
            } else if j1 < nxt.len() - 1 {
                let k1 = if j1 < ib { j1 } else { j1 + 1 };
                let l1 = if k1 < ia { k1 } else { k1 + 1 };
                assert(nxt[j1] == act[l1]);
            } else {
                let k2 = if j2 < ib { j2 } else { j2 + 1 };
                let l2 = if k2 < ia { k2 } else { k2 + 1 };
                assert(nxt[j2] == act[l2]);
            }
        }
        assert(weighed_roots(q, lw, nxt));
        lemma_merge_depth_cost(q, lw, nxt);
    }
}

proof fn lemma_initial_weights(m: nat, lw: Seq<u64>, r: int, i: nat)
    requires
        i <= m,
        lw.len() == m,
    ensures
        tree_weight(Seq::new(m, |x: int| NO_PARENT), lw, r, i) == if 0 <= r < i { lw[r] as nat } else { 0 },
        depth_cost(Seq::new(m, |x: int| NO_PARENT), lw, i) == 0,
    decreases i,
{
    if i > 0 {
        lemma_initial_weights(m, lw, r, (i - 1) as nat);
        let p = Seq::new(m, |x: int| NO_PARENT);
        assert(p[i - 1] == NO_PARENT);
        assert(root_of(p, i - 1) == i - 1);
        assert(depth_of(p, i - 1) == 0);
    }
}

/// `sum lw[t]` over a list of weights.
pub open spec fn total_weight(lw: Seq<u64>) -> nat
    decreases lw.len(),
{
    if lw.len() == 0 {
        0
    } else {
        total_weight(lw.drop_last()) + lw.last() as nat
    }
}

/// The coded size of the Huffman tree of the leaf weights `lw` is the weight
/// of its merges.
pub proof fn lemma_tree_cost(lw: Seq<u64>)
    requires
        total_weight(lw) <= u64::MAX,
        lw.len() <= usize::MAX / 2,
    ensures
        ({
            let p0 = Seq::new(lw.len(), |x: int| NO_PARENT);
            let act0 = Seq::new(lw.len(), |t: int| (lw[t], t as usize));
            depth_cost(huffman_merge(p0, act0), lw, lw.len()) == merge_cost(act0, lw.len())
        }),
{
    let m = lw.len();
    let p0 = Seq::new(m, |x: int| NO_PARENT);
    let act0 = Seq::new(m, |t: int| (lw[t], t as usize));
    lemma_initial_weights(m, lw, 0, m);
    assert forall|j: int| 0 <= j < act0.len() implies #[trigger] act0[j].1 < p0.len()
        && p0[act0[j].1 as int] == NO_PARENT && act0[j].0 == tree_weight(p0, lw, act0[j].1 as int, m) by {
        lemma_initial_weights(m, lw, j, m);
    }
    lemma_weight_sum_total(lw, m);
    assert(lw.take(m as int) =~= lw);
    assert forall|x: int| 0 <= x < p0.len() implies #[trigger] p0[x] == NO_PARENT || (x < p0[x] && p0[x] < p0.len()) by {}
    assert(forest_wf(p0));
    assert forall|j1: int, j2: int| 0 <= j1 < act0.len() && 0 <= j2 < act0.len() && j1 != j2
        implies act0[j1].1 != act0[j2].1 by {
        assert(act0[j1].1 == j1 as usize);
        assert(act0[j2].1 == j2 as usize);
    }
    assert(lw.len() <= p0.len());
    assert(p0.len() + act0.len() < usize::MAX);
    assert(weight_sum(act0) <= u64::MAX);
    assert(weighed_roots(p0, lw, act0));
    lemma_merge_depth_cost(p0, lw, act0);
}

proof fn lemma_weight_sum_total(lw: Seq<u64>, k: nat)
    requires
        k <= lw.len(),
    ensures
        weight_sum(Seq::new(k, |t: int| (lw[t], t as usize))) == total_weight(lw.take(k as int)),
    decreases k,
{
    if k > 0 {
        lemma_weight_sum_total(lw, (k - 1) as nat);
        assert(Seq::new(k, |t: int| (lw[t], t as usize)).drop_last()
            =~= Seq::new((k - 1) as nat, |t: int| (lw[t], t as usize)));
        assert(lw.take(k as int).drop_last() =~= lw.take(k - 1));
    } else {
        assert(lw.take(0) =~= Seq::<u64>::empty());
    }
    if k == lw.len() {
        assert(lw.take(k as int) =~= lw);
    }
}

// ---------------------------------------------------------------------------
// No lengths that satisfy Kraft's inequality code in fewer bits.
// ---------------------------------------------------------------------------

/// `sum act[j].0 * l[j]`: the coded size when waiting tree `j` gets length `l[j]`.
pub open spec fn cost(act: Seq<(u64, usize)>, l: Seq<nat>) -> nat
    decreases act.len(),
{
    if act.len() == 0 || l.len() == 0 {
        0
    } else {
        cost(act.drop_last(), l.drop_last()) + act.last().0 as nat * l.last()
    }
}

/// `sum 2^(k - l[j])`: the share of the code space that lengths `l` take, in
/// units of `2^-k`.
pub open spec fn kraft_units(l: Seq<nat>, k: nat) -> nat
    decreases l.len(),
{
    if l.len() == 0 {
        0
    } else {
        kraft_units(l.drop_last(), k) + pow2((k - l.last()) as nat)
    }
}

/// `sum l[j]`.
pub open spec fn len_total(l: Seq<nat>) -> nat
    decreases l.len(),
{
    if l.len() == 0 {
        0
    } else {
        len_total(l.drop_last()) + l.last()
    }
}

proof fn lemma_cost_remove(act: Seq<(u64, usize)>, l: Seq<nat>, i: int)
    requires
        act.len() == l.len(),
        0 <= i < act.len(),
    ensures
        cost(act, l) == cost(act.remove(i), l.remove(i)) + act[i].0 as nat * l[i],
    decreases act.len(),
{
    if i < act.len() - 1 {
        lemma_cost_remove(act.drop_last(), l.drop_last(), i);
        assert(act.remove(i).drop_last() =~= act.drop_last().remove(i));
        assert(l.remove(i).drop_last() =~= l.drop_last().remove(i));
        assert(act.remove(i).last() == act.last());
        assert(l.remove(i).last() == l.last());
    } else {
        assert(act.remove(i) =~= act.drop_last());
        assert(l.remove(i) =~= l.drop_last());
    }
}

proof fn lemma_kraft_remove(l: Seq<nat>, k: nat, i: int)
    requires
        0 <= i < l.len(),
    ensures
        kraft_units(l, k) == kraft_units(l.remove(i), k) + pow2((k - l[i]) as nat),
    decreases l.len(),
{
    if i < l.len() - 1 {
        lemma_kraft_remove(l.drop_last(), k, i);
        assert(l.remove(i).drop_last() =~= l.drop_last().remove(i));
        assert(l.remove(i).last() == l.last());
    } else {
        assert(l.remove(i) =~= l.drop_last());
    }
}

proof fn lemma_cost_update(act: Seq<(u64, usize)>, l: Seq<nat>, i: int, v: nat)
    requires
        act.len() == l.len(),
        0 <= i < act.len(),
    ensures
        cost(act, l.update(i, v)) + act[i].0 as nat * l[i] == cost(act, l) + act[i].0 as nat * v,
    decreases act.len(),
{
    if i < act.len() - 1 {
        lemma_cost_update(act.drop_last(), l.drop_last(), i, v);
        assert(l.update(i, v).drop_last() =~= l.drop_last().update(i, v));
    } else {
        assert(l.update(i, v).drop_last() =~= l.drop_last());
    }
}

proof fn lemma_kraft_update(l: Seq<nat>, k: nat, i: int, v: nat)
    requires
        0 <= i < l.len(),
    ensures
        kraft_units(l.update(i, v), k) + pow2((k - l[i]) as nat) == kraft_units(l, k) + pow2((k - v) as nat),
    decreases l.len(),
{
    if i < l.len() - 1 {
        lemma_kraft_update(l.drop_last(), k, i, v);
        assert(l.update(i, v).drop_last() =~= l.drop_last().update(i, v));
    } else {
        assert(l.update(i, v).drop_last() =~= l.drop_last());
    }
}

proof fn lemma_len_total_update(l: Seq<nat>, i: int, v: nat)
    requires
        0 <= i < l.len(),
    ensures
        len_total(l.update(i, v)) + l[i] == len_total(l) + v,
    decreases l.len(),
{
    if i < l.len() - 1 {
        lemma_len_total_update(l.drop_last(), i, v);
        assert(l.update(i, v).drop_last() =~= l.drop_last().update(i, v));
    } else {
        assert(l.update(i, v).drop_last() =~= l.drop_last());
    }
}

proof fn lemma_cost_le(act: Seq<(u64, usize)>, l1: Seq<nat>, l2: Seq<nat>)
    requires
        act.len() == l1.len(),
        act.len() == l2.len(),
        forall|j: int| 0 <= j < act.len() ==> #[trigger] l1[j] <= l2[j],
    ensures
        cost(act, l1) <= cost(act, l2),
    decreases act.len(),
{
    if act.len() > 0 {
        lemma_cost_le(act.drop_last(), l1.drop_last(), l2.drop_last());
        let w = act.last().0 as nat;
        let a = l1.last();
        let b = l2.last();
        assert(w * a <= w * b) by (nonlinear_arith)
            requires
                a <= b,
        ;
    }
}

/// Lengths that all leave at least `e` bits of the `k`-bit space below them
/// take a multiple of `2^e` units.
proof fn lemma_kraft_multiple(l: Seq<nat>, k: nat, e: nat) -> (q: nat)
    requires
        forall|j: int| 0 <= j < l.len() ==> #[trigger] l[j] + e <= k,
    ensures
        kraft_units(l, k) == q * pow2(e),
    decreases l.len(),
{
    if l.len() == 0 {
        0
    } else {
        let q0 = lemma_kraft_multiple(l.drop_last(), k, e);
        let r = (k - l.last() - e) as nat;
        lemma_pow2_adds(e, r);
        assert((k - l.last()) as nat == e + r);
        let p = pow2(e);
        let t = pow2(r);
        assert(q0 * p + t * p == (q0 + t) * p) by (nonlinear_arith);
        assert(pow2(e + r) == t * p) by (nonlinear_arith)
            requires
                pow2(e + r) == p * t,
        ;
        q0 + t
    }
}

/// The position of a longest length.
pub open spec fn longest_at(l: Seq<nat>) -> int
    decreases l.len(),
{
    if l.len() <= 1 {
        0
    } else {
        let j = longest_at(l.drop_last());
        if l[j] >= l.last() {
            j
        } else {
            l.len() - 1
        }
    }
}

proof fn lemma_longest_at(l: Seq<nat>)
    requires
        l.len() >= 1,
    ensures
        0 <= longest_at(l) < l.len(),
        forall|j: int| 0 <= j < l.len() ==> #[trigger] l[j] <= l[longest_at(l)],
    decreases l.len(),
{
    if l.len() > 1 {
        let d = l.drop_last();
        lemma_longest_at(d);
        let j = longest_at(d);
        assert(l[j] == d[j]);
        assert forall|t: int| 0 <= t < l.len() implies #[trigger] l[t] <= l[longest_at(l)] by {
            if t < l.len() - 1 {
                assert(l[t] == d[t]);
                assert(d[t] <= d[j]);
            }
        }
    }
}

/// The first position that `first_lightest` picks holds a lightest weight.
proof fn lemma_first_lightest_min(s: Seq<(u64, usize)>)
    requires
        s.len() >= 1,
    ensures
        forall|t: int| 0 <= t < s.len() ==> s[first_lightest(s)].0 <= #[trigger] s[t].0,
    decreases s.len(),
{
    if s.len() > 1 {
        let d = s.drop_last();
        lemma_first_lightest_min(d);
        lemma_first_lightest_range(d);
        let j = first_lightest(d);
        assert(s[j] == d[j]);
        assert forall|t: int| 0 <= t < s.len() implies s[first_lightest(s)].0 <= #[trigger] s[t].0 by {
            if t < s.len() - 1 {
                assert(s[t] == d[t]);
                assert(d[j].0 <= d[t].0);
            }
        }
    }
}

/// Lengths that satisfy Kraft's inequality can be shortened, never lengthened,
/// until the longest length is held by at least two positions.
proof fn lemma_shared_longest(l: Seq<nat>, k: nat) -> (l2: Seq<nat>)
    requires
        l.len() >= 2,
        forall|j: int| 0 <= j < l.len() ==> 1 <= #[trigger] l[j] <= k,
        kraft_units(l, k) <= pow2(k),
    ensures
        l2.len() == l.len(),
        forall|j: int| 0 <= j < l.len() ==> 1 <= #[trigger] l2[j] <= l[j],
        kraft_units(l2, k) <= pow2(k),
        exists|x: int, y: int| 0 <= x < l.len() && 0 <= y < l.len() && x != y && l2[x] == l2[y]
            && forall|j: int| 0 <= j < l.len() ==> #[trigger] l2[j] <= l2[x],
    decreases len_total(l),
{
    lemma_longest_at(l);
    let t = longest_at(l);
    let big = l[t];
    if exists|x: int| 0 <= x < l.len() && x != t && l[x] == big {
        let x = choose|x: int| 0 <= x < l.len() && x != t && l[x] == big;
        assert(l[t] == l[x]);
        l
    } else {
        let other = if t == 0 { 1int } else { 0int };
        assert(l[other] < big);
        assert(big >= 2);
        let rest = l.remove(t);
        let e = (k - big + 1) as nat;
        assert forall|j: int| 0 <= j < rest.len() implies #[trigger] rest[j] + e <= k by {
            let jj = if j < t { j } else { j + 1 };
            assert(rest[j] == l[jj]);
            assert(l[jj] < big);
        }
        let q = lemma_kraft_multiple(rest, k, e);
        lemma_kraft_remove(l, k, t);
        let u = pow2((k - big) as nat);
        lemma_pow2_unfold(e);
        assert((e - 1) as nat == (k - big) as nat);
        assert(pow2(e) == 2 * u);
        lemma_pow2_adds(big, (k - big) as nat);
        assert(big + (k - big) as nat == k);
        lemma_pow2_unfold(big);
        let h = pow2((big - 1) as nat);
        assert(pow2(big) == 2 * h);
        lemma_pow2_pos((k - big) as nat);
        assert(pow2(k) == 2 * h * u) by (nonlinear_arith)
            requires
                pow2(k) == pow2(big) * u,
                pow2(big) == 2 * h,
        ;
        assert(q * (2 * u) + u <= 2 * h * u);
        let a = 2 * q + 1;
        assert(a * u == q * (2 * u) + u) by (nonlinear_arith)
            requires
                a == 2 * q + 1,
        ;
        assert(a <= 2 * h) by (nonlinear_arith)
            requires
                a * u <= (2 * h) * u,
                u > 0,
        ;
        assert(a + 1 <= 2 * h);
        assert((a + 1) * u <= (2 * h) * u) by (nonlinear_arith)
            requires
                a + 1 <= 2 * h,
        ;
        assert((a + 1) * u == q * (2 * u) + 2 * u) by (nonlinear_arith)
            requires
                a == 2 * q + 1,
        ;
        assert(q * (2 * u) + 2 * u <= 2 * h * u);
        let l1 = l.update(t, (big - 1) as nat);
        lemma_kraft_update(l, k, t, (big - 1) as nat);
        assert((k - (big - 1)) as nat == e);
        lemma_len_total_update(l, t, (big - 1) as nat);
        let l2 = lemma_shared_longest(l1, k);
        l2
    }
}

/// Swapping the lengths at `i` and `z` changes the coded size by
/// `(w[z] - w[i]) * (l[i] - l[z])` and keeps the Kraft sum.
proof fn lemma_swap(act: Seq<(u64, usize)>, l: Seq<nat>, k: nat, i: int, z: int)
    requires
        act.len() == l.len(),
        0 <= i < act.len(),
        0 <= z < act.len(),
        i != z,
    ensures
        ({
            let s = l.update(i, l[z]).update(z, l[i]);
            &&& cost(act, s) + act[i].0 as nat * l[i] + act[z].0 as nat * l[z]
                == cost(act, l) + act[i].0 as nat * l[z] + act[z].0 as nat * l[i]
            &&& kraft_units(s, k) == kraft_units(l, k)
        }),
{
    let s1 = l.update(i, l[z]);
    lemma_cost_update(act, l, i, l[z]);
    lemma_cost_update(act, s1, z, l[i]);
    lemma_kraft_update(l, k, i, l[z]);
    lemma_kraft_update(s1, k, z, l[i]);
}

/// Give the lightest tree `ia` and the next lightest `jb` two of the longest
/// lengths, without growing the coded size or the Kraft sum.
proof fn lemma_two_longest(act: Seq<(u64, usize)>, l: Seq<nat>, k: nat, ia: int, jb: int) -> (r: (Seq<nat>, nat))
    requires
        act.len() >= 2,
        l.len() == act.len(),
        0 <= ia < act.len(),
        0 <= jb < act.len(),
        ia != jb,
        forall|t: int| 0 <= t < act.len() ==> act[ia].0 <= #[trigger] act[t].0,
        forall|t: int| 0 <= t < act.len() && t != ia ==> act[jb].0 <= #[trigger] act[t].0,
        forall|j: int| 0 <= j < l.len() ==> 1 <= #[trigger] l[j] <= k,
        kraft_units(l, k) <= pow2(k),
    ensures
        r.0.len() == l.len(),
        r.0[ia] == r.1,
        r.0[jb] == r.1,
        forall|j: int| 0 <= j < l.len() ==> 1 <= #[trigger] r.0[j] <= r.1,
        r.1 <= k,
        kraft_units(r.0, k) <= pow2(k),
        cost(act, r.0) <= cost(act, l),
{
    let wa = act[ia].0 as nat;
    let wb = act[jb].0 as nat;
    let l2 = lemma_shared_longest(l, k);
    let (x, y) = choose|x: int, y: int| 0 <= x < l.len() && 0 <= y < l.len() && x != y && l2[x] == l2[y]
        && forall|j: int| 0 <= j < l.len() ==> #[trigger] l2[j] <= l2[x];
    let big = l2[x];
    assert(big <= k) by {
        assert(l2[x] <= l[x]);
    }
    lemma_cost_le(act, l2, l);
    let z = if x != jb { x } else { y };
    let l3 = if l2[ia] == big { l2 } else { l2.update(ia, l2[z]).update(z, l2[ia]) };
    let u = if l2[ia] == big { if x != ia { x } else { y } } else { if z == x { y } else { x } };
    if l2[ia] != big {
        lemma_swap(act, l2, k, ia, z);
        assert(wa <= act[z].0);
        assert(wa * big + act[z].0 as nat * l2[ia] <= wa * l2[ia] + act[z].0 as nat * big) by (nonlinear_arith)
            requires
                wa <= act[z].0,
                l2[ia] <= big,
        ;
    }
    assert(u != ia && l3[u] == big && l3[ia] == big);
    assert(cost(act, l3) <= cost(act, l2));
    assert(kraft_units(l3, k) == kraft_units(l2, k));
    assert forall|j: int| 0 <= j < l.len() implies 1 <= #[trigger] l3[j] <= big by {
        assert(1 <= l2[j] <= l[j]);
    }
    let l4 = if l3[jb] == big { l3 } else { l3.update(jb, l3[u]).update(u, l3[jb]) };
    if l3[jb] != big {
        assert(u != jb);
        lemma_swap(act, l3, k, jb, u);
        assert(wb <= act[u].0);
        assert(wb * big + act[u].0 as nat * l3[jb] <= wb * l3[jb] + act[u].0 as nat * big) by (nonlinear_arith)
            requires
                wb <= act[u].0,
                l3[jb] <= big,
        ;
    }
    assert forall|j: int| 0 <= j < l.len() implies 1 <= #[trigger] l4[j] <= big by {
        assert(1 <= l3[j] <= big);
    }
    (l4, big)
}

/// Merging the two trees at `ia` and (after removing it) `ib`, both of length
/// `big`, into one tree of length `big - 1` saves their two weights and keeps
/// the Kraft sum.
proof fn lemma_merge_lengths(act: Seq<(u64, usize)>, l4: Seq<nat>, k: nat, ia: int, ib: int, big: nat, next: nat)
    requires
        act.len() >= 2,
        l4.len() == act.len(),
        0 <= ia < act.len(),
        0 <= ib < act.len() - 1,
        l4[ia] == big,
        l4.remove(ia)[ib] == big,
        1 <= big <= k,
        forall|j: int| 0 <= j < l4.len() ==> 1 <= #[trigger] l4[j] <= big,
        kraft_units(l4, k) <= pow2(k),
        act[ia].0 + act.remove(ia)[ib].0 <= u64::MAX,
    ensures
        ({
            let rest = act.remove(ia);
            let nxt = rest.remove(ib).push(((act[ia].0 + rest[ib].0) as u64, next as usize));
            let l5 = l4.remove(ia).remove(ib).push((big - 1) as nat);
            &&& l5.len() == nxt.len()
            &&& cost(act, l4) == cost(nxt, l5) + act[ia].0 + rest[ib].0
            &&& kraft_units(l5, k) == kraft_units(l4, k)
            &&& forall|j: int| 0 <= j < l5.len() ==> #[trigger] l5[j] <= k
            &&& act.len() >= 3 ==> forall|j: int| 0 <= j < l5.len() ==> 1 <= #[trigger] l5[j]
        }),
{
    let rest = act.remove(ia);
    let wa = act[ia].0 as nat;
    let wb = rest[ib].0 as nat;
    let w = (act[ia].0 + rest[ib].0) as u64;
    let nxt = rest.remove(ib).push((w, next as usize));
    let lr = l4.remove(ia);
    let rem = lr.remove(ib);
    let l5 = rem.push((big - 1) as nat);
    lemma_cost_remove(act, l4, ia);
    lemma_cost_remove(rest, lr, ib);
    assert(nxt.drop_last() =~= rest.remove(ib));
    assert(l5.drop_last() =~= rem);
    assert(cost(nxt, l5) == cost(rest.remove(ib), rem) + w as nat * (big - 1) as nat);
    assert(cost(act, l4) == cost(nxt, l5) + wa + wb) by (nonlinear_arith)
        requires
            cost(act, l4) == cost(rest.remove(ib), rem) + wb * big + wa * big,
            cost(nxt, l5) == cost(rest.remove(ib), rem) + w as nat * (big - 1) as nat,
            w == wa + wb,
            big >= 1,
    ;
    lemma_kraft_remove(l4, k, ia);
    lemma_kraft_remove(lr, k, ib);
    lemma_pow2_unfold((k - (big - 1)) as nat);
    assert((k - (big - 1)) as nat - 1 == (k - big) as nat);
    assert(kraft_units(l5, k) == kraft_units(rem, k) + pow2((k - (big - 1)) as nat));
    assert forall|j: int| 0 <= j < rem.len() implies 1 <= #[trigger] rem[j] <= big by {
        let jj = if j < ib { j } else { j + 1 };
        assert(rem[j] == lr[jj]);
        let j2 = if jj < ia { jj } else { jj + 1 };
        assert(lr[jj] == l4[j2]);
    }
    assert forall|j: int| 0 <= j < l5.len() implies #[trigger] l5[j] <= k by {
        if j < rem.len() {
            assert(l5[j] == rem[j]);
        }
    }
    if act.len() >= 3 {
        if big == 1 {
            // Three or more one-bit codes would overflow the code space.
            lemma_kraft_remove(rem, k, 0);
            assert(rem[0] == 1);
            lemma_pow2_unfold(k);
            lemma_pow2_pos((k - 1) as nat);
            assert(false);
        }
        assert forall|j: int| 0 <= j < l5.len() implies 1 <= #[trigger] l5[j] by {
            if j < rem.len() {
                assert(l5[j] == rem[j]);
            }
        }
    }
}

/// Huffman's merges weigh no more than the coded size of any lengths that
/// satisfy Kraft's inequality (every length at least 1 when two or more trees
/// wait).
pub proof fn lemma_merge_cost_le(act: Seq<(u64, usize)>, next: nat, l: Seq<nat>, k: nat)
    requires
        act.len() >= 1,
        l.len() == act.len(),
        weight_sum(act) <= u64::MAX,
        forall|j: int| 0 <= j < l.len() ==> #[trigger] l[j] <= k,
        act.len() >= 2 ==> forall|j: int| 0 <= j < l.len() ==> 1 <= #[trigger] l[j],
        kraft_units(l, k) <= pow2(k),
    ensures
        merge_cost(act, next) <= cost(act, l),
    decreases act.len(),
{
    if act.len() >= 2 {
        let ia = first_lightest(act);
        lemma_first_lightest_range(act);
        lemma_first_lightest_min(act);
        let rest = act.remove(ia);
        let ib = first_lightest(rest);
        lemma_first_lightest_range(rest);
        lemma_first_lightest_min(rest);
        let jb = if ib < ia { ib } else { ib + 1 };
        assert(rest[ib] == act[jb]);
        assert forall|t: int| 0 <= t < act.len() && t != ia implies act[jb].0 <= #[trigger] act[t].0 by {
            let tt = if t < ia { t } else { t - 1 };
            assert(rest[tt] == act[t]);
        }
        let (l4, big) = lemma_two_longest(act, l, k, ia, jb);
        assert(l4.remove(ia)[ib] == l4[jb]);
        lemma_weight_sum_remove(act, ia);
        lemma_weight_sum_remove(rest, ib);
        lemma_merge_lengths(act, l4, k, ia, ib, big, next);
        let w = (act[ia].0 + rest[ib].0) as u64;
        let nxt = rest.remove(ib).push((w, next as usize));
        let l5 = l4.remove(ia).remove(ib).push((big - 1) as nat);
        assert(weight_sum(nxt) == weight_sum(act)) by {
            assert(nxt.drop_last() =~= rest.remove(ib));
        }
        lemma_merge_cost_le(nxt, next + 1, l5, k);
    }
}

// ---------------------------------------------------------------------------
// From symbols to leaves, and the law itself.
// ---------------------------------------------------------------------------

/// `sum freqs[i] * lens[i]`: the size in bits of the symbols coded with the
/// lengths `lens`.
pub open spec fn coded_size(freqs: Seq<u32>, lens: Seq<u8>) -> nat
    decreases freqs.len(),
{
    if freqs.len() == 0 || lens.len() == 0 {
        0
    } else {
        coded_size(freqs.drop_last(), lens.drop_last()) + freqs.last() as nat * lens.last() as nat
    }
}

/// `sum freqs[i] * lens[i]` for lengths of any size.
pub open spec fn coded_bits(freqs: Seq<u32>, lens: Seq<nat>) -> nat
    decreases freqs.len(),
{
    if freqs.len() == 0 || lens.len() == 0 {
        0
    } else {
        coded_bits(freqs.drop_last(), lens.drop_last()) + freqs.last() as nat * lens.last()
    }
}

/// `sum 2^(k - lens[i])` over the used symbols: the share of the code space
/// that their lengths take, in units of `2^-k`.
pub open spec fn used_kraft(freqs: Seq<u32>, lens: Seq<nat>, k: nat) -> nat
    decreases freqs.len(),
{
    if freqs.len() == 0 || lens.len() == 0 {
        0
    } else {
        used_kraft(freqs.drop_last(), lens.drop_last(), k) + if freqs.last() > 0 {
            pow2((k - lens.last()) as nat)
        } else {
            0
        }
    }
}

/// The lengths of the used symbols, in order.
pub open spec fn used_lens(freqs: Seq<u32>, lens: Seq<nat>) -> Seq<nat>
    decreases freqs.len(),
{
    if freqs.len() == 0 || lens.len() == 0 {
        Seq::empty()
    } else if freqs.last() > 0 {
        used_lens(freqs.drop_last(), lens.drop_last()).push(lens.last())
    } else {
        used_lens(freqs.drop_last(), lens.drop_last())
    }
}

proof fn lemma_leaf_weights_len(freqs: Seq<u32>)
    ensures
        leaf_weights(freqs).len() == num_used(freqs),
    decreases freqs.len(),
{
    if freqs.len() > 0 {
        lemma_leaf_weights_len(freqs.drop_last());
    }
}

/// A used symbol's weight sits at its leaf's position.
proof fn lemma_leaf_weight_at(freqs: Seq<u32>, i: int)
    requires
        0 <= i < freqs.len(),
        freqs[i] > 0,
    ensures
        num_used(freqs.take(i)) < leaf_weights(freqs).len(),
        leaf_weights(freqs)[num_used(freqs.take(i)) as int] == freqs[i] as u64,
    decreases freqs.len(),
{
    let d = freqs.drop_last();
    lemma_leaf_weights_len(d);
    lemma_leaf_weights_len(freqs);
    if i == freqs.len() - 1 {
        assert(freqs.take(i) =~= d);
    } else {
        assert(d.take(i) =~= freqs.take(i));
        lemma_leaf_weight_at(d, i);
    }
}

proof fn lemma_total_weight_bound(freqs: Seq<u32>)
    ensures
        total_weight(leaf_weights(freqs)) <= freqs.len() * 0xFFFF_FFFFnat,
    decreases freqs.len(),
{
    if freqs.len() > 0 {
        let d = freqs.drop_last();
        lemma_total_weight_bound(d);
        if freqs.last() > 0 {
            assert(leaf_weights(freqs).drop_last() =~= leaf_weights(d));
        }
        assert((freqs.len() - 1) * 0xFFFF_FFFFnat + 0xFFFF_FFFF == freqs.len() * 0xFFFF_FFFFnat)
            by (nonlinear_arith);
    }
}

/// The coded size of the Huffman depths, summed over symbols, is the same sum
/// over the leaves.
proof fn lemma_coded_size_leaves(freqs: Seq<u32>, out: Seq<u8>, h: Seq<usize>, k: nat)
    requires
        out.len() == freqs.len(),
        k <= freqs.len(),
        forall|i: int| 0 <= i < freqs.len() && freqs[i] > 0 ==> #[trigger] out[i] as nat
            == depth_of(h, num_used(freqs.take(i)) as int),
    ensures
        coded_size(freqs.take(k as int), out.take(k as int)) == depth_cost(h, leaf_weights(freqs),
            num_used(freqs.take(k as int))),
    decreases k,
{
    if k == 0 {
        assert(freqs.take(0).len() == 0);
    } else {
        let i = k - 1;
        lemma_coded_size_leaves(freqs, out, h, (k - 1) as nat);
        assert(freqs.take(k as int).drop_last() =~= freqs.take(i));
        assert(out.take(k as int).drop_last() =~= out.take(i));
        lemma_num_used_take(freqs, i);
        if freqs[i] > 0 {
            lemma_leaf_weight_at(freqs, i);
            assert(out[i] as nat == depth_of(h, num_used(freqs.take(i)) as int));
        }
    }
}

/// The competing lengths, moved to the leaves: the same coded size, and no
/// more of the code space.
proof fn lemma_used_lens(freqs: Seq<u32>, lens: Seq<nat>, k: nat)
    requires
        lens.len() == freqs.len(),
        forall|i: int| 0 <= i < freqs.len() && freqs[i] > 0 ==> 1 <= #[trigger] lens[i] <= k,
    ensures
        ({
            let lw = leaf_weights(freqs);
            let ul = used_lens(freqs, lens);
            &&& ul.len() == lw.len()
            &&& cost(Seq::new(lw.len(), |t: int| (lw[t], t as usize)), ul) == coded_bits(freqs, lens)
            &&& kraft_units(ul, k) == used_kraft(freqs, lens, k)
            &&& forall|t: int| 0 <= t < ul.len() ==> 1 <= #[trigger] ul[t] <= k
        }),
    decreases freqs.len(),
{
    if freqs.len() > 0 {
        let d = freqs.drop_last();
        let e = lens.drop_last();
        assert forall|i: int| 0 <= i < d.len() && d[i] > 0 implies 1 <= #[trigger] e[i] <= k by {
            assert(freqs[i] == d[i] && lens[i] == e[i]);
        }
        lemma_used_lens(d, e, k);
        let lw = leaf_weights(freqs);
        let lw0 = leaf_weights(d);
        let act = Seq::new(lw.len(), |t: int| (lw[t], t as usize));
        let act0 = Seq::new(lw0.len(), |t: int| (lw0[t], t as usize));
        let ul = used_lens(freqs, lens);
        let ul0 = used_lens(d, e);
        let last = freqs.len() - 1;
        if freqs.last() > 0 {
            assert(1 <= lens[last] <= k);
            assert(act.drop_last() =~= act0);
            assert(ul.drop_last() =~= ul0);
            assert(act.last().0 == freqs.last() as u64);
        }
    } else {
        assert(used_lens(freqs, lens) =~= Seq::<nat>::empty());
    }
}

proof fn lemma_coded_size_le(freqs: Seq<u32>, a: Seq<u8>, b: Seq<nat>)
    requires
        a.len() == freqs.len(),
        b.len() == freqs.len(),
        forall|i: int| 0 <= i < freqs.len() && freqs[i] > 0 ==> #[trigger] a[i] <= b[i],
    ensures
        coded_size(freqs, a) <= coded_bits(freqs, b),
    decreases freqs.len(),
{
    if freqs.len() > 0 {
        let d = freqs.drop_last();
        assert forall|i: int| 0 <= i < d.len() && d[i] > 0 implies #[trigger] a.drop_last()[i] <= b.drop_last()[i] by {
            assert(freqs[i] == d[i]);
        }
        lemma_coded_size_le(d, a.drop_last(), b.drop_last());
        let f = freqs.last() as nat;
        let x = a.last() as nat;
        let y = b.last();
        if f > 0 {
            assert(f * x <= f * y) by (nonlinear_arith)
                requires
                    x <= y,
            ;
        } else {
            assert(f * x == 0 && f * y == 0) by (nonlinear_arith)
                requires
                    f == 0,
            ;
        }
    }
}

/// Huffman's lengths are optimal. When the Huffman tree of `freqs` is no
/// deeper than 15 bits (so that `code_lengths` returns its depths),
/// the lengths `out` that `code_lengths` promises code the symbols in no more
/// bits than the lengths `lens` of any prefix code for the used symbols: every
/// used symbol has a length of at least one bit (and at most some `k`), and
/// the lengths satisfy Kraft's inequality.
pub proof fn lemma_code_lengths_optimal(freqs: Seq<u32>, out: Seq<u8>, lens: Seq<nat>, k: nat)
    requires
        freqs.len() <= u32::MAX,
        freqs.len() <= usize::MAX / 2,
        huffman_lengths(freqs, out),
        tree_fits(freqs),
        lens.len() == freqs.len(),
        forall|i: int| 0 <= i < freqs.len() && freqs[i] > 0 ==> 1 <= #[trigger] lens[i] <= k,
        used_kraft(freqs, lens, k) <= pow2(k),
    ensures
        coded_size(freqs, out) <= coded_bits(freqs, lens),
{
    let n = freqs.len();
    if num_used(freqs) <= 1 {
        assert forall|i: int| 0 <= i < n && freqs[i] > 0 implies #[trigger] out[i] <= lens[i] by {
            lemma_num_used_pos(freqs, i);
        }
        lemma_coded_size_le(freqs, out, lens);
    } else {
        let lw = leaf_weights(freqs);
        let m = lw.len();
        lemma_leaf_weights_len(freqs);
        let p0 = Seq::new(m, |x: int| NO_PARENT);
        let act0 = Seq::new(m, |t: int| (lw[t], t as usize));
        let h = huffman_tree(freqs);
        assert(h == huffman_merge(p0, act0));
        // The Huffman side: the depths' coded size is the weight of the merges.
        assert forall|i: int| 0 <= i < n && freqs[i] > 0 implies #[trigger] out[i] as nat
            == depth_of(h, num_used(freqs.take(i)) as int) by {
            assert(out[i] == tree_depth(freqs, i));
        }
        lemma_coded_size_leaves(freqs, out, h, n);
        assert(freqs.take(n as int) =~= freqs);
        assert(out.take(n as int) =~= out);
        lemma_total_weight_bound(freqs);
        assert(n * 0xFFFF_FFFFnat <= u64::MAX) by (nonlinear_arith)
            requires
                n <= u32::MAX,
        ;
        lemma_num_used_bound(freqs);
        lemma_tree_cost(lw);
        // The other side: the competing lengths, moved to the leaves.
        lemma_used_lens(freqs, lens, k);
        let ul = used_lens(freqs, lens);
        lemma_weight_sum_total(lw, m);
        assert(lw.take(m as int) =~= lw);
        lemma_merge_cost_le(act0, m, ul, k);
    }
}

} // verus!
