//! A forest of binary trees stored as an arena of parent links, as built by
//! Huffman's algorithm: node `x` has parent `p[x]` (always a later node) or
//! none. The spec functions here follow a node up to its root and measure its
//! depth; the lemmas track how merging two roots under a new node changes the
//! Kraft sum `sum 2^(k - depth)` of the leaves of each tree.
use vstd::prelude::*;
use vstd::arithmetic::power2::{pow2, lemma_pow2_unfold};

verus! {

/// Marks a node that has no parent (a root).
pub const NO_PARENT: usize = usize::MAX;

/// Every parent link points to a later node inside the arena.
pub open spec fn forest_wf(p: Seq<usize>) -> bool {
    forall|x: int| 0 <= x < p.len() ==> #[trigger] p[x] == NO_PARENT || (x < p[x] && p[x] < p.len())
}

/// The root of the tree containing node `x`.
pub open spec fn root_of(p: Seq<usize>, x: int) -> int
    decreases p.len() - x,
{
    if 0 <= x < p.len() && p[x] != NO_PARENT && x < p[x] < p.len() {
        root_of(p, p[x] as int)
    } else {
        x
    }
}

/// The depth of node `x` below its root.
pub open spec fn depth_of(p: Seq<usize>, x: int) -> nat
    decreases p.len() - x,
{
    if 0 <= x < p.len() && p[x] != NO_PARENT && x < p[x] < p.len() {
        1 + depth_of(p, p[x] as int)
    } else {
        0
    }
}

/// `sum 2^(k - depth(x))` over the leaves `x < i` whose root is `r`.
pub open spec fn leaf_sum(p: Seq<usize>, r: int, k: nat, i: nat) -> nat
    decreases i,
{
    if i == 0 {
        0
    } else {
        leaf_sum(p, r, k, (i - 1) as nat) + leaf_term(p, r, k, (i - 1) as int)
    }
}

/// What leaf `x` contributes to the Kraft sum of the tree rooted at `r`.
pub open spec fn leaf_term(p: Seq<usize>, r: int, k: nat, x: int) -> nat {
    if root_of(p, x) == r && depth_of(p, x) <= k {
        pow2((k - depth_of(p, x)) as nat)
    } else {
        0
    }
}

/// Give roots `a` and `b` a new common parent, appended to the arena.
pub open spec fn merged(p: Seq<usize>, a: int, b: int) -> Seq<usize> {
    p.update(a, p.len() as usize).update(b, p.len() as usize).push(NO_PARENT)
}

/// The root of a node is a later-or-equal root node, at most `root - x` steps up.
pub proof fn lemma_root_facts(p: Seq<usize>, x: int)
    requires
        forest_wf(p),
        0 <= x < p.len(),
    ensures
        x <= root_of(p, x) < p.len(),
        p[root_of(p, x)] == NO_PARENT,
        depth_of(p, x) <= root_of(p, x) - x,
        (depth_of(p, x) == 0) == (p[x] == NO_PARENT),
    decreases p.len() - x,
{
    if p[x] != NO_PARENT {
        lemma_root_facts(p, p[x] as int);
    }
}

pub proof fn lemma_merged_wf(p: Seq<usize>, a: int, b: int)
    requires
        forest_wf(p),
        0 <= a < p.len(),
        0 <= b < p.len(),
        p.len() < usize::MAX,
    ensures
        forest_wf(merged(p, a, b)),
        merged(p, a, b).len() == p.len() + 1,
{
    let q = merged(p, a, b);
    assert forall|x: int| 0 <= x < q.len() implies #[trigger] q[x] == NO_PARENT || (x < q[x] && q[x] < q.len()) by {
        if x < p.len() && x != a && x != b {
            assert(q[x] == p[x]);
        }
    }
}

/// How merging roots `a` and `b` moves each old node: the trees of `a` and `b`
/// now hang one level deeper under the new root; other trees are untouched.
pub proof fn lemma_merge_node(p: Seq<usize>, a: int, b: int, x: int)
    requires
        forest_wf(p),
        0 <= a < p.len(),
        0 <= b < p.len(),
        a != b,
        p[a] == NO_PARENT,
        p[b] == NO_PARENT,
        0 <= x < p.len(),
        p.len() < usize::MAX,
    ensures
        root_of(merged(p, a, b), x) == if root_of(p, x) == a || root_of(p, x) == b {
            p.len() as int
        } else {
            root_of(p, x)
        },
        depth_of(merged(p, a, b), x) == depth_of(p, x) + if root_of(p, x) == a || root_of(p, x) == b {
            1nat
        } else {
            0nat
        },
    decreases p.len() - x,
{
    let q = merged(p, a, b);
    let n = p.len() as int;
    assert(q[n] == NO_PARENT);
    assert(root_of(q, n) == n);
    assert(depth_of(q, n) == 0);
    if x == a || x == b {
        assert(q[x] == n);
    } else {
        assert(q[x] == p[x]);
        if p[x] != NO_PARENT {
            lemma_merge_node(p, a, b, p[x] as int);
        }
    }
}

/// The Kraft sums after a merge: the new tree's sum is half the sum of the two
/// merged trees; every other tree keeps its sum.
pub proof fn lemma_merge_sums(p: Seq<usize>, a: int, b: int, k: nat, i: nat, r: int)
    requires
        forest_wf(p),
        0 <= a < p.len(),
        0 <= b < p.len(),
        a != b,
        p[a] == NO_PARENT,
        p[b] == NO_PARENT,
        i <= p.len(),
        p.len() < k,
        p.len() < usize::MAX,
    ensures
        2 * leaf_sum(merged(p, a, b), p.len() as int, k, i) == leaf_sum(p, a, k, i) + leaf_sum(p, b, k, i),
        r != a && r != b && r != p.len() ==> leaf_sum(merged(p, a, b), r, k, i) == leaf_sum(p, r, k, i),
    decreases i,
{
    if i > 0 {
        let x = (i - 1) as int;
        lemma_merge_sums(p, a, b, k, (i - 1) as nat, r);
        lemma_merge_node(p, a, b, x);
        lemma_root_facts(p, x);
        let q = merged(p, a, b);
        let d = depth_of(p, x);
        if root_of(p, x) == a || root_of(p, x) == b {
            assert(d + 1 <= k);
            lemma_pow2_unfold((k - d) as nat);
            assert((k - d - 1) as nat == ((k - d) as nat - 1) as nat);
        }
    }
}

/// A forest of `m` single-node trees: each tree's sum is `2^k`.
pub proof fn lemma_initial_sums(m: nat, k: nat, r: int, i: nat)
    requires
        i <= m,
    ensures
        leaf_sum(Seq::new(m, |x: int| NO_PARENT), r, k, i) == if 0 <= r < i { pow2(k) } else { 0 },
    decreases i,
{
    if i > 0 {
        lemma_initial_sums(m, k, r, (i - 1) as nat);
        let p = Seq::new(m, |x: int| NO_PARENT);
        let x = (i - 1) as int;
        assert(p[x] == NO_PARENT);
        assert(root_of(p, x) == x);
        assert(depth_of(p, x) == 0);
    }
}

} // verus!
