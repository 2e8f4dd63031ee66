//! The shape of a packed tree: how many nodes each layer holds, and which run of
//! items lies under each node.
//!
//! Layer 0 holds one leaf per `NODE_CAPACITY` consecutive items; every further
//! layer holds one node per `NODE_CAPACITY` consecutive nodes of the layer below,
//! up to a layer of one node, the root. Node `p` of layer `k` covers the items from
//! `p * span(k)` up to `(p + 1) * span(k)`, cut at the item count.
use vstd::prelude::*;

verus! {

/// The fan-out: children of an internal node, and items of a leaf.
pub const NODE_CAPACITY: usize = 16;

/// `a / 16`, rounded up.
pub open spec fn ceil16(a: nat) -> nat {
    (a + 15) / 16
}

/// The number of items under a full node of layer `k`, `16^(k + 1)`.
pub open spec fn span(k: nat) -> nat
    decreases k,
{
    if k == 0 {
        16
    } else {
        16 * span((k - 1) as nat)
    }
}

/// The number of nodes of layer `k` in a tree over `n` items.
pub open spec fn layer_size(n: nat, k: nat) -> nat
    decreases k,
{
    if k == 0 {
        ceil16(n)
    } else {
        ceil16(layer_size(n, (k - 1) as nat))
    }
}

/// The first item under node `p` of layer `k`, or `n` where the node lies past
/// the items.
#[verifier::opaque]
pub open spec fn node_lo(n: nat, k: nat, p: nat) -> nat {
    if p * span(k) < n {
        p * span(k)
    } else {
        n
    }
}

/// One past the last item under node `p` of layer `k`.
pub open spec fn node_hi(n: nat, k: nat, p: nat) -> nat {
    node_lo(n, k, p + 1)
}

/// Layer `k` starts at `offsets[k]` and holds `layer_size(n, k)` nodes.
pub open spec fn layer_step(n: nat, offsets: Seq<usize>, k: int) -> bool {
    offsets[k + 1] == offsets[k] + layer_size(n, k as nat)
}

/// The layer offsets of a tree over `n` items: entry `k` is where layer `k`
/// starts in the flat node array, the last entry is the node count, and the top
/// layer is the first one of a single node, the root.
pub open spec fn layer_offsets_of(n: nat, offsets: Seq<usize>) -> bool {
    &&& offsets.len() >= 2
    &&& offsets[0] == 0
    &&& forall|k: int| 0 <= k < offsets.len() - 1 ==> #[trigger] layer_step(n, offsets, k)
    &&& layer_size(n, (offsets.len() - 2) as nat) == 1
    &&& offsets.len() >= 3 ==> layer_size(n, (offsets.len() - 3) as nat) > 1
}

pub proof fn lemma_span_positive(k: nat)
    ensures
        span(k) >= 16,
    decreases k,
{
    if k > 0 {
        lemma_span_positive((k - 1) as nat);
    }
}

/// The layer offsets grow.
pub proof fn lemma_offsets_ordered(n: nat, offsets: Seq<usize>, a: int, b: int)
    requires
        layer_offsets_of(n, offsets),
        0 <= a <= b < offsets.len(),
    ensures
        offsets[a] <= offsets[b],
    decreases b - a,
{
    if a < b {
        lemma_offsets_ordered(n, offsets, a, b - 1);
        assert(layer_step(n, offsets, b - 1));
    }
}

/// A layer's nodes, taken at full span, reach past the last item.
pub proof fn lemma_layer_reaches(n: nat, k: nat)
    ensures
        layer_size(n, k) * span(k) >= n,
    decreases k,
{
    if k > 0 {
        let s = layer_size(n, (k - 1) as nat);
        let sp = span((k - 1) as nat);
        lemma_layer_reaches(n, (k - 1) as nat);
        assert(ceil16(s) * 16 >= s);
        assert(ceil16(s) * (16 * sp) >= n) by (nonlinear_arith)
            requires
                ceil16(s) * 16 >= s,
                s * sp >= n,
        ;
        assert(layer_size(n, k) == ceil16(s));
        assert(span(k) == 16 * sp);
        assert(layer_size(n, k) * span(k) == ceil16(s) * (16 * sp));
    } else {
        assert(ceil16(n) * 16 >= n);
    }
}

/// The first child of any node of a layer lies inside the layer below.
pub proof fn lemma_first_child_inside(a: nat, p: nat)
    requires
        p < ceil16(a),
    ensures
        16 * p < a,
{
}

/// A node past the end of its layer covers no item.
pub proof fn lemma_past_layer_empty(n: nat, k: nat, p: nat)
    requires
        p >= layer_size(n, k),
    ensures
        node_lo(n, k, p) == n,
{
    reveal(node_lo);
    lemma_layer_reaches(n, k);
    assert(p * span(k) >= layer_size(n, k) * span(k)) by (nonlinear_arith)
        requires
            p >= layer_size(n, k),
    ;
}

/// The layers shrink: a layer of two or more nodes has at most half as many above it.
pub proof fn lemma_layer_shrinks(a: nat)
    requires
        a >= 2,
    ensures
        2 * ceil16(a) <= a,
        ceil16(a) >= 1,
{
}

/// Node `p` of layer `k + 1` covers the runs of its children `16 * p + j`.
pub proof fn lemma_child_bounds(n: nat, k: nat, p: nat, j: nat)
    requires
        j <= 16,
    ensures
        node_lo(n, k, 16 * p) == node_lo(n, k + 1, p),
        node_lo(n, k, 16 * p + 16) == node_hi(n, k + 1, p),
        node_lo(n, k + 1, p) <= node_lo(n, k, 16 * p + j) <= node_hi(n, k + 1, p),
{
    reveal(node_lo);
    let s = span(k);
    assert(span(k + 1) == 16 * s);
    assert((16 * p) * s == p * (16 * s)) by (nonlinear_arith);
    assert((16 * p + 16) * s == (p + 1) * (16 * s)) by (nonlinear_arith);
    assert((16 * p) * s <= (16 * p + j) * s <= (16 * p + 16) * s) by (nonlinear_arith)
        requires
            j <= 16,
    ;
}

/// The runs of consecutive nodes of a layer follow each other.
pub proof fn lemma_runs_ordered(n: nat, k: nat, p: nat, r: nat)
    requires
        p <= r,
    ensures
        node_lo(n, k, p) <= node_lo(n, k, r) <= n,
{
    reveal(node_lo);
    assert(p * span(k) <= r * span(k)) by (nonlinear_arith)
        requires
            p <= r,
    ;
}

/// The run of leaf `p`: its up to sixteen items from `16 * p` on.
pub proof fn lemma_leaf_run(n: nat, p: nat)
    requires
        16 * p < n,
    ensures
        node_lo(n, 0, p) == 16 * p,
        node_hi(n, 0, p) == if 16 * p + 16 < n {
            16 * p + 16
        } else {
            n
        },
{
    reveal(node_lo);
    assert(span(0) == 16);
    assert((p + 1) * 16 == 16 * p + 16);
}

/// The first node of a layer starts at the first item.
pub proof fn lemma_first_run(n: nat, k: nat)
    ensures
        node_lo(n, k, 0) == 0,
{
    reveal(node_lo);
    lemma_span_positive(k);
}

} // verus!
