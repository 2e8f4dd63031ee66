//! The builder, the bulk loader and the packed tree with its query traversal.
use vstd::prelude::*;

use crate::footprint::{
    floor_log16, floor_log16_of, projected_node_count, projected_node_count_of, saturated,
    saturating_mul,
};
use crate::geometry::{BBox, Point};
use crate::hilbert::{hilbert_key, hilbert_key_of};
use crate::index_item::{
    IndexItem, appended, clones_of, extent_of, lemma_appended_from_empty, lemma_appended_nothing,
    lemma_appended_push, lemma_appended_runs, lemma_extent_extend, lemma_extent_holds_all,
    lemma_extent_permutation, lemma_extent_split,
    lemma_matches_extend, lemma_matches_none, lemma_run_extent_holds, matching,
};
use crate::layers::{
    NODE_CAPACITY, ceil16, layer_offsets_of, layer_size, layer_step, lemma_child_bounds,
    lemma_first_child_inside, lemma_first_run, lemma_layer_shrinks, lemma_leaf_run,
    lemma_offsets_ordered, lemma_past_layer_empty, lemma_runs_ordered, node_hi, node_lo,
};

verus! {

/// The builder for the spatial index: collects entries, then packs them into an
/// [`HPRTree`].
#[derive(Clone)]
pub struct HPRTreeBuilder<T> {
    items: Vec<IndexItem<T>>,
    extent: BBox,
}

/// The packed spatial index. It holds the entries ordered along the Hilbert
/// curve, their extent, and one bounding box per node in a flat array laid out
/// layer by layer, leaves first.
pub struct HPRTree<T> {
    items: Vec<IndexItem<T>>,
    extent: BBox,
    layer_start_index: Vec<usize>,
    node_bounds: Vec<BBox>,
}

/// Every point of `items` lies in `extent`.
pub open spec fn within<T>(items: Seq<IndexItem<T>>, extent: BBox) -> bool {
    forall|i: int| 0 <= i < items.len() ==> extent.spec_contains(#[trigger] items[i].index_geom)
}

/// `items` are in ascending order of their Hilbert key over `extent`.
pub open spec fn sorted_by_key<T>(items: Seq<IndexItem<T>>, extent: BBox) -> bool {
    forall|i: int, j: int|
        0 <= i < j < items.len() ==> hilbert_key(extent, #[trigger] items[i].index_geom)
            <= hilbert_key(extent, #[trigger] items[j].index_geom)
}

/// The entries of `items` whose Hilbert key over `extent` is `k`, in their order.
pub open spec fn key_run<T>(items: Seq<IndexItem<T>>, extent: BBox, k: u32) -> Seq<IndexItem<T>> {
    items.filter(|e: IndexItem<T>| hilbert_key(extent, e.index_geom) == k)
}

/// Entries of one key stand in `after` in the order they had in `before`.
pub open spec fn keeps_key_order<T>(
    before: Seq<IndexItem<T>>,
    after: Seq<IndexItem<T>>,
    extent: BBox,
) -> bool {
    forall|k: u32| #[trigger] key_run(after, extent, k) == key_run(before, extent, k)
}

/// Dropping the last entry drops it from the run of its key only.
proof fn lemma_key_run_drop_last<T>(s: Seq<IndexItem<T>>, extent: BBox, k: u32)
    requires
        s.len() > 0,
    ensures
        key_run(s, extent, k) == if hilbert_key(extent, s.last().index_geom) == k {
            key_run(s.drop_last(), extent, k).push(s.last())
        } else {
            key_run(s.drop_last(), extent, k)
        },
{
    assert(s.drop_last().push(s.last()) =~= s);
    s.drop_last().lemma_filter_push(
        s.last(),
        |e: IndexItem<T>| hilbert_key(extent, e.index_geom) == k,
    );
}

/// No entry of `s` has a key as large as `k`, so the run of `k` is empty.
proof fn lemma_key_run_beyond<T>(s: Seq<IndexItem<T>>, extent: BBox, k: u32)
    requires
        forall|i: int| 0 <= i < s.len() ==> hilbert_key(extent, #[trigger] s[i].index_geom) < k,
    ensures
        key_run(s, extent, k).len() == 0,
    decreases s.len(),
{
    if s.len() == 0 {
        reveal(Seq::filter);
    } else {
        assert forall|i: int| 0 <= i < s.drop_last().len() implies hilbert_key(
            extent,
            #[trigger] s.drop_last()[i].index_geom,
        ) < k by {
            assert(s.drop_last()[i] == s[i]);
        }
        lemma_key_run_beyond(s.drop_last(), extent, k);
        lemma_key_run_drop_last(s, extent, k);
        assert(hilbert_key(extent, s[s.len() - 1].index_geom) < k);
    }
}

/// A stable sort has one outcome: two sequences sorted by key, with the same
/// entries of each key in the same order, are equal.
pub proof fn lemma_stable_sort_unique<T>(s1: Seq<IndexItem<T>>, s2: Seq<IndexItem<T>>, extent: BBox)
    requires
        sorted_by_key(s1, extent),
        sorted_by_key(s2, extent),
        forall|k: u32| #[trigger] key_run(s1, extent, k) == key_run(s2, extent, k),
    ensures
        s1 == s2,
    decreases s1.len() + s2.len(),
{
    if s1.len() == 0 && s2.len() == 0 {
        assert(s1 =~= s2);
    } else if s1.len() == 0 {
        let k = hilbert_key(extent, s2.last().index_geom);
        lemma_key_run_drop_last(s2, extent, k);
        lemma_key_run_beyond(s1, extent, k);
        assert(key_run(s1, extent, k) == key_run(s2, extent, k));
    } else if s2.len() == 0 {
        let k = hilbert_key(extent, s1.last().index_geom);
        lemma_key_run_drop_last(s1, extent, k);
        lemma_key_run_beyond(s2, extent, k);
        assert(key_run(s1, extent, k) == key_run(s2, extent, k));
    } else {
        let k1 = hilbert_key(extent, s1.last().index_geom);
        let k2 = hilbert_key(extent, s2.last().index_geom);
        if k1 < k2 {
            assert forall|i: int| 0 <= i < s1.len() implies hilbert_key(
                extent,
                #[trigger] s1[i].index_geom,
            ) < k2 by {
                if i < s1.len() - 1 {
                    assert(hilbert_key(extent, s1[i].index_geom) <= hilbert_key(extent, s1[s1.len() - 1].index_geom));
                }
            }
            lemma_key_run_beyond(s1, extent, k2);
            lemma_key_run_drop_last(s2, extent, k2);
            assert(key_run(s1, extent, k2) == key_run(s2, extent, k2));
        } else if k2 < k1 {
            assert forall|i: int| 0 <= i < s2.len() implies hilbert_key(
                extent,
                #[trigger] s2[i].index_geom,
            ) < k1 by {
                if i < s2.len() - 1 {
                    assert(hilbert_key(extent, s2[i].index_geom) <= hilbert_key(extent, s2[s2.len() - 1].index_geom));
                }
            }
            lemma_key_run_beyond(s2, extent, k1);
            lemma_key_run_drop_last(s1, extent, k1);
            assert(key_run(s1, extent, k1) == key_run(s2, extent, k1));
        } else {
            lemma_key_run_drop_last(s1, extent, k1);
            lemma_key_run_drop_last(s2, extent, k1);
            assert(key_run(s1, extent, k1) == key_run(s2, extent, k1));
            let r1 = key_run(s1.drop_last(), extent, k1);
            let r2 = key_run(s2.drop_last(), extent, k1);
            assert(r1.push(s1.last()) == r2.push(s2.last()));
            assert(r1 =~= r1.push(s1.last()).drop_last());
            assert(r2 =~= r2.push(s2.last()).drop_last());
            assert(s1.last() == r1.push(s1.last()).last());
            assert forall|k: u32| #[trigger] key_run(s1.drop_last(), extent, k) == key_run(
                s2.drop_last(),
                extent,
                k,
            ) by {
                lemma_key_run_drop_last(s1, extent, k);
                lemma_key_run_drop_last(s2, extent, k);
                assert(key_run(s1, extent, k) == key_run(s2, extent, k));
            }
            assert forall|i: int, j: int| 0 <= i < j < s1.drop_last().len() implies hilbert_key(
                extent,
                #[trigger] s1.drop_last()[i].index_geom,
            ) <= hilbert_key(extent, #[trigger] s1.drop_last()[j].index_geom) by {
                assert(hilbert_key(extent, s1[i].index_geom) <= hilbert_key(extent, s1[j].index_geom));
            }
            assert forall|i: int, j: int| 0 <= i < j < s2.drop_last().len() implies hilbert_key(
                extent,
                #[trigger] s2.drop_last()[i].index_geom,
            ) <= hilbert_key(extent, #[trigger] s2.drop_last()[j].index_geom) by {
                assert(hilbert_key(extent, s2[i].index_geom) <= hilbert_key(extent, s2[j].index_geom));
            }
            lemma_stable_sort_unique(s1.drop_last(), s2.drop_last(), extent);
            assert(s1 =~= s1.drop_last().push(s1.last()));
            assert(s2 =~= s2.drop_last().push(s2.last()));
        }
    }
}

/// Box `b` holds every point under node `p` of layer `k`.
pub open spec fn node_holds<T>(items: Seq<IndexItem<T>>, b: BBox, k: nat, p: nat) -> bool {
    forall|i: int|
        node_lo(items.len(), k, p) <= i < node_hi(items.len(), k, p) ==> b.spec_contains(
            #[trigger] items[i].index_geom,
        )
}

/// The box of the points under node `p` of layer `k`.
pub open spec fn node_extent<T>(items: Seq<IndexItem<T>>, k: nat, p: nat) -> BBox {
    extent_of(
        items.subrange(node_lo(items.len(), k, p) as int, node_hi(items.len(), k, p) as int),
    )
}

/// Each node of the layers below `layers` has as bound the box of the points
/// under it.
pub open spec fn bounds_exact<T>(
    items: Seq<IndexItem<T>>,
    offsets: Seq<usize>,
    bounds: Seq<BBox>,
    layers: int,
) -> bool {
    forall|k: int, p: int|
        0 <= k < layers && 0 <= p < layer_size(items.len(), k as nat) ==> #[trigger] bounds[offsets[k]
            + p] == node_extent(items, k as nat, p as nat)
}

/// A node's box holds every point under it.
pub proof fn lemma_node_extent_holds<T>(items: Seq<IndexItem<T>>, k: nat, p: nat)
    ensures
        node_holds(items, node_extent(items, k, p), k, p),
{
    lemma_runs_ordered(items.len(), k, p, p + 1);
    lemma_run_extent_holds(items, node_lo(items.len(), k, p) as int, node_hi(items.len(), k, p) as int);
}

/// Relies on `slice::sort_by_cached_key`: it reorders the slice, keeping every
/// element once, into ascending order of the key that the closure computes; the
/// sort is stable, so elements of equal key keep their order.
#[verifier::external_body]
fn sort_by_hilbert_key<T>(items: &mut Vec<IndexItem<T>>, extent: &BBox)
    ensures
        final(items)@.to_multiset() == old(items)@.to_multiset(),
        sorted_by_key(final(items)@, *extent),
        keeps_key_order(old(items)@, final(items)@, *extent),
{
    items.sort_by_cached_key(|e| hilbert_key_of(extent, &e.index_geom));
}

/// The size of layer `layer` in the flat node array.
fn get_layer_size(layer: usize, layer_start_index: &Vec<usize>) -> (r: usize)
    requires
        layer + 1 < layer_start_index.len(),
        layer_start_index[layer as int] <= layer_start_index[layer + 1],
    ensures
        r == layer_start_index[layer + 1] - layer_start_index[layer as int],
{
    layer_start_index[layer + 1] - layer_start_index[layer]
}

impl<T> HPRTreeBuilder<T> {
    /// The entries, in insertion order until they are sorted.
    pub closed spec fn spec_items(&self) -> Seq<IndexItem<T>> {
        self.items@
    }

    /// The running extent.
    pub closed spec fn spec_extent(&self) -> BBox {
        self.extent
    }

    /// The extent is the box of the entries' points.
    pub open spec fn wf(&self) -> bool {
        self.spec_extent() == extent_of(self.spec_items())
    }

    /// A builder with no entries, with room for `size` of them.
    pub fn new(size: usize) -> (r: Self)
        ensures
            r.wf(),
            r.spec_items() == Seq::<IndexItem<T>>::empty(),
            r.spec_extent() == BBox::empty(),
    {
        HPRTreeBuilder { items: Vec::with_capacity(size), extent: BBox::default() }
    }

    /// Adds `item` under the point `geom`, and widens the extent to hold it.
    pub fn insert(&mut self, item: T, geom: Point)
        requires
            old(self).wf(),
        ensures
            final(self).wf(),
            final(self).spec_items() == old(self).spec_items().push(
                IndexItem { index_geom: geom, item },
            ),
            final(self).spec_extent() == old(self).spec_extent().union(geom.as_box()),
    {
        self.extent.expand_to_include_point(&geom);
        self.items.push(IndexItem { index_geom: geom, item });
        assert(self.items@.drop_last() =~= old(self).items@);
    }

    /// The number of entries.
    pub fn len(&self) -> (r: usize)
        ensures
            r == self.spec_items().len(),
    {
        self.items.len()
    }

    /// Whether there is no entry.
    pub fn is_empty(&self) -> (r: bool)
        ensures
            r == (self.spec_items().len() == 0),
    {
        self.items.len() == 0
    }

    /// The extent of the entries inserted so far.
    pub fn extent(&self) -> (r: BBox)
        ensures
            r == self.spec_extent(),
    {
        self.extent
    }

    /// Sorts the entries by the Hilbert key of their point over the current
    /// extent, in preparation for [`HPRTreeBuilder::build_sorted`]. Entries of one
    /// key keep their order.
    pub fn sort_items(&mut self)
        requires
            old(self).wf(),
        ensures
            final(self).wf(),
            final(self).spec_items().to_multiset() == old(self).spec_items().to_multiset(),
            final(self).spec_extent() == old(self).spec_extent(),
            sorted_by_key(final(self).spec_items(), final(self).spec_extent()),
            keeps_key_order(old(self).spec_items(), final(self).spec_items(), final(self).spec_extent()),
    {
        sort_by_hilbert_key(&mut self.items, &self.extent);
        proof {
            lemma_extent_permutation(self.items@, old(self).items@);
        }
    }

    /// The offsets at which each layer starts in the flat node array, closed by
    /// the node count.
    fn compute_layer_start_indices(&self) -> (r: Vec<usize>)
        requires
            self.items.len() >= NODE_CAPACITY,
        ensures
            layer_offsets_of(self.items.len() as nat, r@),
            forall|k: int| 0 <= k < r.len() ==> #[trigger] r[k] <= r[r.len() - 1],
    {
        let ghost n = self.items.len() as nat;
        let mut item_count = self.items.len();
        let mut layer_start_index: Vec<usize> = Vec::new();
        let mut index: usize = 0;
        layer_start_index.push(index);
        while item_count > 1
            invariant
                n == self.items.len(),
                n >= 16,
                layer_start_index.len() >= 1,
                layer_start_index[0] == 0,
                index == layer_start_index[layer_start_index.len() - 1],
                forall|k: int|
                    0 <= k < layer_start_index.len() - 1 ==> #[trigger] layer_step(
                        n,
                        layer_start_index@,
                        k,
                    ),
                forall|k: int|
                    0 <= k < layer_start_index.len() ==> #[trigger] layer_start_index[k] <= index,
                item_count == if layer_start_index.len() == 1 {
                    n
                } else {
                    layer_size(n, (layer_start_index.len() - 2) as nat)
                },
                item_count >= 1,
                index + item_count <= n,
                layer_start_index.len() >= 3 ==> layer_size(
                    n,
                    (layer_start_index.len() - 3) as nat,
                ) > 1,
            decreases item_count,
        {
            proof {
                lemma_layer_shrinks(item_count as nat);
            }
            let next = item_count / NODE_CAPACITY + if item_count % NODE_CAPACITY != 0 {
                1
            } else {
                0
            };
            assert(next == ceil16(item_count as nat));
            assert(next == layer_size(n, (layer_start_index.len() - 1) as nat));
            index = index + next;
            let ghost before = layer_start_index@;
            layer_start_index.push(index);
            assert forall|k: int|
                0 <= k < layer_start_index.len() - 1 implies #[trigger] layer_step(
                n,
                layer_start_index@,
                k,
            ) by {
                if k < before.len() - 1 {
                    assert(layer_step(n, before, k));
                }
            }
            item_count = next;
        }
        layer_start_index
    }

    /// Pushes the bound of every leaf: the box of its up to `NODE_CAPACITY` points.
    fn compute_leaf_nodes(&self, layer_start_index: &Vec<usize>, node_bounds: &mut Vec<BBox>)
        requires
            self.items.len() >= NODE_CAPACITY,
            layer_offsets_of(self.items.len() as nat, layer_start_index@),
            old(node_bounds).len() == 0,
        ensures
            final(node_bounds).len() == layer_start_index[1],
            bounds_exact(self.items@, layer_start_index@, final(node_bounds)@, 1),
    {
        let ghost n = self.items.len() as nat;
        let ghost items = self.items@;
        assert(layer_step(n, layer_start_index@, 0));
        let leaf_count = layer_start_index[1];
        let mut i: usize = 0;
        while i < leaf_count
            invariant
                n == self.items.len(),
                items == self.items@,
                layer_offsets_of(n, layer_start_index@),
                leaf_count == layer_size(n, 0),
                i <= leaf_count,
                node_bounds.len() == i,
                forall|p: int|
                    0 <= p < i ==> #[trigger] node_bounds[p] == node_extent(items, 0, p as nat),
            decreases leaf_count - i,
        {
            proof {
                lemma_first_child_inside(n, i as nat);
                lemma_leaf_run(n, i as nat);
            }
            let start = NODE_CAPACITY * i;
            let remaining = self.items.len() - start;
            let mut bound = BBox::default();
            let mut j: usize = 0;
            proof {
                assert(items.subrange(start as int, start as int) =~= Seq::<IndexItem<T>>::empty());
            }
            while j < NODE_CAPACITY && j < remaining
                invariant
                    start == 16 * i,
                    start < n,
                    remaining == n - start,
                    n == self.items.len(),
                    items == self.items@,
                    j <= 16,
                    j <= remaining,
                    bound == extent_of(items.subrange(start as int, start + j)),
                decreases 16 - j,
            {
                proof {
                    lemma_extent_extend(items, start as int, start + j);
                }
                bound.expand_to_include_point(&self.items[start + j].index_geom);
                j += 1;
            }
            assert(bound == node_extent(items, 0, i as nat));
            let ghost before = node_bounds@;
            node_bounds.push(bound);
            assert forall|p: int| 0 <= p < i + 1 implies #[trigger] node_bounds[p] == node_extent(
                items,
                0,
                p as nat,
            ) by {
                if p < i {
                    assert(node_bounds[p] == before[p]);
                }
            }
            i += 1;
        }
        assert forall|k: int, p: int|
            0 <= k < 1 && 0 <= p < layer_size(n, k as nat) implies #[trigger] node_bounds@[layer_start_index@[k]
            + p] == node_extent(items, k as nat, p as nat) by {
            assert(k == 0);
        }
    }

    /// Pushes the bound of every node above the leaves, layer by layer: the union
    /// of the bounds of its up to `NODE_CAPACITY` children.
    fn compute_layer_nodes(&self, layer_start_index: &Vec<usize>, node_bounds: &mut Vec<BBox>)
        requires
            self.items.len() >= NODE_CAPACITY,
            layer_offsets_of(self.items.len() as nat, layer_start_index@),
            forall|k: int|
                0 <= k < layer_start_index.len() ==> #[trigger] layer_start_index[k]
                    <= layer_start_index[layer_start_index.len() - 1],
            old(node_bounds).len() == layer_start_index[1],
            bounds_exact(self.items@, layer_start_index@, old(node_bounds)@, 1),
        ensures
            final(node_bounds).len() == layer_start_index[layer_start_index.len() - 1],
            bounds_exact(
                self.items@,
                layer_start_index@,
                final(node_bounds)@,
                layer_start_index.len() - 1,
            ),
    {
        let ghost n = self.items.len() as nat;
        let ghost items = self.items@;
        let ghost offsets = layer_start_index@;
        let layers = layer_start_index.len() - 1;
        let mut i: usize = 1;
        while i < layers
            invariant
                n == self.items.len(),
                items == self.items@,
                offsets == layer_start_index@,
                layer_offsets_of(n, offsets),
                forall|k: int| 0 <= k < offsets.len() ==> #[trigger] offsets[k] <= offsets[offsets.len() - 1],
                layers == offsets.len() - 1,
                1 <= i <= layers,
                node_bounds.len() == offsets[i as int],
                bounds_exact(items, offsets, node_bounds@, i as int),
            decreases layers - i,
        {
            assert(layer_step(n, offsets, i as int));
            assert(layer_step(n, offsets, i - 1));
            let layer_start = layer_start_index[i];
            let layer_len = get_layer_size(i, layer_start_index);
            let child_layer_start = layer_start_index[i - 1];
            let child_layer_size = layer_start - child_layer_start;
            let ghost ck = (i - 1) as nat;
            let mut j: usize = 0;
            while j < layer_len
                invariant
                    n == self.items.len(),
                    items == self.items@,
                    offsets == layer_start_index@,
                    layer_offsets_of(n, offsets),
                    forall|k: int| 0 <= k < offsets.len() ==> #[trigger] offsets[k] <= offsets[offsets.len() - 1],
                    layers == offsets.len() - 1,
                    1 <= i < layers,
                    ck == i - 1,
                    layer_start == offsets[i as int],
                    child_layer_start == offsets[i - 1],
                    layer_start == child_layer_start + child_layer_size,
                    layer_len == layer_size(n, i as nat),
                    child_layer_size == layer_size(n, ck),
                    layer_len == ceil16(child_layer_size as nat),
                    j <= layer_len,
                    node_bounds.len() == layer_start + j,
                    bounds_exact(items, offsets, node_bounds@, i as int),
                    forall|p: int|
                        0 <= p < j ==> #[trigger] node_bounds[layer_start + p] == node_extent(
                            items,
                            i as nat,
                            p as nat,
                        ),
                decreases layer_len - j,
            {
                proof {
                    lemma_first_child_inside(child_layer_size as nat, j as nat);
                }
                let first_child = NODE_CAPACITY * j;
                let remaining = child_layer_size - first_child;
                let ghost lo = node_lo(n, ck, first_child as nat) as int;
                proof {
                    lemma_runs_ordered(n, ck, first_child as nat, first_child as nat);
                    assert(items.subrange(lo, lo) =~= Seq::<IndexItem<T>>::empty());
                }
                let mut bound = BBox::default();
                let mut c: usize = 0;
                while c < NODE_CAPACITY && c < remaining
                    invariant
                        n == self.items.len(),
                        items == self.items@,
                        offsets == layer_start_index@,
                        1 <= i < layers,
                        layers == offsets.len() - 1,
                        ck == i - 1,
                        child_layer_start == offsets[i - 1],
                        child_layer_size == layer_size(n, ck),
                        node_bounds.len() == layer_start + j,
                        layer_start == offsets[i as int],
                        layer_start == child_layer_start + child_layer_size,
                        bounds_exact(items, offsets, node_bounds@, i as int),
                        first_child == 16 * j,
                        first_child < child_layer_size,
                        remaining == child_layer_size - first_child,
                        lo == node_lo(n, ck, first_child as nat),
                        c <= 16,
                        c <= remaining,
                        bound == extent_of(
                            items.subrange(lo, node_lo(n, ck, (first_child + c) as nat) as int),
                        ),
                    decreases 16 - c,
                {
                    let child = child_layer_start + first_child + c;
                    proof {
                        let q = (first_child + c) as nat;
                        assert(node_bounds[offsets[i - 1] + q] == node_extent(items, ck, q));
                        lemma_runs_ordered(n, ck, first_child as nat, q);
                        lemma_runs_ordered(n, ck, q, q + 1);
                        lemma_extent_split(
                            items,
                            lo,
                            node_lo(n, ck, q) as int,
                            node_lo(n, ck, q + 1) as int,
                        );
                    }
                    bound.expand_to_include(&node_bounds[child]);
                    c += 1;
                }
                proof {
                    lemma_child_bounds(n, ck, j as nat, 0);
                    if c < 16 {
                        lemma_past_layer_empty(n, ck, (first_child + c) as nat);
                        lemma_past_layer_empty(n, ck, first_child as nat + 16);
                    }
                }
                assert(bound == node_extent(items, i as nat, j as nat));
                let ghost before = node_bounds@;
                node_bounds.push(bound);
                assert forall|k: int, p: int|
                    0 <= k < i && 0 <= p < layer_size(n, k as nat) implies #[trigger] node_bounds@[offsets[k]
                    + p] == node_extent(items, k as nat, p as nat) by {
                    assert(layer_step(n, offsets, k));
                    assert(offsets[k + 1] <= offsets[i as int]) by {
                        lemma_offsets_ordered(n, offsets, k + 1, i as int);
                    }
                    assert(node_bounds[offsets[k] + p] == before[offsets[k] + p]);
                }
                assert forall|p: int| 0 <= p < j + 1 implies #[trigger] node_bounds[layer_start + p]
                    == node_extent(items, i as nat, p as nat) by {
                    if p < j {
                        assert(node_bounds[layer_start + p] == before[layer_start + p]);
                    }
                }
                j += 1;
            }
            assert forall|k: int, p: int|
                0 <= k < i + 1 && 0 <= p < layer_size(n, k as nat) implies #[trigger] node_bounds@[offsets[k]
                + p] == node_extent(items, k as nat, p as nat) by {
                if k == i {
                    assert(node_bounds[layer_start + p] == node_extent(items, i as nat, p as nat));
                }
            }
            i += 1;
        }
    }

    /// Packs the entries, in their current order, into a tree: the offsets of
    /// the layers, then the bounds of the leaves, then those of every layer above.
    /// Call [`HPRTreeBuilder::sort_items`] first, or use [`HPRTreeBuilder::build`].
    pub fn build_sorted(self) -> (r: HPRTree<T>)
        requires
            self.wf(),
        ensures
            r.wf(),
            r.spec_items() == self.spec_items(),
            r.spec_extent() == self.spec_extent(),
            r.spec_layer_start_index().len() == 0 <==> self.spec_items().len() < NODE_CAPACITY,
    {
        proof {
            lemma_extent_holds_all(self.items@);
        }
        if self.items.len() < NODE_CAPACITY {
            return HPRTree {
                items: self.items,
                extent: self.extent,
                layer_start_index: Vec::new(),
                node_bounds: Vec::new(),
            };
        }
        let layer_start_index = self.compute_layer_start_indices();
        let node_count = layer_start_index[layer_start_index.len() - 1];
        let mut node_bounds: Vec<BBox> = Vec::with_capacity(node_count);
        self.compute_leaf_nodes(&layer_start_index, &mut node_bounds);
        self.compute_layer_nodes(&layer_start_index, &mut node_bounds);
        HPRTree { items: self.items, extent: self.extent, layer_start_index, node_bounds }
    }

    /// Sorts the entries along the Hilbert curve and packs them into a tree. Fewer
    /// than `NODE_CAPACITY` entries make a tree without layers, which queries scan
    /// directly.
    pub fn build(self) -> (r: HPRTree<T>)
        requires
            self.wf(),
        ensures
            r.wf(),
            r.spec_items().to_multiset() == self.spec_items().to_multiset(),
            r.spec_extent() == self.spec_extent(),
            self.spec_items().len() < NODE_CAPACITY ==> r.spec_items() == self.spec_items(),
            self.spec_items().len() >= NODE_CAPACITY ==> sorted_by_key(
                r.spec_items(),
                r.spec_extent(),
            ),
            self.spec_items().len() >= NODE_CAPACITY ==> keeps_key_order(
                self.spec_items(),
                r.spec_items(),
                r.spec_extent(),
            ),
            r.spec_layer_start_index().len() == 0 <==> self.spec_items().len() < NODE_CAPACITY,
    {
        proof {
            lemma_extent_holds_all(self.items@);
        }
        if self.items.len() < NODE_CAPACITY {
            return HPRTree {
                items: self.items,
                extent: self.extent,
                layer_start_index: Vec::new(),
                node_bounds: Vec::new(),
            };
        }
        let ghost before = self.spec_items();
        let mut sorted = self;
        sorted.sort_items();
        proof {
            vstd::seq_lib::to_multiset_len(before);
            vstd::seq_lib::to_multiset_len(sorted.spec_items());
        }
        sorted.build_sorted()
    }
}

impl<T> HPRTree<T> {
    /// The entries, in the order in which the tree stores them.
    pub closed spec fn spec_items(&self) -> Seq<IndexItem<T>> {
        self.items@
    }

    /// The extent frozen at build time.
    pub closed spec fn spec_extent(&self) -> BBox {
        self.extent
    }

    /// Where each layer starts in the node array, closed by the node count; empty
    /// for a tree without layers.
    pub closed spec fn spec_layer_start_index(&self) -> Seq<usize> {
        self.layer_start_index@
    }

    /// The bound of each node, layer by layer from the leaves up.
    pub closed spec fn spec_node_bounds(&self) -> Seq<BBox> {
        self.node_bounds@
    }

    /// The extent is the box of all points; a tree of fewer than `NODE_CAPACITY` entries
    /// has no layers; otherwise the layers have the sizes of the packing and every
    /// node's bound is the box of the points under it.
    pub open spec fn wf(&self) -> bool {
        let n = self.spec_items().len();
        let offsets = self.spec_layer_start_index();
        &&& self.spec_extent() == extent_of(self.spec_items())
        &&& within(self.spec_items(), self.spec_extent())
        &&& if offsets.len() == 0 {
            &&& self.spec_node_bounds().len() == 0
            &&& n < NODE_CAPACITY
        } else {
            &&& n >= NODE_CAPACITY
            &&& layer_offsets_of(n, offsets)
            &&& forall|k: int| 0 <= k < offsets.len() ==> #[trigger] offsets[k] <= offsets[offsets.len() - 1]
            &&& self.spec_node_bounds().len() == offsets[offsets.len() - 1]
            &&& bounds_exact(self.spec_items(), offsets, self.spec_node_bounds(), offsets.len() - 1)
        }
    }
}

impl<T: Clone> HPRTree<T> {
    /// Scans the up to `NODE_CAPACITY` entries from `block_start` on.
    fn query_items(&self, block_start: usize, query_env: &BBox, candidate_list: &mut Vec<T>)
        requires
            self.wf(),
            block_start <= self.spec_items().len(),
        ensures
            appended(
                old(candidate_list)@,
                final(candidate_list)@,
                matching(
                    self.spec_items().subrange(
                        block_start as int,
                        if block_start + 16 < self.spec_items().len() {
                            block_start + 16
                        } else {
                            self.spec_items().len() as int
                        },
                    ),
                    *query_env,
                ),
            ),
    {
        let ghost items = self.items@;
        let ghost start = old(candidate_list)@;
        let n = self.items.len();
        let remaining = n - block_start;
        let mut i: usize = 0;
        proof {
            assert(items.subrange(block_start as int, block_start as int) =~= Seq::<IndexItem<T>>::empty());
            lemma_appended_nothing(start);
        }
        while i < NODE_CAPACITY && i < remaining
            invariant
                items == self.items@,
                n == items.len(),
                block_start <= n,
                remaining == n - block_start,
                i <= 16,
                i <= remaining,
                appended(
                    start,
                    candidate_list@,
                    matching(items.subrange(block_start as int, block_start + i), *query_env),
                ),
            decreases 16 - i,
        {
            let item_index = block_start + i;
            let current_item = &self.items[item_index];
            proof {
                lemma_matches_extend(items, block_start as int, item_index as int, *query_env);
            }
            if query_env.contains(&current_item.index_geom) {
                let found = current_item.item.clone();
                proof {
                    lemma_appended_push(
                        start,
                        candidate_list@,
                        matching(items.subrange(block_start as int, item_index as int), *query_env),
                        found,
                        *current_item,
                    );
                }
                candidate_list.push(found);
            }
            i += 1;
        }
    }

    /// Queries the children `block_offset ..` of a node, which lie in layer
    /// `layer_index`.
    fn query_node_children(
        &self,
        layer_index: usize,
        block_offset: usize,
        query_env: &BBox,
        candidate_list: &mut Vec<T>,
    )
        requires
            self.wf(),
            self.spec_layer_start_index().len() > 0,
            layer_index < self.spec_layer_start_index().len() - 1,
            block_offset < layer_size(self.spec_items().len(), layer_index as nat),
        ensures
            appended(
                old(candidate_list)@,
                final(candidate_list)@,
                matching(
                    self.spec_items().subrange(
                        node_lo(self.spec_items().len(), layer_index as nat, block_offset as nat) as int,
                        node_lo(self.spec_items().len(), layer_index as nat, block_offset as nat + 16) as int,
                    ),
                    *query_env,
                ),
            ),
        decreases 2 * layer_index + 1,
    {
        let ghost n = self.items.len() as nat;
        let ghost items = self.items@;
        let ghost k = layer_index as nat;
        let ghost start = old(candidate_list)@;
        let layer_count = self.layer_start_index.len();
        assert(layer_step(n, self.layer_start_index@, layer_index as int));
        let layer_start = self.layer_start_index[layer_index];
        let layer_end = self.layer_start_index[layer_index + 1];
        let remaining = layer_end - layer_start - block_offset;
        let mut i: usize = 0;
        proof {
            lemma_runs_ordered(n, k, block_offset as nat, block_offset as nat);
            let lo = node_lo(n, k, block_offset as nat) as int;
            assert(items.subrange(lo, lo) =~= Seq::<IndexItem<T>>::empty());
            lemma_appended_nothing(start);
        }
        while i < NODE_CAPACITY && i < remaining
            invariant
                self.wf(),
                n == self.spec_items().len(),
                items == self.spec_items(),
                self.spec_layer_start_index().len() > 0,
                layer_index < self.spec_layer_start_index().len() - 1,
                k == layer_index,
                remaining == layer_size(n, k) - block_offset,
                block_offset + remaining == layer_end - layer_start,
                i <= 16,
                i <= remaining,
                appended(
                    start,
                    candidate_list@,
                    matching(
                        items.subrange(
                            node_lo(n, k, block_offset as nat) as int,
                            node_lo(n, k, (block_offset + i) as nat) as int,
                        ),
                        *query_env,
                    ),
                ),
            decreases 16 - i,
        {
            let node_offset = block_offset + i;
            let ghost mid = candidate_list@;
            self.query_node(layer_index, node_offset, query_env, candidate_list);
            proof {
                lemma_runs_ordered(n, k, block_offset as nat, node_offset as nat);
                lemma_runs_ordered(n, k, node_offset as nat, node_offset as nat + 1);
                lemma_appended_runs(
                    items,
                    *query_env,
                    start,
                    mid,
                    candidate_list@,
                    node_lo(n, k, block_offset as nat) as int,
                    node_lo(n, k, node_offset as nat) as int,
                    node_lo(n, k, node_offset as nat + 1) as int,
                );
            }
            i += 1;
        }
        proof {
            if i < 16 {
                lemma_past_layer_empty(n, k, (block_offset + i) as nat);
                lemma_past_layer_empty(n, k, block_offset as nat + 16);
            }
        }
    }

    /// Queries node `node_offset` of layer `layer_index` and everything under it,
    /// unless the query box misses the node's bound.
    fn query_node(
        &self,
        layer_index: usize,
        node_offset: usize,
        query_env: &BBox,
        candidate_list: &mut Vec<T>,
    )
        requires
            self.wf(),
            self.spec_layer_start_index().len() > 0,
            layer_index < self.spec_layer_start_index().len() - 1,
            node_offset < layer_size(self.spec_items().len(), layer_index as nat),
        ensures
            appended(
                old(candidate_list)@,
                final(candidate_list)@,
                matching(
                    self.spec_items().subrange(
                        node_lo(self.spec_items().len(), layer_index as nat, node_offset as nat) as int,
                        node_hi(self.spec_items().len(), layer_index as nat, node_offset as nat) as int,
                    ),
                    *query_env,
                ),
            ),
        decreases 2 * layer_index,
    {
        let ghost n = self.items.len() as nat;
        let ghost items = self.items@;
        let ghost k = layer_index as nat;
        let ghost p = node_offset as nat;
        let ghost offsets = self.layer_start_index@;
        let layer_start = self.layer_start_index[layer_index];
        assert(layer_step(n, offsets, layer_index as int));
        assert(offsets[layer_index + 1] <= offsets[offsets.len() - 1]);
        let node_index = layer_start + node_offset;
        proof {
            lemma_runs_ordered(n, k, p, p + 1);
        }
        if !query_env.intersects(&self.node_bounds[node_index]) {
            proof {
                let lo = node_lo(n, k, p) as int;
                let hi = node_hi(n, k, p) as int;
                let run = items.subrange(lo, hi);
                assert(self.node_bounds@[offsets[layer_index as int] + p] == node_extent(items, k, p));
                lemma_node_extent_holds(items, k, p);
                assert forall|m: int| 0 <= m < run.len() implies !query_env.spec_contains(
                    #[trigger] run[m].index_geom,
                ) by {
                    assert(run[m] == items[lo + m]);
                    assert(self.node_bounds@[offsets[layer_index as int] + p].spec_contains(items[lo + m].index_geom));
                }
                lemma_matches_none(run, *query_env);
                lemma_appended_nothing(candidate_list@);
            }
            return;
        }
        if layer_index != 0 {
            proof {
                assert(layer_step(n, offsets, layer_index - 1));
                assert(layer_size(n, k) == ceil16(layer_size(n, (k - 1) as nat)));
                lemma_first_child_inside(layer_size(n, (k - 1) as nat), p);
                lemma_child_bounds(n, (k - 1) as nat, p, 0);
            }
            let child_node_offset = node_offset * NODE_CAPACITY;
            assert(child_node_offset == 16 * p);
            self.query_node_children(layer_index - 1, child_node_offset, query_env, candidate_list);
        } else {
            proof {
                lemma_first_child_inside(n, p);
                assert(n == self.items.len());
            }
            let child_node_offset = node_offset * NODE_CAPACITY;
            assert(child_node_offset == 16 * p);
            proof {
                lemma_leaf_run(n, p);
            }
            self.query_items(child_node_offset, query_env, candidate_list);
        }
    }

    /// Pushes onto `candidate_list` every stored item whose point lies in
    /// `query_env`, edges included, in the order in which the tree stores them.
    /// Reusing one list over many queries saves allocations.
    pub fn query_with_list(&self, query_env: &BBox, candidate_list: &mut Vec<T>)
        requires
            self.wf(),
        ensures
            appended(
                old(candidate_list)@,
                final(candidate_list)@,
                matching(self.spec_items(), *query_env),
            ),
    {
        let ghost n = self.items.len() as nat;
        let ghost items = self.items@;
        let ghost start = old(candidate_list)@;
        if !self.extent.intersects(query_env) {
            proof {
                lemma_matches_none(items, *query_env);
                lemma_appended_nothing(start);
            }
            return;
        }
        if self.layer_start_index.len() == 0 {
            self.query_items(0, query_env, candidate_list);
            proof {
                assert(items.subrange(0, n as int) =~= items);
            }
            return;
        }
        let layer_index = self.layer_start_index.len() - 2;
        let ghost k = layer_index as nat;
        let ghost offsets = self.layer_start_index@;
        assert(layer_step(n, offsets, layer_index as int));
        let top_len = get_layer_size(layer_index, &self.layer_start_index);
        proof {
            assert(items.subrange(0, 0) =~= Seq::<IndexItem<T>>::empty());
            lemma_appended_nothing(start);
            lemma_first_run(n, k);
        }
        let mut i: usize = 0;
        while i < top_len
            invariant
                self.wf(),
                n == self.spec_items().len(),
                items == self.spec_items(),
                self.spec_layer_start_index().len() > 0,
                layer_index == self.spec_layer_start_index().len() - 2,
                k == layer_index,
                top_len == layer_size(n, k),
                i <= top_len,
                appended(
                    start,
                    candidate_list@,
                    matching(items.subrange(0, node_lo(n, k, i as nat) as int), *query_env),
                ),
            decreases top_len - i,
        {
            let ghost mid = candidate_list@;
            self.query_node(layer_index, i, query_env, candidate_list);
            proof {
                lemma_runs_ordered(n, k, 0, i as nat);
                lemma_runs_ordered(n, k, i as nat, i as nat + 1);
                lemma_appended_runs(
                    items,
                    *query_env,
                    start,
                    mid,
                    candidate_list@,
                    0,
                    node_lo(n, k, i as nat) as int,
                    node_lo(n, k, i as nat + 1) as int,
                );
            }
            i += 1;
        }
        proof {
            lemma_past_layer_empty(n, k, 1);
            assert(items.subrange(0, n as int) =~= items);
        }
    }
}

impl<T: Clone> HPRTree<T> {
    /// A guess at the number of matches of `query_env`, to size the result list:
    /// the entry count times the share of the extent's grid positions that the
    /// query box covers, with half again for safety, and at most the entry count.
    fn expected_matches(&self, query_env: &BBox) -> (r: usize)
        ensures
            r <= self.spec_items().len(),
    {
        let n = self.items.len();
        let e = &self.extent;
        let lox: i64 = if query_env.minx > e.minx { query_env.minx as i64 } else { e.minx as i64 };
        let hix: i64 = if query_env.maxx < e.maxx { query_env.maxx as i64 } else { e.maxx as i64 };
        let loy: i64 = if query_env.miny > e.miny { query_env.miny as i64 } else { e.miny as i64 };
        let hiy: i64 = if query_env.maxy < e.maxy { query_env.maxy as i64 } else { e.maxy as i64 };
        if e.maxx < e.minx || e.maxy < e.miny || hix < lox || hiy < loy {
            return 0;
        }
        let ew: u128 = (e.width() + 1) as u128;
        let eh: u128 = (e.height() + 1) as u128;
        let ow: u128 = (hix - lox + 1) as u128;
        let oh: u128 = (hiy - loy + 1) as u128;
        assert(0 < ew * eh <= 0x1_0000_0000 * 0x1_0000_0000 && ow * oh <= ew * eh)
            by (nonlinear_arith)
            requires
                0 < ow <= ew <= 0x1_0000_0000,
                0 < oh <= eh <= 0x1_0000_0000,
        ;
        let extent_cells: u128 = ew * eh;
        let overlap_cells: u128 = ow * oh;
        let share: u128 = overlap_cells * 1536 / extent_cells;
        assert(share <= 1536) by (nonlinear_arith)
            requires
                share == (overlap_cells as int) * 1536 / (extent_cells as int),
                0 < extent_cells,
                overlap_cells <= extent_cells,
        ;
        assert((n as int) * (share as int) <= 0x1_0000_0000_0000_0000 * 1536) by (nonlinear_arith)
            requires
                n <= 0xFFFF_FFFF_FFFF_FFFF,
                share <= 1536,
        ;
        let guess: u128 = n as u128 * share / 1024;
        if guess > n as u128 {
            n
        } else {
            guess as usize
        }
    }

    /// Every stored item whose point lies in `query_env`, edges included, in the
    /// order in which the tree stores them. A query box that misses the extent
    /// returns at once, without reading a node.
    pub fn query(&self, query_env: &BBox) -> (r: Vec<T>)
        requires
            self.wf(),
        ensures
            clones_of(r@, matching(self.spec_items(), *query_env)),
            !self.spec_extent().spec_intersects(*query_env) ==> r@.len() == 0,
    {
        if !self.extent.intersects(query_env) {
            proof {
                lemma_matches_none(self.items@, *query_env);
            }
            return Vec::new();
        }
        let mut candidate_list = Vec::with_capacity(self.expected_matches(query_env));
        self.query_with_list(query_env, &mut candidate_list);
        proof {
            lemma_appended_from_empty(candidate_list@, matching(self.items@, *query_env));
        }
        candidate_list
    }
}

impl<T> HPRTree<T> {
    /// The number of entries.
    pub fn len(&self) -> (r: usize)
        ensures
            r == self.spec_items().len(),
    {
        self.items.len()
    }

    /// Whether there is no entry.
    pub fn is_empty(&self) -> (r: bool)
        ensures
            r == (self.spec_items().len() == 0),
    {
        self.items.len() == 0
    }

    /// The extent of all entries.
    pub fn extent(&self) -> (r: BBox)
        ensures
            r == self.spec_extent(),
    {
        self.extent
    }

    /// The bytes taken by the layer offsets and the node bounds.
    pub(crate) fn index_size_in_bytes(&self) -> (r: usize)
        ensures
            r == saturated(
                (self.spec_layer_start_index().len() * vstd::layout::size_of::<usize>()
                    + self.spec_node_bounds().len() * vstd::layout::size_of::<BBox>()) as int,
            ),
    {
        let offsets = saturating_mul(self.layer_start_index.len(), std::mem::size_of::<usize>());
        let bounds = saturating_mul(self.node_bounds.len(), std::mem::size_of::<BBox>());
        offsets.saturating_add(bounds)
    }

    /// The bytes taken by the tree's data: its entries, layer offsets and node
    /// bounds, and its extent.
    pub fn current_size_in_bytes(&self) -> (r: usize)
        ensures
            r == saturated(
                (self.spec_items().len() * vstd::layout::size_of::<IndexItem<T>>()
                    + self.spec_layer_start_index().len() * vstd::layout::size_of::<usize>()
                    + self.spec_node_bounds().len() * vstd::layout::size_of::<BBox>()
                    + vstd::layout::size_of::<BBox>()) as int,
            ),
    {
        let items = saturating_mul(self.items.len(), std::mem::size_of::<IndexItem<T>>());
        let offsets = saturating_mul(self.layer_start_index.len(), std::mem::size_of::<usize>());
        let bounds = saturating_mul(self.node_bounds.len(), std::mem::size_of::<BBox>());
        items.saturating_add(offsets).saturating_add(bounds).saturating_add(
            std::mem::size_of::<BBox>(),
        )
    }

    /// An estimate, without building, of the bytes that a tree of `elems` entries
    /// takes: the entries, a layer offset per power of the fan-out, the node bounds
    /// of a linear fit to measured trees, and the extent.
    pub fn projected_size_in_bytes(elems: usize) -> (r: usize)
        ensures
            r == saturated(
                (elems * vstd::layout::size_of::<IndexItem<T>>() + floor_log16(elems as nat)
                    * vstd::layout::size_of::<usize>() + projected_node_count(elems as nat)
                    * vstd::layout::size_of::<BBox>() + vstd::layout::size_of::<BBox>()) as int,
            ),
    {
        let items = saturating_mul(elems, std::mem::size_of::<IndexItem<T>>());
        let offsets = saturating_mul(floor_log16_of(elems), std::mem::size_of::<usize>());
        let bounds = saturating_mul(projected_node_count_of(elems), std::mem::size_of::<BBox>());
        items.saturating_add(offsets).saturating_add(bounds).saturating_add(
            std::mem::size_of::<BBox>(),
        )
    }
}

} // verus!
