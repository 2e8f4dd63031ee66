//! What holds of every tree that the builder makes, stated over the models that
//! the builder's and the tree's contracts use.
use vstd::prelude::*;

use crate::geometry::{BBox, Point};
use crate::hprtree::{
    HPRTree, HPRTreeBuilder, keeps_key_order, key_run, lemma_stable_sort_unique, sorted_by_key,
};
use crate::hprtree_wrapping::{HPRTreeWrapping, HPRTreeWrappingBuilder};
use crate::layers::NODE_CAPACITY;
use crate::index_item::{
    IndexItem, clones_of, lemma_matches_all, lemma_matches_none, lemma_matches_permutation, matching,
};

verus! {

/// Tree `t` was built from the entries of builder `b`, as `HPRTreeBuilder::build`
/// and `HPRTreeBuilder::build_sorted` promise: it is well formed and holds the
/// same entries, in some order, under the same extent.
pub open spec fn built_from<T>(t: HPRTree<T>, b: HPRTreeBuilder<T>) -> bool {
    &&& t.wf()
    &&& t.spec_items().to_multiset() == b.spec_items().to_multiset()
    &&& t.spec_extent() == b.spec_extent()
}

/// A query of a built tree returns, as a multiset, what a linear scan that tests
/// every inserted entry against the query box returns. (`HPRTree::query` returns
/// clones of the items of `matching(t.spec_items(), q)`.)
pub proof fn query_agrees_with_linear_scan<T>(t: HPRTree<T>, b: HPRTreeBuilder<T>, q: BBox)
    requires
        built_from(t, b),
    ensures
        matching(t.spec_items(), q).to_multiset() == matching(b.spec_items(), q).to_multiset(),
{
    lemma_matches_permutation(t.spec_items(), b.spec_items(), q);
}

/// A query box that covers the extent returns every stored entry, each once, for
/// trees with and without layers.
pub proof fn query_covering_extent_returns_all<T>(t: HPRTree<T>, q: BBox)
    requires
        t.wf(),
        q.covers(t.spec_extent()),
    ensures
        matching(t.spec_items(), q) == t.spec_items(),
{
    let items = t.spec_items();
    assert forall|i: int| 0 <= i < items.len() implies q.spec_contains(
        #[trigger] items[i].index_geom,
    ) by {
        assert(t.spec_extent().spec_contains(items[i].index_geom));
    }
    lemma_matches_all(items, q);
}

/// A query box that misses the extent returns nothing.
pub proof fn query_missing_extent_returns_nothing<T>(t: HPRTree<T>, q: BBox)
    requires
        t.wf(),
        !t.spec_extent().spec_intersects(q),
    ensures
        matching(t.spec_items(), q).len() == 0,
{
    let items = t.spec_items();
    assert forall|i: int| 0 <= i < items.len() implies !q.spec_contains(
        #[trigger] items[i].index_geom,
    ) by {
        assert(t.spec_extent().spec_contains(items[i].index_geom));
    }
    lemma_matches_none(items, q);
}

/// Sorting first and then packing the sorted entries, or building directly, gives
/// trees whose queries return the same multiset. `s` is the builder `b` after
/// `HPRTreeBuilder::sort_items`; `t1` is built from `b`, `t2` from `s`.
pub proof fn presorted_build_answers_alike<T>(
    b: HPRTreeBuilder<T>,
    s: HPRTreeBuilder<T>,
    t1: HPRTree<T>,
    t2: HPRTree<T>,
    q: BBox,
)
    requires
        s.spec_items().to_multiset() == b.spec_items().to_multiset(),
        s.spec_extent() == b.spec_extent(),
        built_from(t1, b),
        built_from(t2, s),
    ensures
        matching(t1.spec_items(), q).to_multiset() == matching(t2.spec_items(), q).to_multiset(),
{
    lemma_matches_permutation(t1.spec_items(), t2.spec_items(), q);
}

/// Tree `t` is what `HPRTreeBuilder::build` makes of builder `b`, as its contract
/// states: built from `b`, in insertion order below `NODE_CAPACITY` entries, and
/// otherwise stably sorted by Hilbert key.
pub open spec fn packed_by_build<T>(t: HPRTree<T>, b: HPRTreeBuilder<T>) -> bool {
    &&& built_from(t, b)
    &&& b.spec_items().len() < NODE_CAPACITY ==> t.spec_items() == b.spec_items()
    &&& b.spec_items().len() >= NODE_CAPACITY ==> {
        &&& sorted_by_key(t.spec_items(), t.spec_extent())
        &&& keeps_key_order(b.spec_items(), t.spec_items(), t.spec_extent())
    }
}

/// Building the same entries, inserted in the same order, twice gives the same
/// stored sequence and extent, so every query returns clones of the same items
/// in the same order.
pub proof fn builds_of_same_entries_are_identical<T>(
    b1: HPRTreeBuilder<T>,
    b2: HPRTreeBuilder<T>,
    t1: HPRTree<T>,
    t2: HPRTree<T>,
)
    requires
        b1.wf(),
        b2.wf(),
        b1.spec_items() == b2.spec_items(),
        packed_by_build(t1, b1),
        packed_by_build(t2, b2),
    ensures
        t1.spec_items() == t2.spec_items(),
        t1.spec_extent() == t2.spec_extent(),
        forall|q: BBox| matching(t1.spec_items(), q) == matching(t2.spec_items(), q),
{
    if b1.spec_items().len() >= NODE_CAPACITY {
        let e = t1.spec_extent();
        assert forall|k: u32| #[trigger] key_run(t1.spec_items(), e, k) == key_run(
            t2.spec_items(),
            e,
            k,
        ) by {
            assert(key_run(t1.spec_items(), e, k) == key_run(b1.spec_items(), e, k));
            assert(key_run(t2.spec_items(), e, k) == key_run(b2.spec_items(), e, k));
        }
        lemma_stable_sort_unique(t1.spec_items(), t2.spec_items(), e);
    }
}

/// The same for the decoupled variant: two builds of the same insertions store
/// the same sequence under the same extent.
pub proof fn wrapping_builds_of_same_entries_are_identical<T>(
    b1: HPRTreeWrappingBuilder<T>,
    b2: HPRTreeWrappingBuilder<T>,
    t1: HPRTreeWrapping<T>,
    t2: HPRTreeWrapping<T>,
)
    requires
        b1.wf(),
        b2.wf(),
        b1.spec_items() == b2.spec_items(),
        t1.spec_items().to_multiset() == b1.spec_items().to_multiset(),
        t2.spec_items().to_multiset() == b2.spec_items().to_multiset(),
        t1.spec_extent() == b1.spec_extent(),
        t2.spec_extent() == b2.spec_extent(),
        b1.spec_items().len() < NODE_CAPACITY ==> t1.spec_items() == b1.spec_items(),
        b2.spec_items().len() < NODE_CAPACITY ==> t2.spec_items() == b2.spec_items(),
        b1.spec_items().len() >= NODE_CAPACITY ==> sorted_by_key(t1.spec_items(), t1.spec_extent())
            && keeps_key_order(b1.spec_items(), t1.spec_items(), t1.spec_extent()),
        b2.spec_items().len() >= NODE_CAPACITY ==> sorted_by_key(t2.spec_items(), t2.spec_extent())
            && keeps_key_order(b2.spec_items(), t2.spec_items(), t2.spec_extent()),
    ensures
        t1.spec_items() == t2.spec_items(),
        t1.spec_extent() == t2.spec_extent(),
        forall|q: BBox| matching(t1.spec_items(), q) == matching(t2.spec_items(), q),
{
    if b1.spec_items().len() >= NODE_CAPACITY {
        let e = t1.spec_extent();
        assert forall|k: u32| #[trigger] key_run(t1.spec_items(), e, k) == key_run(
            t2.spec_items(),
            e,
            k,
        ) by {
            assert(key_run(t1.spec_items(), e, k) == key_run(b1.spec_items(), e, k));
            assert(key_run(t2.spec_items(), e, k) == key_run(b2.spec_items(), e, k));
        }
        lemma_stable_sort_unique(t1.spec_items(), t2.spec_items(), e);
    }
}

/// A point on any of the four edges of a box lies in the box, so a query returns
/// the entries on its edges.
pub proof fn edges_are_inside(q: BBox, p: Point)
    requires
        q.minx <= q.maxx,
        q.miny <= q.maxy,
        ((p.x == q.minx || p.x == q.maxx) && q.miny <= p.y <= q.maxy) || ((p.y == q.miny || p.y
            == q.maxy) && q.minx <= p.x <= q.maxx),
    ensures
        q.spec_contains(p),
{
}

/// Every clone of a value of `T` equals it, as for integers and `bool`.
pub open spec fn clones_are_copies<T: Clone>() -> bool {
    forall|a: T, b: T| #[trigger] cloned(a, b) ==> a == b
}

/// The items of a run of entries, in order.
pub open spec fn items_of<T>(s: Seq<IndexItem<T>>) -> Seq<T> {
    s.map_values(|e: IndexItem<T>| e.item)
}

/// Reordering entries reorders their items.
pub proof fn lemma_items_permutation<T>(s1: Seq<IndexItem<T>>, s2: Seq<IndexItem<T>>)
    requires
        s1.to_multiset() == s2.to_multiset(),
    ensures
        items_of(s1).to_multiset() == items_of(s2).to_multiset(),
    decreases s1.len(),
{
    broadcast use vstd::seq_lib::group_to_multiset_ensures;
    broadcast use vstd::multiset::group_multiset_axioms;

    if s1.len() == 0 {
        assert(s1.to_multiset().len() == 0);
        assert(s2.len() == 0);
        assert(items_of(s1) =~= items_of(s2));
    } else {
        let x = s1.last();
        assert(s1.to_multiset().count(x) > 0) by {
            assert(s1.contains(x));
        }
        assert(s2.contains(x));
        let j = choose|j: int| 0 <= j < s2.len() && s2[j] == x;
        vstd::seq_lib::to_multiset_remove(s1, s1.len() - 1);
        vstd::seq_lib::to_multiset_remove(s2, j);
        assert(s1.remove(s1.len() - 1) =~= s1.drop_last());
        lemma_items_permutation(s1.drop_last(), s2.remove(j));
        assert(items_of(s1) =~= items_of(s1.drop_last()).push(x.item));
        vstd::seq_lib::to_multiset_build(items_of(s1.drop_last()), x.item);
        assert(items_of(s2.remove(j)) =~= items_of(s2).remove(j));
        vstd::seq_lib::to_multiset_remove(items_of(s2), j);
        assert(items_of(s2).contains(x.item)) by {
            assert(items_of(s2)[j] == x.item);
        }
        let m = items_of(s2).to_multiset();
        assert(m.remove(x.item).insert(x.item) =~= m);
    }
}

/// A list holding clones of the items of `src`, for items whose clones equal
/// them, holds exactly those items.
pub proof fn clones_of_copies_are_the_items<T: Clone>(r: Seq<T>, src: Seq<IndexItem<T>>)
    requires
        clones_are_copies::<T>(),
        clones_of(r, src),
    ensures
        r == items_of(src),
{
    assert forall|k: int| 0 <= k < r.len() implies r[k] == items_of(src)[k] by {
        assert(cloned(src[k].item, r[k]));
    }
    assert(r =~= items_of(src));
}

/// The containment oracle on what `query` returns: for items whose clones equal
/// them, the result `r` of a query of a built tree holds the items of the
/// inserted entries whose point lies in `q`, each as often as a linear scan finds
/// it.
pub proof fn query_result_is_linear_scan<T: Clone>(
    t: HPRTree<T>,
    b: HPRTreeBuilder<T>,
    q: BBox,
    r: Seq<T>,
)
    requires
        built_from(t, b),
        clones_are_copies::<T>(),
        clones_of(r, matching(t.spec_items(), q)),
    ensures
        r.to_multiset() == items_of(matching(b.spec_items(), q)).to_multiset(),
{
    clones_of_copies_are_the_items(r, matching(t.spec_items(), q));
    lemma_matches_permutation(t.spec_items(), b.spec_items(), q);
    lemma_items_permutation(matching(t.spec_items(), q), matching(b.spec_items(), q));
}

/// Totality on what `query` returns: for items whose clones equal them, a query
/// box covering the extent returns every inserted item, as often as inserted.
pub proof fn query_result_covering_extent_is_everything<T: Clone>(
    t: HPRTree<T>,
    b: HPRTreeBuilder<T>,
    q: BBox,
    r: Seq<T>,
)
    requires
        built_from(t, b),
        q.covers(t.spec_extent()),
        clones_are_copies::<T>(),
        clones_of(r, matching(t.spec_items(), q)),
    ensures
        r.len() == b.spec_items().len(),
        r.to_multiset() == items_of(b.spec_items()).to_multiset(),
{
    query_covering_extent_returns_all(t, q);
    clones_of_copies_are_the_items(r, matching(t.spec_items(), q));
    lemma_items_permutation(t.spec_items(), b.spec_items());
    vstd::seq_lib::to_multiset_len(t.spec_items());
    vstd::seq_lib::to_multiset_len(b.spec_items());
}

/// Presort equivalence on what `query` returns: for items whose clones equal
/// them, the trees built directly (`t1`) and after `sort_items` (`t2`) answer a
/// query with the same multiset of items.
pub proof fn presorted_query_results_alike<T: Clone>(
    b: HPRTreeBuilder<T>,
    s: HPRTreeBuilder<T>,
    t1: HPRTree<T>,
    t2: HPRTree<T>,
    q: BBox,
    r1: Seq<T>,
    r2: Seq<T>,
)
    requires
        s.spec_items().to_multiset() == b.spec_items().to_multiset(),
        s.spec_extent() == b.spec_extent(),
        built_from(t1, b),
        built_from(t2, s),
        clones_are_copies::<T>(),
        clones_of(r1, matching(t1.spec_items(), q)),
        clones_of(r2, matching(t2.spec_items(), q)),
    ensures
        r1.to_multiset() == r2.to_multiset(),
{
    query_result_is_linear_scan(t1, b, q, r1);
    query_result_is_linear_scan(t2, s, q, r2);
    lemma_matches_permutation(b.spec_items(), s.spec_items(), q);
    lemma_items_permutation(matching(b.spec_items(), q), matching(s.spec_items(), q));
}

} // verus!

verus! {

/// The laws on query results apply to integer items: a clone of a `u64` is
/// the same `u64`.
pub proof fn u64_clones_are_copies()
    ensures
        clones_are_copies::<u64>(),
{
}

} // verus!
