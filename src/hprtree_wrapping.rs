//! The decoupled variant of the index: the same builder, bulk loader and query
//! traversal, for items that are inserted together with a point they do not
//! carry themselves. Queries return the items alone.
use vstd::prelude::*;

use crate::footprint::{
    floor_log16, floor_log16_of, projected_node_count, projected_node_count_of, saturated,
    saturating_mul,
};
use crate::geometry::{BBox, Point};
use crate::hprtree::{HPRTree, HPRTreeBuilder, keeps_key_order, sorted_by_key};
use crate::index_item::{IndexItem, appended, clones_of, matching};
use crate::layers::NODE_CAPACITY;

verus! {

/// The builder for the decoupled index variant.
#[derive(Clone)]
pub struct HPRTreeWrappingBuilder<T> {
    inner: HPRTreeBuilder<T>,
}

/// The decoupled index variant: a packed tree over (item, point) pairs whose
/// queries return the items.
pub struct HPRTreeWrapping<T> {
    inner: HPRTree<T>,
}

impl<T> HPRTreeWrappingBuilder<T> {
    /// The builder that does the work.
    pub closed spec fn spec_builder(&self) -> HPRTreeBuilder<T> {
        self.inner
    }

    /// The entries, in insertion order until they are sorted.
    pub open spec fn spec_items(&self) -> Seq<IndexItem<T>> {
        self.spec_builder().spec_items()
    }

    /// The running extent.
    pub open spec fn spec_extent(&self) -> BBox {
        self.spec_builder().spec_extent()
    }

    pub open spec fn wf(&self) -> bool {
        self.spec_builder().wf()
    }

    /// A builder with no entries, with room for `size` of them.
    pub fn new(size: usize) -> (r: Self)
        ensures
            r.wf(),
            r.spec_items() == Seq::<IndexItem<T>>::empty(),
            r.spec_extent() == BBox::empty(),
    {
        HPRTreeWrappingBuilder { inner: HPRTreeBuilder::new(size) }
    }

    /// Adds `item` under the point `geom`, and widens the extent to hold it.
    pub fn insert(&mut self, item: T, geom: Point)
        requires
            old(self).wf(),
        ensures
            final(self).wf(),
            final(self).spec_items() == old(self).spec_items().push(
                IndexItem { index_geom: geom, item },
            ),
            final(self).spec_extent() == old(self).spec_extent().union(geom.as_box()),
    {
        self.inner.insert(item, geom);
    }

    /// Sorts the entries along the Hilbert curve and packs them into a tree.
    pub fn build(self) -> (r: HPRTreeWrapping<T>)
        requires
            self.wf(),
        ensures
            r.wf(),
            r.spec_items().to_multiset() == self.spec_items().to_multiset(),
            r.spec_extent() == self.spec_extent(),
            self.spec_items().len() < NODE_CAPACITY ==> r.spec_items() == self.spec_items(),
            self.spec_items().len() >= NODE_CAPACITY ==> sorted_by_key(
                r.spec_items(),
                r.spec_extent(),
            ),
            self.spec_items().len() >= NODE_CAPACITY ==> keeps_key_order(
                self.spec_items(),
                r.spec_items(),
                r.spec_extent(),
            ),
    {
        HPRTreeWrapping { inner: self.inner.build() }
    }

    /// Sorts the entries by the Hilbert key of their point over the current
    /// extent, in preparation for [`HPRTreeWrappingBuilder::build_sorted`].
    pub fn sort_items(&mut self)
        requires
            old(self).wf(),
        ensures
            final(self).wf(),
            final(self).spec_items().to_multiset() == old(self).spec_items().to_multiset(),
            final(self).spec_extent() == old(self).spec_extent(),
            sorted_by_key(final(self).spec_items(), final(self).spec_extent()),
            keeps_key_order(old(self).spec_items(), final(self).spec_items(), final(self).spec_extent()),
    {
        self.inner.sort_items();
    }

    /// Packs the entries, in their current order, into a tree.
    pub fn build_sorted(self) -> (r: HPRTreeWrapping<T>)
        requires
            self.wf(),
        ensures
            r.wf(),
            r.spec_items() == self.spec_items(),
            r.spec_extent() == self.spec_extent(),
    {
        HPRTreeWrapping { inner: self.inner.build_sorted() }
    }

    /// The number of entries.
    pub fn len(&self) -> (r: usize)
        ensures
            r == self.spec_items().len(),
    {
        self.inner.len()
    }

    /// Whether there is no entry.
    pub fn is_empty(&self) -> (r: bool)
        ensures
            r == (self.spec_items().len() == 0),
    {
        self.inner.is_empty()
    }

    /// The extent of the entries inserted so far.
    pub fn extent(&self) -> (r: BBox)
        ensures
            r == self.spec_extent(),
    {
        self.inner.extent()
    }
}

impl<T> HPRTreeWrapping<T> {
    /// The tree that does the work.
    pub closed spec fn spec_tree(&self) -> HPRTree<T> {
        self.inner
    }

    /// The entries, in the order in which the tree stores them.
    pub open spec fn spec_items(&self) -> Seq<IndexItem<T>> {
        self.spec_tree().spec_items()
    }

    /// The extent frozen at build time.
    pub open spec fn spec_extent(&self) -> BBox {
        self.spec_tree().spec_extent()
    }

    pub open spec fn wf(&self) -> bool {
        self.spec_tree().wf()
    }

    /// The number of entries.
    pub fn len(&self) -> (r: usize)
        ensures
            r == self.spec_items().len(),
    {
        self.inner.len()
    }

    /// Whether there is no entry.
    pub fn is_empty(&self) -> (r: bool)
        ensures
            r == (self.spec_items().len() == 0),
    {
        self.inner.is_empty()
    }

    /// The extent of all entries.
    pub fn extent(&self) -> (r: BBox)
        ensures
            r == self.spec_extent(),
    {
        self.inner.extent()
    }

    /// The bytes taken by the tree: its items, layer offsets and node bounds,
    /// and the tree value itself.
    pub fn current_size_in_bytes(&self) -> (r: usize)
        ensures
            r == saturated(
                (self.spec_items().len() * vstd::layout::size_of::<T>()
                    + self.spec_tree().spec_layer_start_index().len()
                    * vstd::layout::size_of::<usize>()
                    + self.spec_tree().spec_node_bounds().len() * vstd::layout::size_of::<BBox>()
                    + vstd::layout::size_of::<HPRTreeWrapping<T>>()) as int,
            ),
    {
        let items = saturating_mul(self.inner.len(), std::mem::size_of::<T>());
        items.saturating_add(self.inner.index_size_in_bytes()).saturating_add(
            std::mem::size_of::<HPRTreeWrapping<T>>(),
        )
    }

    /// An estimate, without building, of the bytes that a tree of `elems` items
    /// takes: the items, a layer offset per power of the fan-out, the node bounds
    /// of a linear fit to measured trees, and the tree value itself.
    pub fn projected_size_in_bytes(elems: usize) -> (r: usize)
        ensures
            r == saturated(
                (elems * vstd::layout::size_of::<T>() + floor_log16(elems as nat)
                    * vstd::layout::size_of::<usize>() + projected_node_count(elems as nat)
                    * vstd::layout::size_of::<BBox>() + vstd::layout::size_of::<
                    HPRTreeWrapping<T>,
                >()) as int,
            ),
    {
        let items = saturating_mul(elems, std::mem::size_of::<T>());
        let offsets = saturating_mul(floor_log16_of(elems), std::mem::size_of::<usize>());
        let bounds = saturating_mul(projected_node_count_of(elems), std::mem::size_of::<BBox>());
        items.saturating_add(offsets).saturating_add(bounds).saturating_add(
            std::mem::size_of::<HPRTreeWrapping<T>>(),
        )
    }
}

impl<T: Clone> HPRTreeWrapping<T> {
    /// Every item whose point lies in `query_env`, edges included.
    pub fn query(&self, query_env: &BBox) -> (r: Vec<T>)
        requires
            self.wf(),
        ensures
            clones_of(r@, matching(self.spec_items(), *query_env)),
            !self.spec_extent().spec_intersects(*query_env) ==> r@.len() == 0,
    {
        self.inner.query(query_env)
    }

    /// Pushes onto `candidate_list` every item whose point lies in `query_env`.
    pub fn query_with_list(&self, query_env: &BBox, candidate_list: &mut Vec<T>)
        requires
            self.wf(),
        ensures
            appended(
                old(candidate_list)@,
                final(candidate_list)@,
                matching(self.spec_items(), *query_env),
            ),
    {
        self.inner.query_with_list(query_env, candidate_list)
    }
}

} // verus!
