//! A list that keeps its elements in insertion order and unlinks every element
//! that matches a predicate in one pass, without moving the others.
//!
//! The elements live in one dense array; a singly linked chain of indices into
//! that array gives the live elements and their order. Unlinking only rewrites
//! an index, so removal never shifts or drops the array's storage.
use vstd::prelude::*;

verus! {

struct Elem<T> {
    next: usize,
    elem: T,
}

/// An ordered list with removal by predicate.
pub struct RemoveList<T> {
    data: Vec<Elem<T>>,
    first: usize,
    size: usize,
    last: usize,
    /// The array positions of the live elements, in list order.
    chain: Ghost<Seq<int>>,
}

impl<T> RemoveList<T> {
    /// The live elements, in order.
    pub closed spec fn view(&self) -> Seq<T> {
        Seq::new(self.chain@.len(), |k: int| self.data@[self.chain@[k]].elem)
    }

    /// The chain runs through distinct positions of the array, in increasing
    /// order, from `first` to `last`, linked by `next`.
    pub closed spec fn wf(&self) -> bool {
        let chain = self.chain@;
        &&& chain.len() == self.size
        &&& self.size <= self.data@.len()
        &&& forall|k: int| 0 <= k < chain.len() ==> 0 <= #[trigger] chain[k] < self.data@.len()
        &&& forall|i: int, j: int| 0 <= i < j < chain.len() ==> #[trigger] chain[i] < #[trigger] chain[j]
        &&& chain.len() > 0 ==> self.first == chain[0] && self.last == chain[chain.len() - 1]
        &&& forall|k: int|
            0 <= k < chain.len() - 1 ==> #[trigger] self.data@[chain[k]].next == chain[k + 1]
    }

    /// An empty list with room for `capacity` elements.
    pub fn new(capacity: usize) -> (r: Self)
        ensures
            r.wf(),
            r.view() == Seq::<T>::empty(),
    {
        let r = RemoveList {
            data: Vec::with_capacity(capacity),
            first: 0,
            size: 0,
            last: 0,
            chain: Ghost(Seq::empty()),
        };
        assert(r.view() =~= Seq::<T>::empty());
        r
    }

    /// Appends `elem` at the end.
    pub fn push(&mut self, elem: T)
        requires
            old(self).wf(),
        ensures
            final(self).wf(),
            final(self).view() == old(self).view().push(elem),
    {
        let index = self.data.len();
        self.data.push(Elem { next: 0, elem });
        let grown = self.data.len();
        assert(grown == index + 1);
        if self.size > 0 {
            let last = self.last;
            self.data[last].next = index;
        } else {
            self.first = index;
        }
        self.last = index;
        self.size = self.size + 1;
        self.chain = Ghost(self.chain@.push(index as int));
        proof {
            let chain = self.chain@;
            let before = old(self).chain@;
            assert forall|k: int| 0 <= k < chain.len() - 1 implies #[trigger] self.data@[chain[k]].next
                == chain[k + 1] by {
                if k < before.len() - 1 {
                    assert(before[k] < before[before.len() - 1]);
                    assert(old(self).data@[before[k]].next == before[k + 1]);
                }
            }
            assert(self.view() =~= old(self).view().push(elem));
        }
    }

    /// Whether the list holds no element.
    pub fn is_empty(&self) -> (r: bool)
        requires
            self.wf(),
        ensures
            r == (self.view().len() == 0),
    {
        self.size == 0
    }

    /// The number of elements.
    pub fn size(&self) -> (r: usize)
        requires
            self.wf(),
        ensures
            r == self.view().len(),
    {
        self.size
    }

    /// Unlinks every element for which `predicate` returns true; the others keep
    /// their order. The predicate must answer the same for the same element.
    pub fn remove_if<F: Fn(&T) -> bool>(&mut self, predicate: F)
        requires
            old(self).wf(),
            forall|t: T| #[trigger] predicate.requires((&t,)),
            forall|t: T, a: bool, b: bool|
                #[trigger] predicate.ensures((&t,), a) && #[trigger] predicate.ensures((&t,), b)
                    ==> a == b,
        ensures
            final(self).wf(),
            final(self).view() == old(self).view().filter(
                |t: T| !predicate.ensures((&t,), true),
            ),
    {
        let ghost old_chain = self.chain@;
        let ghost old_view = old(self).view();
        let ghost keep = |t: T| !predicate.ensures((&t,), true);
        let count = self.size;
        let mut curr = self.first;
        let mut k: usize = 0;
        let mut kept: usize = 0;
        let mut new_first: usize = 0;
        let mut new_last: usize = 0;
        let ghost mut new_chain: Seq<int> = Seq::empty();
        proof {
            reveal(Seq::filter);
            assert(old_view.subrange(0, 0).filter(keep) =~= Seq::<T>::empty());
            assert(Seq::new(0, |m: int| self.data@[new_chain[m]].elem) =~= Seq::<T>::empty());
        }
        while k < count
            invariant
                old(self).wf(),
                old_chain == old(self).chain@,
                old_view == old(self).view(),
                keep == (|t: T| !predicate.ensures((&t,), true)),
                forall|t: T| #[trigger] predicate.requires((&t,)),
                forall|t: T, a: bool, b: bool|
                    #[trigger] predicate.ensures((&t,), a) && #[trigger] predicate.ensures((&t,), b)
                        ==> a == b,
                count == old_chain.len(),
                self.data@.len() == old(self).data@.len(),
                forall|i: int|
                    0 <= i < self.data@.len() ==> #[trigger] self.data@[i].elem == old(
                        self,
                    ).data@[i].elem,
                k <= count,
                k < count ==> curr == old_chain[k as int],
                forall|j: int|
                    k <= j < count - 1 ==> #[trigger] self.data@[old_chain[j]].next == old_chain[j
                        + 1],
                new_chain.len() == kept,
                kept <= k,
                forall|m: int| 0 <= m < kept ==> 0 <= #[trigger] new_chain[m] < self.data@.len(),
                forall|i: int, j: int| 0 <= i < j < kept ==> #[trigger] new_chain[i] < #[trigger] new_chain[j],
                k < count ==> forall|m: int| 0 <= m < kept ==> #[trigger] new_chain[m] < old_chain[k as int],
                kept > 0 ==> new_first == new_chain[0] && new_last == new_chain[kept - 1],
                forall|m: int|
                    0 <= m < kept - 1 ==> #[trigger] self.data@[new_chain[m]].next == new_chain[m + 1],
                Seq::new(kept as nat, |m: int| self.data@[new_chain[m]].elem) == old_view.subrange(
                    0,
                    k as int,
                ).filter(keep),
            decreases count - k,
        {
            let ghost data_before = self.data@;
            let ghost chain_before = new_chain;
            let next = self.data[curr].next;
            let remove = predicate(&self.data[curr].elem);
            proof {
                assert(old_view[k as int] == self.data@[curr as int].elem);
                reveal(Seq::filter);
                assert(old_view.subrange(0, k + 1).drop_last() =~= old_view.subrange(0, k as int));
                assert(keep(self.data@[curr as int].elem) == !remove);
            }
            if !remove {
                if kept > 0 {
                    self.data[new_last].next = curr;
                } else {
                    new_first = curr;
                }
                new_last = curr;
                kept = kept + 1;
                proof {
                    new_chain = new_chain.push(curr as int);
                }
            }
            proof {
                assert forall|i: int| 0 <= i < self.data@.len() implies #[trigger] self.data@[i].elem
                    == old(self).data@[i].elem by {
                    assert(self.data@[i].elem == data_before[i].elem);
                }
                assert forall|j: int| k + 1 <= j < count - 1 implies #[trigger] self.data@[old_chain[j]].next
                    == old_chain[j + 1] by {
                    assert(old_chain[k as int] < old_chain[j]);
                    assert(data_before[old_chain[j]].next == old_chain[j + 1]);
                }
                assert forall|m: int| 0 <= m < kept - 1 implies #[trigger] self.data@[new_chain[m]].next
                    == new_chain[m + 1] by {
                    if m < chain_before.len() - 1 {
                        assert(chain_before[m] < chain_before[chain_before.len() - 1]);
                        assert(data_before[chain_before[m]].next == chain_before[m + 1]);
                    }
                }
                if k + 1 < count {
                    assert(old_chain[k as int] < old_chain[k + 1]);
                }
                assert(Seq::new(kept as nat, |m: int| self.data@[new_chain[m]].elem)
                    =~= old_view.subrange(0, k + 1).filter(keep));
            }
            k = k + 1;
            curr = next;
        }
        self.first = new_first;
        self.last = new_last;
        self.size = kept;
        self.chain = Ghost(new_chain);
        proof {
            assert(old_view.subrange(0, count as int) =~= old_view);
            assert(self.view() =~= Seq::new(kept as nat, |m: int| self.data@[new_chain[m]].elem));
        }
    }

    /// Calls `f` on each element, in order.
    pub fn for_each<F: Fn(&T)>(&self, f: F)
        requires
            self.wf(),
            forall|t: T| #[trigger] f.requires((&t,)),
    {
        let mut current = self.first;
        let mut k: usize = 0;
        while k < self.size
            invariant
                self.wf(),
                forall|t: T| #[trigger] f.requires((&t,)),
                k <= self.size,
                k < self.size ==> current == self.chain@[k as int],
            decreases self.size - k,
        {
            f(&self.data[current].elem);
            current = self.data[current].next;
            k = k + 1;
        }
    }
}

} // verus!
