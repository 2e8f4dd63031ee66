//! Stored entries, and what a query over a run of them should return.
use vstd::prelude::*;

use crate::geometry::{BBox, Point};

verus! {

/// An item together with the point under which it is indexed. The point is a
/// copy taken at insertion time.
#[derive(Clone)]
pub struct IndexItem<T> {
    pub index_geom: Point,
    pub item: T,
}

/// The smallest box holding every point of `items`; the empty box for no items.
pub open spec fn extent_of<T>(items: Seq<IndexItem<T>>) -> BBox
    decreases items.len(),
{
    if items.len() == 0 {
        BBox::empty()
    } else {
        extent_of(items.drop_last()).union(items.last().index_geom.as_box())
    }
}

/// The entries of `items` whose point lies in `q`, in their order: what a linear
/// scan that tests every entry returns.
pub open spec fn matching<T>(items: Seq<IndexItem<T>>, q: BBox) -> Seq<IndexItem<T>>
    decreases items.len(),
{
    if items.len() == 0 {
        Seq::empty()
    } else {
        let rest = matching(items.drop_last(), q);
        if q.spec_contains(items.last().index_geom) {
            rest.push(items.last())
        } else {
            rest
        }
    }
}

/// `out` holds, position by position, a clone of the item of each entry of `src`.
pub open spec fn clones_of<T: Clone>(out: Seq<T>, src: Seq<IndexItem<T>>) -> bool {
    &&& out.len() == src.len()
    &&& forall|k: int| 0 <= k < src.len() ==> cloned(src[k].item, #[trigger] out[k])
}

/// `new` is `old` followed by clones of the items of `src`.
#[verifier::opaque]
pub open spec fn appended<T: Clone>(old: Seq<T>, new: Seq<T>, src: Seq<IndexItem<T>>) -> bool {
    &&& new.len() == old.len() + src.len()
    &&& new.subrange(0, old.len() as int) == old
    &&& clones_of(new.subrange(old.len() as int, new.len() as int), src)
}

pub proof fn lemma_extent_holds_all<T>(items: Seq<IndexItem<T>>)
    ensures
        forall|i: int|
            0 <= i < items.len() ==> extent_of(items).spec_contains(#[trigger] items[i].index_geom),
    decreases items.len(),
{
    if items.len() > 0 {
        lemma_extent_holds_all(items.drop_last());
        assert forall|i: int| 0 <= i < items.len() implies extent_of(items).spec_contains(
            #[trigger] items[i].index_geom,
        ) by {
            if i < items.len() - 1 {
                assert(items.drop_last()[i] == items[i]);
            }
        }
    }
}

pub proof fn lemma_matches_concat<T>(a: Seq<IndexItem<T>>, b: Seq<IndexItem<T>>, q: BBox)
    ensures
        matching(a + b, q) == matching(a, q) + matching(b, q),
    decreases b.len(),
{
    if b.len() == 0 {
        assert(a + b =~= a);
        assert(matching(b, q) =~= Seq::<IndexItem<T>>::empty());
        assert(matching(a, q) + matching(b, q) =~= matching(a, q));
    } else {
        lemma_matches_concat(a, b.drop_last(), q);
        assert((a + b).drop_last() =~= a + b.drop_last());
        assert((a + b).last() == b.last());
        if q.spec_contains(b.last().index_geom) {
            assert(matching(a + b, q) =~= matching(a, q) + matching(b, q));
        } else {
            assert(matching(a + b, q) =~= matching(a, q) + matching(b, q));
        }
    }
}

/// Splitting a run of entries at `mid` splits what matching in it.
pub proof fn lemma_matches_split<T>(s: Seq<IndexItem<T>>, lo: int, mid: int, hi: int, q: BBox)
    requires
        0 <= lo <= mid <= hi <= s.len(),
    ensures
        matching(s.subrange(lo, hi), q) == matching(s.subrange(lo, mid), q) + matching(
            s.subrange(mid, hi),
            q,
        ),
{
    assert(s.subrange(lo, hi) =~= s.subrange(lo, mid) + s.subrange(mid, hi));
    lemma_matches_concat(s.subrange(lo, mid), s.subrange(mid, hi), q);
}

/// Extending a run by one entry adds that entry when it matching.
pub proof fn lemma_matches_extend<T>(s: Seq<IndexItem<T>>, lo: int, hi: int, q: BBox)
    requires
        0 <= lo <= hi < s.len(),
    ensures
        matching(s.subrange(lo, hi + 1), q) == if q.spec_contains(s[hi].index_geom) {
            matching(s.subrange(lo, hi), q).push(s[hi])
        } else {
            matching(s.subrange(lo, hi), q)
        },
{
    assert(s.subrange(lo, hi + 1).drop_last() =~= s.subrange(lo, hi));
}

/// A run in which no point lies in `q` has no match.
pub proof fn lemma_matches_none<T>(s: Seq<IndexItem<T>>, q: BBox)
    requires
        forall|i: int| 0 <= i < s.len() ==> !q.spec_contains(#[trigger] s[i].index_geom),
    ensures
        matching(s, q) == Seq::<IndexItem<T>>::empty(),
    decreases s.len(),
{
    if s.len() > 0 {
        assert forall|i: int| 0 <= i < s.drop_last().len() implies !q.spec_contains(
            #[trigger] s.drop_last()[i].index_geom,
        ) by {
            assert(s.drop_last()[i] == s[i]);
        }
        lemma_matches_none(s.drop_last(), q);
        assert(!q.spec_contains(s[s.len() - 1].index_geom));
    }
}

/// A run in which every point lies in `q` matching whole.
pub proof fn lemma_matches_all<T>(s: Seq<IndexItem<T>>, q: BBox)
    requires
        forall|i: int| 0 <= i < s.len() ==> q.spec_contains(#[trigger] s[i].index_geom),
    ensures
        matching(s, q) == s,
    decreases s.len(),
{
    if s.len() > 0 {
        assert forall|i: int| 0 <= i < s.drop_last().len() implies q.spec_contains(
            #[trigger] s.drop_last()[i].index_geom,
        ) by {
            assert(s.drop_last()[i] == s[i]);
        }
        lemma_matches_all(s.drop_last(), q);
        assert(q.spec_contains(s[s.len() - 1].index_geom));
        assert(s.drop_last().push(s.last()) =~= s);
    }
}

/// How often an entry matching: as often as it is stored, if its point lies in `q`.
pub proof fn lemma_matches_count<T>(s: Seq<IndexItem<T>>, q: BBox, x: IndexItem<T>)
    ensures
        matching(s, q).to_multiset().count(x) == if q.spec_contains(x.index_geom) {
            s.to_multiset().count(x)
        } else {
            0
        },
    decreases s.len(),
{
    broadcast use vstd::seq_lib::group_to_multiset_ensures;

    if s.len() == 0 {
        assert(matching(s, q) =~= Seq::<IndexItem<T>>::empty());
    } else {
        lemma_matches_count(s.drop_last(), q, x);
        assert(s.drop_last().push(s.last()) =~= s);
        vstd::seq_lib::to_multiset_build(s.drop_last(), s.last());
        if q.spec_contains(s.last().index_geom) {
            vstd::seq_lib::to_multiset_build(matching(s.drop_last(), q), s.last());
        }
    }
}

/// Reordering the entries reorders what matching, and keeps it as a multiset.
pub proof fn lemma_matches_permutation<T>(s1: Seq<IndexItem<T>>, s2: Seq<IndexItem<T>>, q: BBox)
    requires
        s1.to_multiset() == s2.to_multiset(),
    ensures
        matching(s1, q).to_multiset() == matching(s2, q).to_multiset(),
{
    assert forall|x: IndexItem<T>|
        matching(s1, q).to_multiset().count(x) == matching(s2, q).to_multiset().count(x) by {
        lemma_matches_count(s1, q, x);
        lemma_matches_count(s2, q, x);
    }
    assert(matching(s1, q).to_multiset() =~= matching(s2, q).to_multiset());
}

} // verus!

verus! {

pub proof fn lemma_appended_nothing<T: Clone>(s: Seq<T>)
    ensures
        appended(s, s, Seq::<IndexItem<T>>::empty()),
{
    reveal(appended);
    assert(s.subrange(0, s.len() as int) =~= s);
}

pub proof fn lemma_appended_push<T: Clone>(
    old: Seq<T>,
    new: Seq<T>,
    src: Seq<IndexItem<T>>,
    c: T,
    e: IndexItem<T>,
)
    requires
        appended(old, new, src),
        cloned(e.item, c),
    ensures
        appended(old, new.push(c), src.push(e)),
{
    reveal(appended);
    let tail = new.push(c).subrange(old.len() as int, new.len() + 1 as int);
    assert(new.push(c).subrange(0, old.len() as int) =~= new.subrange(0, old.len() as int));
    assert forall|k: int| 0 <= k < src.push(e).len() implies cloned(
        src.push(e)[k].item,
        #[trigger] tail[k],
    ) by {
        if k < src.len() {
            assert(tail[k] == new.subrange(old.len() as int, new.len() as int)[k]);
        }
    }
}

pub proof fn lemma_appended_trans<T: Clone>(
    a: Seq<T>,
    b: Seq<T>,
    c: Seq<T>,
    s1: Seq<IndexItem<T>>,
    s2: Seq<IndexItem<T>>,
)
    requires
        appended(a, b, s1),
        appended(b, c, s2),
    ensures
        appended(a, c, s1 + s2),
{
    reveal(appended);
    assert(c.subrange(0, a.len() as int) =~= b.subrange(0, a.len() as int));
    let tail = c.subrange(a.len() as int, c.len() as int);
    assert forall|k: int| 0 <= k < (s1 + s2).len() implies cloned(
        (s1 + s2)[k].item,
        #[trigger] tail[k],
    ) by {
        if k < s1.len() {
            assert(tail[k] == b.subrange(a.len() as int, b.len() as int)[k]);
        } else {
            assert(tail[k] == c.subrange(b.len() as int, c.len() as int)[k - s1.len()]);
        }
    }
}

} // verus!

verus! {

/// Appending the matches of two adjacent runs appends the matches of their union.
pub proof fn lemma_appended_runs<T: Clone>(
    items: Seq<IndexItem<T>>,
    q: BBox,
    a: Seq<T>,
    b: Seq<T>,
    c: Seq<T>,
    lo: int,
    mid: int,
    hi: int,
)
    requires
        0 <= lo <= mid <= hi <= items.len(),
        appended(a, b, matching(items.subrange(lo, mid), q)),
        appended(b, c, matching(items.subrange(mid, hi), q)),
    ensures
        appended(a, c, matching(items.subrange(lo, hi), q)),
{
    lemma_matches_split(items, lo, mid, hi, q);
    lemma_appended_trans(
        a,
        b,
        c,
        matching(items.subrange(lo, mid), q),
        matching(items.subrange(mid, hi), q),
    );
}

/// Appending to an empty list leaves exactly the clones.
pub proof fn lemma_appended_from_empty<T: Clone>(new: Seq<T>, src: Seq<IndexItem<T>>)
    requires
        appended(Seq::<T>::empty(), new, src),
    ensures
        clones_of(new, src),
{
    reveal(appended);
    assert(new.subrange(0, new.len() as int) =~= new);
}

/// The extent of two runs one after the other is the union of their extents.
pub proof fn lemma_extent_concat<T>(a: Seq<IndexItem<T>>, b: Seq<IndexItem<T>>)
    ensures
        extent_of(a + b) == extent_of(a).union(extent_of(b)),
    decreases b.len(),
{
    if b.len() == 0 {
        assert(a + b =~= a);
    } else {
        lemma_extent_concat(a, b.drop_last());
        assert((a + b).drop_last() =~= a + b.drop_last());
        assert((a + b).last() == b.last());
    }
}

/// Splitting a run at `mid` splits its extent into a union.
pub proof fn lemma_extent_split<T>(s: Seq<IndexItem<T>>, lo: int, mid: int, hi: int)
    requires
        0 <= lo <= mid <= hi <= s.len(),
    ensures
        extent_of(s.subrange(lo, hi)) == extent_of(s.subrange(lo, mid)).union(
            extent_of(s.subrange(mid, hi)),
        ),
{
    assert(s.subrange(lo, hi) =~= s.subrange(lo, mid) + s.subrange(mid, hi));
    lemma_extent_concat(s.subrange(lo, mid), s.subrange(mid, hi));
}

/// Extending a run by one entry widens its extent by that entry's point.
pub proof fn lemma_extent_extend<T>(s: Seq<IndexItem<T>>, lo: int, hi: int)
    requires
        0 <= lo <= hi < s.len(),
    ensures
        extent_of(s.subrange(lo, hi + 1)) == extent_of(s.subrange(lo, hi)).union(
            s[hi].index_geom.as_box(),
        ),
{
    assert(s.subrange(lo, hi + 1).drop_last() =~= s.subrange(lo, hi));
}

/// The extent of a run holds the point of every entry of that run.
pub proof fn lemma_run_extent_holds<T>(s: Seq<IndexItem<T>>, lo: int, hi: int)
    requires
        0 <= lo <= hi <= s.len(),
    ensures
        forall|i: int|
            lo <= i < hi ==> extent_of(s.subrange(lo, hi)).spec_contains(#[trigger] s[i].index_geom),
{
    lemma_extent_holds_all(s.subrange(lo, hi));
    assert forall|i: int| lo <= i < hi implies extent_of(s.subrange(lo, hi)).spec_contains(
        #[trigger] s[i].index_geom,
    ) by {
        assert(s.subrange(lo, hi)[i - lo] == s[i]);
    }
}

/// Reordering entries keeps their extent.
pub proof fn lemma_extent_permutation<T>(s1: Seq<IndexItem<T>>, s2: Seq<IndexItem<T>>)
    requires
        s1.to_multiset() == s2.to_multiset(),
    ensures
        extent_of(s1) == extent_of(s2),
    decreases s1.len(),
{
    broadcast use vstd::seq_lib::group_to_multiset_ensures;

    if s1.len() == 0 {
        assert(s1.to_multiset().len() == 0);
        assert(s2.len() == 0);
        assert(s1 =~= s2);
    } else {
        let x = s1.last();
        assert(s1.to_multiset().count(x) > 0) by {
            assert(s1.contains(x));
        }
        assert(s2.contains(x));
        let j = choose|j: int| 0 <= j < s2.len() && s2[j] == x;
        vstd::seq_lib::to_multiset_remove(s1, s1.len() - 1);
        vstd::seq_lib::to_multiset_remove(s2, j);
        assert(s1.remove(s1.len() - 1) =~= s1.drop_last());
        lemma_extent_permutation(s1.drop_last(), s2.remove(j));
        let a = s2.subrange(0, j);
        let b = s2.subrange(j + 1, s2.len() as int);
        assert(s2 =~= a + seq![x] + b);
        assert(s2.remove(j) =~= a + b);
        lemma_extent_concat(a + seq![x], b);
        lemma_extent_concat(a, seq![x]);
        lemma_extent_concat(a, b);
        assert(seq![x].drop_last() =~= Seq::<IndexItem<T>>::empty());
        let xb = x.index_geom.as_box();
        assert(seq![x].last() == x);
        assert(extent_of(Seq::<IndexItem<T>>::empty()) == BBox::empty());
        assert(extent_of(seq![x]) == BBox::empty().union(xb));
        assert(extent_of(s2) == extent_of(a).union(BBox::empty().union(xb)).union(extent_of(b)));
        assert(extent_of(s2.remove(j)) == extent_of(a).union(extent_of(b)));
        assert(extent_of(s1) == extent_of(s1.drop_last()).union(xb));
    }
}

} // verus!
