//! Ranges of a list of data identifiers: rearrangements inside a range, and
//! the common rectangle of a range.

use crate::fixup::mbrs_of;
use crate::mbr::{
    all_compatible, box_ordered, lemma_common_holds, lemma_common_least, lemma_hull_holds,
    lemma_hull_least, lemma_hull_shape, lemma_within_both, lemma_within_transitive, spec_common,
    spec_hull, within, Bounds,
};
use crate::model::TreeView;
use crate::node::RecordId;
use vstd::prelude::*;

verus! {

/// `y` stands in `s` between `lo` and `hi`.
pub open spec fn in_range(s: Seq<RecordId>, lo: int, hi: int, y: RecordId) -> bool {
    exists|k: int| lo <= k < hi && #[trigger] s[k] == y
}

/// `b` is `a` with the members between `lo` and `hi` rearranged: outside
/// the range nothing has changed, and the range holds the same members.
pub open spec fn perm_in(a: Seq<RecordId>, b: Seq<RecordId>, lo: int, hi: int) -> bool {
    &&& a.len() == b.len()
    &&& 0 <= lo <= hi <= a.len()
    &&& forall|k: int| 0 <= k < a.len() && !(lo <= k < hi) ==> #[trigger] b[k] == a[k]
    &&& forall|y: RecordId| in_range(a, lo, hi, y) <==> in_range(b, lo, hi, y)
}

/// Every member names a data node that exists and whose rectangle lies
/// inside `bound`.
pub open spec fn ids_fit(t: TreeView, ids: Seq<RecordId>, bound: Seq<Bounds>) -> bool {
    forall|k: int|
        0 <= k < ids.len() ==> (#[trigger] ids[k]) is Data && ids[k].index() < t.data.len()
            && within(t.data[ids[k].index()].mbr, bound)
}

/// The common rectangle of the data nodes named between `lo` and `hi`.
pub open spec fn range_hull(t: TreeView, ids: Seq<RecordId>, lo: int, hi: int) -> Seq<Bounds> {
    spec_hull(mbrs_of(t, ids.subrange(lo, hi)))
}

/// A list is a rearrangement of itself.
pub proof fn lemma_perm_refl(a: Seq<RecordId>, lo: int, hi: int)
    requires
        0 <= lo <= hi <= a.len(),
    ensures
        perm_in(a, a, lo, hi),
{
}

/// A rearrangement of a rearrangement is one.
pub proof fn lemma_perm_trans(
    a: Seq<RecordId>,
    b: Seq<RecordId>,
    c: Seq<RecordId>,
    lo: int,
    hi: int,
)
    requires
        perm_in(a, b, lo, hi),
        perm_in(b, c, lo, hi),
    ensures
        perm_in(a, c, lo, hi),
{
    assert forall|k: int| 0 <= k < a.len() && !(lo <= k < hi) implies #[trigger] c[k] == a[k] by {
        assert(b[k] == a[k]);
    }
    assert forall|y: RecordId| in_range(a, lo, hi, y) <==> in_range(c, lo, hi, y) by {
        assert(in_range(a, lo, hi, y) <==> in_range(b, lo, hi, y));
    }
}

/// A rearrangement inside a range is one inside any range around it.
pub proof fn lemma_perm_widen(
    a: Seq<RecordId>,
    b: Seq<RecordId>,
    lo: int,
    hi: int,
    lo2: int,
    hi2: int,
)
    requires
        perm_in(a, b, lo2, hi2),
        0 <= lo <= lo2,
        hi2 <= hi <= a.len(),
    ensures
        perm_in(a, b, lo, hi),
{
    assert forall|k: int| 0 <= k < a.len() && !(lo <= k < hi) implies #[trigger] b[k] == a[k] by {}
    assert forall|y: RecordId| in_range(a, lo, hi, y) <==> in_range(b, lo, hi, y) by {
        if in_range(a, lo, hi, y) {
            let k = choose|k: int| lo <= k < hi && #[trigger] a[k] == y;
            if lo2 <= k < hi2 {
                assert(in_range(a, lo2, hi2, y));
                let k2 = choose|k2: int| lo2 <= k2 < hi2 && #[trigger] b[k2] == y;
                assert(b[k2] == y);
            } else {
                assert(b[k] == y);
            }
        }
        if in_range(b, lo, hi, y) {
            let k = choose|k: int| lo <= k < hi && #[trigger] b[k] == y;
            if lo2 <= k < hi2 {
                assert(in_range(b, lo2, hi2, y));
                let k2 = choose|k2: int| lo2 <= k2 < hi2 && #[trigger] a[k2] == y;
                assert(a[k2] == y);
            } else {
                assert(b[k] == a[k]);
                assert(a[k] == y);
            }
        }
    }
}

/// The list with the members at `i` and `j` exchanged.
pub open spec fn swapped(a: Seq<RecordId>, i: int, j: int) -> Seq<RecordId> {
    a.update(i, a[j]).update(j, a[i])
}

/// An exchange of two members of a range rearranges the range, and brings
/// in no duplicate.
pub proof fn lemma_perm_swap(a: Seq<RecordId>, lo: int, hi: int, i: int, j: int)
    requires
        0 <= lo <= i < hi <= a.len(),
        lo <= j < hi,
    ensures
        perm_in(a, swapped(a, i, j), lo, hi),
        a.no_duplicates() ==> swapped(a, i, j).no_duplicates(),
{
    let b = swapped(a, i, j);
    assert forall|y: RecordId| in_range(a, lo, hi, y) <==> in_range(b, lo, hi, y) by {
        if in_range(a, lo, hi, y) {
            let k = choose|k: int| lo <= k < hi && #[trigger] a[k] == y;
            if k == i {
                assert(b[j] == y);
            } else if k == j {
                assert(b[i] == y);
            } else {
                assert(b[k] == y);
            }
        }
        if in_range(b, lo, hi, y) {
            let k = choose|k: int| lo <= k < hi && #[trigger] b[k] == y;
            if k == i {
                assert(a[j] == y);
            } else if k == j {
                assert(a[i] == y);
            } else {
                assert(a[k] == y);
            }
        }
    }
    if a.no_duplicates() {
        assert forall|k1: int, k2: int| 0 <= k1 < b.len() && 0 <= k2 < b.len() && k1 != k2 implies b[k1]
            != b[k2] by {
            let s1 = if k1 == i {
                j
            } else if k1 == j {
                i
            } else {
                k1
            };
            let s2 = if k2 == i {
                j
            } else if k2 == j {
                i
            } else {
                k2
            };
            assert(b[k1] == a[s1]);
            assert(b[k2] == a[s2]);
        }
    }
}

/// A rearrangement names the data nodes that were named before.
pub proof fn lemma_perm_keeps_fit(
    t: TreeView,
    a: Seq<RecordId>,
    b: Seq<RecordId>,
    lo: int,
    hi: int,
    bound: Seq<Bounds>,
)
    requires
        perm_in(a, b, lo, hi),
        ids_fit(t, a, bound),
    ensures
        ids_fit(t, b, bound),
{
    assert forall|k: int| 0 <= k < b.len() implies (#[trigger] b[k]) is Data && b[k].index()
        < t.data.len() && within(t.data[b[k].index()].mbr, bound) by {
        if lo <= k < hi {
            assert(in_range(b, lo, hi, b[k]));
            let k2 = choose|k2: int| lo <= k2 < hi && #[trigger] a[k2] == b[k];
            assert(a[k2] is Data);
        } else {
            assert(b[k] == a[k]);
            assert(a[k] is Data);
        }
    }
}

/// Sequences of rectangles with the same members have the same hull.
pub proof fn lemma_hull_same_members(s1: Seq<Seq<Bounds>>, s2: Seq<Seq<Bounds>>, dim: nat)
    requires
        all_compatible(s1, dim),
        all_compatible(s2, dim),
        forall|k: int| 0 <= k < s1.len() ==> s2.contains(#[trigger] s1[k]),
        forall|k: int| 0 <= k < s2.len() ==> s1.contains(#[trigger] s2[k]),
    ensures
        spec_hull(s1) == spec_hull(s2),
{
    let h1 = spec_hull(s1);
    let h2 = spec_hull(s2);
    assert forall|k: int| 0 <= k < s1.len() implies within(#[trigger] s1[k], h2) by {
        let k2 = choose|k2: int| 0 <= k2 < s2.len() && s2[k2] == s1[k];
        lemma_hull_holds(s2, dim, k2);
    }
    lemma_hull_least(s1, dim, h2);
    assert forall|k: int| 0 <= k < s2.len() implies within(#[trigger] s2[k], h1) by {
        let k1 = choose|k1: int| 0 <= k1 < s1.len() && s1[k1] == s2[k];
        lemma_hull_holds(s1, dim, k1);
    }
    lemma_hull_least(s2, dim, h1);
    lemma_within_both(h1, h2);
}

/// The hull of two sequences joined is the common rectangle of their hulls.
pub proof fn lemma_hull_concat(s1: Seq<Seq<Bounds>>, s2: Seq<Seq<Bounds>>, dim: nat)
    requires
        all_compatible(s1, dim),
        all_compatible(s2, dim),
    ensures
        spec_hull(s1 + s2) == spec_common(spec_hull(s1), spec_hull(s2)),
        spec_hull(s1 + s2) == spec_common(spec_hull(s2), spec_hull(s1)),
{
    let s = s1 + s2;
    let h = spec_hull(s);
    let h1 = spec_hull(s1);
    let h2 = spec_hull(s2);
    assert forall|k: int| 0 <= k < s.len() implies (#[trigger] s[k]).len() == 0 || s[k].len()
        == dim by {
        if k < s1.len() {
            assert(s[k] == s1[k]);
        } else {
            assert(s[k] == s2[k - s1.len()]);
        }
    }
    lemma_hull_shape(s, dim);
    lemma_hull_shape(s1, dim);
    lemma_hull_shape(s2, dim);
    lemma_common_holds(h1, h2);
    lemma_common_holds(h2, h1);
    let c = spec_common(h1, h2);
    let c2 = spec_common(h2, h1);
    assert forall|k: int| 0 <= k < s.len() implies within(#[trigger] s[k], c) && within(
        s[k],
        c2,
    ) by {
        if k < s1.len() {
            lemma_hull_holds(s1, dim, k);
            assert(s[k] == s1[k]);
            lemma_within_transitive(s[k], h1, c);
            lemma_within_transitive(s[k], h1, c2);
        } else {
            lemma_hull_holds(s2, dim, k - s1.len());
            assert(s[k] == s2[k - s1.len()]);
            lemma_within_transitive(s[k], h2, c);
            lemma_within_transitive(s[k], h2, c2);
        }
    }
    lemma_hull_least(s, dim, c);
    lemma_hull_least(s, dim, c2);
    assert forall|k: int| 0 <= k < s1.len() implies within(#[trigger] s1[k], h) by {
        lemma_hull_holds(s, dim, k);
        assert(s[k] == s1[k]);
    }
    lemma_hull_least(s1, dim, h);
    assert forall|k: int| 0 <= k < s2.len() implies within(#[trigger] s2[k], h) by {
        lemma_hull_holds(s, dim, k + s1.len());
        assert(s[k + s1.len()] == s2[k]);
    }
    lemma_hull_least(s2, dim, h);
    lemma_common_least(h1, h2, h);
    lemma_common_least(h2, h1, h);
    lemma_within_both(h, c);
    lemma_within_both(h, c2);
}

/// The rectangles of a range of data nodes can be combined, and are in
/// order and inside `bound`.
pub proof fn lemma_range_compatible(
    t: TreeView,
    ids: Seq<RecordId>,
    lo: int,
    hi: int,
    bound: Seq<Bounds>,
)
    requires
        t.all_data_ok(),
        ids_fit(t, ids, bound),
        0 <= lo <= hi <= ids.len(),
        bound.len() == t.dimension,
    ensures
        all_compatible(mbrs_of(t, ids.subrange(lo, hi)), t.dimension),
        forall|k: int|
            0 <= k < hi - lo ==> (#[trigger] mbrs_of(t, ids.subrange(lo, hi))[k]).len()
                == t.dimension && box_ordered(mbrs_of(t, ids.subrange(lo, hi))[k]) && within(
                mbrs_of(t, ids.subrange(lo, hi))[k],
                bound,
            ),
        range_hull(t, ids, lo, hi).len() == 0 || range_hull(t, ids, lo, hi).len() == t.dimension,
        lo < hi ==> range_hull(t, ids, lo, hi).len() == t.dimension,
        lo == hi ==> range_hull(t, ids, lo, hi).len() == 0,
        box_ordered(range_hull(t, ids, lo, hi)),
        within(range_hull(t, ids, lo, hi), bound),
{
    let s = mbrs_of(t, ids.subrange(lo, hi));
    assert forall|k: int| 0 <= k < hi - lo implies (#[trigger] s[k]).len() == t.dimension
        && box_ordered(s[k]) && within(s[k], bound) by {
        assert(ids.subrange(lo, hi)[k] == ids[lo + k]);
        assert(ids[lo + k] is Data);
        assert(t.data_ok(ids[lo + k].index()));
    }
    lemma_hull_shape(s, t.dimension);
    lemma_hull_least(s, t.dimension, bound);
    if lo < hi {
        assert(s[0].len() == t.dimension);
    }
}

/// A rearranged range has the same common rectangle.
pub proof fn lemma_range_hull_perm(
    t: TreeView,
    a: Seq<RecordId>,
    b: Seq<RecordId>,
    lo: int,
    hi: int,
    bound: Seq<Bounds>,
)
    requires
        t.all_data_ok(),
        ids_fit(t, a, bound),
        bound.len() == t.dimension,
        perm_in(a, b, lo, hi),
    ensures
        range_hull(t, a, lo, hi) == range_hull(t, b, lo, hi),
{
    lemma_perm_keeps_fit(t, a, b, lo, hi, bound);
    lemma_range_compatible(t, a, lo, hi, bound);
    lemma_range_compatible(t, b, lo, hi, bound);
    let s1 = mbrs_of(t, a.subrange(lo, hi));
    let s2 = mbrs_of(t, b.subrange(lo, hi));
    assert forall|k: int| 0 <= k < s1.len() implies s2.contains(#[trigger] s1[k]) by {
        assert(a.subrange(lo, hi)[k] == a[lo + k]);
        assert(in_range(a, lo, hi, a[lo + k]));
        let k2 = choose|k2: int| lo <= k2 < hi && #[trigger] b[k2] == a[lo + k];
        assert(b.subrange(lo, hi)[k2 - lo] == b[k2]);
        assert(s2[k2 - lo] == s1[k]);
    }
    assert forall|k: int| 0 <= k < s2.len() implies s1.contains(#[trigger] s2[k]) by {
        assert(b.subrange(lo, hi)[k] == b[lo + k]);
        assert(in_range(b, lo, hi, b[lo + k]));
        let k2 = choose|k2: int| lo <= k2 < hi && #[trigger] a[k2] == b[lo + k];
        assert(a.subrange(lo, hi)[k2 - lo] == a[k2]);
        assert(s1[k2 - lo] == s2[k]);
    }
    lemma_hull_same_members(s1, s2, t.dimension);
}

/// A range that a rearrangement elsewhere leaves alone has the same common
/// rectangle.
pub proof fn lemma_range_hull_apart(
    t: TreeView,
    a: Seq<RecordId>,
    b: Seq<RecordId>,
    lo: int,
    hi: int,
    lo2: int,
    hi2: int,
)
    requires
        perm_in(a, b, lo2, hi2),
        0 <= lo <= hi <= a.len(),
        hi <= lo2 || hi2 <= lo,
    ensures
        range_hull(t, a, lo, hi) == range_hull(t, b, lo, hi),
        a.subrange(lo, hi) == b.subrange(lo, hi),
{
    assert(a.subrange(lo, hi) =~= b.subrange(lo, hi));
}

/// Two ranges side by side: the common rectangle of both together.
pub proof fn lemma_range_hull_join(
    t: TreeView,
    ids: Seq<RecordId>,
    lo: int,
    mid: int,
    hi: int,
    bound: Seq<Bounds>,
)
    requires
        t.all_data_ok(),
        ids_fit(t, ids, bound),
        bound.len() == t.dimension,
        0 <= lo <= mid <= hi <= ids.len(),
    ensures
        range_hull(t, ids, lo, hi) == spec_common(
            range_hull(t, ids, lo, mid),
            range_hull(t, ids, mid, hi),
        ),
        range_hull(t, ids, lo, hi) == spec_common(
            range_hull(t, ids, mid, hi),
            range_hull(t, ids, lo, mid),
        ),
{
    lemma_range_compatible(t, ids, lo, mid, bound);
    lemma_range_compatible(t, ids, mid, hi, bound);
    let s1 = mbrs_of(t, ids.subrange(lo, mid));
    let s2 = mbrs_of(t, ids.subrange(mid, hi));
    assert(ids.subrange(lo, hi) =~= ids.subrange(lo, mid) + ids.subrange(mid, hi));
    assert(mbrs_of(t, ids.subrange(lo, hi)) =~= s1 + s2);
    lemma_hull_concat(s1, s2, t.dimension);
}

/// The common rectangle of a range depends on the rectangles of the data
/// nodes alone.
pub proof fn lemma_range_hull_same_data(
    t: TreeView,
    t2: TreeView,
    ids: Seq<RecordId>,
    lo: int,
    hi: int,
    bound: Seq<Bounds>,
)
    requires
        t2.same_data(t),
        ids_fit(t, ids, bound),
        0 <= lo <= hi <= ids.len(),
    ensures
        range_hull(t2, ids, lo, hi) == range_hull(t, ids, lo, hi),
        mbrs_of(t2, ids.subrange(lo, hi)) == mbrs_of(t, ids.subrange(lo, hi)),
        ids_fit(t2, ids, bound),
{
    assert(mbrs_of(t2, ids.subrange(lo, hi)) =~= mbrs_of(t, ids.subrange(lo, hi))) by {
        assert forall|k: int| 0 <= k < hi - lo implies mbrs_of(t2, ids.subrange(lo, hi))[k]
            == mbrs_of(t, ids.subrange(lo, hi))[k] by {
            assert(ids.subrange(lo, hi)[k] == ids[lo + k]);
            assert(ids[lo + k] is Data);
        }
    }
    assert forall|k: int| 0 <= k < ids.len() implies (#[trigger] ids[k]) is Data && ids[k].index()
        < t2.data.len() && within(t2.data[ids[k].index()].mbr, bound) by {
        assert(ids[k] is Data);
    }
}

} // verus!
