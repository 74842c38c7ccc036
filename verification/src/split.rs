//! Node split: the choice of the two seeds, the distribution of the other
//! children, and the split itself.

use crate::fixup::{
    fit_child, lemma_split, lemma_split_members, mbrs_of, mid_ok, named, parts_ok, reparent,
    sibling_id, split_pre, split_state, Fix,
};
use crate::mbr::{
    box_ordered, common_mbr, lemma_common_holds, lemma_common_least, lemma_hull_push,
    lemma_volume_monotone, spec_common, spec_delta, spec_hull, volume_fits, within, Bounds, MBR,
};
use crate::model::{config_ok, id_of, TreeView};
use crate::node::{Node, RecordId};
use crate::obj_space::ObjSpace;
use vstd::prelude::*;

verus! {

/// Among the first `n` rectangles, the first with the largest lower end on
/// axis `ax`.
pub open spec fn first_max_low(ms: Seq<Seq<Bounds>>, ax: int, n: int) -> int
    decreases n,
{
    if n <= 1 {
        0
    } else {
        let j = first_max_low(ms, ax, n - 1);
        if ms[n - 1][ax].min > ms[j][ax].min {
            n - 1
        } else {
            j
        }
    }
}

/// Among the first `n` rectangles, the first with the smallest upper end on
/// axis `ax`.
pub open spec fn first_min_high(ms: Seq<Seq<Bounds>>, ax: int, n: int) -> int
    decreases n,
{
    if n <= 1 {
        0
    } else {
        let j = first_min_high(ms, ax, n - 1);
        if ms[n - 1][ax].max < ms[j][ax].max {
            n - 1
        } else {
            j
        }
    }
}

/// The smallest lower end of the first `n` rectangles on axis `ax`.
pub open spec fn low_end(ms: Seq<Seq<Bounds>>, ax: int, n: int) -> int
    decreases n,
{
    if n <= 1 {
        ms[0][ax].min as int
    } else {
        let m = low_end(ms, ax, n - 1);
        if ms[n - 1][ax].min < m {
            ms[n - 1][ax].min as int
        } else {
            m
        }
    }
}

/// The largest upper end of the first `n` rectangles on axis `ax`.
pub open spec fn high_end(ms: Seq<Seq<Bounds>>, ax: int, n: int) -> int
    decreases n,
{
    if n <= 1 {
        ms[0][ax].max as int
    } else {
        let m = high_end(ms, ax, n - 1);
        if ms[n - 1][ax].max > m {
            ms[n - 1][ax].max as int
        } else {
            m
        }
    }
}

/// Division that rounds toward zero, for a positive divisor.
pub open spec fn trunc_div(a: int, b: int) -> int {
    if a >= 0 {
        a / b
    } else {
        -((-a) / b)
    }
}

/// Separation of the rectangles on axis `ax`: the gap between the smallest
/// upper end and the largest lower end, divided by the extent of all of
/// them on this axis and rounded toward zero. Where all rectangles are one
/// point on this axis, the separation is 0.
pub open spec fn separation(ms: Seq<Seq<Bounds>>, ax: int) -> int {
    let n = ms.len() as int;
    let extent = high_end(ms, ax, n) - low_end(ms, ax, n);
    if extent == 0 {
        0
    } else {
        trunc_div(
            ms[first_min_high(ms, ax, n)][ax].max - ms[first_max_low(ms, ax, n)][ax].min,
            extent,
        )
    }
}

/// Among the first `d` axes, the first with the least separation.
pub open spec fn best_axis(ms: Seq<Seq<Bounds>>, d: int) -> int
    decreases d,
{
    if d <= 1 {
        0
    } else {
        let j = best_axis(ms, d - 1);
        if separation(ms, d - 1) < separation(ms, j) {
            d - 1
        } else {
            j
        }
    }
}

/// The two seeds of a split, as indices: on the axis of least separation,
/// the rectangle with the largest lower end and the one with the smallest
/// upper end; the last and the first where these are one rectangle.
pub open spec fn seed_pair(ms: Seq<Seq<Bounds>>, dim: int) -> (int, int) {
    let n = ms.len() as int;
    let ax = best_axis(ms, dim);
    let lo = first_max_low(ms, ax, n);
    let hi = first_min_high(ms, ax, n);
    if lo == hi {
        (n - 1, 0)
    } else {
        (lo, hi)
    }
}

/// The records can be read for a split: each exists and its rectangle is in
/// order, of the tree's dimension, and inside `bound`.
pub open spec fn readable(t: TreeView, ids: Seq<RecordId>, bound: Seq<Bounds>) -> bool {
    forall|k: int|
        0 <= k < ids.len() ==> {
            &&& t.resolves(#[trigger] ids[k])
            &&& t.rec_mbr(ids[k]).len() == t.dimension
            &&& box_ordered(t.rec_mbr(ids[k]))
            &&& within(t.rec_mbr(ids[k]), bound)
        }
}

/// The tracked indices stay among the rectangles seen, and the tracked ends
/// between the ends of `bound`.
pub proof fn lemma_ends_in_range(ms: Seq<Seq<Bounds>>, ax: int, n: int, bound: Seq<Bounds>)
    requires
        1 <= n <= ms.len(),
        0 <= ax < bound.len(),
        forall|k: int|
            0 <= k < ms.len() ==> (#[trigger] ms[k]).len() == bound.len() && box_ordered(ms[k])
                && within(ms[k], bound),
    ensures
        0 <= first_max_low(ms, ax, n) < n,
        0 <= first_min_high(ms, ax, n) < n,
        bound[ax].min <= low_end(ms, ax, n) <= high_end(ms, ax, n) <= bound[ax].max,
        forall|k: int|
            0 <= k < n ==> low_end(ms, ax, n) <= (#[trigger] ms[k])[ax].min && ms[k][ax].max
                <= high_end(ms, ax, n),
    decreases n,
{
    assert(ms[n - 1][ax].ordered());
    assert(bound[ax].min <= ms[n - 1][ax].min && ms[n - 1][ax].max <= bound[ax].max);
    if n > 1 {
        lemma_ends_in_range(ms, ax, n - 1, bound);
        assert forall|k: int| 0 <= k < n implies low_end(ms, ax, n) <= (#[trigger] ms[k])[ax].min
            && ms[k][ax].max <= high_end(ms, ax, n) by {
            if k < n - 1 {
                assert(low_end(ms, ax, n - 1) <= ms[k][ax].min);
            }
        }
    }
}

/// Among the first axes, the best is one of them.
pub proof fn lemma_best_axis_in_range(ms: Seq<Seq<Bounds>>, d: int)
    requires
        1 <= d,
    ensures
        0 <= best_axis(ms, d) < d,
    decreases d,
{
    if d > 1 {
        lemma_best_axis_in_range(ms, d - 1);
    }
}

/// Chooses the two seeds of a split among `records`. Returns their indices.
pub fn select_first_pair<ObjectT>(
    obj_space: &ObjSpace<ObjectT>,
    records: &Vec<RecordId>,
    Ghost(bound): Ghost<Seq<Bounds>>,
) -> (r: (usize, usize))
    requires
        records.len() >= 2,
        obj_space@.dimension >= 1,
        bound.len() == obj_space@.dimension,
        volume_fits(bound),
        readable(obj_space@, records@, bound),
    ensures
        (r.0 as int, r.1 as int) == seed_pair(
            mbrs_of(obj_space@, records@),
            obj_space@.dimension as int,
        ),
        r.0 < records.len(),
        r.1 < records.len(),
        r.0 != r.1,
{
    let ghost t = obj_space@;
    let ghost ms = mbrs_of(t, records@);
    let n = records.len();
    let dim = obj_space.dimension;
    proof {
        assert forall|k: int| 0 <= k < ms.len() implies (#[trigger] ms[k]).len() == bound.len()
            && box_ordered(ms[k]) && within(ms[k], bound) by {
            assert(t.resolves(records@[k]));
        }
    }
    let mut best_ax: usize = 0;
    let mut best_d: i64 = 0;
    let mut best_lo: usize = 0;
    let mut best_hi: usize = 0;
    let mut ax: usize = 0;
    while ax < dim
        invariant
            ax <= dim,
            dim == t.dimension,
            dim >= 1,
            t == obj_space@,
            n == records.len(),
            n >= 2,
            ms == mbrs_of(t, records@),
            bound.len() == dim,
            volume_fits(bound),
            readable(t, records@, bound),
            forall|k: int|
                0 <= k < ms.len() ==> (#[trigger] ms[k]).len() == bound.len() && box_ordered(ms[k])
                    && within(ms[k], bound),
            ax > 0 ==> best_ax == best_axis(ms, ax as int),
            ax > 0 ==> best_ax < ax,
            ax > 0 ==> best_d == separation(ms, best_ax as int),
            ax > 0 ==> best_lo == first_max_low(ms, best_ax as int, n as int),
            ax > 0 ==> best_hi == first_min_high(ms, best_ax as int, n as int),
            best_lo < n,
            best_hi < n,
        decreases dim - ax,
    {
        proof {
            assert(t.resolves(records@[0]));
            assert(ms[0] == t.rec_mbr(records@[0]));
        }
        let b0 = obj_space.get_mbr(records[0]).bounds(ax);
        let mut low: i64 = b0.min;
        let mut high: i64 = b0.max;
        let mut lo_idx: usize = 0;
        let mut lo: i64 = b0.min;
        let mut hi_idx: usize = 0;
        let mut hi: i64 = b0.max;
        let mut k: usize = 1;
        while k < n
            invariant
                1 <= k <= n,
                ax < dim,
                dim == t.dimension,
                t == obj_space@,
                n == records.len(),
                ms == mbrs_of(t, records@),
                bound.len() == dim,
                readable(t, records@, bound),
                forall|k: int|
                    0 <= k < ms.len() ==> (#[trigger] ms[k]).len() == bound.len() && box_ordered(
                        ms[k],
                    ) && within(ms[k], bound),
                low == low_end(ms, ax as int, k as int),
                high == high_end(ms, ax as int, k as int),
                lo_idx == first_max_low(ms, ax as int, k as int),
                hi_idx == first_min_high(ms, ax as int, k as int),
                lo_idx < k,
                hi_idx < k,
                lo == ms[lo_idx as int][ax as int].min,
                hi == ms[hi_idx as int][ax as int].max,
            decreases n - k,
        {
            proof {
                assert(t.resolves(records@[k as int]));
                assert(ms[k as int] == t.rec_mbr(records@[k as int]));
            }
            let b = obj_space.get_mbr(records[k]).bounds(ax);
            if b.min > lo {
                lo_idx = k;
                lo = b.min;
            }
            if b.max < hi {
                hi_idx = k;
                hi = b.max;
            }
            if b.max > high {
                high = b.max;
            }
            if b.min < low {
                low = b.min;
            }
            k += 1;
        }
        proof {
            lemma_ends_in_range(ms, ax as int, n as int, bound);
            assert(0 <= bound[ax as int].spec_length() <= i64::MAX);
            assert(low <= ms[lo_idx as int][ax as int].min);
            assert(ms[lo_idx as int][ax as int].ordered());
            assert(ms[hi_idx as int][ax as int].ordered());
            assert(ms[lo_idx as int][ax as int].max <= high);
            assert(low <= ms[hi_idx as int][ax as int].min);
            assert(ms[hi_idx as int][ax as int].max <= high);
        }
        let extent = high - low;
        let gap = hi - lo;
        let d: i64 = if extent == 0 {
            0
        } else if gap >= 0 {
            gap / extent
        } else {
            -((-gap) / extent)
        };
        proof {
            assert(d == separation(ms, ax as int));
        }
        if ax == 0 || d < best_d {
            best_ax = ax;
            best_d = d;
            best_lo = lo_idx;
            best_hi = hi_idx;
        }
        ax += 1;
    }
    if best_lo == best_hi {
        (n - 1, 0)
    } else {
        (best_lo, best_hi)
    }
}


/// What `swap_remove` leaves is what was there, less the element removed.
pub proof fn lemma_swap_remove_multiset(s: Seq<RecordId>, i: int)
    requires
        0 <= i < s.len(),
    ensures
        s.update(i, s.last()).drop_last().to_multiset() == s.to_multiset().remove(s[i]),
{
    broadcast use {vstd::seq_lib::group_to_multiset_ensures, vstd::multiset::group_multiset_axioms};

    let u = s.update(i, s.last());
    vstd::seq_lib::to_multiset_update(s, i, s.last());
    assert(u.to_multiset() == s.to_multiset().insert(s.last()).remove(s[i]));
    assert(u.drop_last().push(u.last()) =~= u);
    assert(u.drop_last().push(u.last()).to_multiset() =~= u.drop_last().to_multiset().insert(
        u.last(),
    ));
    assert(u.last() == s.last());
    assert(s.to_multiset().count(s[i]) > 0) by {
        assert(s.contains(s[i]));
    }
    assert(u.drop_last().to_multiset().insert(s.last()) == s.to_multiset().insert(s.last()).remove(
        s[i],
    ));
    assert forall|y: RecordId|
        u.drop_last().to_multiset().count(y) == s.to_multiset().remove(s[i]).count(y) by {
        assert(u.drop_last().to_multiset().insert(s.last()).count(y) == s.to_multiset().insert(
            s.last(),
        ).remove(s[i]).count(y));
    }
    assert(u.drop_last().to_multiset() =~= s.to_multiset().remove(s[i]));
}

/// What `pop` leaves is what was there, less the last element.
pub proof fn lemma_drop_last_multiset(s: Seq<RecordId>)
    requires
        s.len() > 0,
    ensures
        s.drop_last().to_multiset() == s.to_multiset().remove(s.last()),
{
    broadcast use {vstd::seq_lib::group_to_multiset_ensures, vstd::multiset::group_multiset_axioms};

    assert(s.drop_last().push(s.last()) =~= s);
    assert(s.drop_last().push(s.last()).to_multiset() =~= s.drop_last().to_multiset().insert(
        s.last(),
    ));
    assert(s.drop_last().to_multiset() =~= s.to_multiset().remove(s.last()));
}

/// How many more children a group of `len` needs to reach `min_records`.
pub open spec fn shortfall(min_records: int, len: int) -> int {
    if min_records > len {
        min_records - len
    } else {
        0
    }
}

/// Whether the last of `rest` joins the first group: where what is left
/// only just fills the first group up to `min_records`; else, unless the
/// same holds of the second group, where the rectangle of the first group
/// grows less by it, or as much and the first group is the smaller one.
pub open spec fn to_first(
    t: TreeView,
    a: Seq<RecordId>,
    b: Seq<RecordId>,
    rest: Seq<RecordId>,
) -> bool {
    let m = t.rec_mbr(rest.last());
    let ha = spec_hull(mbrs_of(t, a));
    let hb = spec_hull(mbrs_of(t, b));
    if shortfall(t.min_records as int, a.len() as int) >= rest.len() {
        true
    } else if shortfall(t.min_records as int, b.len() as int) >= rest.len() {
        false
    } else {
        spec_delta(ha, m) < spec_delta(hb, m) || (spec_delta(ha, m) == spec_delta(hb, m) && a.len()
            < b.len())
    }
}

/// The two groups once all of `rest` is placed, from its last to its first.
pub open spec fn placed(
    t: TreeView,
    a: Seq<RecordId>,
    b: Seq<RecordId>,
    rest: Seq<RecordId>,
) -> (Seq<RecordId>, Seq<RecordId>)
    decreases rest.len(),
{
    if rest.len() == 0 {
        (a, b)
    } else if to_first(t, a, b, rest) {
        placed(t, a.push(rest.last()), b, rest.drop_last())
    } else {
        placed(t, a, b.push(rest.last()), rest.drop_last())
    }
}

/// What is left of `all` once the member at `i` was taken out, the last
/// member in its place.
pub open spec fn without(all: Seq<RecordId>, i: int) -> Seq<RecordId> {
    all.update(i, all.last()).drop_last()
}

/// The two groups that a split makes of `all`: the seeds open them, the
/// seed with the greater index taken out first, and the others are placed
/// one by one.
pub open spec fn split_parts(t: TreeView, all: Seq<RecordId>) -> (Seq<RecordId>, Seq<RecordId>) {
    let pair = seed_pair(mbrs_of(t, all), t.dimension as int);
    let first = if pair.0 > pair.1 {
        pair.0
    } else {
        pair.1
    };
    let second = if pair.0 > pair.1 {
        pair.1
    } else {
        pair.0
    };
    placed(t, seq![all[pair.0]], seq![all[pair.1]], without(without(all, first), second))
}

/// Distributes the children of a node that is split over two groups. The
/// first seed opens the first group, the second seed the second; each other
/// child, taken from the end, joins the group whose rectangle grows less by
/// it, the smaller group on a tie; where what is left only just fills a
/// group up to `min_records`, it all goes there.
pub fn distribute<ObjectT>(
    obj_space: &ObjSpace<ObjectT>,
    children: Vec<RecordId>,
    Ghost(bound): Ghost<Seq<Bounds>>,
) -> (r: (Vec<RecordId>, Vec<RecordId>, MBR, MBR))
    requires
        children.len() >= 2,
        config_ok(obj_space@.dimension, obj_space@.min_records, obj_space@.max_records),
        bound.len() == obj_space@.dimension,
        volume_fits(bound),
        readable(obj_space@, children@, bound),
    ensures
        r.0@.to_multiset().add(r.1@.to_multiset()) == children@.to_multiset(),
        r.0.len() >= 1,
        r.1.len() >= 1,
        r.0.len() + r.1.len() == children.len(),
        children.len() >= 2 * obj_space@.min_records ==> r.0.len() >= obj_space@.min_records
            && r.1.len() >= obj_space@.min_records,
        r.2@ == spec_hull(mbrs_of(obj_space@, r.0@)),
        r.3@ == spec_hull(mbrs_of(obj_space@, r.1@)),
        (r.0@, r.1@) == split_parts(obj_space@, children@),
{
    broadcast use {vstd::seq_lib::group_to_multiset_ensures, vstd::multiset::group_multiset_axioms};

    let ghost t = obj_space@;
    let ghost all = children@;
    let min_records = obj_space.min_records;
    let mut rest = children;
    let (li, ri) = select_first_pair(obj_space, &rest, Ghost(bound));
    let lhs = rest[li];
    let rhs = rest[ri];
    let (first, second) = if li > ri {
        (li, ri)
    } else {
        (ri, li)
    };
    proof {
        assert(t.resolves(all[li as int]));
        assert(t.resolves(all[ri as int]));
        lemma_swap_remove_multiset(all, first as int);
    }
    rest.swap_remove(first);
    let ghost mid = rest@;
    proof {
        assert(mid[second as int] == all[second as int]);
        lemma_swap_remove_multiset(mid, second as int);
        assert forall|k: int| 0 <= k < mid.len() implies t.resolves(#[trigger] mid[k]) && t.rec_mbr(
            mid[k],
        ).len() == t.dimension && box_ordered(t.rec_mbr(mid[k])) && within(
            t.rec_mbr(mid[k]),
            bound,
        ) by {
            if k == first {
                assert(t.resolves(all[all.len() - 1]));
            } else {
                assert(t.resolves(all[k]));
            }
        }
    }
    rest.swap_remove(second);
    proof {
        assert forall|k: int| 0 <= k < rest@.len() implies t.resolves(#[trigger] rest@[k])
            && t.rec_mbr(rest@[k]).len() == t.dimension && box_ordered(t.rec_mbr(rest@[k]))
            && within(t.rec_mbr(rest@[k]), bound) by {
            if k == second {
                assert(t.resolves(mid[mid.len() - 1]));
            } else {
                assert(t.resolves(mid[k]));
            }
        }
    }
    let mut a: Vec<RecordId> = Vec::new();
    let mut b: Vec<RecordId> = Vec::new();
    a.push(lhs);
    b.push(rhs);
    let mut mbr_a = obj_space.get_mbr(lhs).clone();
    let mut mbr_b = obj_space.get_mbr(rhs).clone();
    proof {
        let e = Seq::<Seq<Bounds>>::empty();
        assert(mbrs_of(t, a@) =~= e.push(t.rec_mbr(lhs)));
        assert(mbrs_of(t, b@) =~= e.push(t.rec_mbr(rhs)));
        lemma_hull_push(e, t.rec_mbr(lhs));
        lemma_hull_push(e, t.rec_mbr(rhs));
        assert(spec_common(spec_hull(e), t.rec_mbr(lhs)) =~= t.rec_mbr(lhs));
        assert(spec_common(spec_hull(e), t.rec_mbr(rhs)) =~= t.rec_mbr(rhs));
        assert(a@.to_multiset().add(b@.to_multiset()).add(rest@.to_multiset())
            =~= all.to_multiset());
        assert(a@ =~= seq![lhs]);
        assert(b@ =~= seq![rhs]);
        assert(rest@ == without(without(all, first as int), second as int));
    }
    while rest.len() > 0
        invariant
            t == obj_space@,
            placed(t, a@, b@, rest@) == split_parts(t, all),
            min_records == t.min_records,
            config_ok(t.dimension, t.min_records, t.max_records),
            bound.len() == t.dimension,
            volume_fits(bound),
            readable(t, rest@, bound),
            a@.to_multiset().add(b@.to_multiset()).add(rest@.to_multiset()) == all.to_multiset(),
            a.len() >= 1,
            b.len() >= 1,
            a.len() + b.len() + rest.len() == all.len(),
            all.len() >= 2 * min_records ==> shortfall(min_records as int, a.len() as int)
                + shortfall(min_records as int, b.len() as int) <= rest.len(),
            mbr_a@ == spec_hull(mbrs_of(t, a@)),
            mbr_b@ == spec_hull(mbrs_of(t, b@)),
            mbr_a@.len() == t.dimension,
            mbr_b@.len() == t.dimension,
            box_ordered(mbr_a@),
            box_ordered(mbr_b@),
            within(mbr_a@, bound),
            within(mbr_b@, bound),
        decreases rest.len(),
    {
        let num = rest.len();
        let need_a = if min_records > a.len() {
            min_records - a.len()
        } else {
            0
        };
        let need_b = if min_records > b.len() {
            min_records - b.len()
        } else {
            0
        };
        let rec_id = rest[num - 1];
        proof {
            assert(t.resolves(rest@[num - 1]));
            lemma_drop_last_multiset(rest@);
            assert(rest@.subrange(0, num - 1) =~= rest@.drop_last());
            rest@.to_multiset_ensures();
            a@.to_multiset_ensures();
            b@.to_multiset_ensures();
            assert(rest@[num - 1] == rec_id);
            assert(rest@.contains(rec_id));
            assert(rest@.to_multiset().count(rec_id) > 0);
        }
        let rec_mbr = obj_space.get_mbr(rec_id);
        let common_a = common_mbr(&mbr_a, rec_mbr);
        let common_b = common_mbr(&mbr_b, rec_mbr);
        proof {
            lemma_common_holds(mbr_a@, rec_mbr@);
            lemma_common_holds(mbr_b@, rec_mbr@);
            lemma_common_least(mbr_a@, rec_mbr@, bound);
            lemma_common_least(mbr_b@, rec_mbr@, bound);
            lemma_volume_monotone(mbr_a@, bound);
            lemma_volume_monotone(mbr_b@, bound);
            lemma_volume_monotone(common_a@, bound);
            lemma_volume_monotone(common_b@, bound);
        }
        let to_first = if need_a >= num {
            true
        } else if need_b >= num {
            false
        } else {
            let delta = common_a.volume() - mbr_a.volume();
            let new_delta = common_b.volume() - mbr_b.volume();
            delta < new_delta || (delta == new_delta && a.len() < b.len())
        };
        let ghost rest_before = rest@;
        let ghost a_before = a@;
        let ghost b_before = b@;
        proof {
            assert(to_first == self::to_first(t, a@, b@, rest@));
        }
        rest.pop();
        if to_first {
            a.push(rec_id);
            mbr_a = common_a;
            proof {
                assert(mbrs_of(t, a@) =~= mbrs_of(t, a_before).push(t.rec_mbr(rec_id)));
                lemma_hull_push(mbrs_of(t, a_before), t.rec_mbr(rec_id));
            }
        } else {
            b.push(rec_id);
            mbr_b = common_b;
            proof {
                assert(mbrs_of(t, b@) =~= mbrs_of(t, b_before).push(t.rec_mbr(rec_id)));
                lemma_hull_push(mbrs_of(t, b_before), t.rec_mbr(rec_id));
            }
        }
        proof {
            assert(rest@ =~= rest_before.drop_last());
            assert(rest@.to_multiset() == rest_before.to_multiset().remove(rec_id));
            if to_first {
                assert(a@.to_multiset() =~= a_before.to_multiset().insert(rec_id));
            } else {
                assert(b@.to_multiset() =~= b_before.to_multiset().insert(rec_id));
            }
            assert forall|y: RecordId|
                a@.to_multiset().add(b@.to_multiset()).add(rest@.to_multiset()).count(y)
                    == all.to_multiset().count(y) by {
                assert(a_before.to_multiset().add(b_before.to_multiset()).add(
                    rest_before.to_multiset(),
                ).count(y) == all.to_multiset().count(y));
            }
            assert(a@.to_multiset().add(b@.to_multiset()).add(rest@.to_multiset())
                =~= all.to_multiset());
            assert forall|k: int| 0 <= k < rest@.len() implies t.resolves(#[trigger] rest@[k])
                && t.rec_mbr(rest@[k]).len() == t.dimension && box_ordered(t.rec_mbr(rest@[k]))
                && within(t.rec_mbr(rest@[k]), bound) by {
                assert(t.resolves(rest_before[k]));
            }
        }
    }
    proof {
        assert(rest@ =~= Seq::<RecordId>::empty());
        assert(a@.to_multiset().add(b@.to_multiset()) =~= all.to_multiset());
    }
    (a, b, mbr_a, mbr_b)
}


/// A copy of a list of identifiers.
pub fn copy_ids(ids: &Vec<RecordId>) -> (r: Vec<RecordId>)
    ensures
        r@ == ids@,
{
    let mut r: Vec<RecordId> = Vec::new();
    let mut k: usize = 0;
    while k < ids.len()
        invariant
            k <= ids.len(),
            r@ == ids@.take(k as int),
        decreases ids.len() - k,
    {
        r.push(ids[k]);
        proof {
            assert(ids@.take(k + 1) =~= ids@.take(k as int).push(ids@[k as int]));
        }
        k += 1;
    }
    proof {
        assert(ids@.take(ids.len() as int) =~= ids@);
    }
    r
}

/// Makes `parent_id` the parent of every record that `ids` names.
pub fn set_parents<ObjectT>(
    obj_space: &mut ObjSpace<ObjectT>,
    ids: &Vec<RecordId>,
    parent_id: RecordId,
)
    requires
        forall|k: int| 0 <= k < ids@.len() ==> old(obj_space)@.resolves(#[trigger] ids@[k]),
    ensures
        final(obj_space)@ == reparent(old(obj_space)@, ids@, parent_id),
        final(obj_space).payloads() == old(obj_space).payloads(),
{
    let ghost t = obj_space@;
    let mut k: usize = 0;
    proof {
        let e = ids@.take(0);
        assert forall|y: RecordId| !e.contains(y) by {}
        assert(reparent(t, e, parent_id).nodes =~= t.nodes);
        assert(reparent(t, e, parent_id).data =~= t.data);
    }
    while k < ids.len()
        invariant
            k <= ids.len(),
            t == old(obj_space)@,
            forall|k: int| 0 <= k < ids@.len() ==> t.resolves(#[trigger] ids@[k]),
            obj_space@ == reparent(t, ids@.take(k as int), parent_id),
            obj_space.payloads() == old(obj_space).payloads(),
        decreases ids.len() - k,
    {
        let id = ids[k];
        proof {
            assert(t.resolves(ids@[k as int]));
        }
        let ghost before = obj_space@;
        obj_space.set_parent_info(id, parent_id);
        proof {
            let s0 = ids@.take(k as int);
            let s1 = ids@.take(k + 1);
            assert(s1 =~= s0.push(id));
            assert forall|y: RecordId| s1.contains(y) <==> s0.contains(y) || y == id by {
                if s0.contains(y) {
                    let w = choose|w: int| 0 <= w < s0.len() && s0[w] == y;
                    assert(s1[w] == y);
                }
                if y == id {
                    assert(s1[k as int] == y);
                }
                if s1.contains(y) {
                    let w = choose|w: int| 0 <= w < s1.len() && s1[w] == y;
                    if w < k {
                        assert(s0[w] == y);
                    }
                }
            }
            let r0 = reparent(t, s0, parent_id);
            let r1 = reparent(t, s1, parent_id);
            let r2 = r0.set_parent(id, parent_id);
            assert(t.nodes.len() == old(obj_space).nodes.len());
            assert(t.data.len() == old(obj_space).data_nodes.len());
            assert forall|j: int| 0 <= j < t.nodes.len() implies r2.nodes[j] == r1.nodes[j] by {
                assert(s1.contains(RecordId::Leaf(j as usize)) <==> s0.contains(
                    RecordId::Leaf(j as usize),
                ) || RecordId::Leaf(j as usize) == id);
                assert(s1.contains(RecordId::Internal(j as usize)) <==> s0.contains(
                    RecordId::Internal(j as usize),
                ) || RecordId::Internal(j as usize) == id);
            }
            assert forall|d: int| 0 <= d < t.data.len() implies r2.data[d] == r1.data[d] by {
                assert(s1.contains(RecordId::Data(d as usize)) <==> s0.contains(
                    RecordId::Data(d as usize),
                ) || RecordId::Data(d as usize) == id);
            }
            assert(r2.nodes =~= r1.nodes);
            assert(r2.data =~= r1.data);
        }
        k += 1;
    }
    proof {
        assert(ids@.take(ids.len() as int) =~= ids@);
    }
}

/// Splits node `node_id`, which is full, to take in `extra_child_id`.
/// Returns the identifier of the new node, which holds the second group
/// and which no node holds yet.
pub fn split_node<ObjectT>(
    obj_space: &mut ObjSpace<ObjectT>,
    Ghost(lv): Ghost<Seq<nat>>,
    Ghost(f): Ghost<Fix>,
    node_id: RecordId,
    extra_child_id: RecordId,
) -> (new_id: RecordId)
    requires
        split_pre(old(obj_space)@, lv, node_id.index(), extra_child_id, f),
        node_id == id_of(lv, node_id.index()),
        volume_fits(f.bound),
        old(obj_space)@.nodes[node_id.index()].children.len() >= old(obj_space)@.max_records,
        f.fan ==> old(obj_space)@.nodes[node_id.index()].children.len() == old(
            obj_space,
        )@.max_records,
    ensures
        new_id == sibling_id(old(obj_space)@, lv, node_id.index()),
        new_id == id_of(lv.push(lv[node_id.index()]), old(obj_space)@.nodes.len() as int),
        mid_ok(
            final(obj_space)@,
            lv.push(lv[node_id.index()]),
            Fix {
                c: node_id.index(),
                e: Some(old(obj_space)@.nodes.len() as int),
                believed: old(obj_space)@.nodes[node_id.index()].mbr,
                ..f
            },
        ),
        final(obj_space).payloads() == old(obj_space).payloads(),
        final(obj_space)@.same_data(old(obj_space)@),
        final(obj_space)@.nodes.len() == old(obj_space)@.nodes.len() + 1,
        final(obj_space)@.root == old(obj_space)@.root,
        forall|j: int|
            0 <= j < old(obj_space)@.nodes.len() && j != node_id.index()
                ==> #[trigger] final(obj_space)@.nodes[j].mbr == old(obj_space)@.nodes[j].mbr,
        final(obj_space)@ == split_state(
            old(obj_space)@,
            lv,
            node_id.index(),
            split_parts(
                old(obj_space)@,
                old(obj_space)@.nodes[node_id.index()].children.push(extra_child_id),
            ).0,
            split_parts(
                old(obj_space)@,
                old(obj_space)@.nodes[node_id.index()].children.push(extra_child_id),
            ).1,
        ),
{
    let ghost t = obj_space@;
    let ghost p = node_id.index();
    let i = node_id.as_node_id();
    let kind = node_id.kind();
    let n = obj_space.nodes.len();
    let new_id = RecordId::from_node_id(n, kind);
    let mut children = copy_ids(&obj_space.nodes[i].payload);
    children.push(extra_child_id);
    proof {
        lemma_split_members(t, lv, p, extra_child_id, f);
        let s = t.nodes[p].children.push(extra_child_id);
        assert(children@ == s);
        assert forall|k: int| 0 <= k < s.len() implies t.resolves(#[trigger] s[k]) && t.rec_mbr(
            s[k],
        ).len() == t.dimension && box_ordered(t.rec_mbr(s[k])) && within(
            t.rec_mbr(s[k]),
            f.bound,
        ) by {
            assert(s.contains(s[k]));
            assert(fit_child(t, lv, p, s[k], f.bound));
        }
    }
    let (a, b, mbr_a, mbr_b) = distribute(&*obj_space, children, Ghost(f.bound));
    proof {
        assert(parts_ok(t, p, extra_child_id, a@, b@, f.fan));
        crate::fixup::lemma_parts_facts(t.nodes[p].children.push(extra_child_id), a@, b@);
        assert forall|k: int| 0 <= k < a@.len() implies t.resolves(#[trigger] a@[k]) by {
            assert(a@.contains(a@[k]));
            assert(fit_child(t, lv, p, a@[k], f.bound));
        }
        assert forall|k: int| 0 <= k < b@.len() implies t.resolves(#[trigger] b@[k]) by {
            assert(b@.contains(b@[k]));
            assert(fit_child(t, lv, p, b@[k], f.bound));
        }
    }
    set_parents(obj_space, &a, node_id);
    proof {
        assert(obj_space@.nodes.len() == t.nodes.len());
        assert(obj_space@.data.len() == t.data.len());
    }
    set_parents(obj_space, &b, new_id);
    let ghost a_ids = a@;
    let ghost b_ids = b@;
    let ghost s2 = obj_space@;
    proof {
        assert(obj_space@.nodes.len() == t.nodes.len());
        assert(obj_space.nodes@.len() == t.nodes.len());
    }
    obj_space.nodes[i].payload = a;
    obj_space.nodes[i].mbr = mbr_a;
    obj_space.nodes.push(Node { parent_id: RecordId::Root, mbr: mbr_b, payload: b });
    proof {
        let t2 = split_state(t, lv, p, a_ids, b_ids);
        assert(!named(a_ids, n as int) && !named(b_ids, n as int)) by {
            let y1 = RecordId::Leaf(n);
            let y2 = RecordId::Internal(n);
            if a_ids.contains(y1) || b_ids.contains(y1) {
                assert(fit_child(t, lv, p, y1, f.bound));
            }
            if a_ids.contains(y2) || b_ids.contains(y2) {
                assert(fit_child(t, lv, p, y2, f.bound));
            }
        }
        assert(t2.nodes.len() == n + 1);
        assert forall|j: int| 0 <= j < n + 1 implies obj_space@.nodes[j] == t2.nodes[j] by {
            if j < n && j != p {
                assert(obj_space@.nodes[j] == s2.nodes[j]);
            } else if j == p {
                assert(obj_space@.nodes[j].parent == s2.nodes[j].parent);
            }
        }
        assert(obj_space@.nodes =~= t2.nodes);
        assert(obj_space@.data =~= t2.data);
        assert(obj_space.payloads() =~= old(obj_space).payloads());
        assert(obj_space.nodes.len() == n + 1);
        assert(obj_space@ == t2);
        lemma_split(t, lv, p, extra_child_id, f, a_ids, b_ids);
    }
    new_id
}

} // verus!
