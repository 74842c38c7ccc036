//! The groups of the static build: the axis of greatest dispersion, the
//! split of a range of data nodes in two, and the split in many.

use crate::fixup::mbrs_of;
use crate::levels::{pow_sat, power, quantile, saturated, wide_mul};
use crate::mbr::{
    box_ordered, common_mbr, lemma_common_holds, lemma_common_least, lemma_hull_push,
    lemma_volume_monotone, spec_common, spec_hull, volume_fits, within, Bounds, MBR,
};
use crate::model::TreeView;
use crate::node::RecordId;
use crate::obj_space::ObjSpace;
use crate::ranges::{
    ids_fit, lemma_perm_swap, lemma_perm_trans, lemma_range_compatible, perm_in, range_hull,
    swapped,
};
use crate::sorting::{sort_range, sorted_form, swap_ids};
use crate::split::{high_end, lemma_ends_in_range, low_end, trunc_div};
use vstd::prelude::*;

verus! {

/// The largest lower end of the first `n` rectangles on axis `ax`.
pub open spec fn top_low(ms: Seq<Seq<Bounds>>, ax: int, n: int) -> int
    decreases n,
{
    if n <= 1 {
        ms[0][ax].min as int
    } else {
        let m = top_low(ms, ax, n - 1);
        if ms[n - 1][ax].min > m {
            ms[n - 1][ax].min as int
        } else {
            m
        }
    }
}

/// The smallest upper end of the first `n` rectangles on axis `ax`.
pub open spec fn bottom_high(ms: Seq<Seq<Bounds>>, ax: int, n: int) -> int
    decreases n,
{
    if n <= 1 {
        ms[0][ax].max as int
    } else {
        let m = bottom_high(ms, ax, n - 1);
        if ms[n - 1][ax].max < m {
            ms[n - 1][ax].max as int
        } else {
            m
        }
    }
}

/// Dispersion of the rectangles on axis `ax`: the gap between the largest
/// lower end and the smallest upper end, divided by the extent of all of
/// them on this axis and rounded toward zero. Where all rectangles are one
/// point on this axis, the dispersion is 0.
pub open spec fn dispersion(ms: Seq<Seq<Bounds>>, ax: int) -> int {
    let n = ms.len() as int;
    let extent = high_end(ms, ax, n) - low_end(ms, ax, n);
    if extent == 0 {
        0
    } else {
        trunc_div(top_low(ms, ax, n) - bottom_high(ms, ax, n), extent)
    }
}

/// Among the first `d` axes, the last with the greatest dispersion.
pub open spec fn sort_axis(ms: Seq<Seq<Bounds>>, d: int) -> int
    decreases d,
{
    if d <= 1 {
        0
    } else {
        let j = sort_axis(ms, d - 1);
        if dispersion(ms, d - 1) >= dispersion(ms, j) {
            d - 1
        } else {
            j
        }
    }
}

/// The tracked ends stay between the ends of `bound`.
pub proof fn lemma_tops_in_range(ms: Seq<Seq<Bounds>>, ax: int, n: int, bound: Seq<Bounds>)
    requires
        1 <= n <= ms.len(),
        0 <= ax < bound.len(),
        forall|k: int|
            0 <= k < ms.len() ==> (#[trigger] ms[k]).len() == bound.len() && box_ordered(ms[k])
                && within(ms[k], bound),
    ensures
        bound[ax].min <= top_low(ms, ax, n) <= bound[ax].max,
        bound[ax].min <= bottom_high(ms, ax, n) <= bound[ax].max,
    decreases n,
{
    assert(ms[n - 1][ax].ordered());
    assert(bound[ax].min <= ms[n - 1][ax].min && ms[n - 1][ax].max <= bound[ax].max);
    if n > 1 {
        lemma_tops_in_range(ms, ax, n - 1, bound);
    }
}

/// Chooses the axis along which the data nodes between `lo` and `hi` are
/// sorted: the one of greatest dispersion, the last of these.
pub fn find_sort_axis_index<ObjectT>(
    obj_space: &ObjSpace<ObjectT>,
    ids: &Vec<RecordId>,
    lo: usize,
    hi: usize,
    Ghost(bound): Ghost<Seq<Bounds>>,
) -> (axis: usize)
    requires
        lo < hi <= ids.len(),
        obj_space@.dimension >= 1,
        obj_space@.all_data_ok(),
        bound.len() == obj_space@.dimension,
        volume_fits(bound),
        ids_fit(obj_space@, ids@, bound),
    ensures
        axis == sort_axis(
            mbrs_of(obj_space@, ids@.subrange(lo as int, hi as int)),
            obj_space@.dimension as int,
        ),
        axis < obj_space@.dimension,
{
    let ghost t = obj_space@;
    let ghost ms = mbrs_of(t, ids@.subrange(lo as int, hi as int));
    let n = hi - lo;
    let dim = obj_space.dimension;
    proof {
        lemma_range_compatible(t, ids@, lo as int, hi as int, bound);
    }
    let mut best_ax: usize = 0;
    let mut best_key: i64 = 0;
    let mut ax: usize = 0;
    while ax < dim
        invariant
            ax <= dim,
            dim == t.dimension,
            dim >= 1,
            t == obj_space@,
            lo < hi <= ids.len(),
            n == hi - lo,
            ms == mbrs_of(t, ids@.subrange(lo as int, hi as int)),
            ms.len() == n,
            bound.len() == dim,
            volume_fits(bound),
            ids_fit(t, ids@, bound),
            t.all_data_ok(),
            forall|k: int|
                0 <= k < ms.len() ==> (#[trigger] ms[k]).len() == bound.len() && box_ordered(ms[k])
                    && within(ms[k], bound),
            ax > 0 ==> best_ax == sort_axis(ms, ax as int),
            ax > 0 ==> best_ax < ax,
            ax > 0 ==> best_key == dispersion(ms, best_ax as int),
        decreases dim - ax,
    {
        proof {
            assert(ids@.subrange(lo as int, hi as int)[0] == ids@[lo as int]);
            assert(ids@[lo as int] is Data);
            assert(t.data_ok(ids@[lo as int].index()));
            assert(ms[0] == t.rec_mbr(ids@[lo as int]));
        }
        let b0 = obj_space.get_mbr(ids[lo]).bounds(ax);
        let mut max_low: i64 = b0.min;
        let mut max_high: i64 = b0.max;
        let mut min_low: i64 = b0.min;
        let mut min_high: i64 = b0.max;
        let mut k: usize = 1;
        while k < n
            invariant
                1 <= k <= n,
                ax < dim,
                dim == t.dimension,
                t == obj_space@,
                lo < hi <= ids.len(),
                n == hi - lo,
                ms == mbrs_of(t, ids@.subrange(lo as int, hi as int)),
                ms.len() == n,
                bound.len() == dim,
                ids_fit(t, ids@, bound),
                t.all_data_ok(),
                forall|k: int|
                    0 <= k < ms.len() ==> (#[trigger] ms[k]).len() == bound.len() && box_ordered(
                        ms[k],
                    ) && within(ms[k], bound),
                min_low == low_end(ms, ax as int, k as int),
                max_high == high_end(ms, ax as int, k as int),
                max_low == top_low(ms, ax as int, k as int),
                min_high == bottom_high(ms, ax as int, k as int),
            decreases n - k,
        {
            proof {
                assert(ids@.subrange(lo as int, hi as int)[k as int] == ids@[lo + k]);
                assert(ids@[lo + k] is Data);
                assert(t.data_ok(ids@[lo + k].index()));
                assert(ms[k as int] == t.rec_mbr(ids@[lo + k]));
            }
            let b = obj_space.get_mbr(ids[lo + k]).bounds(ax);
            if b.min > max_low {
                max_low = b.min;
            } else if b.min < min_low {
                min_low = b.min;
            }
            if b.max > max_high {
                max_high = b.max;
            } else if b.max < min_high {
                min_high = b.max;
            }
            proof {
                lemma_ends_in_range(ms, ax as int, k as int, bound);
                lemma_tops_in_range(ms, ax as int, k as int, bound);
                lemma_low_below_top(ms, ax as int, k as int);
            }
            k += 1;
        }
        proof {
            lemma_ends_in_range(ms, ax as int, n as int, bound);
            lemma_tops_in_range(ms, ax as int, n as int, bound);
            assert(0 <= bound[ax as int].spec_length() <= i64::MAX);
        }
        let extent = max_high - min_low;
        let gap = max_low - min_high;
        let key: i64 = if extent == 0 {
            0
        } else if gap >= 0 {
            gap / extent
        } else {
            -((-gap) / extent)
        };
        proof {
            assert(key == dispersion(ms, ax as int));
        }
        if ax == 0 || key >= best_key {
            best_ax = ax;
            best_key = key;
        }
        ax += 1;
    }
    best_ax
}

/// The smallest lower end is at most the largest, and the smallest upper
/// end at most the largest.
pub proof fn lemma_low_below_top(ms: Seq<Seq<Bounds>>, ax: int, n: int)
    requires
        1 <= n,
    ensures
        low_end(ms, ax, n) <= top_low(ms, ax, n),
        bottom_high(ms, ax, n) <= high_end(ms, ax, n),
    decreases n,
{
    if n > 1 {
        lemma_low_below_top(ms, ax, n - 1);
    }
}

/// The common rectangle of the data nodes between `lo` and `hi`.
pub fn range_mbr<ObjectT>(
    obj_space: &ObjSpace<ObjectT>,
    ids: &Vec<RecordId>,
    lo: usize,
    hi: usize,
    Ghost(bound): Ghost<Seq<Bounds>>,
) -> (r: MBR)
    requires
        lo <= hi <= ids.len(),
        obj_space@.all_data_ok(),
        bound.len() == obj_space@.dimension,
        ids_fit(obj_space@, ids@, bound),
    ensures
        r@ == range_hull(obj_space@, ids@, lo as int, hi as int),
{
    let ghost t = obj_space@;
    let mut common = MBR::undefined();
    let mut k: usize = lo;
    proof {
        assert(ids@.subrange(lo as int, lo as int) =~= Seq::<RecordId>::empty());
        assert(mbrs_of(t, ids@.subrange(lo as int, lo as int)) =~= Seq::<Seq<Bounds>>::empty());
    }
    while k < hi
        invariant
            lo <= k <= hi <= ids.len(),
            t == obj_space@,
            t.all_data_ok(),
            bound.len() == t.dimension,
            ids_fit(t, ids@, bound),
            common@ == range_hull(t, ids@, lo as int, k as int),
        decreases hi - k,
    {
        proof {
            lemma_range_compatible(t, ids@, lo as int, k as int, bound);
            assert(ids@[k as int] is Data);
            assert(t.data_ok(ids@[k as int].index()));
            assert(ids@.subrange(lo as int, k + 1) =~= ids@.subrange(lo as int, k as int).push(
                ids@[k as int],
            ));
            assert(mbrs_of(t, ids@.subrange(lo as int, k + 1)) =~= mbrs_of(
                t,
                ids@.subrange(lo as int, k as int),
            ).push(t.rec_mbr(ids@[k as int])));
            lemma_hull_push(
                mbrs_of(t, ids@.subrange(lo as int, k as int)),
                t.rec_mbr(ids@[k as int]),
            );
        }
        common = common_mbr(&common, obj_space.get_mbr(ids[k]));
        k += 1;
    }
    common
}

/// The shares of the two groups: the least and the greatest number of
/// data nodes that each is meant to hold.
pub struct Shares {
    pub first_min: int,
    pub first_max: int,
    pub second_min: int,
    pub second_max: int,
}

/// The shares of two groups that are to make `first_coeff` and
/// `second_coeff` subtrees of `level` levels: so many times `min_records`
/// and `max_records` to the power `level`, the powers cut off at
/// `usize::MAX`.
pub open spec fn shares(t: TreeView, first_coeff: nat, second_coeff: nat, level: nat) -> Shares {
    let least = saturated(power(t.min_records, level));
    let most = saturated(power(t.max_records, level));
    Shares {
        first_min: (first_coeff * least) as int,
        first_max: (first_coeff * most) as int,
        second_min: (second_coeff * least) as int,
        second_max: (second_coeff * most) as int,
    }
}

/// What is not placed yet all goes to the first group: the first group is
/// short of its share, or neither is short, the first has no more than its
/// share and the second has more.
pub open spec fn rest_to_first(c: Shares, first_len: int, second_len: int) -> bool {
    first_len < c.first_min || (second_len >= c.second_min && first_len <= c.first_max
        && second_len > c.second_max)
}

/// What is not placed yet all goes to the second group: the first group is
/// not short, and the second is short or the first has more than its share.
pub open spec fn rest_to_second(c: Shares, first_len: int, second_len: int) -> bool {
    !rest_to_first(c, first_len, second_len) && (second_len < c.second_min || first_len
        > c.first_max)
}

/// The list and the index of the split once the data nodes between `left`
/// and `right` are placed, where the first group stands before `left` and
/// counts as `first_len`, and the second from `right` on and counts as
/// `second_len`: the node at `left` joins the group whose rectangle grows
/// less by it, the second on a tie, where it comes to stand before the
/// second group; and so on until none is left or the rest goes to one
/// group.
pub open spec fn settle(
    t: TreeView,
    c: Shares,
    ids: Seq<RecordId>,
    lo: int,
    hi: int,
    left: int,
    right: int,
    first_len: int,
    second_len: int,
) -> (Seq<RecordId>, int)
    decreases right - left,
{
    if right <= left {
        (ids, left)
    } else if rest_to_first(c, first_len, second_len) {
        (ids, right)
    } else if rest_to_second(c, first_len, second_len) {
        (ids, left)
    } else {
        let m = t.rec_mbr(ids[left]);
        let first = range_hull(t, ids, lo, left);
        let second = range_hull(t, ids, right, hi);
        if crate::mbr::spec_delta(first, m) >= crate::mbr::spec_delta(second, m) {
            settle(
                t,
                c,
                swapped(ids, left, right - 1),
                lo,
                hi,
                left,
                right - 1,
                first_len,
                second_len + 1,
            )
        } else {
            settle(t, c, ids, lo, hi, left + 1, right, first_len + 1, second_len)
        }
    }
}

/// What `split_into_2_groups` makes of the data nodes between `lo` and
/// `hi`: the list, and the index of the split. The nodes are sorted along
/// the axis of greatest dispersion; `alpha` hundredths of them at the low
/// end open the first group, `100 - alpha` hundredths at the high end the
/// second, and those between are placed by `settle`.
pub open spec fn halves(
    t: TreeView,
    alpha: nat,
    first_coeff: nat,
    second_coeff: nat,
    level: nat,
    ids: Seq<RecordId>,
    lo: int,
    hi: int,
) -> (Seq<RecordId>, int) {
    let axis = sort_axis(mbrs_of(t, ids.subrange(lo, hi)), t.dimension as int);
    let sorted = sorted_form(t, ids, axis, lo, hi);
    let n = hi - lo;
    let first_quantile = (alpha * n) / 100;
    let second_quantile = ((100 - alpha) * n) / 100;
    let right = if n - second_quantile == 0 {
        lo + 1
    } else {
        lo + (n - second_quantile)
    };
    settle(
        t,
        shares(t, first_coeff, second_coeff, level),
        sorted,
        lo,
        hi,
        lo + first_quantile,
        right,
        first_quantile,
        second_quantile,
    )
}

/// Splits the data nodes between `lo` and `hi` into a first group, which
/// comes to stand before the index returned, and a second group after it.
/// The nodes are sorted along the axis of greatest dispersion; `alpha`
/// hundredths of them at the low end open the first group, as many as
/// `100 - alpha` hundredths at the high end the second; each node between
/// them joins the group whose rectangle grows less by it, the second on a
/// tie, until one group falls short of or exceeds its share, where the rest
/// goes to make up for it. Returns the index and the common rectangle of
/// each group.
pub fn split_into_2_groups<ObjectT>(
    obj_space: &ObjSpace<ObjectT>,
    alpha: usize,
    first_group_coeff: usize,
    second_group_coeff: usize,
    level: usize,
    ids: &mut Vec<RecordId>,
    lo: usize,
    hi: usize,
    Ghost(bound): Ghost<Seq<Bounds>>,
) -> (r: (usize, MBR, MBR))
    requires
        lo < hi <= old(ids).len(),
        alpha <= 50,
        obj_space@.base_ok(),
        bound.len() == obj_space@.dimension,
        volume_fits(bound),
        ids_fit(obj_space@, old(ids)@, bound),
    ensures
        lo <= r.0 <= hi,
        perm_in(old(ids)@, final(ids)@, lo as int, hi as int),
        old(ids)@.no_duplicates() ==> final(ids)@.no_duplicates(),
        ids_fit(obj_space@, final(ids)@, bound),
        r.1@ == range_hull(obj_space@, final(ids)@, lo as int, r.0 as int),
        r.2@ == range_hull(obj_space@, final(ids)@, r.0 as int, hi as int),
        (final(ids)@, r.0 as int) == halves(
            obj_space@,
            alpha as nat,
            first_group_coeff as nat,
            second_group_coeff as nat,
            level as nat,
            old(ids)@,
            lo as int,
            hi as int,
        ),
{
    let ghost t = obj_space@;
    let ghost c = shares(t, first_group_coeff as nat, second_group_coeff as nat, level as nat);
    let ghost goal = halves(
        t,
        alpha as nat,
        first_group_coeff as nat,
        second_group_coeff as nat,
        level as nat,
        ids@,
        lo as int,
        hi as int,
    );
    let min_records = pow_sat(obj_space.min_records, level);
    let max_records = pow_sat(obj_space.max_records, level);
    let first_min: u128 = wide_mul(first_group_coeff, min_records);
    let first_max: u128 = wide_mul(first_group_coeff, max_records);
    let second_min: u128 = wide_mul(second_group_coeff, min_records);
    let second_max: u128 = wide_mul(second_group_coeff, max_records);

    let axis = find_sort_axis_index(obj_space, ids, lo, hi, Ghost(bound));
    sort_range(obj_space, ids, lo, hi, axis, Ghost(bound));

    let n = hi - lo;
    let first_quantile = quantile(alpha, n);
    let second_quantile = quantile(100 - alpha, n);
    proof {
        assert(alpha * n + (100 - alpha) * n == 100 * n) by (nonlinear_arith);
    }
    let mut left: usize = lo + first_quantile;
    let mut right: usize = if n - second_quantile == 0 {
        lo + 1
    } else {
        lo + (n - second_quantile)
    };
    let mut first_len: u128 = first_quantile as u128;
    let mut second_len: u128 = second_quantile as u128;
    let mut first_mbr = range_mbr(obj_space, ids, lo, left, Ghost(bound));
    let mut second_mbr = range_mbr(obj_space, ids, right, hi, Ghost(bound));
    let ghost sorted = ids@;

    loop
        invariant
            lo <= left <= right <= hi <= ids.len(),
            lo < hi,
            n == hi - lo,
            ids.len() == old(ids).len(),
            t == obj_space@,
            t.base_ok(),
            bound.len() == t.dimension,
            volume_fits(bound),
            perm_in(old(ids)@, ids@, lo as int, hi as int),
            old(ids)@.no_duplicates() ==> ids@.no_duplicates(),
            ids_fit(t, ids@, bound),
            first_mbr@ == range_hull(t, ids@, lo as int, left as int),
            second_mbr@ == range_hull(t, ids@, right as int, hi as int),
            first_len + (right - left) <= 2 * n,
            second_len + (right - left) <= 2 * n,
            c == shares(t, first_group_coeff as nat, second_group_coeff as nat, level as nat),
            goal == halves(
                t,
                alpha as nat,
                first_group_coeff as nat,
                second_group_coeff as nat,
                level as nat,
                old(ids)@,
                lo as int,
                hi as int,
            ),
            first_min == c.first_min,
            first_max == c.first_max,
            second_min == c.second_min,
            second_max == c.second_max,
            settle(
                t,
                c,
                ids@,
                lo as int,
                hi as int,
                left as int,
                right as int,
                first_len as int,
                second_len as int,
            ) == goal,
        decreases right - left,
    {
        if right <= left {
            proof {
                assert(settle(
                    t,
                    c,
                    ids@,
                    lo as int,
                    hi as int,
                    left as int,
                    right as int,
                    first_len as int,
                    second_len as int,
                ) == (ids@, left as int));
            }
            return (left, first_mbr, second_mbr);
        }
        let rest_to_first = first_len < first_min || (second_len >= second_min && first_len
            <= first_max && second_len > second_max);
        let rest_to_second = !rest_to_first && (second_len < second_min || first_len > first_max);
        proof {
            assert(rest_to_first == self::rest_to_first(c, first_len as int, second_len as int));
            assert(rest_to_second == self::rest_to_second(c, first_len as int, second_len as int));
        }
        if rest_to_first {
            let rest_mbr = range_mbr(obj_space, ids, left, right, Ghost(bound));
            proof {
                lemma_range_compatible(t, ids@, lo as int, left as int, bound);
                lemma_range_compatible(t, ids@, left as int, right as int, bound);
                crate::ranges::lemma_range_hull_join(
                    t,
                    ids@,
                    lo as int,
                    left as int,
                    right as int,
                    bound,
                );
            }
            first_mbr = common_mbr(&rest_mbr, &first_mbr);
            proof {
                assert(settle(
                    t,
                    c,
                    ids@,
                    lo as int,
                    hi as int,
                    left as int,
                    right as int,
                    first_len as int,
                    second_len as int,
                ) == (ids@, right as int));
            }
            return (right, first_mbr, second_mbr);
        }
        if rest_to_second {
            let rest_mbr = range_mbr(obj_space, ids, left, right, Ghost(bound));
            proof {
                lemma_range_compatible(t, ids@, left as int, right as int, bound);
                lemma_range_compatible(t, ids@, right as int, hi as int, bound);
                crate::ranges::lemma_range_hull_join(
                    t,
                    ids@,
                    left as int,
                    right as int,
                    hi as int,
                    bound,
                );
            }
            second_mbr = common_mbr(&rest_mbr, &second_mbr);
            proof {
                assert(settle(
                    t,
                    c,
                    ids@,
                    lo as int,
                    hi as int,
                    left as int,
                    right as int,
                    first_len as int,
                    second_len as int,
                ) == (ids@, left as int));
            }
            return (left, first_mbr, second_mbr);
        }
        proof {
            assert(ids@[left as int] is Data);
            assert(t.data_ok(ids@[left as int].index()));
            lemma_range_compatible(t, ids@, lo as int, left as int, bound);
            lemma_range_compatible(t, ids@, right as int, hi as int, bound);
        }
        let obj_mbr = obj_space.get_mbr(ids[left]);
        let common_first_mbr = common_mbr(&first_mbr, obj_mbr);
        let common_second_mbr = common_mbr(&second_mbr, obj_mbr);
        proof {
            lemma_common_holds(first_mbr@, obj_mbr@);
            lemma_common_holds(second_mbr@, obj_mbr@);
            lemma_common_least(first_mbr@, obj_mbr@, bound);
            lemma_common_least(second_mbr@, obj_mbr@, bound);
            lemma_volume_monotone(first_mbr@, bound);
            lemma_volume_monotone(second_mbr@, bound);
            lemma_volume_monotone(common_first_mbr@, bound);
            lemma_volume_monotone(common_second_mbr@, bound);
        }
        let first_delta = common_first_mbr.volume() - first_mbr.volume();
        let second_delta = common_second_mbr.volume() - second_mbr.volume();
        let ghost prev = ids@;
        if first_delta >= second_delta {
            swap_ids(ids, left, right - 1);
            proof {
                lemma_perm_swap(prev, left as int, right as int, left as int, right - 1);
                crate::ranges::lemma_perm_widen(
                    prev,
                    ids@,
                    lo as int,
                    hi as int,
                    left as int,
                    right as int,
                );
                lemma_perm_swap(prev, lo as int, hi as int, left as int, right - 1);
                lemma_perm_trans(old(ids)@, prev, ids@, lo as int, hi as int);
                crate::ranges::lemma_perm_keeps_fit(t, prev, ids@, lo as int, hi as int, bound);
                crate::ranges::lemma_range_hull_apart(
                    t,
                    prev,
                    ids@,
                    lo as int,
                    left as int,
                    left as int,
                    right as int,
                );
                crate::ranges::lemma_range_hull_apart(
                    t,
                    prev,
                    ids@,
                    right as int,
                    hi as int,
                    left as int,
                    right as int,
                );
                crate::ranges::lemma_range_hull_join(
                    t,
                    ids@,
                    right - 1,
                    right as int,
                    hi as int,
                    bound,
                );
                let single = ids@.subrange(right - 1, right as int);
                assert(single =~= seq![prev[left as int]]);
                let e = Seq::<Seq<Bounds>>::empty();
                assert(mbrs_of(t, single) =~= e.push(obj_mbr@));
                lemma_hull_push(e, obj_mbr@);
                assert(spec_common(spec_hull(e), obj_mbr@) =~= obj_mbr@);
            }
            right -= 1;
            second_len += 1;
            second_mbr = common_second_mbr;
        } else {
            proof {
                assert(ids@.subrange(lo as int, left + 1) =~= ids@.subrange(
                    lo as int,
                    left as int,
                ).push(ids@[left as int]));
                assert(mbrs_of(t, ids@.subrange(lo as int, left + 1)) =~= mbrs_of(
                    t,
                    ids@.subrange(lo as int, left as int),
                ).push(obj_mbr@));
                lemma_hull_push(mbrs_of(t, ids@.subrange(lo as int, left as int)), obj_mbr@);
            }
            left += 1;
            first_len += 1;
            first_mbr = common_first_mbr;
        }
    }
}

/// A group of data nodes that the static build puts under one node: the
/// range of the list that holds them, and their common rectangle.
#[derive(Debug)]
pub struct Group {
    pub lo: usize,
    pub hi: usize,
    pub mbr: MBR,
}

/// The groups partition the range from `lo` to `hi` in order: none is empty,
/// each begins where the one before it ends, and each has the common
/// rectangle of its data nodes.
pub open spec fn chain_ok(
    t: TreeView,
    ids: Seq<RecordId>,
    groups: Seq<Group>,
    lo: int,
    hi: int,
) -> bool {
    &&& groups.len() == 0 ==> lo == hi
    &&& groups.len() > 0 ==> groups[0].lo == lo && groups[groups.len() - 1].hi == hi
    &&& forall|g: int|
        0 <= g < groups.len() ==> lo <= (#[trigger] groups[g]).lo < groups[g].hi <= hi
            && groups[g].mbr@ == range_hull(t, ids, groups[g].lo as int, groups[g].hi as int)
    &&& forall|g: int|
        0 <= g < groups.len() - 1 ==> (#[trigger] groups[g]).hi == groups[g + 1].lo
}

/// Two chains side by side make one.
pub proof fn lemma_chain_join(
    t: TreeView,
    ids: Seq<RecordId>,
    g1: Seq<Group>,
    g2: Seq<Group>,
    lo: int,
    mid: int,
    hi: int,
)
    requires
        chain_ok(t, ids, g1, lo, mid),
        chain_ok(t, ids, g2, mid, hi),
        lo <= mid <= hi,
    ensures
        chain_ok(t, ids, g1 + g2, lo, hi),
{
    let g = g1 + g2;
    assert forall|k: int| 0 <= k < g.len() implies lo <= (#[trigger] g[k]).lo < g[k].hi <= hi
        && g[k].mbr@ == range_hull(t, ids, g[k].lo as int, g[k].hi as int) by {
        if k < g1.len() {
            assert(g[k] == g1[k]);
        } else {
            assert(g[k] == g2[k - g1.len()]);
        }
    }
    assert forall|k: int| 0 <= k < g.len() - 1 implies (#[trigger] g[k]).hi == g[k + 1].lo by {
        if k < g1.len() - 1 {
            assert(g[k] == g1[k]);
            assert(g[k + 1] == g1[k + 1]);
        } else if k == g1.len() - 1 {
            assert(g[k] == g1[k]);
            assert(g[k + 1] == g2[0]);
        } else {
            assert(g[k] == g2[k - g1.len()]);
            assert(g[k + 1] == g2[k + 1 - g1.len()]);
        }
    }
    if g.len() > 0 {
        if g1.len() > 0 {
            assert(g[0] == g1[0]);
        } else {
            assert(g[0] == g2[0]);
        }
        if g2.len() > 0 {
            assert(g[g.len() - 1] == g2[g2.len() - 1]);
        } else {
            assert(g[g.len() - 1] == g1[g1.len() - 1]);
        }
    }
}

/// A chain stays one where the list is rearranged outside its range.
pub proof fn lemma_chain_apart(
    t: TreeView,
    a: Seq<RecordId>,
    b: Seq<RecordId>,
    groups: Seq<Group>,
    lo: int,
    hi: int,
    lo2: int,
    hi2: int,
)
    requires
        chain_ok(t, a, groups, lo, hi),
        perm_in(a, b, lo2, hi2),
        0 <= lo <= hi <= a.len(),
        hi <= lo2 || hi2 <= lo,
    ensures
        chain_ok(t, b, groups, lo, hi),
{
    assert forall|g: int| 0 <= g < groups.len() implies lo <= (#[trigger] groups[g]).lo
        < groups[g].hi <= hi && groups[g].mbr@ == range_hull(
        t,
        b,
        groups[g].lo as int,
        groups[g].hi as int,
    ) by {
        crate::ranges::lemma_range_hull_apart(
            t,
            a,
            b,
            groups[g].lo as int,
            groups[g].hi as int,
            lo2,
            hi2,
        );
    }
}

/// The ranges of the groups, in order.
pub open spec fn ranges_of(groups: Seq<Group>) -> Seq<(int, int)> {
    Seq::new(groups.len(), |g: int| (groups[g].lo as int, groups[g].hi as int))
}

/// What `split_groups` makes of the data nodes between `lo` and `hi`: the
/// list, and the ranges of the groups in order. The range is split in two
/// by `halves`, with `k / 2` and the rest of `k` as the numbers of groups
/// that the two parts are to make; a part that is to make more than one
/// group is split on in the same way, the first part before the second; an
/// empty part makes no group.
pub open spec fn groups_of(
    t: TreeView,
    alpha: nat,
    k: nat,
    level: nat,
    ids: Seq<RecordId>,
    lo: int,
    hi: int,
) -> (Seq<RecordId>, Seq<(int, int)>)
    decreases k,
{
    let first_coeff = k / 2;
    let second_coeff = (k - first_coeff) as nat;
    let split = halves(t, alpha, first_coeff, second_coeff, level, ids, lo, hi);
    let mid = split.1;
    let first = if lo == mid {
        (split.0, Seq::<(int, int)>::empty())
    } else if first_coeff > 1 {
        groups_of(t, alpha, first_coeff, level, split.0, lo, mid)
    } else {
        (split.0, seq![(lo, mid)])
    };
    let second = if mid == hi {
        (first.0, Seq::<(int, int)>::empty())
    } else if second_coeff > 1 {
        groups_of(t, alpha, second_coeff, level, first.0, mid, hi)
    } else {
        (first.0, seq![(mid, hi)])
    };
    (second.0, first.1 + second.1)
}

/// Splits the data nodes between `lo` and `hi` into at most
/// `node_child_num` groups, by `split_into_2_groups` on halves of the
/// number of groups until a half asks for one group. Returns the groups in
/// the order of the list; an empty group is left out.
pub fn split_groups<ObjectT>(
    obj_space: &ObjSpace<ObjectT>,
    alpha: usize,
    node_child_num: usize,
    level: usize,
    ids: &mut Vec<RecordId>,
    lo: usize,
    hi: usize,
    Ghost(bound): Ghost<Seq<Bounds>>,
) -> (groups: Vec<Group>)
    requires
        lo < hi <= old(ids).len(),
        alpha <= 50,
        obj_space@.base_ok(),
        bound.len() == obj_space@.dimension,
        volume_fits(bound),
        ids_fit(obj_space@, old(ids)@, bound),
    ensures
        chain_ok(obj_space@, final(ids)@, groups@, lo as int, hi as int),
        groups@.len() >= 1,
        perm_in(old(ids)@, final(ids)@, lo as int, hi as int),
        old(ids)@.no_duplicates() ==> final(ids)@.no_duplicates(),
        ids_fit(obj_space@, final(ids)@, bound),
        (final(ids)@, ranges_of(groups@)) == groups_of(
            obj_space@,
            alpha as nat,
            node_child_num as nat,
            level as nat,
            old(ids)@,
            lo as int,
            hi as int,
        ),
    decreases node_child_num,
{
    let ghost t = obj_space@;
    let first_group_coeff = node_child_num / 2;
    let second_group_coeff = node_child_num - first_group_coeff;

    let (mid, mbr_1, mbr_2) = split_into_2_groups(
        obj_space,
        alpha,
        first_group_coeff,
        second_group_coeff,
        level,
        ids,
        lo,
        hi,
        Ghost(bound),
    );
    let ghost split = ids@;
    proof {
        lemma_range_compatible(t, split, lo as int, mid as int, bound);
        lemma_range_compatible(t, split, mid as int, hi as int, bound);
    }

    let mut groups: Vec<Group> = Vec::new();
    if !mbr_1.is_undefined() {
        if first_group_coeff > 1 {
            let mut sub_group_1 = split_groups(
                obj_space,
                alpha,
                first_group_coeff,
                level,
                ids,
                lo,
                mid,
                Ghost(bound),
            );
            proof {
                crate::ranges::lemma_perm_widen(
                    split,
                    ids@,
                    lo as int,
                    hi as int,
                    lo as int,
                    mid as int,
                );
                lemma_perm_trans(old(ids)@, split, ids@, lo as int, hi as int);
                crate::ranges::lemma_range_hull_apart(
                    t,
                    split,
                    ids@,
                    mid as int,
                    hi as int,
                    lo as int,
                    mid as int,
                );
            }
            groups.append(&mut sub_group_1);
        } else {
            groups.push(Group { lo, hi: mid, mbr: mbr_1 });
        }
    }
    let ghost first_spec = if lo == mid {
        (split, Seq::<(int, int)>::empty())
    } else if first_group_coeff > 1 {
        groups_of(
            t,
            alpha as nat,
            first_group_coeff as nat,
            level as nat,
            split,
            lo as int,
            mid as int,
        )
    } else {
        (split, seq![(lo as int, mid as int)])
    };
    proof {
        assert(chain_ok(t, ids@, groups@, lo as int, mid as int));
        assert(ranges_of(groups@) =~= first_spec.1);
        assert(ids@ == first_spec.0);
    }
    let ghost first_done = ids@;
    let ghost first_groups = groups@;
    if !mbr_2.is_undefined() {
        if second_group_coeff > 1 {
            let mut sub_group_2 = split_groups(
                obj_space,
                alpha,
                second_group_coeff,
                level,
                ids,
                mid,
                hi,
                Ghost(bound),
            );
            proof {
                crate::ranges::lemma_perm_widen(
                    first_done,
                    ids@,
                    lo as int,
                    hi as int,
                    mid as int,
                    hi as int,
                );
                lemma_perm_trans(old(ids)@, first_done, ids@, lo as int, hi as int);
                lemma_chain_apart(
                    t,
                    first_done,
                    ids@,
                    first_groups,
                    lo as int,
                    mid as int,
                    mid as int,
                    hi as int,
                );
                lemma_chain_join(
                    t,
                    ids@,
                    first_groups,
                    sub_group_2@,
                    lo as int,
                    mid as int,
                    hi as int,
                );
                assert(ranges_of(first_groups + sub_group_2@) =~= ranges_of(first_groups)
                    + ranges_of(sub_group_2@));
            }
            groups.append(&mut sub_group_2);
        } else {
            proof {
                let single = seq![Group { lo: mid, hi, mbr: mbr_2 }];
                assert(chain_ok(t, ids@, single, mid as int, hi as int));
                lemma_chain_join(t, ids@, first_groups, single, lo as int, mid as int, hi as int);
                assert(first_groups.push(Group { lo: mid, hi, mbr: mbr_2 }) =~= first_groups
                    + single);
                assert(ranges_of(first_groups + single) =~= ranges_of(first_groups) + seq![
                    (mid as int, hi as int),
                ]);
            }
            groups.push(Group { lo: mid, hi, mbr: mbr_2 });
        }
    } else {
        proof {
            assert(ranges_of(groups@) =~= first_spec.1 + Seq::<(int, int)>::empty());
        }
    }
    groups
}

/// In a chain, a later group begins where the first one has ended, or
/// after.
pub proof fn lemma_chain_rises(
    t: TreeView,
    ids: Seq<RecordId>,
    groups: Seq<Group>,
    lo: int,
    hi: int,
    q: int,
)
    requires
        chain_ok(t, ids, groups, lo, hi),
        1 <= q < groups.len(),
    ensures
        groups[0].hi <= groups[q].lo,
    decreases q,
{
    if q > 1 {
        lemma_chain_rises(t, ids, groups, lo, hi, q - 1);
        assert(groups[q - 1].hi == groups[q].lo);
        assert(groups[q - 1].lo < groups[q - 1].hi);
    } else {
        assert(groups[0].hi == groups[1].lo);
    }
}

/// What is left of a chain after its first group, where the list was
/// rearranged inside that group.
pub proof fn lemma_chain_tail(
    t: TreeView,
    a: Seq<RecordId>,
    b: Seq<RecordId>,
    groups: Seq<Group>,
    g: int,
    hi: int,
)
    requires
        0 <= g < groups.len(),
        chain_ok(t, a, groups.subrange(g, groups.len() as int), groups[g].lo as int, hi),
        perm_in(a, b, groups[g].lo as int, groups[g].hi as int),
        hi <= a.len(),
    ensures
        chain_ok(t, b, groups.subrange(g + 1, groups.len() as int), groups[g].hi as int, hi),
        g + 1 < groups.len() ==> groups[g + 1].lo == groups[g].hi,
        g + 1 == groups.len() ==> groups[g].hi == hi,
        groups[g].lo < groups[g].hi <= hi,
        groups[g].mbr@ == range_hull(t, a, groups[g].lo as int, groups[g].hi as int),
{
    let rest = groups.subrange(g, groups.len() as int);
    let rest2 = groups.subrange(g + 1, groups.len() as int);
    let glo = groups[g].lo as int;
    let ghi = groups[g].hi as int;
    assert(rest[0] == groups[g]);
    assert forall|q: int| 0 <= q < rest2.len() implies rest2[q] == rest[q + 1] by {}
    if g + 1 < groups.len() {
        assert(rest[0].hi == rest[1].lo);
        assert(rest[1] == groups[g + 1]);
    } else {
        assert(rest.len() == 1);
    }
    assert(chain_ok(t, a, rest2, ghi, hi)) by {
        assert forall|q: int| 0 <= q < rest2.len() implies ghi <= (#[trigger] rest2[q]).lo
            < rest2[q].hi <= hi && rest2[q].mbr@ == range_hull(
            t,
            a,
            rest2[q].lo as int,
            rest2[q].hi as int,
        ) by {
            assert(rest2[q] == rest[q + 1]);
            lemma_chain_rises(t, a, rest, glo, hi, q + 1);
        }
        assert forall|q: int| 0 <= q < rest2.len() - 1 implies (#[trigger] rest2[q]).hi
            == rest2[q + 1].lo by {
            assert(rest2[q] == rest[q + 1]);
            assert(rest2[q + 1] == rest[q + 2]);
        }
        if rest2.len() > 0 {
            assert(rest2[0] == rest[1]);
            assert(rest2[rest2.len() - 1] == rest[rest.len() - 1]);
        }
    }
    lemma_chain_apart(t, a, b, rest2, ghi, hi, glo, ghi);
}

} // verus!
