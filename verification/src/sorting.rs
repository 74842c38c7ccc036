//! The order of data nodes along an axis: the key, and the sort by it.

use crate::mbr::Bounds;
use crate::model::TreeView;
use crate::node::RecordId;
use crate::obj_space::ObjSpace;
use crate::ranges::{ids_fit, in_range, perm_in, swapped};
use vstd::prelude::*;

verus! {

/// The key by which data nodes are sorted: twice the midpoint of the
/// rectangle on axis `ax`.
pub open spec fn sort_key(t: TreeView, id: RecordId, ax: int) -> int {
    t.data[id.index()].mbr[ax].min + t.data[id.index()].mbr[ax].max
}

/// The key of the member at `k`.
pub open spec fn key_of(t: TreeView, ids: Seq<RecordId>, k: int, ax: int) -> int {
    sort_key(t, ids[k], ax)
}

/// The members between `lo` and `hi` stand in the order of their keys.
pub open spec fn sorted_in(t: TreeView, ids: Seq<RecordId>, ax: int, lo: int, hi: int) -> bool {
    forall|k1: int, k2: int|
        lo <= k1 < k2 < hi ==> #[trigger] key_of(t, ids, k1, ax) <= #[trigger] key_of(
            t,
            ids,
            k2,
            ax,
        )
}

/// Computes `sort_key`.
pub fn key_at<ObjectT>(
    obj_space: &ObjSpace<ObjectT>,
    ids: &Vec<RecordId>,
    k: usize,
    axis: usize,
) -> (key: i128)
    requires
        k < ids.len(),
        ids@[k as int] is Data,
        ids@[k as int].index() < obj_space@.data.len(),
        axis < obj_space@.data[ids@[k as int].index()].mbr.len(),
    ensures
        key == sort_key(obj_space@, ids@[k as int], axis as int),
{
    let b = obj_space.get_mbr(ids[k]).bounds(axis);
    (b.min as i128) + (b.max as i128)
}

/// Exchanges the members at `i` and `j`.
pub fn swap_ids(ids: &mut Vec<RecordId>, i: usize, j: usize)
    requires
        i < old(ids).len(),
        j < old(ids).len(),
    ensures
        final(ids)@ == swapped(old(ids)@, i as int, j as int),
{
    let a = ids[i];
    let b = ids[j];
    ids[i] = b;
    ids[j] = a;
}

/// Two sorted lists merged into one: at every step the first member of `a`
/// where its key is not greater than that of the first member of `b`, else
/// the first member of `b`.
pub open spec fn merged(t: TreeView, a: Seq<RecordId>, b: Seq<RecordId>, ax: int) -> Seq<RecordId>
    decreases a.len() + b.len(),
{
    if a.len() == 0 {
        b
    } else if b.len() == 0 {
        a
    } else if sort_key(t, a[0], ax) <= sort_key(t, b[0], ax) {
        seq![a[0]] + merged(t, a.skip(1), b, ax)
    } else {
        seq![b[0]] + merged(t, a, b.skip(1), ax)
    }
}

/// `s` sorted by key: its two halves sorted and merged. Members of equal
/// keys keep their order.
pub open spec fn sort_seq(t: TreeView, s: Seq<RecordId>, ax: int) -> Seq<RecordId>
    decreases s.len(),
{
    if s.len() < 2 {
        s
    } else {
        let mid = (s.len() / 2) as int;
        merged(t, sort_seq(t, s.take(mid), ax), sort_seq(t, s.skip(mid), ax), ax)
    }
}

/// `ids` with the members between `lo` and `hi` sorted by key.
pub open spec fn sorted_form(t: TreeView, ids: Seq<RecordId>, ax: int, lo: int, hi: int) -> Seq<
    RecordId,
> {
    ids.subrange(0, lo) + sort_seq(t, ids.subrange(lo, hi), ax) + ids.subrange(
        hi,
        ids.len() as int,
    )
}

/// The members of `s` stand in the order of their keys.
pub open spec fn in_order(t: TreeView, s: Seq<RecordId>, ax: int) -> bool {
    forall|k1: int, k2: int|
        0 <= k1 < k2 < s.len() ==> #[trigger] key_of(t, s, k1, ax) <= #[trigger] key_of(
            t,
            s,
            k2,
            ax,
        )
}

/// A merge holds the members of both lists and no other, none twice where
/// the lists hold none twice and share none; and it is in order where both
/// lists are.
pub proof fn lemma_merged(t: TreeView, a: Seq<RecordId>, b: Seq<RecordId>, ax: int)
    ensures
        merged(t, a, b, ax).len() == a.len() + b.len(),
        forall|y: RecordId| merged(t, a, b, ax).contains(y) <==> a.contains(y) || b.contains(y),
        a.no_duplicates() && b.no_duplicates() && (forall|y: RecordId|
            !(a.contains(y) && b.contains(y))) ==> merged(t, a, b, ax).no_duplicates(),
        in_order(t, a, ax) && in_order(t, b, ax) ==> in_order(t, merged(t, a, b, ax), ax),
    decreases a.len() + b.len(),
{
    let m = merged(t, a, b, ax);
    if a.len() == 0 || b.len() == 0 {
        assert forall|y: RecordId| m.contains(y) <==> a.contains(y) || b.contains(y) by {
            if a.len() == 0 && a.contains(y) {
                let k = choose|k: int| 0 <= k < a.len() && a[k] == y;
            }
            if b.len() == 0 && b.contains(y) {
                let k = choose|k: int| 0 <= k < b.len() && b[k] == y;
            }
        }
    } else {
        let left = sort_key(t, a[0], ax) <= sort_key(t, b[0], ax);
        let head = if left {
            a[0]
        } else {
            b[0]
        };
        let a2 = if left {
            a.skip(1)
        } else {
            a
        };
        let b2 = if left {
            b
        } else {
            b.skip(1)
        };
        let rest = merged(t, a2, b2, ax);
        lemma_merged(t, a2, b2, ax);
        assert(m == seq![head] + rest);
        assert(m[0] == head);
        assert forall|k: int| 0 <= k < rest.len() implies m[k + 1] == #[trigger] rest[k] by {}
        // what the shortened list holds
        let src = if left {
            a
        } else {
            b
        };
        let cut = src.skip(1);
        assert forall|y: RecordId| src.contains(y) <==> y == head || cut.contains(y) by {
            if src.contains(y) {
                let k = choose|k: int| 0 <= k < src.len() && src[k] == y;
                if k > 0 {
                    assert(cut[k - 1] == y);
                }
            }
            if cut.contains(y) {
                let k = choose|k: int| 0 <= k < cut.len() && cut[k] == y;
                assert(src[k + 1] == y);
            }
            if y == head {
                assert(src[0] == y);
            }
        }
        assert forall|y: RecordId| m.contains(y) <==> a.contains(y) || b.contains(y) by {
            if m.contains(y) {
                let k = choose|k: int| 0 <= k < m.len() && m[k] == y;
                if k > 0 {
                    assert(rest[k - 1] == y);
                    assert(rest.contains(y));
                }
            }
            if rest.contains(y) {
                let k = choose|k: int| 0 <= k < rest.len() && rest[k] == y;
                assert(m[k + 1] == y);
            }
        }
        if a.no_duplicates() && b.no_duplicates() && (forall|y: RecordId|
            !(a.contains(y) && b.contains(y))) {
            assert(cut.no_duplicates()) by {
                assert forall|k1: int, k2: int|
                    0 <= k1 < cut.len() && 0 <= k2 < cut.len() && k1 != k2 implies cut[k1]
                    != cut[k2] by {
                    assert(cut[k1] == src[k1 + 1]);
                    assert(cut[k2] == src[k2 + 1]);
                }
            }
            assert(!cut.contains(head)) by {
                if cut.contains(head) {
                    let k = choose|k: int| 0 <= k < cut.len() && cut[k] == head;
                    assert(src[k + 1] == src[0]);
                }
            }
            assert(src.contains(head));
            assert(!rest.contains(head));
            assert(rest.no_duplicates());
            assert forall|k1: int, k2: int|
                0 <= k1 < m.len() && 0 <= k2 < m.len() && k1 != k2 implies m[k1] != m[k2] by {
                if k1 > 0 && k2 > 0 {
                    assert(rest[k1 - 1] != rest[k2 - 1]);
                } else if k1 > 0 {
                    assert(rest.contains(rest[k1 - 1]));
                } else {
                    assert(rest.contains(rest[k2 - 1]));
                }
            }
        }
        if in_order(t, a, ax) && in_order(t, b, ax) {
            assert(in_order(t, a2, ax)) by {
                assert forall|k1: int, k2: int| 0 <= k1 < k2 < a2.len() implies #[trigger] key_of(
                    t,
                    a2,
                    k1,
                    ax,
                ) <= #[trigger] key_of(t, a2, k2, ax) by {
                    if left {
                        assert(key_of(t, a, k1 + 1, ax) <= key_of(t, a, k2 + 1, ax));
                    }
                }
            }
            assert(in_order(t, b2, ax)) by {
                assert forall|k1: int, k2: int| 0 <= k1 < k2 < b2.len() implies #[trigger] key_of(
                    t,
                    b2,
                    k1,
                    ax,
                ) <= #[trigger] key_of(t, b2, k2, ax) by {
                    if !left {
                        assert(key_of(t, b, k1 + 1, ax) <= key_of(t, b, k2 + 1, ax));
                    }
                }
            }
            // the head is not greater than any other member
            assert forall|k: int| 0 <= k < rest.len() implies sort_key(t, head, ax) <= key_of(
                t,
                rest,
                k,
                ax,
            ) by {
                let y = rest[k];
                assert(rest.contains(y));
                if a2.contains(y) {
                    let j = choose|j: int| 0 <= j < a2.len() && a2[j] == y;
                    if left {
                        assert(key_of(t, a, 0, ax) <= key_of(t, a, j + 1, ax));
                    } else {
                        if j > 0 {
                            assert(key_of(t, a, 0, ax) <= key_of(t, a, j, ax));
                        }
                    }
                } else {
                    let j = choose|j: int| 0 <= j < b2.len() && b2[j] == y;
                    if left {
                        if j > 0 {
                            assert(key_of(t, b, 0, ax) <= key_of(t, b, j, ax));
                        }
                    } else {
                        assert(key_of(t, b, 0, ax) <= key_of(t, b, j + 1, ax));
                    }
                }
            }
            assert forall|k1: int, k2: int| 0 <= k1 < k2 < m.len() implies #[trigger] key_of(
                t,
                m,
                k1,
                ax,
            ) <= #[trigger] key_of(t, m, k2, ax) by {
                if k1 == 0 {
                    assert(sort_key(t, head, ax) <= key_of(t, rest, k2 - 1, ax));
                } else {
                    assert(key_of(t, rest, k1 - 1, ax) <= key_of(t, rest, k2 - 1, ax));
                }
            }
        }
    }
}

/// A sorted list holds the members of the list it was made of and no other,
/// none twice where that list holds none twice; and it is in order.
pub proof fn lemma_sort_seq(t: TreeView, s: Seq<RecordId>, ax: int)
    ensures
        sort_seq(t, s, ax).len() == s.len(),
        forall|y: RecordId| sort_seq(t, s, ax).contains(y) <==> s.contains(y),
        s.no_duplicates() ==> sort_seq(t, s, ax).no_duplicates(),
        in_order(t, sort_seq(t, s, ax), ax),
    decreases s.len(),
{
    if s.len() >= 2 {
        let mid = (s.len() / 2) as int;
        let a = s.take(mid);
        let b = s.skip(mid);
        lemma_sort_seq(t, a, ax);
        lemma_sort_seq(t, b, ax);
        let sa = sort_seq(t, a, ax);
        let sb = sort_seq(t, b, ax);
        lemma_merged(t, sa, sb, ax);
        assert forall|y: RecordId| s.contains(y) <==> a.contains(y) || b.contains(y) by {
            if s.contains(y) {
                let k = choose|k: int| 0 <= k < s.len() && s[k] == y;
                if k < mid {
                    assert(a[k] == y);
                } else {
                    assert(b[k - mid] == y);
                }
            }
            if a.contains(y) {
                let k = choose|k: int| 0 <= k < a.len() && a[k] == y;
                assert(s[k] == y);
            }
            if b.contains(y) {
                let k = choose|k: int| 0 <= k < b.len() && b[k] == y;
                assert(s[k + mid] == y);
            }
        }
        if s.no_duplicates() {
            assert(a.no_duplicates());
            assert(b.no_duplicates()) by {
                assert forall|k1: int, k2: int|
                    0 <= k1 < b.len() && 0 <= k2 < b.len() && k1 != k2 implies b[k1] != b[k2] by {
                    assert(b[k1] == s[k1 + mid]);
                    assert(b[k2] == s[k2 + mid]);
                }
            }
            assert forall|y: RecordId| !(sa.contains(y) && sb.contains(y)) by {
                if a.contains(y) && b.contains(y) {
                    let k1 = choose|k: int| 0 <= k < a.len() && a[k] == y;
                    let k2 = choose|k: int| 0 <= k < b.len() && b[k] == y;
                    assert(s[k1] == s[k2 + mid]);
                }
            }
        }
    } else {
        assert forall|k1: int, k2: int| 0 <= k1 < k2 < s.len() implies #[trigger] key_of(
            t,
            s,
            k1,
            ax,
        ) <= #[trigger] key_of(t, s, k2, ax) by {}
    }
}

/// What holds of a list with a range sorted: the range is rearranged and in
/// order, nothing else has changed, and no member is there twice that was
/// not there twice before.
pub proof fn lemma_sorted_form(
    t: TreeView,
    ids: Seq<RecordId>,
    ax: int,
    lo: int,
    hi: int,
    bound: Seq<Bounds>,
)
    requires
        0 <= lo <= hi <= ids.len(),
    ensures
        sorted_form(t, ids, ax, lo, hi).len() == ids.len(),
        sorted_form(t, ids, ax, lo, hi).subrange(lo, hi) == sort_seq(t, ids.subrange(lo, hi), ax),
        perm_in(ids, sorted_form(t, ids, ax, lo, hi), lo, hi),
        ids.no_duplicates() ==> sorted_form(t, ids, ax, lo, hi).no_duplicates(),
        ids_fit(t, ids, bound) ==> ids_fit(t, sorted_form(t, ids, ax, lo, hi), bound),
        sorted_in(t, sorted_form(t, ids, ax, lo, hi), ax, lo, hi),
{
    let part = ids.subrange(lo, hi);
    let sorted = sort_seq(t, part, ax);
    let f = sorted_form(t, ids, ax, lo, hi);
    lemma_sort_seq(t, part, ax);
    assert(f.len() == ids.len());
    assert forall|k: int| 0 <= k < f.len() implies #[trigger] f[k] == (if lo <= k < hi {
        sorted[k - lo]
    } else {
        ids[k]
    }) by {}
    assert(f.subrange(lo, hi) =~= sorted);
    assert forall|y: RecordId| in_range(ids, lo, hi, y) <==> in_range(f, lo, hi, y) by {
        if in_range(ids, lo, hi, y) {
            let k = choose|k: int| lo <= k < hi && #[trigger] ids[k] == y;
            assert(part[k - lo] == y);
            assert(part.contains(y));
            assert(sorted.contains(y));
            let j = choose|j: int| 0 <= j < sorted.len() && sorted[j] == y;
            assert(f[j + lo] == y);
        }
        if in_range(f, lo, hi, y) {
            let k = choose|k: int| lo <= k < hi && #[trigger] f[k] == y;
            assert(sorted[k - lo] == y);
            assert(sorted.contains(y));
            assert(part.contains(y));
            let j = choose|j: int| 0 <= j < part.len() && part[j] == y;
            assert(ids[j + lo] == y);
        }
    }
    if ids.no_duplicates() {
        assert(part.no_duplicates()) by {
            assert forall|k1: int, k2: int|
                0 <= k1 < part.len() && 0 <= k2 < part.len() && k1 != k2 implies part[k1]
                != part[k2] by {
                assert(part[k1] == ids[k1 + lo]);
                assert(part[k2] == ids[k2 + lo]);
            }
        }
        assert forall|k1: int, k2: int|
            0 <= k1 < f.len() && 0 <= k2 < f.len() && k1 != k2 implies f[k1] != f[k2] by {
            let in1 = lo <= k1 < hi;
            let in2 = lo <= k2 < hi;
            if in1 && in2 {
                assert(sorted[k1 - lo] != sorted[k2 - lo]);
            } else if in1 {
                assert(in_range(f, lo, hi, f[k1]));
                let j = choose|j: int| lo <= j < hi && #[trigger] ids[j] == f[k1];
                assert(ids[j] != ids[k2]);
            } else if in2 {
                assert(in_range(f, lo, hi, f[k2]));
                let j = choose|j: int| lo <= j < hi && #[trigger] ids[j] == f[k2];
                assert(ids[j] != ids[k1]);
            }
        }
    }
    if ids_fit(t, ids, bound) {
        crate::ranges::lemma_perm_keeps_fit(t, ids, f, lo, hi, bound);
    }
    assert forall|k1: int, k2: int| lo <= k1 < k2 < hi implies #[trigger] key_of(t, f, k1, ax)
        <= #[trigger] key_of(t, f, k2, ax) by {
        assert(key_of(t, sorted, k1 - lo, ax) <= key_of(t, sorted, k2 - lo, ax));
    }
}

/// Merges the members between `lo` and `mid` with those between `mid` and
/// `hi`.
pub fn merge_ranges<ObjectT>(
    obj_space: &ObjSpace<ObjectT>,
    ids: &mut Vec<RecordId>,
    lo: usize,
    mid: usize,
    hi: usize,
    axis: usize,
    Ghost(bound): Ghost<Seq<Bounds>>,
)
    requires
        lo <= mid <= hi <= old(ids).len(),
        obj_space@.all_data_ok(),
        axis < obj_space@.dimension,
        ids_fit(obj_space@, old(ids)@, bound),
    ensures
        final(ids)@ == old(ids)@.subrange(0, lo as int) + merged(
            obj_space@,
            old(ids)@.subrange(lo as int, mid as int),
            old(ids)@.subrange(mid as int, hi as int),
            axis as int,
        ) + old(ids)@.subrange(hi as int, old(ids)@.len() as int),
{
    let ghost t = obj_space@;
    let ghost ids0 = ids@;
    let ghost ax = axis as int;
    let ghost goal = merged(
        t,
        ids0.subrange(lo as int, mid as int),
        ids0.subrange(mid as int, hi as int),
        ax,
    );
    let mut out: Vec<RecordId> = Vec::new();
    let mut i: usize = lo;
    let mut j: usize = mid;
    proof {
        assert(out@ + goal =~= goal);
    }
    while i < mid || j < hi
        invariant
            lo <= i <= mid <= j <= hi <= ids.len(),
            ids@ == ids0,
            t == obj_space@,
            t.all_data_ok(),
            axis < t.dimension,
            ax == axis as int,
            ids_fit(t, ids0, bound),
            out@.len() == (i - lo) + (j - mid),
            out@ + merged(
                t,
                ids0.subrange(i as int, mid as int),
                ids0.subrange(j as int, hi as int),
                ax,
            ) == goal,
        decreases (mid - i) + (hi - j),
    {
        let ghost a = ids0.subrange(i as int, mid as int);
        let ghost b = ids0.subrange(j as int, hi as int);
        let take_left = if j >= hi {
            true
        } else if i >= mid {
            false
        } else {
            proof {
                assert(ids0[i as int] is Data);
                assert(ids0[j as int] is Data);
                assert(t.data_ok(ids0[i as int].index()));
                assert(t.data_ok(ids0[j as int].index()));
            }
            key_at(obj_space, ids, i, axis) <= key_at(obj_space, ids, j, axis)
        };
        let ghost before = out@;
        if take_left {
            out.push(ids[i]);
            proof {
                assert(a[0] == ids0[i as int]);
                assert(a.skip(1) =~= ids0.subrange(i + 1, mid as int));
                if b.len() == 0 {
                    assert(merged(t, a, b, ax) == a);
                    assert(merged(t, a.skip(1), b, ax) == a.skip(1));
                    assert(a =~= seq![a[0]] + a.skip(1));
                }
                assert(merged(t, a, b, ax) =~= seq![a[0]] + merged(t, a.skip(1), b, ax));
                assert(out@ + merged(t, a.skip(1), b, ax) =~= before + merged(t, a, b, ax));
            }
            i += 1;
        } else {
            out.push(ids[j]);
            proof {
                assert(b[0] == ids0[j as int]);
                assert(b.skip(1) =~= ids0.subrange(j + 1, hi as int));
                if a.len() == 0 {
                    assert(merged(t, a, b, ax) == b);
                    assert(merged(t, a, b.skip(1), ax) == b.skip(1));
                    assert(b =~= seq![b[0]] + b.skip(1));
                }
                assert(merged(t, a, b, ax) =~= seq![b[0]] + merged(t, a, b.skip(1), ax));
                assert(out@ + merged(t, a, b.skip(1), ax) =~= before + merged(t, a, b, ax));
            }
            j += 1;
        }
    }
    proof {
        assert(ids0.subrange(mid as int, mid as int) =~= Seq::<RecordId>::empty());
        assert(ids0.subrange(hi as int, hi as int) =~= Seq::<RecordId>::empty());
        assert(out@ =~= goal);
    }
    let mut k: usize = 0;
    while k < out.len()
        invariant
            k <= out.len(),
            out@ == goal,
            out@.len() == hi - lo,
            lo <= hi <= ids.len(),
            ids.len() == ids0.len(),
            forall|x: int| 0 <= x < ids@.len() && !(lo <= x < lo + k) ==> ids@[x] == ids0[x],
            forall|x: int| lo <= x < lo + k ==> ids@[x] == goal[x - lo],
        decreases out.len() - k,
    {
        ids[lo + k] = out[k];
        k += 1;
    }
    proof {
        assert(ids@ =~= ids0.subrange(0, lo as int) + goal + ids0.subrange(
            hi as int,
            ids0.len() as int,
        ));
    }
}

/// Sorts the data nodes between `lo` and `hi` by the midpoints of their
/// rectangles on `axis`; data nodes with the same midpoint keep their
/// order.
pub fn sort_range<ObjectT>(
    obj_space: &ObjSpace<ObjectT>,
    ids: &mut Vec<RecordId>,
    lo: usize,
    hi: usize,
    axis: usize,
    Ghost(bound): Ghost<Seq<Bounds>>,
)
    requires
        lo <= hi <= old(ids).len(),
        obj_space@.all_data_ok(),
        axis < obj_space@.dimension,
        ids_fit(obj_space@, old(ids)@, bound),
    ensures
        perm_in(old(ids)@, final(ids)@, lo as int, hi as int),
        old(ids)@.no_duplicates() ==> final(ids)@.no_duplicates(),
        ids_fit(obj_space@, final(ids)@, bound),
        sorted_in(obj_space@, final(ids)@, axis as int, lo as int, hi as int),
        final(ids)@ == sorted_form(obj_space@, old(ids)@, axis as int, lo as int, hi as int),
    decreases hi - lo,
{
    let ghost t = obj_space@;
    let ghost ids0 = ids@;
    let ghost ax = axis as int;
    proof {
        lemma_sorted_form(t, ids0, ax, lo as int, hi as int, bound);
    }
    if hi - lo < 2 {
        proof {
            assert(ids@ =~= sorted_form(t, ids0, ax, lo as int, hi as int));
        }
        return ;
    }
    let mid = lo + (hi - lo) / 2;
    sort_range(obj_space, ids, lo, mid, axis, Ghost(bound));
    let ghost ids1 = ids@;
    sort_range(obj_space, ids, mid, hi, axis, Ghost(bound));
    let ghost ids2 = ids@;
    merge_ranges(obj_space, ids, lo, mid, hi, axis, Ghost(bound));
    proof {
        let part = ids0.subrange(lo as int, hi as int);
        let half = (part.len() / 2) as int;
        assert(half == mid - lo);
        lemma_sorted_form(t, ids0, ax, lo as int, mid as int, bound);
        lemma_sorted_form(t, ids1, ax, mid as int, hi as int, bound);
        assert(part.take(half) =~= ids0.subrange(lo as int, mid as int));
        assert(part.skip(half) =~= ids0.subrange(mid as int, hi as int));
        assert(ids1.subrange(mid as int, hi as int) =~= ids0.subrange(mid as int, hi as int));
        assert(ids2.subrange(lo as int, mid as int) =~= ids1.subrange(lo as int, mid as int));
        assert(ids2.subrange(0, lo as int) =~= ids0.subrange(0, lo as int));
        assert(ids2.subrange(hi as int, ids2.len() as int) =~= ids0.subrange(
            hi as int,
            ids0.len() as int,
        ));
        assert(ids@ =~= sorted_form(t, ids0, ax, lo as int, hi as int));
    }
}

} // verus!
