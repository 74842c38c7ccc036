//! Minimum bounding rectangles over `i64` coordinates and their algebra.

use crate::text::{decimal, push_decimal, push_signed_decimal, signed_decimal};
use vstd::prelude::*;
use vstd::string::StringExecFns;

verus! {

/// A closed interval `[min; max]` on one axis.
#[derive(Clone, Copy, Debug, PartialEq, Eq, Structural)]
pub struct Bounds {
    pub min: i64,
    pub max: i64,
}

impl Bounds {
    /// `max - min`, as a mathematical integer.
    pub open spec fn spec_length(self) -> int {
        self.max - self.min
    }

    /// `min <= v <= max`.
    pub open spec fn spec_contains(self, v: i64) -> bool {
        self.min <= v <= self.max
    }

    /// The interval is not inverted.
    pub open spec fn ordered(self) -> bool {
        self.min <= self.max
    }

    /// The interval from `min` to `max`.
    pub fn new(min: i64, max: i64) -> (b: Self)
        requires
            min <= max,
        ensures
            b.min == min,
            b.max == max,
    {
        Bounds { min, max }
    }

    /// Builds the interval without asking that `min <= max`.
    pub fn new_unchecked(min: i64, max: i64) -> (b: Self)
        ensures
            b.min == min,
            b.max == max,
    {
        Bounds { min, max }
    }

    /// Whether `value` lies in the interval, its ends included.
    pub fn is_in_bound(&self, value: &i64) -> (r: bool)
        ensures
            r == self.spec_contains(*value),
    {
        self.min <= *value && *value <= self.max
    }

    /// The length of the interval.
    pub fn length(&self) -> (len: i64)
        requires
            i64::MIN <= self.spec_length() <= i64::MAX,
        ensures
            len == self.spec_length(),
    {
        self.max - self.min
    }
}

/// Two intervals share at least one coordinate, decided by three endpoint
/// tests. For ordered intervals this is `a.min <= b.max && b.min <= a.max`.
pub open spec fn axis_intersects(a: Bounds, b: Bounds) -> bool {
    a.spec_contains(b.min) || a.spec_contains(b.max) || b.spec_contains(a.min)
}

/// The smallest interval that holds both.
pub open spec fn axis_common(a: Bounds, b: Bounds) -> Bounds {
    Bounds {
        min: if a.min < b.min { a.min } else { b.min },
        max: if a.max > b.max { a.max } else { b.max },
    }
}

/// Every axis is ordered.
pub open spec fn box_ordered(s: Seq<Bounds>) -> bool {
    forall|i: int| 0 <= i < s.len() ==> (#[trigger] s[i]).ordered()
}

/// The two rectangles can be combined: one of them is undefined, or they
/// have the same dimension.
pub open spec fn compatible(a: Seq<Bounds>, b: Seq<Bounds>) -> bool {
    a.len() == 0 || b.len() == 0 || a.len() == b.len()
}

/// Product of the axis lengths, 1 for no axes.
pub open spec fn spec_product(s: Seq<Bounds>) -> int
    decreases s.len(),
{
    if s.len() == 0 {
        1
    } else {
        spec_product(s.drop_last()) * s.last().spec_length()
    }
}

/// Volume of a rectangle: the product of its axis lengths, 0 when undefined.
pub open spec fn spec_volume(s: Seq<Bounds>) -> int {
    if s.len() == 0 {
        0
    } else {
        spec_product(s)
    }
}

/// The rectangle is ordered and its axis lengths and volume fit in `i64`.
pub open spec fn volume_fits(s: Seq<Bounds>) -> bool {
    &&& forall|i: int| 0 <= i < s.len() ==> 0 <= (#[trigger] s[i]).spec_length() <= i64::MAX
    &&& spec_volume(s) <= i64::MAX
}

/// Rectangles intersect when every shared axis does. The undefined rectangle
/// intersects everything.
pub open spec fn spec_intersects(a: Seq<Bounds>, b: Seq<Bounds>) -> bool {
    forall|i: int| 0 <= i < a.len() && 0 <= i < b.len() ==> axis_intersects(#[trigger] a[i], b[i])
}

/// The smallest rectangle that holds both; the undefined rectangle is the
/// identity.
pub open spec fn spec_common(a: Seq<Bounds>, b: Seq<Bounds>) -> Seq<Bounds> {
    if a.len() == 0 {
        b
    } else if b.len() == 0 {
        a
    } else {
        Seq::new(a.len(), |i: int| axis_common(a[i], b[i]))
    }
}

/// The common rectangle of a sequence, folded from the undefined one.
pub open spec fn spec_hull(s: Seq<Seq<Bounds>>) -> Seq<Bounds>
    decreases s.len(),
{
    if s.len() == 0 {
        Seq::empty()
    } else {
        spec_common(spec_hull(s.drop_last()), s.last())
    }
}

/// Volume that `src` gains by absorbing `addition`.
pub open spec fn spec_delta(src: Seq<Bounds>, addition: Seq<Bounds>) -> int {
    spec_volume(spec_common(src, addition)) - spec_volume(src)
}

/// `a` lies inside `b`. The undefined rectangle lies inside everything.
pub open spec fn within(a: Seq<Bounds>, b: Seq<Bounds>) -> bool {
    a.len() == 0 || (a.len() == b.len() && forall|i: int|
        0 <= i < a.len() ==> b[i].min <= (#[trigger] a[i]).min && a[i].max <= b[i].max)
}

/// Views of a slice of rectangles.
pub open spec fn views(s: Seq<MBR>) -> Seq<Seq<Bounds>> {
    Seq::new(s.len(), |i: int| s[i]@)
}

/// Every rectangle of the sequence is undefined or has dimension `dim`.
pub open spec fn all_compatible(s: Seq<Seq<Bounds>>, dim: nat) -> bool {
    forall|i: int| 0 <= i < s.len() ==> (#[trigger] s[i]).len() == 0 || s[i].len() == dim
}

/// Minimum bounding rectangle: one interval per axis. With no axes it is the
/// undefined rectangle.
#[derive(Debug, PartialEq, Eq)]
pub struct MBR {
    pub bounds: Vec<Bounds>,
}

impl View for MBR {
    type V = Seq<Bounds>;

    open spec fn view(&self) -> Seq<Bounds> {
        self.bounds@
    }
}

impl Clone for MBR {
    fn clone(&self) -> (r: Self)
        ensures
            r@ == self@,
    {
        let mut bounds: Vec<Bounds> = Vec::with_capacity(self.bounds.len());
        let mut i: usize = 0;
        while i < self.bounds.len()
            invariant
                i <= self.bounds.len(),
                bounds@ == self.bounds@.take(i as int),
            decreases self.bounds.len() - i,
        {
            bounds.push(self.bounds[i]);
            proof {
                assert(self.bounds@.take(i + 1) =~= self.bounds@.take(i as int).push(
                    self.bounds@[i as int],
                ));
            }
            i += 1;
        }
        proof {
            assert(self.bounds@.take(self.bounds.len() as int) =~= self.bounds@);
        }
        MBR { bounds }
    }
}

impl MBR {
    /// The rectangle with the axes given, which are at least one.
    pub fn new(bounds: Vec<Bounds>) -> (r: Self)
        requires
            bounds.len() > 0,
        ensures
            r@ == bounds@,
    {
        MBR { bounds }
    }

    /// Builds the rectangle without asking that it has an axis.
    pub fn new_unchecked(bounds: Vec<Bounds>) -> (r: Self)
        ensures
            r@ == bounds@,
    {
        MBR { bounds }
    }

    /// The undefined rectangle: a node's rectangle before it has children.
    pub fn undefined() -> (r: Self)
        ensures
            r@ == Seq::<Bounds>::empty(),
    {
        MBR { bounds: Vec::new() }
    }

    /// Whether the rectangle is the undefined one.
    pub fn is_undefined(&self) -> (r: bool)
        ensures
            r == (self@.len() == 0),
    {
        self.bounds.len() == 0
    }

    /// The number of axes; 0 for the undefined rectangle.
    pub fn dimension(&self) -> (r: usize)
        ensures
            r == self@.len(),
    {
        self.bounds.len()
    }

    /// The interval of the axis `axis_index`.
    pub fn bounds(&self, axis_index: usize) -> (r: &Bounds)
        requires
            axis_index < self@.len(),
        ensures
            *r == self@[axis_index as int],
    {
        &self.bounds[axis_index]
    }

    /// Same axes, same intervals.
    pub fn equals(&self, other: &MBR) -> (r: bool)
        ensures
            r == (self@ == other@),
    {
        if self.bounds.len() != other.bounds.len() {
            return false;
        }
        let mut i: usize = 0;
        while i < self.bounds.len()
            invariant
                i <= self.bounds.len(),
                self.bounds.len() == other.bounds.len(),
                forall|j: int| 0 <= j < i ==> self@[j] == other@[j],
            decreases self.bounds.len() - i,
        {
            if self.bounds[i].min != other.bounds[i].min || self.bounds[i].max
                != other.bounds[i].max {
                return false;
            }
            i += 1;
        }
        proof {
            assert(self@ =~= other@);
        }
        true
    }

    /// Whether `volume` may be called: decides `volume_fits`.
    pub fn fits(&self) -> (r: bool)
        ensures
            r == volume_fits(self@),
    {
        let n = self.bounds.len();
        let mut has_zero = false;
        let mut i: usize = 0;
        while i < n
            invariant
                i <= n,
                n == self@.len(),
                forall|j: int| 0 <= j < i ==> 0 <= (#[trigger] self@[j]).spec_length() <= i64::MAX,
                has_zero <==> exists|j: int| 0 <= j < i && (#[trigger] self@[j]).spec_length() == 0,
            decreases n - i,
        {
            let b = self.bounds[i];
            if b.min > b.max {
                return false;
            }
            match b.max.checked_sub(b.min) {
                None => {
                    return false;
                },
                Some(len) => {
                    if len == 0 {
                        has_zero = true;
                    }
                },
            }
            i += 1;
        }
        if n == 0 {
            return true;
        }
        if has_zero {
            proof {
                let j = choose|j: int| 0 <= j < n && (#[trigger] self@[j]).spec_length() == 0;
                lemma_product_zero(self@, j);
            }
            return true;
        }
        let mut acc: i64 = 1;
        i = 0;
        while i < n
            invariant
                i <= n,
                n == self@.len(),
                n > 0,
                forall|j: int| 0 <= j < n ==> 1 <= (#[trigger] self@[j]).spec_length() <= i64::MAX,
                acc == spec_product(self@.take(i as int)),
                1 <= acc,
            decreases n - i,
        {
            let len = self.bounds[i].max - self.bounds[i].min;
            proof {
                lemma_product_take(self@, i as int);
                lemma_product_prefix(self@, i + 1);
                assert(1 <= acc * len) by (nonlinear_arith)
                    requires
                        1 <= acc,
                        1 <= len,
                ;
            }
            match acc.checked_mul(len) {
                None => {
                    return false;
                },
                Some(next) => {
                    acc = next;
                },
            }
            i += 1;
        }
        proof {
            assert(self@.take(n as int) =~= self@);
        }
        true
    }

    /// Product of the axis lengths; 0 for the undefined rectangle.
    pub fn volume(&self) -> (v: i64)
        requires
            volume_fits(self@),
        ensures
            v == spec_volume(self@),
    {
        let n = self.bounds.len();
        if n == 0 {
            return 0;
        }
        let mut i: usize = 0;
        while i < n
            invariant
                i <= n,
                n == self@.len(),
                volume_fits(self@),
                forall|j: int| 0 <= j < i ==> (#[trigger] self@[j]).spec_length() != 0,
            decreases n - i,
        {
            if self.bounds[i].length() == 0 {
                proof {
                    lemma_product_zero(self@, i as int);
                }
                return 0;
            }
            i += 1;
        }
        let mut acc: i64 = 1;
        i = 0;
        while i < n
            invariant
                i <= n,
                n == self@.len(),
                n > 0,
                volume_fits(self@),
                forall|j: int| 0 <= j < n ==> 1 <= (#[trigger] self@[j]).spec_length() <= i64::MAX,
                acc == spec_product(self@.take(i as int)),
                1 <= acc,
            decreases n - i,
        {
            let len = self.bounds[i].length();
            proof {
                lemma_product_take(self@, i as int);
                lemma_product_prefix(self@, i + 1);
                assert(1 <= acc * len) by (nonlinear_arith)
                    requires
                        1 <= acc,
                        1 <= len,
                ;
            }
            acc = acc * len;
            i += 1;
        }
        proof {
            assert(self@.take(n as int) =~= self@);
        }
        acc
    }
}

/// A zero-length axis makes the product zero.
pub proof fn lemma_product_zero(s: Seq<Bounds>, j: int)
    requires
        0 <= j < s.len(),
        s[j].spec_length() == 0,
    ensures
        spec_product(s) == 0,
    decreases s.len(),
{
    if j == s.len() - 1 {
        assert(spec_product(s.drop_last()) * 0 == 0) by (nonlinear_arith);
    } else {
        lemma_product_zero(s.drop_last(), j);
        assert(0 * s.last().spec_length() == 0) by (nonlinear_arith);
    }
}

/// One step of the product over prefixes.
pub proof fn lemma_product_take(s: Seq<Bounds>, i: int)
    requires
        0 <= i < s.len(),
    ensures
        spec_product(s.take(i + 1)) == spec_product(s.take(i)) * s[i].spec_length(),
{
    assert(s.take(i + 1).drop_last() =~= s.take(i));
}

/// With no axis shorter than 1, a prefix's product is at least 1 and at most
/// the whole product.
pub proof fn lemma_product_prefix(s: Seq<Bounds>, k: int)
    requires
        0 <= k <= s.len(),
        forall|j: int| 0 <= j < s.len() ==> 1 <= (#[trigger] s[j]).spec_length(),
    ensures
        1 <= spec_product(s.take(k)) <= spec_product(s),
    decreases s.len() - k,
{
    if k == s.len() {
        assert(s.take(k) =~= s);
        lemma_product_positive(s);
    } else {
        lemma_product_prefix(s, k + 1);
        lemma_product_take(s, k);
        lemma_product_positive(s.take(k));
        let a = spec_product(s.take(k));
        let l = s[k].spec_length();
        assert(a <= a * l) by (nonlinear_arith)
            requires
                1 <= a,
                1 <= l,
        ;
    }
}

/// With no axis shorter than 1, the product is at least 1.
pub proof fn lemma_product_positive(s: Seq<Bounds>)
    requires
        forall|j: int| 0 <= j < s.len() ==> 1 <= (#[trigger] s[j]).spec_length(),
    ensures
        1 <= spec_product(s),
    decreases s.len(),
{
    if s.len() > 0 {
        lemma_product_positive(s.drop_last());
        let a = spec_product(s.drop_last());
        let l = s.last().spec_length();
        assert(1 <= a * l) by (nonlinear_arith)
            requires
                1 <= a,
                1 <= l,
        ;
    }
}

/// The product of an ordered rectangle is not negative.
pub proof fn lemma_product_nonnegative(s: Seq<Bounds>)
    requires
        box_ordered(s),
    ensures
        0 <= spec_product(s),
    decreases s.len(),
{
    if s.len() > 0 {
        lemma_product_nonnegative(s.drop_last());
        let a = spec_product(s.drop_last());
        let l = s.last().spec_length();
        assert(s.last().ordered());
        assert(0 <= a * l) by (nonlinear_arith)
            requires
                0 <= a,
                0 <= l,
        ;
    }
}

/// Axis by axis, an ordered rectangle inside another has the smaller product.
pub proof fn lemma_product_monotone(a: Seq<Bounds>, b: Seq<Bounds>)
    requires
        a.len() == b.len(),
        box_ordered(a),
        forall|i: int| 0 <= i < a.len() ==> b[i].min <= (#[trigger] a[i]).min && a[i].max <= b[i].max,
    ensures
        0 <= spec_product(a) <= spec_product(b),
    decreases a.len(),
{
    if a.len() > 0 {
        let a0 = a.drop_last();
        let b0 = b.drop_last();
        assert forall|i: int| 0 <= i < a0.len() implies b0[i].min <= (#[trigger] a0[i]).min
            && a0[i].max <= b0[i].max by {
            assert(a0[i] == a[i]);
        }
        assert forall|i: int| 0 <= i < a0.len() implies (#[trigger] a0[i]).ordered() by {
            assert(a0[i] == a[i]);
        }
        lemma_product_monotone(a0, b0);
        let pa = spec_product(a0);
        let pb = spec_product(b0);
        let la = a.last().spec_length();
        let lb = b.last().spec_length();
        assert(a.last().ordered());
        assert(b[a.len() - 1].min <= a[a.len() - 1].min);
        assert(0 <= pa * la <= pb * lb) by (nonlinear_arith)
            requires
                0 <= pa <= pb,
                0 <= la <= lb,
        ;
    }
}

/// An ordered rectangle inside one whose volume fits has a volume that fits,
/// and a smaller one.
pub proof fn lemma_volume_monotone(a: Seq<Bounds>, b: Seq<Bounds>)
    requires
        box_ordered(a),
        within(a, b),
        volume_fits(b),
    ensures
        volume_fits(a),
        0 <= spec_volume(a) <= spec_volume(b),
{
    if a.len() == 0 {
        if b.len() > 0 {
            assert forall|i: int| 0 <= i < b.len() implies (#[trigger] b[i]).ordered() by {
                assert(0 <= b[i].spec_length());
            }
            lemma_product_nonnegative(b);
        }
    } else {
        lemma_product_monotone(a, b);
        assert forall|i: int| 0 <= i < a.len() implies 0 <= (#[trigger] a[i]).spec_length()
            <= i64::MAX by {
            assert(a[i].ordered());
            assert(0 <= b[i].spec_length() <= i64::MAX);
        }
    }
}

/// An ordered rectangle intersects itself.
pub proof fn lemma_intersects_reflexive(a: Seq<Bounds>)
    requires
        box_ordered(a),
    ensures
        spec_intersects(a, a),
{
    assert forall|i: int| 0 <= i < a.len() implies axis_intersects(#[trigger] a[i], a[i]) by {
        assert(a[i].ordered());
    }
}

/// Intersection does not depend on the order of its arguments.
pub proof fn lemma_intersects_symmetric(a: Seq<Bounds>, b: Seq<Bounds>)
    requires
        box_ordered(a),
        box_ordered(b),
    ensures
        spec_intersects(a, b) == spec_intersects(b, a),
{
    if spec_intersects(a, b) {
        assert forall|i: int| 0 <= i < a.len() && 0 <= i < b.len() implies axis_intersects(
            #[trigger] b[i],
            a[i],
        ) by {
            assert(axis_intersects(a[i], b[i]));
            assert(a[i].ordered());
            assert(b[i].ordered());
        }
    }
    if spec_intersects(b, a) {
        assert forall|i: int| 0 <= i < a.len() && 0 <= i < b.len() implies axis_intersects(
            #[trigger] a[i],
            b[i],
        ) by {
            assert(axis_intersects(b[i], a[i]));
            assert(a[i].ordered());
            assert(b[i].ordered());
        }
    }
}

/// What intersects an ordered rectangle intersects every rectangle around it.
pub proof fn lemma_intersects_within(inner: Seq<Bounds>, outer: Seq<Bounds>, area: Seq<Bounds>)
    requires
        inner.len() > 0,
        box_ordered(inner),
        within(inner, outer),
        spec_intersects(inner, area),
    ensures
        spec_intersects(outer, area),
{
    assert forall|i: int| 0 <= i < outer.len() && 0 <= i < area.len() implies axis_intersects(
        #[trigger] outer[i],
        area[i],
    ) by {
        assert(axis_intersects(inner[i], area[i]));
        assert(inner[i].ordered());
        assert(outer[i].min <= inner[i].min && inner[i].max <= outer[i].max);
    }
}

/// `within` is transitive.
pub proof fn lemma_within_transitive(a: Seq<Bounds>, b: Seq<Bounds>, c: Seq<Bounds>)
    requires
        within(a, b),
        within(b, c),
    ensures
        within(a, c),
{
    if a.len() > 0 {
        assert forall|i: int| 0 <= i < a.len() implies c[i].min <= (#[trigger] a[i]).min
            && a[i].max <= c[i].max by {
            assert(b[i].min <= a[i].min && a[i].max <= b[i].max);
            assert(c[i].min <= b[i].min && b[i].max <= c[i].max);
        }
    }
}

/// Rectangles that lie inside each other are equal, unless one is undefined.
pub proof fn lemma_within_antisymmetric(a: Seq<Bounds>, b: Seq<Bounds>)
    requires
        within(a, b),
        within(b, a),
        a.len() == b.len(),
    ensures
        a == b,
{
    assert forall|i: int| 0 <= i < a.len() implies a[i] == b[i] by {
        assert(b[i].min <= a[i].min && a[i].max <= b[i].max);
        assert(a[i].min <= b[i].min && b[i].max <= a[i].max);
    }
    assert(a =~= b);
}

/// Both arguments lie inside their common rectangle, which is ordered when
/// they are.
pub proof fn lemma_common_holds(a: Seq<Bounds>, b: Seq<Bounds>)
    requires
        compatible(a, b),
    ensures
        within(a, spec_common(a, b)),
        within(b, spec_common(a, b)),
        compatible(a, spec_common(a, b)),
        compatible(b, spec_common(a, b)),
        spec_common(a, b).len() == if a.len() == 0 {
            b.len()
        } else {
            a.len()
        },
        box_ordered(a) && box_ordered(b) ==> box_ordered(spec_common(a, b)),
{
    let c = spec_common(a, b);
    if box_ordered(a) && box_ordered(b) {
        assert forall|i: int| 0 <= i < c.len() implies (#[trigger] c[i]).ordered() by {
            if a.len() > 0 {
                assert(a[i].ordered());
            }
            if b.len() > 0 {
                assert(b[i].ordered());
            }
        }
    }
}

/// The common rectangle is the least one that holds both.
pub proof fn lemma_common_least(a: Seq<Bounds>, b: Seq<Bounds>, c: Seq<Bounds>)
    requires
        compatible(a, b),
        within(a, c),
        within(b, c),
    ensures
        within(spec_common(a, b), c),
{
    let m = spec_common(a, b);
    if m.len() > 0 {
        assert forall|i: int| 0 <= i < m.len() implies c[i].min <= (#[trigger] m[i]).min
            && m[i].max <= c[i].max by {
            if a.len() > 0 {
                assert(c[i].min <= a[i].min && a[i].max <= c[i].max);
            }
            if b.len() > 0 {
                assert(c[i].min <= b[i].min && b[i].max <= c[i].max);
            }
        }
    }
}

/// The common rectangle does not depend on the order of its arguments.
pub proof fn lemma_common_commutative(a: Seq<Bounds>, b: Seq<Bounds>)
    requires
        compatible(a, b),
    ensures
        spec_common(a, b) == spec_common(b, a),
{
    assert(spec_common(a, b) =~= spec_common(b, a));
}

/// The common rectangle of three does not depend on the grouping.
pub proof fn lemma_common_associative(a: Seq<Bounds>, b: Seq<Bounds>, c: Seq<Bounds>)
    requires
        compatible(a, b),
        compatible(b, c),
        compatible(a, c),
    ensures
        spec_common(spec_common(a, b), c) == spec_common(a, spec_common(b, c)),
{
    assert(spec_common(spec_common(a, b), c) =~= spec_common(a, spec_common(b, c)));
}

/// Shape of a hull: undefined, or of the common dimension.
pub proof fn lemma_hull_shape(s: Seq<Seq<Bounds>>, dim: nat)
    requires
        all_compatible(s, dim),
    ensures
        spec_hull(s).len() == 0 || spec_hull(s).len() == dim,
        spec_hull(s).len() == 0 <==> forall|i: int| 0 <= i < s.len() ==> (#[trigger] s[i]).len() == 0,
        (forall|i: int| 0 <= i < s.len() ==> box_ordered(#[trigger] s[i])) ==> box_ordered(
            spec_hull(s),
        ),
    decreases s.len(),
{
    if s.len() > 0 {
        let s0 = s.drop_last();
        assert forall|i: int| 0 <= i < s0.len() implies (#[trigger] s0[i]).len() == 0 || s0[i].len()
            == dim by {
            assert(s0[i] == s[i]);
        }
        lemma_hull_shape(s0, dim);
        let h0 = spec_hull(s0);
        assert(s.last() == s[s.len() - 1]);
        lemma_common_holds(h0, s.last());
        if spec_hull(s).len() == 0 {
            assert forall|i: int| 0 <= i < s.len() implies (#[trigger] s[i]).len() == 0 by {
                if i < s.len() - 1 {
                    assert(s0[i] == s[i]);
                }
            }
        } else {
            if forall|i: int| 0 <= i < s.len() ==> (#[trigger] s[i]).len() == 0 {
                assert forall|i: int| 0 <= i < s0.len() implies (#[trigger] s0[i]).len() == 0 by {
                    assert(s0[i] == s[i]);
                }
                assert(false);
            }
        }
        if forall|i: int| 0 <= i < s.len() ==> box_ordered(#[trigger] s[i]) {
            assert forall|i: int| 0 <= i < s0.len() implies box_ordered(#[trigger] s0[i]) by {
                assert(s0[i] == s[i]);
            }
            assert(box_ordered(s.last()));
        }
    }
}

/// Every member of a sequence lies inside its hull.
pub proof fn lemma_hull_holds(s: Seq<Seq<Bounds>>, dim: nat, k: int)
    requires
        all_compatible(s, dim),
        0 <= k < s.len(),
    ensures
        within(s[k], spec_hull(s)),
    decreases s.len(),
{
    let s0 = s.drop_last();
    assert forall|i: int| 0 <= i < s0.len() implies (#[trigger] s0[i]).len() == 0 || s0[i].len()
        == dim by {
        assert(s0[i] == s[i]);
    }
    lemma_hull_shape(s0, dim);
    assert(s.last() == s[s.len() - 1]);
    lemma_common_holds(spec_hull(s0), s.last());
    if k < s.len() - 1 {
        lemma_hull_holds(s0, dim, k);
        assert(s0[k] == s[k]);
        lemma_within_transitive(s[k], spec_hull(s0), spec_hull(s));
    }
}

/// The hull is the least rectangle that holds every member.
pub proof fn lemma_hull_least(s: Seq<Seq<Bounds>>, dim: nat, c: Seq<Bounds>)
    requires
        all_compatible(s, dim),
        forall|i: int| 0 <= i < s.len() ==> within(#[trigger] s[i], c),
    ensures
        within(spec_hull(s), c),
    decreases s.len(),
{
    if s.len() > 0 {
        let s0 = s.drop_last();
        assert forall|i: int| 0 <= i < s0.len() implies ((#[trigger] s0[i]).len() == 0
            || s0[i].len() == dim) && within(s0[i], c) by {
            assert(s0[i] == s[i]);
        }
        lemma_hull_least(s0, dim, c);
        lemma_hull_shape(s0, dim);
        assert(s.last() == s[s.len() - 1]);
        lemma_common_least(spec_hull(s0), s.last(), c);
    }
}

/// Decides `spec_intersects`.
pub fn intersects(lhs: &MBR, rhs: &MBR) -> (r: bool)
    requires
        compatible(lhs@, rhs@),
    ensures
        r == spec_intersects(lhs@, rhs@),
{
    let n = if lhs.bounds.len() < rhs.bounds.len() {
        lhs.bounds.len()
    } else {
        rhs.bounds.len()
    };
    let mut i: usize = 0;
    while i < n
        invariant
            i <= n,
            n <= lhs@.len(),
            n <= rhs@.len(),
            n == lhs@.len() || n == rhs@.len(),
            forall|j: int| 0 <= j < i ==> axis_intersects(#[trigger] lhs@[j], rhs@[j]),
        decreases n - i,
    {
        let a = &lhs.bounds[i];
        let b = &rhs.bounds[i];
        if !(a.is_in_bound(&b.min) || a.is_in_bound(&b.max) || b.is_in_bound(&a.min)) {
            return false;
        }
        i += 1;
    }
    true
}

/// Computes `spec_common`.
pub fn common_mbr(lhs: &MBR, rhs: &MBR) -> (r: MBR)
    requires
        compatible(lhs@, rhs@),
    ensures
        r@ == spec_common(lhs@, rhs@),
{
    if lhs.bounds.len() == 0 {
        return rhs.clone();
    }
    if rhs.bounds.len() == 0 {
        return lhs.clone();
    }
    let n = lhs.bounds.len();
    let mut bounds: Vec<Bounds> = Vec::with_capacity(n);
    let mut i: usize = 0;
    while i < n
        invariant
            i <= n,
            n == lhs@.len(),
            n == rhs@.len(),
            bounds@.len() == i,
            forall|j: int| 0 <= j < i ==> bounds@[j] == axis_common(lhs@[j], rhs@[j]),
        decreases n - i,
    {
        let a = &lhs.bounds[i];
        let b = &rhs.bounds[i];
        let min = if a.min < b.min {
            a.min
        } else {
            b.min
        };
        let max = if a.max > b.max {
            a.max
        } else {
            b.max
        };
        bounds.push(Bounds::new_unchecked(min, max));
        i += 1;
    }
    proof {
        assert(bounds@ =~= spec_common(lhs@, rhs@));
    }
    MBR::new_unchecked(bounds)
}

/// Common rectangle of a slice, folded from the undefined one.
pub fn common_mbr_from_iter(mbrs: &[MBR]) -> (r: MBR)
    requires
        exists|dim: nat| all_compatible(views(mbrs@), dim),
    ensures
        r@ == spec_hull(views(mbrs@)),
{
    let ghost dim = choose|dim: nat| all_compatible(views(mbrs@), dim);
    let ghost all = views(mbrs@);
    let mut common = MBR::undefined();
    let mut i: usize = 0;
    proof {
        assert(all.take(0) =~= Seq::<Seq<Bounds>>::empty());
    }
    while i < mbrs.len()
        invariant
            i <= mbrs.len(),
            all == views(mbrs@),
            all_compatible(all, dim),
            common@ == spec_hull(all.take(i as int)),
        decreases mbrs.len() - i,
    {
        proof {
            let prefix = all.take(i as int);
            assert forall|j: int| 0 <= j < prefix.len() implies (#[trigger] prefix[j]).len() == 0
                || prefix[j].len() == dim by {
                assert(prefix[j] == all[j]);
            }
            lemma_hull_shape(prefix, dim);
            assert(all[i as int].len() == 0 || all[i as int].len() == dim);
            assert(all.take(i + 1).drop_last() =~= prefix);
            assert(all.take(i + 1).last() == mbrs@[i as int]@);
        }
        common = common_mbr(&common, &mbrs[i]);
        i += 1;
    }
    proof {
        assert(all.take(mbrs.len() as int) =~= all);
    }
    common
}

/// Volume that `src` gains by absorbing `addition`.
pub fn mbr_delta(src: &MBR, addition: &MBR) -> (d: i64)
    requires
        compatible(src@, addition@),
        volume_fits(src@),
        volume_fits(spec_common(src@, addition@)),
    ensures
        d == spec_delta(src@, addition@),
{
    let common = common_mbr(src, addition);
    proof {
        if src@.len() > 0 {
            assert forall|i: int| 0 <= i < src@.len() implies (#[trigger] src@[i]).ordered() by {
                assert(0 <= src@[i].spec_length());
            }
            lemma_product_nonnegative(src@);
        }
        let c = spec_common(src@, addition@);
        if c.len() > 0 {
            assert forall|i: int| 0 <= i < c.len() implies (#[trigger] c[i]).ordered() by {
                assert(0 <= c[i].spec_length());
            }
            lemma_product_nonnegative(c);
        }
    }
    common.volume() - src.volume()
}


/// Rectangles that lie inside each other are equal.
pub proof fn lemma_within_both(a: Seq<Bounds>, b: Seq<Bounds>)
    requires
        within(a, b),
        within(b, a),
    ensures
        a == b,
{
    if a.len() > 0 && b.len() > 0 {
        lemma_within_antisymmetric(a, b);
    } else {
        assert(a =~= b);
    }
}

/// Replacing members of a sequence changes its hull no more than the
/// replacements say: where `s2` holds `a` in place of a member of `s` that
/// lies inside the common rectangle of `a` and `x`, the hull of `s` widened
/// by `a` and `x` is the hull of `s2` widened by `x`.
pub proof fn lemma_hull_patch(
    s: Seq<Seq<Bounds>>,
    s2: Seq<Seq<Bounds>>,
    dim: nat,
    a: Seq<Bounds>,
    x: Seq<Bounds>,
)
    requires
        s.len() == s2.len(),
        all_compatible(s, dim),
        all_compatible(s2, dim),
        a.len() == 0 || a.len() == dim,
        x.len() == 0 || x.len() == dim,
        forall|k: int|
            0 <= k < s.len() ==> #[trigger] s[k] == s2[k] || (s2[k] == a && within(
                s[k],
                spec_common(a, x),
            )),
        exists|k: int| 0 <= k < s2.len() && #[trigger] s2[k] == a,
    ensures
        spec_common(spec_common(spec_hull(s), a), x) == spec_common(spec_hull(s2), x),
{
    let h = spec_hull(s);
    let h2 = spec_hull(s2);
    lemma_hull_shape(s, dim);
    lemma_hull_shape(s2, dim);
    lemma_common_holds(h, a);
    let ha = spec_common(h, a);
    lemma_common_holds(ha, x);
    let lhs = spec_common(ha, x);
    lemma_common_holds(h2, x);
    let rhs = spec_common(h2, x);
    lemma_common_holds(a, x);
    let ax = spec_common(a, x);
    let ka = choose|k: int| 0 <= k < s2.len() && #[trigger] s2[k] == a;
    lemma_hull_holds(s2, dim, ka);
    // a and x lie inside both sides
    lemma_within_transitive(a, h2, rhs);
    lemma_within_transitive(a, ha, lhs);
    lemma_common_least(a, x, rhs);
    lemma_common_least(a, x, lhs);
    // hull(s) lies inside rhs
    assert forall|k: int| 0 <= k < s.len() implies within(#[trigger] s[k], rhs) by {
        if s[k] == s2[k] {
            lemma_hull_holds(s2, dim, k);
            lemma_within_transitive(s[k], h2, rhs);
        } else {
            lemma_within_transitive(s[k], ax, rhs);
        }
    }
    lemma_hull_least(s, dim, rhs);
    lemma_common_least(h, a, rhs);
    lemma_common_least(ha, x, rhs);
    // hull(s2) lies inside lhs
    lemma_within_transitive(h, ha, lhs);
    assert forall|k: int| 0 <= k < s2.len() implies within(#[trigger] s2[k], lhs) by {
        if s[k] == s2[k] {
            lemma_hull_holds(s, dim, k);
            lemma_within_transitive(s[k], h, lhs);
        }
    }
    lemma_hull_least(s2, dim, lhs);
    lemma_common_least(h2, x, lhs);
    lemma_within_both(lhs, rhs);
}

/// The hull of a sequence with one more member.
pub proof fn lemma_hull_push(s: Seq<Seq<Bounds>>, m: Seq<Bounds>)
    ensures
        spec_hull(s.push(m)) == spec_common(spec_hull(s), m),
{
    assert(s.push(m).drop_last() =~= s);
}


impl MBR {
    /// Whether every axis has `min <= max`: decides `box_ordered`.
    pub fn is_ordered(&self) -> (r: bool)
        ensures
            r == box_ordered(self@),
    {
        let mut i: usize = 0;
        while i < self.bounds.len()
            invariant
                i <= self.bounds.len(),
                forall|j: int| 0 <= j < i ==> (#[trigger] self@[j]).ordered(),
            decreases self.bounds.len() - i,
        {
            if self.bounds[i].min > self.bounds[i].max {
                return false;
            }
            i += 1;
        }
        true
    }
}


/// The text of one axis: its number from 1, and its ends.
pub open spec fn axis_text(i: int, b: Bounds) -> Seq<char> {
    "x"@ + decimal((i + 1) as nat) + ": ["@ + signed_decimal(b.min as int) + "; "@ + signed_decimal(
        b.max as int,
    ) + "] "@
}

/// The texts of the first `n` axes, one after the other.
pub open spec fn axes_text(s: Seq<Bounds>, n: int) -> Seq<char>
    decreases n,
{
    if n <= 0 {
        Seq::empty()
    } else {
        axes_text(s, n - 1) + axis_text(n - 1, s[n - 1])
    }
}

/// The text of a rectangle: its axes between braces.
pub open spec fn spec_text(s: Seq<Bounds>) -> Seq<char> {
    if s.len() == 0 {
        "MBR { /undefined/ }"@
    } else {
        "MBR { "@ + axes_text(s, s.len() as int) + "}"@
    }
}

impl MBR {
    /// The text of the rectangle.
    pub fn to_string(&self) -> (text: String)
        ensures
            text@ == spec_text(self@),
    {
        if self.is_undefined() {
            return String::from_str("MBR { /undefined/ }");
        }
        let mut text = String::from_str("MBR { ");
        let ghost start = text@;
        let mut i: usize = 0;
        proof {
            assert(text@ =~= start + axes_text(self@, 0));
        }
        while i < self.bounds.len()
            invariant
                i <= self.bounds.len(),
                text@ == start + axes_text(self@, i as int),
            decreases self.bounds.len() - i,
        {
            let ghost before = text@;
            let b = self.bounds[i];
            text.append("x");
            push_decimal(&mut text, (i as u64) + 1);
            text.append(": [");
            push_signed_decimal(&mut text, b.min);
            text.append("; ");
            push_signed_decimal(&mut text, b.max);
            text.append("] ");
            proof {
                assert(text@ =~= before + axis_text(i as int, self@[i as int]));
                assert(text@ =~= start + axes_text(self@, i + 1));
            }
            i += 1;
        }
        let ghost body = text@;
        text.append("}");
        proof {
            assert(text@ =~= "MBR { "@ + axes_text(self@, self@.len() as int) + "}"@);
        }
        text
    }
}

} // verus!
