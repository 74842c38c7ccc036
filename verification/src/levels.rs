//! Heights, fanouts and shares of the static build, in whole numbers.

use vstd::prelude::*;

verus! {

/// `b` to the power `e`.
pub open spec fn power(b: nat, e: nat) -> nat
    decreases e,
{
    if e == 0 {
        1
    } else {
        b * power(b, (e - 1) as nat)
    }
}

/// `x`, or `usize::MAX` where `x` is above it.
pub open spec fn saturated(x: nat) -> nat {
    if x <= usize::MAX {
        x
    } else {
        usize::MAX as nat
    }
}

/// A power of a positive number is positive, and grows with the exponent.
pub proof fn lemma_power_grows(b: nat, e: nat)
    requires
        b >= 1,
    ensures
        power(b, e) >= 1,
        power(b, e + 1) >= power(b, e),
        b >= 2 ==> power(b, e) > e,
        e >= 1 ==> power(b, e) >= b,
    decreases e,
{
    if e > 0 {
        lemma_power_grows(b, (e - 1) as nat);
        let p = power(b, (e - 1) as nat);
        assert(b * p >= p) by (nonlinear_arith)
            requires
                b >= 1,
                p >= 1,
        ;
        assert(b * p >= b) by (nonlinear_arith)
            requires
                b >= 1,
                p >= 1,
        ;
        if b >= 2 {
            assert(b * p >= 2 * p) by (nonlinear_arith)
                requires
                    b >= 2,
                    p >= 1,
            ;
        }
    }
    let q = power(b, e);
    assert(b * q >= q) by (nonlinear_arith)
        requires
            b >= 1,
            q >= 0,
    ;
}

/// `base` to the power `exp`, or `usize::MAX` where the power is above it.
pub fn pow_sat(base: usize, exp: usize) -> (r: usize)
    requires
        base >= 1,
    ensures
        r == saturated(power(base as nat, exp as nat)),
{
    let mut r: usize = 1;
    let mut k: usize = 0;
    while k < exp
        invariant
            k <= exp,
            base >= 1,
            r == saturated(power(base as nat, k as nat)),
        decreases exp - k,
    {
        let ghost p = power(base as nat, k as nat);
        proof {
            lemma_power_grows(base as nat, k as nat);
            assert(power(base as nat, (k + 1) as nat) == base * p);
            assert(base * p >= p) by (nonlinear_arith)
                requires
                    base >= 1,
                    p >= 0,
            ;
            if p <= usize::MAX {
                assert(r * base == base * p) by (nonlinear_arith)
                    requires
                        r == p,
                ;
            } else {
                assert(r * base >= usize::MAX) by (nonlinear_arith)
                    requires
                        r == usize::MAX,
                        base >= 1,
                ;
            }
        }
        match r.checked_mul(base) {
            Some(v) => {
                r = v;
            },
            None => {
                r = usize::MAX;
            },
        }
        k += 1;
    }
    r
}

/// The least level from `level` on with `max_records` to its power at
/// least `n`.
pub open spec fn least_level(max_records: nat, n: nat, level: nat) -> nat
    decreases n - level,
{
    if level >= n || power(max_records, level) >= n {
        level
    } else {
        least_level(max_records, n, level + 1)
    }
}

/// The least number from `k` on whose power `e` is at least `n`.
pub open spec fn least_root(n: nat, e: nat, k: nat) -> nat
    decreases n - k,
{
    if k >= n || power(k, e) >= n {
        k
    } else {
        least_root(n, e, k + 1)
    }
}

/// The height of the tree that the static build makes of `n` data nodes:
/// the least `level >= 1` with `max_records` to the power `level` at least
/// `n`.
pub fn tree_level(max_records: usize, n: usize) -> (level: usize)
    requires
        max_records >= 2,
    ensures
        level >= 1,
        n <= power(max_records as nat, level as nat),
        level > 1 ==> power(max_records as nat, (level - 1) as nat) < n,
        level == least_level(max_records as nat, n as nat, 1),
{
    let mut level: usize = 1;
    let mut p: usize = max_records;
    proof {
        assert(power(max_records as nat, 1) == max_records) by {
            assert(power(max_records as nat, 0) == 1);
            assert(power(max_records as nat, 1) == max_records * power(max_records as nat, 0));
        }
    }
    while p < n
        invariant
            level >= 1,
            max_records >= 2,
            p == saturated(power(max_records as nat, level as nat)),
            level > 1 ==> power(max_records as nat, (level - 1) as nat) < n,
            least_level(max_records as nat, n as nat, 1) == least_level(
                max_records as nat,
                n as nat,
                level as nat,
            ),
        decreases usize::MAX - p,
    {
        proof {
            lemma_power_grows(max_records as nat, level as nat);
            let q = power(max_records as nat, level as nat);
            assert(power(max_records as nat, (level + 1) as nat) == max_records * q);
            assert(p == q);
            assert(p * max_records == max_records * q) by (nonlinear_arith)
                requires
                    p == q,
            ;
            assert(max_records * q >= 2 * q) by (nonlinear_arith)
                requires
                    max_records >= 2,
                    q >= 1,
            ;
        }
        let ghost before = p;
        match p.checked_mul(max_records) {
            Some(v) => {
                p = v;
            },
            None => {
                p = usize::MAX;
            },
        }
        proof {
            assert(p > before);
        }
        level += 1;
    }
    proof {
        lemma_power_grows(max_records as nat, level as nat);
    }
    level
}

/// The number of children that the static build gives a node over `n` data
/// nodes with `e` levels to go: the least `k >= 1` with `k` to the power
/// `e` at least `n`.
pub fn node_fanout(n: usize, e: usize) -> (k: usize)
    requires
        n >= 1,
        e >= 1,
    ensures
        k >= 1,
        n <= power(k as nat, e as nat),
        k > 1 ==> power((k - 1) as nat, e as nat) < n,
        k <= n,
        k == least_root(n as nat, e as nat, 1),
{
    let mut k: usize = 1;
    loop
        invariant
            k >= 1,
            n >= 1,
            e >= 1,
            k <= n,
            k > 1 ==> power((k - 1) as nat, e as nat) < n,
            least_root(n as nat, e as nat, 1) == least_root(n as nat, e as nat, k as nat),
        ensures
            k >= 1,
            k <= n,
            n <= power(k as nat, e as nat),
            k > 1 ==> power((k - 1) as nat, e as nat) < n,
            k == least_root(n as nat, e as nat, 1),
        decreases n - k,
    {
        let p = pow_sat(k, e);
        if p >= n {
            break ;
        }
        proof {
            lemma_power_grows(k as nat, e as nat);
        }
        k += 1;
    }
    k
}

/// The product of two sizes, which always fits in `u128`.
pub fn wide_mul(a: usize, b: usize) -> (r: u128)
    ensures
        r == a * b,
{
    proof {
        assert(a <= 0xffff_ffff_ffff_ffff && b <= 0xffff_ffff_ffff_ffff);
        assert(a * b <= 0xffff_ffff_ffff_ffff * 0xffff_ffff_ffff_ffff) by (nonlinear_arith)
            requires
                0 <= a <= 0xffff_ffff_ffff_ffff,
                0 <= b <= 0xffff_ffff_ffff_ffff,
        ;
    }
    (a as u128) * (b as u128)
}

/// `percent` hundredths of `n`, rounded down.
pub fn quantile(percent: usize, n: usize) -> (r: usize)
    requires
        percent <= 100,
    ensures
        r == (percent * n) / 100,
        r <= n,
{
    proof {
        assert(percent * n <= 100 * n) by (nonlinear_arith)
            requires
                percent <= 100,
                n >= 0,
        ;
    }
    let wide: u128 = wide_mul(percent, n);
    (wide / 100) as usize
}

} // verus!
