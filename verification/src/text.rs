//! Decimal text of integers, for the texts of identifiers and rectangles.

use vstd::prelude::*;
use vstd::string::StringExecFns;

verus! {

/// The text of a decimal digit.
pub open spec fn digit_text(d: nat) -> Seq<char> {
    if d == 0 {
        "0"@
    } else if d == 1 {
        "1"@
    } else if d == 2 {
        "2"@
    } else if d == 3 {
        "3"@
    } else if d == 4 {
        "4"@
    } else if d == 5 {
        "5"@
    } else if d == 6 {
        "6"@
    } else if d == 7 {
        "7"@
    } else if d == 8 {
        "8"@
    } else {
        "9"@
    }
}

/// The decimal text of a number, without leading zeros.
pub open spec fn decimal(n: nat) -> Seq<char>
    decreases n,
{
    if n < 10 {
        digit_text(n)
    } else {
        decimal(n / 10) + digit_text(n % 10)
    }
}

/// The decimal text of an integer, with a minus sign where it is negative.
pub open spec fn signed_decimal(v: int) -> Seq<char> {
    if v < 0 {
        "-"@ + decimal((-v) as nat)
    } else {
        decimal(v as nat)
    }
}

/// The text of digits that stand last digit first.
pub open spec fn reversed_text(ds: Seq<u8>) -> Seq<char>
    decreases ds.len(),
{
    if ds.len() == 0 {
        Seq::empty()
    } else {
        digit_text(ds.last() as nat) + reversed_text(ds.drop_last())
    }
}

fn digit_str(d: u8) -> (r: &'static str)
    requires
        d < 10,
    ensures
        r@ == digit_text(d as nat),
{
    match d {
        0 => "0",
        1 => "1",
        2 => "2",
        3 => "3",
        4 => "4",
        5 => "5",
        6 => "6",
        7 => "7",
        8 => "8",
        _ => "9",
    }
}

/// Appends the decimal text of `n` to `out`.
pub fn push_decimal(out: &mut String, n: u64)
    ensures
        final(out)@ == old(out)@ + decimal(n as nat),
{
    let mut digits: Vec<u8> = Vec::new();
    let mut m: u64 = n;
    while m >= 10
        invariant
            decimal(n as nat) == decimal(m as nat) + reversed_text(digits@),
            forall|k: int| 0 <= k < digits@.len() ==> digits@[k] < 10,
        decreases m,
    {
        let ghost before = digits@;
        digits.push((m % 10) as u8);
        proof {
            assert(digits@.drop_last() =~= before);
            assert(decimal(m as nat) == decimal((m / 10) as nat) + digit_text((m % 10) as nat));
            assert(decimal(n as nat) =~= decimal((m / 10) as nat) + reversed_text(digits@));
        }
        m = m / 10;
    }
    let ghost before = digits@;
    digits.push(m as u8);
    proof {
        assert(digits@.drop_last() =~= before);
        assert(decimal(n as nat) =~= reversed_text(digits@));
    }
    let ghost all = digits@;
    let ghost start = out@;
    let mut k: usize = digits.len();
    proof {
        assert(all.take(k as int) =~= all);
    }
    while k > 0
        invariant
            k <= digits.len(),
            all == digits@,
            forall|j: int| 0 <= j < all.len() ==> all[j] < 10,
            out@ + reversed_text(all.take(k as int)) == start + reversed_text(all),
        decreases k,
    {
        let ghost prefix = all.take(k as int);
        proof {
            assert(prefix.last() == all[k - 1]);
            assert(prefix.drop_last() =~= all.take(k - 1));
        }
        let ghost so_far = out@;
        out.append(digit_str(digits[k - 1]));
        proof {
            assert(out@ + reversed_text(all.take(k - 1)) =~= so_far + reversed_text(prefix));
        }
        k -= 1;
    }
    proof {
        assert(all.take(0) =~= Seq::<u8>::empty());
        assert(out@ =~= out@ + reversed_text(all.take(0)));
    }
}

/// Appends the decimal text of `v` to `out`.
pub fn push_signed_decimal(out: &mut String, v: i64)
    ensures
        final(out)@ == old(out)@ + signed_decimal(v as int),
{
    if v < 0 {
        let magnitude: u64 = (-(v as i128)) as u64;
        let ghost start = out@;
        out.append("-");
        push_decimal(out, magnitude);
        proof {
            assert(out@ =~= start + ("-"@ + decimal((-v) as nat)));
        }
    } else {
        push_decimal(out, v as u64);
    }
}

} // verus!
