//! Rounding helpers for sector arithmetic.
use vstd::prelude::*;

verus! {

/// `val` rounded up to a multiple of `div`.
pub open spec fn rounded_up(val: int, div: int) -> int {
    ((val + div - 1) / div) * div
}

/// Rounding up a value that is already rounded up leaves it as it is.
pub proof fn lemma_round_up_idempotent(val: nat, div: nat)
    requires
        div > 0,
    ensures
        rounded_up(rounded_up(val as int, div as int), div as int) == rounded_up(val as int, div as int),
{
    let q = (val + div - 1) / (div as int);
    assert((q * div + div - 1) / (div as int) == q) by (nonlinear_arith)
        requires
            div > 0,
            q >= 0,
    ;
}

/// `val` rounded up to the next multiple of `div`.
pub fn round_up_to(val: u64, div: u64) -> (r: u64)
    requires
        div > 0,
        rounded_up(val as int, div as int) <= u64::MAX,
    ensures
        r % div == 0,
        val <= r < val + div,
        r == rounded_up(val as int, div as int),
        val % div == 0 ==> r == val,
{
    let rem = val % div;
    if rem == 0 {
        proof {
            assert(((val + div - 1) / (div as int)) * div == val) by (nonlinear_arith)
                requires
                    div > 0,
                    val % div == 0,
            ;
        }
        val
    } else {
        proof {
            assert(((val + div - 1) / (div as int)) * div == val + div - rem) by (nonlinear_arith)
                requires
                    div > 0,
                    rem == val % div,
                    rem > 0,
            ;
            assert((val + div - rem) % (div as int) == 0) by (nonlinear_arith)
                requires
                    div > 0,
                    rem == val % div,
            ;
        }
        val + (div - rem)
    }
}

/// `val / div`, rounded up.
pub fn div_round_up(val: u64, div: u64) -> (r: u64)
    requires
        div > 0,
        val + div - 1 <= u64::MAX,
    ensures
        r == (val + div - 1) / (div as int),
        r * div >= val,
        (r as int) * (div as int) < val + div,
{
    let r = (val + (div - 1)) / div;
    proof {
        assert((r as int) * (div as int) >= val && (r as int) * (div as int) < val + div) by (nonlinear_arith)
            requires
                div > 0,
                r == (val + div - 1) / (div as int),
        ;
    }
    r
}

} // verus!
