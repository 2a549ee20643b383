//! The power of ten at or below a number.

use vstd::prelude::*;

use crate::binary64;
use crate::binary64::Binary64;
use crate::decimal;
use crate::decimal::power_bits;

verus! {

/// The number nearest to ten to the power of `e`.
pub open spec fn power(e: int) -> Binary64 {
    binary64::signed(false, decimal::decimal_bits(1, e))
}

/// The number lies in the decade of `e`: at or above its power of ten and below the next.
pub open spec fn in_decade(x: Binary64, e: int) -> bool {
    binary64::at_most(power(e), x) && binary64::less(x, power(e + 1))
}

/// The power of ten at or below a positive number; infinity for infinity.
pub open spec fn decade_of(x: Binary64) -> Binary64 {
    if x.finite() {
        power(choose|e: int| in_decade(x, e))
    } else {
        x
    }
}

/// Powers of ten keep their order.
pub proof fn powers_ascend(a: int, b: int)
    requires
        a <= b,
    ensures
        binary64::at_most(power(a), power(b)),
    decreases b - a,
{
    decimal::lemma_decimal_order(a);
    if a + 1 < b {
        powers_ascend(a + 1, b);
        decimal::lemma_decimal_order(a + 1);
    }
    decimal::lemma_decimal_order(b);
}

/// A number lies in one decade only.
pub proof fn decade_is_unique(x: Binary64, a: int, b: int)
    requires
        in_decade(x, a),
        in_decade(x, b),
    ensures
        a == b,
{
    if a < b {
        powers_ascend(a + 1, b);
    } else if b < a {
        powers_ascend(b + 1, a);
    }
}

proof fn lemma_decade_from(x: Binary64, e: int) -> (r: int)
    requires
        x.finite(),
        -401 <= e < 400,
        binary64::at_most(power(e), x),
    ensures
        in_decade(x, r),
    decreases 400 - e,
{
    decimal::lemma_decimal_ends();
    decimal::lemma_decimal_order(e);
    if binary64::less(x, power(e + 1)) {
        e
    } else {
        lemma_decade_from(x, e + 1)
    }
}

/// Every finite positive number lies in a decade, whose power of ten is not above it.
pub proof fn numbers_have_a_decade(x: Binary64)
    requires
        x.finite(),
        binary64::less(binary64::zero(), x),
    ensures
        exists|e: int| #[trigger] in_decade(x, e) && decade_of(x) == power(e),
        binary64::at_most(decade_of(x), x),
{
    decimal::lemma_decimal_ends();
    let e = lemma_decade_from(x, -401);
    assert(in_decade(x, e));
    let c = choose|c: int| in_decade(x, c);
    assert(in_decade(x, c) && decade_of(x) == power(c));
}

fn power_of_ten(e: i128) -> (r: Binary64)
    requires
        -401 < e < 400,
    ensures
        r == power(e as int),
{
    binary64::signed_exec(false, power_bits(e))
}

/// The power of ten at or below a positive number: the next one lies above the number.
pub fn decade(x: Binary64) -> (r: Binary64)
    requires
        binary64::less(binary64::zero(), x),
    ensures
        r == decade_of(x),
        x.finite() ==> exists|e: int| #[trigger] in_decade(x, e) && r == power(e),
{
    if !x.is_finite() {
        return x;
    }
    let mut low: i128 = -401;
    let mut high: i128 = 400;
    let mut r: Binary64 = Binary64::from_bits(0);
    proof {
        decimal::lemma_decimal_ends();
    }
    while high - low > 1
        invariant
            -401 <= low < high <= 400,
            r == power(low as int),
            binary64::at_most(r, x),
            binary64::less(x, power(high as int)),
        decreases high - low,
    {
        let mid: i128 = low + (high - low) / 2;
        let p: Binary64 = power_of_ten(mid);
        if p.le(x) {
            low = mid;
            r = p;
        } else {
            proof {
                decimal::lemma_decimal_order(mid as int);
            }
            high = mid;
        }
    }
    proof {
        assert(in_decade(x, low as int));
        let e = choose|e: int| in_decade(x, e);
        decade_is_unique(x, low as int, e);
    }
    r
}

} // verus!
