//! Laws of rounding: it is exact on numbers, keeps order, and takes the closest number.

use vstd::arithmetic::div_mod::*;
use vstd::arithmetic::mul::*;
use vstd::arithmetic::power2::*;
use vstd::prelude::*;

use crate::binary64;
use crate::binary64::Binary64;
use crate::rounding;
use crate::rounding::{HIDDEN, INF_BITS, SIGNIFICAND_END};

verus! {

/// The range of integers with a given number of excess bits.
pub proof fn lemma_excess_range(n: nat)
    ensures
        n < pow2(53 + rounding::excess_bits(n)),
        rounding::excess_bits(n) > 0 ==> n >= pow2(52 + rounding::excess_bits(n)),
    decreases n,
{
    lemma2_to64();
    lemma2_to64_rest();
    if n >= SIGNIFICAND_END {
        lemma_excess_range(n / 2);
        let s = rounding::excess_bits(n / 2);
        lemma_pow2_unfold(54 + s);
        lemma_pow2_unfold(53 + s);
        if s == 0 {
            assert(pow2(53) == SIGNIFICAND_END);
        }
    }
}

/// Integers that are not smaller have no fewer excess bits.
pub proof fn lemma_excess_monotone(a: nat, b: nat)
    requires
        a <= b,
    ensures
        rounding::excess_bits(a) <= rounding::excess_bits(b),
    decreases b,
{
    if b >= SIGNIFICAND_END && a >= SIGNIFICAND_END {
        lemma_excess_monotone(a / 2, b / 2);
    }
}

/// The magnitude of the pattern that is `m` above the start of a binade.
pub proof fn lemma_magnitude_at(s: nat, m: nat)
    requires
        m <= SIGNIFICAND_END,
        s > 0 ==> m >= HIDDEN,
    ensures
        rounding::magnitude(s * (HIDDEN as nat) + m) == m * pow2(s),
{
    lemma2_to64();
    lemma2_to64_rest();
    let h = HIDDEN as nat;
    let k = s * h + m;
    if m < h {
        assert(s == 0);
        assert(0 * h == 0) by (nonlinear_arith);
    } else if m < SIGNIFICAND_END {
        assert(k / h == s + 1) by {
            assert(k == (s + 1) * h + (m - h)) by (nonlinear_arith)
                requires
                    k == s * h + m,
            ;
            lemma_fundamental_div_mod_converse(k as int, h as int, (s + 1) as int, m - h);
        }
    } else {
        assert(k == (s + 2) * h) by (nonlinear_arith)
            requires
                k == s * h + m,
                m == 2 * h,
        ;
        lemma_div_multiples_vanish((s + 2) as int, h as int);
        assert(k / h == s + 2) by {
            assert(h * (s + 2) == (s + 2) * h) by (nonlinear_arith);
        }
        assert(k - (s + 1) * h == h) by (nonlinear_arith)
            requires
                k == (s + 2) * h,
        ;
        lemma_pow2_unfold(s + 1);
        assert(h * (2 * pow2(s)) == (2 * h) * pow2(s)) by (nonlinear_arith);
    }
}

/// Every pattern lies `m` above the start of a binade.
proof fn lemma_split(k: nat) -> (r: (nat, nat))
    ensures
        k == r.0 * (HIDDEN as nat) + r.1,
        r.1 < SIGNIFICAND_END,
        r.0 > 0 ==> r.1 >= HIDDEN,
{
    let h = HIDDEN as nat;
    if k < h {
        assert(0 * h == 0) by (nonlinear_arith);
        (0, k)
    } else {
        let s = (k / h - 1) as nat;
        lemma_fundamental_div_mod(k as int, h as int);
        assert(k - s * h == h + k % h) by (nonlinear_arith)
            requires
                k == h * (k / h) + k % h,
                s == k / h - 1,
        ;
        (s, (k - s * h) as nat)
    }
}

/// The next pattern has a larger magnitude.
proof fn lemma_magnitude_step(k: nat)
    ensures
        rounding::magnitude(k) < rounding::magnitude(k + 1),
{
    let (s, m) = lemma_split(k);
    lemma_magnitude_at(s, m);
    lemma_magnitude_at(s, m + 1);
    lemma_pow2_pos(s);
    assert(m * pow2(s) < (m + 1) * pow2(s)) by (nonlinear_arith)
        requires
            pow2(s) > 0,
    ;
}

/// Larger patterns have larger magnitudes.
pub proof fn magnitudes_ascend(a: nat, b: nat)
    requires
        a < b,
    ensures
        rounding::magnitude(a) < rounding::magnitude(b),
    decreases b - a,
{
    lemma_magnitude_step(a);
    if a + 1 < b {
        magnitudes_ascend(a + 1, b);
    }
}

proof fn lemma_gap_step(k: nat)
    ensures
        rounding::magnitude(k + 1) - rounding::magnitude(k) <= rounding::magnitude(k + 2)
            - rounding::magnitude(k + 1),
{
    let (s, m) = lemma_split(k);
    let p = pow2(s);
    lemma_magnitude_at(s, m);
    lemma_magnitude_at(s, m + 1);
    lemma_pow2_pos(s);
    assert((m + 1) * p == m * p + p) by (nonlinear_arith);
    if m + 1 < SIGNIFICAND_END {
        lemma_magnitude_at(s, m + 2);
        assert((m + 2) * p == (m + 1) * p + p) by (nonlinear_arith);
    } else {
        let h = HIDDEN as nat;
        lemma_magnitude_at(s + 1, h);
        lemma_magnitude_at(s + 1, h + 1);
        lemma_pow2_unfold(s + 1);
        assert((s + 1) * h + h == s * h + (m + 1)) by (nonlinear_arith)
            requires
                m + 1 == 2 * h,
        ;
        assert((h + 1) * pow2(s + 1) == h * pow2(s + 1) + pow2(s + 1)) by (nonlinear_arith);
    }
}

/// The distance between neighbours does not shrink as numbers grow.
pub proof fn gaps_grow(a: nat, b: nat)
    requires
        a <= b,
    ensures
        rounding::magnitude(a + 1) - rounding::magnitude(a) <= rounding::magnitude(b + 1)
            - rounding::magnitude(b),
    decreases b - a,
{
    if a < b {
        lemma_gap_step(a);
        gaps_grow(a + 1, b);
    }
}

/// A magnitude is at most two to the power of 53 gaps below it.
pub proof fn gaps_are_wide(k: nat)
    ensures
        rounding::magnitude(k + 1) <= (rounding::magnitude(k + 1) - rounding::magnitude(k))
            * SIGNIFICAND_END,
{
    let (s, m) = lemma_split(k);
    let p = pow2(s);
    lemma_magnitude_at(s, m);
    lemma_magnitude_at(s, m + 1);
    lemma_pow2_pos(s);
    assert((m + 1) * p - m * p == p) by (nonlinear_arith);
    assert((m + 1) * p <= p * SIGNIFICAND_END) by (nonlinear_arith)
        requires
            m + 1 <= SIGNIFICAND_END,
            p > 0,
    ;
}

/// The number nearest to a number is that number.
pub proof fn rounding_keeps_numbers(k: nat)
    requires
        k < INF_BITS,
    ensures
        rounding::nearest(rounding::magnitude(k), 1) == k,
{
    lemma2_to64();
    lemma2_to64_rest();
    let (s, m) = lemma_split(k);
    lemma_magnitude_at(s, m);
    let n = rounding::magnitude(k);
    lemma_pow2_pos(s);
    assert(n / 1 == n);
    if s == 0 {
        assert(m * pow2(0) == m) by (nonlinear_arith)
            requires
                pow2(0) == 1,
        ;
        assert(rounding::excess_bits(n) == 0);
    } else {
        lemma_pow2_adds(52, s);
        lemma_pow2_adds(53, s);
        assert(pow2(52) * pow2(s) <= m * pow2(s)) by (nonlinear_arith)
            requires
                pow2(52) <= m,
        ;
        assert(m * pow2(s) < pow2(53) * pow2(s)) by (nonlinear_arith)
            requires
                m < pow2(53),
                pow2(s) > 0,
        ;
        rounding::lemma_excess_bits(n, s);
    }
    rounding::lemma_round_even_exact(m, pow2(s));
    assert(1 * pow2(s) == pow2(s));
}

proof fn lemma_round_even_same(a: nat, b: nat, d: nat)
    requires
        a <= b,
        d > 0,
    ensures
        rounding::round_even(a, d) <= rounding::round_even(b, d),
{
    lemma_div_is_ordered(a as int, b as int, d as int);
    lemma_fundamental_div_mod(a as int, d as int);
    lemma_fundamental_div_mod(b as int, d as int);
    if a / d == b / d {
        assert(a % d <= b % d);
    }
}

/// A quotient that is not larger does not round to a larger integer.
pub proof fn lemma_round_even_monotone(a: nat, b: nat, c: nat, d: nat)
    requires
        b > 0,
        d > 0,
        a * d <= c * b,
    ensures
        rounding::round_even(a, b) <= rounding::round_even(c, d),
{
    rounding::lemma_round_even_scale(a, b, d);
    rounding::lemma_round_even_scale(c, d, b);
    lemma_mul_is_commutative(b as int, d as int);
    lemma_round_even_same(a * d, c * b, b * d);
}

/// What lies in a binade rounds to no more than its end, and to no less than its start.
pub proof fn lemma_round_even_bounds(num: nat, den: nat)
    requires
        den > 0,
    ensures
        ({
            let s = rounding::excess_bits(num / den);
            let r = rounding::round_even(num, den * pow2(s));
            &&& den * pow2(s) > 0
            &&& num / (den * pow2(s)) < SIGNIFICAND_END
            &&& s > 0 ==> num / (den * pow2(s)) >= HIDDEN
            &&& r <= SIGNIFICAND_END
            &&& s > 0 ==> r >= HIDDEN
        }),
{
    lemma2_to64();
    lemma2_to64_rest();
    let n = num / den;
    let s = rounding::excess_bits(n);
    lemma_excess_range(n);
    lemma_pow2_pos(s);
    lemma_mul_strictly_positive(den as int, pow2(s) as int);
    lemma_div_denominator(num as int, den as int, pow2(s) as int);
    lemma_pow2_adds(53, s);
    lemma_pow2_adds(52, s);
    let q = n / pow2(s);
    lemma_fundamental_div_mod(n as int, pow2(s) as int);
    let p = pow2(s);
    assert(q < SIGNIFICAND_END) by (nonlinear_arith)
        requires
            n < SIGNIFICAND_END * p,
            n == p * q + n % p,
            n % p >= 0,
            p > 0,
    ;
    if s > 0 {
        assert(q >= HIDDEN) by (nonlinear_arith)
            requires
                n >= HIDDEN * p,
                n == p * q + n % p,
                n % p < p,
                p > 0,
        ;
    }
}

/// Rounding keeps order: a quotient that is not larger does not round to a larger number.
pub proof fn rounding_keeps_order(a: nat, b: nat, c: nat, d: nat)
    requires
        b > 0,
        d > 0,
        a * d <= c * b,
    ensures
        rounding::nearest(a, b) <= rounding::nearest(c, d),
{
    let s = rounding::excess_bits(a / b);
    let t = rounding::excess_bits(c / d);
    assert(a / b <= c / d) by {
        lemma_fundamental_div_mod(a as int, b as int);
        lemma_fundamental_div_mod(c as int, d as int);
        let x = a / b;
        let y = c / d;
        if x > y {
            assert(x >= y + 1);
            assert(x * b * d >= (y + 1) * d * b) by (nonlinear_arith)
                requires
                    x >= y + 1,
                    b > 0,
                    d > 0,
            ;
            assert(a * d >= x * b * d) by (nonlinear_arith)
                requires
                    a == b * x + a % b,
                    a % b >= 0,
                    d > 0,
            ;
            assert((y + 1) * d == d * y + d) by (nonlinear_arith);
            lemma_mul_strict_inequality(c as int, ((y + 1) * d) as int, b as int);
        }
    }
    lemma_excess_monotone(a / b, c / d);
    lemma_round_even_bounds(a, b);
    lemma_round_even_bounds(c, d);
    let h = HIDDEN as nat;
    let r1 = rounding::round_even(a, b * pow2(s));
    let r2 = rounding::round_even(c, d * pow2(t));
    if s == t {
        let p = pow2(s);
        assert(a * (d * p) <= c * (b * p)) by (nonlinear_arith)
            requires
                a * d <= c * b,
                p >= 0,
        ;
        lemma_round_even_monotone(a, b * p, c, d * p);
    } else {
        assert(s * h + r1 <= t * h + r2) by (nonlinear_arith)
            requires
                t >= s + 1,
                r1 <= 2 * h,
                r2 >= h,
        ;
    }
}

/// How far the number with pattern `k` lies from `num / den`, in units of `1 / den`.
pub open spec fn distance(num: nat, den: nat, k: nat) -> nat {
    let x = rounding::magnitude(k) * den;
    if x >= num {
        (x - num) as nat
    } else {
        (num - x) as nat
    }
}

/// Rounding takes the closest number: no number lies closer to `num / den`.
pub proof fn rounding_is_closest(num: nat, den: nat, j: nat)
    requires
        den > 0,
        rounding::nearest(num, den) < INF_BITS,
    ensures
        distance(num, den, rounding::nearest(num, den)) <= distance(num, den, j),
{
    let h = HIDDEN as nat;
    let s = rounding::excess_bits(num / den);
    let p = pow2(s);
    let d = den * p;
    let q = num / d;
    let r = num % d;
    lemma_round_even_bounds(num, den);
    lemma_fundamental_div_mod(num as int, d as int);
    lemma_magnitude_at(s, q);
    lemma_magnitude_at(s, q + 1);
    let lo = s * h + q;
    let a = rounding::magnitude(lo) * den;
    let b = rounding::magnitude(lo + 1) * den;
    assert(a == num - r) by (nonlinear_arith)
        requires
            a == (q * p) * den,
            d == den * p,
            num == d * q + r,
    ;
    assert(b == num - r + d) by (nonlinear_arith)
        requires
            b == ((q + 1) * p) * den,
            d == den * p,
            num == d * q + r,
    ;
    let x = rounding::magnitude(j) * den;
    if j <= lo {
        if j < lo {
            magnitudes_ascend(j, lo);
        }
        assert(x <= a) by (nonlinear_arith)
            requires
                x == rounding::magnitude(j) * den,
                a == rounding::magnitude(lo) * den,
                rounding::magnitude(j) <= rounding::magnitude(lo),
        ;
    } else {
        if lo + 1 < j {
            magnitudes_ascend(lo + 1, j);
        }
        assert(x >= b) by (nonlinear_arith)
            requires
                x == rounding::magnitude(j) * den,
                b == rounding::magnitude(lo + 1) * den,
                rounding::magnitude(j) >= rounding::magnitude(lo + 1),
        ;
    }
}

/// Rounding breaks ties to the even significand: where another number lies as close, the
/// pattern taken is even.
pub proof fn ties_round_to_even(num: nat, den: nat, j: nat)
    requires
        den > 0,
        rounding::nearest(num, den) < INF_BITS,
        j != rounding::nearest(num, den),
        distance(num, den, j) == distance(num, den, rounding::nearest(num, den)),
    ensures
        rounding::nearest(num, den) % 2 == 0,
{
    let h = HIDDEN as nat;
    let s = rounding::excess_bits(num / den);
    let p = pow2(s);
    let d = den * p;
    let q = num / d;
    let r = num % d;
    lemma_round_even_bounds(num, den);
    lemma_fundamental_div_mod(num as int, d as int);
    lemma_magnitude_at(s, q);
    lemma_magnitude_at(s, q + 1);
    let lo = s * h + q;
    let a = rounding::magnitude(lo) * den;
    let b = rounding::magnitude(lo + 1) * den;
    assert(a == num - r) by (nonlinear_arith)
        requires
            a == (q * p) * den,
            d == den * p,
            num == d * q + r,
    ;
    assert(b == num - r + d) by (nonlinear_arith)
        requires
            b == ((q + 1) * p) * den,
            d == den * p,
            num == d * q + r,
    ;
    let x = rounding::magnitude(j) * den;
    if j < lo {
        magnitudes_ascend(j, lo);
        assert(x < a) by (nonlinear_arith)
            requires
                x == rounding::magnitude(j) * den,
                a == rounding::magnitude(lo) * den,
                rounding::magnitude(j) < rounding::magnitude(lo),
                den > 0,
        ;
    } else if lo + 1 < j {
        magnitudes_ascend(lo + 1, j);
        assert(x > b) by (nonlinear_arith)
            requires
                x == rounding::magnitude(j) * den,
                b == rounding::magnitude(lo + 1) * den,
                rounding::magnitude(j) > rounding::magnitude(lo + 1),
                den > 0,
        ;
    }
    assert((s * h) % 2 == 0) by (nonlinear_arith)
        requires
            h == 2 * 0x8_0000_0000_0000,
    ;
}

/// Finite numbers are ordered by their values.
pub proof fn order_is_by_value(a: Binary64, b: Binary64)
    requires
        a.finite(),
        b.finite(),
    ensures
        binary64::less(a, b) <==> a.units() < b.units(),
        binary64::equal(a, b) <==> a.units() == b.units(),
{
    let x = a.abs_bits();
    let y = b.abs_bits();
    if x < y {
        magnitudes_ascend(x, y);
    } else if y < x {
        magnitudes_ascend(y, x);
    }
    if x > 0 {
        magnitudes_ascend(0, x);
    }
    if y > 0 {
        magnitudes_ascend(0, y);
    }
}

/// Integers below two to the power of 53 are numbers: they are not rounded.
pub proof fn small_integers_are_exact(n: nat)
    requires
        n < SIGNIFICAND_END,
    ensures
        binary64::integer(n).finite(),
        binary64::integer(n).units() == n * pow2(1074),
{
    lemma2_to64();
    lemma2_to64_rest();
    if n == 0 {
        assert(0 * pow2(1074) == 0) by (nonlinear_arith);
        rounding_keeps_numbers(0);
    } else {
        let (e, m) = lemma_normalised(n, 0);
        let s = (1074 - e) as nat;
        lemma_magnitude_at(s, m);
        lemma_pow2_adds(e, s);
        assert(m * pow2(s) == n * pow2(1074)) by (nonlinear_arith)
            requires
                m == n * pow2(e),
                pow2(1074) == pow2(e) * pow2(s),
        ;
        let k = s * (HIDDEN as nat) + m;
        assert(k < INF_BITS) by (nonlinear_arith)
            requires
                k == s * (HIDDEN as nat) + m,
                s <= 1074,
                m < 2 * HIDDEN,
                INF_BITS == 2047 * HIDDEN,
        ;
        rounding_keeps_numbers(k);
    }
}

/// A positive integer, doubled until it fills a significand.
proof fn lemma_normalised(n: nat, e: nat) -> (r: (nat, nat))
    requires
        e <= 52,
        pow2(e) <= n * pow2(e) < SIGNIFICAND_END,
    ensures
        r.0 <= 52,
        r.1 == n * pow2(r.0),
        HIDDEN <= r.1 < SIGNIFICAND_END,
    decreases 52 - e,
{
    lemma2_to64();
    lemma2_to64_rest();
    let m = n * pow2(e);
    if m >= HIDDEN {
        (e, m)
    } else {
        if e == 52 {
            assert(pow2(52) == HIDDEN);
        }
        lemma_pow2_unfold(e + 1);
        assert(n * pow2(e + 1) == 2 * m) by (nonlinear_arith)
            requires
                m == n * pow2(e),
                pow2(e + 1) == 2 * pow2(e),
        ;
        lemma_normalised(n, e + 1)
    }
}

/// Products keep order: a smaller factor does not make a larger product.
pub proof fn products_keep_order(a: Binary64, b: Binary64, c: Binary64)
    requires
        a.finite() && !a.negative(),
        b.finite() && !b.negative(),
        c.finite() && !c.negative(),
        binary64::at_most(a, b),
    ensures
        binary64::at_most(binary64::product(a, c), binary64::product(b, c)),
        !binary64::product(a, c).negative(),
        !binary64::product(b, c).negative(),
{
    lemma_mag_monotone(a, b);
    lemma_pow2_pos(1074);
    let p = pow2(1074);
    assert((a.mag() * c.mag()) * p <= (b.mag() * c.mag()) * p) by (nonlinear_arith)
        requires
            a.mag() <= b.mag(),
            c.mag() >= 0,
            p > 0,
    ;
    rounding_keeps_order(a.mag() * c.mag(), p, b.mag() * c.mag(), p);
}

/// Quotients keep order: a smaller dividend does not make a larger quotient.
pub proof fn quotients_keep_order(a: Binary64, b: Binary64, c: Binary64)
    requires
        a.finite() && !a.negative(),
        b.finite() && !b.negative(),
        c.finite() && !c.negative(),
        binary64::less(binary64::zero(), c),
        binary64::at_most(a, b),
    ensures
        binary64::at_most(binary64::quotient(a, c), binary64::quotient(b, c)),
        !binary64::quotient(a, c).negative(),
        !binary64::quotient(b, c).negative(),
{
    lemma_mag_monotone(a, b);
    magnitudes_ascend(0, c.abs_bits());
    let p = pow2(1074);
    assert((a.mag() * p) * c.mag() <= (b.mag() * p) * c.mag()) by (nonlinear_arith)
        requires
            a.mag() <= b.mag(),
            c.mag() >= 0,
            p >= 0,
    ;
    rounding_keeps_order(a.mag() * p, c.mag(), b.mag() * p, c.mag());
}

/// A quotient of a number that is not negative and a positive one is not negative.
pub proof fn quotient_not_negative(a: Binary64, b: Binary64)
    requires
        binary64::at_most(binary64::zero(), a),
        binary64::less(binary64::zero(), b),
        b.finite(),
    ensures
        binary64::at_most(binary64::zero(), binary64::quotient(a, b)),
{
    if a.finite() && b.finite() {
        if a.abs_bits() == 0 {
            assert(rounding::magnitude(0) == 0);
            assert(0 * pow2(1074) == 0) by (nonlinear_arith);
            magnitudes_ascend(0, b.abs_bits());
            zero_over(b.mag());
        }
    }
}

/// Zero rounds to zero.
pub proof fn zero_over(d: nat)
    requires
        d > 0,
    ensures
        rounding::nearest(0, d) == 0,
{
    rounding::lemma_nearest_scale(0, 1, d);
    assert(0 * d == 0 && 1 * d == d);
    binary64::lemma_nearest_is_zero(0);
}

/// Sums keep order: a smaller summand does not make a larger sum.
pub proof fn sums_keep_order(a: Binary64, b: Binary64, c: Binary64)
    requires
        a.finite() && !a.negative(),
        b.finite() && !b.negative(),
        c.finite() && !c.negative(),
        binary64::at_most(a, b),
    ensures
        binary64::at_most(binary64::sum(a, c), binary64::sum(b, c)),
        !binary64::sum(a, c).negative(),
        !binary64::sum(b, c).negative(),
{
    lemma_mag_monotone(a, b);
    let x = a.mag() + c.mag();
    let y = b.mag() + c.mag();
    assert(x * 1 <= y * 1);
    rounding_keeps_order(x, 1, y, 1);
}

proof fn lemma_mag_monotone(a: Binary64, b: Binary64)
    requires
        !a.negative(),
        !b.negative(),
        binary64::at_most(a, b),
    ensures
        a.mag() <= b.mag(),
{
    if a.abs_bits() < b.abs_bits() {
        magnitudes_ascend(a.abs_bits(), b.abs_bits());
    }
}

/// Integers keep their order as numbers.
pub proof fn integers_keep_order(a: nat, b: nat)
    requires
        a <= b,
    ensures
        binary64::at_most(binary64::integer(a), binary64::integer(b)),
        !binary64::integer(a).negative(),
        !binary64::integer(b).negative(),
{
    let p = pow2(1074);
    assert((a * p) * 1 <= (b * p) * 1) by (nonlinear_arith)
        requires
            a <= b,
            p >= 0,
    ;
    rounding_keeps_order(a * p, 1, b * p, 1);
}

/// Products of small integers are exact.
pub proof fn small_products_are_exact(a: nat, b: nat)
    requires
        a < SIGNIFICAND_END,
        b < SIGNIFICAND_END,
    ensures
        binary64::product(binary64::integer(a), binary64::integer(b)) == binary64::integer(a * b),
{
    small_integers_are_exact(a);
    small_integers_are_exact(b);
    integers_keep_order(0, a);
    integers_keep_order(0, b);
    let p = pow2(1074);
    lemma_pow2_pos(1074);
    assert((a * p) * (b * p) == ((a * b) * p) * p) by (nonlinear_arith);
    rounding::lemma_nearest_scale((a * b) * p, 1, p);
    assert(1 * p == p);
}

/// Sums of small integers are exact.
pub proof fn small_sums_are_exact(a: nat, b: nat)
    requires
        a < SIGNIFICAND_END,
        b < SIGNIFICAND_END,
    ensures
        binary64::sum(binary64::integer(a), binary64::integer(b)) == binary64::integer(a + b),
{
    small_integers_are_exact(a);
    small_integers_are_exact(b);
    integers_keep_order(0, a);
    integers_keep_order(0, b);
    let p = pow2(1074);
    lemma_pow2_pos(1074);
    assert(a * p + b * p == (a + b) * p) by (nonlinear_arith);
    if a + b == 0 {
        assert(0 * p == 0) by (nonlinear_arith);
        binary64::lemma_nearest_is_zero(0);
    } else {
        assert((a + b) * p > 0) by (nonlinear_arith)
            requires
                a + b > 0,
                p > 0,
        ;
    }
}

/// One half, exactly.
pub proof fn half_is_exact()
    ensures
        binary64::quotient(binary64::integer(1), binary64::integer(2)).finite(),
        !binary64::quotient(binary64::integer(1), binary64::integer(2)).negative(),
        binary64::quotient(binary64::integer(1), binary64::integer(2)).mag() == pow2(1073),
{
    lemma2_to64();
    lemma2_to64_rest();
    small_integers_are_exact(1);
    small_integers_are_exact(2);
    integers_keep_order(0, 1);
    integers_keep_order(0, 2);
    let p = pow2(1074);
    let q = pow2(1073);
    lemma_pow2_unfold(1074);
    lemma_pow2_pos(1073);
    assert(2 * p > 0 && 1 * p == p);
    if binary64::integer(2).abs_bits() == 0 {
        assert(rounding::magnitude(0) == 0);
    }
    if binary64::integer(1).abs_bits() == 0 {
        assert(rounding::magnitude(0) == 0);
    }
    assert((1 * p) * p == q * (2 * p)) by (nonlinear_arith)
        requires
            p == 2 * q,
    ;
    rounding::lemma_nearest_scale(q, 1, 2 * p);
    assert(1 * (2 * p) == 2 * p);
    // Two to the power of 1073 is the number at the start of a binade.
    lemma_magnitude_at(1021, HIDDEN as nat);
    lemma_pow2_adds(52, 1021);
    rounding_keeps_numbers(1021 * (HIDDEN as nat) + HIDDEN as nat);
}

/// Half is above zero.
pub proof fn lemma_half_positive()
    ensures
        binary64::less(
            binary64::zero(),
            binary64::quotient(binary64::integer(1), binary64::integer(2)),
        ),
{
    half_is_exact();
    lemma_pow2_pos(1073);
    assert(rounding::magnitude(0) == 0);
}

/// Half is below every positive integer.
pub proof fn half_is_below(n: nat)
    requires
        0 < n < SIGNIFICAND_END,
    ensures
        binary64::at_most(
            binary64::quotient(binary64::integer(1), binary64::integer(2)),
            binary64::integer(n),
        ),
{
    half_is_exact();
    small_integers_are_exact(n);
    integers_keep_order(0, n);
    let h = binary64::quotient(binary64::integer(1), binary64::integer(2));
    lemma_pow2_unfold(1074);
    lemma_pow2_pos(1073);
    assert(n * pow2(1074) >= pow2(1073)) by (nonlinear_arith)
        requires
            n >= 1,
            pow2(1074) == 2 * pow2(1073),
            pow2(1073) > 0,
    ;
    if binary64::integer(n).abs_bits() < h.abs_bits() {
        magnitudes_ascend(binary64::integer(n).abs_bits(), h.abs_bits());
    }
}

/// Twice one half is one.
pub proof fn half_doubled()
    ensures
        binary64::product(
            binary64::quotient(binary64::integer(1), binary64::integer(2)),
            binary64::integer(2),
        ) == binary64::integer(1),
{
    half_is_exact();
    small_integers_are_exact(2);
    integers_keep_order(0, 2);
    let p = pow2(1074);
    lemma_pow2_unfold(1074);
    lemma_pow2_pos(1074);
    assert(pow2(1073) * (2 * p) == (1 * p) * p) by (nonlinear_arith)
        requires
            p == 2 * pow2(1073),
    ;
    rounding::lemma_nearest_scale(1 * p, 1, p);
    assert(1 * p == p);
}

/// Half of ten is five.
pub proof fn ten_halved()
    ensures
        binary64::quotient(binary64::integer(10), binary64::integer(2)) == binary64::integer(5),
{
    small_integers_are_exact(10);
    small_integers_are_exact(2);
    integers_keep_order(0, 10);
    integers_keep_order(0, 2);
    let p = pow2(1074);
    lemma_pow2_pos(1074);
    assert(rounding::magnitude(0) == 0);
    assert((10 * p) * p == (5 * p) * (2 * p)) by (nonlinear_arith);
    rounding::lemma_nearest_scale(5 * p, 1, 2 * p);
    assert(1 * (2 * p) == 2 * p);
}

/// A number that is not above an integer has no larger integral part.
pub proof fn lemma_whole_at_most(x: Binary64, n: nat)
    requires
        n < SIGNIFICAND_END,
        binary64::at_most(x, binary64::integer(n)),
    ensures
        binary64::whole_part(x) <= n,
{
    if !x.negative() {
        small_integers_are_exact(n);
        integers_keep_order(0, n);
        lemma_mag_monotone(x, binary64::integer(n));
        let p = pow2(1074);
        lemma_pow2_pos(1074);
        lemma_div_is_ordered(x.mag() as int, (n * p) as int, p as int);
        lemma_div_multiples_vanish(n as int, p as int);
        assert(p * n == n * p) by (nonlinear_arith);
    }
}

/// A lapse of time is positive and finite.
pub proof fn lapses_are_positive(nanos: nat)
    requires
        0 < nanos,
        nanos / 1_000_000_000 + 1 < SIGNIFICAND_END,
    ensures
        binary64::less(binary64::zero(), binary64::seconds(nanos)),
        binary64::seconds(nanos).finite(),
{
    lemma2_to64();
    lemma2_to64_rest();
    let a = nanos / 1_000_000_000;
    let b = nanos % 1_000_000_000;
    let d = 1_000_000_000nat;
    let p = pow2(1074);
    lemma_pow2_pos(1074);
    small_integers_are_exact(a);
    small_integers_are_exact(b);
    small_integers_are_exact(d);
    integers_keep_order(0, a);
    integers_keep_order(0, b);
    integers_keep_order(0, d);
    let x = binary64::integer(a);
    let y = binary64::integer(b);
    let z = binary64::integer(d);
    assert(d * p > 0) by (nonlinear_arith)
        requires
            d > 0,
            p > 0,
    ;
    assert(z.abs_bits() != 0) by {
        assert(rounding::magnitude(0) == 0);
    }
    let q = binary64::quotient(y, z);
    assert((b * p) * p <= 1 * ((b * p) * p));
    assert(((b * p) * p) * 1 <= p * (d * p)) by (nonlinear_arith)
        requires
            b <= d,
            p > 0,
    ;
    rounding_keeps_order((b * p) * p, d * p, p, 1);
    small_integers_are_exact(1);
    assert(1 * p == p);
    assert(q.finite());
    if b > 0 {
        lemma_pow2_strictly_increases(64, 1074);
        assert(1 * (d * p) <= ((b * p) * p) * 1) by (nonlinear_arith)
            requires
                b >= 1,
                p >= d,
                p > 0,
        ;
        rounding_keeps_order(1, 1, (b * p) * p, d * p);
        binary64::lemma_nearest_is_zero(1);
        magnitudes_ascend(0, q.abs_bits());
    } else {
        assert(a > 0);
        assert(a * p > 0) by (nonlinear_arith)
            requires
                a > 0,
                p > 0,
        ;
        assert(y.abs_bits() == 0) by {
            assert(0 * p == 0) by (nonlinear_arith);
            if y.abs_bits() > 0 {
                magnitudes_ascend(0, y.abs_bits());
            }
        }
    }
    let t = x.mag() + q.mag();
    assert(t > 0);
    binary64::lemma_nearest_is_zero(t);
    integers_keep_order(0, 1);
    sums_keep_order(q, binary64::integer(1), x);
    small_sums_are_exact(1, a);
    small_integers_are_exact(a + 1);
}

/// A finite number that is not below zero.
pub open spec fn plain(x: Binary64) -> bool {
    x.finite() && binary64::at_most(binary64::zero(), x)
}

/// A plain number is its magnitude.
pub proof fn lemma_plain(x: Binary64)
    requires
        plain(x),
    ensures
        x.units() == x.mag(),
        x.place() == x.abs_bits(),
{
    assert(rounding::magnitude(0) == 0);
}

/// Plain numbers are ordered by their magnitudes.
pub proof fn lemma_mag_order(x: Binary64, y: Binary64)
    requires
        plain(x),
        plain(y),
    ensures
        binary64::at_most(x, y) <==> x.mag() <= y.mag(),
{
    lemma_plain(x);
    lemma_plain(y);
    if x.abs_bits() < y.abs_bits() {
        magnitudes_ascend(x.abs_bits(), y.abs_bits());
    } else if y.abs_bits() < x.abs_bits() {
        magnitudes_ascend(y.abs_bits(), x.abs_bits());
    }
}

/// Where a product of plain numbers stands.
pub proof fn lemma_product_place(a: Binary64, b: Binary64)
    requires
        plain(a),
        plain(b),
    ensures
        !binary64::product(a, b).nan(),
        binary64::product(a, b).place() == rounding::nearest(a.mag() * b.mag(), pow2(1074)),
{
    lemma_plain(a);
    lemma_plain(b);
    lemma_pow2_pos(1074);
    if a.negative() || b.negative() {
        assert(rounding::magnitude(0) == 0);
        assert(a.mag() * b.mag() == 0) by (nonlinear_arith)
            requires
                a.mag() == 0 || b.mag() == 0,
        ;
        zero_over(pow2(1074));
    }
}

/// Where a quotient of plain numbers stands.
pub proof fn lemma_quotient_place(a: Binary64, b: Binary64)
    requires
        plain(a),
        plain(b),
        b.place() > 0,
    ensures
        b.mag() > 0,
        !binary64::quotient(a, b).nan(),
        binary64::quotient(a, b).place() == rounding::nearest(a.mag() * pow2(1074), b.mag()),
{
    lemma_plain(a);
    lemma_plain(b);
    assert(rounding::magnitude(0) == 0);
    magnitudes_ascend(0, b.abs_bits());
    if a.negative() {
        assert(a.mag() * pow2(1074) == 0) by (nonlinear_arith)
            requires
                a.mag() == 0,
        ;
        zero_over(b.mag());
    }
}

/// Adding is commutative.
pub proof fn sum_is_commutative(a: Binary64, b: Binary64)
    ensures
        binary64::sum(a, b) == binary64::sum(b, a),
{
}

} // verus!
