//! The grid lines of a graph reach the largest value that it shows.

use vstd::arithmetic::div_mod::*;
use vstd::arithmetic::power::*;
use vstd::arithmetic::power2::*;
use vstd::prelude::*;

use crate::accuracy;
use crate::additivity;
use crate::binary64;
use crate::binary64::Binary64;
use crate::decade;
use crate::decimal;
use crate::graphs;
use crate::plot;
use crate::rounding;
use crate::rounding::{HIDDEN, SIGNIFICAND_END};

verus! {

/// The number is one or larger, infinity included.
pub open spec fn from_one(x: Binary64) -> bool {
    binary64::at_most(binary64::integer(1), x)
}

proof fn lemma_one()
    ensures
        accuracy::plain(binary64::integer(1)),
        binary64::integer(1).mag() == pow2(1074),
        binary64::integer(1).place() == rounding::nearest(pow2(1074), 1),
        binary64::integer(1).place() > 0,
        pow2(1074) > 0,
{
    accuracy::small_integers_are_exact(1);
    accuracy::integers_keep_order(0, 1);
    lemma_pow2_pos(1074);
    assert(1 * pow2(1074) == pow2(1074));
    accuracy::lemma_plain(binary64::integer(1));
    binary64::lemma_nearest_is_zero(pow2(1074));
}

/// A number over a smaller one is one or larger.
proof fn lemma_ratio(x: Binary64, step: Binary64)
    requires
        step.finite(),
        binary64::less(binary64::zero(), step),
        binary64::at_most(step, x),
    ensures
        from_one(binary64::quotient(x, step)),
{
    lemma_one();
    if x.finite() {
        accuracy::lemma_quotient_place(x, step);
        accuracy::lemma_mag_order(step, x);
        let p = pow2(1074);
        assert(p * step.mag() <= (x.mag() * p) * 1) by (nonlinear_arith)
            requires
                step.mag() <= x.mag(),
        ;
        accuracy::rounding_keeps_order(p, 1, x.mag() * p, step.mag());
    }
}

/// The ceiling of a number is not below it.
proof fn lemma_ceiling(x: Binary64)
    requires
        from_one(x),
    ensures
        from_one(binary64::ceiling(x)),
        binary64::at_most(x, binary64::ceiling(x)),
        x.finite() && binary64::ceiling(x).finite() ==> x.mag() <= binary64::ceiling(x).mag(),
{
    lemma_one();
    let p = pow2(1074);
    let c = binary64::ceiling(x);
    let whole = x.mag() / p;
    if x.finite() && x.mag() % p != 0 {
        lemma_fundamental_div_mod(x.mag() as int, p as int);
        assert((whole + 1) * p == p * whole + p) by (nonlinear_arith);
        assert(x.mag() * 1 <= ((whole + 1) * p) * 1);
        accuracy::rounding_keeps_order(x.mag(), 1, (whole + 1) * p, 1);
        accuracy::rounding_keeps_numbers(x.abs_bits());
        if c.finite() {
            accuracy::lemma_mag_order(x, c);
        }
    }
}

/// The top grid line is no lower than the step, and no further below the scale than its
/// neighbour.
pub proof fn grid_reaches_the_scale(scale: Binary64, step: Binary64)
    requires
        scale.finite(),
        binary64::less(binary64::zero(), step),
        binary64::at_most(step, scale),
    ensures
        !plot::grid_top(scale, step).nan(),
        binary64::at_most(step, plot::grid_top(scale, step)),
        plot::grid_top(scale, step).place() >= scale.place() - 1,
{
    lemma_one();
    let p = pow2(1074);
    let y = binary64::quotient(scale, step);
    let c = binary64::ceiling(y);
    let top = plot::grid_top(scale, step);
    lemma_ratio(scale, step);
    lemma_ceiling(y);
    accuracy::lemma_plain(scale);
    accuracy::lemma_plain(step);
    if c.finite() {
        assert(y.finite());
        accuracy::lemma_product_place(c, step);
        accuracy::lemma_mag_order(binary64::integer(1), c);
        let m = step.mag();
        assert(m * p <= (c.mag() * m) * 1) by (nonlinear_arith)
            requires
                p <= c.mag(),
        ;
        accuracy::rounding_keeps_order(m, 1, c.mag() * m, p);
        accuracy::rounding_keeps_numbers(step.abs_bits());
        // The quotient is off by one part in two to the power of 53 at most.
        accuracy::lemma_quotient_place(scale, step);
        accuracy::lemma_mag_order(step, scale);
        let num = scale.mag() * p;
        lemma2_to64();
        lemma2_to64_rest();
        lemma_pow2_strictly_increases(52, 1074);
        assert(num >= HIDDEN * m) by (nonlinear_arith)
            requires
                num == scale.mag() * p,
                scale.mag() >= m,
                p >= HIDDEN,
        ;
        accuracy::lemma_plain(y);
        additivity::rounding_error_is_small(num, m);
        let e = additivity::precision();
        let dist = accuracy::distance(num, m, y.abs_bits());
        let low = (scale.abs_bits() - 1) as nat;
        accuracy::gaps_are_wide(low);
        let below = rounding::magnitude(low);
        let gap = scale.mag() - below;
        assert(c.mag() * m >= below * p) by {
            assert(c.mag() * m >= y.mag() * m) by (nonlinear_arith)
                requires
                    c.mag() >= y.mag(),
            ;
            assert(y.mag() * m >= num - dist);
            assert(dist <= gap * p) by (nonlinear_arith)
                requires
                    dist * e <= num,
                    num == scale.mag() * p,
                    scale.mag() <= gap * e,
                    e > 0,
                    p > 0,
            ;
            assert(num - gap * p == below * p) by (nonlinear_arith)
                requires
                    num == scale.mag() * p,
                    gap == scale.mag() - below,
            ;
        }
        assert(below * p <= (c.mag() * m) * 1);
        accuracy::rounding_keeps_order(below, 1, c.mag() * m, p);
        accuracy::rounding_keeps_numbers(low);
    }
}

/// A graph with a positive scale has at least one grid line, the power of ten at or below
/// the scale. Only where that power rounds to zero there is none.
pub proof fn grid_has_a_line(scale: Binary64)
    requires
        scale.finite(),
        binary64::less(binary64::zero(), scale),
        binary64::less(binary64::zero(), decade::decade_of(scale)),
    ensures
        plot::grid_values(scale, decade::decade_of(scale)).len() >= 1,
        plot::grid_values(scale, decade::decade_of(scale))[0] == decade::decade_of(scale),
{
    lemma_one();
    decade::numbers_have_a_decade(scale);
    let step = decade::decade_of(scale);
    grid_reaches_the_scale(scale, step);
    let top = plot::grid_top(scale, step);
    lemma_ratio(top, step);
    let t = binary64::quotient(top, step);
    let p = pow2(1074);
    if t.finite() {
        accuracy::lemma_mag_order(binary64::integer(1), t);
        lemma_div_is_ordered(p as int, t.mag() as int, p as int);
        lemma_div_by_self(p as int);
    }
    assert(binary64::truncated(t) >= 1);
    // The first line is one step.
    accuracy::lemma_plain(step);
    let m = step.mag();
    accuracy::lemma_product_place(binary64::integer(1), step);
    rounding::lemma_nearest_scale(m, 1, p);
    assert(m * p == p * m) by (nonlinear_arith);
    assert(1 * p == p);
    accuracy::rounding_keeps_numbers(step.abs_bits());
    assert(binary64::product(binary64::integer(1), step) == step);
}

proof fn lemma_step(scale: Binary64, e: nat)
    requires
        binary64::at_most(binary64::integer(decimal::pow10(e)), scale),
        binary64::less(scale, binary64::integer(10 * decimal::pow10(e))),
    ensures
        decade::decade_of(scale) == binary64::integer(decimal::pow10(e)),
        scale.finite(),
{
    let t = decimal::pow10(e);
    lemma_pow_positive(10, e);
    lemma_pow_positive(10, e + 1);
    lemma_pow_adds(10, 1, e);
    lemma_pow1(10);
    assert(decimal::pow10(e + 1) == 10 * t);
    assert(1 * t == t);
    assert(1 * (10 * t) == 10 * t);
    assert(decade::power(e as int) == binary64::integer(t));
    assert(decade::power(e as int + 1) == binary64::integer(10 * t));
    assert(decade::in_decade(scale, e as int));
    let c = choose|c: int| decade::in_decade(scale, c);
    decade::decade_is_unique(scale, e as int, c);
}

proof fn lemma_same_magnitude(a: Binary64, b: Binary64)
    requires
        accuracy::plain(a),
        accuracy::plain(b),
        !a.negative(),
        !b.negative(),
        a.mag() == b.mag(),
    ensures
        a == b,
{
    if a.abs_bits() < b.abs_bits() {
        accuracy::magnitudes_ascend(a.abs_bits(), b.abs_bits());
    } else if b.abs_bits() < a.abs_bits() {
        accuracy::magnitudes_ascend(b.abs_bits(), a.abs_bits());
    }
}

/// A graph that shows values up to `scale` has a line at every multiple of the power of ten
/// at or below the scale, from the first up to the one that reaches the scale, which is as
/// close to it as rounding lets it, and none beyond.
pub proof fn grid_lines_are_the_multiples_of_a_power_of_ten(scale: Binary64, e: nat)
    requires
        e <= 14,
        binary64::at_most(binary64::integer(decimal::pow10(e)), scale),
        binary64::less(scale, binary64::integer(10 * decimal::pow10(e))),
    ensures
        ({
            let l = graphs::grid_lines(scale);
            let t = decimal::pow10(e);
            &&& 1 <= l.len() <= 10
            &&& forall|m: int|
                0 <= m < l.len() ==> #[trigger] l[m] == binary64::integer(((m + 1) * t) as nat)
            &&& l.last().place() >= scale.place() - 1
            &&& ((l.len() - 1) * t) * pow2(1074) < scale.units()
        }),
{
    lemma_top(scale, e);
}

#[verifier::rlimit(40)]
proof fn lemma_top(scale: Binary64, e: nat)
    requires
        e <= 14,
        binary64::at_most(binary64::integer(decimal::pow10(e)), scale),
        binary64::less(scale, binary64::integer(10 * decimal::pow10(e))),
    ensures
        ({
            let l = graphs::grid_lines(scale);
            let t = decimal::pow10(e);
            &&& 1 <= l.len() <= 10
            &&& forall|m: int|
                0 <= m < l.len() ==> #[trigger] l[m] == binary64::integer(((m + 1) * t) as nat)
            &&& l.last() == plot::grid_top(scale, binary64::integer(t))
            &&& l.last().place() >= scale.place() - 1
            &&& ((l.len() - 1) * t) * pow2(1074) < scale.units()
        }),
{
    let t = decimal::pow10(e);
    let p = pow2(1074);
    lemma_pow2_pos(1074);
    lemma_step(scale, e);
    lemma_small_power(e);
    let step = binary64::integer(t);
    accuracy::small_integers_are_exact(t);
    accuracy::small_integers_are_exact(10 * t);
    accuracy::integers_keep_order(0, t);
    accuracy::integers_keep_order(0, 10 * t);
    assert(rounding::magnitude(0) == 0);
    assert(t * p > 0) by (nonlinear_arith)
        requires
            t > 0,
            p > 0,
    ;
    accuracy::order_is_by_value(binary64::zero(), step);
    accuracy::order_is_by_value(step, scale);
    accuracy::order_is_by_value(scale, binary64::integer(10 * t));
    assert(accuracy::plain(scale) && accuracy::plain(step));
    accuracy::lemma_plain(scale);
    accuracy::lemma_plain(step);
    let y = binary64::quotient(scale, step);
    accuracy::lemma_quotient_place(scale, step);
    let num = scale.mag() * p;
    let den = t * p;
    // One to ten steps.
    let ten = 10 * p;
    assert(p * den <= num * 1) by (nonlinear_arith)
        requires
            num == scale.mag() * p,
            den == t * p,
            scale.mag() >= t * p,
    ;
    assert(num * 1 <= ten * den) by (nonlinear_arith)
        requires
            num == scale.mag() * p,
            den == t * p,
            scale.mag() <= (10 * t) * p,
            ten == 10 * p,
    ;
    accuracy::rounding_keeps_order(p, 1, num, den);
    accuracy::rounding_keeps_order(num, den, ten, 1);
    accuracy::small_integers_are_exact(1);
    accuracy::small_integers_are_exact(10);
    accuracy::integers_keep_order(0, 1);
    accuracy::integers_keep_order(0, 10);
    assert(1 * p == p);
    let one = binary64::integer(1);
    accuracy::rounding_keeps_numbers(one.abs_bits());
    accuracy::rounding_keeps_numbers(binary64::integer(10).abs_bits());
    assert(accuracy::plain(y));
    accuracy::lemma_plain(y);
    accuracy::lemma_mag_order(one, y);
    accuracy::lemma_mag_order(y, binary64::integer(10));
    let ym = y.mag();
    let n = if ym % p == 0 {
        ym / p
    } else {
        ym / p + 1
    };
    lemma_fundamental_div_mod(ym as int, p as int);
    assert(p * (ym / p) == (ym / p) * p) by (nonlinear_arith);
    assert((n - 1) * p < ym <= n * p) by (nonlinear_arith)
        requires
            ym == (ym / p) * p + ym % p,
            0 <= ym % p < p,
            n == (if ym % p == 0 {
                ym / p
            } else {
                ym / p + 1
            }),
    ;
    assert(1 <= n <= 10) by (nonlinear_arith)
        requires
            (n - 1) * p < ym <= n * p,
            p <= ym <= 10 * p,
            p > 0,
    ;
    let c = binary64::ceiling(y);
    accuracy::small_integers_are_exact(n);
    accuracy::integers_keep_order(0, n);
    assert(c == binary64::integer(n)) by {
        if ym % p == 0 {
            lemma_same_magnitude(y, binary64::integer(n));
        }
    }
    assert(n * t < SIGNIFICAND_END) by (nonlinear_arith)
        requires
            n <= 10,
            t <= 100_000_000_000_000,
    ;
    let top = plot::grid_top(scale, step);
    accuracy::small_products_are_exact(n, t);
    assert(top == binary64::integer(n * t));
    accuracy::small_integers_are_exact(n * t);
    accuracy::integers_keep_order(0, n * t);
    let r = binary64::quotient(top, step);
    accuracy::lemma_plain(top);
    accuracy::lemma_quotient_place(top, step);
    assert(top.mag() * p == (n * p) * den) by (nonlinear_arith)
        requires
            top.mag() == (n * t) * p,
            den == t * p,
    ;
    rounding::lemma_nearest_scale(n * p, 1, den);
    assert(1 * den == den);
    accuracy::rounding_keeps_numbers(binary64::integer(n).abs_bits());
    assert(r == binary64::integer(n)) by {
        accuracy::lemma_plain(binary64::integer(n));
    }
    lemma_div_multiples_vanish(n as int, p as int);
    assert(p * n == n * p) by (nonlinear_arith);
    assert(binary64::truncated(r) == n);
    let l = graphs::grid_lines(scale);
    assert(l.len() == n);
    assert forall|m: int| 0 <= m < l.len() implies #[trigger] l[m] == binary64::integer(
        ((m + 1) * t) as nat,
    ) by {
        accuracy::small_products_are_exact((m + 1) as nat, t);
    }
    assert(l[n - 1] == binary64::integer(((n - 1 + 1) * t) as nat));
    assert(l.last() == top);
    grid_reaches_the_scale(scale, step);
    // One line fewer would do for a smaller scale only.
    if scale.mag() <= ((n - 1) * t) * p {
        let k = (n - 1) as nat;
        assert(num * 1 <= (k * p) * den) by (nonlinear_arith)
            requires
                num == scale.mag() * p,
                den == t * p,
                scale.mag() <= (k * t) * p,
        ;
        accuracy::rounding_keeps_order(num, den, k * p, 1);
        accuracy::small_integers_are_exact(k);
        accuracy::integers_keep_order(0, k);
        accuracy::rounding_keeps_numbers(binary64::integer(k).abs_bits());
        accuracy::lemma_plain(binary64::integer(k));
        accuracy::lemma_mag_order(y, binary64::integer(k));
    }
}

/// Whatever the step, the lines stand at its multiples, from the first on, and at most the
/// one that reaches the scale is left out, where rounding falls short of it.
#[verifier::rlimit(40)]
pub proof fn grid_lines_are_the_multiples_of_the_step(scale: Binary64, step: Binary64)
    requires
        scale.finite(),
        step.finite(),
        binary64::less(binary64::zero(), step),
        binary64::at_most(step, scale),
        scale.units() <= 16 * step.units(),
    ensures
        ({
            let l = plot::grid_values(scale, step);
            &&& forall|m: int|
                0 <= m < l.len() ==> #[trigger] l[m] == binary64::product(
                    binary64::integer((m + 1) as nat),
                    step,
                )
            &&& binary64::product(binary64::integer(l.len() + 1), step).place() >= scale.place() - 1
        }),
{
    lemma_one();
    let p = pow2(1074);
    lemma_pow2_pos(1074);
    assert(rounding::magnitude(0) == 0);
    accuracy::lemma_plain(scale);
    accuracy::lemma_plain(step);
    let s = step.mag();
    let y = binary64::quotient(scale, step);
    accuracy::lemma_quotient_place(scale, step);
    lemma_ratio(scale, step);
    let sixteen = 16 * p;
    assert((scale.mag() * p) * 1 <= sixteen * s) by (nonlinear_arith)
        requires
            scale.mag() <= 16 * s,
            sixteen == 16 * p,
    ;
    accuracy::rounding_keeps_order(scale.mag() * p, s, sixteen, 1);
    accuracy::small_integers_are_exact(16);
    accuracy::integers_keep_order(0, 16);
    accuracy::rounding_keeps_numbers(binary64::integer(16).abs_bits());
    accuracy::lemma_plain(binary64::integer(16));
    assert(accuracy::plain(y));
    accuracy::lemma_plain(y);
    accuracy::lemma_mag_order(y, binary64::integer(16));
    accuracy::lemma_mag_order(binary64::integer(1), y);
    let ym = y.mag();
    let n = if ym % p == 0 {
        ym / p
    } else {
        ym / p + 1
    };
    lemma_fundamental_div_mod(ym as int, p as int);
    assert(p * (ym / p) == (ym / p) * p) by (nonlinear_arith);
    assert((n - 1) * p < ym <= n * p) by (nonlinear_arith)
        requires
            ym == (ym / p) * p + ym % p,
            0 <= ym % p < p,
            n == (if ym % p == 0 {
                ym / p
            } else {
                ym / p + 1
            }),
    ;
    assert(1 <= n <= 16) by (nonlinear_arith)
        requires
            (n - 1) * p < ym <= n * p,
            p <= ym <= 16 * p,
            p > 0,
    ;
    accuracy::small_integers_are_exact(n);
    accuracy::integers_keep_order(0, n);
    let c = binary64::ceiling(y);
    assert(c == binary64::integer(n)) by {
        if ym % p == 0 {
            lemma_same_magnitude(y, binary64::integer(n));
        }
    }
    let top = plot::grid_top(scale, step);
    grid_reaches_the_scale(scale, step);
    accuracy::lemma_product_place(c, step);
    let l = plot::grid_values(scale, step);
    let t = binary64::quotient(top, step);
    if !top.finite() {
        assert(binary64::truncated(t) == u64::MAX);
    } else {
        accuracy::lemma_plain(top);
        let num = (n * p) * s;
        crate::axis_laws::lemma_rounding_error(num, p);
        let dist = accuracy::distance(num, p, top.abs_bits());
        let k = (n - 1) as nat;
        let e = SIGNIFICAND_END as int;
        let tm = top.mag();
        // The product is no further off than one step.
        assert(tm >= k * s) by (nonlinear_arith)
            requires
                tm * p >= num - dist,
                dist * e <= num + p * e,
                num == (n * p) * s,
                k == n - 1,
                n <= 16,
                s >= 1,
                e > 1000,
                p > 0,
        ;
        accuracy::lemma_quotient_place(top, step);
        assert((k * p) * s <= (tm * p) * 1) by (nonlinear_arith)
            requires
                tm >= k * s,
        ;
        accuracy::rounding_keeps_order(k * p, 1, tm * p, s);
        accuracy::small_integers_are_exact(k);
        accuracy::integers_keep_order(0, k);
        accuracy::rounding_keeps_numbers(binary64::integer(k).abs_bits());
        if t.finite() {
            accuracy::lemma_plain(binary64::integer(k));
            accuracy::lemma_mag_order(binary64::integer(k), t);
            lemma_div_is_ordered((k * p) as int, t.mag() as int, p as int);
            lemma_div_multiples_vanish(k as int, p as int);
            assert(p * k == k * p) by (nonlinear_arith);
        }
        assert(binary64::truncated(t) >= k);
    }
    assert(l.len() + 1 >= n);
    let more = binary64::integer(l.len() + 1);
    accuracy::integers_keep_order(n, l.len() + 1);
    lemma_long_grid(l.len() + 1);
    accuracy::products_keep_order(c, more, step);
}

/// There are as many lines as the scale has steps, the last one in part: where the scale over
/// the step lies above `n - 1` and not above `n`, and `n` steps over the step are `n` again,
/// there are `n` lines.
pub proof fn there_are_as_many_lines_as_steps(scale: Binary64, step: Binary64, n: nat)
    requires
        binary64::less(binary64::zero(), scale),
        1 <= n <= 1_000_000,
        binary64::less(binary64::integer((n - 1) as nat), binary64::quotient(scale, step)),
        binary64::at_most(binary64::quotient(scale, step), binary64::integer(n)),
        binary64::quotient(
            binary64::product(binary64::integer(n), step),
            step,
        ) == binary64::integer(n),
    ensures
        plot::grid_values(scale, step).len() == n,
{
    let p = pow2(1074);
    lemma_pow2_pos(1074);
    assert(rounding::magnitude(0) == 0);
    let k = (n - 1) as nat;
    accuracy::small_integers_are_exact(n);
    accuracy::small_integers_are_exact(k);
    accuracy::integers_keep_order(0, n);
    accuracy::integers_keep_order(0, k);
    let y = binary64::quotient(scale, step);
    let a = binary64::integer(k);
    let b = binary64::integer(n);
    assert(y.finite());
    accuracy::order_is_by_value(a, y);
    accuracy::order_is_by_value(b, y);
    assert(k * p >= 0) by (nonlinear_arith);
    assert(accuracy::plain(y) && !y.negative());
    let ym = y.mag();
    assert(k * p < ym <= n * p);
    lemma_fundamental_div_mod(ym as int, p as int);
    let q = ym / p;
    assert(p * q == q * p) by (nonlinear_arith);
    assert(ym % p == 0 ==> q == n) by (nonlinear_arith)
        requires
            ym == q * p + ym % p,
            k * p < ym <= n * p,
            k == n - 1,
            p > 0,
    ;
    assert(ym % p != 0 ==> q == k) by (nonlinear_arith)
        requires
            ym == q * p + ym % p,
            0 <= ym % p < p,
            k * p < ym <= n * p,
            k == n - 1,
            p > 0,
    ;
    assert(binary64::ceiling(y) == b) by {
        if ym % p == 0 {
            lemma_same_magnitude(y, b);
        }
    }
    lemma_div_multiples_vanish(n as int, p as int);
    assert(p * n == n * p) by (nonlinear_arith);
    assert(binary64::truncated(b) == n);
}

proof fn lemma_long_grid(n: nat)
    requires
        n <= 0x8000_0000_0000_0000,
    ensures
        binary64::integer(n).finite(),
{
    lemma2_to64();
    lemma2_to64_rest();
    let p = pow2(1074);
    lemma_pow2_pos(1074);
    accuracy::lemma_magnitude_at(1137, HIDDEN as nat);
    lemma_pow2_adds(52, 1137);
    lemma_pow2_adds(115, 1074);
    lemma_pow2_strictly_increases(63, 115);
    assert(n * p <= pow2(115) * p) by (nonlinear_arith)
        requires
            n <= pow2(115),
            p > 0,
    ;
    let top = 1137 * (HIDDEN as nat) + HIDDEN as nat;
    assert((n * p) * 1 <= rounding::magnitude(top) * 1);
    accuracy::rounding_keeps_order(n * p, 1, rounding::magnitude(top), 1);
    accuracy::rounding_keeps_numbers(top);
}

/// The top of the scale lies a tenth above the last grid line, to within a part in two to the
/// power of 47.
#[verifier::rlimit(40)]
pub proof fn the_scale_ends_a_tenth_above_the_last_line(scale: Binary64, e: nat)
    requires
        e <= 14,
        binary64::at_most(binary64::integer(decimal::pow10(e)), scale),
        binary64::less(scale, binary64::integer(10 * decimal::pow10(e))),
    ensures
        ({
            let last = graphs::grid_lines(scale).last();
            let end = graphs::grid_end(scale);
            &&& accuracy::plain(end)
            &&& -last.units() <= (10 * end.units() - 11 * last.units()) * 0x8000_0000_0000
                <= last.units()
        }),
{
    grid_lines_are_the_multiples_of_a_power_of_ten(scale, e);
    let t = decimal::pow10(e);
    let p = pow2(1074);
    lemma_pow2_pos(1074);
    lemma2_to64();
    lemma2_to64_rest();
    lemma_pow2_adds(53, 53);
    lemma_pow2_strictly_increases(106, 1074);
    lemma_small_power(e);
    lemma_step(scale, e);
    let l = graphs::grid_lines(scale);
    let n = l.len();
    let last = l.last();
    let c = n * t;
    assert(1 <= c <= 1_000_000_000_000_000) by (nonlinear_arith)
        requires
            c == n * t,
            1 <= n <= 10,
            1 <= t <= 100_000_000_000_000,
    ;
    assert(l[n - 1] == binary64::integer(((n - 1 + 1) * t) as nat));
    assert(last == binary64::integer(c));
    let step = binary64::integer(t);
    assert(plot::grid_top(scale, step) == last) by {
        lemma_top(scale, e);
    }
    accuracy::small_integers_are_exact(c);
    accuracy::integers_keep_order(0, c);
    accuracy::small_integers_are_exact(11);
    accuracy::small_integers_are_exact(10);
    accuracy::small_integers_are_exact(2);
    accuracy::integers_keep_order(0, 11);
    accuracy::integers_keep_order(0, 10);
    accuracy::integers_keep_order(0, 2);
    assert(rounding::magnitude(0) == 0);
    let ten = binary64::integer(10);
    let two = binary64::integer(2);
    accuracy::order_is_by_value(binary64::zero(), ten);
    accuracy::lemma_plain(last);
    // Eleven tenths.
    let r = binary64::quotient(binary64::integer(11), ten);
    accuracy::lemma_quotient_place(binary64::integer(11), ten);
    let num = (11 * p) * p;
    let den = 10 * p;
    assert(num * 1 <= (2 * p) * den) by (nonlinear_arith)
        requires
            num == (11 * p) * p,
            den == 10 * p,
    ;
    accuracy::rounding_keeps_order(num, den, 2 * p, 1);
    accuracy::rounding_keeps_numbers(two.abs_bits());
    accuracy::lemma_plain(two);
    assert(accuracy::plain(r));
    accuracy::lemma_plain(r);
    accuracy::lemma_mag_order(r, two);
    let rm = r.mag();
    crate::axis_laws::lemma_rounding_error(num, den);
    let e1 = accuracy::distance(num, den, r.abs_bits());
    // Of the last line.
    let end = binary64::product(last, r);
    accuracy::lemma_product_place(last, r);
    let lm = last.mag();
    assert(lm == c * p);
    assert((lm * rm) * 1 <= ((2 * c) * p) * p) by (nonlinear_arith)
        requires
            lm == c * p,
            rm <= 2 * p,
    ;
    accuracy::rounding_keeps_order(lm * rm, p, (2 * c) * p, 1);
    accuracy::small_integers_are_exact(2 * c);
    accuracy::integers_keep_order(0, 2 * c);
    accuracy::rounding_keeps_numbers(binary64::integer(2 * c).abs_bits());
    assert(accuracy::plain(end));
    accuracy::lemma_plain(end);
    let em = end.mag();
    crate::axis_laws::lemma_rounding_error(lm * rm, p);
    let e2 = accuracy::distance(lm * rm, p, end.abs_bits());
    let k = SIGNIFICAND_END as int;
    let f1 = (10 * rm - 11 * p) * k;
    assert(-(12 * p) <= f1 <= 12 * p) by {
        assert(-(11 * p + 10 * k) <= f1 <= 11 * p + 10 * k) by (nonlinear_arith)
            requires
                f1 == (10 * rm - 11 * p) * k,
                -e1 <= rm * den - num <= e1,
                e1 * k <= num + den * k,
                num == (11 * p) * p,
                den == 10 * p,
                p > 0,
                k > 0,
        ;
        assert(10 * k <= p) by (nonlinear_arith)
            requires
                p > k * k,
                k > 10,
        ;
    }
    let f2 = (em - c * rm) * k;
    assert(-(3 * lm) <= f2 <= 3 * lm) by {
        assert(-(c * rm + k) <= f2 <= c * rm + k) by (nonlinear_arith)
            requires
                f2 == (em - c * rm) * k,
                -e2 <= em * p - lm * rm <= e2,
                e2 * k <= lm * rm + p * k,
                lm == c * p,
                p > 0,
                k > 0,
        ;
        assert(c * rm + k <= 3 * lm) by (nonlinear_arith)
            requires
                lm == c * p,
                rm <= 2 * p,
                p > k * k,
                k > 1,
                c >= 1,
        ;
    }
    let off = 10 * em - 11 * lm;
    assert(off * k == 10 * f2 + c * f1) by (nonlinear_arith)
        requires
            off == 10 * em - 11 * lm,
            lm == c * p,
            f1 == (10 * rm - 11 * p) * k,
            f2 == (em - c * rm) * k,
    ;
    assert(-(12 * lm) <= c * f1 <= 12 * lm) by (nonlinear_arith)
        requires
            -(12 * p) <= f1 <= 12 * p,
            lm == c * p,
            c >= 0,
    ;
    assert(-(42 * lm) <= off * k <= 42 * lm);
    let z = 0x8000_0000_0000int;
    assert(k == 64 * z);
    assert(-lm <= off * z <= lm) by (nonlinear_arith)
        requires
            -(42 * lm) <= off * k <= 42 * lm,
            k == 64 * z,
            lm >= 0,
    ;
}

proof fn lemma_small_power(e: nat)
    requires
        e <= 14,
    ensures
        1 <= decimal::pow10(e) <= 100_000_000_000_000,
{
    lemma_pow_positive(10, e);
    lemma_pow_increases(10, e, 14);
    assert(pow(10, 14) == 100_000_000_000_000) by {
        reveal(pow);
        assert(pow(10, 5) == 100_000) by {
            reveal_with_fuel(pow, 6);
        }
        assert(pow(10, 10) == 10_000_000_000) by {
            reveal_with_fuel(pow, 6);
        }
        reveal_with_fuel(pow, 5);
    }
}

} // verus!
