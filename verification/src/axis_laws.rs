//! The axis of the graphs: one scale of 60 seconds, whatever is drawn on it.

use vstd::arithmetic::div_mod::*;
use vstd::arithmetic::power2::*;
use vstd::prelude::*;

use crate::accuracy;
use crate::additivity;
use crate::binary64;
use crate::binary64::Binary64;
use crate::plot::{axis_at, capped_height, marks, points, start_of, Dots, Mark, TicksView};
use crate::rounding;
use crate::rounding::{HIDDEN, INF_BITS, SIGNIFICAND_END};

verus! {

/// Rounding is off by at most one part in two to the power of 53, and one unit.
pub proof fn lemma_rounding_error(num: nat, den: nat)
    requires
        den > 0,
        rounding::nearest(num, den) < INF_BITS,
    ensures
        accuracy::distance(num, den, rounding::nearest(num, den)) * SIGNIFICAND_END <= num + den
            * SIGNIFICAND_END,
{
    let k = rounding::nearest(num, den);
    let dist = accuracy::distance(num, den, k);
    if num >= HIDDEN * den {
        additivity::rounding_error_is_small(num, den);
        assert(den * SIGNIFICAND_END >= 0);
    } else {
        let q = num / den;
        lemma_fundamental_div_mod(num as int, den as int);
        assert(q < HIDDEN) by (nonlinear_arith)
            requires
                num < HIDDEN * den,
                num == den * q + num % den,
                num % den >= 0,
                den > 0,
        ;
        lemma2_to64();
        assert(den * pow2(0) == den) by (nonlinear_arith)
            requires
                pow2(0) == 1,
        ;
        accuracy::lemma_magnitude_at(0, k);
        assert(0 * (HIDDEN as nat) + k == k);
        assert(k * pow2(0) == k);
        assert(k == q || k == q + 1);
        assert(dist <= den) by (nonlinear_arith)
            requires
                num == den * q + num % den,
                0 <= num % den < den,
                k == q || k == q + 1,
                dist == (if k * den >= num {
                    k * den - num
                } else {
                    num - k * den
                }),
        ;
        assert(dist * SIGNIFICAND_END <= den * SIGNIFICAND_END) by (nonlinear_arith)
            requires
                dist <= den,
        ;
    }
}

/// Sixty seconds are the number sixty.
proof fn lemma_minute()
    ensures
        binary64::seconds(60_000_000_000) == binary64::integer(60),
        accuracy::plain(binary64::integer(60)),
        binary64::integer(60).units() == 60 * pow2(1074),
        binary64::integer(60).place() > 0,
{
    let p = pow2(1074);
    lemma_pow2_pos(1074);
    assert(rounding::magnitude(0) == 0);
    accuracy::small_integers_are_exact(0);
    accuracy::small_integers_are_exact(60);
    accuracy::small_integers_are_exact(1_000_000_000);
    accuracy::integers_keep_order(0, 0);
    accuracy::integers_keep_order(0, 60);
    accuracy::integers_keep_order(0, 1_000_000_000);
    let z = binary64::integer(0);
    let g = binary64::integer(1_000_000_000);
    assert(0 * p == 0) by (nonlinear_arith);
    assert(z.abs_bits() == 0) by {
        if z.abs_bits() > 0 {
            accuracy::magnitudes_ascend(0, z.abs_bits());
        }
    }
    assert(g.mag() == 1_000_000_000 * p);
    accuracy::zero_over(g.mag());
    assert(binary64::quotient(z, g) == binary64::zero());
    let x = binary64::integer(60);
    assert(x.units() == 60 * p);
    accuracy::rounding_keeps_numbers(x.abs_bits());
}

/// A whole number of dots.
proof fn lemma_last(w: Dots)
    requires
        w.wf(),
    ensures
        accuracy::plain(w.last()),
        !w.last().negative(),
        w.last().units() == (w.width - 1) * pow2(1074),
        w.last().place() > 0,
        pow2(1074) > SIGNIFICAND_END * SIGNIFICAND_END,
{
    let n = (w.width - 1) as nat;
    accuracy::small_integers_are_exact(n);
    accuracy::integers_keep_order(0, n);
    accuracy::integers_keep_order(1, n);
    accuracy::small_integers_are_exact(1);
    accuracy::integers_keep_order(0, 1);
    lemma2_to64();
    lemma2_to64_rest();
    lemma_pow2_adds(53, 53);
    lemma_pow2_strictly_increases(106, 1074);
    assert(rounding::magnitude(0) == 0);
    assert(1 * pow2(1074) > 0);
}

/// The axis of a graph is 60 seconds wide: a time that lies `a` before the newest one stands
/// `a` sixtieths of the width left of the last column, to within a part of the width in two
/// to the power of 44. This holds however much time the data at hand span.
#[verifier::rlimit(40)]
pub proof fn the_axis_is_a_minute_wide(cum: Binary64, span: Binary64, w: Dots)
    requires
        w.wf(),
        cum.finite(),
        span.finite(),
        0 <= span.units() - cum.units() <= 60 * pow2(1074),
    ensures
        ({
            let x = axis_at(cum, span, w);
            let width = (w.width - 1) * pow2(1074);
            let ago = span.units() - cum.units();
            let want = (w.width - 1) * (60 * pow2(1074) - ago);
            &&& accuracy::plain(x)
            &&& -width <= (60 * x.units() - want) * 0x1000_0000_0000 <= width
        }),
{
    let p = pow2(1074);
    let n = (w.width - 1) as nat;
    let e = SIGNIFICAND_END as int;
    let a = (span.units() - cum.units()) as nat;
    lemma_minute();
    lemma_last(w);
    assert(rounding::magnitude(0) == 0);
    let last = w.last();
    let minute = binary64::integer(60);
    assert(binary64::opposite(cum).units() == -cum.units());
    // How long ago.
    let d = binary64::difference(span, cum);
    accuracy::rounding_keeps_order(a, 1, 60 * p, 1);
    accuracy::rounding_keeps_numbers(minute.abs_bits());
    accuracy::lemma_plain(minute);
    assert(rounding::nearest(a, 1) <= minute.abs_bits());
    accuracy::zero_over(1);
    assert(accuracy::plain(d));
    accuracy::lemma_plain(d);
    let dm = d.mag();
    assert(rounding::nearest(a, 1) == d.abs_bits());
    lemma_rounding_error(a, 1);
    let e1 = accuracy::distance(a, 1, d.abs_bits());
    assert(dm * 1 == dm);
    accuracy::lemma_mag_order(d, minute);
    assert(dm <= 60 * p);
    // Which part of the minute.
    let q = binary64::quotient(d, minute);
    accuracy::lemma_quotient_place(d, minute);
    assert((dm * p) * 1 <= p * (60 * p)) by (nonlinear_arith)
        requires
            dm <= 60 * p,
    ;
    accuracy::rounding_keeps_order(dm * p, 60 * p, p, 1);
    accuracy::small_integers_are_exact(1);
    accuracy::integers_keep_order(0, 1);
    let one = binary64::integer(1);
    assert(1 * p == p);
    accuracy::rounding_keeps_numbers(one.abs_bits());
    assert(accuracy::plain(q));
    accuracy::lemma_plain(q);
    accuracy::lemma_plain(one);
    accuracy::lemma_mag_order(q, one);
    let qm = q.mag();
    assert(qm <= p);
    lemma_rounding_error(dm * p, 60 * p);
    let e2 = accuracy::distance(dm * p, 60 * p, q.abs_bits());
    // How many dots.
    let b = binary64::product(q, last);
    accuracy::lemma_product_place(q, last);
    accuracy::lemma_plain(last);
    let lm = last.mag();
    assert(lm == n * p);
    assert((qm * lm) * 1 <= lm * p) by (nonlinear_arith)
        requires
            qm <= p,
    ;
    accuracy::rounding_keeps_order(qm * lm, p, lm, 1);
    accuracy::rounding_keeps_numbers(last.abs_bits());
    assert(accuracy::plain(b));
    accuracy::lemma_plain(b);
    accuracy::lemma_mag_order(b, last);
    let bm = b.mag();
    assert(bm <= lm);
    lemma_rounding_error(qm * lm, p);
    let e3 = accuracy::distance(qm * lm, p, b.abs_bits());
    // Where it is left.
    let x = binary64::difference(last, b);
    assert(binary64::opposite(b).units() == -b.units());
    let r = (lm - bm) as nat;
    accuracy::rounding_keeps_order(r, 1, lm, 1);
    assert(rounding::nearest(r, 1) == x.abs_bits() && !x.negative());
    assert(accuracy::plain(x));
    accuracy::lemma_plain(x);
    lemma_rounding_error(r, 1);
    let xm = x.mag();
    let e4 = accuracy::distance(r, 1, x.abs_bits());
    assert(xm * 1 == xm);
    assert(axis_at(cum, span, w) == x);
    lemma_errors(a, dm, qm, bm, xm, n, p, e1, e2, e3, e4);
}

/// The errors of the four steps together.
proof fn lemma_errors(
    a: nat,
    d: nat,
    q: nat,
    b: nat,
    x: nat,
    n: nat,
    p: nat,
    e1: nat,
    e2: nat,
    e3: nat,
    e4: nat,
)
    requires
        a <= 60 * p,
        d <= 60 * p,
        q <= p,
        b <= n * p,
        1 <= n <= 131_070,
        p > SIGNIFICAND_END * SIGNIFICAND_END,
        e1 * SIGNIFICAND_END <= a + 1 * SIGNIFICAND_END,
        -e1 <= d - a <= e1,
        e2 * SIGNIFICAND_END <= d * p + (60 * p) * SIGNIFICAND_END,
        -e2 <= q * (60 * p) - d * p <= e2,
        e3 * SIGNIFICAND_END <= q * (n * p) + p * SIGNIFICAND_END,
        -e3 <= b * p - q * (n * p) <= e3,
        e4 * SIGNIFICAND_END <= (n * p - b) + 1 * SIGNIFICAND_END,
        -e4 <= x - (n * p - b) <= e4,
    ensures
        -(n * p) <= (60 * x - n * (60 * p - a)) * 0x1000_0000_0000 <= n * p,
{
    let e = SIGNIFICAND_END as int;
    // Each difference, times two to the power of 53.
    let f1 = (d - a) * e;
    let f2 = (60 * q - d) * e;
    let f3 = (b - q * n) * e;
    let f4 = (x - (n * p - b)) * e;
    assert(-(61 * p) <= f1 <= 61 * p) by (nonlinear_arith)
        requires
            f1 == (d - a) * e,
            -e1 <= d - a <= e1,
            e1 * e <= a + 1 * e,
            a <= 60 * p,
            p > e * e,
            e > 1,
    ;
    assert(-(61 * p) <= f2 <= 61 * p) by {
        assert(-(d + 60 * e) <= f2 <= d + 60 * e) by (nonlinear_arith)
            requires
                f2 == (60 * q - d) * e,
                -e2 <= q * (60 * p) - d * p <= e2,
                e2 * e <= d * p + (60 * p) * e,
                p > 0,
                e > 1,
        ;
        assert(60 * e <= p) by (nonlinear_arith)
            requires
                p > e * e,
                e > 60,
        ;
    }
    assert(-(2 * (n * p)) <= f3 <= 2 * (n * p)) by {
        assert(-(q * n + e) <= f3 <= q * n + e) by (nonlinear_arith)
            requires
                f3 == (b - q * n) * e,
                -e3 <= b * p - q * (n * p) <= e3,
                e3 * e <= q * (n * p) + p * e,
                p > 0,
                e > 1,
        ;
        assert(q * n + e <= 2 * (n * p)) by (nonlinear_arith)
            requires
                q <= p,
                n >= 1,
                p > e * e,
                e > 1,
        ;
    }
    assert(-(2 * (n * p)) <= f4 <= 2 * (n * p)) by {
        assert(-((n * p - b) + e) <= f4 <= (n * p - b) + e) by (nonlinear_arith)
            requires
                f4 == (x - (n * p - b)) * e,
                -e4 <= x - (n * p - b) <= e4,
                e4 * e <= (n * p - b) + 1 * e,
                e > 1,
        ;
        assert(e <= n * p) by (nonlinear_arith)
            requires
                p > e * e,
                n >= 1,
                e > 1,
        ;
    }
    let off = 60 * x - n * (60 * p - a);
    let np = n * p;
    assert(off == 60 * (x - (np - b)) - 60 * (b - q * n) - n * (60 * q - d) - n * (d - a))
        by (nonlinear_arith)
        requires
            off == 60 * x - n * (60 * p - a),
            np == n * p,
    ;
    let g1 = n * f1;
    let g2 = n * f2;
    assert(-(61 * np) <= g1 <= 61 * np && -(61 * np) <= g2 <= 61 * np) by (nonlinear_arith)
        requires
            g1 == n * f1,
            g2 == n * f2,
            np == n * p,
            -(61 * p) <= f1 <= 61 * p,
            -(61 * p) <= f2 <= 61 * p,
    ;
    assert(off * e == 60 * f4 - 60 * f3 - g2 - g1) by (nonlinear_arith)
        requires
            off == 60 * (x - (np - b)) - 60 * (b - q * n) - n * (60 * q - d) - n * (d - a),
            f1 == (d - a) * e,
            f2 == (60 * q - d) * e,
            f3 == (b - q * n) * e,
            f4 == (x - (np - b)) * e,
            g1 == n * f1,
            g2 == n * f2,
    ;
    assert(-(512 * np) <= off * e <= 512 * np);
    assert(e == 512 * 0x1000_0000_0000);
    assert(off * e == 512 * (off * 0x1000_0000_0000)) by (nonlinear_arith)
        requires
            e == 512 * 0x1000_0000_0000,
    ;
}

/// A time that lies more than a minute before the newest one stands in the first column, and
/// one that does not lie before it in the last.
#[verifier::rlimit(40)]
pub proof fn times_off_the_axis_stand_at_its_ends(cum: Binary64, span: Binary64, w: Dots)
    requires
        w.wf(),
        cum.finite(),
        span.finite(),
    ensures
        span.units() - cum.units() >= 60 * pow2(1074) ==> axis_at(cum, span, w)
            == binary64::zero(),
        span.units() - cum.units() <= 0 ==> axis_at(cum, span, w) == w.last(),
{
    let p = pow2(1074);
    let n = (w.width - 1) as nat;
    let a = span.units() - cum.units();
    lemma_minute();
    lemma_last(w);
    assert(rounding::magnitude(0) == 0);
    let last = w.last();
    let lm = last.mag();
    let minute = binary64::integer(60);
    accuracy::lemma_plain(minute);
    accuracy::lemma_plain(last);
    accuracy::rounding_keeps_numbers(minute.abs_bits());
    accuracy::rounding_keeps_numbers(last.abs_bits());
    assert(binary64::opposite(cum).units() == -cum.units());
    let d = binary64::difference(span, cum);
    let q = binary64::quotient(d, minute);
    let b = binary64::product(q, last);
    let x = binary64::difference(last, b);
    if a >= 60 * p {
        accuracy::rounding_keeps_order(60 * p, 1, a as nat, 1);
        assert(d.place() >= minute.place() && !d.nan() && !d.negative());
        if d.finite() {
            accuracy::lemma_mag_order(minute, d);
            let dm = d.mag();
            accuracy::lemma_quotient_place(d, minute);
            assert(p * (60 * p) <= (dm * p) * 1) by (nonlinear_arith)
                requires
                    dm >= 60 * p,
            ;
            accuracy::rounding_keeps_order(p, 1, dm * p, 60 * p);
            accuracy::small_integers_are_exact(1);
            accuracy::integers_keep_order(0, 1);
            let one = binary64::integer(1);
            assert(1 * p == p);
            accuracy::rounding_keeps_numbers(one.abs_bits());
            accuracy::lemma_plain(one);
            assert(q.place() >= one.place() && !q.nan() && !q.negative());
            if q.finite() {
                accuracy::lemma_mag_order(one, q);
                let qm = q.mag();
                accuracy::lemma_product_place(q, last);
                assert(lm * p <= (qm * lm) * 1) by (nonlinear_arith)
                    requires
                        qm >= p,
                ;
                accuracy::rounding_keeps_order(lm, 1, qm * lm, p);
                assert(b.place() >= last.place() && !b.nan() && !b.negative());
                if b.finite() {
                    accuracy::lemma_mag_order(last, b);
                    assert(binary64::opposite(b).units() == -b.mag());
                    if b.mag() > lm {
                        binary64::lemma_nearest_is_zero((b.mag() - lm) as nat);
                    }
                }
            }
        }
    }
    if a <= 0 {
        assert(d.place() <= 0 && !d.nan());
        assert(q.place() <= 0 && !q.nan()) by {
            if d.abs_bits() == 0 {
                assert(0 * p == 0) by (nonlinear_arith);
                accuracy::zero_over(minute.mag());
            }
        }
        assert(b.place() <= 0 && !b.nan()) by {
            if q.abs_bits() == 0 {
                assert(0 * lm == 0) by (nonlinear_arith);
                accuracy::zero_over(p);
            }
        }
        if b.finite() {
            let r = (lm + b.mag()) as nat;
            if b.abs_bits() > 0 {
                accuracy::magnitudes_ascend(0, b.abs_bits());
            }
            assert(binary64::opposite(b).units() == b.mag());
            assert(last.units() + binary64::opposite(b).units() == r);
            accuracy::magnitudes_ascend(0, last.abs_bits());
            assert(lm * 1 <= r * 1);
            accuracy::rounding_keeps_order(lm, 1, r, 1);
            assert(x.place() >= last.place());
        }
    }
}

/// The intervals begin where those before them end.
pub proof fn lemma_start(dt: Seq<Binary64>, i: int)
    requires
        0 <= i <= dt.len(),
    ensures
        start_of(dt, i) == additivity::added(binary64::zero(), dt.take(i)),
    decreases i,
{
    if i > 0 {
        lemma_start(dt, i - 1);
        assert(dt.take(i).drop_last() =~= dt.take(i - 1));
        assert(dt.take(i).last() == dt[i - 1]);
    }
}

/// Where the interval at `i` begins: as long after the first one as the intervals before it
/// take together.
pub open spec fn beginning_of(dt: Seq<Binary64>, i: int, w: Dots) -> Binary64 {
    axis_at(
        additivity::added(binary64::zero(), dt.take(i)),
        additivity::added(binary64::zero(), dt),
        w,
    )
}

/// The point is the measured value of its interval, where the interval begins, as high as
/// the value stands.
pub open spec fn is_point(
    t: (int, Binary64, Binary64),
    vals: Seq<Option<Binary64>>,
    dt: Seq<Binary64>,
    ymax: Binary64,
    w: Dots,
) -> bool {
    &&& 0 <= t.0 < vals.len()
    &&& vals[t.0] is Some
    &&& t.1 == beginning_of(dt, t.0, w)
    &&& t.2 == capped_height(vals[t.0]->0, ymax, w)
}

proof fn lemma_points(
    vals: Seq<Option<Binary64>>,
    n: int,
    dt: Seq<Binary64>,
    ymax: Binary64,
    w: Dots,
)
    requires
        0 <= n <= vals.len() <= dt.len(),
    ensures
        ({
            let t = points(vals, n, dt, ymax, w);
            &&& forall|k: int| 0 <= k < t.len() ==> is_point(#[trigger] t[k], vals, dt, ymax, w)
                && t[k].0 < n
            &&& forall|k: int, l: int| 0 <= k < l < t.len() ==> (#[trigger] t[k]).0 < (
            #[trigger] t[l]).0
            &&& forall|i: int|
                0 <= i < n && (#[trigger] vals[i]) is Some ==> exists|k: int|
                    0 <= k < t.len() && (#[trigger] t[k]).0 == i
        }),
    decreases n,
{
    if n > 0 {
        lemma_points(vals, n - 1, dt, ymax, w);
        let a = points(vals, n - 1, dt, ymax, w);
        let t = points(vals, n, dt, ymax, w);
        lemma_start(dt, n - 1);
        lemma_start(dt, dt.len() as int);
        assert(dt.take(dt.len() as int) =~= dt);
        assert forall|k: int| 0 <= k < t.len() implies is_point(#[trigger] t[k], vals, dt, ymax, w)
            && t[k].0 < n by {
            if k < a.len() {
                assert(t[k] == a[k]);
                assert(is_point(a[k], vals, dt, ymax, w) && a[k].0 < n - 1);
            }
        }
        assert forall|k: int, l: int| 0 <= k < l < t.len() implies (#[trigger] t[k]).0 < (
        #[trigger] t[l]).0 by {
            assert(t[k] == a[k]);
            assert(is_point(a[k], vals, dt, ymax, w) && a[k].0 < n - 1);
            if l < a.len() {
                assert(t[l] == a[l]);
                assert(a[k].0 < a[l].0);
            }
        }
        assert forall|i: int| 0 <= i < n && (#[trigger] vals[i]) is Some implies exists|k: int|
            0 <= k < t.len() && (#[trigger] t[k]).0 == i by {
            if i < n - 1 {
                let k = choose|k: int| 0 <= k < a.len() && (#[trigger] a[k]).0 == i;
                assert(t[k] == a[k]);
            } else {
                assert(t[t.len() - 1].0 == i);
            }
        }
    }
}

/// The points of a graph are the measured values of its intervals, each once and in their
/// order, and each where its interval begins. A value that is missing has no point.
pub proof fn points_stand_where_their_intervals_begin(
    vals: Seq<Option<Binary64>>,
    dt: Seq<Binary64>,
    ymax: Binary64,
    w: Dots,
)
    requires
        vals.len() <= dt.len(),
    ensures
        ({
            let t = points(vals, vals.len() as int, dt, ymax, w);
            &&& forall|k: int| 0 <= k < t.len() ==> is_point(#[trigger] t[k], vals, dt, ymax, w)
            &&& forall|k: int, l: int| 0 <= k < l < t.len() ==> (#[trigger] t[k]).0 < (
            #[trigger] t[l]).0
            &&& forall|i: int|
                0 <= i < vals.len() && (#[trigger] vals[i]) is Some ==> exists|k: int|
                    0 <= k < t.len() && (#[trigger] t[k]).0 == i
        }),
{
    lemma_points(vals, vals.len() as int, dt, ymax, w);
    let t = points(vals, vals.len() as int, dt, ymax, w);
    assert forall|k: int| 0 <= k < t.len() implies is_point(#[trigger] t[k], vals, dt, ymax, w) by {
        assert(is_point(t[k], vals, dt, ymax, w) && t[k].0 < vals.len());
    }
}

/// The interval at `i` is marked as stalled.
pub open spec fn stall_ticked(ticks: TicksView, i: int) -> bool {
    0 <= i < ticks.stall.len() && ticks.stall[i]
}

/// The interval at `i` is marked for its preemptions, of which it has some.
pub open spec fn evict_ticked(ticks: TicksView, i: int) -> bool {
    &&& !stall_ticked(ticks, i)
    &&& ticks.evict is Some
    &&& 0 <= i < ticks.evict->0.len()
    &&& binary64::less(binary64::zero(), ticks.evict->0[i])
}

/// The tick is the one of the interval at `i`.
pub open spec fn is_tick(
    t: (Binary64, Mark),
    ticks: TicksView,
    dt: Seq<Binary64>,
    w: Dots,
    i: int,
) -> bool {
    &&& t.0 == beginning_of(dt, i, w)
    &&& t.1 == Mark::Stall && stall_ticked(ticks, i) || t.1 == Mark::Evict && evict_ticked(ticks, i)
}

/// The tick is the one of some interval among the first `n`.
pub open spec fn is_some_tick(
    t: (Binary64, Mark),
    ticks: TicksView,
    dt: Seq<Binary64>,
    w: Dots,
    n: int,
) -> bool {
    exists|i: int| 0 <= i < n && #[trigger] is_tick(t, ticks, dt, w, i)
}

/// Every stalled interval has its tick where it begins, and so has every other interval with
/// preemptions, where these are shown. No other interval has one, and no ticks are drawn
/// where none are asked for.
pub proof fn ticks_mark_their_intervals(ticks: TicksView, n: int, dt: Seq<Binary64>, w: Dots)
    requires
        0 <= n <= dt.len(),
    ensures
        ({
            let t = marks(Some(ticks), n, dt, w);
            &&& forall|k: int|
                0 <= k < t.len() ==> is_some_tick(#[trigger] t[k], ticks, dt, w, n)
            &&& forall|i: int|
                0 <= i < n && #[trigger] stall_ticked(ticks, i) ==> t.contains(
                    (beginning_of(dt, i, w), Mark::Stall),
                )
            &&& forall|i: int|
                0 <= i < n && #[trigger] evict_ticked(ticks, i) ==> t.contains(
                    (beginning_of(dt, i, w), Mark::Evict),
                )
        }),
        marks(None, n, dt, w).len() == 0,
    decreases n,
{
    if n > 0 {
        ticks_mark_their_intervals(ticks, n - 1, dt, w);
        lemma_start(dt, n - 1);
        lemma_start(dt, dt.len() as int);
        assert(dt.take(dt.len() as int) =~= dt);
        let a = marks(Some(ticks), n - 1, dt, w);
        let t = marks(Some(ticks), n, dt, w);
        let place = beginning_of(dt, n - 1, w);
        assert forall|k: int| 0 <= k < t.len() implies is_some_tick(
            #[trigger] t[k],
            ticks,
            dt,
            w,
            n,
        ) by {
            if k < a.len() {
                assert(t[k] == a[k]);
                assert(is_some_tick(a[k], ticks, dt, w, n - 1));
                let i = choose|i: int| 0 <= i < n - 1 && #[trigger] is_tick(a[k], ticks, dt, w, i);
                assert(is_tick(t[k], ticks, dt, w, i));
            } else {
                assert(is_tick(t[k], ticks, dt, w, n - 1));
            }
        }
        assert forall|x: (Binary64, Mark)| a.contains(x) implies #[trigger] t.contains(x) by {
            let k = choose|k: int| 0 <= k < a.len() && a[k] == x;
            assert(t[k] == x);
        }
        assert forall|i: int| 0 <= i < n && #[trigger] stall_ticked(ticks, i) implies t.contains(
            (beginning_of(dt, i, w), Mark::Stall),
        ) by {
            if i == n - 1 {
                assert(t[t.len() - 1] == (place, Mark::Stall));
            }
        }
        assert forall|i: int| 0 <= i < n && #[trigger] evict_ticked(ticks, i) implies t.contains(
            (beginning_of(dt, i, w), Mark::Evict),
        ) by {
            if i == n - 1 {
                assert(t[t.len() - 1] == (place, Mark::Evict));
            }
        }
    }
}

} // verus!
