//! Rates against the readings that they come from, counted exactly.

use vstd::arithmetic::mul::*;
use vstd::arithmetic::power::*;
use vstd::arithmetic::power2::*;
use vstd::prelude::*;

use crate::accuracy;
use crate::additivity;
use crate::binary64;
use crate::binary64::Binary64;
use crate::history;
use crate::history::EntryView;
use crate::laws;
use crate::rounding;
use crate::rounding::HIDDEN;
use crate::series;
use crate::series::KeyView;
use crate::window_laws;
use crate::window_laws::whole_rate;

verus! {

/// How far a counter came between two readings, in units. Where it fell it began again at
/// zero and came as far as it reads.
pub open spec fn advance(was: Binary64, now: Binary64) -> int {
    if now.units() < was.units() {
        now.units()
    } else {
        now.units() - was.units()
    }
}

/// How far the counters that meet `p` came between two samples, those that both samples
/// carry, and how many there are of them.
pub open spec fn advances(
    old: Seq<(KeyView, Binary64)>,
    new: Seq<(KeyView, Binary64)>,
    p: spec_fn(KeyView) -> bool,
) -> (int, nat)
    decreases new.len(),
{
    if new.len() == 0 {
        (0, 0)
    } else {
        let a = advances(old, new.drop_last(), p);
        let k = new.last().0;
        if p(k) && series::lookup(old, k) is Some {
            (a.0 + advance(series::lookup(old, k)->0, new.last().1), a.1 + 1)
        } else {
            a
        }
    }
}

/// How far the counters came from entry to entry.
pub open spec fn advances_over(e: Seq<EntryView>, p: spec_fn(KeyView) -> bool) -> (int, nat)
    decreases e.len(),
{
    if e.len() < 2 {
        (0, 0)
    } else {
        let a = advances_over(e.drop_last(), p);
        let b = advances(e[e.len() - 2].sample.simple, e.last().sample.simple, p);
        (a.0 + b.0, a.1 + b.1)
    }
}

/// One number is the other but for one rounding.
spec fn once_rounded(x: int, y: int) -> bool {
    &&& x * additivity::precision() <= y * (additivity::precision() + 1)
    &&& x * additivity::precision() >= y * (additivity::precision() - 1)
}

proof fn lemma_once_rounded_sum(a: int, b: int, x: int, y: int)
    requires
        once_rounded(a, x),
        once_rounded(b, y),
    ensures
        once_rounded(a + b, x + y),
{
    let e = additivity::precision();
    lemma_mul_is_distributive_add_other_way(e, a, b);
    lemma_mul_is_distributive_add_other_way(e + 1, x, y);
    lemma_mul_is_distributive_add_other_way(e - 1, x, y);
}

proof fn lemma_once_rounded_same(x: int)
    requires
        x >= 0,
    ensures
        once_rounded(x, x),
{
    let e = additivity::precision();
    lemma_mul_is_distributive_add(x, e, 1);
    lemma_mul_is_distributive_sub(x, e, 1);
}

/// A rise comes of the exact one by one rounding.
proof fn lemma_advance(was: Binary64, now: Binary64)
    requires
        was.finite() && laws::not_negative(was),
        now.finite() && laws::not_negative(now),
    ensures
        history::counter_rise(was, now).finite(),
        laws::not_negative(history::counter_rise(was, now)),
        advance(was, now) >= 0,
        once_rounded(history::counter_rise(was, now).units(), advance(was, now)),
{
    accuracy::order_is_by_value(now, was);
    laws::rises_are_not_negative(was, now);
    assert(rounding::magnitude(0) == 0);
    assert(now.units() >= 0 && was.units() >= 0);
    if binary64::less(now, was) {
        lemma_once_rounded_same(now.units());
    } else {
        laws::lemma_difference_bounded(now, was);
        assert(binary64::opposite(was).units() == -was.units());
        let d = now.units() - was.units();
        let r = binary64::difference(now, was);
        if d == 0 {
            assert(r.units() == 0);
            lemma_once_rounded_same(0);
        } else {
            let n = d as nat;
            let k = rounding::nearest(n, 1);
            additivity::rounding_error_is_small(n, 1);
            let m = rounding::magnitude(k);
            let dist = accuracy::distance(n, 1, k);
            assert(m * 1 == m);
            assert(r.units() == m);
            let e = additivity::precision();
            assert(m * e <= n * (e + 1)) by (nonlinear_arith)
                requires
                    dist * e <= n,
                    m <= n + dist,
                    e > 0,
            ;
            assert(m * e >= n * (e - 1)) by (nonlinear_arith)
                requires
                    dist * e <= n,
                    m >= n - dist,
                    e > 0,
            ;
        }
    }
}

/// Every reading in question is a finite number not below zero.
spec fn counting(s: Seq<(KeyView, Binary64)>, p: spec_fn(KeyView) -> bool) -> bool {
    forall|i: int|
        0 <= i < s.len() && p((#[trigger] s[i]).0) ==> s[i].1.finite() && laws::not_negative(s[i].1)
}

proof fn lemma_pair(
    old: Seq<(KeyView, Binary64)>,
    new: Seq<(KeyView, Binary64)>,
    p: spec_fn(KeyView) -> bool,
)
    requires
        series::ascending(old),
        counting(old, p),
        counting(new, p),
    ensures
        ({
            let l = additivity::pair_rises(old, new, p);
            &&& additivity::all_rising(l)
            &&& l.len() == advances(old, new, p).1
            &&& advances(old, new, p).0 >= 0
            &&& once_rounded(additivity::exact(l), advances(old, new, p).0)
        }),
    decreases new.len(),
{
    if new.len() == 0 {
        lemma_once_rounded_same(0);
    } else {
        let d = new.drop_last();
        assert(counting(d, p)) by {
            assert forall|i: int| 0 <= i < d.len() && p((#[trigger] d[i]).0) implies d[i].1.finite()
                && laws::not_negative(d[i].1) by {
                assert(d[i] == new[i]);
            }
        }
        lemma_pair(old, d, p);
        let (k, v) = new.last();
        assert(new[new.len() - 1] == (k, v));
        let a = additivity::pair_rises(old, d, p);
        if p(k) && series::lookup(old, k) is Some {
            let j = choose|j: int| 0 <= j < old.len() && old[j].0 == k;
            let was = old[j].1;
            assert(p(old[j].0));
            series::lemma_lookup_at(old, j);
            lemma_advance(was, v);
            let x = history::counter_rise(was, v);
            let l = a.push(x);
            assert(l.drop_last() =~= a);
            assert forall|i: int| 0 <= i < l.len() implies (#[trigger] l[i]).finite()
                && laws::not_negative(l[i]) by {
                if i < a.len() {
                    assert(a[i].finite() && laws::not_negative(a[i]));
                }
            }
            lemma_once_rounded_sum(
                additivity::exact(a),
                x.units(),
                advances(old, d, p).0,
                advance(was, v),
            );
            assert(additivity::pair_rises(old, new, p) == l);
            assert(additivity::exact(l) == additivity::exact(a) + x.units());
        }
    }
}

proof fn lemma_all(e: Seq<EntryView>, p: spec_fn(KeyView) -> bool)
    requires
        forall|i: int| 0 <= i < e.len() ==> (#[trigger] e[i]).sample.wf(),
        forall|i: int| 0 <= i < e.len() ==> laws::counts_up((#[trigger] e[i]).sample, p),
    ensures
        ({
            let l = additivity::all_rises(e, p);
            &&& additivity::all_rising(l)
            &&& l.len() == advances_over(e, p).1
            &&& advances_over(e, p).0 >= 0
            &&& once_rounded(additivity::exact(l), advances_over(e, p).0)
        }),
    decreases e.len(),
{
    if e.len() < 2 {
        lemma_once_rounded_same(0);
    } else {
        let d = e.drop_last();
        assert forall|i: int| 0 <= i < d.len() implies (#[trigger] d[i]).sample.wf()
            && laws::counts_up(d[i].sample, p) by {
            assert(d[i] == e[i]);
        }
        lemma_all(d, p);
        let old = e[e.len() - 2].sample.simple;
        let new = e[e.len() - 1].sample.simple;
        assert(e[e.len() - 2].sample.wf() && laws::counts_up(e[e.len() - 2].sample, p));
        assert(laws::counts_up(e[e.len() - 1].sample, p));
        lemma_pair(old, new, p);
        let a = additivity::all_rises(d, p);
        let b = additivity::pair_rises(old, new, p);
        additivity::lemma_exact_append(a, b);
        lemma_once_rounded_sum(
            additivity::exact(a),
            additivity::exact(b),
            advances_over(d, p).0,
            advances(old, new, p).0,
        );
        let l = a + b;
        assert forall|i: int| 0 <= i < l.len() implies (#[trigger] l[i]).finite()
            && laws::not_negative(l[i]) by {
            if i < a.len() {
                assert(a[i].finite() && laws::not_negative(a[i]));
            } else {
                let x = b[i - a.len()];
                assert(x.finite() && laws::not_negative(x));
            }
        }
    }
}

/// One rounding more.
proof fn lemma_within_once(x: int, y: int, z: int, c: int, k: nat)
    requires
        additivity::within(x, y * c, k),
        once_rounded(y, z),
        c > 0,
    ensures
        additivity::within(x, z * c, k + 1),
{
    let e = additivity::precision();
    let pe = pow(e, k);
    let pu = pow(e + 1, k);
    let pl = pow(e - 1, k);
    additivity::lemma_pow_step(k);
    additivity::lemma_pow_order(k);
    assert((x * pe) * e <= ((y * c) * pu) * e) by (nonlinear_arith)
        requires
            x * pe <= (y * c) * pu,
            e > 0,
    ;
    assert(((y * c) * pu) * e == (y * e) * (c * pu)) by (nonlinear_arith);
    assert(c * pu > 0 && c * pl > 0) by (nonlinear_arith)
        requires
            c > 0,
            pu > 0,
            pl > 0,
    ;
    assert((y * e) * (c * pu) <= (z * (e + 1)) * (c * pu)) by (nonlinear_arith)
        requires
            y * e <= z * (e + 1),
            c * pu > 0,
    ;
    assert((z * (e + 1)) * (c * pu) == (z * c) * ((e + 1) * pu)) by (nonlinear_arith);
    assert((x * pe) * e == x * (e * pe)) by (nonlinear_arith);
    assert((x * pe) * e >= ((y * c) * pl) * e) by (nonlinear_arith)
        requires
            x * pe >= (y * c) * pl,
            e > 0,
    ;
    assert(((y * c) * pl) * e == (y * e) * (c * pl)) by (nonlinear_arith);
    assert((y * e) * (c * pl) >= (z * (e - 1)) * (c * pl)) by (nonlinear_arith)
        requires
            y * e >= z * (e - 1),
            c * pl > 0,
    ;
    assert((z * (e - 1)) * (c * pl) == (z * c) * ((e - 1) * pl)) by (nonlinear_arith);
}

/// A rate over a ring, times the seconds of the ring, is what the counters advanced from
/// entry to entry, but for one rounding of each advance, one of each addition, and one of
/// the division. There is a rate exactly where some counter stands in two entries that
/// follow each other.
pub proof fn rates_follow_the_counters(e: Seq<EntryView>, p: spec_fn(KeyView) -> bool)
    requires
        history::ring_ok(e),
        e.len() >= 2,
        forall|i: int| 0 <= i < e.len() ==> laws::counts_up((#[trigger] e[i]).sample, p),
        whole_rate(e, p) is Some ==> (whole_rate(e, p)->0).finite() && (advances_over(e, p).0 == 0
            || (whole_rate(e, p)->0).abs_bits() > HIDDEN),
    ensures
        whole_rate(e, p) is Some <==> advances_over(e, p).1 > 0,
        whole_rate(e, p) is Some ==> additivity::within(
            (whole_rate(e, p)->0).units() * binary64::seconds(
                (e.last().t - e[0].t) as nat,
            ).units(),
            advances_over(e, p).0 * pow2(1074),
            advances_over(e, p).1 + 2,
        ),
{
    let span = (e.last().t - e[0].t) as nat;
    assert(e[0].t < e[e.len() - 1].t);
    window_laws::lemma_whole(e);
    let l = additivity::all_rises(e, p);
    lemma_all(e, p);
    additivity::rises_are_added(e, p);
    if whole_rate(e, p) is Some {
        let r = whole_rate(e, p)->0;
        let a = history::rises(e, p).0;
        let b = binary64::seconds(span);
        accuracy::lapses_are_positive(span);
        accuracy::magnitudes_ascend(0, b.abs_bits());
        additivity::lemma_added_not_negative(l);
        assert(rounding::magnitude(0) == 0);
        let c = pow2(1074);
        lemma_pow2_pos(1074);
        assert(a.finite());
        let num = a.mag() * c;
        let den = b.mag();
        if advances_over(e, p).0 == 0 {
            additivity::sums_are_accurate(l);
            lemma_nothing(additivity::exact(l), a.units(), l.len());
        } else if num < HIDDEN * den {
            assert(num * 1 <= (HIDDEN as nat) * den);
            accuracy::rounding_keeps_order(num, den, HIDDEN as nat, 1);
            accuracy::rounding_keeps_numbers(HIDDEN as nat);
            accuracy::lemma_magnitude_at(1, HIDDEN as nat);
            lemma2_to64();
            accuracy::lemma_magnitude_at(0, HIDDEN as nat);
            assert(rounding::magnitude(HIDDEN as nat) == HIDDEN);
            assert(r.abs_bits() <= HIDDEN);
        }
        additivity::rates_are_accurate(e, p, span);
        lemma_within_once(
            r.units() * b.units(),
            additivity::exact(l),
            advances_over(e, p).0,
            c as int,
            l.len() + 1,
        );
    }
}

/// The values of the series that meet `p`, in their order.
pub open spec fn selected(s: Seq<(KeyView, Binary64)>, p: spec_fn(KeyView) -> bool) -> Seq<Binary64>
    decreases s.len(),
{
    if s.len() == 0 {
        Seq::empty()
    } else if p(s.last().0) {
        selected(s.drop_last(), p).push(s.last().1)
    } else {
        selected(s.drop_last(), p)
    }
}

/// The total of a gauge is the sum of the values of all its series, but for one rounding for
/// each; there is one exactly where there is a series.
pub proof fn totals_are_of_all_series(s: Seq<(KeyView, Binary64)>, p: spec_fn(KeyView) -> bool)
    ensures
        history::total(s, p).1 <==> selected(s, p).len() > 0,
        additivity::all_rising(selected(s, p)) && history::total(s, p).0.finite()
            ==> additivity::within(
            history::total(s, p).0.units(),
            additivity::exact(selected(s, p)),
            selected(s, p).len(),
        ),
{
    lemma_total(s, p);
    if additivity::all_rising(selected(s, p)) && history::total(s, p).0.finite() {
        additivity::sums_are_accurate(selected(s, p));
    }
}

proof fn lemma_total(s: Seq<(KeyView, Binary64)>, p: spec_fn(KeyView) -> bool)
    ensures
        history::total(s, p) == (
            additivity::added(binary64::zero(), selected(s, p)),
            selected(s, p).len() > 0,
        ),
    decreases s.len(),
{
    if s.len() > 0 {
        lemma_total(s.drop_last(), p);
        if p(s.last().0) {
            assert(selected(s, p).drop_last() =~= selected(s.drop_last(), p));
        }
    }
}

/// What comes of nothing by roundings is nothing.
proof fn lemma_nothing(y: int, x: int, k: nat)
    requires
        once_rounded(y, 0),
        additivity::within(x, y, k),
    ensures
        y == 0,
        x == 0,
{
    let e = additivity::precision();
    additivity::lemma_pow_order(k);
    assert(y == 0) by (nonlinear_arith)
        requires
            y * e <= 0 * (e + 1),
            y * e >= 0 * (e - 1),
            e > 0,
    ;
    let pe = pow(e, k);
    let pu = pow(e + 1, k);
    let pl = pow(e - 1, k);
    assert(x == 0) by (nonlinear_arith)
        requires
            x * pe <= y * pu,
            x * pe >= y * pl,
            y == 0,
            pe > 0,
    ;
}

/// A span of time in seconds is its nanoseconds over a thousand million, but for two
/// roundings.
#[verifier::rlimit(40)]
pub proof fn seconds_follow_nanoseconds(nanos: nat)
    requires
        nanos <= u64::MAX,
    ensures
        binary64::seconds(nanos).finite(),
        additivity::within(
            binary64::seconds(nanos).units() * 1_000_000_000,
            (nanos * pow2(1074)) as int,
            2,
        ),
{
    lemma2_to64();
    lemma2_to64_rest();
    let g = 1_000_000_000nat;
    let a = nanos / g;
    let b = nanos % g;
    let p = pow2(1074);
    let e = additivity::precision();
    lemma_pow2_pos(1074);
    assert(rounding::magnitude(0) == 0);
    accuracy::small_integers_are_exact(a);
    accuracy::small_integers_are_exact(b);
    accuracy::small_integers_are_exact(g);
    accuracy::integers_keep_order(0, a);
    accuracy::integers_keep_order(0, b);
    accuracy::integers_keep_order(0, g);
    let x = binary64::integer(a);
    let y = binary64::integer(b);
    let z = binary64::integer(g);
    let s = binary64::seconds(nanos);
    assert(g * p > 0) by (nonlinear_arith)
        requires
            g > 0,
            p > 0,
    ;
    let q = binary64::quotient(y, z);
    if nanos > 0 {
        accuracy::lapses_are_positive(nanos);
    } else {
        assert(0 * p == 0) by (nonlinear_arith);
        accuracy::zero_over(z.mag());
        assert(y.mag() * p == 0) by (nonlinear_arith)
            requires
                y.mag() == 0,
        ;
        assert(q.units() == 0);
        assert(s.units() == 0);
    }
    let num = y.mag() * p;
    let den = z.mag();
    assert(num == (b * p) * p && den == g * p);
    assert(q.finite() && !q.negative());
    let m = q.units();
    assert(once_rounded(m * g, (b * p) as int)) by {
        if b == 0 {
            assert(num == 0) by (nonlinear_arith)
                requires
                    num == (b * p) * p,
                    b == 0,
            ;
            accuracy::zero_over(den);
            assert(m * g == 0) by (nonlinear_arith)
                requires
                    m == 0,
            ;
            assert(b * p == 0) by (nonlinear_arith)
                requires
                    b == 0,
            ;
            lemma_once_rounded_same(0);
        } else {
            lemma_pow2_adds(64, 64);
            lemma_pow2_strictly_increases(128, 1074);
            assert(num >= HIDDEN * den) by (nonlinear_arith)
                requires
                    num == (b * p) * p,
                    den == g * p,
                    b >= 1,
                    p >= HIDDEN * g,
                    p > 0,
            ;
            additivity::rounding_error_is_small(num, den);
            let k = rounding::nearest(num, den);
            let dist = accuracy::distance(num, den, k);
            assert(m == rounding::magnitude(k));
            assert((m * g) * p == m * den) by (nonlinear_arith)
                requires
                    den == g * p,
            ;
            let u = m * g;
            let v = b * p;
            assert(u * e <= v * (e + 1)) by (nonlinear_arith)
                requires
                    dist * e <= v * p,
                    u * p <= v * p + dist,
                    p > 0,
                    e > 0,
            ;
            assert(u * e >= v * (e - 1)) by (nonlinear_arith)
                requires
                    dist * e <= v * p,
                    u * p >= v * p - dist,
                    p > 0,
                    e > 0,
            ;
        }
    }
    let n = (x.units() + m) as nat;
    assert(x.units() == a * p);
    assert(once_rounded(s.units(), n as int)) by {
        if n == 0 {
            lemma_once_rounded_same(0);
        } else {
            additivity::rounding_error_is_small(n, 1);
            let k = rounding::nearest(n, 1);
            let dist = accuracy::distance(n, 1, k);
            let t = rounding::magnitude(k);
            assert(t * 1 == t);
            assert(s.units() == t);
            assert(t * e <= n * (e + 1)) by (nonlinear_arith)
                requires
                    dist * e <= n,
                    t <= n + dist,
                    e > 0,
            ;
            assert(t * e >= n * (e - 1)) by (nonlinear_arith)
                requires
                    dist * e <= n,
                    t >= n - dist,
                    e > 0,
            ;
        }
    }
    let ag = a * g;
    assert((a * p) * g == ag * p) by (nonlinear_arith)
        requires
            ag == a * g,
    ;
    lemma_once_rounded_same((ag * p) as int);
    lemma_once_rounded_sum((ag * p) as int, m * g, (ag * p) as int, (b * p) as int);
    assert(n * g == ag * p + m * g) by (nonlinear_arith)
        requires
            n == a * p + m,
            (a * p) * g == ag * p,
    ;
    assert(nanos * p == ag * p + b * p) by (nonlinear_arith)
        requires
            nanos == ag + b,
    ;
    assert(additivity::within(s.units() * g, ((n * g) as int) * 1, 1)) by {
        lemma_pow1(e);
        lemma_pow1(e + 1);
        lemma_pow1(e - 1);
        let t = s.units();
        assert((t * g) * e <= ((n * g) * 1) * (e + 1)) by (nonlinear_arith)
            requires
                t * e <= n * (e + 1),
                g > 0,
        ;
        assert((t * g) * e >= ((n * g) * 1) * (e - 1)) by (nonlinear_arith)
            requires
                t * e >= n * (e - 1),
                g > 0,
        ;
    }
    lemma_within_once(s.units() * g, (n * g) as int, (nanos * p) as int, 1, 1);
}

} // verus!
