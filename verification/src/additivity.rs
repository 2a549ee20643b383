//! Rates of disjoint selections add up, as far as rounding lets them.

use vstd::arithmetic::div_mod::*;
use vstd::arithmetic::mul::*;
use vstd::arithmetic::power::*;
use vstd::arithmetic::power2::*;
use vstd::multiset::*;
use vstd::prelude::*;
use vstd::seq_lib::*;

use crate::accuracy;
use crate::binary64;
use crate::binary64::Binary64;
use crate::history;
use crate::history::EntryView;
use crate::laws;
use crate::rounding;
use crate::rounding::{HIDDEN, INF_BITS, SIGNIFICAND_END};
use crate::series;
use crate::series::KeyView;

verus! {

/// The rises between two samples of the series that meet `p`, in the order in which they
/// are added.
pub open spec fn pair_rises(
    old: Seq<(KeyView, Binary64)>,
    new: Seq<(KeyView, Binary64)>,
    p: spec_fn(KeyView) -> bool,
) -> Seq<Binary64>
    decreases new.len(),
{
    if new.len() == 0 {
        Seq::empty()
    } else {
        let a = pair_rises(old, new.drop_last(), p);
        let (k, v) = new.last();
        match series::lookup(old, k) {
            Some(was) => if p(k) {
                a.push(history::counter_rise(was, v))
            } else {
                a
            },
            None => a,
        }
    }
}

/// The rises over every pair of consecutive entries.
pub open spec fn all_rises(e: Seq<EntryView>, p: spec_fn(KeyView) -> bool) -> Seq<Binary64>
    decreases e.len(),
{
    if e.len() < 2 {
        Seq::empty()
    } else {
        all_rises(e.drop_last(), p) + pair_rises(
            e[e.len() - 2].sample.simple,
            e[e.len() - 1].sample.simple,
            p,
        )
    }
}

/// The numbers added to what was there, one after the other.
pub open spec fn added(acc: Binary64, l: Seq<Binary64>) -> Binary64
    decreases l.len(),
{
    if l.len() == 0 {
        acc
    } else {
        binary64::sum(added(acc, l.drop_last()), l.last())
    }
}

/// The exact sum of finite numbers, in units.
pub open spec fn exact(l: Seq<Binary64>) -> int
    decreases l.len(),
{
    if l.len() == 0 {
        0
    } else {
        exact(l.drop_last()) + l.last().units()
    }
}

/// The series that meet `p` or `q`.
pub open spec fn either(
    p: spec_fn(KeyView) -> bool,
    q: spec_fn(KeyView) -> bool,
) -> spec_fn(KeyView) -> bool {
    |k: KeyView| p(k) || q(k)
}

/// No series meets both.
pub open spec fn disjoint(p: spec_fn(KeyView) -> bool, q: spec_fn(KeyView) -> bool) -> bool {
    forall|k: KeyView| !(#[trigger] p(k) && #[trigger] q(k))
}

proof fn lemma_added_append(acc: Binary64, a: Seq<Binary64>, b: Seq<Binary64>)
    ensures
        added(acc, a + b) == added(added(acc, a), b),
    decreases b.len(),
{
    if b.len() == 0 {
        assert(a + b =~= a);
    } else {
        assert((a + b).drop_last() =~= a + b.drop_last());
        lemma_added_append(acc, a, b.drop_last());
    }
}

pub proof fn lemma_exact_append(a: Seq<Binary64>, b: Seq<Binary64>)
    ensures
        exact(a + b) == exact(a) + exact(b),
    decreases b.len(),
{
    if b.len() == 0 {
        assert(a + b =~= a);
    } else {
        assert((a + b).drop_last() =~= a + b.drop_last());
        lemma_exact_append(a, b.drop_last());
    }
}

pub proof fn lemma_paired(
    acc: (Binary64, bool),
    old: Seq<(KeyView, Binary64)>,
    new: Seq<(KeyView, Binary64)>,
    p: spec_fn(KeyView) -> bool,
)
    ensures
        history::paired(acc, old, new, p) == (
            added(acc.0, pair_rises(old, new, p)),
            acc.1 || pair_rises(old, new, p).len() > 0,
        ),
    decreases new.len(),
{
    if new.len() > 0 {
        lemma_paired(acc, old, new.drop_last(), p);
        let a = pair_rises(old, new.drop_last(), p);
        let (k, v) = new.last();
        if let Some(was) = series::lookup(old, k) {
            assert(a.push(history::counter_rise(was, v)).drop_last() =~= a);
        }
    }
}

/// What the rate of a window is made of: the sum of its rises, one after the other.
pub proof fn rises_are_added(e: Seq<EntryView>, p: spec_fn(KeyView) -> bool)
    ensures
        history::rises(e, p) == (
            added(binary64::zero(), all_rises(e, p)),
            all_rises(e, p).len() > 0,
        ),
    decreases e.len(),
{
    if e.len() >= 2 {
        rises_are_added(e.drop_last(), p);
        let old = e[e.len() - 2].sample.simple;
        let new = e[e.len() - 1].sample.simple;
        lemma_paired(history::rises(e.drop_last(), p), old, new, p);
        lemma_added_append(
            binary64::zero(),
            all_rises(e.drop_last(), p),
            pair_rises(old, new, p),
        );
    }
}

proof fn lemma_pair_union(
    old: Seq<(KeyView, Binary64)>,
    new: Seq<(KeyView, Binary64)>,
    p: spec_fn(KeyView) -> bool,
    q: spec_fn(KeyView) -> bool,
)
    requires
        disjoint(p, q),
    ensures
        ({
            let u = pair_rises(old, new, either(p, q));
            let a = pair_rises(old, new, p);
            let b = pair_rises(old, new, q);
            &&& u.len() == a.len() + b.len()
            &&& exact(u) == exact(a) + exact(b)
            &&& b.len() == 0 ==> u == a
            &&& a.len() == 0 ==> u == b
            &&& u.to_multiset() == a.to_multiset().add(b.to_multiset())
        }),
    decreases new.len(),
{
    broadcast use group_to_multiset_ensures;

    let u = pair_rises(old, new, either(p, q));
    let a = pair_rises(old, new, p);
    let b = pair_rises(old, new, q);
    if new.len() > 0 {
        let d = new.drop_last();
        lemma_pair_union(old, d, p, q);
        let u0 = pair_rises(old, d, either(p, q));
        let a0 = pair_rises(old, d, p);
        let b0 = pair_rises(old, d, q);
        let (k, v) = new.last();
        assert(!(p(k) && q(k)));
        if let Some(was) = series::lookup(old, k) {
            let r = history::counter_rise(was, v);
            assert(u0.push(r).drop_last() =~= u0);
            assert(a0.push(r).drop_last() =~= a0);
            assert(b0.push(r).drop_last() =~= b0);
        }
        assert(u.to_multiset() =~= a.to_multiset().add(b.to_multiset()));
    } else {
        assert(u.to_multiset() =~= a.to_multiset().add(b.to_multiset()));
    }
}

/// The rises of two disjoint selections together are the rises of the one and of the
/// other, each as often.
pub proof fn rises_of_disjoint_selections_join(
    e: Seq<EntryView>,
    p: spec_fn(KeyView) -> bool,
    q: spec_fn(KeyView) -> bool,
)
    requires
        disjoint(p, q),
    ensures
        ({
            let u = all_rises(e, either(p, q));
            let a = all_rises(e, p);
            let b = all_rises(e, q);
            &&& u.len() == a.len() + b.len()
            &&& exact(u) == exact(a) + exact(b)
            &&& b.len() == 0 ==> u == a
            &&& a.len() == 0 ==> u == b
            &&& u.to_multiset() == a.to_multiset().add(b.to_multiset())
        }),
    decreases e.len(),
{
    broadcast use group_to_multiset_ensures;

    let u = all_rises(e, either(p, q));
    let a = all_rises(e, p);
    let b = all_rises(e, q);
    if e.len() >= 2 {
        let d = e.drop_last();
        rises_of_disjoint_selections_join(d, p, q);
        let old = e[e.len() - 2].sample.simple;
        let new = e[e.len() - 1].sample.simple;
        lemma_pair_union(old, new, p, q);
        let u0 = all_rises(d, either(p, q));
        let a0 = all_rises(d, p);
        let b0 = all_rises(d, q);
        let u1 = pair_rises(old, new, either(p, q));
        let a1 = pair_rises(old, new, p);
        let b1 = pair_rises(old, new, q);
        lemma_exact_append(u0, u1);
        lemma_exact_append(a0, a1);
        lemma_exact_append(b0, b1);
        lemma_multiset_commutative(u0, u1);
        lemma_multiset_commutative(a0, a1);
        lemma_multiset_commutative(b0, b1);
        assert(u.to_multiset() =~= a.to_multiset().add(b.to_multiset()));
    } else {
        assert(u.to_multiset() =~= a.to_multiset().add(b.to_multiset()));
    }
}

/// Two disjoint selections together have no rate exactly when neither has one, and the
/// rate of the one where the other has none.
pub proof fn disjoint_selections_have_a_rate_together(
    e: Seq<EntryView>,
    p: spec_fn(KeyView) -> bool,
    q: spec_fn(KeyView) -> bool,
    window: nat,
)
    requires
        disjoint(p, q),
    ensures
        history::rate(e, either(p, q), window) is None <==> history::rate(e, p, window) is None
            && history::rate(e, q, window) is None,
        history::rate(e, q, window) is None ==> history::rate(e, either(p, q), window)
            == history::rate(e, p, window),
        history::rate(e, p, window) is None ==> history::rate(e, either(p, q), window)
            == history::rate(e, q, window),
{
    let w = history::inside(e, window);
    rises_of_disjoint_selections_join(w, p, q);
    rises_are_added(w, p);
    rises_are_added(w, q);
    rises_are_added(w, either(p, q));
}

/// Two to the power of 53 as an integer.
pub open spec fn precision() -> int {
    SIGNIFICAND_END as int
}

/// `x` comes of `y` by at most `k` roundings, each of which is off by at most one part in
/// two to the power of 53.
pub open spec fn within(x: int, y: int, k: nat) -> bool {
    &&& x * pow(precision(), k) <= y * pow(precision() + 1, k)
    &&& x * pow(precision(), k) >= y * pow(precision() - 1, k)
}

/// Rounding is off by at most one part in two to the power of 53, where the quotient is
/// an integer or at least as large as the smallest normal number.
pub proof fn rounding_error_is_small(num: nat, den: nat)
    requires
        den > 0,
        rounding::nearest(num, den) < INF_BITS,
        den == 1 || num >= HIDDEN * den,
    ensures
        accuracy::distance(num, den, rounding::nearest(num, den)) * precision() <= num,
{
    let h = HIDDEN as nat;
    let s = rounding::excess_bits(num / den);
    let p = pow2(s);
    let d = den * p;
    let q = num / d;
    let r = num % d;
    accuracy::lemma_round_even_bounds(num, den);
    lemma_fundamental_div_mod(num as int, d as int);
    accuracy::lemma_magnitude_at(s, q);
    accuracy::lemma_magnitude_at(s, q + 1);
    let lo = s * h + q;
    let a = rounding::magnitude(lo) * den;
    let b = rounding::magnitude(lo + 1) * den;
    assert(a == num - r) by (nonlinear_arith)
        requires
            a == (q * p) * den,
            d == den * p,
            num == d * q + r,
    ;
    assert(b == num - r + d) by (nonlinear_arith)
        requires
            b == ((q + 1) * p) * den,
            d == den * p,
            num == d * q + r,
    ;
    let dist = accuracy::distance(num, den, rounding::nearest(num, den));
    assert(2 * dist <= d);
    lemma2_to64();
    if s == 0 {
        assert(p == 1);
        assert(d == den) by (nonlinear_arith)
            requires
                d == den * p,
                p == 1,
        ;
        if den == 1 {
            assert(r == 0);
            assert(dist == 0);
            assert(dist * precision() == 0) by (nonlinear_arith)
                requires
                    dist == 0,
            ;
        } else {
            assert(dist * precision() <= num) by (nonlinear_arith)
                requires
                    2 * dist <= den,
                    num >= HIDDEN * den,
                    precision() == 2 * HIDDEN,
            ;
        }
    } else {
        assert(num >= HIDDEN * d) by (nonlinear_arith)
            requires
                num == d * q + r,
                q >= HIDDEN,
                r >= 0,
                d > 0,
        ;
        assert(dist * precision() <= num) by (nonlinear_arith)
            requires
                2 * dist <= d,
                num >= HIDDEN * d,
                precision() == 2 * HIDDEN,
        ;
    }
}

pub proof fn lemma_pow_step(k: nat)
    ensures
        pow(precision(), k + 1) == precision() * pow(precision(), k),
        pow(precision() + 1, k + 1) == (precision() + 1) * pow(precision() + 1, k),
        pow(precision() - 1, k + 1) == (precision() - 1) * pow(precision() - 1, k),
{
    reveal(pow);
}

pub proof fn lemma_pow_order(k: nat)
    ensures
        0 < pow(precision() - 1, k) <= pow(precision(), k) <= pow(precision() + 1, k),
    decreases k,
{
    if k == 0 {
        lemma_pow0(precision());
        lemma_pow0(precision() + 1);
        lemma_pow0(precision() - 1);
    } else {
        let j = (k - 1) as nat;
        lemma_pow_order(j);
        lemma_pow_step(j);
        let e = precision();
        assert(0 < (e - 1) * pow(e - 1, j) <= e * pow(e, j)) by (nonlinear_arith)
            requires
                0 < pow(e - 1, j) <= pow(e, j),
                e > 1,
        ;
        assert(e * pow(e, j) <= (e + 1) * pow(e + 1, j)) by (nonlinear_arith)
            requires
                0 < pow(e, j) <= pow(e + 1, j),
                e > 1,
        ;
    }
}

/// One more summand and one more rounding.
proof fn lemma_within_step(a: int, x: int, n: int, total: int, k: nat)
    requires
        within(a, total, k),
        0 <= x,
        n * precision() <= (a + x) * (precision() + 1),
        n * precision() >= (a + x) * (precision() - 1),
    ensures
        within(n, total + x, k + 1),
{
    let e = precision();
    let pe = pow(e, k);
    let pu = pow(e + 1, k);
    let pl = pow(e - 1, k);
    lemma_pow_step(k);
    lemma_pow_order(k);
    assert((a + x) * pe <= (total + x) * pu) by (nonlinear_arith)
        requires
            a * pe <= total * pu,
            0 <= x,
            pe <= pu,
    ;
    assert((a + x) * pe >= (total + x) * pl) by (nonlinear_arith)
        requires
            a * pe >= total * pl,
            0 <= x,
            pl <= pe,
    ;
    assert(n * (e * pe) <= (total + x) * ((e + 1) * pu)) by {
        assert((n * e) * pe <= ((a + x) * (e + 1)) * pe) by (nonlinear_arith)
            requires
                n * e <= (a + x) * (e + 1),
                pe > 0,
        ;
        assert(((a + x) * (e + 1)) * pe == ((a + x) * pe) * (e + 1)) by (nonlinear_arith);
        assert(((a + x) * pe) * (e + 1) <= ((total + x) * pu) * (e + 1)) by (nonlinear_arith)
            requires
                (a + x) * pe <= (total + x) * pu,
                e + 1 > 0,
        ;
        assert(((total + x) * pu) * (e + 1) == (total + x) * ((e + 1) * pu)) by (nonlinear_arith);
        assert((n * e) * pe == n * (e * pe)) by (nonlinear_arith);
    }
    assert(n * (e * pe) >= (total + x) * ((e - 1) * pl)) by {
        assert((n * e) * pe >= ((a + x) * (e - 1)) * pe) by (nonlinear_arith)
            requires
                n * e >= (a + x) * (e - 1),
                pe > 0,
        ;
        assert(((a + x) * (e - 1)) * pe == ((a + x) * pe) * (e - 1)) by (nonlinear_arith);
        assert(((a + x) * pe) * (e - 1) >= ((total + x) * pl) * (e - 1)) by (nonlinear_arith)
            requires
                (a + x) * pe >= (total + x) * pl,
                e - 1 > 0,
        ;
        assert(((total + x) * pl) * (e - 1) == (total + x) * ((e - 1) * pl)) by (nonlinear_arith);
        assert((n * e) * pe == n * (e * pe)) by (nonlinear_arith);
    }
}

/// Finite numbers that are not below zero.
pub open spec fn all_rising(l: Seq<Binary64>) -> bool {
    forall|i: int| 0 <= i < l.len() ==> (#[trigger] l[i]).finite() && laws::not_negative(l[i])
}

/// A sum of finite numbers that are not negative comes of the exact sum by one rounding
/// for each of them.
pub proof fn sums_are_accurate(l: Seq<Binary64>)
    requires
        all_rising(l),
        added(binary64::zero(), l).finite(),
    ensures
        laws::not_negative(added(binary64::zero(), l)),
        0 <= exact(l),
        within(added(binary64::zero(), l).units(), exact(l), l.len()),
    decreases l.len(),
{
    assert(rounding::magnitude(0) == 0);
    if l.len() == 0 {
        lemma_pow0(precision());
        lemma_pow0(precision() + 1);
        lemma_pow0(precision() - 1);
    } else {
        let d = l.drop_last();
        let x = l.last();
        assert(l[l.len() - 1].finite() && laws::not_negative(l[l.len() - 1]));
        assert forall|i: int| 0 <= i < d.len() implies (#[trigger] d[i]).finite()
            && laws::not_negative(d[i]) by {
            assert(l[i].finite() && laws::not_negative(l[i]));
        }
        let a = added(binary64::zero(), d);
        lemma_added_not_negative(d);
        assert(a.finite());
        sums_are_accurate(d);
        let n = (a.units() + x.units()) as nat;
        assert(0 <= x.units() && 0 <= a.units());
        let s = binary64::sum(a, x);
        if n > 0 {
            let k = rounding::nearest(n, 1);
            rounding_error_is_small(n, 1);
            let m = rounding::magnitude(k);
            let dist = accuracy::distance(n, 1, k);
            assert(s.units() == m);
            assert(m * 1 == m);
            assert(m * precision() <= n * (precision() + 1)) by (nonlinear_arith)
                requires
                    dist * precision() <= n,
                    m <= n + dist,
                    precision() > 0,
            ;
            assert(m * precision() >= n * (precision() - 1)) by (nonlinear_arith)
                requires
                    dist * precision() <= n,
                    m >= n - dist,
                    precision() > 0,
            ;
        } else {
            assert(s.units() == 0);
            assert(n * (precision() + 1) == 0 && n * (precision() - 1) == 0) by (nonlinear_arith)
                requires
                    n == 0,
            ;
        }
        assert(a.units() + x.units() == n);
        lemma_within_step(a.units(), x.units(), s.units(), exact(d), d.len());
    }
}

pub proof fn lemma_added_not_negative(l: Seq<Binary64>)
    requires
        all_rising(l),
    ensures
        laws::not_negative(added(binary64::zero(), l)),
    decreases l.len(),
{
    if l.len() > 0 {
        let d = l.drop_last();
        assert(l[l.len() - 1].finite() && laws::not_negative(l[l.len() - 1]));
        assert forall|i: int| 0 <= i < d.len() implies (#[trigger] d[i]).finite()
            && laws::not_negative(d[i]) by {
            assert(l[i].finite() && laws::not_negative(l[i]));
        }
        lemma_added_not_negative(d);
        laws::lemma_sum_not_negative(added(binary64::zero(), d), l.last());
    }
}

/// A rate, times the seconds of the window, comes of the exact sum of the rises by one
/// rounding for each of them and one for the division. The exact sums of disjoint
/// selections add up, so their rates do so up to these roundings.
pub proof fn rates_of_disjoint_selections_add_up(
    e: Seq<EntryView>,
    p: spec_fn(KeyView) -> bool,
    q: spec_fn(KeyView) -> bool,
    window: nat,
)
    requires
        disjoint(p, q),
        measurable(e, p, window),
        measurable(e, q, window),
        measurable(e, either(p, q), window),
    ensures
        exact(all_rises(history::inside(e, window), either(p, q))) == exact(
            all_rises(history::inside(e, window), p),
        ) + exact(all_rises(history::inside(e, window), q)),
        rate_is_accurate(e, p, window),
        rate_is_accurate(e, q, window),
        rate_is_accurate(e, either(p, q), window),
{
    rises_of_disjoint_selections_join(history::inside(e, window), p, q);
    rates_are_accurate(e, p, window);
    rates_are_accurate(e, q, window);
    rates_are_accurate(e, either(p, q), window);
}

/// The seconds of a window.
pub open spec fn span_of(e: Seq<EntryView>, window: nat) -> Binary64 {
    let w = history::inside(e, window);
    binary64::seconds((w.last().t - w[0].t) as nat)
}

/// Every rise is a finite number that is not negative, and the rate neither overflows nor
/// falls below the normal numbers but to zero.
pub open spec fn measurable(e: Seq<EntryView>, p: spec_fn(KeyView) -> bool, window: nat) -> bool {
    let w = history::inside(e, window);
    let r = history::rate(e, p, window);
    &&& history::ring_ok(e)
    &&& r is Some
    &&& all_rising(all_rises(w, p))
    &&& history::rises(w, p).0.finite()
    &&& (r->0).finite()
    &&& history::rises(w, p).0.units() == 0 || history::rises(w, p).0.mag() * pow2(1074) >= HIDDEN
        * span_of(e, window).mag()
}

/// The rate comes of the exact sum of the rises over the seconds of the window by as many
/// roundings as there are rises, and one more.
pub open spec fn rate_is_accurate(
    e: Seq<EntryView>,
    p: spec_fn(KeyView) -> bool,
    window: nat,
) -> bool {
    let l = all_rises(history::inside(e, window), p);
    within(
        (history::rate(e, p, window)->0).units() * span_of(e, window).units(),
        exact(l) * pow2(1074),
        l.len() + 1,
    )
}

/// A rate is accurate up to one rounding for each rise and one for the division.
pub proof fn rates_are_accurate(e: Seq<EntryView>, p: spec_fn(KeyView) -> bool, window: nat)
    requires
        measurable(e, p, window),
    ensures
        rate_is_accurate(e, p, window),
{
    let w = history::inside(e, window);
    history::lemma_inside(e, window);
    assert(w[0].t < w[w.len() - 1].t);
    let l = all_rises(w, p);
    rises_are_added(w, p);
    sums_are_accurate(l);
    let a = history::rises(w, p).0;
    let b = span_of(e, window);
    accuracy::lapses_are_positive((w.last().t - w[0].t) as nat);
    accuracy::magnitudes_ascend(0, b.abs_bits());
    assert(rounding::magnitude(0) == 0);
    let c = pow2(1074);
    lemma_pow2_pos(1074);
    let r = history::rate(e, p, window)->0;
    let num = a.mag() * c;
    let den = b.mag();
    assert(a.units() == a.mag());
    assert(b.units() == den);
    let k = rounding::nearest(num, den);
    let m = rounding::magnitude(k);
    if a.units() == 0 {
        assert(num == 0) by (nonlinear_arith)
            requires
                num == a.mag() * c,
                a.mag() == 0,
        ;
        accuracy::zero_over(den);
        assert(r.units() == 0);
        assert(a.abs_bits() == 0) by {
            if a.abs_bits() > 0 {
                accuracy::magnitudes_ascend(0, a.abs_bits());
            }
        }
    } else {
        rounding_error_is_small(num, den);
        assert(r.units() == m);
    }
    let x = r.units() * den;
    if a.units() == 0 {
        assert(x == 0) by (nonlinear_arith)
            requires
                x == r.units() * den,
                r.units() == 0,
        ;
        assert(x * precision() == 0) by (nonlinear_arith)
            requires
                x == 0,
        ;
        assert(num * (precision() + 1) == 0 && num * (precision() - 1) == 0) by (nonlinear_arith)
            requires
                num == 0,
        ;
    } else {
        let dist = accuracy::distance(num, den, k);
        assert(x == m * den);
        assert(x * precision() <= num * (precision() + 1)) by (nonlinear_arith)
            requires
                dist * precision() <= num,
                x <= num + dist,
                precision() > 0,
        ;
        assert(x * precision() >= num * (precision() - 1)) by (nonlinear_arith)
            requires
                dist * precision() <= num,
                x >= num - dist,
                precision() > 0,
        ;
    }
    lemma_within_scaled(a.units(), exact(l), l.len(), c as int);
    assert(a.units() * c == num);
    assert(x * precision() <= (num + 0) * (precision() + 1));
    assert(x * precision() >= (num + 0) * (precision() - 1));
    lemma_within_step(num as int, 0, x, exact(l) * c, l.len());
}

proof fn lemma_within_scaled(x: int, y: int, k: nat, c: int)
    requires
        within(x, y, k),
        c > 0,
    ensures
        within(x * c, y * c, k),
{
    let pe = pow(precision(), k);
    let pu = pow(precision() + 1, k);
    let pl = pow(precision() - 1, k);
    assert((x * c) * pe <= (y * c) * pu) by (nonlinear_arith)
        requires
            x * pe <= y * pu,
            c > 0,
    ;
    assert((x * c) * pe >= (y * c) * pl) by (nonlinear_arith)
        requires
            x * pe >= y * pl,
            c > 0,
    ;
}

} // verus!
