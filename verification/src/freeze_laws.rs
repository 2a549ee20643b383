//! The stalls of a window, against the intervals that lie in it.

use vstd::arithmetic::power2::*;
use vstd::prelude::*;

use crate::accuracy;
use crate::additivity;
use crate::binary64;
use crate::binary64::Binary64;
use crate::derive::{frozen, scan, stalls_in, Derived};
use crate::history;
use crate::history::EntryView;
use crate::rounding;
use crate::rounding::SIGNIFICAND_END;

verus! {

/// How many of the intervals from `m` up to `n` are flagged.
pub open spec fn flag_count(flags: Seq<bool>, m: int, n: int) -> nat
    decreases n - m,
{
    if n <= m {
        0
    } else {
        flag_count(flags, m, n - 1) + (if flags[n - 1] {
            1nat
        } else {
            0
        })
    }
}

/// The lengths of the flagged intervals from `m` up to `n`, the newest first.
pub open spec fn flagged(flags: Seq<bool>, dt: Seq<Binary64>, m: int, n: int) -> Seq<Binary64>
    decreases n - m,
{
    if n <= m {
        Seq::empty()
    } else if flags[n - 1] {
        seq![dt[n - 1]] + flagged(flags, dt, m, n - 1)
    } else {
        flagged(flags, dt, m, n - 1)
    }
}

/// How much time the intervals from `j` on take together, exactly, in units.
pub open spec fn time_from(dt: Seq<Binary64>, j: int) -> int
    decreases dt.len() - j,
{
    if j >= dt.len() {
        0
    } else {
        dt[j].units() + time_from(dt, j + 1)
    }
}

/// Lengths of time: finite numbers that are not negative.
pub open spec fn lengths(dt: Seq<Binary64>) -> bool {
    forall|i: int| 0 <= i < dt.len() ==> accuracy::plain(#[trigger] dt[i])
}

/// What is counted of a window of `window` units when the walk back from the newest interval
/// ends at the interval `m`: every flagged interval from `m` on, each in full but the one at
/// `m`, of which `rest` is counted. The walk goes on while the intervals that were walked
/// leave some of the window, give or take a part in two to the power of 53 for each.
pub open spec fn counted(
    flags: Seq<bool>,
    dt: Seq<Binary64>,
    window: nat,
    m: int,
    rest: Binary64,
    count: nat,
    seconds: Binary64,
) -> bool {
    let n = dt.len() as int;
    let slack = n * window;
    let full = additivity::added(binary64::zero(), flagged(flags, dt, m + 1, n));
    &&& 0 <= m <= n
    &&& count == flag_count(flags, m, n)
    &&& forall|j: int| #![trigger time_from(dt, j + 1)]
        m <= j < n ==> (window - time_from(dt, j + 1)) * SIGNIFICAND_END > -slack
    &&& m > 0 ==> (window - time_from(dt, m)) * SIGNIFICAND_END <= slack
    &&& seconds == (if m < n && flags[m] {
        binary64::sum(full, rest)
    } else {
        full
    })
    &&& m < n ==> binary64::less(binary64::zero(), rest) || rest == dt[m]
    &&& m < n ==> binary64::at_most(rest, dt[m])
}

/// What is counted of a window, wherever the walk ends.
pub open spec fn counted_some(
    flags: Seq<bool>,
    dt: Seq<Binary64>,
    window: nat,
    count: nat,
    seconds: Binary64,
) -> bool {
    exists|m: int, rest: Binary64| #[trigger]
        counted(flags, dt, window, m, rest, count, seconds)
}

proof fn lemma_added_front(acc: Binary64, x: Binary64, l: Seq<Binary64>)
    ensures
        additivity::added(acc, seq![x] + l) == additivity::added(binary64::sum(acc, x), l),
    decreases l.len(),
{
    let s = seq![x] + l;
    if l.len() == 0 {
        assert(s.drop_last() =~= Seq::empty());
        assert(s.last() == x);
        assert(additivity::added(acc, s.drop_last()) == acc);
    } else {
        assert(s.drop_last() =~= seq![x] + l.drop_last());
        assert(s.last() == l.last());
        lemma_added_front(acc, x, l.drop_last());
    }
}

proof fn lemma_take_away(b: Binary64, d: Binary64, window: int)
    requires
        b.finite(),
        accuracy::plain(d),
        binary64::less(binary64::zero(), b),
        b.units() <= window,
    ensures
        ({
            let r = binary64::difference(b, d);
            &&& r.finite()
            &&& binary64::less(binary64::zero(), r) <==> d.units() < b.units()
            &&& d.units() < b.units() ==> r.units() <= b.units() && -window <= (r.units() - (
            b.units() - d.units())) * SIGNIFICAND_END <= window
        }),
{
    assert(rounding::magnitude(0) == 0);
    accuracy::order_is_by_value(binary64::zero(), b);
    accuracy::lemma_plain(d);
    assert(binary64::opposite(d).units() == -d.units());
    let x = b.units() - d.units();
    let r = binary64::difference(b, d);
    if x > 0 {
        let n = x as nat;
        assert(n * 1 <= b.mag() * 1);
        accuracy::rounding_keeps_order(n, 1, b.mag(), 1);
        accuracy::rounding_keeps_numbers(b.abs_bits());
        additivity::rounding_error_is_small(n, 1);
        let k = rounding::nearest(n, 1);
        binary64::lemma_nearest_is_zero(n);
        let dist = accuracy::distance(n, 1, k);
        let m = rounding::magnitude(k);
        assert(m * 1 == m);
        assert(r.units() == m);
        accuracy::order_is_by_value(binary64::zero(), r);
        accuracy::magnitudes_ascend(0, k);
        if k < b.abs_bits() {
            accuracy::magnitudes_ascend(k, b.abs_bits());
        }
        let e = SIGNIFICAND_END as int;
        assert(-window <= (m - x) * e <= window) by (nonlinear_arith)
            requires
                dist * e <= x,
                -dist <= m - x <= dist,
                x <= window,
                e > 0,
        ;
    } else {
        let n = (-x) as nat;
        assert(n * 1 <= d.mag() * 1);
        accuracy::rounding_keeps_order(n, 1, d.mag(), 1);
        accuracy::rounding_keeps_numbers(d.abs_bits());
    }
}

#[verifier::rlimit(40)]
proof fn lemma_walk(
    flags: Seq<bool>,
    dt: Seq<Binary64>,
    k: int,
    b: Binary64,
    acc: (nat, Binary64),
    window: int,
) -> (r: (int, Binary64))
    requires
        lengths(dt),
        0 <= k <= dt.len() <= flags.len(),
        0 <= window,
        b.finite(),
        b.units() <= window,
        -((dt.len() - k) * window) <= (b.units() - (window - time_from(dt, k))) * SIGNIFICAND_END
            <= (dt.len() - k) * window,
    ensures
        ({
            let n = dt.len() as int;
            let slack = n * window;
            let f = frozen(flags, dt, k, b, acc);
            let m = r.0;
            let full = additivity::added(acc.1, flagged(flags, dt, m + 1, k));
            &&& 0 <= m <= k
            &&& f.0 == acc.0 + flag_count(flags, m, k)
            &&& forall|j: int| #![trigger time_from(dt, j + 1)]
                m <= j < k ==> (window - time_from(dt, j + 1)) * SIGNIFICAND_END > -slack
            &&& m > 0 ==> (window - time_from(dt, m)) * SIGNIFICAND_END <= slack
            &&& f.1 == (if m < k && flags[m] {
                binary64::sum(full, r.1)
            } else {
                full
            })
            &&& m < k ==> (binary64::less(binary64::zero(), r.1) || r.1 == dt[m])
                && binary64::at_most(r.1, dt[m])
            &&& m < k <==> k > 0 && binary64::less(binary64::zero(), b)
        }),
    decreases k,
{
    let n = dt.len() as int;
    let slack = n * window;
    let e = SIGNIFICAND_END as int;
    assert((n - k) * window <= slack) by (nonlinear_arith)
        requires
            slack == n * window,
            0 <= k,
            window >= 0,
    ;
    accuracy::order_is_by_value(binary64::zero(), b);
    assert(rounding::magnitude(0) == 0);
    if k <= 0 || binary64::at_most(b, binary64::zero()) {
        if k > 0 {
            assert((window - time_from(dt, k)) * e <= slack) by (nonlinear_arith)
                requires
                    -((n - k) * window) <= (b.units() - (window - time_from(dt, k))) * e,
                    b.units() <= 0,
                    (n - k) * window <= slack,
                    e > 0,
            ;
        }
        (k, b)
    } else {
        let d = dt[k - 1];
        assert(accuracy::plain(dt[k - 1]));
        accuracy::lemma_plain(d);
        let left = binary64::difference(b, d);
        let next = if flags[k - 1] {
            (acc.0 + 1, binary64::sum(acc.1, binary64::smaller(d, b)))
        } else {
            acc
        };
        lemma_take_away(b, d, window);
        accuracy::order_is_by_value(b, d);
        accuracy::order_is_by_value(d, b);
        accuracy::order_is_by_value(binary64::zero(), left);
        assert(time_from(dt, k - 1) == d.units() + time_from(dt, k));
        assert((window - time_from(dt, k - 1 + 1)) * e > -slack) by (nonlinear_arith)
            requires
                (b.units() - (window - time_from(dt, k))) * e <= (n - k) * window,
                b.units() > 0,
                (n - k) * window <= slack,
                e > 0,
        ;
        if binary64::less(binary64::zero(), left) && k > 1 {
            assert(-((n - (k - 1)) * window) <= (left.units() - (window - time_from(dt, k - 1))) * e
                <= (n - (k - 1)) * window) by {
                let x = left.units() - (b.units() - d.units());
                let y = b.units() - (window - time_from(dt, k));
                assert(left.units() - (window - time_from(dt, k - 1)) == x + y);
                assert((x + y) * e == x * e + y * e) by (nonlinear_arith);
                assert((n - (k - 1)) * window == (n - k) * window + window) by (nonlinear_arith);
            }
            let r = lemma_walk(flags, dt, k - 1, left, next, window);
            let m = r.0;
            if flags[k - 1] {
                lemma_added_front(acc.1, d, flagged(flags, dt, m + 1, k - 1));
            }
            r
        } else {
            let x = binary64::smaller(d, b);
            assert(frozen(flags, dt, k - 1, left, next) == next);
            assert(flagged(flags, dt, k, k) =~= Seq::empty());
            assert(flag_count(flags, k - 1, k - 1) == 0);
            if k - 1 > 0 {
                assert((window - time_from(dt, k - 1)) * e <= slack) by (nonlinear_arith)
                    requires
                        -((n - k) * window) <= (b.units() - (window - time_from(dt, k))) * e,
                        time_from(dt, k - 1) == d.units() + time_from(dt, k),
                        b.units() <= d.units(),
                        (n - k) * window <= slack,
                        e > 0,
                ;
            }
            (k - 1, x)
        }
    }
}

proof fn lemma_whole_seconds(k: nat)
    requires
        0 < k < 100,
    ensures
        binary64::seconds(k * 1_000_000_000) == binary64::integer(k),
        binary64::integer(k).finite(),
        binary64::integer(k).units() == k * pow2(1074),
{
    let p = pow2(1074);
    lemma_pow2_pos(1074);
    assert(rounding::magnitude(0) == 0);
    accuracy::small_integers_are_exact(0);
    accuracy::small_integers_are_exact(k);
    accuracy::small_integers_are_exact(1_000_000_000);
    accuracy::integers_keep_order(0, 0);
    accuracy::integers_keep_order(0, k);
    accuracy::integers_keep_order(0, 1_000_000_000);
    let z = binary64::integer(0);
    let g = binary64::integer(1_000_000_000);
    assert(0 * p == 0) by (nonlinear_arith);
    assert(z.abs_bits() == 0) by {
        if z.abs_bits() > 0 {
            accuracy::magnitudes_ascend(0, z.abs_bits());
        }
    }
    assert(g.mag() == 1_000_000_000 * p);
    accuracy::zero_over(g.mag());
    assert(binary64::quotient(z, g) == binary64::zero());
    let x = binary64::integer(k);
    assert((k * 1_000_000_000) / 1_000_000_000 == k);
    assert((k * 1_000_000_000) % 1_000_000_000 == 0);
    assert(k * p > 0) by (nonlinear_arith)
        requires
            k > 0,
            p > 0,
    ;
    assert(x.units() == k * p);
    accuracy::rounding_keeps_numbers(x.abs_bits());
}

/// A window counts the flagged intervals that reach into it, walking back from the newest,
/// and adds up how long they took; the oldest of them may be cut off by the window.
pub proof fn windows_count_the_stalls_inside(
    flags: Seq<bool>,
    dt: Seq<Binary64>,
    k: nat,
) -> (r: (int, Binary64))
    requires
        lengths(dt),
        dt.len() <= flags.len(),
        0 < k < 100,
    ensures
        ({
            let s = stalls_in(flags, dt, k * 1_000_000_000);
            counted(flags, dt, k * pow2(1074), r.0, r.1, s.0, s.1)
        }),
{
    lemma_whole_seconds(k);
    let n = dt.len() as int;
    let window = k * pow2(1074);
    let b = binary64::integer(k);
    assert((n - n) * window == 0) by (nonlinear_arith);
    assert((b.units() - (window - time_from(dt, n))) * SIGNIFICAND_END == 0) by (nonlinear_arith)
        requires
            b.units() - (window - time_from(dt, n)) == 0,
    ;
    let r = lemma_walk(flags, dt, n, b, (0, binary64::zero()), window as int);
    let s = stalls_in(flags, dt, k * 1_000_000_000);
    r
}

/// The stalls that are shown are those of the last 5, 15 and 60 seconds, in this order.
#[verifier::rlimit(40)]
pub proof fn stalls_are_shown_by_window(d: Derived, focus: usize, e: Seq<EntryView>)
    requires
        history::ring_ok(e),
        d.derived_from(e, focus),
    ensures
        ({
            let flags = scan(e).stall;
            let dt = scan(e).dt;
            let p = pow2(1074);
            let s = d.stalls;
            &&& counted_some(flags, dt, 5 * p, s[0].count as nat, s[0].seconds)
            &&& counted_some(flags, dt, 15 * p, s[1].count as nat, s[1].seconds)
            &&& counted_some(flags, dt, 60 * p, s[2].count as nat, s[2].seconds)
        }),
{
    let flags = scan(e).stall;
    let dt = scan(e).dt;
    history::lemma_inside(e, 60_000_000_000);
    let w = history::inside(e, 60_000_000_000);
    assert forall|i: int| 0 <= i < dt.len() implies accuracy::plain(#[trigger] dt[i]) by {
        assert(w[i].t < w[i + 1].t && w[i + 1].t <= u64::MAX);
        accuracy::lapses_are_positive((w[i + 1].t - w[i].t) as nat);
    }
    let a = windows_count_the_stalls_inside(flags, dt, 5);
    let b = windows_count_the_stalls_inside(flags, dt, 15);
    let c = windows_count_the_stalls_inside(flags, dt, 60);
    assert((d.stalls[0].count as nat, d.stalls[0].seconds) == stalls_in(flags, dt, 5_000_000_000));
    assert((d.stalls[1].count as nat, d.stalls[1].seconds) == stalls_in(flags, dt, 15_000_000_000));
    assert((d.stalls[2].count as nat, d.stalls[2].seconds) == stalls_in(flags, dt, 60_000_000_000));
}

} // verus!
