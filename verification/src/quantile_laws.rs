//! Quantiles do not fall as their rank grows, and stay on the ladder.

use vstd::arithmetic::power2::*;
use vstd::prelude::*;

use crate::accuracy;
use crate::binary64;
use crate::binary64::Binary64;
use crate::history;
use crate::laws;
use crate::rounding;
use crate::rounding::INF_BITS;

verus! {

/// `x` is not above `y` by more than the given number of neighbouring numbers.
pub open spec fn close_above(x: Binary64, y: Binary64, slack: int) -> bool {
    !x.nan() && !y.nan() && x.place() <= y.place() + slack
}

proof fn lemma_sum_place(a: Binary64, b: Binary64)
    requires
        accuracy::plain(a),
        accuracy::plain(b),
    ensures
        !binary64::sum(a, b).nan(),
        binary64::sum(a, b).place() == rounding::nearest(a.mag() + b.mag(), 1),
{
    accuracy::lemma_plain(a);
    accuracy::lemma_plain(b);
    binary64::lemma_nearest_is_zero(a.mag() + b.mag());
}

proof fn lemma_difference_place(a: Binary64, b: Binary64)
    requires
        accuracy::plain(a),
        accuracy::plain(b),
        binary64::at_most(b, a),
    ensures
        accuracy::plain(binary64::difference(a, b)),
        a.mag() >= b.mag(),
        binary64::difference(a, b).place() == rounding::nearest((a.mag() - b.mag()) as nat, 1),
{
    accuracy::lemma_plain(a);
    accuracy::lemma_plain(b);
    accuracy::lemma_mag_order(b, a);
    laws::lemma_difference_not_negative(a, b);
    laws::lemma_difference_bounded(a, b);
    assert(binary64::opposite(b).units() == -b.units());
    binary64::lemma_nearest_is_zero((a.mag() - b.mag()) as nat);
}

/// A width added back overshoots its bound by at most one neighbour.
proof fn lemma_overshoot(prev: Binary64, le: Binary64)
    requires
        accuracy::plain(prev),
        accuracy::plain(le),
        binary64::at_most(prev, le),
    ensures
        close_above(binary64::sum(prev, binary64::difference(le, prev)), le, 1),
{
    let wide = binary64::difference(le, prev);
    accuracy::lemma_plain(prev);
    accuracy::lemma_plain(le);
    lemma_difference_place(le, prev);
    accuracy::lemma_plain(wide);
    lemma_sum_place(prev, wide);
    let n = (le.mag() - prev.mag()) as nat;
    let k = rounding::nearest(n, 1);
    assert(wide.abs_bits() == k);
    let d = rounding::magnitude(k);
    let top = le.abs_bits();
    accuracy::rounding_keeps_numbers(top);
    assert(n * 1 <= le.mag() * 1);
    accuracy::rounding_keeps_order(n, 1, le.mag(), 1);
    let limit = rounding::magnitude(top + 1);
    accuracy::magnitudes_ascend(top, top + 1);
    assert(prev.mag() + d <= limit) by {
        if d > n {
            assert(k > 0) by {
                assert(rounding::magnitude(0) == 0);
            }
            let j = (k - 1) as nat;
            accuracy::rounding_is_closest(n, 1, j);
            accuracy::magnitudes_ascend(j, k);
            assert(rounding::magnitude(j) * 1 == rounding::magnitude(j));
            assert(d * 1 == d);
            accuracy::gaps_grow(j, top);
        }
    }
    let t = prev.mag() + d;
    assert(t * 1 <= limit * 1);
    accuracy::rounding_keeps_order(t, 1, limit, 1);
    if top + 1 < INF_BITS {
        accuracy::rounding_keeps_numbers(top + 1);
    }
}

/// The estimate for a rank that a bucket holds.
pub open spec fn estimate(
    rank: Binary64,
    prev_le: Binary64,
    prev_count: Binary64,
    le: Binary64,
    count: Binary64,
) -> Binary64 {
    let span = binary64::difference(count, prev_count);
    if binary64::at_most(span, binary64::zero()) {
        le
    } else {
        binary64::sum(
            prev_le,
            binary64::product(
                binary64::quotient(binary64::difference(rank, prev_count), span),
                binary64::difference(le, prev_le),
            ),
        )
    }
}

/// The bucket holds the rank.
pub open spec fn holds_rank(
    rank: Binary64,
    prev_le: Binary64,
    prev_count: Binary64,
    le: Binary64,
    count: Binary64,
) -> bool {
    &&& accuracy::plain(rank)
    &&& accuracy::plain(prev_le)
    &&& accuracy::plain(prev_count)
    &&& accuracy::plain(le)
    &&& accuracy::plain(count)
    &&& binary64::at_most(prev_le, le)
    &&& binary64::at_most(prev_count, rank)
    &&& binary64::at_most(rank, count)
}

/// The part of a bucket below a rank is at most one, and grows with the rank.
proof fn lemma_part_order(r1: Binary64, r2: Binary64, prev: Binary64, count: Binary64)
    requires
        accuracy::plain(r1),
        accuracy::plain(r2),
        accuracy::plain(prev),
        accuracy::plain(count),
        binary64::at_most(prev, r1),
        binary64::at_most(r1, r2),
        binary64::at_most(r2, count),
        !binary64::at_most(binary64::difference(count, prev), binary64::zero()),
    ensures
        ({
            let span = binary64::difference(count, prev);
            let a = binary64::quotient(binary64::difference(r1, prev), span);
            let b = binary64::quotient(binary64::difference(r2, prev), span);
            &&& accuracy::plain(a)
            &&& accuracy::plain(b)
            &&& a.mag() <= b.mag() <= pow2(1074)
        }),
{
    let span = binary64::difference(count, prev);
    let x = binary64::difference(r1, prev);
    let y = binary64::difference(r2, prev);
    lemma_difference_place(count, prev);
    lemma_difference_place(r1, prev);
    lemma_difference_place(r2, prev);
    accuracy::lemma_mag_order(r1, r2);
    accuracy::lemma_mag_order(r2, count);
    let n1 = (r1.mag() - prev.mag()) as nat;
    let n2 = (r2.mag() - prev.mag()) as nat;
    let n3 = (count.mag() - prev.mag()) as nat;
    assert(n1 * 1 <= n2 * 1 && n2 * 1 <= n3 * 1);
    accuracy::rounding_keeps_order(n1, 1, n2, 1);
    accuracy::rounding_keeps_order(n2, 1, n3, 1);
    accuracy::lemma_mag_order(x, y);
    accuracy::lemma_mag_order(y, span);
    accuracy::lemma_quotient_place(x, span);
    accuracy::lemma_quotient_place(y, span);
    let p = pow2(1074);
    let s = span.mag();
    lemma_pow2_pos(1074);
    assert((x.mag() * p) * s <= (y.mag() * p) * s) by (nonlinear_arith)
        requires
            x.mag() <= y.mag(),
            p > 0,
            s > 0,
    ;
    accuracy::rounding_keeps_order(x.mag() * p, s, y.mag() * p, s);
    assert((y.mag() * p) * 1 <= p * s) by (nonlinear_arith)
        requires
            y.mag() <= s,
            p > 0,
    ;
    accuracy::rounding_keeps_order(y.mag() * p, s, p, 1);
    accuracy::small_integers_are_exact(1);
    accuracy::integers_keep_order(0, 1);
    let one = binary64::integer(1);
    assert(1 * p == p);
    let a = binary64::quotient(x, span);
    let b = binary64::quotient(y, span);
    assert(a.place() >= 0 && b.place() >= 0);
    assert(one.abs_bits() == rounding::nearest(p, 1));
    assert(accuracy::plain(a) && accuracy::plain(b) && accuracy::plain(one));
    accuracy::lemma_mag_order(a, b);
    accuracy::lemma_mag_order(b, one);
}

/// Estimates grow with the rank, start at the lower bound of the bucket, and end at its
/// upper bound or its neighbour.
proof fn lemma_estimates(
    r1: Binary64,
    r2: Binary64,
    prev_le: Binary64,
    prev_count: Binary64,
    le: Binary64,
    count: Binary64,
)
    requires
        holds_rank(r1, prev_le, prev_count, le, count),
        holds_rank(r2, prev_le, prev_count, le, count),
        binary64::at_most(r1, r2),
    ensures
        ({
            let x = estimate(r1, prev_le, prev_count, le, count);
            let y = estimate(r2, prev_le, prev_count, le, count);
            &&& binary64::at_most(prev_le, x)
            &&& binary64::at_most(x, y)
            &&& close_above(y, le, 1)
            &&& binary64::at_most(
                binary64::sum(prev_le, binary64::difference(le, prev_le)),
                le,
            ) ==> binary64::at_most(y, le)
        }),
{
    let span = binary64::difference(count, prev_count);
    if !binary64::at_most(span, binary64::zero()) {
        lemma_part_order(r1, r2, prev_count, count);
        let a = binary64::quotient(binary64::difference(r1, prev_count), span);
        let b = binary64::quotient(binary64::difference(r2, prev_count), span);
        let wide = binary64::difference(le, prev_le);
        lemma_difference_place(le, prev_le);
        accuracy::lemma_plain(wide);
        accuracy::lemma_product_place(a, wide);
        accuracy::lemma_product_place(b, wide);
        let p = pow2(1074);
        let m = wide.mag();
        lemma_pow2_pos(1074);
        assert((a.mag() * m) * p <= (b.mag() * m) * p) by (nonlinear_arith)
            requires
                a.mag() <= b.mag(),
                p > 0,
        ;
        accuracy::rounding_keeps_order(a.mag() * m, p, b.mag() * m, p);
        assert((b.mag() * m) * 1 <= m * p) by (nonlinear_arith)
            requires
                b.mag() <= p,
        ;
        accuracy::rounding_keeps_order(b.mag() * m, p, m, 1);
        accuracy::rounding_keeps_numbers(wide.abs_bits());
        let u = binary64::product(a, wide);
        let v = binary64::product(b, wide);
        assert(accuracy::plain(u) && accuracy::plain(v));
        accuracy::lemma_mag_order(u, v);
        accuracy::lemma_mag_order(v, wide);
        lemma_sum_place(prev_le, u);
        lemma_sum_place(prev_le, v);
        lemma_sum_place(prev_le, wide);
        accuracy::lemma_plain(prev_le);
        accuracy::rounding_keeps_numbers(prev_le.abs_bits());
        let l = prev_le.mag();
        assert(l * 1 <= (l + u.mag()) * 1);
        assert((l + u.mag()) * 1 <= (l + v.mag()) * 1);
        assert((l + v.mag()) * 1 <= (l + m) * 1);
        accuracy::rounding_keeps_order(l, 1, l + u.mag(), 1);
        accuracy::rounding_keeps_order(l + u.mag(), 1, l + v.mag(), 1);
        accuracy::rounding_keeps_order(l + v.mag(), 1, l + m, 1);
        lemma_overshoot(prev_le, le);
    }
}

/// Every width of a ladder, added back to the bound below it, stays within the bound
/// above it.
pub open spec fn tight(b: Seq<(Binary64, Binary64)>, prev_le: Binary64) -> bool
    decreases b.len(),
{
    if b.len() == 0 || !b[0].0.finite() {
        true
    } else {
        &&& binary64::at_most(
            binary64::sum(prev_le, binary64::difference(b[0].0, prev_le)),
            b[0].0,
        )
        &&& tight(b.drop_first(), b[0].0)
    }
}

/// The last finite bound, found from the first one on.
proof fn lemma_last_bound_first(b: Seq<(Binary64, Binary64)>)
    requires
        b.len() > 0,
    ensures
        history::last_bound(b) == (match history::last_bound(b.drop_first()) {
            Some(x) => Some(x),
            None => if b[0].0.finite() {
                Some(b[0].0)
            } else {
                None
            },
        }),
    decreases b.len(),
{
    if b.len() == 1 {
        assert(b.drop_first() =~= Seq::empty());
        assert(b.drop_last() =~= Seq::empty());
        assert(history::last_bound(b.drop_last()) is None);
    } else {
        assert(b.drop_first().last() == b.last());
        assert(b.drop_first().drop_last() =~= b.drop_last().drop_first());
        lemma_last_bound_first(b.drop_last());
    }
}

proof fn lemma_regular_rest(b: Seq<(Binary64, Binary64)>)
    requires
        laws::regular(b),
        b.len() > 0,
    ensures
        laws::regular(b.drop_first()),
        b.len() > 1 ==> binary64::less(b[0].0, b.drop_first()[0].0),
{
    let rest = b.drop_first();
    assert forall|i: int, j: int| 0 <= i < j < rest.len() implies binary64::less(
        #[trigger] rest[i].0,
        #[trigger] rest[j].0,
    ) by {
        assert(binary64::less(b[i + 1].0, b[j + 1].0));
    }
    assert forall|i: int| 0 <= i < rest.len() implies laws::not_negative((#[trigger] rest[i]).0)
        && (rest[i].0.finite() ==> rest[i].1.finite()) by {
        assert(rest[i] == b[i + 1]);
        assert(laws::not_negative(b[i + 1].0));
    }
    if b.len() > 1 {
        assert(binary64::less(b[0].0, b[1].0));
    }
}

/// No finite bound of a regular ladder lies above its last one.
proof fn lemma_last_bound_largest(b: Seq<(Binary64, Binary64)>)
    requires
        laws::regular(b),
        b.len() > 0,
        b[0].0.finite(),
    ensures
        history::last_bound(b) is Some,
        binary64::at_most(b[0].0, history::last_bound(b)->0),
        (history::last_bound(b)->0).finite(),
    decreases b.len(),
{
    lemma_last_bound_first(b);
    lemma_regular_rest(b);
    let rest = b.drop_first();
    assert(laws::not_negative(b[0].0));
    if rest.len() > 0 {
        if rest[0].0.finite() {
            lemma_last_bound_largest(rest);
        } else {
            lemma_no_bound(rest);
        }
    } else {
        assert(history::last_bound(rest) is None);
    }
}

/// Behind an infinite bound nothing is finite.
proof fn lemma_no_bound(b: Seq<(Binary64, Binary64)>)
    requires
        laws::regular(b),
        b.len() > 0,
        !b[0].0.finite(),
    ensures
        b.len() == 1,
        history::last_bound(b) is None,
{
    assert(laws::not_negative(b[0].0));
    if b.len() > 1 {
        assert(binary64::less(b[0].0, b[1].0));
        assert(laws::not_negative(b[1].0));
    }
    assert(b.drop_last() =~= Seq::empty());
    assert(history::last_bound(b.drop_last()) is None);
}

/// Two ranks walked up one ladder.
proof fn lemma_walk(
    b: Seq<(Binary64, Binary64)>,
    r1: Binary64,
    r2: Binary64,
    prev_le: Binary64,
    prev_count: Binary64,
    slack: int,
)
    requires
        laws::regular(b),
        accuracy::plain(r1),
        accuracy::plain(r2),
        binary64::at_most(r1, r2),
        accuracy::plain(prev_le),
        accuracy::plain(prev_count),
        binary64::at_most(prev_count, r1),
        b.len() > 0 ==> binary64::at_most(prev_le, b[0].0),
        slack == 1 || (slack == 0 && tight(b, prev_le)),
    ensures
        ({
            let x = history::interpolated(b, r1, prev_le, prev_count);
            let y = history::interpolated(b, r2, prev_le, prev_count);
            &&& x is Some ==> binary64::at_most(prev_le, x->0) && history::last_bound(b) is Some
                && close_above(x->0, history::last_bound(b)->0, slack)
            &&& y is Some ==> x is Some && binary64::at_most(prev_le, y->0) && close_above(
                y->0,
                history::last_bound(b)->0,
                slack,
            ) && close_above(x->0, y->0, slack)
        }),
    decreases b.len(),
{
    if b.len() > 0 && b[0].0.finite() {
        let le = b[0].0;
        let rest = b.drop_first();
        let count = binary64::larger(b[0].1, binary64::zero());
        assert(laws::not_negative(b[0].0) && b[0].1.finite());
        lemma_regular_rest(b);
        lemma_last_bound_first(b);
        lemma_last_bound_largest(b);
        let last = history::last_bound(b)->0;
        if binary64::at_most(r1, count) {
            let x = estimate(r1, prev_le, prev_count, le, count);
            lemma_estimates(r1, r1, prev_le, prev_count, le, count);
            assert(close_above(x, le, slack));
            if binary64::at_most(r2, count) {
                lemma_estimates(r1, r2, prev_le, prev_count, le, count);
                lemma_estimates(r2, r2, prev_le, prev_count, le, count);
            } else {
                if slack == 0 {
                    assert(tight(rest, le));
                }
                lemma_walk(rest, r2, r2, le, count, slack);
            }
        } else {
            lemma_walk(rest, r1, r2, le, count, slack);
        }
    }
}

/// The ladder ends with the number of its observations.
proof fn lemma_observations(b: Seq<(Binary64, Binary64)>)
    requires
        laws::regular(b),
        b.len() > 0,
    ensures
        history::observations(b) == Some(b.last().1),
{
    let d = b.drop_last();
    assert forall|i: int| 0 <= i < d.len() implies !(#[trigger] d[i]).0.infinite() by {
        assert(laws::not_negative(b[i].0));
        assert(binary64::less(b[i].0, b[b.len() - 1].0));
        assert(laws::not_negative(b[b.len() - 1].0));
    }
    lemma_no_top(d);
}

proof fn lemma_no_top(b: Seq<(Binary64, Binary64)>)
    requires
        forall|i: int| 0 <= i < b.len() ==> !(#[trigger] b[i]).0.infinite(),
    ensures
        history::top_count(b) is None,
    decreases b.len(),
{
    if b.len() > 0 {
        let d = b.drop_last();
        assert forall|i: int| 0 <= i < d.len() implies !(#[trigger] d[i]).0.infinite() by {
            assert(d[i] == b[i]);
        }
        assert(!b[b.len() - 1].0.infinite());
        lemma_no_top(d);
    }
}

/// The rank of a quantile among the observations.
pub open spec fn rank_of(b: Seq<(Binary64, Binary64)>, q: Binary64) -> Binary64 {
    binary64::product(
        binary64::clamped(q, binary64::zero(), binary64::integer(1)),
        b.last().1,
    )
}

proof fn lemma_ranks(n: Binary64, q1: Binary64, q2: Binary64)
    requires
        n.finite(),
        binary64::less(binary64::zero(), n),
        binary64::at_most(q1, q2),
    ensures
        ({
            let one = binary64::integer(1);
            let a = binary64::product(binary64::clamped(q1, binary64::zero(), one), n);
            let b = binary64::product(binary64::clamped(q2, binary64::zero(), one), n);
            accuracy::plain(a) && accuracy::plain(b) && binary64::at_most(a, b)
        }),
{
    let one = binary64::integer(1);
    accuracy::small_integers_are_exact(1);
    accuracy::integers_keep_order(0, 1);
    let c1 = binary64::clamped(q1, binary64::zero(), one);
    let c2 = binary64::clamped(q2, binary64::zero(), one);
    assert(accuracy::plain(c1) && accuracy::plain(c2) && accuracy::plain(n) && accuracy::plain(one));
    accuracy::lemma_mag_order(c1, c2);
    accuracy::lemma_mag_order(c2, one);
    accuracy::lemma_product_place(c1, n);
    accuracy::lemma_product_place(c2, n);
    accuracy::lemma_plain(n);
    let p = pow2(1074);
    let m = n.mag();
    lemma_pow2_pos(1074);
    assert(1 * p == p);
    assert((c1.mag() * m) * p <= (c2.mag() * m) * p) by (nonlinear_arith)
        requires
            c1.mag() <= c2.mag(),
            p > 0,
    ;
    accuracy::rounding_keeps_order(c1.mag() * m, p, c2.mag() * m, p);
    assert((c2.mag() * m) * 1 <= m * p) by (nonlinear_arith)
        requires
            c2.mag() <= p,
    ;
    accuracy::rounding_keeps_order(c2.mag() * m, p, m, 1);
    accuracy::rounding_keeps_numbers(n.abs_bits());
}

/// A ladder that holds observations: its bounds ascend from zero on and one of them is
/// finite, its counts at finite bounds are finite, and the last one is positive.
pub open spec fn ladder(b: Seq<(Binary64, Binary64)>) -> bool {
    &&& laws::regular(b)
    &&& history::last_bound(b) is Some
    &&& binary64::less(binary64::zero(), b.last().1)
}

/// A larger `q` gives no smaller quantile, and no quantile exceeds the last finite bound
/// or is below zero. Rounding can lift an estimate to the number next above its bound, no
/// further, and not at all where the widths of the ladder are exact.
pub proof fn quantiles_ascend(b: Seq<(Binary64, Binary64)>, q1: Binary64, q2: Binary64)
    requires
        ladder(b),
        binary64::at_most(q1, q2),
    ensures
        history::quantile(b, q1) is Some,
        history::quantile(b, q2) is Some,
        ({
            let x = history::quantile(b, q1)->0;
            let y = history::quantile(b, q2)->0;
            let last = history::last_bound(b)->0;
            &&& laws::not_negative(x)
            &&& close_above(x, y, 1)
            &&& close_above(y, last, 1)
            &&& tight(b, binary64::zero()) ==> binary64::at_most(x, y) && binary64::at_most(y, last)
        }),
{
    let z = binary64::zero();
    if b.len() == 0 {
        assert(history::last_bound(b) is None);
    }
    lemma_observations(b);
    let r1 = rank_of(b, q1);
    let r2 = rank_of(b, q2);
    assert(laws::not_negative(b[0].0));
    if !b[0].0.finite() {
        lemma_no_bound(b);
    }
    lemma_last_bound_largest(b);
    let n = b.last().1;
    if n.finite() {
        lemma_ranks(n, q1, q2);
        lemma_walk(b, r1, r2, z, z, 1);
        if tight(b, z) {
            lemma_walk(b, r1, r2, z, z, 0);
        }
    } else {
        let one = binary64::integer(1);
        accuracy::small_integers_are_exact(1);
        accuracy::integers_keep_order(0, 1);
        laws::lemma_infinite_rank(b, binary64::clamped(q1, z, one), n);
        laws::lemma_infinite_rank(b, binary64::clamped(q2, z, one), n);
        laws::lemma_beyond(b, r1, z, z);
        laws::lemma_beyond(b, r2, z, z);
    }
}

/// A `q` below zero acts as zero, and one above one as one.
pub proof fn quantiles_clamp(b: Seq<(Binary64, Binary64)>, q: Binary64)
    ensures
        history::quantile(b, q) == history::quantile(
            b,
            binary64::clamped(q, binary64::zero(), binary64::integer(1)),
        ),
{
    accuracy::integers_keep_order(0, 1);
}

/// A rank above the counts of every finite bucket gives the last finite bound.
pub proof fn rank_above_the_ladder_gives_the_last_bound(
    b: Seq<(Binary64, Binary64)>,
    q: Binary64,
)
    requires
        ladder(b),
        forall|i: int|
            0 <= i < b.len() && (#[trigger] b[i]).0.finite() ==> !binary64::at_most(
                rank_of(b, q),
                binary64::larger(b[i].1, binary64::zero()),
            ),
    ensures
        history::quantile(b, q) == history::last_bound(b),
{
    if b.len() == 0 {
        assert(history::last_bound(b) is None);
    }
    lemma_observations(b);
    laws::lemma_beyond(b, rank_of(b, q), binary64::zero(), binary64::zero());
}

/// The lower bound of the bucket at `i`, and how many observations lie below it.
pub open spec fn floor_of(b: Seq<(Binary64, Binary64)>, i: int) -> (Binary64, Binary64) {
    if i <= 0 {
        (binary64::zero(), binary64::zero())
    } else {
        (b[i - 1].0, binary64::larger(b[i - 1].1, binary64::zero()))
    }
}

/// The bucket at `i` is the first with a finite bound whose count reaches the rank.
pub open spec fn first_to_reach(b: Seq<(Binary64, Binary64)>, rank: Binary64, i: int) -> bool {
    &&& 0 <= i < b.len()
    &&& b[i].0.finite()
    &&& binary64::at_most(rank, binary64::larger(b[i].1, binary64::zero()))
    &&& forall|j: int|
        0 <= j < i ==> (#[trigger] b[j]).0.finite() && !binary64::at_most(
            rank,
            binary64::larger(b[j].1, binary64::zero()),
        )
}

proof fn lemma_reached(
    b: Seq<(Binary64, Binary64)>,
    rank: Binary64,
    i: int,
    prev_le: Binary64,
    prev_count: Binary64,
)
    requires
        first_to_reach(b, rank, i),
    ensures
        ({
            let floor = if i == 0 {
                (prev_le, prev_count)
            } else {
                floor_of(b, i)
            };
            history::interpolated(b, rank, prev_le, prev_count) == Some(
                estimate(
                    rank,
                    floor.0,
                    floor.1,
                    b[i].0,
                    binary64::larger(b[i].1, binary64::zero()),
                ),
            )
        }),
    decreases i,
{
    if i > 0 {
        let d = b.drop_first();
        assert(b[0].0.finite() && !binary64::at_most(
            rank,
            binary64::larger(b[0].1, binary64::zero()),
        ));
        assert(d[i - 1] == b[i]);
        assert forall|j: int| 0 <= j < i - 1 implies (#[trigger] d[j]).0.finite()
            && !binary64::at_most(rank, binary64::larger(d[j].1, binary64::zero())) by {
            assert(d[j] == b[j + 1]);
        }
        lemma_reached(d, rank, i - 1, b[0].0, binary64::larger(b[0].1, binary64::zero()));
        if i > 1 {
            assert(d[i - 2] == b[i - 1]);
        }
    }
}

/// A finite number without a sign, of the given value in units.
pub open spec fn is_number(x: Binary64, units: int) -> bool {
    x.finite() && !x.negative() && x.units() == units
}

proof fn lemma_exact_difference(a: Binary64, b: Binary64, d: Binary64)
    requires
        accuracy::plain(a),
        accuracy::plain(b),
        is_number(d, a.units() - b.units()),
        !a.negative() || !b.negative(),
    ensures
        binary64::difference(a, b).finite(),
        binary64::difference(a, b).units() == d.units(),
        binary64::equal(binary64::difference(a, b), d),
        d.units() > 0 ==> binary64::difference(a, b) == d,
{
    assert(rounding::magnitude(0) == 0);
    assert(binary64::opposite(b).units() == -b.units());
    accuracy::rounding_keeps_numbers(d.abs_bits());
    if d.abs_bits() > 0 {
        accuracy::magnitudes_ascend(0, d.abs_bits());
    }
}

/// The estimate of a quantile lies on the line through the two ends of its bucket: where the
/// rank is reached first by the bucket at `i`, and it stands `part` of the way from the
/// count below the bucket to its own, the quantile stands as far from the lower bound of the
/// bucket to its upper one. It is exact wherever the numbers on the way are.
#[verifier::rlimit(40)]
pub proof fn quantiles_are_interpolated(
    b: Seq<(Binary64, Binary64)>,
    q: Binary64,
    i: int,
    rank: Binary64,
    up: Binary64,
    span: Binary64,
    wide: Binary64,
    part: Binary64,
    rise: Binary64,
    x: Binary64,
)
    requires
        ladder(b),
        is_number(q, q.units()),
        q.units() <= pow2(1074),
        is_number(b.last().1, b.last().1.units()),
        is_number(rank, rank.units()),
        rank.units() * pow2(1074) == q.units() * b.last().1.units(),
        first_to_reach(b, rank, i),
        is_number(b[i].1, b[i].1.units()),
        is_number(b[i].0, b[i].0.units()),
        is_number(floor_of(b, i).0, floor_of(b, i).0.units()),
        is_number(floor_of(b, i).1, floor_of(b, i).1.units()),
        is_number(up, rank.units() - floor_of(b, i).1.units()),
        is_number(span, b[i].1.units() - floor_of(b, i).1.units()),
        span.units() > 0,
        is_number(wide, b[i].0.units() - floor_of(b, i).0.units()),
        is_number(part, part.units()),
        part.units() * span.units() == up.units() * pow2(1074),
        is_number(rise, rise.units()),
        rise.units() * pow2(1074) == part.units() * wide.units(),
        is_number(x, floor_of(b, i).0.units() + rise.units()),
    ensures
        history::quantile(b, q) == Some(x),
{
    let p = pow2(1074);
    lemma_pow2_pos(1074);
    assert(rounding::magnitude(0) == 0);
    let n = b.last().1;
    let zero = binary64::zero();
    let one = binary64::integer(1);
    lemma_observations(b);
    accuracy::small_integers_are_exact(1);
    accuracy::integers_keep_order(0, 1);
    accuracy::order_is_by_value(one, q);
    accuracy::order_is_by_value(q, zero);
    assert(1 * p == p);
    assert(binary64::clamped(q, zero, one) == q);
    lemma_exact_product(q, n, rank);
    lemma_reached(b, rank, i, zero, zero);
    let lo = floor_of(b, i).0;
    let under = floor_of(b, i).1;
    let c = b[i].1;
    assert(binary64::larger(c, zero) == c) by {
        accuracy::order_is_by_value(c, zero);
    }
    lemma_exact_difference(rank, under, up);
    lemma_exact_difference(c, under, span);
    lemma_exact_difference(b[i].0, lo, wide);
    assert(binary64::difference(rank, under) == up);
    assert(binary64::difference(b[i].0, lo) == wide);
    assert(binary64::difference(c, under) == span);
    accuracy::order_is_by_value(zero, span);
    lemma_exact_quotient(up, span, part);
    lemma_exact_product(part, wide, rise);
    accuracy::rounding_keeps_numbers(x.abs_bits());
    assert(binary64::sum(lo, rise) == x) by {
        if x.abs_bits() > 0 {
            accuracy::magnitudes_ascend(0, x.abs_bits());
        }
    }
}

proof fn lemma_exact_product(a: Binary64, b: Binary64, c: Binary64)
    requires
        is_number(a, a.units()),
        is_number(b, b.units()),
        is_number(c, c.units()),
        c.units() * pow2(1074) == a.units() * b.units(),
    ensures
        binary64::product(a, b) == c,
{
    let p = pow2(1074);
    lemma_pow2_pos(1074);
    assert(a.mag() * b.mag() == c.mag() * p);
    rounding::lemma_nearest_scale(c.mag(), 1, p);
    assert(1 * p == p);
    accuracy::rounding_keeps_numbers(c.abs_bits());
}

proof fn lemma_exact_quotient(a: Binary64, b: Binary64, c: Binary64)
    requires
        is_number(a, a.units()),
        is_number(b, b.units()),
        is_number(c, c.units()),
        b.units() > 0,
        c.units() * b.units() == a.units() * pow2(1074),
    ensures
        binary64::quotient(a, b) == c,
{
    let p = pow2(1074);
    lemma_pow2_pos(1074);
    assert(rounding::magnitude(0) == 0);
    assert(a.mag() * p == c.mag() * b.mag());
    rounding::lemma_nearest_scale(c.mag(), 1, b.mag());
    assert(1 * b.mag() == b.mag());
    accuracy::rounding_keeps_numbers(c.abs_bits());
}

/// The quantile lies in the bucket whose count first reaches its rank: not below the lower
/// bound of the bucket, and above its upper one by no more than the neighbouring number.
pub proof fn quantiles_lie_in_the_bucket_of_their_rank(
    b: Seq<(Binary64, Binary64)>,
    q: Binary64,
    i: int,
)
    requires
        ladder(b),
        b.last().1.finite(),
        !q.nan(),
        first_to_reach(b, rank_of(b, q), i),
    ensures
        history::quantile(b, q) is Some,
        binary64::at_most(floor_of(b, i).0, history::quantile(b, q)->0),
        close_above(history::quantile(b, q)->0, b[i].0, 1),
{
    let rank = rank_of(b, q);
    let zero = binary64::zero();
    let n = b.last().1;
    lemma_observations(b);
    lemma_ranks(n, q, q);
    lemma_reached(b, rank, i, zero, zero);
    let lo = floor_of(b, i);
    let c = binary64::larger(b[i].1, zero);
    assert(laws::not_negative(b[i].0) && b[i].1.finite());
    if i > 0 {
        assert(laws::not_negative(b[i - 1].0));
        assert(b[i - 1].0.finite() && b[i - 1].1.finite());
        assert(!binary64::at_most(rank, binary64::larger(b[i - 1].1, zero)));
        assert(binary64::less(b[i - 1].0, b[i].0));
    }
    lemma_estimates(rank, rank, lo.0, lo.1, b[i].0, c);
}

} // verus!
