//! What a graph fills, draws and labels, and what it leaves open.

use vstd::arithmetic::power2::*;
use vstd::prelude::*;

use crate::accuracy;
use crate::axis_laws;
use crate::binary64;
use crate::binary64::Binary64;
use crate::plot;
use crate::plot::{
    held, labels, next_column, points, ramp, ramps, segments, slope, DressView, Dots, Mark, Plot,
    TicksView,
};
use crate::rounding;

verus! {

/// The column stands between two points that follow each other without a gap, the `k`-th and
/// the one before it.
pub open spec fn bridged_by(t: Seq<(int, Binary64, Binary64)>, k: int, x: Binary64) -> bool {
    &&& 1 <= k < t.len()
    &&& t[k].0 == t[k - 1].0 + 1
    &&& binary64::at_most(t[k - 1].1, x)
    &&& binary64::less(x, t[k].1)
}

/// The column stands between some two points that follow each other without a gap.
pub open spec fn bridged(t: Seq<(int, Binary64, Binary64)>, n: int, x: Binary64) -> bool {
    exists|k: int| k < n && #[trigger] bridged_by(t, k, x)
}

proof fn lemma_next_is_further(x: Binary64, end: Binary64)
    requires
        plot::goes_on(x, end),
    ensures
        binary64::at_most(x, next_column(x)),
{
    let p = pow2(1074);
    lemma_pow2_pos(1074);
    plot::lemma_next_column(x, end);
    accuracy::small_integers_are_exact(1);
    accuracy::integers_keep_order(0, 1);
    accuracy::small_integers_are_exact(131_070);
    assert(rounding::magnitude(0) == 0);
    assert(accuracy::plain(x));
    accuracy::lemma_plain(x);
    let m = x.mag();
    assert(1 * p == p);
    assert(m * 1 <= (m + p) * 1);
    accuracy::rounding_keeps_order(m, 1, m + p, 1);
    accuracy::rounding_keeps_numbers(x.abs_bits());
}

proof fn lemma_ramp(x: Binary64, a: (int, Binary64, Binary64), b: (int, Binary64, Binary64))
    ensures
        forall|i: int|
            0 <= i < ramp(x, a, b).len() ==> binary64::at_most(x, (#[trigger] ramp(x, a, b)[i]).0)
                && binary64::less(ramp(x, a, b)[i].0, b.1),
        plot::goes_on(x, b.1) ==> ramp(x, a, b).len() > 0 && ramp(x, a, b)[0] == (
            x,
            slope(x, a, b),
        ),
    decreases plot::left(x),
{
    if plot::goes_on(x, b.1) {
        plot::lemma_next_column(x, b.1);
        lemma_next_is_further(x, b.1);
        lemma_ramp(next_column(x), a, b);
        let rest = ramp(next_column(x), a, b);
        let r = ramp(x, a, b);
        assert forall|i: int| 0 <= i < r.len() implies binary64::at_most(x, (#[trigger] r[i]).0)
            && binary64::less(r[i].0, b.1) by {
            if i > 0 {
                assert(r[i] == rest[i - 1]);
                assert(binary64::at_most(next_column(x), rest[i - 1].0));
            }
        }
    }
}

/// The fill stands between points that follow each other and nowhere else: a value that is
/// missing leaves a gap that nothing bridges. Every two such points that stand apart have a
/// column where the first of them stands.
#[verifier::rlimit(40)]
pub proof fn fills_do_not_bridge_gaps(t: Seq<(int, Binary64, Binary64)>, n: int)
    requires
        0 <= n <= t.len(),
    ensures
        forall|i: int| 0 <= i < ramps(t, n).len() ==> bridged(t, n, (#[trigger] ramps(t, n)[i]).0),
        forall|k: int|
            1 <= k < n && t[k].0 == t[k - 1].0 + 1 && plot::goes_on(t[k - 1].1, t[k].1)
                ==> ramps(t, n).contains(
                (t[k - 1].1, #[trigger] slope(t[k - 1].1, t[k - 1], t[k])),
            ),
    decreases n,
{
    if n >= 2 {
        fills_do_not_bridge_gaps(t, n - 1);
        let a = t[n - 2];
        let b = t[n - 1];
        let before = ramps(t, n - 1);
        let all = ramps(t, n);
        lemma_ramp(a.1, a, b);
        assert forall|i: int| 0 <= i < all.len() implies bridged(t, n, (#[trigger] all[i]).0) by {
            if i < before.len() {
                assert(all[i] == before[i]);
                assert(bridged(t, n - 1, before[i].0));
                let k = choose|k: int| k < n - 1 && #[trigger] bridged_by(t, k, before[i].0);
                assert(bridged_by(t, k, all[i].0));
            } else {
                let r = ramp(a.1, a, b);
                assert(all[i] == r[i - before.len()]);
                assert(bridged_by(t, n - 1, all[i].0));
            }
        }
        assert forall|k: int|
            1 <= k < n && t[k].0 == t[k - 1].0 + 1 && plot::goes_on(
                t[k - 1].1,
                t[k].1,
            ) implies all.contains(
            (t[k - 1].1, #[trigger] slope(t[k - 1].1, t[k - 1], t[k])),
        ) by {
            let c = (t[k - 1].1, slope(t[k - 1].1, t[k - 1], t[k]));
            if k < n - 1 {
                assert(before.contains(c));
                let i = choose|i: int| 0 <= i < before.len() && before[i] == c;
                assert(all[i] == c);
            } else {
                assert(all[before.len() as int] == c);
            }
        }
    }
}

/// Where the fill between two points begins it is as high as the first of them, and at least
/// one dot.
pub proof fn fills_begin_at_their_points(
    a: (int, Binary64, Binary64),
    b: (int, Binary64, Binary64),
)
    requires
        accuracy::plain(a.1),
        accuracy::plain(b.1),
        accuracy::plain(a.2),
        accuracy::plain(b.2),
        !a.2.negative(),
        binary64::at_most(a.1, b.1),
    ensures
        slope(a.1, a, b) == binary64::larger(a.2, binary64::integer(1)),
{
    let p = pow2(1074);
    lemma_pow2_pos(1074);
    assert(rounding::magnitude(0) == 0);
    accuracy::small_integers_are_exact(1);
    accuracy::integers_keep_order(0, 1);
    assert(1 * p == p);
    let one = binary64::integer(1);
    assert(binary64::opposite(a.1).units() == -a.1.units());
    assert(binary64::difference(a.1, a.1) == binary64::zero());
    let width = binary64::larger(binary64::difference(b.1, a.1), one);
    crate::laws::lemma_difference_bounded(b.1, a.1);
    assert(width.finite() && width.place() > 0);
    accuracy::magnitudes_ascend(0, width.abs_bits());
    assert(0 * p == 0) by (nonlinear_arith);
    accuracy::zero_over(width.mag());
    let part = binary64::quotient(binary64::zero(), width);
    assert(part.abs_bits() == 0);
    let up = binary64::difference(b.2, a.2);
    lemma_bounded_difference(b.2, a.2);
    let rise = binary64::product(up, part);
    assert(up.mag() * part.mag() == 0) by (nonlinear_arith)
        requires
            part.mag() == 0,
    ;
    accuracy::zero_over(p);
    assert(rise.abs_bits() == 0);
    accuracy::rounding_keeps_numbers(a.2.abs_bits());
    if a.2.abs_bits() > 0 {
        accuracy::magnitudes_ascend(0, a.2.abs_bits());
    }
    assert(binary64::sum(a.2, rise) == a.2);
}

proof fn lemma_bounded_difference(a: Binary64, b: Binary64)
    requires
        accuracy::plain(a),
        accuracy::plain(b),
    ensures
        binary64::difference(a, b).finite(),
{
    accuracy::lemma_plain(a);
    accuracy::lemma_plain(b);
    assert(binary64::opposite(b).units() == -b.units());
    let d = a.units() - b.units();
    accuracy::rounding_keeps_numbers(a.abs_bits());
    accuracy::rounding_keeps_numbers(b.abs_bits());
    if d > 0 {
        assert((d as nat) * 1 <= a.mag() * 1);
        accuracy::rounding_keeps_order(d as nat, 1, a.mag(), 1);
    } else if d < 0 {
        assert(((-d) as nat) * 1 <= b.mag() * 1);
        accuracy::rounding_keeps_order((-d) as nat, 1, b.mag(), 1);
    }
}

/// The newest value is held out to the last column, each column up to it once, where the
/// newest interval was measured; where it was not, nothing is.
pub proof fn the_newest_value_is_held(t: Seq<(int, Binary64, Binary64)>, n: int, w: Dots)
    requires
        w.wf(),
        t.len() > 0,
    ensures
        ({
            let h = held(t, n, w);
            let from = binary64::truncated(t.last().1);
            &&& t.last().0 + 1 != n ==> h.len() == 0
            &&& t.last().0 + 1 == n && from < w.width ==> h.len() == w.width - from && h.last().0
                == binary64::integer((w.width - 1) as nat)
            &&& t.last().0 + 1 == n ==> forall|i: int|
                0 <= i < h.len() ==> (#[trigger] h[i]).0 == binary64::integer((from + i) as nat)
                    && h[i].1 == binary64::larger(t.last().2, binary64::integer(1))
        }),
{
}

/// The `k`-th point follows the one before it without a gap.
pub open spec fn follows(t: Seq<(int, Binary64, Binary64)>, k: int) -> bool {
    1 <= k < t.len() && t[k].0 == t[k - 1].0 + 1
}

/// The line from the point before the `k`-th to the `k`-th.
pub open spec fn segment_to(t: Seq<(int, Binary64, Binary64)>, k: int) -> (
    (Binary64, Binary64),
    (Binary64, Binary64),
) {
    ((t[k - 1].1, t[k - 1].2), (t[k].1, t[k].2))
}

/// The line of a second series runs from point to point where these follow each other, and
/// nowhere else.
#[verifier::rlimit(40)]
pub proof fn lines_do_not_bridge_gaps(t: Seq<(int, Binary64, Binary64)>, n: int)
    requires
        0 <= n <= t.len(),
    ensures
        forall|i: int|
            0 <= i < segments(t, n).len() ==> joins_neighbours(t, n, #[trigger] segments(t, n)[i]),
        forall|k: int|
            k < n && #[trigger] follows(t, k) ==> segments(t, n).contains(segment_to(t, k)),
    decreases n,
{
    if n >= 2 {
        lines_do_not_bridge_gaps(t, n - 1);
        let before = segments(t, n - 1);
        let all = segments(t, n);
        assert forall|i: int| 0 <= i < all.len() implies joins_neighbours(
            t,
            n,
            #[trigger] all[i],
        ) by {
            if i < before.len() {
                assert(all[i] == before[i]);
                assert(joins_neighbours(t, n - 1, before[i]));
                let k = choose|k: int| k < n - 1 && #[trigger] joins_at(t, k, before[i]);
                assert(joins_at(t, k, all[i]));
            } else {
                assert(joins_at(t, n - 1, all[i]));
            }
        }
        assert forall|k: int| k < n && #[trigger] follows(t, k) implies all.contains(
            segment_to(t, k),
        ) by {
            let c = segment_to(t, k);
            if k < n - 1 {
                assert(before.contains(c));
                let i = choose|i: int| 0 <= i < before.len() && before[i] == c;
                assert(all[i] == c);
            } else {
                assert(all[all.len() - 1] == c);
            }
        }
    }
}

/// The line joins the `k`-th point and the one before it, which follow each other.
pub open spec fn joins_at(
    t: Seq<(int, Binary64, Binary64)>,
    k: int,
    s: ((Binary64, Binary64), (Binary64, Binary64)),
) -> bool {
    &&& follows(t, k)
    &&& s == segment_to(t, k)
}

/// The line joins some two points that follow each other.
pub open spec fn joins_neighbours(
    t: Seq<(int, Binary64, Binary64)>,
    n: int,
    s: ((Binary64, Binary64), (Binary64, Binary64)),
) -> bool {
    exists|k: int| k < n && #[trigger] joins_at(t, k, s)
}

/// The column is one of those that hold the newest value out to the edge.
pub open spec fn holds_newest(
    t: Seq<(int, Binary64, Binary64)>,
    n: int,
    w: Dots,
    x: Binary64,
) -> bool {
    &&& t.len() > 0
    &&& t.last().0 + 1 == n
    &&& exists|c: nat|
        binary64::truncated(t.last().1) <= c < w.width && x == #[trigger] binary64::integer(c)
}

/// A graph has two dots to a column and four to a row. It fills between measured values that
/// follow each other, and from the newest one to the edge where that was measured, and
/// nowhere else; it joins the values of a second series that follow each other, on the same
/// axis and the same scale; and it marks the intervals that are to be marked, and no others.
#[verifier::rlimit(40)]
pub proof fn graphs_show_their_series(
    p: Plot,
    width: u16,
    height: u16,
    vals: Seq<Option<Binary64>>,
    dt: Seq<Binary64>,
    ymax: Binary64,
    dress: DressView,
)
    requires
        p.shows(width, height, vals, dt, ymax, dress),
        vals.len() <= dt.len(),
    ensures
        p.dots.width == 2 * width,
        p.dots.height == 4 * height,
        ({
            let w = p.dots;
            let t = points(vals, vals.len() as int, dt, ymax, w);
            forall|i: int|
                0 <= i < p.cols@.len() ==> bridged(t, t.len() as int, (#[trigger] p.cols@[i]).0)
                    || holds_newest(t, vals.len() as int, w, p.cols@[i].0)
        }),
        dress.overlay is Some ==> ({
            let o = dress.overlay->0;
            let t = points(o, o.len() as int, dt, ymax, p.dots);
            &&& forall|i: int|
                0 <= i < p.overlay@.len() ==> joins_neighbours(
                    t,
                    t.len() as int,
                    #[trigger] p.overlay@[i],
                )
            &&& forall|k: int| #[trigger] follows(t, k) ==> p.overlay@.contains(segment_to(t, k))
        }),
        dress.overlay is None ==> p.overlay@.len() == 0,
        dress.ticks is Some ==> ({
            let k = dress.ticks->0;
            &&& forall|j: int|
                0 <= j < p.ticks@.len() ==> axis_laws::is_some_tick(
                    #[trigger] p.ticks@[j],
                    k,
                    dt,
                    p.dots,
                    vals.len() as int,
                )
            &&& forall|i: int|
                0 <= i < vals.len() && #[trigger] axis_laws::stall_ticked(k, i)
                    ==> p.ticks@.contains((axis_laws::beginning_of(dt, i, p.dots), Mark::Stall))
        }),
        dress.ticks is None ==> p.ticks@.len() == 0,
        p.grid@.len() == dress.ref_lines.len(),
        forall|i: int|
            0 <= i < p.grid@.len() ==> #[trigger] p.grid@[i] == plot::grid_y(
                dress.ref_lines[i],
                ymax,
                p.dots,
            ),
{
    let w = p.dots;
    let n = vals.len() as int;
    let t = points(vals, n, dt, ymax, w);
    let a = ramps(t, t.len() as int);
    let b = held(t, n, w);
    fills_do_not_bridge_gaps(t, t.len() as int);
    assert forall|i: int| 0 <= i < p.cols@.len() implies bridged(
        t,
        t.len() as int,
        (#[trigger] p.cols@[i]).0,
    ) || holds_newest(t, n, w, p.cols@[i].0) by {
        if i < a.len() {
            assert(p.cols@[i] == a[i]);
        } else {
            let j = i - a.len();
            assert(p.cols@[i] == b[j]);
            let c = (binary64::truncated(t.last().1) + j) as nat;
            assert(p.cols@[i].0 == binary64::integer(c));
        }
    }
    if dress.overlay is Some {
        let o = dress.overlay->0;
        let q = points(o, o.len() as int, dt, ymax, w);
        lines_do_not_bridge_gaps(q, q.len() as int);
    }
    if dress.ticks is Some {
        axis_laws::ticks_mark_their_intervals(dress.ticks->0, n, dt, w);
    } else {
        axis_laws::ticks_mark_their_intervals(
            TicksView { stall: Seq::empty(), evict: None },
            n,
            dt,
            w,
        );
    }
}

/// Grid lines are dashed from the left edge to the right one: two dots out of five.
pub proof fn dashes_span_the_canvas(w: Dots, i: int)
    requires
        w.wf(),
        0 <= i < (w.width + 4) / 5,
    ensures
        plot::dash(i, w).0 == 5 * i,
        plot::dash(i, w).0 <= plot::dash(i, w).1 < w.width,
        5 * i + 2 < w.width ==> plot::dash(i, w).1 == 5 * i + 2,
        i == (w.width + 4) / 5 - 1 ==> plot::dash(i, w).0 + 5 >= w.width,
{
}

/// A grid line stands as high as its value, kept off the lowest dot and the highest two.
pub proof fn grid_lines_stand_at_their_values(v: Binary64, ymax: Binary64, w: Dots)
    requires
        w.wf(),
        !plot::height_of(v, ymax, w).nan(),
    ensures
        ({
            let h = plot::height_of(v, ymax, w);
            let low = binary64::integer(1);
            let high = binary64::integer((w.height - 2) as nat);
            let y = plot::grid_y(v, ymax, w);
            &&& binary64::at_most(low, h) && binary64::at_most(h, high) ==> y == h
            &&& binary64::at_most(low, y) && binary64::at_most(y, high)
        }),
{
    accuracy::integers_keep_order(1, (w.height - 2) as nat);
}

/// The label is that of the line at `i`.
#[verifier::opaque]
pub open spec fn labels_line(
    l: (Binary64, Seq<char>),
    g: Seq<Binary64>,
    ymax: Binary64,
    w: Dots,
    unit: Seq<char>,
    i: int,
) -> bool {
    &&& 0 <= i < g.len()
    &&& l.0 == plot::label_y(g[i], ymax, w)
    &&& binary64::equal(g[i], g[0]) ==> l.1 == plot::grid_text(g[i]) + unit
    &&& !binary64::equal(g[i], g[0]) ==> l.1 == plot::grid_text(g[i])
}

/// The `k`-th label stands in another row than the one before it.
pub open spec fn own_row(l: Seq<(Binary64, Seq<char>)>, k: int, w: Dots) -> bool {
    plot::slot_of(l[k].0, w) != plot::slot_of(l[k - 1].0, w)
}

/// The label is that of some line among the first `n`.
pub open spec fn labels_some_line(
    l: (Binary64, Seq<char>),
    g: Seq<Binary64>,
    n: int,
    ymax: Binary64,
    w: Dots,
    unit: Seq<char>,
) -> bool {
    exists|i: int| i < n && #[trigger] labels_line(l, g, ymax, w, unit, i)
}

/// Every label is the value of its line, the first of them is that of the lowest line, with
/// the unit, and no two that follow each other share a row.
#[verifier::rlimit(40)]
pub proof fn labels_name_their_lines(
    g: Seq<Binary64>,
    n: int,
    ymax: Binary64,
    w: Dots,
    unit: Seq<char>,
)
    requires
        0 <= n <= g.len(),
    ensures
        ({
            let l = labels(g, n, ymax, w, unit).0;
            let used = labels(g, n, ymax, w, unit).1;
            &&& forall|k: int|
                0 <= k < l.len() ==> labels_some_line(#[trigger] l[k], g, n, ymax, w, unit)
            &&& n > 0 ==> l.len() > 0 && labels_line(l[0], g, ymax, w, unit, 0)
            &&& forall|k: int| 1 <= k < l.len() ==> #[trigger] own_row(l, k, w)
            &&& l.len() > 0 ==> used == Some(plot::slot_of(l.last().0, w))
            &&& l.len() == 0 ==> used is None
        }),
    decreases n,
{
    if n > 0 {
        labels_name_their_lines(g, n - 1, ymax, w, unit);
        let before = labels(g, n - 1, ymax, w, unit);
        let all = labels(g, n, ymax, w, unit);
        let y = plot::label_y(g[n - 1], ymax, w);
        let slot = plot::slot_of(y, w);
        if before.1 == Some(slot) {
            assert(all == before);
            lemma_same_labels(before.0, g, n, ymax, w, unit);
        } else {
            let x = all.0.last();
            assert(all.0 == before.0.push(x));
            assert(all.1 == Some(slot) && x.0 == y);
            assert(labels_line(x, g, ymax, w, unit, n - 1)) by {
                reveal(labels_line);
            }
            lemma_one_more_label(before.0, x, g, n, ymax, w, unit);
            assert forall|k: int| 1 <= k < all.0.len() implies #[trigger] own_row(all.0, k, w) by {
                if k < before.0.len() {
                    assert(own_row(before.0, k, w));
                } else {
                    assert(all.0[k - 1] == before.0.last());
                }
            }
        }
    }
}

proof fn lemma_same_labels(
    l: Seq<(Binary64, Seq<char>)>,
    g: Seq<Binary64>,
    n: int,
    ymax: Binary64,
    w: Dots,
    unit: Seq<char>,
)
    requires
        forall|k: int|
            0 <= k < l.len() ==> labels_some_line(#[trigger] l[k], g, n - 1, ymax, w, unit),
    ensures
        forall|k: int| 0 <= k < l.len() ==> labels_some_line(#[trigger] l[k], g, n, ymax, w, unit),
{
    assert forall|k: int| 0 <= k < l.len() implies labels_some_line(
        #[trigger] l[k],
        g,
        n,
        ymax,
        w,
        unit,
    ) by {
        assert(labels_some_line(l[k], g, n - 1, ymax, w, unit));
        let i = choose|i: int| i < n - 1 && #[trigger] labels_line(l[k], g, ymax, w, unit, i);
        assert(labels_line(l[k], g, ymax, w, unit, i));
    }
}

proof fn lemma_one_more_label(
    l: Seq<(Binary64, Seq<char>)>,
    x: (Binary64, Seq<char>),
    g: Seq<Binary64>,
    n: int,
    ymax: Binary64,
    w: Dots,
    unit: Seq<char>,
)
    requires
        forall|k: int|
            0 <= k < l.len() ==> labels_some_line(#[trigger] l[k], g, n - 1, ymax, w, unit),
        labels_line(x, g, ymax, w, unit, n - 1),
    ensures
        forall|k: int|
            0 <= k < l.push(x).len() ==> labels_some_line(
                #[trigger] l.push(x)[k],
                g,
                n,
                ymax,
                w,
                unit,
            ),
{
    lemma_same_labels(l, g, n, ymax, w, unit);
    let all = l.push(x);
    assert forall|k: int| 0 <= k < all.len() implies labels_some_line(
        #[trigger] all[k],
        g,
        n,
        ymax,
        w,
        unit,
    ) by {
        if k < l.len() {
            assert(all[k] == l[k]);
        } else {
            assert(labels_line(all[k], g, ymax, w, unit, n - 1));
        }
    }
}

} // verus!
