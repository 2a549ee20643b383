//! The scale of a graph, and how high its values stand.

use vstd::arithmetic::power2::*;
use vstd::prelude::*;

use crate::accuracy;
use crate::additivity;
use crate::binary64;
use crate::binary64::Binary64;
use crate::derive::{Derived, Peaks};
use crate::graphs;
use crate::panels;
use crate::plot::{capped_height, fill_part, height_of, Dots};
use crate::rounding;
use crate::rounding::SIGNIFICAND_END;
use crate::ui::RateGraph;

verus! {

/// The number is the largest of zero and the values: none lies above it, and it is one of
/// them, or zero.
pub open spec fn tops(v: Seq<Binary64>, top: Binary64) -> bool {
    &&& binary64::at_most(binary64::zero(), top)
    &&& forall|i: int|
        0 <= i < v.len() && !(#[trigger] v[i]).nan() ==> binary64::at_most(v[i], top)
    &&& top == binary64::zero() || v.contains(top)
}

proof fn lemma_largest(v: Seq<Binary64>)
    ensures
        tops(v, panels::largest(v)),
    decreases v.len(),
{
    if v.len() > 0 {
        let d = v.drop_last();
        let a = panels::largest(d);
        let top = panels::largest(v);
        lemma_largest(d);
        assert forall|i: int| 0 <= i < v.len() && !(#[trigger] v[i]).nan() implies
            binary64::at_most(v[i], top) by {
            if i < d.len() {
                assert(d[i] == v[i]);
                assert(binary64::at_most(d[i], a));
            }
        }
        if d.contains(a) {
            let i = choose|i: int| 0 <= i < d.len() && d[i] == a;
            assert(v[i] == a);
        }
        assert(v[v.len() - 1] == v.last());
    }
}

/// The scale of a rate graph is the highest rate that the graph draws, or the peak of the
/// session where that is higher: no value of the graph, nor the peak, lies above it. The
/// decode graph goes by decode, the prefill graph by prefill.
pub proof fn rate_graphs_are_scaled_to_the_highest_rate(
    d: &Derived,
    which: RateGraph,
    peaks: Peaks,
)
    ensures
        ({
            let (vals, peak) = match which {
                RateGraph::Prefill => (d.graphs.prefill.vals@, peaks.prefill),
                RateGraph::Decode => (d.graphs.decode.vals@, peaks.decode),
            };
            let scale = panels::rate_face(d, which, peaks).scale;
            &&& forall|i: int|
                0 <= i < vals.len() && !(#[trigger] vals[i]).nan() ==> binary64::at_most(
                    vals[i],
                    scale,
                )
            &&& peak is Some && !(peak->0).nan() ==> binary64::at_most(peak->0, scale)
            &&& scale == binary64::zero() || vals.contains(scale) || peak == Some(scale)
        }),
{
    let (vals, peak) = match which {
        RateGraph::Prefill => (d.graphs.prefill.vals@, peaks.prefill),
        RateGraph::Decode => (d.graphs.decode.vals@, peaks.decode),
    };
    lemma_largest(vals);
    let a = panels::largest(vals);
    let scale = panels::rate_face(d, which, peaks).scale;
    assert(scale == binary64::larger(a, panels::or_zero(peak)));
    assert forall|i: int| 0 <= i < vals.len() && !(#[trigger] vals[i]).nan() implies
        binary64::at_most(vals[i], scale) by {
        assert(binary64::at_most(vals[i], a));
    }
}

/// Each graph draws its own lane: the prefill graph the prefill rates, without marks, the
/// decode graph the decode rates, with the stalled intervals marked and the rate per stream
/// as a line. The latency plots mark stalled intervals and preemptions.
pub proof fn each_graph_draws_its_own_lane(d: &Derived, peaks: Peaks, scale: Binary64)
    ensures
        ({
            let prefill = graphs::rate_values(d, RateGraph::Prefill);
            let decode = graphs::rate_values(d, RateGraph::Decode);
            &&& prefill.len() == d.graphs.prefill.vals@.len()
            &&& forall|i: int|
                0 <= i < prefill.len() ==> #[trigger] prefill[i] == Some(d.graphs.prefill.vals@[i])
            &&& decode.len() == d.graphs.decode.vals@.len()
            &&& forall|i: int|
                0 <= i < decode.len() ==> #[trigger] decode[i] == Some(d.graphs.decode.vals@[i])
        }),
        ({
            let prefill = graphs::rate_dress(d, RateGraph::Prefill, peaks);
            let decode = graphs::rate_dress(d, RateGraph::Decode, peaks);
            let latency = graphs::latency_dress(d, "s"@, scale);
            &&& prefill.ticks is None && prefill.overlay is None
            &&& decode.ticks is Some && decode.ticks->0.stall == d.graphs.stall@
                && decode.ticks->0.evict is None
            &&& decode.overlay == Some(d.graphs.per_stream@)
            &&& latency.ticks is Some && latency.ticks->0.stall == d.graphs.stall@
                && latency.ticks->0.evict == Some(d.graphs.evictions.vals@)
            &&& latency.overlay is None
            &&& prefill.unit == " tok/s"@ && decode.unit == " tok/s"@ && latency.unit == "s"@
            &&& prefill.ref_lines == graphs::grid_lines(
                panels::rate_face(d, RateGraph::Prefill, peaks).scale,
            )
            &&& decode.ref_lines == graphs::grid_lines(
                panels::rate_face(d, RateGraph::Decode, peaks).scale,
            )
            &&& latency.ref_lines == graphs::grid_lines(scale)
        }),
{
}

/// The values that were measured, in their order.
pub open spec fn present(v: Seq<Option<Binary64>>) -> Seq<Binary64>
    decreases v.len(),
{
    if v.len() == 0 {
        Seq::empty()
    } else {
        match v.last() {
            Some(x) => present(v.drop_last()).push(x),
            None => present(v.drop_last()),
        }
    }
}

proof fn lemma_measured(v: Seq<Option<Binary64>>)
    ensures
        panels::measured(v).0 == additivity::added(binary64::zero(), present(v)),
        panels::measured(v).1 == panels::largest(present(v)),
        panels::measured(v).2 == present(v).len(),
    decreases v.len(),
{
    if v.len() > 0 {
        lemma_measured(v.drop_last());
        if let Some(x) = v.last() {
            assert(present(v).drop_last() =~= present(v.drop_last()));
        }
    }
}

/// The latency plots are scaled to the highest value that was measured in each of them.
pub proof fn latency_plots_are_scaled_to_the_highest_value(d: &Derived)
    ensures
        tops(present(d.graphs.ttft_p95@), panels::ttft_face(d).scale),
        tops(present(d.graphs.cache_misses@), panels::miss_face(d).scale),
{
    lemma_measured(d.graphs.ttft_p95@);
    lemma_measured(d.graphs.cache_misses@);
    lemma_largest(present(d.graphs.ttft_p95@));
    lemma_largest(present(d.graphs.cache_misses@));
}

/// What the decode graph says of single streams is the mean and the highest of their
/// measured rates.
pub proof fn streams_are_summed_up_by_mean_and_peak(v: Seq<Option<Binary64>>)
    ensures
        panels::measured(v).0 == additivity::added(binary64::zero(), present(v)),
        tops(present(v), panels::measured(v).1),
        panels::measured(v).2 == present(v).len(),
{
    lemma_measured(v);
    lemma_largest(present(v));
}

proof fn lemma_fill()
    ensures
        accuracy::plain(fill_part()),
        !fill_part().negative(),
        0 < fill_part().mag() <= pow2(1074),
        -(96 * pow2(1074) + 100 * SIGNIFICAND_END) <= (100 * fill_part().mag() - 96 * pow2(1074))
            * SIGNIFICAND_END <= 96 * pow2(1074) + 100 * SIGNIFICAND_END,
{
    let p = pow2(1074);
    lemma_pow2_pos(1074);
    let e = SIGNIFICAND_END as int;
    assert(rounding::magnitude(0) == 0);
    accuracy::small_integers_are_exact(96);
    accuracy::small_integers_are_exact(100);
    accuracy::small_integers_are_exact(1);
    accuracy::integers_keep_order(0, 96);
    accuracy::integers_keep_order(0, 100);
    accuracy::integers_keep_order(0, 1);
    let a = binary64::integer(96);
    let b = binary64::integer(100);
    let one = binary64::integer(1);
    accuracy::order_is_by_value(binary64::zero(), b);
    accuracy::lemma_quotient_place(a, b);
    let num = a.mag() * p;
    let den = b.mag();
    assert(num * 1 <= p * den) by (nonlinear_arith)
        requires
            num == (96 * p) * p,
            den == 100 * p,
    ;
    accuracy::rounding_keeps_order(num, den, p, 1);
    assert(1 * p == p);
    accuracy::rounding_keeps_numbers(one.abs_bits());
    let c = fill_part();
    accuracy::lemma_plain(one);
    assert(accuracy::plain(c));
    accuracy::lemma_plain(c);
    accuracy::lemma_mag_order(c, one);
    crate::axis_laws::lemma_rounding_error(num, den);
    let dist = accuracy::distance(num, den, c.abs_bits());
    let f = 100 * c.mag() - 96 * p;
    assert(-(96 * p + 100 * e) <= f * e <= 96 * p + 100 * e) by (nonlinear_arith)
        requires
            f == 100 * c.mag() - 96 * p,
            -dist <= c.mag() * den - num <= dist,
            dist * e <= num + den * e,
            num == (96 * p) * p,
            den == 100 * p,
            p > 0,
            e > 0,
    ;
    assert(c.mag() > 0) by {
        lemma2_to64();
        lemma2_to64_rest();
        lemma_pow2_strictly_increases(64, 1074);
        if c.mag() == 0 {
            assert(f == -(96 * p));
            assert((-(96 * p)) * e < -(96 * p + 100 * e)) by (nonlinear_arith)
                requires
                    e > 100,
                    p > 1000,
            ;
        }
    }
}

/// A value stands as high on the canvas as its share of the scale, of which the top takes
/// 96 hundredths of the height: its height is right to within a part of the canvas in two to
/// the power of 43.
#[verifier::rlimit(40)]
pub proof fn values_stand_as_high_as_their_share(v: Binary64, ymax: Binary64, w: Dots)
    requires
        w.wf(),
        accuracy::plain(v),
        accuracy::plain(ymax),
        ymax.units() > 0,
        v.units() <= ymax.units(),
    ensures
        ({
            let h = height_of(v, ymax, w);
            let canvas = w.height * pow2(1074);
            &&& accuracy::plain(h)
            &&& -(ymax.units() * canvas) <= (100 * (ymax.units() * h.units()) - 96 * (v.units()
                * canvas)) * 0x800_0000_0000 <= ymax.units() * canvas
        }),
{
    let p = pow2(1074);
    let n = w.height as nat;
    lemma_pow2_pos(1074);
    lemma2_to64();
    lemma2_to64_rest();
    lemma_pow2_adds(53, 53);
    lemma_pow2_strictly_increases(106, 1074);
    assert(rounding::magnitude(0) == 0);
    accuracy::small_integers_are_exact(n);
    accuracy::integers_keep_order(0, n);
    accuracy::small_integers_are_exact(1);
    accuracy::integers_keep_order(0, 1);
    let top = w.top();
    let one = binary64::integer(1);
    lemma_fill();
    let c = fill_part();
    accuracy::lemma_plain(v);
    accuracy::lemma_plain(ymax);
    accuracy::lemma_plain(top);
    accuracy::lemma_plain(one);
    accuracy::lemma_plain(c);
    let vm = v.mag();
    let ym = ymax.mag();
    accuracy::order_is_by_value(binary64::zero(), ymax);
    // The share.
    let q = binary64::quotient(v, ymax);
    accuracy::lemma_quotient_place(v, ymax);
    assert((vm * p) * 1 <= p * ym) by (nonlinear_arith)
        requires
            vm <= ym,
    ;
    accuracy::rounding_keeps_order(vm * p, ym, p, 1);
    assert(1 * p == p);
    accuracy::rounding_keeps_numbers(one.abs_bits());
    assert(accuracy::plain(q));
    accuracy::lemma_plain(q);
    accuracy::lemma_mag_order(q, one);
    let qm = q.mag();
    crate::axis_laws::lemma_rounding_error(vm * p, ym);
    let e1 = accuracy::distance(vm * p, ym, q.abs_bits());
    // Of the canvas.
    let g = binary64::product(q, top);
    accuracy::lemma_product_place(q, top);
    let tm = top.mag();
    assert(tm == n * p);
    assert((qm * tm) * 1 <= tm * p) by (nonlinear_arith)
        requires
            qm <= p,
    ;
    accuracy::rounding_keeps_order(qm * tm, p, tm, 1);
    accuracy::rounding_keeps_numbers(top.abs_bits());
    assert(accuracy::plain(g));
    accuracy::lemma_plain(g);
    accuracy::lemma_mag_order(g, top);
    let gm = g.mag();
    crate::axis_laws::lemma_rounding_error(qm * tm, p);
    let e2 = accuracy::distance(qm * tm, p, g.abs_bits());
    // Of the part that is filled.
    let h = binary64::product(g, c);
    let cm = c.mag();
    accuracy::lemma_product_place(g, c);
    assert((gm * cm) * 1 <= gm * p) by (nonlinear_arith)
        requires
            cm <= p,
    ;
    accuracy::rounding_keeps_order(gm * cm, p, gm, 1);
    accuracy::rounding_keeps_numbers(g.abs_bits());
    assert(accuracy::plain(h));
    accuracy::lemma_plain(h);
    let hm = h.mag();
    crate::axis_laws::lemma_rounding_error(gm * cm, p);
    let e3 = accuracy::distance(gm * cm, p, h.abs_bits());
    lemma_height_errors(vm, ym, qm, gm, cm, hm, n, p, e1, e2, e3);
}

proof fn lemma_height_errors(
    v: nat,
    y: nat,
    q: nat,
    g: nat,
    c: nat,
    h: nat,
    n: nat,
    p: nat,
    e1: nat,
    e2: nat,
    e3: nat,
)
    requires
        v <= y,
        1 <= y,
        q <= p,
        g <= n * p,
        c <= p,
        1 <= n,
        p > SIGNIFICAND_END * SIGNIFICAND_END,
        -e1 <= q * y - v * p <= e1,
        e1 * SIGNIFICAND_END <= v * p + y * SIGNIFICAND_END,
        -e2 <= g * p - q * (n * p) <= e2,
        e2 * SIGNIFICAND_END <= q * (n * p) + p * SIGNIFICAND_END,
        -e3 <= h * p - g * c <= e3,
        e3 * SIGNIFICAND_END <= g * c + p * SIGNIFICAND_END,
        -(96 * p + 100 * SIGNIFICAND_END) <= (100 * c - 96 * p) * SIGNIFICAND_END <= 96 * p + 100
            * SIGNIFICAND_END,
    ensures
        -(y * (n * p)) <= (100 * (y * h) - 96 * (v * (n * p))) * 0x800_0000_0000 <= y * (n * p),
{
    let e = SIGNIFICAND_END as int;
    let f1 = (q * y - v * p) * e;
    let f2 = (g - q * n) * e;
    let f3 = (h * p - g * c) * e;
    let f4 = (100 * c - 96 * p) * e;
    assert(-(2 * (y * p)) <= f1 <= 2 * (y * p)) by (nonlinear_arith)
        requires
            f1 == (q * y - v * p) * e,
            -e1 <= q * y - v * p <= e1,
            e1 * e <= v * p + y * e,
            v <= y,
            e <= p,
            e > 0,
    ;
    assert(-(2 * (n * p)) <= f2 <= 2 * (n * p)) by {
        assert(-(q * n + e) <= f2 <= q * n + e) by (nonlinear_arith)
            requires
                f2 == (g - q * n) * e,
                -e2 <= g * p - q * (n * p) <= e2,
                e2 * e <= q * (n * p) + p * e,
                p > 0,
                e > 1,
        ;
        assert(q * n + e <= 2 * (n * p)) by (nonlinear_arith)
            requires
                q <= p,
                n >= 1,
                e <= p,
        ;
    }
    assert(-(2 * ((n * p) * p)) <= f3 <= 2 * ((n * p) * p)) by {
        assert(-(g * c + p * e) <= f3 <= g * c + p * e) by (nonlinear_arith)
            requires
                f3 == (h * p - g * c) * e,
                -e3 <= h * p - g * c <= e3,
                e3 * e <= g * c + p * e,
                e > 1,
        ;
        assert(g * c <= (n * p) * p) by (nonlinear_arith)
            requires
                g <= n * p,
                c <= p,
        ;
        assert(p * e <= (n * p) * p) by (nonlinear_arith)
            requires
                e <= p,
                n >= 1,
        ;
    }
    assert(-(97 * p) <= f4 <= 97 * p) by (nonlinear_arith)
        requires
            -(96 * p + 100 * e) <= f4 <= 96 * p + 100 * e,
            p > e * e,
            e > 100,
    ;
    let np = n * p;
    let off = 100 * (y * h) - 96 * (v * np);
    // Times the unit, the error is that of the four steps.
    let w0 = 100 * (y * (h * p));
    let w1 = 100 * (y * (g * c));
    let w2 = 100 * ((y * c) * (q * n));
    let w3 = 100 * ((c * n) * (v * p));
    let w4 = 96 * ((v * np) * p);
    let t1 = 100 * y * f3;
    let t2 = 100 * y * c * f2;
    let t3 = 100 * c * n * f1;
    let t4 = v * np * f4;
    let bound = (y * np) * p;
    assert(-(200 * bound) <= t1 <= 200 * bound) by (nonlinear_arith)
        requires
            t1 == 100 * y * f3,
            -(2 * (np * p)) <= f3 <= 2 * (np * p),
            bound == (y * np) * p,
            y >= 0,
    ;
    assert(-(200 * bound) <= t2 <= 200 * bound) by {
        let yc = y * c;
        assert(yc <= y * p) by (nonlinear_arith)
            requires
                yc == y * c,
                c <= p,
        ;
        assert(t2 == 100 * (yc * f2)) by (nonlinear_arith)
            requires
                t2 == 100 * y * c * f2,
                yc == y * c,
        ;
        assert(-(2 * bound) <= yc * f2 <= 2 * bound) by (nonlinear_arith)
            requires
                0 <= yc <= y * p,
                -(2 * np) <= f2 <= 2 * np,
                bound == (y * np) * p,
                np >= 0,
        ;
    }
    assert(-(200 * bound) <= t3 <= 200 * bound) by {
        let cn = c * n;
        assert(cn <= np) by (nonlinear_arith)
            requires
                cn == c * n,
                np == n * p,
                c <= p,
        ;
        assert(t3 == 100 * (cn * f1)) by (nonlinear_arith)
            requires
                t3 == 100 * c * n * f1,
                cn == c * n,
        ;
        assert(-(2 * bound) <= cn * f1 <= 2 * bound) by (nonlinear_arith)
            requires
                0 <= cn <= np,
                -(2 * (y * p)) <= f1 <= 2 * (y * p),
                bound == (y * np) * p,
                y >= 0,
                p >= 0,
        ;
    }
    assert(-(97 * bound) <= t4 <= 97 * bound) by {
        let vn = v * np;
        assert(0 <= vn <= y * np) by (nonlinear_arith)
            requires
                vn == v * np,
                0 <= v <= y,
                np >= 0,
        ;
        assert(-(97 * bound) <= vn * f4 <= 97 * bound) by (nonlinear_arith)
            requires
                0 <= vn <= y * np,
                -(97 * p) <= f4 <= 97 * p,
                bound == (y * np) * p,
                p >= 0,
        ;
    }
    assert(off * p == w0 - w4) by (nonlinear_arith)
        requires
            off == 100 * (y * h) - 96 * (v * np),
            w0 == 100 * (y * (h * p)),
            w4 == 96 * ((v * np) * p),
    ;
    assert(t1 == (w0 - w1) * e) by (nonlinear_arith)
        requires
            t1 == 100 * y * f3,
            f3 == (h * p - g * c) * e,
            w0 == 100 * (y * (h * p)),
            w1 == 100 * (y * (g * c)),
    ;
    assert(t2 == (w1 - w2) * e) by {
        let yc = y * c;
        let qn = q * n;
        assert(w1 == 100 * (yc * g)) by (nonlinear_arith)
            requires
                w1 == 100 * (y * (g * c)),
                yc == y * c,
        ;
        assert(t2 == 100 * (yc * f2)) by (nonlinear_arith)
            requires
                t2 == 100 * y * c * f2,
                yc == y * c,
        ;
        assert(100 * (yc * f2) == (100 * (yc * g) - 100 * (yc * qn)) * e) by (nonlinear_arith)
            requires
                f2 == (g - qn) * e,
        ;
    }
    assert(t3 == (w2 - w3) * e) by {
        let cn = c * n;
        let qy = q * y;
        let vp = v * p;
        assert(w2 == 100 * (cn * qy)) by (nonlinear_arith)
            requires
                w2 == 100 * ((y * c) * (q * n)),
                cn == c * n,
                qy == q * y,
        ;
        assert(t3 == 100 * (cn * f1)) by (nonlinear_arith)
            requires
                t3 == 100 * c * n * f1,
                cn == c * n,
        ;
        assert(100 * (cn * f1) == (100 * (cn * qy) - 100 * (cn * vp)) * e) by (nonlinear_arith)
            requires
                f1 == (qy - vp) * e,
        ;
    }
    assert(t4 == (w3 - w4) * e) by {
        let vn = v * np;
        assert(w3 == 100 * (vn * c)) by (nonlinear_arith)
            requires
                w3 == 100 * ((c * n) * (v * p)),
                vn == v * np,
                np == n * p,
        ;
        assert(vn * f4 == (100 * (vn * c) - 96 * (vn * p)) * e) by (nonlinear_arith)
            requires
                f4 == (100 * c - 96 * p) * e,
        ;
    }
    assert((w0 - w4) * e == (w0 - w1) * e + (w1 - w2) * e + (w2 - w3) * e + (w3 - w4) * e)
        by (nonlinear_arith);
    assert((off * p) * e == t1 + t2 + t3 + t4);
    assert(-(1024 * bound) <= (off * p) * e <= 1024 * bound);
    let k = 0x800_0000_0000int;
    assert(e == 1024 * k);
    let z = y * np;
    assert(-z <= off * k <= z) by (nonlinear_arith)
        requires
            -(1024 * bound) <= (off * p) * e <= 1024 * bound,
            bound == z * p,
            e == 1024 * k,
            p > 0,
    ;
}

/// A value above the scale stands as high as the scale itself, and one that is not above it
/// as high as it should.
#[verifier::rlimit(40)]
pub proof fn values_stay_below_the_top(v: Binary64, ymax: Binary64, w: Dots)
    requires
        w.wf(),
        accuracy::plain(v),
        accuracy::plain(ymax),
        !v.negative(),
        !ymax.negative(),
        ymax.units() > 0,
    ensures
        v.units() <= ymax.units() ==> capped_height(v, ymax, w) == height_of(v, ymax, w),
        v.units() >= ymax.units() ==> binary64::equal(
            capped_height(v, ymax, w),
            height_of(ymax, ymax, w),
        ),
{
    let p = pow2(1074);
    let n = w.height as nat;
    lemma_pow2_pos(1074);
    assert(rounding::magnitude(0) == 0);
    accuracy::small_integers_are_exact(n);
    accuracy::integers_keep_order(0, n);
    accuracy::small_integers_are_exact(1);
    accuracy::integers_keep_order(0, 1);
    let top = w.top();
    let one = binary64::integer(1);
    let c = fill_part();
    lemma_fill();
    let y = ymax.mag();
    accuracy::lemma_plain(v);
    accuracy::lemma_plain(ymax);
    accuracy::lemma_plain(one);
    accuracy::lemma_plain(top);
    accuracy::order_is_by_value(binary64::zero(), ymax);
    accuracy::order_is_by_value(v, ymax);
    accuracy::order_is_by_value(ymax, v);
    // The scale itself is the whole.
    let full = binary64::quotient(ymax, ymax);
    accuracy::lemma_quotient_place(ymax, ymax);
    assert(y * p == p * y) by (nonlinear_arith);
    rounding::lemma_nearest_scale(p, 1, y);
    assert(1 * y == y && 1 * p == p);
    accuracy::rounding_keeps_numbers(one.abs_bits());
    assert(full == one);
    let whole = binary64::product(one, top);
    accuracy::lemma_product_place(one, top);
    assert(p * top.mag() == top.mag() * p) by (nonlinear_arith);
    rounding::lemma_nearest_scale(top.mag(), 1, p);
    accuracy::rounding_keeps_numbers(top.abs_bits());
    assert(whole == top);
    assert(height_of(ymax, ymax, w) == binary64::product(top, c));
    // Heights keep the order of values.
    let q = binary64::quotient(v, ymax);
    accuracy::lemma_quotient_place(v, ymax);
    if v.units() <= ymax.units() {
        accuracy::quotients_keep_order(v, ymax, ymax);
        assert(q.finite());
        accuracy::products_keep_order(q, one, top);
        let g = binary64::product(q, top);
        accuracy::products_keep_order(g, top, c);
    }
    if v.units() >= ymax.units() {
        accuracy::quotients_keep_order(ymax, v, ymax);
        if q.finite() {
            accuracy::products_keep_order(one, q, top);
            let g = binary64::product(q, top);
            if g.finite() {
                accuracy::products_keep_order(top, g, c);
            } else {
                lemma_infinite_height(g, c);
            }
        } else {
            assert(n * p > 0) by (nonlinear_arith)
                requires
                    n > 0,
                    p > 0,
            ;
            lemma_infinite_height(q, top);
            lemma_infinite_height(binary64::product(q, top), c);
        }
    }
}

proof fn lemma_infinite_height(a: Binary64, b: Binary64)
    requires
        a.infinite() && !a.negative(),
        b.finite() && !b.negative(),
        b.mag() > 0,
    ensures
        binary64::product(a, b) == a,
{
    assert(rounding::magnitude(0) == 0);
}

} // verus!
