//! The geometry of the graphs: where fills, lines, ticks, grid lines and labels go.

use vstd::arithmetic::div_mod::*;
use vstd::arithmetic::power2::*;
use vstd::prelude::*;
use vstd::string::*;

use crate::accuracy;
use crate::binary64;
use crate::binary64::Binary64;
use crate::decade;
use crate::decade::decade;
use crate::derive::WINDOWS;
use crate::figures;
use crate::fixed;
use crate::rounding;

verus! {

/// The top grid line: the scale rounded up to a whole number of steps.
pub open spec fn grid_top(scale: Binary64, step: Binary64) -> Binary64 {
    binary64::product(binary64::ceiling(binary64::quotient(scale, step)), step)
}

/// How many grid lines there are.
pub open spec fn grid_count(scale: Binary64, step: Binary64) -> nat {
    let n = binary64::truncated(binary64::quotient(grid_top(scale, step), step));
    if n > i64::MAX {
        i64::MAX as nat
    } else {
        n as nat
    }
}

/// The values of the grid lines: one per step, none without a positive scale.
pub open spec fn grid_values(scale: Binary64, step: Binary64) -> Seq<Binary64> {
    if binary64::less(binary64::zero(), scale) {
        Seq::new(
            grid_count(scale, step),
            |m: int| binary64::product(binary64::integer((m + 1) as nat), step),
        )
    } else {
        Seq::empty()
    }
}

/// The top of the scale: a tenth above the top grid line, one without a positive scale.
pub open spec fn scale_top(scale: Binary64, step: Binary64) -> Binary64 {
    if binary64::less(binary64::zero(), scale) {
        binary64::product(
            grid_top(scale, step),
            binary64::quotient(binary64::integer(11), binary64::integer(10)),
        )
    } else {
        binary64::integer(1)
    }
}

/// Calibration lines for the largest value that a graph shows, at any magnitude: one line
/// per round step, the power of ten at or below the value, the last at or above the
/// value, and the top of the scale a tenth above it.
pub fn grid_for_scale(scale: Binary64) -> (r: (Vec<Binary64>, Binary64))
    ensures
        r.0@ == grid_values(scale, decade::decade_of(scale)),
        r.1 == scale_top(scale, decade::decade_of(scale)),
{
    if !Binary64::from_bits(0).lt(scale) {
        return (Vec::new(), Binary64::from_u64(1));
    }
    let step: Binary64 = decade(scale);
    let top: Binary64 = scale.over(step).ceil().times(step);
    let whole: u64 = top.over(step).to_u64();
    let n: u64 = if whole > 0x7fff_ffff_ffff_ffff {
        0x7fff_ffff_ffff_ffff
    } else {
        whole
    };
    let mut lines: Vec<Binary64> = Vec::new();
    let mut m: u64 = 0;
    while m < n
        invariant
            m <= n <= 0x7fff_ffff_ffff_ffff,
            lines@.len() == m,
            forall|j: int|
                0 <= j < m ==> #[trigger] lines@[j] == binary64::product(
                    binary64::integer((j + 1) as nat),
                    step,
                ),
        decreases n - m,
    {
        lines.push(Binary64::from_u64(m + 1).times(step));
        m += 1;
    }
    assert(lines@ =~= Seq::new(
        grid_count(scale, step),
        |m: int| binary64::product(binary64::integer((m + 1) as nat), step),
    ));
    let head: Binary64 = Binary64::from_u64(11).over(Binary64::from_u64(10));
    (lines, top.times(head))
}

/// The marks on the lower axis: the stalled intervals and, where they are given, the
/// intervals with a positive rate of preemptions.
#[derive(Clone, Copy)]
pub struct Ticks<'a> {
    pub stall: &'a [bool],
    pub evict: Option<&'a [Binary64]>,
}

/// What the marks stand for.
pub struct TicksView {
    pub stall: Seq<bool>,
    pub evict: Option<Seq<Binary64>>,
}

impl<'a> View for Ticks<'a> {
    type V = TicksView;

    open spec fn view(&self) -> TicksView {
        TicksView {
            stall: self.stall@,
            evict: match self.evict {
                Some(r) => Some(r@),
                None => None,
            },
        }
    }
}

/// The marks, where there are any.
pub open spec fn ticks_view(t: Option<Ticks>) -> Option<TicksView> {
    match t {
        Some(x) => Some(x@),
        None => None,
    }
}

/// What a graph carries besides its fill: the unit on the lowest label, the ticks, a
/// second series drawn as a line, and the values of the grid lines.
pub struct PlotDress<'a> {
    pub unit: &'a str,
    pub ticks: Option<Ticks<'a>>,
    pub overlay: Option<&'a [Option<Binary64>]>,
    pub ref_lines: &'a [Binary64],
}

/// What the dress of a graph stands for.
pub struct DressView {
    pub unit: Seq<char>,
    pub ticks: Option<TicksView>,
    pub overlay: Option<Seq<Option<Binary64>>>,
    pub ref_lines: Seq<Binary64>,
}

impl<'a> View for PlotDress<'a> {
    type V = DressView;

    open spec fn view(&self) -> DressView {
        DressView {
            unit: self.unit@,
            ticks: ticks_view(self.ticks),
            overlay: match self.overlay {
                Some(o) => Some(o@),
                None => None,
            },
            ref_lines: self.ref_lines@,
        }
    }
}

/// Why an interval is marked.
#[derive(Clone, Copy, Debug, PartialEq, Eq, Structural)]
pub enum Mark {
    Stall,
    Evict,
}

/// The canvas that a graph is drawn on, in dots: two to a column, four to a row.
#[derive(Clone, Copy, Debug, PartialEq, Eq, Structural)]
pub struct Dots {
    pub width: u32,
    pub height: u32,
}

impl Dots {
    pub open spec fn wf(self) -> bool {
        &&& 2 <= self.width <= 131_070
        &&& 4 <= self.height <= 262_140
    }

    /// The last column of dots.
    pub open spec fn last(self) -> Binary64 {
        binary64::integer((self.width - 1) as nat)
    }

    /// The height of the canvas.
    pub open spec fn top(self) -> Binary64 {
        binary64::integer(self.height as nat)
    }
}

/// The value at `i`, where it is there, or one.
pub open spec fn or_one(dt: Seq<Binary64>, i: int) -> Binary64 {
    if i < dt.len() {
        dt[i]
    } else {
        binary64::integer(1)
    }
}

/// When the interval at `i` begins, counted from the first one.
pub open spec fn start_of(dt: Seq<Binary64>, i: int) -> Binary64
    decreases i,
{
    if i <= 0 {
        binary64::zero()
    } else {
        binary64::sum(start_of(dt, i - 1), or_one(dt, i - 1))
    }
}

/// Where a time goes: the window is always as wide as the canvas, with the newest time in
/// the last column.
pub open spec fn axis_at(cum: Binary64, span: Binary64, w: Dots) -> Binary64 {
    binary64::clamped(
        binary64::difference(
            w.last(),
            binary64::product(
                binary64::quotient(
                    binary64::difference(span, cum),
                    binary64::seconds(WINDOWS[2] as nat),
                ),
                w.last(),
            ),
        ),
        binary64::zero(),
        w.last(),
    )
}

/// The part of the canvas that values take up.
pub open spec fn fill_part() -> Binary64 {
    binary64::quotient(binary64::integer(96), binary64::integer(100))
}

/// A value as a height.
pub open spec fn height_of(v: Binary64, ymax: Binary64, w: Dots) -> Binary64 {
    binary64::product(binary64::product(binary64::quotient(v, ymax), w.top()), fill_part())
}

/// A value as a height on the canvas.
pub open spec fn capped_height(v: Binary64, ymax: Binary64, w: Dots) -> Binary64 {
    binary64::smaller(height_of(v, ymax, w), binary64::product(w.top(), fill_part()))
}

/// The measured points among the first `n` positions: where they stand in the series, on
/// the axis and in height.
pub open spec fn points(
    vals: Seq<Option<Binary64>>,
    n: int,
    dt: Seq<Binary64>,
    ymax: Binary64,
    w: Dots,
) -> Seq<(int, Binary64, Binary64)>
    decreases n,
{
    if n <= 0 {
        Seq::empty()
    } else {
        let before = points(vals, n - 1, dt, ymax, w);
        match vals[n - 1] {
            Some(v) => before.push(
                (
                    n - 1,
                    axis_at(start_of(dt, n - 1), start_of(dt, dt.len() as int), w),
                    capped_height(v, ymax, w),
                ),
            ),
            None => before,
        }
    }
}

/// Whether the interval at `i` is marked, and why. A stall hides a preemption.
pub open spec fn mark_at(ticks: Option<TicksView>, i: int) -> Option<Mark> {
    match ticks {
        Some(t) => if i < t.stall.len() && t.stall[i] {
            Some(Mark::Stall)
        } else {
            match t.evict {
                Some(r) => if i < r.len() && binary64::less(binary64::zero(), r[i]) {
                    Some(Mark::Evict)
                } else {
                    None
                },
                None => None,
            }
        },
        None => None,
    }
}

/// The marks of the first `n` positions.
pub open spec fn marks(ticks: Option<TicksView>, n: int, dt: Seq<Binary64>, w: Dots) -> Seq<
    (Binary64, Mark),
>
    decreases n,
{
    if n <= 0 {
        Seq::empty()
    } else {
        let before = marks(ticks, n - 1, dt, w);
        match mark_at(ticks, n - 1) {
            Some(m) => before.push(
                (axis_at(start_of(dt, n - 1), start_of(dt, dt.len() as int), w), m),
            ),
            None => before,
        }
    }
}

/// The fill goes on at `x` toward `end`.
pub open spec fn goes_on(x: Binary64, end: Binary64) -> bool {
    binary64::less(x, end) && binary64::at_most(binary64::zero(), x) && binary64::at_most(
        end,
        binary64::integer(131_070),
    )
}

/// How many columns may be left.
pub open spec fn left(x: Binary64) -> nat {
    if binary64::whole_part(x) <= 131_071 {
        (131_072 - binary64::whole_part(x)) as nat
    } else {
        0
    }
}

/// The next column.
pub open spec fn next_column(x: Binary64) -> Binary64 {
    binary64::sum(x, binary64::integer(1))
}

/// One column further on, fewer columns are left.
pub proof fn lemma_next_column(x: Binary64, end: Binary64)
    requires
        goes_on(x, end),
    ensures
        left(next_column(x)) < left(x),
        binary64::at_most(binary64::zero(), next_column(x)),
{
    let p = pow2(1074);
    lemma_pow2_pos(1074);
    accuracy::small_integers_are_exact(1);
    accuracy::small_integers_are_exact(131_070);
    accuracy::integers_keep_order(0, 1);
    accuracy::integers_keep_order(0, 131_070);
    accuracy::lemma_whole_at_most(x, 131_070);
    let k = binary64::whole_part(x);
    accuracy::small_integers_are_exact(k + 1);
    accuracy::integers_keep_order(0, k + 1);
    let u = x.units();
    assert(rounding::magnitude(0) == 0);
    assert(u >= k * p) by {
        if x.negative() {
            assert(0 * p == 0) by (nonlinear_arith);
        } else {
            lemma_fundamental_div_mod(x.mag() as int, p as int);
            assert(p * k == k * p) by (nonlinear_arith);
        }
    }
    assert((k + 1) * p == k * p + p) by (nonlinear_arith);
    assert(1 * p == p);
    let t = (u + p) as nat;
    assert(((k + 1) * p) * 1 <= t * 1);
    accuracy::rounding_keeps_order((k + 1) * p, 1, t, 1);
    let next = next_column(x);
    let want = binary64::integer(k + 1);
    if want.abs_bits() < next.abs_bits() {
        accuracy::magnitudes_ascend(want.abs_bits(), next.abs_bits());
    }
    lemma_div_is_ordered(((k + 1) * p) as int, next.mag() as int, p as int);
    lemma_div_multiples_vanish((k + 1) as int, p as int);
    assert(p * (k + 1) == (k + 1) * p) by (nonlinear_arith);
}

/// The height of the fill at `x` between two points.
pub open spec fn slope(
    x: Binary64,
    a: (int, Binary64, Binary64),
    b: (int, Binary64, Binary64),
) -> Binary64 {
    let width = binary64::larger(binary64::difference(b.1, a.1), binary64::integer(1));
    let part = binary64::quotient(binary64::difference(x, a.1), width);
    binary64::larger(
        binary64::sum(a.2, binary64::product(binary64::difference(b.2, a.2), part)),
        binary64::integer(1),
    )
}

/// The filled columns from `x` on, up to the second of two points.
pub open spec fn ramp(
    x: Binary64,
    a: (int, Binary64, Binary64),
    b: (int, Binary64, Binary64),
) -> Seq<(Binary64, Binary64)>
    decreases left(x),
{
    if goes_on(x, b.1) {
        proof {
            lemma_next_column(x, b.1);
        }
        seq![(x, slope(x, a, b))] + ramp(next_column(x), a, b)
    } else {
        Seq::empty()
    }
}

/// The filled columns between the first `n` points. Nothing bridges a gap.
pub open spec fn ramps(t: Seq<(int, Binary64, Binary64)>, n: int) -> Seq<(Binary64, Binary64)>
    decreases n,
{
    if n < 2 {
        Seq::empty()
    } else {
        let a = t[n - 2];
        let b = t[n - 1];
        ramps(t, n - 1) + (if b.0 == a.0 + 1 {
            ramp(a.1, a, b)
        } else {
            Seq::empty()
        })
    }
}

/// The newest value held out to the last column, where the newest position has one.
pub open spec fn held(t: Seq<(int, Binary64, Binary64)>, n: int, w: Dots) -> Seq<
    (Binary64, Binary64),
> {
    if t.len() > 0 && t.last().0 + 1 == n {
        let from = binary64::truncated(t.last().1);
        let h = binary64::larger(t.last().2, binary64::integer(1));
        Seq::new(
            if from < w.width {
                (w.width - from) as nat
            } else {
                0
            },
            |i: int| (binary64::integer((from + i) as nat), h),
        )
    } else {
        Seq::empty()
    }
}

/// The lines between neighbours among the first `n` points.
pub open spec fn segments(t: Seq<(int, Binary64, Binary64)>, n: int) -> Seq<
    ((Binary64, Binary64), (Binary64, Binary64)),
>
    decreases n,
{
    if n < 2 {
        Seq::empty()
    } else {
        let a = t[n - 2];
        let b = t[n - 1];
        if b.0 == a.0 + 1 {
            segments(t, n - 1).push(((a.1, a.2), (b.1, b.2)))
        } else {
            segments(t, n - 1)
        }
    }
}

/// The height of a grid line, kept off the borders.
pub open spec fn grid_y(v: Binary64, ymax: Binary64, w: Dots) -> Binary64 {
    binary64::clamped(
        height_of(v, ymax, w),
        binary64::integer(1),
        binary64::integer((w.height - 2) as nat),
    )
}

/// The row that a label at height `y` lands in.
pub open spec fn slot_of(y: Binary64, w: Dots) -> u64 {
    let rows = w.height as nat / 4;
    let most = if rows < 2 {
        1
    } else {
        (rows - 1) as nat
    };
    binary64::truncated(
        binary64::quotient(
            binary64::product(binary64::difference(w.top(), y), binary64::integer(most)),
            w.top(),
        ),
    )
}

/// A grid value as a label.
pub open spec fn grid_text(v: Binary64) -> Seq<char> {
    if figures::reaches(v, 1_000_000) {
        fixed::fixed_text(figures::divided(v, 1_000_000), 0) + "M"@
    } else if figures::reaches(v, 1000) {
        fixed::fixed_text(figures::divided(v, 1000), 0) + "k"@
    } else if binary64::less(v, binary64::quotient(binary64::integer(1), binary64::integer(10))) {
        fixed::fixed_text(v, 2)
    } else if binary64::less(v, binary64::integer(1)) {
        fixed::fixed_text(v, 1)
    } else {
        fixed::fixed_text(v, 0)
    }
}

/// The height of a label.
pub open spec fn label_y(v: Binary64, ymax: Binary64, w: Dots) -> Binary64 {
    binary64::sum(grid_y(v, ymax, w), binary64::integer(2))
}

/// The labels of the first `n` grid lines, and the last row used. A row takes one label,
/// the lowest; the lowest line carries the unit.
pub open spec fn labels(g: Seq<Binary64>, n: int, ymax: Binary64, w: Dots, unit: Seq<char>) -> (
    Seq<(Binary64, Seq<char>)>,
    Option<u64>,
)
    decreases n,
{
    if n <= 0 {
        (Seq::empty(), None)
    } else {
        let a = labels(g, n - 1, ymax, w, unit);
        let y = label_y(g[n - 1], ymax, w);
        let slot = slot_of(y, w);
        if a.1 == Some(slot) {
            a
        } else {
            let t = if binary64::equal(g[n - 1], g[0]) {
                grid_text(g[n - 1]) + unit
            } else {
                grid_text(g[n - 1])
            };
            (a.0.push((y, t)), Some(slot))
        }
    }
}

/// The dashes of a grid line: two dots wide, every five dots.
pub open spec fn dash(i: int, w: Dots) -> (u32, u32) {
    (
        (5 * i) as u32,
        if 5 * i + 2 < w.width - 1 {
            (5 * i + 2) as u32
        } else {
            (w.width - 1) as u32
        },
    )
}

/// Everything that a graph draws.
pub struct Plot {
    pub dots: Dots,
    /// The heights of the grid lines.
    pub grid: Vec<Binary64>,
    /// The first and last dots of the dashes of a grid line.
    pub dashes: Vec<(u32, u32)>,
    /// The labels and their heights.
    pub labels: Vec<(Binary64, String)>,
    /// The filled columns and their heights.
    pub cols: Vec<(Binary64, Binary64)>,
    /// The lines of the second series.
    pub overlay: Vec<((Binary64, Binary64), (Binary64, Binary64))>,
    /// The marks on the lower axis.
    pub ticks: Vec<(Binary64, Mark)>,
    /// The height of the marks.
    pub tick_height: Binary64,
}

/// Labels as texts.
pub open spec fn labels_view(s: Seq<(Binary64, String)>) -> Seq<(Binary64, Seq<char>)> {
    s.map_values(|l: (Binary64, String)| (l.0, l.1@))
}

/// The measured points of a second series.
pub open spec fn overlay_points(
    o: Option<Seq<Option<Binary64>>>,
    dt: Seq<Binary64>,
    ymax: Binary64,
    w: Dots,
) -> Seq<(int, Binary64, Binary64)> {
    match o {
        Some(s) => points(s, s.len() as int, dt, ymax, w),
        None => Seq::empty(),
    }
}

impl Plot {
    /// The plot shows the series on a canvas of the given columns and rows.
    pub open spec fn shows(
        &self,
        width: u16,
        height: u16,
        vals: Seq<Option<Binary64>>,
        dt: Seq<Binary64>,
        ymax: Binary64,
        dress: DressView,
    ) -> bool {
        let w = self.dots;
        let n = vals.len() as int;
        let t = points(vals, n, dt, ymax, w);
        let o = overlay_points(dress.overlay, dt, ymax, w);
        let g = dress.ref_lines;
        &&& w.width == 2 * width
        &&& w.height == 4 * height
        &&& self.grid@ == g.map_values(|v: Binary64| grid_y(v, ymax, w))
        &&& self.dashes@ == Seq::new(((w.width + 4) / 5) as nat, |i: int| dash(i, w))
        &&& labels_view(self.labels@) == labels(g, g.len() as int, ymax, w, dress.unit).0
        &&& self.cols@ == ramps(t, t.len() as int) + held(t, n, w)
        &&& self.overlay@ == segments(o, o.len() as int)
        &&& self.ticks@ == marks(dress.ticks, n, dt, w)
        &&& self.tick_height == binary64::larger(
            binary64::product(
                w.top(),
                binary64::quotient(binary64::integer(8), binary64::integer(100)),
            ),
            binary64::integer(2),
        )
    }
}

/// The plot of a series, where there are intervals, a scale and a canvas.
pub open spec fn plotted(
    r: Option<Plot>,
    width: u16,
    height: u16,
    vals: Seq<Option<Binary64>>,
    dt: Seq<Binary64>,
    ymax: Binary64,
    dress: DressView,
) -> bool {
    match r {
        Some(p) => {
            &&& dt.len() > 0
            &&& !binary64::at_most(ymax, binary64::zero())
            &&& width > 0
            &&& height > 0
            &&& p.shows(width, height, vals, dt, ymax, dress)
        },
        None => dt.len() == 0 || binary64::at_most(ymax, binary64::zero()) || width == 0 || height
            == 0,
    }
}

/// Points with their positions as integers.
spec fn points_view(s: Seq<(usize, Binary64, Binary64)>) -> Seq<(int, Binary64, Binary64)> {
    s.map_values(|p: (usize, Binary64, Binary64)| (p.0 as int, p.1, p.2))
}

fn last_dot(w: Dots) -> (r: Binary64)
    requires
        w.wf(),
    ensures
        r == w.last(),
{
    Binary64::from_u64(w.width as u64 - 1)
}

fn top_dot(w: Dots) -> (r: Binary64)
    ensures
        r == w.top(),
{
    Binary64::from_u64(w.height as u64)
}

fn dt_or_one(dt: &[Binary64], i: usize) -> (r: Binary64)
    ensures
        r == or_one(dt@, i as int),
{
    if i < dt.len() {
        dt[i]
    } else {
        Binary64::from_u64(1)
    }
}

/// The length of all intervals together.
fn whole_span(dt: &[Binary64]) -> (r: Binary64)
    ensures
        r == start_of(dt@, dt@.len() as int),
{
    let mut r: Binary64 = Binary64::from_bits(0);
    let mut i: usize = 0;
    while i < dt.len()
        invariant
            i <= dt@.len(),
            r == start_of(dt@, i as int),
        decreases dt@.len() - i,
    {
        r = r.plus(dt[i]);
        i += 1;
    }
    r
}

fn axis_x(cum: Binary64, span: Binary64, w: Dots) -> (r: Binary64)
    requires
        w.wf(),
    ensures
        r == axis_at(cum, span, w),
{
    let last: Binary64 = last_dot(w);
    let window: Binary64 = Binary64::from_nanos(WINDOWS[2]);
    let back: Binary64 = span.minus(cum).over(window).times(last);
    proof {
        accuracy::integers_keep_order(0, (w.width - 1) as nat);
    }
    last.minus(back).clamp(Binary64::from_bits(0), last)
}

/// A place on the axis lies on the canvas, unless it is not a number.
proof fn lemma_axis(cum: Binary64, span: Binary64, w: Dots)
    requires
        w.wf(),
    ensures
        ({
            let x = axis_at(cum, span, w);
            !x.nan() ==> binary64::at_most(binary64::zero(), x) && binary64::at_most(
                x,
                binary64::integer(131_070),
            )
        }),
{
    accuracy::integers_keep_order(0, (w.width - 1) as nat);
    accuracy::integers_keep_order((w.width - 1) as nat, 131_070);
}

fn value_height(v: Binary64, ymax: Binary64, w: Dots) -> (r: Binary64)
    ensures
        r == height_of(v, ymax, w),
{
    let part: Binary64 = Binary64::from_u64(96).over(Binary64::from_u64(100));
    v.over(ymax).times(top_dot(w)).times(part)
}

fn value_capped(v: Binary64, ymax: Binary64, w: Dots) -> (r: Binary64)
    ensures
        r == capped_height(v, ymax, w),
{
    let part: Binary64 = Binary64::from_u64(96).over(Binary64::from_u64(100));
    value_height(v, ymax, w).min(top_dot(w).times(part))
}

/// The measured points of a series.
fn find_points(vals: &[Option<Binary64>], dt: &[Binary64], ymax: Binary64, w: Dots) -> (r: Vec<
    (usize, Binary64, Binary64),
>)
    requires
        w.wf(),
    ensures
        points_view(r@) == points(vals@, vals@.len() as int, dt@, ymax, w),
{
    let span: Binary64 = whole_span(dt);
    let mut x: Binary64 = Binary64::from_bits(0);
    let mut r: Vec<(usize, Binary64, Binary64)> = Vec::new();
    let mut i: usize = 0;
    assert(points_view(r@) =~= Seq::empty());
    while i < vals.len()
        invariant
            i <= vals@.len(),
            w.wf(),
            span == start_of(dt@, dt@.len() as int),
            x == start_of(dt@, i as int),
            points_view(r@) == points(vals@, i as int, dt@, ymax, w),
        decreases vals@.len() - i,
    {
        let ghost had = points_view(r@);
        if let Some(v) = vals[i] {
            let p: (usize, Binary64, Binary64) = (i, axis_x(x, span, w), value_capped(v, ymax, w));
            r.push(p);
            assert(points_view(r@) =~= had.push((i as int, p.1, p.2)));
        }
        x = x.plus(dt_or_one(dt, i));
        i += 1;
    }
    r
}

fn mark_of(ticks: &Option<Ticks>, i: usize) -> (r: Option<Mark>)
    ensures
        r == mark_at(ticks_view(*ticks), i as int),
{
    match ticks {
        Some(t) => {
            if i < t.stall.len() && t.stall[i] {
                return Some(Mark::Stall);
            }
            match t.evict {
                Some(rates) => if i < rates.len() && Binary64::from_bits(0).lt(rates[i]) {
                    Some(Mark::Evict)
                } else {
                    None
                },
                None => None,
            }
        },
        None => None,
    }
}

fn find_marks(ticks: &Option<Ticks>, n: usize, dt: &[Binary64], w: Dots) -> (r: Vec<
    (Binary64, Mark),
>)
    requires
        w.wf(),
    ensures
        r@ == marks(ticks_view(*ticks), n as int, dt@, w),
{
    let span: Binary64 = whole_span(dt);
    let mut x: Binary64 = Binary64::from_bits(0);
    let mut r: Vec<(Binary64, Mark)> = Vec::new();
    let mut i: usize = 0;
    while i < n
        invariant
            i <= n,
            w.wf(),
            span == start_of(dt@, dt@.len() as int),
            x == start_of(dt@, i as int),
            r@ == marks(ticks_view(*ticks), i as int, dt@, w),
        decreases n - i,
    {
        if let Some(m) = mark_of(ticks, i) {
            r.push((axis_x(x, span, w), m));
        }
        x = x.plus(dt_or_one(dt, i));
        i += 1;
    }
    r
}

fn slope_at(
    x: Binary64,
    a: (usize, Binary64, Binary64),
    b: (usize, Binary64, Binary64),
) -> (r: Binary64)
    ensures
        r == slope(x, (a.0 as int, a.1, a.2), (b.0 as int, b.1, b.2)),
{
    let one: Binary64 = Binary64::from_u64(1);
    let width: Binary64 = b.1.minus(a.1).max(one);
    let part: Binary64 = x.minus(a.1).over(width);
    a.2.plus(b.2.minus(a.2).times(part)).max(one)
}

/// Whether a number is a not-a-number or lies on the canvas.
pub open spec fn on_canvas(x: Binary64) -> bool {
    !x.nan() ==> binary64::at_most(binary64::zero(), x) && binary64::at_most(
        x,
        binary64::integer(131_070),
    )
}

fn add_ramp(
    out: &mut Vec<(Binary64, Binary64)>,
    a: (usize, Binary64, Binary64),
    b: (usize, Binary64, Binary64),
)
    requires
        on_canvas(a.1),
        on_canvas(b.1),
    ensures
        final(out)@ == old(out)@ + ramp(
            a.1,
            (a.0 as int, a.1, a.2),
            (b.0 as int, b.1, b.2),
        ),
{
    let ghost p = (a.0 as int, a.1, a.2);
    let ghost q = (b.0 as int, b.1, b.2);
    let ghost whole = out@ + ramp(a.1, p, q);
    let mut x: Binary64 = a.1;
    while x.lt(b.1)
        invariant
            p == (a.0 as int, a.1, a.2),
            q == (b.0 as int, b.1, b.2),
            on_canvas(b.1),
            !x.nan() ==> binary64::at_most(binary64::zero(), x),
            out@ + ramp(x, p, q) == whole,
        decreases left(x),
    {
        let ghost had = out@;
        assert(goes_on(x, b.1));
        proof {
            lemma_next_column(x, b.1);
        }
        let h: Binary64 = slope_at(x, a, b);
        out.push((x, h));
        let ghost was = x;
        x = x.plus(Binary64::from_u64(1));
        assert(had + (seq![(was, h)] + ramp(x, p, q)) =~= out@ + ramp(x, p, q));
    }
    assert(ramp(x, p, q) =~= Seq::empty());
    assert(out@ =~= whole);
}

/// Every point lies on the canvas.
proof fn lemma_points(
    vals: Seq<Option<Binary64>>,
    n: int,
    dt: Seq<Binary64>,
    ymax: Binary64,
    w: Dots,
)
    requires
        w.wf(),
    ensures
        forall|i: int|
            0 <= i < points(vals, n, dt, ymax, w).len() ==> on_canvas(
                (#[trigger] points(vals, n, dt, ymax, w)[i]).1,
            ),
    decreases n,
{
    if n > 0 {
        lemma_points(vals, n - 1, dt, ymax, w);
        lemma_axis(start_of(dt, n - 1), start_of(dt, dt.len() as int), w);
        let before = points(vals, n - 1, dt, ymax, w);
        let now = points(vals, n, dt, ymax, w);
        assert forall|i: int| 0 <= i < now.len() implies on_canvas((#[trigger] now[i]).1) by {
            if i < before.len() {
                assert(now[i] == before[i]);
                assert(on_canvas(before[i].1));
            }
        }
    }
}

fn find_cols(t: &Vec<(usize, Binary64, Binary64)>, n: usize, w: Dots) -> (r: Vec<
    (Binary64, Binary64),
>)
    requires
        w.wf(),
        forall|i: int| 0 <= i < t@.len() ==> on_canvas((#[trigger] t@[i]).1),
        forall|i: int| 0 <= i < t@.len() ==> (#[trigger] t@[i]).0 < n,
    ensures
        r@ == ramps(points_view(t@), t@.len() as int) + held(points_view(t@), n as int, w),
{
    let ghost all = points_view(t@);
    let mut r: Vec<(Binary64, Binary64)> = Vec::new();
    let mut i: usize = 1;
    while i < t.len()
        invariant
            1 <= i,
            i <= t@.len() || i == 1,
            all == points_view(t@),
            forall|i: int| 0 <= i < t@.len() ==> on_canvas((#[trigger] t@[i]).1),
            forall|i: int| 0 <= i < t@.len() ==> (#[trigger] t@[i]).0 < n,
            r@ == ramps(all, i as int),
        decreases t@.len() - i,
    {
        let a: (usize, Binary64, Binary64) = t[i - 1];
        let b: (usize, Binary64, Binary64) = t[i];
        assert(all[i - 1] == (a.0 as int, a.1, a.2));
        assert(all[i as int] == (b.0 as int, b.1, b.2));
        let ghost had = r@;
        if b.0 == a.0 + 1 {
            add_ramp(&mut r, a, b);
        } else {
            assert(had + Seq::<(Binary64, Binary64)>::empty() =~= had);
        }
        i += 1;
    }
    let ghost filled = r@;
    assert(filled == ramps(all, t@.len() as int));
    let k: usize = t.len();
    if k > 0 && t[k - 1].0 + 1 == n {
        let one: Binary64 = Binary64::from_u64(1);
        let h: Binary64 = t[k - 1].2.max(one);
        let from: u64 = t[k - 1].1.to_u64();
        let ghost tail = held(all, n as int, w);
        assert(all.last() == (t@[k - 1].0 as int, t@[k - 1].1, t@[k - 1].2));
        let mut c: u64 = from;
        assert(filled + tail.take(0) =~= filled);
        while c < w.width as u64
            invariant
                from <= c,
                c <= w.width || c == from,
                tail == Seq::new(
                    if from < w.width {
                        (w.width - from) as nat
                    } else {
                        0
                    },
                    |i: int| (binary64::integer((from + i) as nat), h),
                ),
                r@ == filled + tail.take(c - from),
            decreases w.width - c,
        {
            r.push((Binary64::from_u64(c), h));
            assert(tail[c - from] == (binary64::integer(c as nat), h));
            c += 1;
            assert(tail.take(c - from) =~= tail.take(c - from - 1).push(tail[c - from - 1]));
            assert(r@ =~= filled + tail.take(c - from));
        }
        assert(tail.take(c - from) =~= tail);
    } else {
        assert(held(all, n as int, w) =~= Seq::empty()) by {
            if k > 0 {
                assert(all.last() == (t@[k - 1].0 as int, t@[k - 1].1, t@[k - 1].2));
            }
        }
        assert(filled + Seq::<(Binary64, Binary64)>::empty() =~= filled);
    }
    r
}

fn find_segments(t: &Vec<(usize, Binary64, Binary64)>) -> (r: Vec<
    ((Binary64, Binary64), (Binary64, Binary64)),
>)
    requires
        forall|i: int| 0 <= i < t@.len() ==> (#[trigger] t@[i]).0 < usize::MAX,
    ensures
        r@ == segments(points_view(t@), t@.len() as int),
{
    let ghost all = points_view(t@);
    let mut r: Vec<((Binary64, Binary64), (Binary64, Binary64))> = Vec::new();
    let mut i: usize = 1;
    while i < t.len()
        invariant
            1 <= i,
            i <= t@.len() || i == 1,
            all == points_view(t@),
            forall|i: int| 0 <= i < t@.len() ==> (#[trigger] t@[i]).0 < usize::MAX,
            r@ == segments(all, i as int),
        decreases t@.len() - i,
    {
        let a: (usize, Binary64, Binary64) = t[i - 1];
        let b: (usize, Binary64, Binary64) = t[i];
        assert(all[i - 1] == (a.0 as int, a.1, a.2));
        assert(all[i as int] == (b.0 as int, b.1, b.2));
        if b.0 == a.0 + 1 {
            r.push(((a.1, a.2), (b.1, b.2)));
        }
        i += 1;
    }
    r
}

/// Every point stands among the positions walked.
proof fn lemma_point_positions(
    vals: Seq<Option<Binary64>>,
    n: int,
    dt: Seq<Binary64>,
    ymax: Binary64,
    w: Dots,
)
    requires
        0 <= n,
    ensures
        forall|i: int|
            0 <= i < points(vals, n, dt, ymax, w).len() ==> 0 <= (#[trigger] points(
                vals,
                n,
                dt,
                ymax,
                w,
            )[i]).0 < n,
    decreases n,
{
    if n > 0 {
        lemma_point_positions(vals, n - 1, dt, ymax, w);
        let before = points(vals, n - 1, dt, ymax, w);
        let now = points(vals, n, dt, ymax, w);
        assert forall|i: int| 0 <= i < now.len() implies 0 <= (#[trigger] now[i]).0 < n by {
            if i < before.len() {
                assert(now[i] == before[i]);
                assert(0 <= before[i].0 < n - 1);
            }
        }
    }
}

fn label_number(v: Binary64) -> (r: String)
    ensures
        r@ == grid_text(v),
{
    let tenth: Binary64 = Binary64::from_u64(1).over(Binary64::from_u64(10));
    if Binary64::from_u64(1_000_000).le(v) {
        let mut s: String = fixed::fixed(v.over(Binary64::from_u64(1_000_000)), 0);
        s.append("M");
        s
    } else if Binary64::from_u64(1000).le(v) {
        let mut s: String = fixed::fixed(v.over(Binary64::from_u64(1000)), 0);
        s.append("k");
        s
    } else if v.lt(tenth) {
        fixed::fixed(v, 2)
    } else if v.lt(Binary64::from_u64(1)) {
        fixed::fixed(v, 1)
    } else {
        fixed::fixed(v, 0)
    }
}

fn line_height(v: Binary64, ymax: Binary64, w: Dots) -> (r: Binary64)
    requires
        w.wf(),
    ensures
        r == grid_y(v, ymax, w),
{
    proof {
        accuracy::integers_keep_order(1, (w.height - 2) as nat);
    }
    value_height(v, ymax, w).clamp(
        Binary64::from_u64(1),
        Binary64::from_u64(w.height as u64 - 2),
    )
}

fn slot_at(y: Binary64, w: Dots) -> (r: u64)
    requires
        w.wf(),
    ensures
        r == slot_of(y, w),
{
    let rows: u64 = w.height as u64 / 4;
    let most: u64 = if rows < 2 {
        1
    } else {
        rows - 1
    };
    let top: Binary64 = top_dot(w);
    top.minus(y).times(Binary64::from_u64(most)).over(top).to_u64()
}

fn find_labels(g: &[Binary64], ymax: Binary64, w: Dots, unit: &str) -> (r: Vec<(Binary64, String)>)
    requires
        w.wf(),
    ensures
        labels_view(r@) == labels(g@, g@.len() as int, ymax, w, unit@).0,
{
    let mut r: Vec<(Binary64, String)> = Vec::new();
    let mut used: Option<u64> = None;
    let mut i: usize = 0;
    assert(labels_view(r@) =~= Seq::empty());
    while i < g.len()
        invariant
            i <= g@.len(),
            w.wf(),
            labels_view(r@) == labels(g@, i as int, ymax, w, unit@).0,
            used == labels(g@, i as int, ymax, w, unit@).1,
        decreases g@.len() - i,
    {
        let v: Binary64 = g[i];
        let y: Binary64 = line_height(v, ymax, w).plus(Binary64::from_u64(2));
        let slot: u64 = slot_at(y, w);
        let taken: bool = match used {
            Some(s) => s == slot,
            None => false,
        };
        if !taken {
            used = Some(slot);
            let mut t: String = label_number(v);
            if v.same(g[0]) {
                t.append(unit);
            }
            let ghost had = labels_view(r@);
            let ghost tv = t@;
            r.push((y, t));
            assert(labels_view(r@) =~= had.push((y, tv)));
        }
        i += 1;
    }
    r
}

fn find_grid(g: &[Binary64], ymax: Binary64, w: Dots) -> (r: Vec<Binary64>)
    requires
        w.wf(),
    ensures
        r@ == g@.map_values(|v: Binary64| grid_y(v, ymax, w)),
{
    let mut r: Vec<Binary64> = Vec::new();
    let mut i: usize = 0;
    while i < g.len()
        invariant
            i <= g@.len(),
            w.wf(),
            r@.len() == i,
            forall|j: int| 0 <= j < i ==> #[trigger] r@[j] == grid_y(g@[j], ymax, w),
        decreases g@.len() - i,
    {
        r.push(line_height(g[i], ymax, w));
        i += 1;
    }
    assert(r@ =~= g@.map_values(|v: Binary64| grid_y(v, ymax, w)));
    r
}

fn find_dashes(w: Dots) -> (r: Vec<(u32, u32)>)
    requires
        w.wf(),
    ensures
        r@ == Seq::new(((w.width + 4) / 5) as nat, |i: int| dash(i, w)),
{
    let n: u32 = (w.width + 4) / 5;
    let mut r: Vec<(u32, u32)> = Vec::new();
    let mut i: u32 = 0;
    while i < n
        invariant
            i <= n,
            n == (w.width + 4) / 5,
            w.wf(),
            r@.len() == i,
            forall|j: int| 0 <= j < i ==> #[trigger] r@[j] == dash(j, w),
        decreases n - i,
    {
        let from: u32 = 5 * i;
        let to: u32 = if from + 2 < w.width - 1 {
            from + 2
        } else {
            w.width - 1
        };
        r.push((from, to));
        i += 1;
    }
    assert(r@ =~= Seq::new(((w.width + 4) / 5) as nat, |i: int| dash(i, w)));
    r
}

/// Lays a graph out on a canvas of the given columns and rows, on a fixed axis of one
/// window with the newest sample at the right edge. Each sample holds for its interval;
/// an absent value breaks the fill, so that a gap is drawn and never bridged. There is
/// nothing to draw without intervals, without a scale, or without a canvas.
pub fn mini_line_graph(
    width: u16,
    height: u16,
    vals: &[Option<Binary64>],
    dt: &[Binary64],
    ymax: Binary64,
    dress: &PlotDress,
) -> (r: Option<Plot>)
    ensures
        plotted(r, width, height, vals@, dt@, ymax, dress@),
{
    if dt.len() == 0 || ymax.le(Binary64::from_bits(0)) || width == 0 || height == 0 {
        return None;
    }
    let dots: Dots = Dots { width: width as u32 * 2, height: height as u32 * 4 };
    let tops: Vec<(usize, Binary64, Binary64)> = find_points(vals, dt, ymax, dots);
    let over: Vec<(usize, Binary64, Binary64)> = match dress.overlay {
        Some(o) => find_points(o, dt, ymax, dots),
        None => Vec::new(),
    };
    let series_len: usize = match dress.overlay {
        Some(o) => o.len(),
        None => 0,
    };
    proof {
        let n = vals@.len() as int;
        lemma_points(vals@, n, dt@, ymax, dots);
        lemma_point_positions(vals@, n, dt@, ymax, dots);
        let t = points_view(tops@);
        assert forall|i: int| 0 <= i < tops@.len() implies on_canvas((#[trigger] tops@[i]).1) by {
            assert(on_canvas(t[i].1));
        }
        assert forall|i: int| 0 <= i < tops@.len() implies (#[trigger] tops@[i]).0 < n by {
            assert(t[i].0 < n);
        }
        let o = points_view(over@);
        assert(o =~= overlay_points(dress@.overlay, dt@, ymax, dots));
        if let Some(series) = dress.overlay {
            lemma_point_positions(series@, series_len as int, dt@, ymax, dots);
        }
        assert forall|i: int| 0 <= i < over@.len() implies (#[trigger] over@[i]).0 < usize::MAX by {
            assert(o[i].0 == over@[i].0);
        }
    }
    let part: Binary64 = Binary64::from_u64(8).over(Binary64::from_u64(100));
    Some(
        Plot {
            dots,
            grid: find_grid(dress.ref_lines, ymax, dots),
            dashes: find_dashes(dots),
            labels: find_labels(dress.ref_lines, ymax, dots, dress.unit),
            cols: find_cols(&tops, vals.len(), dots),
            overlay: find_segments(&over),
            ticks: find_marks(&dress.ticks, vals.len(), dt, dots),
            tick_height: top_dot(dots).times(part).max(Binary64::from_u64(2)),
        },
    )
}

/// The newest time stands in the last column.
pub proof fn newest_time_is_at_the_edge(span: Binary64, w: Dots)
    requires
        w.wf(),
        span.finite(),
    ensures
        axis_at(span, span, w) == w.last(),
{
    lemma_pow2_pos(1074);
    let p = pow2(1074);
    assert(rounding::magnitude(0) == 0);
    let gap = binary64::difference(span, span);
    assert(gap == binary64::zero());
    let window = binary64::seconds(WINDOWS[2] as nat);
    accuracy::lapses_are_positive(WINDOWS[2] as nat);
    accuracy::magnitudes_ascend(0, window.abs_bits());
    accuracy::zero_over(window.mag());
    accuracy::zero_over(p);
    assert(0 * p == 0) by (nonlinear_arith);
    assert(binary64::quotient(gap, window) == binary64::zero());
    let last = w.last();
    let n = (w.width - 1) as nat;
    accuracy::small_integers_are_exact(n);
    accuracy::integers_keep_order(0, n);
    assert(0 * last.mag() == 0) by (nonlinear_arith);
    assert(binary64::product(binary64::zero(), last) == binary64::zero());
    accuracy::rounding_keeps_numbers(last.abs_bits());
    assert(n * p > 0) by (nonlinear_arith)
        requires
            n > 0,
            p > 0,
    ;
    assert(binary64::difference(last, binary64::zero()) == last);
}

} // verus!
