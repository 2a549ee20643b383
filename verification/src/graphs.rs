//! The four graphs of the screen: which lane each one plots, and what it carries.

use vstd::prelude::*;

use crate::binary64::Binary64;
use crate::decade;
use crate::derive::{Derived, Peaks};
use crate::panels;
use crate::panels::{cache_miss_plot_face, rate_graph_face, ttft_plot_face};
use crate::plot;
use crate::plot::{grid_for_scale, mini_line_graph, DressView, Plot, PlotDress, Ticks, TicksView};
use crate::ui::RateGraph;

verus! {

/// The grid lines of a graph that shows values up to `scale`.
pub open spec fn grid_lines(scale: Binary64) -> Seq<Binary64> {
    plot::grid_values(scale, decade::decade_of(scale))
}

/// The top of a graph that shows values up to `scale`.
pub open spec fn grid_end(scale: Binary64) -> Binary64 {
    plot::scale_top(scale, decade::decade_of(scale))
}

/// Every value is measured.
pub open spec fn all_measured(v: Seq<Binary64>) -> Seq<Option<Binary64>> {
    v.map_values(|x: Binary64| Some(x))
}

fn measure_all(v: &Vec<Binary64>) -> (r: Vec<Option<Binary64>>)
    ensures
        r@ == all_measured(v@),
{
    let mut r: Vec<Option<Binary64>> = Vec::new();
    let mut i: usize = 0;
    while i < v.len()
        invariant
            i <= v@.len(),
            r@ == all_measured(v@.take(i as int)),
        decreases v@.len() - i,
    {
        r.push(Some(v[i]));
        i += 1;
        assert(r@ =~= all_measured(v@.take(i as int)));
    }
    assert(v@.take(i as int) =~= v@);
    r
}

/// The lane of a rate graph.
pub open spec fn rate_values(d: &Derived, which: RateGraph) -> Seq<Option<Binary64>> {
    match which {
        RateGraph::Prefill => all_measured(d.graphs.prefill.vals@),
        RateGraph::Decode => all_measured(d.graphs.decode.vals@),
    }
}

/// What a rate graph carries: the decode graph marks the stalled intervals and draws the
/// rate per stream over its fill, the prefill graph neither.
pub open spec fn rate_dress(
    d: &Derived,
    which: RateGraph,
    peaks: Peaks,
) -> DressView {
    DressView {
        unit: " tok/s"@,
        ticks: match which {
            RateGraph::Prefill => None,
            RateGraph::Decode => Some(TicksView { stall: d.graphs.stall@, evict: None }),
        },
        overlay: match which {
            RateGraph::Prefill => None,
            RateGraph::Decode => Some(d.graphs.per_stream@),
        },
        ref_lines: grid_lines(panels::rate_scale(d, which, peaks)),
    }
}

/// Lays out a rate graph.
pub fn rate_plot(
    d: &Derived,
    which: RateGraph,
    peaks: &Peaks,
    width: u16,
    height: u16,
) -> (r: Option<Plot>)
    ensures
        plot::plotted(
            r,
            width,
            height,
            rate_values(d, which),
            d.graphs.dt@,
            grid_end(panels::rate_scale(d, which, *peaks)),
            rate_dress(d, which, *peaks),
        ),
{
    let (lines, top) = grid_for_scale(rate_graph_face(d, which, peaks).scale);
    match which {
        RateGraph::Prefill => {
            let vals: Vec<Option<Binary64>> = measure_all(&d.graphs.prefill.vals);
            let dress: PlotDress = PlotDress {
                unit: " tok/s",
                ticks: None,
                overlay: None,
                ref_lines: lines.as_slice(),
            };
            mini_line_graph(width, height, vals.as_slice(), d.graphs.dt.as_slice(), top, &dress)
        },
        RateGraph::Decode => {
            let vals: Vec<Option<Binary64>> = measure_all(&d.graphs.decode.vals);
            let dress: PlotDress = PlotDress {
                unit: " tok/s",
                ticks: Some(Ticks { stall: d.graphs.stall.as_slice(), evict: None }),
                overlay: Some(d.graphs.per_stream.as_slice()),
                ref_lines: lines.as_slice(),
            };
            mini_line_graph(width, height, vals.as_slice(), d.graphs.dt.as_slice(), top, &dress)
        },
    }
}

/// What a latency plot carries: marks on the stalled intervals and on those with
/// preemptions.
pub open spec fn latency_dress(
    d: &Derived,
    unit: Seq<char>,
    scale: Binary64,
) -> DressView {
    DressView {
        unit,
        ticks: Some(
            TicksView { stall: d.graphs.stall@, evict: Some(d.graphs.evictions.vals@) },
        ),
        overlay: None,
        ref_lines: grid_lines(scale),
    }
}

fn latency_plot(
    d: &Derived,
    vals: &Vec<Option<Binary64>>,
    unit: &str,
    scale: Binary64,
    width: u16,
    height: u16,
) -> (r: Option<Plot>)
    ensures
        plot::plotted(
            r,
            width,
            height,
            vals@,
            d.graphs.dt@,
            grid_end(scale),
            latency_dress(d, unit@, scale),
        ),
{
    let (lines, top) = grid_for_scale(scale);
    let dress: PlotDress = PlotDress {
        unit,
        ticks: Some(
            Ticks {
                stall: d.graphs.stall.as_slice(),
                evict: Some(d.graphs.evictions.vals.as_slice()),
            },
        ),
        overlay: None,
        ref_lines: lines.as_slice(),
    };
    mini_line_graph(width, height, vals.as_slice(), d.graphs.dt.as_slice(), top, &dress)
}

/// Lays out the plot of the time to the first token, in seconds.
pub fn ttft_plot(d: &Derived, width: u16, height: u16) -> (r: Option<Plot>)
    ensures
        plot::plotted(
            r,
            width,
            height,
            d.graphs.ttft_p95@,
            d.graphs.dt@,
            grid_end(panels::ttft_face(d).scale),
            latency_dress(d, "s"@, panels::ttft_face(d).scale),
        ),
{
    latency_plot(d, &d.graphs.ttft_p95, "s", ttft_plot_face(d).scale, width, height)
}

/// Lays out the plot of cache misses, in tokens per second.
pub fn cache_miss_plot(d: &Derived, width: u16, height: u16) -> (r: Option<Plot>)
    ensures
        plot::plotted(
            r,
            width,
            height,
            d.graphs.cache_misses@,
            d.graphs.dt@,
            grid_end(panels::miss_face(d).scale),
            latency_dress(d, " tok/s"@, panels::miss_face(d).scale),
        ),
{
    latency_plot(
        d,
        &d.graphs.cache_misses,
        " tok/s",
        cache_miss_plot_face(d).scale,
        width,
        height,
    )
}

} // verus!
