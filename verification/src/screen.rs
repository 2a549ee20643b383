//! What one frame shows.

use vstd::prelude::*;

use crate::derive::{Alarms, Derived, Peaks};
use crate::detail;
use crate::detail::{
    banner_text, cache_col_kvs, compact_detail_text, graphs_shown, health_col_kvs, panel_heights,
    peaks_col_lines, quality_col_kvs, time_since, Heights,
};
use crate::lines;
use crate::lines::{Kv, Span, Tone};
use crate::panels;
use crate::panels::{header_line, hero_cells, lat_subtitle, latency_lines, Cell};
use crate::scrape::Shared;
use crate::ui;
use crate::ui::{is_compact, Overlay, RateGraph, Ui};

verus! {

/// The title of the status strip.
pub const HERO_TITLE: &'static str = "Engine status";

/// The title of the latency panel.
pub const LATENCY_TITLE: &'static str = "Latency — how long users wait to see words";

/// The title of the detail row in the compact layout.
pub const COMPACT_TITLE: &'static str = "Queues & health";

/// The titles of the columns of the detail row, and what stands on their lower borders.
pub const DETAIL_TITLES: [(&'static str, &'static str); 4] = [
    ("Generation", "in-flight request stats"),
    ("Cache", "prefix-cache hits, traffic and the L2 tiers"),
    ("Health & trouble", "anything here that is not zero deserves a look"),
    ("Peaks", "since vllm-top started"),
];

/// The detail row: two lines of text in the compact layout, four columns in the full one.
pub enum Detail {
    Compact(String),
    Columns {
        quality: Vec<Kv>,
        cache: Vec<Kv>,
        health: Vec<Kv>,
        peaks: Vec<Vec<Span>>,
    },
}

/// One frame.
pub struct Screen {
    /// The numbers behind the frame, none before the first sample.
    pub derived: Option<Derived>,
    pub compact: bool,
    pub heights: Heights,
    pub header: Vec<Span>,
    /// The cells of the status strip, none before the first sample.
    pub hero: Vec<Cell>,
    /// The rate graphs, from left to right, none before the first sample.
    pub graphs: Vec<RateGraph>,
    pub latency_gloss: String,
    pub latency: Vec<Vec<Span>>,
    /// Whether the latency panel carries its two plots.
    pub latency_plots: bool,
    pub detail: Detail,
    pub overlay: Overlay,
    pub banner: Option<(String, Tone)>,
}

/// The numbers by reference.
pub open spec fn known(d: &Option<Derived>) -> Option<&Derived> {
    match d {
        Some(x) => Some(x),
        None => None,
    }
}

/// The time since something happened, where it did.
pub open spec fn age_of(at: Option<u64>, now: u64) -> Option<u64> {
    match at {
        Some(t) => Some(detail::elapsed(t, now)),
        None => None,
    }
}

impl Detail {
    /// The detail row shows what is known, in the given layout.
    pub open spec fn shows(
        &self,
        d: Option<&Derived>,
        compact: bool,
        focus: int,
        a: Alarms,
        p: Peaks,
    ) -> bool {
        match self {
            Detail::Compact(text) => compact && text@ == detail::compact_detail(d, focus),
            Detail::Columns { quality, cache, health, peaks } => {
                &&& !compact
                &&& lines::kvs_view(quality@) == detail::quality_of(d)
                &&& lines::kvs_view(cache@) == detail::cache_of(d)
                &&& lines::kvs_view(health@) == detail::health_of(d, focus, a)
                &&& lines::lines_view(peaks@) == detail::peak_lines(p)
            },
        }
    }
}

impl Screen {
    /// The frame shows the shared state on a terminal of the given size.
    pub open spec fn shows(
        &self,
        ui: Ui,
        shared: Shared,
        cols: u16,
        rows: u16,
        now: u64,
    ) -> bool {
        let e = shared.history@;
        &&& self.derived is Some <==> e.len() > 0
        &&& self.derived is Some ==> (self.derived->0).derived_from(e, ui.window_focus)
        &&& self.lays_out(ui, shared, cols, rows, now)
    }

    /// The panels show the numbers at hand on a terminal of the given size.
    pub open spec fn lays_out(
        &self,
        ui: Ui,
        shared: Shared,
        cols: u16,
        rows: u16,
        now: u64,
    ) -> bool {
        let d = known(&self.derived);
        let age = age_of(shared.last_ok, now);
        &&& self.compact == match ui.compact {
            Some(c) => c,
            None => ui::small(cols, rows),
        }
        &&& self.heights == detail::heights(ui, self.compact, d, shared.alarms, shared.peaks)
        &&& lines::line_view(self.header@) == panels::header(
            ui,
            d,
            age_of(shared.history.first_seen, now),
            age,
        )
        &&& match d {
            Some(x) => panels::cells_view(self.hero@) == panels::hero(
                x,
                ui.window_focus as int,
            ) && self.graphs@ == detail::graphs_of_layout(ui, self.compact),
            None => self.hero@.len() == 0 && self.graphs@.len() == 0,
        }
        &&& self.latency_gloss@ == panels::latency_gloss(d)
        &&& lines::lines_view(self.latency@) == panels::latency_table(
            d,
            ui.window_focus as int,
            self.compact,
        )
        &&& self.latency_plots == (!self.compact && self.derived is Some)
        &&& self.detail.shows(
            d,
            self.compact,
            ui.window_focus as int,
            shared.alarms,
            shared.peaks,
        )
        &&& self.overlay == ui.overlay
        &&& match detail::banner(
            ui,
            detail::error_text(shared.last_error),
            self.derived is Some,
            age,
            now,
        ) {
            Some((text, tone)) => self.banner is Some && (self.banner->0).0@ == text && (
            self.banner->0).1 == tone,
            None => self.banner is None,
        }
    }
}

fn age_at(at: Option<u64>, now: u64) -> (r: Option<u64>)
    ensures
        r == age_of(at, now),
{
    match at {
        Some(t) => Some(time_since(t, now)),
        None => None,
    }
}

/// Plans one frame on a terminal of the given columns and rows.
pub fn draw(ui: &Ui, shared: &Shared, cols: u16, rows: u16, now: u64) -> (r: Screen)
    requires
        ui.wf(),
        shared.history.wf(),
    ensures
        r.shows(*ui, *shared, cols, rows, now),
{
    let derived: Option<Derived> = crate::derive::derive(&shared.history, ui.window_focus);
    let d: Option<&Derived> = match &derived {
        Some(x) => Some(x),
        None => None,
    };
    assert(d == known(&derived));
    let compact: bool = is_compact(ui, cols, rows);
    let age: Option<u64> = age_at(shared.last_ok, now);
    let uptime: Option<u64> = age_at(shared.history.first_seen, now);
    let heights: Heights = panel_heights(ui, compact, d, &shared.alarms, &shared.peaks);
    let header: Vec<Span> = header_line(ui, d, uptime, age);
    let hero: Vec<Cell> = match d {
        Some(x) => hero_cells(x, ui.window_focus),
        None => Vec::new(),
    };
    let graphs: Vec<RateGraph> = match d {
        Some(_) => graphs_shown(ui, compact),
        None => Vec::new(),
    };
    let latency_gloss: String = lat_subtitle(d);
    let latency: Vec<Vec<Span>> = latency_lines(d, ui.window_focus, compact);
    let latency_plots: bool = !compact && d.is_some();
    let row: Detail = if compact {
        Detail::Compact(compact_detail_text(d, ui.window_focus))
    } else {
        Detail::Columns {
            quality: quality_col_kvs(d),
            cache: cache_col_kvs(d),
            health: health_col_kvs(d, ui.window_focus, &shared.alarms),
            peaks: peaks_col_lines(&shared.peaks),
        }
    };
    let banner: Option<(String, Tone)> = banner_text(
        ui,
        &shared.last_error,
        d.is_some(),
        age,
        now,
    );
    Screen {
        derived,
        compact,
        heights,
        header,
        hero,
        graphs,
        latency_gloss,
        latency,
        latency_plots,
        detail: row,
        overlay: ui.overlay,
        banner,
    }
}

} // verus!
