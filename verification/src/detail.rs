//! The detail row, the banner and the heights of the panels.

use vstd::prelude::*;
use vstd::string::*;

use crate::binary64;
use crate::binary64::Binary64;
use crate::derive::{Alarms, Derived, Peaks, Stalls, WIN_LABELS};
use crate::figures;
use crate::figures::{fmt_num, fmt_pct, pad_right};
use crate::fixed;
use crate::fixed::{append_decimal, append_fixed};
use crate::history;
use crate::lines;
use crate::lines::{
    bold_span, line_of_two, plain_span, Kv, KvView, Span, SpanView, Tone,
};
use crate::panels;
use crate::panels::trouble_color;
use crate::ui;
use crate::ui::{age_is_stale, RateGraph, Ui};

verus! {

/// How speculative decoding does.
pub open spec fn quality_rows(d: &Derived) -> Seq<KvView> {
    let length = match d.spec_accept_len {
        Some(l) => seq![
            lines::kv_plain(
                "spec length"@,
                fixed::fixed_text(l, 2),
                "words gained per guess, on average"@,
            ),
        ],
        None => Seq::empty(),
    };
    seq![
        lines::kv_plain(
            "spec accept"@,
            figures::pct_text(d.spec_accept),
            "how often it guesses its own next words right — high = feels faster"@,
        ),
    ] + length
}

/// The rows of what is known, none before anything is.
pub open spec fn quality_of(d: Option<&Derived>) -> Seq<KvView> {
    match d {
        Some(x) => quality_rows(x),
        None => Seq::empty(),
    }
}

/// The rows on speculative decoding.
pub fn quality_col_kvs(d: Option<&Derived>) -> (r: Vec<Kv>)
    ensures
        lines::kvs_view(r@) == quality_of(d),
{
    let mut q: Vec<Kv> = Vec::new();
    if let Some(x) = d {
        q.push(
            Kv::plain(
                "spec accept",
                fmt_pct(x.spec_accept),
                "how often it guesses its own next words right — high = feels faster",
            ),
        );
        if let Some(l) = x.spec_accept_len {
            q.push(
                Kv::plain("spec length", fixed::fixed(l, 2), "words gained per guess, on average"),
            );
        }
    }
    assert(lines::kvs_view(q@) =~= quality_of(d));
    q
}

/// The colour of the cache hit rate.
pub open spec fn hit_tone(v: Option<Binary64>) -> Tone {
    match v {
        Some(x) => if binary64::less(x, history::half()) {
            Tone::Bad
        } else if binary64::less(x, crate::derive::hundredths(80)) {
            Tone::Warn
        } else {
            Tone::Good
        },
        None => Tone::Dim,
    }
}

fn hit_color(v: Option<Binary64>) -> (r: Tone)
    ensures
        r == hit_tone(v),
{
    match v {
        Some(x) => {
            let half: Binary64 = Binary64::from_u64(1).over(Binary64::from_u64(2));
            let high: Binary64 = Binary64::from_u64(80).over(Binary64::from_u64(100));
            if x.lt(half) {
                Tone::Bad
            } else if x.lt(high) {
                Tone::Warn
            } else {
                Tone::Good
            }
        },
        None => Tone::Dim,
    }
}

/// Two numbers with a dot between them.
pub open spec fn two_nums(a: Option<Binary64>, b: Option<Binary64>) -> Seq<char> {
    figures::num_text(a) + " · "@ + figures::num_text(b)
}

fn fmt_two(a: Option<Binary64>, b: Option<Binary64>) -> (r: String)
    ensures
        r@ == two_nums(a, b),
{
    let mut s: String = fmt_num(a);
    s.append(" · ");
    s.append(fmt_num(b).as_str());
    s
}

/// Cache hits, cached and computed throughput, preemptions and the traffic of the host
/// tier, which the engine reports in bytes.
pub open spec fn cache_rows(d: &Derived) -> Seq<KvView> {
    seq![
        lines::kv_colored(
            "cache hit"@,
            figures::pct_text(d.cache_hit),
            "share of each new prompt the prefix cache already holds — high = fast starts"@,
            hit_tone(d.cache_hit),
        ),
        lines::kv_plain(
            "cached·computed"@,
            two_nums(d.cache_cached, d.cache_computed),
            "tok/s served from the cache · cache misses the GPU computed"@,
        ),
        lines::kv_colored(
            "preempt/s"@,
            figures::num_text(d.evict_rate),
            "requests preempted to free KV space"@,
            panels::trouble_tone(d.evict_rate),
        ),
        lines::kv_plain(
            "offload st·ld"@,
            two_nums(d.l2_wb, d.l2_rb),
            "bytes/s stored to / loaded from the CPU KV cache"@,
        ),
        lines::kv_colored(
            "alloc fail/s"@,
            figures::num_text(d.l2_drop),
            "CPU KV offload allocations that failed"@,
            panels::trouble_tone(d.l2_drop),
        ),
    ]
}

/// The cache rows of what is known.
pub open spec fn cache_of(d: Option<&Derived>) -> Seq<KvView> {
    match d {
        Some(x) => cache_rows(x),
        None => Seq::empty(),
    }
}

/// The rows on the caches.
pub fn cache_col_kvs(d: Option<&Derived>) -> (r: Vec<Kv>)
    ensures
        lines::kvs_view(r@) == cache_of(d),
{
    let mut c: Vec<Kv> = Vec::new();
    if let Some(x) = d {
        c.push(
            Kv::colored(
                "cache hit",
                fmt_pct(x.cache_hit),
                "share of each new prompt the prefix cache already holds — high = fast starts",
                hit_color(x.cache_hit),
            ),
        );
        c.push(
            Kv::plain(
                "cached·computed",
                fmt_two(x.cache_cached, x.cache_computed),
                "tok/s served from the cache · cache misses the GPU computed",
            ),
        );
        c.push(
            Kv::colored(
                "preempt/s",
                fmt_num(x.evict_rate),
                "requests preempted to free KV space",
                trouble_color(x.evict_rate),
            ),
        );
        c.push(
            Kv::plain(
                "offload st·ld",
                fmt_two(x.l2_wb, x.l2_rb),
                "bytes/s stored to / loaded from the CPU KV cache",
            ),
        );
        c.push(
            Kv::colored(
                "alloc fail/s",
                fmt_num(x.l2_drop),
                "CPU KV offload allocations that failed",
                trouble_color(x.l2_drop),
            ),
        );
    }
    assert(lines::kvs_view(c@) =~= cache_of(d));
    c
}

/// The mean length of a stall.
pub open spec fn stall_mean(s: Stalls) -> Binary64 {
    if s.count > 0 {
        binary64::quotient(s.seconds, binary64::integer(s.count as nat))
    } else {
        binary64::zero()
    }
}

fn mean_stall(s: Stalls) -> (r: Binary64)
    ensures
        r == stall_mean(s),
{
    if s.count > 0 {
        s.seconds.over(Binary64::from_u64(s.count as u64))
    } else {
        Binary64::from_bits(0)
    }
}

/// The number of stalls and their mean length.
pub open spec fn stalls_text(s: Stalls, label: Seq<char>) -> Seq<char> {
    fixed::digits_text(s.count as nat) + " × "@ + fixed::fixed_text(stall_mean(s), 1) + "s in "@
        + label
}

fn append_stalls(out: &mut String, s: Stalls, label: &str)
    ensures
        final(out)@ == old(out)@ + stalls_text(s, label@),
{
    append_decimal(out, s.count as u64);
    out.append(" × ");
    append_fixed(out, mean_stall(s), 1);
    out.append("s in ");
    out.append(label);
    assert(out@ =~= old(out)@ + stalls_text(s, label@));
}

/// A row that shows only once its alarm fired.
pub open spec fn alarm_row(fired: bool, row: KvView) -> Seq<KvView> {
    if fired {
        seq![row]
    } else {
        Seq::empty()
    }
}

/// The names of the quiet alarms, with dots between them.
pub open spec fn quiet_names(a: Alarms) -> Seq<char> {
    let first = if a.abort {
        ""@
    } else {
        "abort"@
    };
    let second = if a.http_5xx {
        first
    } else if a.abort {
        first + "5xx"@
    } else {
        first + "·"@ + "5xx"@
    };
    if a.alloc_fail {
        second
    } else if a.abort && a.http_5xx {
        second + "alloc fail"@
    } else {
        second + "·"@ + "alloc fail"@
    }
}

fn append_quiet(out: &mut String, a: &Alarms)
    ensures
        final(out)@ == old(out)@ + quiet_names(*a),
{
    let ghost start = out@;
    out.append(if a.abort { "" } else { "abort" });
    if !a.http_5xx {
        if !a.abort {
            out.append("·");
        }
        out.append("5xx");
    }
    if !a.alloc_fail {
        if !(a.abort && a.http_5xx) {
            out.append("·");
        }
        out.append("alloc fail");
    }
    assert(out@ =~= start + quiet_names(*a));
}

/// The health rows: stalls always, alarms in full once they fired and in one dim line
/// while they are quiet.
pub open spec fn health_rows(d: &Derived, focus: int, a: Alarms) -> Seq<KvView> {
    let s = d.stalls[focus];
    let stalls = seq![
        lines::kv_colored(
            "stalls"@,
            if s.count > 0 {
                stalls_text(s, WIN_LABELS[focus]@)
            } else {
                "0"@
            },
            "moments when prefill work froze every stream"@,
            if s.count > 0 {
                Tone::Bad
            } else {
                Tone::Good
            },
        ),
    ];
    let abort = alarm_row(
        a.abort,
        lines::kv_colored(
            "abort/s"@,
            figures::num_text(d.retract_rate),
            "requests stopped mid-answer by the client"@,
            panels::trouble_tone(d.retract_rate),
        ),
    );
    let errors = alarm_row(
        a.http_5xx,
        lines::kv_colored(
            "5xx/s"@,
            figures::num_text(d.http_503_rate),
            "requests refused with a server error"@,
            panels::trouble_tone(d.http_503_rate),
        ),
    );
    let failures = alarm_row(
        a.alloc_fail,
        lines::kv_colored(
            "alloc fail/s"@,
            figures::num_text(d.l2_drop),
            "CPU KV offload allocations that failed"@,
            panels::trouble_tone(d.l2_drop),
        ),
    );
    let quiet = alarm_row(
        !(a.abort && a.http_5xx && a.alloc_fail),
        lines::kv_gloss("quiet: "@ + quiet_names(a)),
    );
    let scheduler = seq![
        lines::kv_plain(
            "sched cpu/s"@,
            fixed::fixed_text(panels::or_zero(d.cpu_scheduler), 1),
            ""@,
        ),
        lines::kv_gloss("scheduler compute"@),
    ];
    stalls + abort + errors + failures + quiet + scheduler
}

/// The health rows of what is known.
pub open spec fn health_of(d: Option<&Derived>, focus: int, a: Alarms) -> Seq<KvView> {
    match d {
        Some(x) => health_rows(x, focus, a),
        None => Seq::empty(),
    }
}

/// The rows on stalls, alarms and the scheduler.
pub fn health_col_kvs(d: Option<&Derived>, focus: usize, alarms: &Alarms) -> (r: Vec<Kv>)
    requires
        focus < 3,
    ensures
        lines::kvs_view(r@) == health_of(d, focus as int, *alarms),
{
    let mut h: Vec<Kv> = Vec::new();
    if let Some(x) = d {
        let s: Stalls = x.stalls[focus];
        let mut text: String = String::new();
        if s.count > 0 {
            append_stalls(&mut text, s, WIN_LABELS[focus]);
        } else {
            text.append("0");
        }
        assert(s.count > 0 ==> text@ =~= stalls_text(s, WIN_LABELS[focus as int]@));
        assert(s.count == 0 ==> text@ =~= "0"@);
        h.push(
            Kv::colored(
                "stalls",
                text,
                "moments when prefill work froze every stream",
                if s.count > 0 {
                    Tone::Bad
                } else {
                    Tone::Good
                },
            ),
        );
        if alarms.abort {
            h.push(
                Kv::colored(
                    "abort/s",
                    fmt_num(x.retract_rate),
                    "requests stopped mid-answer by the client",
                    trouble_color(x.retract_rate),
                ),
            );
        }
        if alarms.http_5xx {
            h.push(
                Kv::colored(
                    "5xx/s",
                    fmt_num(x.http_503_rate),
                    "requests refused with a server error",
                    trouble_color(x.http_503_rate),
                ),
            );
        }
        if alarms.alloc_fail {
            h.push(
                Kv::colored(
                    "alloc fail/s",
                    fmt_num(x.l2_drop),
                    "CPU KV offload allocations that failed",
                    trouble_color(x.l2_drop),
                ),
            );
        }
        if !(alarms.abort && alarms.http_5xx && alarms.alloc_fail) {
            let mut quiet: String = String::from_str("quiet: ");
            append_quiet(&mut quiet, alarms);
            h.push(Kv::gloss_only(quiet));
        }
        let cpu: Binary64 = match x.cpu_scheduler {
            Some(v) => v,
            None => Binary64::from_bits(0),
        };
        h.push(Kv::plain("sched cpu/s", fixed::fixed(cpu, 1), ""));
        h.push(Kv::gloss_only(String::from_str("scheduler compute")));
    }
    assert(lines::kvs_view(h@) =~= health_of(d, focus as int, *alarms));
    h
}

/// One peak.
pub open spec fn peak_line(label: Seq<char>, v: Option<Binary64>, tone: Tone) -> Seq<SpanView> {
    seq![
        lines::plain(" "@ + figures::padded_right(label, 9), Tone::Dim),
        lines::bold(
            match v {
                Some(x) => fixed::fixed_text(x, 0) + " tok/s"@,
                None => figures::missing(),
            },
            tone,
        ),
    ]
}

fn make_peak_line(label: &str, v: Option<Binary64>, tone: Tone) -> (r: Vec<Span>)
    ensures
        lines::line_view(r@) == peak_line(label@, v, tone),
{
    let mut s: String = String::from_str(" ");
    s.append(pad_right(label, 9).as_str());
    let text: String = match v {
        Some(x) => {
            let mut t: String = fixed::fixed(x, 0);
            t.append(" tok/s");
            t
        },
        None => String::from_str("—"),
    };
    line_of_two(plain_span(s, Tone::Dim), bold_span(text, tone))
}

/// The session peaks.
pub open spec fn peak_lines(p: Peaks) -> Seq<Seq<SpanView>> {
    seq![
        peak_line("decode"@, p.decode, Tone::Fg),
        peak_line("prefill"@, p.prefill, Tone::Fg),
        peak_line("single"@, p.decode_single, Tone::S3),
    ]
}

/// The lines of the session peaks.
pub fn peaks_col_lines(peaks: &Peaks) -> (r: Vec<Vec<Span>>)
    ensures
        lines::lines_view(r@) == peak_lines(*peaks),
{
    let mut r: Vec<Vec<Span>> = Vec::new();
    r.push(make_peak_line("decode", peaks.decode, Tone::Fg));
    r.push(make_peak_line("prefill", peaks.prefill, Tone::Fg));
    r.push(make_peak_line("single", peaks.decode_single, Tone::S3));
    assert(lines::lines_view(r@) =~= peak_lines(*peaks));
    r
}

/// The larger of two lengths.
pub open spec fn larger_of(a: nat, b: nat) -> nat {
    if a > b {
        a
    } else {
        b
    }
}

/// The height of the detail row: its longest column and the borders, between eight and
/// fourteen.
pub open spec fn detail_rows(d: Option<&Derived>, focus: int, a: Alarms, p: Peaks) -> nat {
    let n = larger_of(
        larger_of(quality_of(d).len(), cache_of(d).len()),
        larger_of(health_of(d, focus, a).len(), peak_lines(p).len()),
    ) + 2;
    if n < 8 {
        8
    } else if n > 14 {
        14
    } else {
        n
    }
}

fn longer(a: usize, b: usize) -> (r: usize)
    ensures
        r == larger_of(a as nat, b as nat),
{
    if a > b {
        a
    } else {
        b
    }
}

/// The height of the detail row. A latched alarm adds its row to the health column.
pub fn detail_height(d: Option<&Derived>, focus: usize, alarms: &Alarms, peaks: &Peaks) -> (r: u16)
    requires
        focus < 3,
    ensures
        r == detail_rows(d, focus as int, *alarms, *peaks),
        8 <= r <= 14,
{
    let q: Vec<Kv> = quality_col_kvs(d);
    let c: Vec<Kv> = cache_col_kvs(d);
    let h: Vec<Kv> = health_col_kvs(d, focus, alarms);
    let l: Vec<Vec<Span>> = peaks_col_lines(peaks);
    proof {
        assert(lines::kvs_view(q@).len() == q@.len());
        assert(lines::kvs_view(c@).len() == c@.len());
        assert(lines::kvs_view(h@).len() == h@.len());
        assert(lines::lines_view(l@).len() == l@.len());
    }
    let n: usize = longer(longer(q.len(), c.len()), longer(h.len(), l.len()));
    if n < 6 {
        8
    } else if n > 12 {
        14
    } else {
        n as u16 + 2
    }
}

/// The detail row of the compact layout, two lines.
pub open spec fn compact_detail(d: Option<&Derived>, focus: int) -> Seq<char> {
    match d {
        Some(x) => "cache hit "@ + figures::pct_text(x.cache_hit) + " · cached·computed "@
            + figures::num_text(x.cache_cached) + "·"@ + figures::num_text(x.cache_computed)
            + " · spec accept "@ + figures::pct_text(x.spec_accept) + "\n"@ + "stalls "@
            + stalls_text(x.stalls[focus], WIN_LABELS[focus]@) + " · preempt/s "@
            + figures::num_text(x.evict_rate) + " · abort/s "@ + figures::num_text(x.retract_rate)
            + " · 5xx/s "@ + figures::num_text(x.http_503_rate),
        None => ""@,
    }
}

/// The detail row of the compact layout.
pub fn compact_detail_text(d: Option<&Derived>, focus: usize) -> (r: String)
    requires
        focus < 3,
    ensures
        r@ == compact_detail(d, focus as int),
{
    match d {
        Some(x) => {
            let mut s: String = String::from_str("cache hit ");
            s.append(fmt_pct(x.cache_hit).as_str());
            s.append(" · cached·computed ");
            s.append(fmt_num(x.cache_cached).as_str());
            s.append("·");
            s.append(fmt_num(x.cache_computed).as_str());
            s.append(" · spec accept ");
            s.append(fmt_pct(x.spec_accept).as_str());
            s.append("\n");
            s.append("stalls ");
            append_stalls(&mut s, x.stalls[focus], WIN_LABELS[focus]);
            s.append(" · preempt/s ");
            s.append(fmt_num(x.evict_rate).as_str());
            s.append(" · abort/s ");
            s.append(fmt_num(x.retract_rate).as_str());
            s.append(" · 5xx/s ");
            s.append(fmt_num(x.http_503_rate).as_str());
            s
        },
        None => String::from_str(""),
    }
}

/// The time from `since` to `now`, none where it lies ahead.
pub open spec fn elapsed(since: u64, now: u64) -> u64 {
    if now >= since {
        (now - since) as u64
    } else {
        0
    }
}

/// The time from `since` to `now`.
pub fn time_since(since: u64, now: u64) -> (r: u64)
    ensures
        r == elapsed(since, now),
{
    if now >= since {
        now - since
    } else {
        0
    }
}

/// The banner over the last row: that scraping is paused, or else that the connection is
/// lost and the data is stale or was never there.
pub open spec fn banner(
    ui: Ui,
    error: Option<Seq<char>>,
    known: bool,
    age: Option<u64>,
    now: u64,
) -> Option<(Seq<char>, Tone)> {
    match (ui.paused_since, error) {
        (Some(since), _) => Some(
            (
                "⏸ paused "@ + fixed::digits_text(elapsed(since, now) as nat / 1_000_000_000)
                    + "s — press space to resume"@,
                Tone::Warn,
            ),
        ),
        (None, Some(e)) => if !known || ui::stale(age, ui.interval) {
            let a = match age {
                Some(n) => n as nat / 1_000_000_000,
                None => 0,
            };
            Some(
                (
                    "⚠ connection lost — retrying… last data "@ + fixed::digits_text(a)
                        + "s ago — "@ + e,
                    Tone::Bad,
                ),
            )
        } else {
            None
        },
        (None, None) => None,
    }
}

/// The text of an error slot.
pub open spec fn error_text(e: Option<String>) -> Option<Seq<char>> {
    match e {
        Some(s) => Some(s@),
        None => None,
    }
}

/// The banner over the last row, where there is cause for one.
pub fn banner_text(ui: &Ui, error: &Option<String>, known: bool, age: Option<u64>, now: u64) -> (r:
    Option<(String, Tone)>)
    requires
        ui.wf(),
    ensures
        match banner(*ui, error_text(*error), known, age, now) {
            Some((s, t)) => r is Some && (r->0).0@ == s && (r->0).1 == t,
            None => r is None,
        },
{
    if let Some(since) = ui.paused_since {
        let mut s: String = String::from_str("⏸ paused ");
        append_decimal(&mut s, time_since(since, now) / 1_000_000_000);
        s.append("s — press space to resume");
        return Some((s, Tone::Warn));
    }
    if let Some(e) = error {
        if !known || age_is_stale(age, ui) {
            let a: u64 = match age {
                Some(n) => n / 1_000_000_000,
                None => 0,
            };
            let mut s: String = String::from_str("⚠ connection lost — retrying… last data ");
            append_decimal(&mut s, a);
            s.append("s ago — ");
            s.append(e.as_str());
            return Some((s, Tone::Bad));
        }
    }
    None
}

/// The heights of the panels. The graphs take at least their height and all spare rows.
#[derive(Clone, Copy, Debug, PartialEq, Eq, Structural)]
pub struct Heights {
    pub header: u16,
    pub hero: u16,
    pub graphs: Option<u16>,
    pub latency: u16,
    pub detail: u16,
}

/// The heights of the panels.
pub open spec fn heights(
    ui: Ui,
    compact: bool,
    d: Option<&Derived>,
    a: Alarms,
    p: Peaks,
) -> Heights {
    Heights {
        header: 1,
        hero: if compact {
            3
        } else {
            7
        },
        graphs: if !ui.graphs_on {
            None
        } else if compact {
            Some(3)
        } else {
            Some(7)
        },
        latency: if compact {
            5
        } else {
            8
        },
        detail: if compact {
            3
        } else {
            detail_rows(d, ui.window_focus as int, a, p) as u16
        },
    }
}

/// Plans the heights of the panels.
pub fn panel_heights(
    ui: &Ui,
    compact: bool,
    d: Option<&Derived>,
    alarms: &Alarms,
    peaks: &Peaks,
) -> (r: Heights)
    requires
        ui.wf(),
    ensures
        r == heights(*ui, compact, d, *alarms, *peaks),
{
    Heights {
        header: 1,
        hero: if compact {
            3
        } else {
            7
        },
        graphs: if !ui.graphs_on {
            None
        } else if compact {
            Some(3)
        } else {
            Some(7)
        },
        latency: if compact {
            5
        } else {
            8
        },
        detail: if compact {
            3
        } else {
            detail_height(d, ui.window_focus, alarms, peaks)
        },
    }
}

/// The shares of the columns of the status strip, in percent.
pub const HERO_COLUMNS: [u16; 6] = [12, 12, 27, 18, 12, 19];

/// The shares of the columns of the detail row, in percent.
pub const DETAIL_COLUMNS: [u16; 4] = [24, 24, 28, 24];

/// The shares of the rate graphs of the full layout, in percent.
pub const GRAPH_COLUMNS: [u16; 2] = [50, 50];

/// The share of the one rate graph of the compact layout, in percent.
pub const COMPACT_GRAPH_COLUMNS: [u16; 1] = [100];

/// The shares of the latency table and of the latency plots, in percent.
pub const LATENCY_COLUMNS: [u16; 2] = [40, 60];

/// The shares of the two latency plots, in percent.
pub const LATENCY_PLOT_COLUMNS: [u16; 2] = [50, 50];

/// The rate graphs of a layout: both in the full one, decode alone in the compact one.
pub open spec fn graphs_of_layout(ui: Ui, compact: bool) -> Seq<RateGraph> {
    if !ui.graphs_on {
        Seq::empty()
    } else if compact {
        seq![RateGraph::Decode]
    } else {
        seq![RateGraph::Prefill, RateGraph::Decode]
    }
}

/// The rate graphs of a layout, from left to right.
pub fn graphs_shown(ui: &Ui, compact: bool) -> (r: Vec<RateGraph>)
    ensures
        r@ == graphs_of_layout(*ui, compact),
{
    let mut r: Vec<RateGraph> = Vec::new();
    if ui.graphs_on {
        if !compact {
            r.push(RateGraph::Prefill);
        }
        r.push(RateGraph::Decode);
    }
    assert(ui.graphs_on && compact ==> r@ =~= seq![RateGraph::Decode]);
    assert(ui.graphs_on && !compact ==> r@ =~= seq![RateGraph::Prefill, RateGraph::Decode]);
    r
}

} // verus!
