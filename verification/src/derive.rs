//! Everything that is shown, derived from the ring of samples.

use vstd::prelude::*;
use vstd::string::*;

use crate::binary64;
use crate::binary64::Binary64;
use crate::decimal;
use crate::decimal::parse_literal;
use crate::history;
use crate::history::{add_rises, hist_window_p95, Entry, EntryView, History};
use crate::metrics;
use crate::metrics::{find_label, Sample, SampleView};
use crate::order;
use crate::order::arrange;
use crate::series;
use crate::series::{KeyView, SeriesKey};
use crate::text::{chars_of, copied, same_text};

verus! {

/// The windows over which rates and quantiles are taken, in nanoseconds.
pub const WINDOWS: [u64; 3] = [5_000_000_000, 15_000_000_000, 60_000_000_000];

/// The names of the windows.
pub const WIN_LABELS: [&'static str; 3] = ["5s", "15s", "60s"];

/// The counter of generated tokens.
pub const GEN_TOTAL: &'static str = "vllm:generation_tokens_total";

/// The counter of prompt tokens, split by where the tokens came from. The tokens that
/// were computed are the text that the prefix cache did not hold: the total counts cache
/// hits too, so it is no prefill rate.
pub const PROMPT_BY_SOURCE: &'static str = "vllm:prompt_tokens_by_source_total";

/// The source of the tokens that were computed.
pub const SOURCE_COMPUTE: &'static str = "local_compute";

/// The sources that count as cache hits: the prefix cache and external transfer.
pub const SOURCE_LOCAL_HIT: &'static str = "local_cache_hit";

pub const SOURCE_EXTERNAL: &'static str = "external_kv_transfer";

/// The gauge of running requests.
pub const RUNNING: &'static str = "vllm:num_requests_running";

/// The gauge of queued requests.
pub const WAITING: &'static str = "vllm:num_requests_waiting";

/// The counter of preemptions.
pub const PREEMPTIONS: &'static str = "vllm:num_preemptions_total";

/// The histogram of the time to the first token.
pub const TTFT: &'static str = "vllm:time_to_first_token_seconds";

/// The series of a family.
pub open spec fn family(name: Seq<char>) -> spec_fn(KeyView) -> bool {
    |k: KeyView| k.name == name
}

/// The series of a family that carry a label.
pub open spec fn labelled(name: Seq<char>, lk: Seq<char>, lv: Seq<char>) -> spec_fn(
    KeyView,
) -> bool {
    |k: KeyView| k.name == name && k.has_label(lk, lv)
}

/// The decoded tokens.
pub open spec fn decoded() -> spec_fn(KeyView) -> bool {
    family(GEN_TOTAL@)
}

/// The computed prompt tokens.
pub open spec fn computed() -> spec_fn(KeyView) -> bool {
    labelled(PROMPT_BY_SOURCE@, "source"@, SOURCE_COMPUTE@)
}

/// The prompt tokens that a cache served.
pub open spec fn cached() -> spec_fn(KeyView) -> bool {
    |k: KeyView|
        k.name == PROMPT_BY_SOURCE@ && (k.has_label("source"@, SOURCE_LOCAL_HIT@) || k.has_label(
            "source"@,
            SOURCE_EXTERNAL@,
        ))
}

/// Decides whether a series belongs to a family.
pub fn fam(name: &'static str) -> (f: impl Fn(&SeriesKey) -> bool + Copy)
    ensures
        history::askable(f),
        history::agrees(f, family(name@)),
{
    move |k: &SeriesKey| -> (b: bool)
        ensures
            b == (k@.name == name@),
        { same_text(k.name.as_str(), name) }
}

/// Decides whether a series belongs to a family and carries a label.
pub fn fam_labeled(name: &'static str, lk: &'static str, lv: &'static str) -> (f: impl Fn(
    &SeriesKey,
) -> bool + Copy)
    ensures
        history::askable(f),
        history::agrees(f, labelled(name@, lk@, lv@)),
{
    move |k: &SeriesKey| -> (b: bool)
        ensures
            b == (k@.name == name@ && k@.has_label(lk@, lv@)),
        { same_text(k.name.as_str(), name) && k.has_label(lk, lv) }
}

/// Decides whether a series counts decoded tokens.
pub fn decode_lane() -> (f: impl Fn(&SeriesKey) -> bool + Copy)
    ensures
        history::askable(f),
        history::agrees(f, decoded()),
{
    fam(GEN_TOTAL)
}

/// Decides whether a series counts prefilled tokens: those that were computed.
pub fn prefill_lane() -> (f: impl Fn(&SeriesKey) -> bool + Copy)
    ensures
        history::askable(f),
        history::agrees(f, computed()),
{
    fam_labeled(PROMPT_BY_SOURCE, "source", SOURCE_COMPUTE)
}

/// Decides whether a series counts prompt tokens that missed the cache.
pub fn input_lane() -> (f: impl Fn(&SeriesKey) -> bool + Copy)
    ensures
        history::askable(f),
        history::agrees(f, computed()),
{
    fam_labeled(PROMPT_BY_SOURCE, "source", SOURCE_COMPUTE)
}

/// Decides whether a series counts prompt tokens that a cache served.
pub fn any_hit_lane() -> (f: impl Fn(&SeriesKey) -> bool + Copy)
    ensures
        history::askable(f),
        history::agrees(f, cached()),
{
    move |k: &SeriesKey| -> (b: bool)
        ensures
            b == (k@.name == PROMPT_BY_SOURCE@ && (k@.has_label("source"@, SOURCE_LOCAL_HIT@)
                || k@.has_label("source"@, SOURCE_EXTERNAL@))),
        {
            same_text(k.name.as_str(), PROMPT_BY_SOURCE) && (k.has_label("source", SOURCE_LOCAL_HIT)
                || k.has_label("source", SOURCE_EXTERNAL))
        }
}

/// One rate lane over the trailing 60s window: one rate per scrape interval, with the
/// presence of the series at its two ends.
#[derive(Debug)]
pub struct Lane {
    /// The rate per scrape interval. An interval whose series is missing at either end
    /// pairs nothing and reads zero: absence of data, never a measured collapse.
    pub vals: Vec<Binary64>,
    /// The earlier sample of the interval lacks the series.
    pub absent_old: Vec<bool>,
    /// The later sample of the interval lacks the series.
    pub absent_new: Vec<bool>,
}

/// What a lane stands for.
pub struct LaneView {
    pub vals: Seq<Binary64>,
    pub absent_old: Seq<bool>,
    pub absent_new: Seq<bool>,
}

impl View for Lane {
    type V = LaneView;

    open spec fn view(&self) -> LaneView {
        LaneView {
            vals: self.vals@,
            absent_old: self.absent_old@,
            absent_new: self.absent_new@,
        }
    }
}

/// The trailing 60s window in the shape that the graphs draw, from one pass over the
/// ring.
#[derive(Debug)]
pub struct Graphs {
    pub decode: Lane,
    pub prefill: Lane,
    /// The stalled intervals.
    pub stall: Vec<bool>,
    /// Preemptions per second; a positive value draws a tick on the latency plot.
    pub evictions: Lane,
    /// The 95th percentile of the time to the first token, from the first sample of the
    /// window to the later sample of the interval. A gap is absence of measured data.
    pub ttft_p95: Vec<Option<Binary64>>,
    /// Computed prompt tokens per second; a gap where an end of the interval lacks them.
    pub cache_misses: Vec<Option<Binary64>>,
    /// The decode rate over the number of running requests, while any are running and
    /// the decode series stands at both ends.
    pub per_stream: Vec<Option<Binary64>>,
    /// The length of each interval in seconds.
    pub dt: Vec<Binary64>,
}

/// What the graphs stand for.
pub struct GraphsView {
    pub decode: LaneView,
    pub prefill: LaneView,
    pub stall: Seq<bool>,
    pub evictions: LaneView,
    pub ttft_p95: Seq<Option<Binary64>>,
    pub cache_misses: Seq<Option<Binary64>>,
    pub per_stream: Seq<Option<Binary64>>,
    pub dt: Seq<Binary64>,
}

impl View for Graphs {
    type V = GraphsView;

    open spec fn view(&self) -> GraphsView {
        GraphsView {
            decode: self.decode@,
            prefill: self.prefill@,
            stall: self.stall@,
            evictions: self.evictions@,
            ttft_p95: self.ttft_p95@,
            cache_misses: self.cache_misses@,
            per_stream: self.per_stream@,
            dt: self.dt@,
        }
    }
}

/// Whether any series of the sample meets `p`.
pub open spec fn carries(s: SampleView, p: spec_fn(KeyView) -> bool) -> bool {
    exists|i: int| 0 <= i < s.simple.len() && p((#[trigger] s.simple[i]).0)
}

/// What the series that meet `p` rose by between two samples.
pub open spec fn rise(old: SampleView, new: SampleView, p: spec_fn(KeyView) -> bool) -> Binary64 {
    history::paired((binary64::zero(), false), old.simple, new.simple, p).0
}

/// The number of intervals between entries.
pub open spec fn intervals(w: Seq<EntryView>) -> nat {
    if w.len() == 0 {
        0
    } else {
        (w.len() - 1) as nat
    }
}

/// The length of an interval in seconds.
pub open spec fn lapse(w: Seq<EntryView>, i: int) -> Binary64 {
    binary64::seconds((w[i + 1].t - w[i].t) as nat)
}

/// The rate over an interval.
pub open spec fn interval_rate(w: Seq<EntryView>, i: int, p: spec_fn(KeyView) -> bool) -> Binary64 {
    binary64::quotient(rise(w[i].sample, w[i + 1].sample, p), lapse(w, i))
}

/// The lane of the series that meet `p`.
pub open spec fn lane(w: Seq<EntryView>, p: spec_fn(KeyView) -> bool) -> LaneView {
    LaneView {
        vals: Seq::new(intervals(w), |i: int| interval_rate(w, i, p)),
        absent_old: Seq::new(intervals(w), |i: int| !carries(w[i].sample, p)),
        absent_new: Seq::new(intervals(w), |i: int| !carries(w[i + 1].sample, p)),
    }
}

/// A gauge of a sample, zero where it is absent.
pub open spec fn gauge_or_zero(s: SampleView, name: Seq<char>) -> Binary64 {
    match s.gauge(name) {
        Some(v) => v,
        None => binary64::zero(),
    }
}

/// The number is above zero.
pub open spec fn positive(x: Binary64) -> bool {
    binary64::less(binary64::zero(), x)
}

/// The middle of the values in ascending order, the upper one of two; zero where there
/// are none.
pub open spec fn median(v: Seq<Binary64>) -> Binary64 {
    if v.len() == 0 {
        binary64::zero()
    } else {
        order::arranged(v.map_values(|x: Binary64| (x, x)))[(v.len() / 2) as int].0
    }
}

/// One quarter.
pub open spec fn quarter() -> Binary64 {
    binary64::quotient(binary64::integer(1), binary64::integer(4))
}

/// The interval leads out of a gap: its earlier sample lacks the decode series, which an
/// earlier sample of the window carried. A first appearance is no gap.
pub open spec fn out_of_gap(w: Seq<EntryView>, i: int) -> bool {
    &&& !carries(w[i].sample, decoded())
    &&& exists|j: int| 0 <= j < i && carries((#[trigger] w[j]).sample, decoded())
}

/// The decode rate of an interval that carries the series at both ends lies below a
/// quarter of the median over the whole window.
pub open spec fn collapsed(w: Seq<EntryView>, i: int) -> bool {
    &&& carries(w[i].sample, decoded())
    &&& carries(w[i + 1].sample, decoded())
    &&& binary64::less(
        interval_rate(w, i, decoded()),
        binary64::product(quarter(), median(lane(w, decoded()).vals)),
    )
}

/// Requests were running over the interval while a prefill was computing.
pub open spec fn prefilling(w: Seq<EntryView>, i: int) -> bool {
    positive(gauge_or_zero(w[i + 1].sample, RUNNING@)) && positive(
        interval_rate(w, i, computed()),
    )
}

/// Requests were running over the interval while others were queued.
pub open spec fn queueing(w: Seq<EntryView>, i: int) -> bool {
    positive(gauge_or_zero(w[i + 1].sample, RUNNING@)) && positive(
        gauge_or_zero(w[i + 1].sample, WAITING@),
    )
}

/// An interval is stalled when requests were running and either decode output collapsed
/// while a prefill was computing or requests were queued, or it could not be read after
/// it had been seen, while a prefill was computing.
pub open spec fn stalled(w: Seq<EntryView>, i: int) -> bool {
    ||| collapsed(w, i) && (prefilling(w, i) || queueing(w, i))
    ||| out_of_gap(w, i) && prefilling(w, i)
}

/// The computed prompt tokens per second, where both ends carry them.
pub open spec fn misses(w: Seq<EntryView>, i: int) -> Option<Binary64> {
    if carries(w[i].sample, computed()) && carries(w[i + 1].sample, computed()) {
        Some(interval_rate(w, i, computed()))
    } else {
        None
    }
}

/// The decode rate per running request, while there are any and both ends carry the
/// decode series.
pub open spec fn stream_rate(w: Seq<EntryView>, i: int) -> Option<Binary64> {
    let running = gauge_or_zero(w[i + 1].sample, RUNNING@);
    if positive(running) && carries(w[i].sample, decoded()) && carries(
        w[i + 1].sample,
        decoded(),
    ) {
        Some(binary64::quotient(interval_rate(w, i, decoded()), running))
    } else {
        None
    }
}

/// The graphs of a window.
pub open spec fn graphs_of(w: Seq<EntryView>) -> GraphsView {
    GraphsView {
        decode: lane(w, decoded()),
        prefill: lane(w, computed()),
        stall: Seq::new(intervals(w), |i: int| stalled(w, i)),
        evictions: lane(w, family(PREEMPTIONS@)),
        ttft_p95: Seq::new(
            intervals(w),
            |i: int| history::span_p95(w[0].sample, w[i + 1].sample, family(TTFT@)),
        ),
        cache_misses: Seq::new(intervals(w), |i: int| misses(w, i)),
        per_stream: Seq::new(intervals(w), |i: int| stream_rate(w, i)),
        dt: Seq::new(intervals(w), |i: int| lapse(w, i)),
    }
}

/// The graphs of the trailing 60s of a ring.
pub open spec fn scan(e: Seq<EntryView>) -> GraphsView {
    graphs_of(history::inside(e, WINDOWS[2] as nat))
}

/// What the series that meet `of_series` rose by between two samples.
pub fn counter_rate<F: Fn(&SeriesKey) -> bool>(old: &Sample, new: &Sample, of_series: F) -> (r:
    Binary64)
    requires
        history::askable(of_series),
        old.wf(),
    ensures
        forall|p: spec_fn(KeyView) -> bool| #[trigger]
            history::agrees(of_series, p) ==> r == rise(old@, new@, p),
{
    add_rises((Binary64::from_bits(0), false), old, new, &of_series).0
}

/// Whether any series of the sample meets `of_series`.
fn any_key<F: Fn(&SeriesKey) -> bool>(s: &Sample, of_series: F) -> (r: bool)
    requires
        history::askable(of_series),
    ensures
        forall|p: spec_fn(KeyView) -> bool| #[trigger]
            history::agrees(of_series, p) ==> r == carries(s@, p),
{
    let mut i: usize = 0;
    while i < s.simple.len()
        invariant
            i <= s.simple@.len(),
            history::askable(of_series),
            forall|p: spec_fn(KeyView) -> bool, j: int| #[trigger]
                history::agrees(of_series, p) && 0 <= j < i ==> !p((#[trigger] s@.simple[j]).0),
        decreases s.simple@.len() - i,
    {
        let k: &SeriesKey = s.simple.key_at(i);
        if of_series(k) {
            assert(s@.simple[i as int].0 == k@);
            return true;
        }
        i += 1;
    }
    false
}

/// A lane without intervals.
pub open spec fn no_lane() -> LaneView {
    LaneView { vals: Seq::empty(), absent_old: Seq::empty(), absent_new: Seq::empty() }
}

impl Default for Lane {
    fn default() -> (r: Lane)
        ensures
            r@ == no_lane(),
    {
        let r: Lane = Lane { vals: Vec::new(), absent_old: Vec::new(), absent_new: Vec::new() };
        assert(r.vals@ =~= Seq::empty());
        assert(r.absent_old@ =~= Seq::empty());
        assert(r.absent_new@ =~= Seq::empty());
        r
    }
}

impl Default for Graphs {
    /// Graphs without intervals.
    fn default() -> (r: Graphs)
        ensures
            r@.decode == no_lane(),
            r@.prefill == no_lane(),
            r@.evictions == no_lane(),
            r@.stall.len() == 0,
            r@.ttft_p95.len() == 0,
            r@.cache_misses.len() == 0,
            r@.per_stream.len() == 0,
            r@.dt.len() == 0,
    {
        Graphs {
            decode: Lane::default(),
            prefill: Lane::default(),
            stall: Vec::new(),
            evictions: Lane::default(),
            ttft_p95: Vec::new(),
            cache_misses: Vec::new(),
            per_stream: Vec::new(),
            dt: Vec::new(),
        }
    }
}

impl Lane {
    /// Appends one scrape interval.
    pub fn push_interval<F: Fn(&SeriesKey) -> bool + Copy>(
        &mut self,
        earlier: &Sample,
        later: &Sample,
        of_series: F,
        dt: Binary64,
    )
        requires
            history::askable(of_series),
            earlier.wf(),
        ensures
            forall|p: spec_fn(KeyView) -> bool| #[trigger]
                history::agrees(of_series, p) ==> final(self)@.vals == old(self)@.vals.push(
                    binary64::quotient(rise(earlier@, later@, p), dt),
                ) && final(self)@.absent_old == old(self)@.absent_old.push(!carries(earlier@, p))
                    && final(self)@.absent_new == old(self)@.absent_new.push(!carries(later@, p)),
    {
        self.vals.push(counter_rate(earlier, later, of_series).over(dt));
        self.absent_old.push(!any_key(earlier, of_series));
        self.absent_new.push(!any_key(later, of_series));
    }
}

/// The lane holds the first `n` intervals of the series that meet `p`.
spec fn lane_filled(l: LaneView, w: Seq<EntryView>, p: spec_fn(KeyView) -> bool, n: int) -> bool {
    &&& l.vals.len() == n
    &&& l.absent_old.len() == n
    &&& l.absent_new.len() == n
    &&& forall|i: int| 0 <= i < n ==> #[trigger] l.vals[i] == interval_rate(w, i, p)
    &&& forall|i: int| 0 <= i < n ==> #[trigger] l.absent_old[i] == !carries(w[i].sample, p)
    &&& forall|i: int| 0 <= i < n ==> #[trigger] l.absent_new[i] == !carries(w[i + 1].sample, p)
}

proof fn lemma_lane_filled(l: LaneView, w: Seq<EntryView>, p: spec_fn(KeyView) -> bool)
    requires
        lane_filled(l, w, p, intervals(w) as int),
    ensures
        l == lane(w, p),
{
    assert(l.vals =~= lane(w, p).vals);
    assert(l.absent_old =~= lane(w, p).absent_old);
    assert(l.absent_new =~= lane(w, p).absent_new);
}

/// The middle of the values in ascending order.
pub fn median_of(v: &Vec<Binary64>) -> (r: Binary64)
    ensures
        r == median(v@),
{
    let mut pairs: Vec<(Binary64, Binary64)> = Vec::new();
    let mut i: usize = 0;
    while i < v.len()
        invariant
            i <= v@.len(),
            pairs@ == v@.take(i as int).map_values(|x: Binary64| (x, x)),
        decreases v@.len() - i,
    {
        pairs.push((v[i], v[i]));
        i += 1;
        assert(pairs@ =~= v@.take(i as int).map_values(|x: Binary64| (x, x)));
    }
    assert(v@.take(i as int) =~= v@);
    if v.len() == 0 {
        return Binary64::from_bits(0);
    }
    let ghost all = pairs@;
    let s: Vec<(Binary64, Binary64)> = arrange(pairs);
    proof {
        order::lemma_arranged_len(all);
    }
    s[v.len() / 2].0
}

fn gauge_of(s: &Sample, name: &str) -> (r: Binary64)
    ensures
        r == gauge_or_zero(s@, name@),
{
    match s.gauge(name) {
        Some(v) => v,
        None => Binary64::from_bits(0),
    }
}

fn above_zero(x: Binary64) -> (r: bool)
    ensures
        r == positive(x),
{
    Binary64::from_bits(0).lt(x)
}

/// One pass over the trailing 60s of the ring: the interval rates with their presence
/// flags, the stalled intervals, and the lanes that the graphs draw.
pub fn scan_window(h: &History) -> (g: Graphs)
    requires
        history::ring_ok(h@),
    ensures
        g@ == scan(h@),
{
    let entries: Vec<&Entry> = h.window_entries(WINDOWS[2]);
    let ghost w = history::inside(h@, WINDOWS[2] as nat);
    proof {
        history::lemma_inside(h@, WINDOWS[2] as nat);
    }
    let mut decode: Lane = Lane::default();
    let mut prefill: Lane = Lane::default();
    let mut evictions: Lane = Lane::default();
    let mut prefilled: Vec<bool> = Vec::new();
    let mut queued: Vec<bool> = Vec::new();
    let mut gap: Vec<bool> = Vec::new();
    let mut ttft_p95: Vec<Option<Binary64>> = Vec::new();
    let mut cache_misses: Vec<Option<Binary64>> = Vec::new();
    let mut per_stream: Vec<Option<Binary64>> = Vec::new();
    let mut dt: Vec<Binary64> = Vec::new();
    let mut seen: bool = false;
    let n: usize = if entries.len() == 0 { 0 } else { entries.len() - 1 };
    let mut i: usize = 0;
    while i < n
        invariant
            i <= n,
            n == intervals(w),
            entries@.len() == w.len(),
            forall|j: int| 0 <= j < w.len() ==> (#[trigger] entries@[j])@ == w[j],
            history::ring_ok(w),
            lane_filled(decode@, w, decoded(), i as int),
            lane_filled(prefill@, w, computed(), i as int),
            lane_filled(evictions@, w, family(PREEMPTIONS@), i as int),
            prefilled@.len() == i,
            queued@.len() == i,
            gap@.len() == i,
            ttft_p95@.len() == i,
            cache_misses@.len() == i,
            per_stream@.len() == i,
            dt@.len() == i,
            seen <==> exists|j: int| 0 <= j < i && carries((#[trigger] w[j]).sample, decoded()),
            forall|j: int| 0 <= j < i ==> #[trigger] prefilled@[j] == prefilling(w, j),
            forall|j: int| 0 <= j < i ==> #[trigger] queued@[j] == queueing(w, j),
            forall|j: int| 0 <= j < i ==> #[trigger] gap@[j] == out_of_gap(w, j),
            forall|j: int|
                0 <= j < i ==> #[trigger] ttft_p95@[j] == history::span_p95(
                    w[0].sample,
                    w[j + 1].sample,
                    family(TTFT@),
                ),
            forall|j: int| 0 <= j < i ==> #[trigger] cache_misses@[j] == misses(w, j),
            forall|j: int| 0 <= j < i ==> #[trigger] per_stream@[j] == stream_rate(w, j),
            forall|j: int| 0 <= j < i ==> #[trigger] dt@[j] == lapse(w, j),
        decreases n - i,
    {
        let first: &Sample = &entries[0].sample;
        let a: &Sample = &entries[i].sample;
        let b: &Sample = &entries[i + 1].sample;
        assert(entries@[i as int]@ == w[i as int] && entries@[i + 1]@ == w[i + 1]
            && entries@[0]@ == w[0]);
        assert(w[i as int].t < w[i + 1].t);
        assert(w[0].sample.wf() && w[i as int].sample.wf() && w[i + 1].sample.wf());
        let d: Binary64 = Binary64::from_nanos(entries[i + 1].t - entries[i].t);
        assert(d == lapse(w, i as int));
        decode.push_interval(a, b, decode_lane(), d);
        prefill.push_interval(a, b, prefill_lane(), d);
        evictions.push_interval(a, b, fam(PREEMPTIONS), d);
        let missing: bool = !any_key(a, input_lane()) || !any_key(b, input_lane());
        cache_misses.push(
            if missing {
                None
            } else {
                Some(counter_rate(a, b, input_lane()).over(d))
            },
        );
        let absent_old: bool = decode.absent_old[i];
        let absent_new: bool = decode.absent_new[i];
        gap.push(absent_old && seen);
        let running: Binary64 = gauge_of(b, RUNNING);
        prefilled.push(above_zero(running) && above_zero(prefill.vals[i]));
        queued.push(above_zero(running) && above_zero(gauge_of(b, WAITING)));
        per_stream.push(
            if above_zero(running) && !absent_old && !absent_new {
                Some(decode.vals[i].over(running))
            } else {
                None
            },
        );
        ttft_p95.push(hist_window_p95(first, b, &fam(TTFT)));
        dt.push(d);
        proof {
            let was = seen;
            assert(absent_old == !carries(w[i as int].sample, decoded()));
            assert((was || !absent_old) <==> exists|j: int|
                0 <= j < i + 1 && carries((#[trigger] w[j]).sample, decoded())) by {
                if was {
                    let j = choose|j: int| 0 <= j < i && carries((#[trigger] w[j]).sample, decoded());
                    assert(carries(w[j].sample, decoded()));
                }
            }
        }
        seen = seen || !absent_old;
        i += 1;
    }
    proof {
        lemma_lane_filled(decode@, w, decoded());
        lemma_lane_filled(prefill@, w, computed());
        lemma_lane_filled(evictions@, w, family(PREEMPTIONS@));
    }
    let bar: Binary64 = Binary64::from_u64(1).over(Binary64::from_u64(4)).times(
        median_of(&decode.vals),
    );
    let mut stall: Vec<bool> = Vec::new();
    let mut k: usize = 0;
    while k < n
        invariant
            k <= n,
            n == intervals(w),
            decode@ == lane(w, decoded()),
            prefilled@.len() == n,
            queued@.len() == n,
            gap@.len() == n,
            bar == binary64::product(quarter(), median(lane(w, decoded()).vals)),
            forall|j: int| 0 <= j < n ==> #[trigger] prefilled@[j] == prefilling(w, j),
            forall|j: int| 0 <= j < n ==> #[trigger] queued@[j] == queueing(w, j),
            forall|j: int| 0 <= j < n ==> #[trigger] gap@[j] == out_of_gap(w, j),
            stall@.len() == k,
            forall|j: int| 0 <= j < k ==> #[trigger] stall@[j] == stalled(w, j),
        decreases n - k,
    {
        let low: bool = !decode.absent_old[k] && !decode.absent_new[k] && decode.vals[k].lt(bar);
        assert(low == collapsed(w, k as int));
        stall.push((low && (prefilled[k] || queued[k])) || (gap[k] && prefilled[k]));
        k += 1;
    }
    let g: Graphs = Graphs {
        decode,
        prefill,
        stall,
        evictions,
        ttft_p95,
        cache_misses,
        per_stream,
        dt,
    };
    proof {
        let s = scan(h@);
        assert(g@.stall =~= s.stall);
        assert(g@.ttft_p95 =~= s.ttft_p95);
        assert(g@.cache_misses =~= s.cache_misses);
        assert(g@.per_stream =~= s.per_stream);
        assert(g@.dt =~= s.dt);
    }
    g
}

/// One cache pool with its usage ratio.
#[derive(Clone, Copy, Debug)]
pub struct Pool {
    pub name: &'static str,
    pub usage: Binary64,
    /// The absolute counts behind the ratio, where the engine exposes them.
    pub used: Option<Binary64>,
    pub total: Option<Binary64>,
    /// What the counts count.
    pub unit: &'static str,
}

/// Rates by window.
pub type Triple = [Option<Binary64>; 3];

/// Three quantiles of one metric.
#[derive(Clone, Copy, Debug, PartialEq, Eq, Structural)]
pub struct Quantiles {
    pub p50: Option<Binary64>,
    pub p95: Option<Binary64>,
    pub p99: Option<Binary64>,
}

impl Default for Quantiles {
    /// Quantiles of which none is known.
    fn default() -> (r: Quantiles)
        ensures
            r == (Quantiles { p50: None, p95: None, p99: None }),
    {
        Quantiles { p50: None, p95: None, p99: None }
    }
}

/// Quantiles by window.
pub type LatencyTriple = [Quantiles; 3];

/// The stalled intervals of a window, and how many of its seconds they cover.
#[derive(Clone, Copy, Debug, PartialEq, Eq, Structural)]
pub struct Stalls {
    pub count: u32,
    pub seconds: Binary64,
}

impl Default for Stalls {
    /// No stalls.
    fn default() -> (r: Stalls)
        ensures
            r == (Stalls { count: 0, seconds: binary64::zero() }),
    {
        Stalls { count: 0, seconds: Binary64::from_bits(0) }
    }
}

/// The rates over the three windows.
pub open spec fn rates(e: Seq<EntryView>, p: spec_fn(KeyView) -> bool, i: int) -> Option<
    Binary64,
> {
    history::rate(e, p, WINDOWS[i] as nat)
}

/// The rates of the series that meet `pred` over the three windows.
pub fn rate_triple<F: Fn(&SeriesKey) -> bool + Copy>(h: &History, pred: F) -> (r: Triple)
    requires
        history::askable(pred),
        h.wf(),
    ensures
        forall|p: spec_fn(KeyView) -> bool, i: int| #[trigger]
            history::agrees(pred, p) && 0 <= i < 3 ==> #[trigger] r[i] == rates(h@, p, i),
{
    [h.rate_sum(pred, WINDOWS[0]), h.rate_sum(pred, WINDOWS[1]), h.rate_sum(pred, WINDOWS[2])]
}

/// A number of hundredths.
pub open spec fn hundredths(n: nat) -> Binary64 {
    binary64::quotient(binary64::integer(n), binary64::integer(100))
}

fn percent(n: u64) -> (r: Binary64)
    ensures
        r == hundredths(n as nat),
{
    Binary64::from_u64(n).over(Binary64::from_u64(100))
}

/// The quantiles of a histogram family over a window.
pub open spec fn quantiles(e: Seq<EntryView>, name: Seq<char>, window: nat) -> Quantiles {
    Quantiles {
        p50: history::window_quantile(e, family(name), hundredths(50), window),
        p95: history::window_quantile(e, family(name), hundredths(95), window),
        p99: history::window_quantile(e, family(name), hundredths(99), window),
    }
}

fn quantiles_of(h: &History, name: &'static str, window: u64) -> (r: Quantiles)
    requires
        h.wf(),
    ensures
        r == quantiles(h@, name@, window as nat),
{
    Quantiles {
        p50: h.hist_quantile(fam(name), percent(50), window),
        p95: h.hist_quantile(fam(name), percent(95), window),
        p99: h.hist_quantile(fam(name), percent(99), window),
    }
}

/// The quantiles of a histogram family over the three windows.
pub fn latency_triple(h: &History, name: &'static str) -> (r: LatencyTriple)
    requires
        h.wf(),
    ensures
        forall|i: int|
            0 <= i < 3 ==> #[trigger] r[i] == quantiles(h@, name@, WINDOWS[i] as nat),
{
    [
        quantiles_of(h, name, WINDOWS[0]),
        quantiles_of(h, name, WINDOWS[1]),
        quantiles_of(h, name, WINDOWS[2]),
    ]
}

/// The flagged intervals among the first `n`, walked back from the newest until the
/// budget of seconds is used up, added to what was there. The oldest of them may be cut
/// off by the budget.
pub open spec fn frozen(
    flags: Seq<bool>,
    dt: Seq<Binary64>,
    n: int,
    budget: Binary64,
    acc: (nat, Binary64),
) -> (nat, Binary64)
    decreases n,
{
    if n <= 0 || binary64::at_most(budget, binary64::zero()) {
        acc
    } else {
        let next = if flags[n - 1] {
            (acc.0 + 1, binary64::sum(acc.1, binary64::smaller(dt[n - 1], budget)))
        } else {
            acc
        };
        frozen(flags, dt, n - 1, binary64::difference(budget, dt[n - 1]), next)
    }
}

/// The stalls of a window.
pub open spec fn stalls_in(flags: Seq<bool>, dt: Seq<Binary64>, window: nat) -> (nat, Binary64) {
    frozen(flags, dt, dt.len() as int, binary64::seconds(window), (0, binary64::zero()))
}

fn stalls_of(flags: &[bool], dt: &[Binary64], window: u64) -> (r: Stalls)
    requires
        flags@.len() >= dt@.len(),
        dt@.len() <= u32::MAX,
    ensures
        (r.count as nat, r.seconds) == stalls_in(flags@, dt@, window as nat),
{
    let zero: Binary64 = Binary64::from_bits(0);
    let mut budget: Binary64 = Binary64::from_nanos(window);
    let mut count: u32 = 0;
    let mut seconds: Binary64 = zero;
    let mut n: usize = dt.len();
    while n > 0 && !budget.le(zero)
        invariant
            n <= dt@.len() <= flags@.len(),
            dt@.len() <= u32::MAX,
            count <= dt@.len() - n,
            zero == binary64::zero(),
            frozen(flags@, dt@, n as int, budget, (count as nat, seconds)) == stalls_in(
                flags@,
                dt@,
                window as nat,
            ),
        decreases n,
    {
        let d: Binary64 = dt[n - 1];
        let part: Binary64 = d.min(budget);
        if flags[n - 1] {
            count += 1;
            seconds = seconds.plus(part);
        }
        budget = budget.minus(d);
        n -= 1;
    }
    Stalls { count, seconds }
}

/// Folds the stall flags into the three windows.
pub fn fold_stalls(flags: &[bool], dt: &[Binary64]) -> (r: [Stalls; 3])
    requires
        flags@.len() >= dt@.len(),
        dt@.len() <= u32::MAX,
    ensures
        forall|i: int|
            0 <= i < 3 ==> (#[trigger] r[i].count as nat, r[i].seconds) == stalls_in(
                flags@,
                dt@,
                WINDOWS[i] as nat,
            ),
{
    [
        stalls_of(flags, dt, WINDOWS[0]),
        stalls_of(flags, dt, WINDOWS[1]),
        stalls_of(flags, dt, WINDOWS[2]),
    ]
}

/// The session's peak rates.
#[derive(Clone, Copy, Debug, PartialEq, Eq, Structural)]
pub struct Peaks {
    pub decode: Option<Binary64>,
    pub prefill: Option<Binary64>,
    /// The fastest rate per stream: the decode rate of an interval over the requests that
    /// were running during it.
    pub decode_single: Option<Binary64>,
}

impl Default for Peaks {
    fn default() -> (r: Peaks)
        ensures
            r == no_peaks(),
    {
        Peaks { decode: None, prefill: None, decode_single: None }
    }
}

/// Peaks before any rate was seen.
pub open spec fn no_peaks() -> Peaks {
    Peaks { decode: None, prefill: None, decode_single: None }
}

/// Alarm latches. Each is set the first time its rate reads above zero over an interval,
/// and stays set until the engine restarts.
#[derive(Clone, Copy, Debug, PartialEq, Eq, Structural)]
pub struct Alarms {
    pub abort: bool,
    pub http_5xx: bool,
    pub alloc_fail: bool,
}

impl Default for Alarms {
    fn default() -> (r: Alarms)
        ensures
            r == no_alarms(),
    {
        Alarms { abort: false, http_5xx: false, alloc_fail: false }
    }
}

/// Alarms of which none is set.
pub open spec fn no_alarms() -> Alarms {
    Alarms { abort: false, http_5xx: false, alloc_fail: false }
}

pub const REQUEST_SUCCESS: &'static str = "vllm:request_success_total";

pub const HTTP_REQUESTS: &'static str = "http_requests_total";

pub const ALLOC_FAILURES: &'static str = "vllm:kv_offload_allocation_failure_total";

/// The requests that clients aborted.
pub open spec fn aborted() -> spec_fn(KeyView) -> bool {
    labelled(REQUEST_SUCCESS@, "finished_reason"@, "abort"@)
}

/// The requests that ended in a server error.
pub open spec fn http_errors() -> spec_fn(KeyView) -> bool {
    labelled(HTTP_REQUESTS@, "status"@, "5xx"@)
}

/// Some series that meets `p` reads less in the later sample than in the earlier one.
pub open spec fn dropped(prev: SampleView, cur: SampleView, p: spec_fn(KeyView) -> bool) -> bool {
    exists|i: int|
        0 <= i < prev.simple.len() && #[trigger] fell_at(prev.simple[i], cur.simple, p)
}

/// A series that meets `p` reads less in the later sample.
pub open spec fn fell_at(
    e: (KeyView, Binary64),
    cur: Seq<(KeyView, Binary64)>,
    p: spec_fn(KeyView) -> bool,
) -> bool {
    p(e.0) && match series::lookup(cur, e.0) {
        Some(v) => binary64::less(v, e.1),
        None => false,
    }
}

/// A token counter dropped: the engine restarted and its counters began again, so what
/// was latched belongs to the process before.
pub open spec fn restarted(prev: SampleView, cur: SampleView) -> bool {
    dropped(prev, cur, decoded()) || dropped(prev, cur, computed())
}

fn any_dropped<F: Fn(&SeriesKey) -> bool>(prev: &Sample, cur: &Sample, pred: F) -> (r: bool)
    requires
        history::askable(pred),
        cur.wf(),
    ensures
        forall|p: spec_fn(KeyView) -> bool| #[trigger]
            history::agrees(pred, p) ==> r == dropped(prev@, cur@, p),
{
    let mut i: usize = 0;
    while i < prev.simple.len()
        invariant
            i <= prev.simple@.len(),
            history::askable(pred),
            cur.wf(),
            forall|p: spec_fn(KeyView) -> bool, j: int|
                #![trigger history::agrees(pred, p), fell_at(prev@.simple[j], cur@.simple, p)]
                history::agrees(pred, p) && 0 <= j < i ==> !fell_at(
                    prev@.simple[j],
                    cur@.simple,
                    p,
                ),
        decreases prev.simple@.len() - i,
    {
        let k: &SeriesKey = prev.simple.key_at(i);
        if pred(k) {
            if let Some(v) = cur.simple.get(k) {
                if v.lt(*prev.simple.value_at(i)) {
                    assert forall|p: spec_fn(KeyView) -> bool| #[trigger]
                        history::agrees(pred, p) implies dropped(prev@, cur@, p) by {
                        assert(fell_at(prev@.simple[i as int], cur@.simple, p));
                    }
                    return true;
                }
            }
        }
        i += 1;
    }
    false
}

/// Whether a token counter dropped between the two samples.
pub fn tokens_had_reset(prev: &Sample, cur: &Sample) -> (r: bool)
    requires
        cur.wf(),
    ensures
        r == restarted(prev@, cur@),
{
    any_dropped(prev, cur, decode_lane()) || any_dropped(prev, cur, prefill_lane())
}

/// The last two entries of a ring.
pub open spec fn latest_pair(e: Seq<EntryView>) -> Seq<EntryView> {
    e.skip(e.len() - 2)
}

/// The rate over the newest interval.
pub open spec fn latest_rate(e: Seq<EntryView>, p: spec_fn(KeyView) -> bool) -> Binary64 {
    interval_rate(latest_pair(e), 0, p)
}

/// The alarms after the newest interval.
pub open spec fn alarmed(a: Alarms, e: Seq<EntryView>) -> Alarms {
    if e.len() < 2 {
        a
    } else if restarted(e[e.len() - 2].sample, e[e.len() - 1].sample) {
        no_alarms()
    } else {
        Alarms {
            abort: a.abort || positive(latest_rate(e, aborted())),
            http_5xx: a.http_5xx || positive(latest_rate(e, http_errors())),
            alloc_fail: a.alloc_fail || positive(latest_rate(e, family(ALLOC_FAILURES@))),
        }
    }
}

/// Latches the alarms of the newest interval.
pub fn update_alarms(alarms: &mut Alarms, h: &History)
    requires
        h.wf(),
    ensures
        *final(alarms) == alarmed(*old(alarms), h@),
{
    let n: usize = h.len();
    if n < 2 {
        return;
    }
    if let (Some(prev), Some(cur)) = (h.get(n - 2), h.get(n - 1)) {
        let ghost e = h@;
        assert(prev@ == e[n - 2] && cur@ == e[n - 1]);
        assert(e[n - 2].sample.wf() && e[n - 1].sample.wf() && e[n - 2].t < e[n - 1].t);
        assert(latest_pair(e)[0] == e[n - 2] && latest_pair(e)[1] == e[n - 1]);
        if tokens_had_reset(&prev.sample, &cur.sample) {
            *alarms = Alarms::default();
            return;
        }
        let dt: Binary64 = Binary64::from_nanos(cur.t - prev.t);
        let abort: Binary64 = counter_rate(
            &prev.sample,
            &cur.sample,
            fam_labeled(REQUEST_SUCCESS, "finished_reason", "abort"),
        );
        if above_zero(abort.over(dt)) {
            alarms.abort = true;
        }
        let errors: Binary64 = counter_rate(
            &prev.sample,
            &cur.sample,
            fam_labeled(HTTP_REQUESTS, "status", "5xx"),
        );
        if above_zero(errors.over(dt)) {
            alarms.http_5xx = true;
        }
        let failures: Binary64 = counter_rate(&prev.sample, &cur.sample, fam(ALLOC_FAILURES));
        if above_zero(failures.over(dt)) {
            alarms.alloc_fail = true;
        }
    }
}

/// A peak after one more rate.
pub open spec fn raised(peak: Option<Binary64>, x: Binary64) -> Option<Binary64> {
    let bar = match peak {
        Some(v) => v,
        None => binary64::zero(),
    };
    if binary64::less(bar, x) {
        Some(x)
    } else {
        peak
    }
}

/// The peaks after the newest interval.
pub open spec fn peaked(p: Peaks, e: Seq<EntryView>) -> Peaks {
    if e.len() < 2 {
        p
    } else if restarted(e[e.len() - 2].sample, e[e.len() - 1].sample) {
        no_peaks()
    } else {
        let decode = latest_rate(e, decoded());
        let running = gauge_or_zero(e.last().sample, RUNNING@);
        Peaks {
            decode: raised(p.decode, decode),
            prefill: raised(p.prefill, latest_rate(e, computed())),
            decode_single: if positive(running) {
                raised(p.decode_single, binary64::quotient(decode, running))
            } else {
                p.decode_single
            },
        }
    }
}

fn raise(peak: Option<Binary64>, x: Binary64) -> (r: Option<Binary64>)
    ensures
        r == raised(peak, x),
{
    let bar: Binary64 = match peak {
        Some(v) => v,
        None => Binary64::from_bits(0),
    };
    if bar.lt(x) {
        Some(x)
    } else {
        peak
    }
}

/// Folds the newest interval into the session peaks. A counter reset clears them: the
/// peaks of the process before are not this engine's.
pub fn update_peaks(peaks: &mut Peaks, h: &History)
    requires
        h.wf(),
    ensures
        *final(peaks) == peaked(*old(peaks), h@),
{
    let n: usize = h.len();
    if n < 2 {
        return;
    }
    if let (Some(prev), Some(cur)) = (h.get(n - 2), h.get(n - 1)) {
        let ghost e = h@;
        assert(prev@ == e[n - 2] && cur@ == e[n - 1]);
        assert(e[n - 2].sample.wf() && e[n - 1].sample.wf() && e[n - 2].t < e[n - 1].t);
        assert(latest_pair(e)[0] == e[n - 2] && latest_pair(e)[1] == e[n - 1]);
        if tokens_had_reset(&prev.sample, &cur.sample) {
            *peaks = Peaks::default();
            return;
        }
        let dt: Binary64 = Binary64::from_nanos(cur.t - prev.t);
        let decode: Binary64 = counter_rate(&prev.sample, &cur.sample, decode_lane()).over(dt);
        let prefill: Binary64 = counter_rate(&prev.sample, &cur.sample, prefill_lane()).over(dt);
        peaks.decode = raise(peaks.decode, decode);
        peaks.prefill = raise(peaks.prefill, prefill);
        let running: Binary64 = gauge_of(&cur.sample, RUNNING);
        if above_zero(running) {
            peaks.decode_single = raise(peaks.decode_single, decode.over(running));
        }
    }
}

/// The number that a label of the first series of a family stands for.
pub open spec fn label_number(s: SampleView, name: Seq<char>, label: Seq<char>) -> Option<
    Binary64,
> {
    let i = metrics::first_at(s.simple, family(name)) as int;
    if i < s.simple.len() {
        match metrics::label_value(s.simple[i].0.labels, label) {
            Some(v) => decimal::literal(v),
            None => None,
        }
    } else {
        None
    }
}

/// The position of the first series of a family.
fn first_of(s: &Sample, name: &str) -> (r: Option<usize>)
    ensures
        r is Some <==> metrics::first_at(s@.simple, family(name@)) < s@.simple.len(),
        r is Some ==> r->0 == metrics::first_at(s@.simple, family(name@)),
{
    let ghost p = family(name@);
    let mut i: usize = 0;
    while i < s.simple.len()
        invariant
            i <= s.simple@.len(),
            p == family(name@),
            forall|j: int| 0 <= j < i ==> !p((#[trigger] s.simple@[j]).0),
        decreases s.simple@.len() - i,
    {
        if same_text(s.simple.key_at(i).name.as_str(), name) {
            proof {
                metrics::lemma_first_at(s.simple@, p, i as int);
            }
            return Some(i);
        }
        i += 1;
    }
    proof {
        metrics::lemma_first_at(s.simple@, p, i as int);
    }
    None
}

/// Reads the number in a label of a gauge of one series, such as the capacity in the
/// cache configuration record.
pub fn gauge_label(sample: &Sample, name: &str, label: &str) -> (r: Option<Binary64>)
    ensures
        r == label_number(sample@, name@, label@),
{
    match first_of(sample, name) {
        Some(i) => {
            let k: &SeriesKey = sample.simple.key_at(i);
            match find_label(&k.labels, label) {
                Some(j) => parse_literal(chars_of(k.labels[j].1.as_str()).as_slice()),
                None => None,
            }
        },
        None => None,
    }
}

/// A ratio moved into the range from zero to one.
pub open spec fn ratio(x: Binary64) -> Binary64 {
    binary64::clamped(x, binary64::zero(), binary64::integer(1))
}

fn to_ratio(x: Binary64) -> (r: Binary64)
    ensures
        r == ratio(x),
{
    proof {
        binary64::lemma_one();
    }
    x.clamp(Binary64::from_bits(0), Binary64::from_u64(1))
}

/// The newest value of the first series of a family.
pub open spec fn newest(e: Seq<EntryView>, name: Seq<char>) -> Option<Binary64> {
    if e.len() == 0 {
        None
    } else {
        metrics::first_value(e.last().sample.simple, family(name))
    }
}

pub const KV_USAGE: &'static str = "vllm:kv_cache_usage_perc";

pub const CACHE_CONFIG: &'static str = "vllm:cache_config_info";

pub const KV_TOKENS: &'static str = "kv_cache_size_tokens";

pub const OFFLOAD_USAGE: &'static str = "vllm:kv_offload_cpu_cache_usage_perc";

/// The usage of the host pool, once the engine reports it.
pub open spec fn host_usage(e: Seq<EntryView>) -> Option<Binary64> {
    match newest(e, OFFLOAD_USAGE@) {
        Some(u) => Some(ratio(u)),
        None => None,
    }
}

/// The usage of the host pool. The engine reports a ratio only, with no absolute count.
pub fn host_pool(h: &History) -> (r: Option<Binary64>)
    ensures
        r == host_usage(h@),
{
    match h.gauge_pred(fam(OFFLOAD_USAGE)) {
        Some(u) => Some(to_ratio(u)),
        None => None,
    }
}

/// The pools of a ring that is not empty: the device pool, with absolute counts where the
/// configuration record gives its capacity, and the host pool, each once the engine
/// reports it.
pub open spec fn pools_of(e: Seq<EntryView>) -> Seq<Pool> {
    let device = match newest(e, KV_USAGE@) {
        Some(u) => {
            let total = label_number(e.last().sample, CACHE_CONFIG@, KV_TOKENS@);
            seq![
                Pool {
                    name: "KV",
                    usage: ratio(u),
                    used: match total {
                        Some(t) => Some(binary64::product(ratio(u), t)),
                        None => None,
                    },
                    total,
                    unit: "tokens",
                },
            ]
        },
        None => Seq::empty(),
    };
    let host = match host_usage(e) {
        Some(u) => seq![Pool { name: "host", usage: u, used: None, total: None, unit: "tokens" }],
        None => Seq::empty(),
    };
    device + host
}

fn read_pools(h: &History, last: &Sample) -> (r: Vec<Pool>)
    requires
        h@.len() > 0,
        last@ == h@.last().sample,
    ensures
        r@ == pools_of(h@),
{
    let mut pools: Vec<Pool> = Vec::new();
    if let Some(u) = h.gauge_pred(fam(KV_USAGE)) {
        let total: Option<Binary64> = gauge_label(last, CACHE_CONFIG, KV_TOKENS);
        let usage: Binary64 = to_ratio(u);
        let used: Option<Binary64> = match total {
            Some(t) => Some(usage.times(t)),
            None => None,
        };
        pools.push(Pool { name: "KV", usage, used, total, unit: "tokens" });
    }
    if let Some(u) = host_pool(h) {
        pools.push(Pool { name: "host", usage: u, used: None, total: None, unit: "tokens" });
    }
    assert(pools@ =~= pools_of(h@));
    pools
}

/// One reading over another, while the other is positive.
pub open spec fn part(a: Option<Binary64>, b: Option<Binary64>) -> Option<Binary64> {
    match (a, b) {
        (Some(x), Some(y)) => if positive(y) {
            Some(binary64::quotient(x, y))
        } else {
            None
        },
        _ => None,
    }
}

fn part_over(a: Option<Binary64>, b: Option<Binary64>) -> (r: Option<Binary64>)
    ensures
        r == part(a, b),
{
    match (a, b) {
        (Some(x), Some(y)) => if above_zero(y) {
            Some(x.over(y))
        } else {
            None
        },
        _ => None,
    }
}

/// One reading over another as a ratio from zero to one.
pub open spec fn ratio_part(a: Option<Binary64>, b: Option<Binary64>) -> Option<Binary64> {
    match part(a, b) {
        Some(x) => Some(ratio(x)),
        None => None,
    }
}

fn ratio_over(a: Option<Binary64>, b: Option<Binary64>) -> (r: Option<Binary64>)
    ensures
        r == ratio_part(a, b),
{
    match part_over(a, b) {
        Some(x) => Some(to_ratio(x)),
        None => None,
    }
}

/// The value of the last label of the given name.
pub open spec fn last_label(labels: Seq<(Seq<char>, Seq<char>)>, name: Seq<char>) -> Option<
    Seq<char>,
>
    decreases labels.len(),
{
    if labels.len() == 0 {
        None
    } else if labels.last().0 == name {
        Some(labels.last().1)
    } else {
        last_label(labels.drop_last(), name)
    }
}

/// A label of the first series of running requests, or a question mark.
pub open spec fn identity(s: SampleView, name: Seq<char>) -> Seq<char> {
    let i = metrics::first_at(s.simple, family(RUNNING@)) as int;
    if i < s.simple.len() {
        match last_label(s.simple[i].0.labels, name) {
            Some(v) => v,
            None => "?"@,
        }
    } else {
        "?"@
    }
}

fn identity_of(s: &Sample, name: &str) -> (r: String)
    ensures
        r@ == identity(s@, name@),
{
    match first_of(s, RUNNING) {
        Some(i) => {
            let k: &SeriesKey = s.simple.key_at(i);
            let ghost all = k@.labels;
            let mut n: usize = k.labels.len();
            assert(all.take(n as int) =~= all);
            while n > 0
                invariant
                    n <= k.labels@.len(),
                    all == k@.labels,
                    s@.simple[metrics::first_at(s@.simple, family(RUNNING@)) as int].0 == k@,
                    metrics::first_at(s@.simple, family(RUNNING@)) < s@.simple.len(),
                    last_label(all, name@) == last_label(all.take(n as int), name@),
                decreases n,
            {
                assert(all.take(n as int).last() == series::label_view(k.labels@[n - 1]));
                assert(all.take(n as int).drop_last() =~= all.take(n - 1));
                if same_text(k.labels[n - 1].0.as_str(), name) {
                    return k.labels[n - 1].1.clone();
                }
                n -= 1;
            }
            String::from_str("?")
        },
        None => String::from_str("?"),
    }
}

impl Lane {
    /// The same lane once more.
    pub fn copy(&self) -> (r: Lane)
        ensures
            r@ == self@,
    {
        Lane {
            vals: copied(self.vals.as_slice()),
            absent_old: copied(self.absent_old.as_slice()),
            absent_new: copied(self.absent_new.as_slice()),
        }
    }
}

impl Graphs {
    /// The same graphs once more.
    pub fn copy(&self) -> (r: Graphs)
        ensures
            r@ == self@,
    {
        Graphs {
            decode: self.decode.copy(),
            prefill: self.prefill.copy(),
            stall: copied(self.stall.as_slice()),
            evictions: self.evictions.copy(),
            ttft_p95: copied(self.ttft_p95.as_slice()),
            cache_misses: copied(self.cache_misses.as_slice()),
            per_stream: copied(self.per_stream.as_slice()),
            dt: copied(self.dt.as_slice()),
        }
    }
}

/// Everything that one draw needs: rates, quantiles and pools, and the graphs and stall
/// flags from the scan of the ring.
#[derive(Debug)]
pub struct Derived {
    pub model: String,
    pub engine: String,
    pub running: Option<Binary64>,
    pub queue: Option<Binary64>,
    pub decode_rate: Triple,
    /// The decode rate over the newest interval.
    pub decode_instant: Option<Binary64>,
    /// The prefill rate over the newest interval.
    pub prefill_instant: Option<Binary64>,
    pub prefill_rate: Triple,
    pub pools: Vec<Pool>,
    /// The part of prefix cache queries that hit.
    pub cache_hit: Option<Binary64>,
    /// Cached and computed prompt tokens per second over the 60s window.
    pub cache_cached: Option<Binary64>,
    pub cache_computed: Option<Binary64>,
    /// The part of drafted tokens that were accepted.
    pub spec_accept: Option<Binary64>,
    /// Accepted tokens per draft.
    pub spec_accept_len: Option<Binary64>,
    pub ttft: LatencyTriple,
    pub itl: LatencyTriple,
    pub e2e: LatencyTriple,
    pub queue_time: LatencyTriple,
    pub prompt_len_p50: Option<Binary64>,
    pub prompt_len_p95: Option<Binary64>,
    /// The length of the prompt text that was computed, in tokens.
    pub computed_p50: Option<Binary64>,
    pub computed_p95: Option<Binary64>,
    pub stalls: [Stalls; 3],
    pub evict_rate: Option<Binary64>,
    pub retract_rate: Option<Binary64>,
    pub http_503_rate: Option<Binary64>,
    /// The parts of prefill tokens served from the device and host tiers; the engine does
    /// not expose them.
    pub l2_device: Option<Binary64>,
    pub l2_host: Option<Binary64>,
    /// Bytes per second written to the host tier and read back.
    pub l2_wb: Option<Binary64>,
    pub l2_rb: Option<Binary64>,
    /// Failed allocations per second in the host tier.
    pub l2_drop: Option<Binary64>,
    /// Generated tokens of the running requests; the engine does not expose them.
    pub gen_total: Option<Binary64>,
    pub gen_progress: Option<Binary64>,
    /// Processor time of the tokenizer and the detokenizer; the engine does not split it.
    pub cpu_tokenizer: Option<Binary64>,
    pub cpu_detokenizer: Option<Binary64>,
    /// Compute seconds of the scheduler per second.
    pub cpu_scheduler: Option<Binary64>,
    pub graphs: Graphs,
    pub window_focus: usize,
}

pub const SCHEDULER_SECONDS: &'static str = "vllm:scheduler_compute_seconds_total";

pub const ITL: &'static str = "vllm:inter_token_latency_seconds";

pub const E2E: &'static str = "vllm:e2e_request_latency_seconds";

pub const QUEUE_TIME: &'static str = "vllm:request_queue_time_seconds";

pub const PROMPT_TOKENS: &'static str = "vllm:request_prompt_tokens";

pub const COMPUTED_TOKENS: &'static str = "vllm:request_prefill_kv_computed_tokens";

pub const PREFIX_HITS: &'static str = "vllm:prefix_cache_hits_total";

pub const PREFIX_QUERIES: &'static str = "vllm:prefix_cache_queries_total";

pub const SPEC_ACCEPTED: &'static str = "vllm:spec_decode_num_accepted_tokens_total";

pub const SPEC_DRAFT_TOKENS: &'static str = "vllm:spec_decode_num_draft_tokens_total";

pub const SPEC_DRAFTS: &'static str = "vllm:spec_decode_num_drafts_total";

pub const OFFLOAD_STORED: &'static str = "vllm:kv_offload_store_bytes_total";

pub const OFFLOAD_LOADED: &'static str = "vllm:kv_offload_load_bytes_total";

/// The quantile of a histogram family over the 60s window, in hundredths.
pub open spec fn minute_quantile(e: Seq<EntryView>, name: Seq<char>, q: nat) -> Option<Binary64> {
    history::window_quantile(e, family(name), hundredths(q), WINDOWS[2] as nat)
}

/// The last value of a lane.
pub open spec fn newest_value(v: Seq<Binary64>) -> Option<Binary64> {
    if v.len() > 0 {
        Some(v.last())
    } else {
        None
    }
}

fn newest_of(v: &Vec<Binary64>) -> (r: Option<Binary64>)
    ensures
        r == newest_value(v@),
{
    if v.len() > 0 {
        Some(v[v.len() - 1])
    } else {
        None
    }
}

impl Derived {
    /// The numbers are those of the ring, for the given window in focus.
    pub open spec fn derived_from(&self, e: Seq<EntryView>, focus: usize) -> bool {
        let last = e.last().sample;
        &&& self.model@ == identity(last, "model_name"@)
        &&& self.engine@ == identity(last, "engine"@)
        &&& self.running == newest(e, RUNNING@)
        &&& self.queue == newest(e, WAITING@)
        &&& forall|i: int| 0 <= i < 3 ==> #[trigger] self.decode_rate[i] == rates(e, decoded(), i)
        &&& forall|i: int|
            0 <= i < 3 ==> #[trigger] self.prefill_rate[i] == rates(e, computed(), i)
        &&& self.decode_instant == newest_value(scan(e).decode.vals)
        &&& self.prefill_instant == newest_value(scan(e).prefill.vals)
        &&& self.pools@ == pools_of(e)
        &&& self.cache_hit == ratio_part(newest(e, PREFIX_HITS@), newest(e, PREFIX_QUERIES@))
        &&& self.cache_cached == rates(e, cached(), 2)
        &&& self.cache_computed == rates(e, computed(), 2)
        &&& self.spec_accept == ratio_part(
            newest(e, SPEC_ACCEPTED@),
            newest(e, SPEC_DRAFT_TOKENS@),
        )
        &&& self.spec_accept_len == part(newest(e, SPEC_ACCEPTED@), newest(e, SPEC_DRAFTS@))
        &&& forall|i: int|
            0 <= i < 3 ==> #[trigger] self.ttft[i] == quantiles(e, TTFT@, WINDOWS[i] as nat)
        &&& forall|i: int|
            0 <= i < 3 ==> #[trigger] self.itl[i] == quantiles(e, ITL@, WINDOWS[i] as nat)
        &&& forall|i: int|
            0 <= i < 3 ==> #[trigger] self.e2e[i] == quantiles(e, E2E@, WINDOWS[i] as nat)
        &&& forall|i: int|
            0 <= i < 3 ==> #[trigger] self.queue_time[i] == quantiles(
                e,
                QUEUE_TIME@,
                WINDOWS[i] as nat,
            )
        &&& self.prompt_len_p50 == minute_quantile(e, PROMPT_TOKENS@, 50)
        &&& self.prompt_len_p95 == minute_quantile(e, PROMPT_TOKENS@, 95)
        &&& self.computed_p50 == minute_quantile(e, COMPUTED_TOKENS@, 50)
        &&& self.computed_p95 == minute_quantile(e, COMPUTED_TOKENS@, 95)
        &&& forall|i: int|
            0 <= i < 3 ==> (#[trigger] self.stalls[i].count as nat, self.stalls[i].seconds)
                == stalls_in(scan(e).stall, scan(e).dt, WINDOWS[i] as nat)
        &&& self.evict_rate == rates(e, family(PREEMPTIONS@), 2)
        &&& self.retract_rate == rates(e, aborted(), 2)
        &&& self.http_503_rate == rates(e, http_errors(), 2)
        &&& self.l2_device is None
        &&& self.l2_host is None
        &&& self.l2_wb == rates(e, family(OFFLOAD_STORED@), 2)
        &&& self.l2_rb == rates(e, family(OFFLOAD_LOADED@), 2)
        &&& self.l2_drop == rates(e, family(ALLOC_FAILURES@), 2)
        &&& self.gen_total is None
        &&& self.gen_progress is None
        &&& self.cpu_tokenizer is None
        &&& self.cpu_detokenizer is None
        &&& self.cpu_scheduler == rates(e, family(SCHEDULER_SECONDS@), 2)
        &&& self.graphs@ == scan(e)
        &&& self.window_focus == focus
    }
}

/// Derives everything that one draw needs from the ring; nothing while it is empty.
pub fn derive(h: &History, window_focus: usize) -> (r: Option<Derived>)
    requires
        h.wf(),
    ensures
        r is Some <==> h@.len() > 0,
        r is Some ==> r->0.derived_from(h@, window_focus),
{
    let last: &Sample = match h.last() {
        Some(e) => &e.sample,
        None => {
            return None;
        },
    };
    let graphs: Graphs = match h.scan() {
        Some(g) => g.copy(),
        None => {
            return None;
        },
    };
    proof {
        history::lemma_inside(h@, WINDOWS[2] as nat);
    }
    let stalls: [Stalls; 3] = fold_stalls(graphs.stall.as_slice(), graphs.dt.as_slice());
    let accepted: Option<Binary64> = h.gauge_pred(fam(SPEC_ACCEPTED));
    Some(
        Derived {
            model: identity_of(last, "model_name"),
            engine: identity_of(last, "engine"),
            running: h.gauge_pred(fam(RUNNING)),
            queue: h.gauge_pred(fam(WAITING)),
            decode_rate: rate_triple(h, decode_lane()),
            decode_instant: newest_of(&graphs.decode.vals),
            prefill_instant: newest_of(&graphs.prefill.vals),
            prefill_rate: rate_triple(h, prefill_lane()),
            pools: read_pools(h, last),
            cache_hit: ratio_over(
                h.gauge_pred(fam(PREFIX_HITS)),
                h.gauge_pred(fam(PREFIX_QUERIES)),
            ),
            cache_cached: h.rate_sum(any_hit_lane(), WINDOWS[2]),
            cache_computed: h.rate_sum(input_lane(), WINDOWS[2]),
            spec_accept: ratio_over(accepted, h.gauge_pred(fam(SPEC_DRAFT_TOKENS))),
            spec_accept_len: part_over(accepted, h.gauge_pred(fam(SPEC_DRAFTS))),
            ttft: latency_triple(h, TTFT),
            itl: latency_triple(h, ITL),
            e2e: latency_triple(h, E2E),
            queue_time: latency_triple(h, QUEUE_TIME),
            prompt_len_p50: h.hist_quantile(fam(PROMPT_TOKENS), percent(50), WINDOWS[2]),
            prompt_len_p95: h.hist_quantile(fam(PROMPT_TOKENS), percent(95), WINDOWS[2]),
            computed_p50: h.hist_quantile(fam(COMPUTED_TOKENS), percent(50), WINDOWS[2]),
            computed_p95: h.hist_quantile(fam(COMPUTED_TOKENS), percent(95), WINDOWS[2]),
            stalls,
            evict_rate: h.rate_sum(fam(PREEMPTIONS), WINDOWS[2]),
            retract_rate: h.rate_sum(
                fam_labeled(REQUEST_SUCCESS, "finished_reason", "abort"),
                WINDOWS[2],
            ),
            http_503_rate: h.rate_sum(fam_labeled(HTTP_REQUESTS, "status", "5xx"), WINDOWS[2]),
            l2_device: None,
            l2_host: None,
            l2_wb: h.rate_sum(fam(OFFLOAD_STORED), WINDOWS[2]),
            l2_rb: h.rate_sum(fam(OFFLOAD_LOADED), WINDOWS[2]),
            l2_drop: h.rate_sum(fam(ALLOC_FAILURES), WINDOWS[2]),
            gen_total: None,
            gen_progress: None,
            cpu_tokenizer: None,
            cpu_detokenizer: None,
            cpu_scheduler: h.rate_sum(fam(SCHEDULER_SECONDS), WINDOWS[2]),
            graphs,
            window_focus,
        },
    )
}

} // verus!
