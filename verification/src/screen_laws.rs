//! What the screen says, for the window in focus and beside it.

use vstd::arithmetic::power2::*;
use vstd::prelude::*;

use crate::accuracy;
use crate::binary64;
use crate::binary64::Binary64;
use crate::derive::{Alarms, Derived, Peaks, Pool, Quantiles};
use crate::detail;
use crate::figures;
use crate::fixed;
use crate::history;
use crate::lines;
use crate::lines::{KvView, SpanView, Tone};
use crate::panels;
use crate::scrape::Shared;
use crate::screen::Screen;
use crate::ui;
use crate::ui::{RateGraph, Ui};

verus! {

/// The row shows the three percentiles, typical first and worst last, each right-aligned
/// behind its lead.
pub open spec fn shows_percentiles(
    row: Seq<SpanView>,
    q: Quantiles,
    leads: Seq<Seq<char>>,
) -> bool {
    &&& row.len() == 4
    &&& row[1].text == leads[0] + figures::padded_left(figures::secs_text(q.p50), 7) + "  "@
    &&& row[2].text == leads[1] + figures::padded_left(figures::secs_text(q.p95), 7) + "  "@
    &&& row[3].text == leads[2] + figures::padded_left(figures::secs_text(q.p99), 7) + ""@
}

/// The latency table shows the percentiles of the window in focus: of the time to the first
/// token, between tokens, and in the queue; the first two in the compact layout.
#[verifier::rlimit(40)]
pub proof fn the_latency_table_is_of_the_window_in_focus(
    s: Screen,
    ui: Ui,
    shared: Shared,
    cols: u16,
    rows: u16,
    now: u64,
)
    requires
        ui.wf(),
        s.lays_out(ui, shared, cols, rows, now),
        s.derived is Some,
    ensures
        ({
            let d = s.derived->0;
            let f = ui.window_focus as int;
            let t = lines::lines_view(s.latency@);
            let bare = seq![""@, ""@, ""@];
            let named = seq!["p50 "@, "p95 "@, "p99 "@];
            &&& !s.compact ==> t.len() == 4 && shows_percentiles(t[1], d.ttft[f], bare)
                && shows_percentiles(t[2], d.itl[f], bare) && shows_percentiles(
                t[3],
                d.queue_time[f],
                bare,
            )
            &&& s.compact ==> t.len() == 2 && shows_percentiles(t[0], d.ttft[f], named)
                && shows_percentiles(t[1], d.itl[f], named)
        }),
{
}

/// The three rates, of the shortest window first.
pub open spec fn three_rates(v: [Option<Binary64>; 3]) -> Seq<char> {
    let one = |x: Option<Binary64>|
        match x {
            Some(r) => fixed::fixed_text(r, 0),
            None => "—"@,
        };
    one(v[0]) + "/"@ + one(v[1]) + "/"@ + one(v[2])
}

/// A rate line: the rate of the moment, zero before there is one, and the three rates.
pub open spec fn shows_rates(
    row: Seq<SpanView>,
    tag: Seq<char>,
    now: Option<Binary64>,
    v: [Option<Binary64>; 3],
) -> bool {
    &&& row.len() == 3
    &&& row[0].text == " "@ + tag + " "@
    &&& now is Some ==> row[1].text == fixed::fixed_text(now->0, 0) + " tok/s"@
    &&& now is None ==> row[1].text == fixed::fixed_text(binary64::zero(), 0) + " tok/s"@
    &&& row[2].text == "  ·  "@ + three_rates(v)
}

/// The status strip shows the running and queued requests, the token rates, and for the
/// window in focus the 95th percentile of the time to the first token and the stalls.
#[verifier::rlimit(40)]
pub proof fn the_status_strip_is_of_the_window_in_focus(
    s: Screen,
    ui: Ui,
    shared: Shared,
    cols: u16,
    rows: u16,
    now: u64,
)
    requires
        ui.wf(),
        s.lays_out(ui, shared, cols, rows, now),
        s.derived is Some,
    ensures
        ({
            let d = s.derived->0;
            let f = ui.window_focus as int;
            let c = panels::cells_view(s.hero@);
            let stalls = d.stalls[f];
            let window = if f == 0 {
                "5s"@
            } else if f == 1 {
                "15s"@
            } else {
                "60s"@
            };
            &&& c.len() == 6
            &&& c[0].label == "RUNNING"@ && c[0].lines[0][0].text == " "@ + figures::num_text(
                d.running,
            )
            &&& c[1].label == "QUEUE"@ && c[1].lines[0][0].text == " "@ + figures::num_text(d.queue)
            &&& shows_rates(c[2].lines[0], "prefill"@, d.prefill_instant, d.prefill_rate)
            &&& shows_rates(c[2].lines[1], "decode"@, d.decode_instant, d.decode_rate)
            &&& c[3].lines[0][0].text == " "@ + figures::secs_text(d.ttft[f].p95)
            &&& stalls.count > 0 ==> c[4].lines[0][0].text == " "@ + (fixed::digits_text(
                stalls.count as nat,
            ) + "×"@) && c[4].lines[0][0].tone == Tone::Bad
            &&& stalls.count == 0 ==> c[4].lines[0][0].text == " "@ + "0"@
                && c[4].lines[0][0].tone == Tone::Good
            &&& c[4].lines[1][0].text == " "@ + (fixed::fixed_text(stalls.seconds, 1)
                + "s frozen in "@ + window)
        }),
{
    let d = s.derived->0;
    let c = panels::cells_view(s.hero@);
    assert(c == panels::hero(&d, ui.window_focus as int));
    assert(figures::triple_text(d.prefill_rate) == three_rates(d.prefill_rate));
    assert(figures::triple_text(d.decode_rate) == three_rates(d.decode_rate));
    let cell = c[2];
    assert(cell == panels::rates_cell(&d));
    assert(cell.lines[0] == panels::rate_line(
        "prefill"@,
        d.prefill_instant,
        d.prefill_rate,
        Tone::S2,
    ));
    assert(cell.lines[1] == panels::rate_line(
        "decode"@,
        d.decode_instant,
        d.decode_rate,
        Tone::S1,
    ));
}

/// Colours say how good a number is: latencies turn from two seconds and half a second on,
/// the queue from twenty and five requests on, the hit rate below one half and four fifths,
/// and what should be zero as soon as it is not.
pub proof fn colours_turn_at_their_thresholds(x: Binary64)
    requires
        x.finite(),
    ensures
        ({
            let p = pow2(1074);
            let u = x.units();
            let v = Some(x);
            let most = binary64::quotient(binary64::integer(80), binary64::integer(100));
            &&& u > 2 * p ==> panels::latency_tone(v) == Tone::Bad
            &&& u <= 2 * p && 2 * u > p ==> panels::latency_tone(v) == Tone::Warn
            &&& 2 * u <= p ==> panels::latency_tone(v) == Tone::Good
            &&& u > 20 * p ==> panels::queue_tone(v) == Tone::Bad
            &&& u <= 20 * p && u > 5 * p ==> panels::queue_tone(v) == Tone::Warn
            &&& u <= 5 * p ==> panels::queue_tone(v) == Tone::Fg
            &&& 2 * u < p ==> detail::hit_tone(v) == Tone::Bad
            &&& 2 * u >= p && binary64::less(x, most) ==> detail::hit_tone(v) == Tone::Warn
            &&& 2 * u >= p && !binary64::less(x, most) ==> detail::hit_tone(v) == Tone::Good
            &&& u > 0 ==> panels::trouble_tone(v) == Tone::Bad
            &&& u <= 0 ==> panels::trouble_tone(v) == Tone::Good
        }),
{
    lemma_pow2_pos(1074);
    lemma_pow2_unfold(1074);
    assert(crate::rounding::magnitude(0) == 0);
    accuracy::half_is_exact();
    accuracy::small_integers_are_exact(2);
    accuracy::small_integers_are_exact(5);
    accuracy::small_integers_are_exact(20);
    accuracy::order_is_by_value(binary64::integer(2), x);
    accuracy::order_is_by_value(binary64::integer(5), x);
    accuracy::order_is_by_value(binary64::integer(20), x);
    accuracy::order_is_by_value(history::half(), x);
    accuracy::order_is_by_value(x, history::half());
    accuracy::order_is_by_value(binary64::zero(), x);
}

/// Some row has the given label.
pub open spec fn has_row(rows: Seq<KvView>, label: Seq<char>) -> bool {
    exists|i: int| 0 <= i < rows.len() && (#[trigger] rows[i]).k == label
}

/// Some row has the given label and the given value.
pub open spec fn has_value(rows: Seq<KvView>, label: Seq<char>, value: Seq<char>) -> bool {
    exists|i: int| 0 <= i < rows.len() && (#[trigger] rows[i]).k == label && rows[i].v == value
}

/// The rows of the detail panel show the numbers that they are named after.
#[verifier::rlimit(40)]
pub proof fn detail_rows_show_their_numbers(d: &Derived, f: int, a: Alarms)
    requires
        0 <= f < 3,
    ensures
        ({
            let quality = detail::quality_of(Some(d));
            let cache = detail::cache_of(Some(d));
            let health = detail::health_of(Some(d), f, a);
            let num = |x: Option<Binary64>| figures::num_text(x);
            let pct = |x: Option<Binary64>| figures::pct_text(x);
            &&& has_value(quality, "spec accept"@, pct(d.spec_accept))
            &&& d.spec_accept_len is Some ==> has_value(
                quality,
                "spec length"@,
                fixed::fixed_text(d.spec_accept_len->0, 2),
            )
            &&& has_value(cache, "cache hit"@, pct(d.cache_hit))
            &&& has_value(
                cache,
                "cached·computed"@,
                num(d.cache_cached) + " · "@ + num(d.cache_computed),
            )
            &&& has_value(cache, "preempt/s"@, num(d.evict_rate))
            &&& has_value(cache, "offload st·ld"@, num(d.l2_wb) + " · "@ + num(d.l2_rb))
            &&& has_value(cache, "alloc fail/s"@, num(d.l2_drop))
            &&& a.abort ==> has_value(health, "abort/s"@, num(d.retract_rate))
            &&& a.http_5xx ==> has_value(health, "5xx/s"@, num(d.http_503_rate))
            &&& a.alloc_fail ==> has_value(health, "alloc fail/s"@, num(d.l2_drop))
        }),
{
    let quality = detail::quality_of(Some(d));
    let cache = detail::cache_of(Some(d));
    let health = detail::health_of(Some(d), f, a);
    let n1 = 1 + if a.abort { 1int } else { 0 };
    let n2 = n1 + if a.http_5xx { 1int } else { 0 };
    assert(quality[0].k == "spec accept"@);
    if d.spec_accept_len is Some {
        assert(quality[1].k == "spec length"@);
    }
    assert(cache[0].k == "cache hit"@);
    assert(cache[1].k == "cached·computed"@);
    assert(cache[2].k == "preempt/s"@);
    assert(cache[3].k == "offload st·ld"@);
    assert(cache[4].k == "alloc fail/s"@);
    if a.abort {
        assert(health[1].k == "abort/s"@);
    }
    if a.http_5xx {
        assert(health[n1].k == "5xx/s"@);
    }
    if a.alloc_fail {
        assert(health[n2].k == "alloc fail/s"@);
    }
}

/// An alarm has its row once it fired, and not before.
#[verifier::rlimit(40)]
pub proof fn alarms_show_once_they_fired(d: &Derived, f: int, a: Alarms)
    requires
        0 <= f < 3,
    ensures
        ({
            let rows = detail::health_of(Some(d), f, a);
            &&& has_row(rows, "abort/s"@) <==> a.abort
            &&& has_row(rows, "5xx/s"@) <==> a.http_5xx
            &&& has_row(rows, "alloc fail/s"@) <==> a.alloc_fail
            &&& has_row(rows, "stalls"@)
        }),
{
    reveal_strlit("abort/s");
    reveal_strlit("5xx/s");
    reveal_strlit("alloc fail/s");
    reveal_strlit("stalls");
    reveal_strlit("sched cpu/s");
    let none = Seq::<KvView>::empty();
    let rows = detail::health_of(Some(d), f, a);
    let n0 = 1int;
    let n1 = n0 + if a.abort { 1int } else { 0 };
    let n2 = n1 + if a.http_5xx { 1int } else { 0 };
    let n3 = n2 + if a.alloc_fail { 1int } else { 0 };
    let n4 = n3 + if a.abort && a.http_5xx && a.alloc_fail { 0int } else { 1 };
    assert(rows.len() == n4 + 2);
    assert(rows[0].k == "stalls"@);
    if a.abort {
        assert(rows[n0].k == "abort/s"@);
    }
    if a.http_5xx {
        assert(rows[n1].k == "5xx/s"@);
    }
    if a.alloc_fail {
        assert(rows[n2].k == "alloc fail/s"@);
    }
    if n3 < n4 {
        assert(rows[n3].k.len() == 0);
    }
    assert(rows[n4].k == "sched cpu/s"@);
    assert(rows[n4 + 1].k.len() == 0);
    assert forall|i: int| 0 <= i < rows.len() implies (#[trigger] rows[i]).k == "stalls"@ || (a.abort
        && rows[i].k == "abort/s"@) || (a.http_5xx && rows[i].k == "5xx/s"@) || (a.alloc_fail
        && rows[i].k == "alloc fail/s"@) || rows[i].k.len() == 0 || rows[i].k
        == "sched cpu/s"@ by {
        assert(i == 0 || i == n0 || i == n1 || i == n2 || i == n3 || i == n4 || i == n4 + 1);
    }
    assert("stalls"@.len() == 6 && "abort/s"@.len() == 7 && "5xx/s"@.len() == 5
        && "alloc fail/s"@.len() == 12 && "sched cpu/s"@.len() == 11);
}

/// The banner says that scraping is paused while it is; else it names the error that cut the
/// connection, once the data is stale or was never there; else there is none.
pub proof fn the_banner_says_what_is_wrong(
    ui: Ui,
    error: Option<Seq<char>>,
    known: bool,
    age: Option<u64>,
    now: u64,
)
    ensures
        ({
            let b = detail::banner(ui, error, known, age, now);
            &&& ui.paused_since is Some && ui.paused_since->0 <= now ==> b == Some(
                (
                    "⏸ paused "@ + fixed::digits_text(
                        (now - ui.paused_since->0) as nat / 1_000_000_000,
                    ) + "s — press space to resume"@,
                    Tone::Warn,
                ),
            )
            &&& ui.paused_since is None ==> (b is Some <==> error is Some && (!known || ui::stale(
                age,
                ui.interval,
            )))
            &&& ui.paused_since is None && b is Some && age is Some ==> b == Some(
                (
                    "⚠ connection lost — retrying… last data "@ + fixed::digits_text(
                        age->0 as nat / 1_000_000_000,
                    ) + "s ago — "@ + error->0,
                    Tone::Bad,
                ),
            )
        }),
{
}

/// The layout is the one asked for, or compact on a terminal of fewer than 90 columns or 26
/// rows. The compact one has the decode graph alone; the full one the prefill graph before
/// it, and the latency plots. Graphs that are switched off are not there.
pub proof fn the_layout_fits_the_terminal(
    s: Screen,
    ui: Ui,
    shared: Shared,
    cols: u16,
    rows: u16,
    now: u64,
)
    requires
        ui.wf(),
        s.lays_out(ui, shared, cols, rows, now),
    ensures
        ui.compact is Some ==> s.compact == ui.compact->0,
        ui.compact is None ==> (s.compact <==> cols < 90 || rows < 26),
        !ui.graphs_on || s.derived is None ==> s.graphs@.len() == 0,
        ui.graphs_on && s.derived is Some && s.compact ==> s.graphs@ == seq![RateGraph::Decode],
        ui.graphs_on && s.derived is Some && !s.compact ==> s.graphs@ == seq![
            RateGraph::Prefill,
            RateGraph::Decode,
        ],
        s.latency_plots <==> !s.compact && s.derived is Some,
{
}

/// The panels have their heights by the layout: the detail panel of the full one grows with
/// its longest column, between 8 and 14 rows with its borders.
pub proof fn panels_have_their_heights(
    ui: Ui,
    compact: bool,
    d: Option<&Derived>,
    a: Alarms,
    p: Peaks,
)
    ensures
        ({
            let h = detail::heights(ui, compact, d, a, p);
            let f = ui.window_focus as int;
            let fits = |n: nat| n + 2 <= h.detail || h.detail == 14;
            &&& h.header == 1
            &&& compact ==> h.hero == 3 && h.latency == 5 && h.detail == 3
            &&& !compact ==> h.hero == 7 && h.latency == 8 && 8 <= h.detail <= 14
            &&& !compact ==> fits(detail::quality_of(d).len()) && fits(detail::cache_of(d).len())
                && fits(detail::health_of(d, f, a).len()) && fits(3)
            &&& !compact && h.detail > 8 ==> h.detail == 14 || h.detail == detail::quality_of(
                d,
            ).len() + 2 || h.detail == detail::cache_of(d).len() + 2 || h.detail
                == detail::health_of(d, f, a).len() + 2 || h.detail == 5
            &&& !ui.graphs_on ==> h.graphs is None
            &&& ui.graphs_on && compact ==> h.graphs == Some(3u16)
            &&& ui.graphs_on && !compact ==> h.graphs == Some(7u16)
        }),
{
    assert(detail::peak_lines(p).len() == 3);
}

/// Some span of the line has the given text.
pub open spec fn says(line: Seq<SpanView>, text: Seq<char>) -> bool {
    exists|i: int| 0 <= i < line.len() && (#[trigger] line[i]).text == text
}

/// The line at the top names the model and the engine, says how long they were watched and
/// how often they are asked, warns of certificates that are not verified, and says how old
/// the data is once it is older than two seconds.
#[verifier::rlimit(40)]
pub proof fn the_header_says_what_is_watched(
    ui: Ui,
    d: &Derived,
    uptime: Option<u64>,
    age: Option<u64>,
)
    ensures
        ({
            let h = panels::header(ui, Some(d), uptime, age);
            &&& says(h, " · "@ + d.model@ + " ("@ + d.engine@ + ")"@)
            &&& uptime is Some ==> says(
                h,
                " · up "@ + figures::dur_text(uptime->0 as nat / 1_000_000_000),
            )
            &&& says(h, " · poll "@ + fixed::fixed_text(ui.interval, 1) + "s"@)
            &&& ui.insecure ==> says(h, " · ⚠ insecure TLS"@)
            &&& age is Some && age->0 > 2_000_000_000 ==> says(
                h,
                " · data "@ + fixed::fixed_text(binary64::seconds(age->0 as nat), 0) + "s old"@,
            )
            &&& h.len() == 4 + (if uptime is Some {
                1int
            } else {
                0
            }) + (if ui.insecure {
                1int
            } else {
                0
            }) + (if age is Some && age->0 > 2_000_000_000 {
                1int
            } else {
                0
            })
        }),
{
    let h = panels::header(ui, Some(d), uptime, age);
    let n1 = 2 + if uptime is Some { 1int } else { 0 };
    let n2 = n1 + 1 + if ui.insecure { 1int } else { 0 };
    assert(h[1].text == " · "@ + d.model@ + " ("@ + d.engine@ + ")"@);
    if uptime is Some {
        assert(h[2].text == " · up "@ + figures::dur_text(uptime->0 as nat / 1_000_000_000));
    }
    assert(h[n1].text == " · poll "@ + fixed::fixed_text(ui.interval, 1) + "s"@);
    if ui.insecure {
        assert(h[n1 + 1].text == " · ⚠ insecure TLS"@);
    }
    if age is Some && age->0 > 2_000_000_000 {
        assert(h[n2].text == " · data "@ + fixed::fixed_text(
            binary64::seconds(age->0 as nat),
            0,
        ) + "s old"@);
    }
}

/// The line of a pool.
pub open spec fn pool_line(p: Pool) -> Seq<SpanView> {
    seq![
        SpanView {
            text: " "@ + p.name@ + " "@ + figures::pool_text(p),
            tone: Tone::Usage(p.usage),
            bold: true,
        },
    ]
}

/// The status strip has a line for every pool but the host tier, and for no other.
pub proof fn the_strip_shows_the_pools(p: Seq<Pool>)
    ensures
        forall|i: int|
            0 <= i < p.len() && (#[trigger] p[i]).name@ != "host"@ ==> panels::pool_lines(
                p,
            ).contains(pool_line(p[i])),
        forall|k: int|
            0 <= k < panels::pool_lines(p).len() ==> is_pool_line(
                p,
                #[trigger] panels::pool_lines(p)[k],
            ),
    decreases p.len(),
{
    if p.len() > 0 {
        let d = p.drop_last();
        the_strip_shows_the_pools(d);
        let before = panels::pool_lines(d);
        let all = panels::pool_lines(p);
        let n = p.len() - 1;
        if p.last().name@ != "host"@ {
            assert(all == before.push(pool_line(p.last())));
        }
        assert forall|i: int| 0 <= i < p.len() && (#[trigger] p[i]).name@
            != "host"@ implies all.contains(pool_line(p[i])) by {
            if i < n {
                assert(d[i] == p[i]);
                assert(before.contains(pool_line(d[i])));
                let k = choose|k: int| 0 <= k < before.len() && before[k] == pool_line(d[i]);
                assert(all[k] == before[k]);
            } else {
                assert(all[before.len() as int] == pool_line(p[i]));
            }
        }
        assert forall|k: int| 0 <= k < all.len() implies is_pool_line(p, #[trigger] all[k]) by {
            if k < before.len() {
                assert(all[k] == before[k]);
                assert(is_pool_line(d, before[k]));
                let i = choose|i: int|
                    0 <= i < d.len() && (#[trigger] d[i]).name@ != "host"@ && before[k]
                        == pool_line(d[i]);
                assert(p[i] == d[i]);
            } else {
                assert(p[n].name@ != "host"@);
            }
        }
    }
}

/// The line is that of a pool other than the host tier.
pub open spec fn is_pool_line(p: Seq<Pool>, line: Seq<SpanView>) -> bool {
    exists|i: int|
        0 <= i < p.len() && (#[trigger] p[i]).name@ != "host"@ && line == pool_line(p[i])
}

/// A pool shows how many of its tokens are used, where it has any and both numbers are
/// known, and else how much of it is.
pub proof fn pools_show_their_tokens_or_their_usage(p: Pool)
    ensures
        p.used is Some && p.total is Some && binary64::less(binary64::zero(), p.total->0)
            && p.unit@ == "tokens"@ ==> figures::pool_text(p) == figures::tokens_text(p.used->0)
            + "/"@ + figures::tokens_text(p.total->0) + " "@ + "tok"@,
        p.used is None || p.total is None || !binary64::less(binary64::zero(), p.total->0)
            ==> figures::pool_text(p) == figures::pct_text(Some(p.usage)),
{
    reveal_strlit("tokens");
    reveal_strlit("slots");
    assert("tokens"@.len() != "slots"@.len());
}

} // verus!
