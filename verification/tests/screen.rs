use vllm_top::args::{interval_millis, start_interval, Args};
use vllm_top::binary64::Binary64;
use vllm_top::decade::decade;
use vllm_top::derive::{Alarms, Derived, Peaks, Pool, Quantiles};
use vllm_top::detail::{
    banner_text, cache_col_kvs, compact_detail_text, detail_height, graphs_shown, health_col_kvs,
    panel_heights, peaks_col_lines, quality_col_kvs, time_since, Heights,
};
use vllm_top::figures::{
    fmt_dur, fmt_num, fmt_pct, fmt_secs, fmt_tokens, pad_left, pad_right, pool_value,
    prompt_computed_gloss, size_span, triple,
};
use vllm_top::graphs::{cache_miss_plot, rate_plot, ttft_plot};
use vllm_top::history::History;
use vllm_top::lines::{kv_lines, truncate_line, wrap_text, Kv, Span, Tone};
use vllm_top::metrics::parse;
use vllm_top::panels::{
    cache_miss_plot_face, cell_lines, header_line, hero_cells, lat_subtitle, latency_color,
    latency_lines, rate_graph_face, ttft_plot_face,
};
use vllm_top::plot::{grid_for_scale, mini_line_graph, Mark, Plot, PlotDress, Ticks};
use vllm_top::scrape::Shared;
use vllm_top::screen::{draw, Detail, DETAIL_TITLES, HERO_TITLE, LATENCY_TITLE};
use vllm_top::tour::{explain_lines, help_area, help_lines, Area};
use vllm_top::ui::{auto_compact, handle_key, is_compact, Key, Overlay, RateGraph, Ui};

const SEC: u64 = 1_000_000_000;

fn num(x: f64) -> Binary64 {
    Binary64::from_bits(x.to_bits())
}

fn float(x: Binary64) -> f64 {
    f64::from_bits(x.bits)
}

fn some(x: f64) -> Option<Binary64> {
    Some(num(x))
}

fn args() -> Args {
    Args {
        url: String::from("http://localhost:30000"),
        api_key: None,
        insecure: false,
        interval: num(1.0),
        theme: String::from("gruvbox"),
        compact: false,
        once: false,
    }
}

fn ui() -> Ui {
    Ui::new(&args())
}

fn text(line: &[Span]) -> String {
    line.iter().map(|s| s.text.as_str()).collect()
}

fn texts(lines: &[Vec<Span>]) -> Vec<String> {
    lines.iter().map(|l| text(l)).collect()
}

fn body(step: u32) -> String {
    let s = f64::from(step);
    format!(
        "# TYPE vllm:generation_tokens_total counter\n\
         vllm:generation_tokens_total {}\n\
         # TYPE vllm:prompt_tokens_by_source_total counter\n\
         vllm:prompt_tokens_by_source_total{{source=\"local_compute\"}} {}\n\
         vllm:prompt_tokens_by_source_total{{source=\"external_kv_transfer\"}} {}\n\
         # TYPE vllm:num_requests_running gauge\n\
         vllm:num_requests_running{{engine=\"3\",model_name=\"m\"}} 4\n\
         # TYPE vllm:num_requests_waiting gauge\n\
         vllm:num_requests_waiting 21\n\
         # TYPE vllm:kv_cache_usage_perc gauge\n\
         vllm:kv_cache_usage_perc 0.8\n\
         # TYPE vllm:cache_config_info gauge\n\
         vllm:cache_config_info{{kv_cache_size_tokens=\"10000\"}} 1.0\n\
         # TYPE vllm:kv_offload_cpu_cache_usage_perc gauge\n\
         vllm:kv_offload_cpu_cache_usage_perc 0.93\n\
         # TYPE vllm:prefix_cache_hits_total counter\n\
         vllm:prefix_cache_hits_total {}\n\
         # TYPE vllm:prefix_cache_queries_total counter\n\
         vllm:prefix_cache_queries_total {}\n",
        40.0 * s,
        1500.0 * s,
        90.0 * s,
        60.0 * s,
        100.0 * s,
    )
}

fn history(steps: u32) -> History {
    let mut h = History::default();
    for i in 0..steps {
        h.push(SEC * u64::from(i + 1), parse(&body(i)).unwrap());
    }
    h
}

fn derived(focus: usize) -> Derived {
    vllm_top::derive::derive(&history(4), focus).unwrap()
}

#[test]
fn figures_are_short() {
    assert_eq!(fmt_dur(59 * SEC + SEC - 1), "59s");
    assert_eq!(fmt_dur(61 * SEC), "1m1s");
    assert_eq!(fmt_dur(3600 * SEC), "1h00m");
    assert_eq!(fmt_dur((7 * 3600 + 9 * 60) * SEC), "7h09m");
    assert_eq!(fmt_num(some(999.4)), "999");
    assert_eq!(fmt_num(some(1000.0)), "1.0k");
    assert_eq!(fmt_num(some(-1500.0)), "-1.5k");
    assert_eq!(fmt_num(None), "—");
    assert_eq!(fmt_pct(some(0.425)), "42%");
    assert_eq!(fmt_pct(None), "—");
    assert_eq!(fmt_tokens(num(115904.0)), "116k");
    assert_eq!(fmt_tokens(num(2843392.0)), "2.8M");
    assert_eq!(fmt_tokens(num(999.0)), "999");
    assert_eq!(fmt_secs(some(0.25)), "250ms");
    assert_eq!(fmt_secs(some(12.34)), "12.3s");
    assert_eq!(fmt_secs(some(100.0)), "100s");
    assert_eq!(fmt_secs(None), "—");
    assert_eq!(triple(&[some(1.4), None, some(2.5)]), "1/—/2");
    assert_eq!(size_span(some(27500.0), some(178000.0)).unwrap(), "27.5k–178.0k");
    assert_eq!(size_span(some(5.0), None).unwrap(), "5");
    assert!(size_span(None, some(1.0)).is_none());
    assert_eq!(pad_left("ab", 4), "  ab");
    assert_eq!(pad_right("—b", 4), "—b  ");
    assert_eq!(pad_right("abcde", 4), "abcde");
}

#[test]
fn pools_show_counts_or_usage() {
    let mut p = Pool {
        name: "KV",
        usage: num(0.8),
        used: some(8000.0),
        total: some(10000.0),
        unit: "tokens",
    };
    assert_eq!(pool_value(&p).unwrap(), "8k/10k tok");
    p.unit = "slots";
    assert_eq!(pool_value(&p).unwrap(), "8k/10k slots");
    p.total = some(0.0);
    assert_eq!(pool_value(&p).unwrap(), "80%");
    p.used = None;
    assert_eq!(pool_value(&p).unwrap(), "80%");
}

#[test]
fn header_names_what_is_watched() {
    let d = derived(2);
    let mut u = ui();
    assert_eq!(
        text(&header_line(&u, Some(&d), Some(61 * SEC), Some(SEC))),
        " vllm-top · m (3) · up 1m1s · poll 1.0s  [? help · e explain]"
    );
    u.insecure = true;
    assert_eq!(
        text(&header_line(&u, None, Some(61 * SEC), Some(2 * SEC + SEC / 2))),
        " vllm-top · poll 1.0s · ⚠ insecure TLS · data 2s old  [? help · e explain]"
    );
    assert_eq!(
        text(&header_line(&u, None, None, Some(2 * SEC))),
        " vllm-top · poll 1.0s · ⚠ insecure TLS  [? help · e explain]"
    );
}

#[test]
fn hero_cells_stand_in_order() {
    let d = derived(2);
    let cells = hero_cells(&d, 2);
    let labels: Vec<&str> = cells.iter().map(|c| c.label.as_str()).collect();
    assert_eq!(
        labels,
        vec![
            "RUNNING",
            "QUEUE",
            "TOKEN/s",
            "TIME TO FIRST TOKEN",
            "STALLS",
            "MEMORY POOLS"
        ]
    );
    assert_eq!(texts(&cells[0].lines), vec![" 4", " being answered now"]);
    assert_eq!(texts(&cells[1].lines), vec![" 21", " waiting to start"]);
    assert_eq!(cells[1].lines[0][0].tone, Tone::Bad);
    assert_eq!(
        texts(&cells[2].lines),
        vec![
            " prefill 1500 tok/s  ·  1500/1500/1500",
            " decode 40 tok/s  ·  40/40/40"
        ]
    );
    assert_eq!(texts(&cells[3].lines), vec![" —", " p95 · first token"]);
    assert_eq!(texts(&cells[4].lines), vec![" 0", " 0.0s frozen in 60s"]);
    assert!(!cells[4].lines[0][0].bold, "no stall, no weight");
    let mut stalled = derived(2);
    stalled.stalls[2].count = 3;
    let busy = hero_cells(&stalled, 2);
    assert_eq!(text(&busy[4].lines[0]), " 3×");
    assert!(busy[4].lines[0][0].bold);
    // the host pool stays out of the cell
    assert_eq!(
        texts(&cells[5].lines),
        vec![" KV 8k/10k tok", " full = requests queue"]
    );
    assert_eq!(cells[5].lines[0][0].tone, Tone::Usage(num(0.8)));

    assert_eq!(
        texts(&cell_lines(&cells[5], true, 8)),
        vec!["memory …", " KV 8k/…", " full =…"]
    );
    assert_eq!(
        texts(&cell_lines(&cells[0], false, 80)),
        vec!["RUNNING", " 4", " being answered now"]
    );
}

#[test]
fn latency_colours_follow_the_wait() {
    assert_eq!(latency_color(some(2.5)), Tone::Bad);
    assert_eq!(latency_color(some(2.0)), Tone::Warn);
    assert_eq!(latency_color(some(0.5)), Tone::Good);
    assert_eq!(latency_color(None), Tone::Dim);
}

#[test]
fn latency_table_has_a_row_per_metric() {
    let mut d = derived(2);
    d.ttft[1] = Quantiles {
        p50: some(0.1),
        p95: some(3.0),
        p99: None,
    };
    assert_eq!(
        texts(&latency_lines(Some(&d), 1, false)),
        vec![
            "               p50      p95      p99",
            " TTFT        100ms   3000ms        —",
            " ITL             —        —        —",
            " queue time      —        —        —"
        ]
    );
    assert_eq!(
        texts(&latency_lines(Some(&d), 1, true)),
        vec![
            " time to first token (TTFT)p50   100ms  p95  3000ms  p99       —",
            " time between tokens (ITL) p50       —  p95       —  p99       —"
        ]
    );
    assert!(latency_lines(None, 1, false).is_empty());
    assert_eq!(lat_subtitle(None), "p50 typical · p95 1-in-20 · p99 worst");
    d.prompt_len_p50 = some(27500.0);
    d.prompt_len_p95 = some(178000.0);
    d.computed_p50 = some(2100.0);
    assert_eq!(
        prompt_computed_gloss(&d).unwrap(),
        "prompt 27.5k–178.0k · computed 2.1k tok"
    );
    assert_eq!(
        lat_subtitle(Some(&d)),
        "p50 typical · p95 1-in-20 · p99 worst · prompt 27.5k–178.0k · computed 2.1k tok"
    );
}

#[test]
fn alarm_rows_collapse_until_they_fire() {
    let d = derived(2);
    let quiet = kv_lines(&health_col_kvs(Some(&d), 2, &Alarms::default()), 80);
    assert_eq!(
        texts(&quiet),
        vec![
            " stalls       0    moments when prefill work froze every stream",
            " quiet: abort·5xx·alloc fail",
            " sched cpu/s  0.0  ",
            " scheduler compute"
        ]
    );
    let fired = Alarms {
        abort: true,
        http_5xx: false,
        alloc_fail: false,
    };
    let rows = texts(&kv_lines(&health_col_kvs(Some(&d), 2, &fired), 80));
    assert!(rows[1].starts_with(" abort/s"));
    assert_eq!(rows[2], " quiet: 5xx·alloc fail");
    let all = Alarms {
        abort: true,
        http_5xx: true,
        alloc_fail: true,
    };
    let rows = texts(&kv_lines(&health_col_kvs(Some(&d), 2, &all), 80));
    assert_eq!(rows.len(), 6);
    assert!(!rows.iter().any(|r| r.contains("quiet")));
    let mid = Alarms {
        abort: false,
        http_5xx: true,
        alloc_fail: false,
    };
    let rows = texts(&kv_lines(&health_col_kvs(Some(&d), 2, &mid), 80));
    assert_eq!(rows[2], " quiet: abort·alloc fail");
}

#[test]
fn stall_rows_show_the_mean() {
    let mut d = derived(0);
    d.stalls[0].count = 4;
    d.stalls[0].seconds = num(6.0);
    let rows = health_col_kvs(Some(&d), 0, &Alarms::default());
    assert_eq!(rows[0].v, "4 × 1.5s in 5s");
    assert_eq!(rows[0].tone, Some(Tone::Bad));
    assert_eq!(
        compact_detail_text(Some(&d), 0),
        "cache hit 60% · cached·computed 90·1.5k · spec accept —\n\
         stalls 4 × 1.5s in 5s · preempt/s — · abort/s — · 5xx/s —"
    );
    assert_eq!(
        compact_detail_text(Some(&d), 1).lines().nth(1).unwrap(),
        "stalls 0 × 0.0s in 15s · preempt/s — · abort/s — · 5xx/s —"
    );
    assert_eq!(compact_detail_text(None, 1), "");
}

#[test]
fn detail_columns_and_their_height() {
    let mut d = derived(2);
    let c = cache_col_kvs(Some(&d));
    assert_eq!(c.len(), 5);
    assert_eq!(c[0].v, "60%");
    assert_eq!(c[0].tone, Some(Tone::Warn));
    assert_eq!(c[1].v, "90 · 1.5k");
    assert_eq!(quality_col_kvs(Some(&d)).len(), 1);
    d.spec_accept_len = some(3.25);
    let q = quality_col_kvs(Some(&d));
    assert_eq!(q[1].v, "3.25");
    let p = Peaks {
        decode: some(402.0),
        prefill: None,
        decode_single: some(134.4),
    };
    assert_eq!(
        texts(&peaks_col_lines(&p)),
        vec![" decode   402 tok/s", " prefill  —", " single   134 tok/s"]
    );
    let quiet = Alarms::default();
    assert_eq!(detail_height(Some(&d), 2, &quiet, &p), 8);
    assert_eq!(detail_height(None, 2, &quiet, &p), 8);
    let one = Alarms {
        abort: true,
        http_5xx: true,
        alloc_fail: false,
    };
    // five rows stay within the lower bound, six fill it
    assert_eq!(detail_height(Some(&d), 2, &one, &p), 8);
    assert!(cache_col_kvs(None).is_empty());
    assert!(quality_col_kvs(None).is_empty());
    assert!(health_col_kvs(None, 2, &quiet).is_empty());
}

#[test]
fn panel_heights_follow_the_layout() {
    let mut u = ui();
    let p = Peaks::default();
    let a = Alarms::default();
    assert_eq!(
        panel_heights(&u, false, None, &a, &p),
        Heights {
            header: 1,
            hero: 7,
            graphs: Some(7),
            latency: 8,
            detail: 8
        }
    );
    assert_eq!(
        panel_heights(&u, true, None, &a, &p),
        Heights {
            header: 1,
            hero: 3,
            graphs: Some(3),
            latency: 5,
            detail: 3
        }
    );
    assert_eq!(graphs_shown(&u, false), vec![RateGraph::Prefill, RateGraph::Decode]);
    assert_eq!(graphs_shown(&u, true), vec![RateGraph::Decode]);
    u.graphs_on = false;
    assert_eq!(panel_heights(&u, false, None, &a, &p).graphs, None);
    assert!(graphs_shown(&u, false).is_empty());
}

#[test]
fn long_lines_are_cut_with_an_ellipsis() {
    let span = |s: &str| Span {
        text: String::from(s),
        tone: Tone::Fg,
        bold: false,
    };
    let line = vec![span("ab"), span("cde"), span("f")];
    assert_eq!(text(&truncate_line(&line, 7)), "abcdef");
    assert_eq!(text(&truncate_line(&line, 6)), "abcdef");
    assert_eq!(text(&truncate_line(&line, 5)), "abcd…");
    assert_eq!(text(&truncate_line(&line, 4)), "abc…");
    assert_eq!(text(&truncate_line(&line, 3)), "ab…");
    assert_eq!(text(&truncate_line(&line, 2)), "a…");
    assert_eq!(text(&truncate_line(&line, 1)), "…");
    assert!(truncate_line(&line, 0).is_empty());
    // a cut that falls on the end of a span is marked too
    let halves = vec![span("abc"), span("def")];
    let cut = truncate_line(&halves, 3);
    assert_eq!(text(&cut), "ab\u{2026}");
    assert_eq!(cut.len(), 1);
    // the ellipsis takes the style of the span it falls in
    let mut tail = span("def");
    tail.tone = Tone::Bad;
    tail.bold = true;
    let cut = truncate_line(&vec![span("abc"), tail], 5);
    assert_eq!(text(&cut), "abcd…");
    assert_eq!((cut[1].tone, cut[1].bold), (Tone::Bad, true));
}

#[test]
fn a_lost_gloss_leaves_a_mark() {
    let rows = vec![Kv::plain("12345678", String::from("1"), "gloss")];
    // the key and value columns fill fourteen characters
    assert_eq!(texts(&kv_lines(&rows, 14)), vec![" 12345678  1 …"]);
    assert_eq!(texts(&kv_lines(&rows, 19)), vec![" 12345678  1  gloss"]);
    let p = Peaks {
        decode: some(402.0),
        prefill: None,
        decode_single: None,
    };
    let l = peaks_col_lines(&p);
    assert_eq!(text(&truncate_line(&l[0], 10)), " decode  …");
}

#[test]
fn rows_align_to_the_widest_value() {
    let rows = vec![
        Kv::plain("k", String::from("1"), "gloss"),
        Kv::colored("longest key", String::from("—22"), "g", Tone::Bad),
        Kv::gloss_only(String::from("note")),
    ];
    assert_eq!(
        texts(&kv_lines(&rows, 40)),
        vec![
            " k            1    gloss",
            " longest key  —22  g",
            " note"
        ]
    );
    assert_eq!(texts(&kv_lines(&rows, 9))[1], " longest…");
}

#[test]
fn text_wraps_by_bytes() {
    assert_eq!(wrap_text("aa bb cc", 5), vec!["aa bb", "cc"]);
    assert_eq!(wrap_text("  aa   bb\ncc ", 80), vec!["aa bb", "cc"]);
    // a dash takes three bytes
    assert_eq!(wrap_text("aa — cc", 5), vec!["aa", "—", "cc"]);
    assert_eq!(wrap_text("aa — cc", 6), vec!["aa —", "cc"]);
    assert_eq!(wrap_text("wordlongerthanline x", 5), vec!["wordlongerthanline", "x"]);
    assert_eq!(wrap_text("", 5), vec![""]);
}

#[test]
fn overlays_tell_the_keys_and_the_panels() {
    let help = texts(&help_lines());
    assert_eq!(help.len(), 10);
    assert_eq!(help[1], " space    pause scraping (for staring & screenshots)");
    let tour = texts(&explain_lines(118));
    assert_eq!(tour[0], " A token");
    assert!(tour.iter().any(|l| l.starts_with(" Time to first token")));
    assert!(tour.iter().any(|l| l.contains("p50 is a typical request")));
    assert!(tour.iter().all(|l| l.len() <= 115));
    // a section of two paragraphs has one title
    assert_eq!(tour.iter().filter(|l| *l == " Memory pools").count(), 1);
    assert_eq!(tour.iter().filter(|l| l.is_empty()).count(), 16);
    let narrow = texts(&explain_lines(3));
    assert!(narrow.iter().any(|l| l == " A token is roughly a"));

    let screen = Area {
        x: 2,
        y: 1,
        width: 120,
        height: 30,
    };
    assert_eq!(
        help_area(screen),
        Area {
            x: 36,
            y: 8,
            width: 52,
            height: 16
        }
    );
    let tiny = Area {
        x: 0,
        y: 0,
        width: 20,
        height: 4,
    };
    assert_eq!(help_area(tiny), tiny);
}

#[test]
fn keys_change_the_screen() {
    let mut u = ui();
    let mut s = Shared::new();
    let small = Some((80u16, 24u16));
    let press = |u: &mut Ui, s: &mut Shared, k: Key| handle_key(u, s, k, small, 5 * SEC);
    assert!(press(&mut u, &mut s, Key::Char('q')));
    assert!(press(&mut u, &mut s, Key::Esc));
    assert!(!press(&mut u, &mut s, Key::Other));
    assert!(!press(&mut u, &mut s, Key::Char('x')));

    assert!(!press(&mut u, &mut s, Key::Char(' ')));
    assert!(s.paused);
    assert_eq!(u.paused_since, Some(5 * SEC));
    press(&mut u, &mut s, Key::Char(' '));
    assert!(!s.paused);
    assert_eq!(u.paused_since, None);

    // a small terminal is compact by itself, so the key asks for the full layout
    press(&mut u, &mut s, Key::Char('c'));
    assert_eq!(u.compact, Some(false));
    press(&mut u, &mut s, Key::Char('c'));
    assert_eq!(u.compact, Some(true));

    press(&mut u, &mut s, Key::Char('g'));
    assert!(!u.graphs_on);
    for name in ["catppuccin", "tokyonight", "gruvbox"] {
        press(&mut u, &mut s, Key::Char('t'));
        assert_eq!(u.theme(), name);
    }
    for (c, i) in [('1', 0), ('2', 1), ('3', 2)] {
        press(&mut u, &mut s, Key::Char(c));
        assert_eq!(u.window_focus, i);
    }

    press(&mut u, &mut s, Key::Down);
    assert_eq!(u.scroll, 0, "only the tour scrolls");
    press(&mut u, &mut s, Key::Char('e'));
    assert_eq!(u.overlay, Overlay::Explain);
    press(&mut u, &mut s, Key::Down);
    press(&mut u, &mut s, Key::Char('j'));
    press(&mut u, &mut s, Key::Up);
    assert_eq!(u.scroll, 1);
    press(&mut u, &mut s, Key::Char('k'));
    press(&mut u, &mut s, Key::Char('k'));
    assert_eq!(u.scroll, 0);
    press(&mut u, &mut s, Key::Char('?'));
    assert_eq!(u.overlay, Overlay::Help);
    press(&mut u, &mut s, Key::Char('?'));
    assert_eq!(u.overlay, Overlay::Closed);
}

#[test]
fn the_interval_stays_in_bounds() {
    let mut u = ui();
    let mut s = Shared::new();
    let mut seen = Vec::new();
    for c in ['+', '=', '+', '+', '+'] {
        handle_key(&mut u, &mut s, Key::Char(c), None, 0);
        seen.push((float(u.interval), s.interval_ms));
    }
    assert_eq!(
        seen,
        vec![(2.0, 2000), (4.0, 4000), (8.0, 8000), (10.0, 10000), (10.0, 10000)]
    );
    for _ in 0..6 {
        handle_key(&mut u, &mut s, Key::Char('-'), None, 0);
    }
    assert_eq!(float(u.interval), 0.5);
    assert_eq!(s.interval_ms, 500);
    assert_eq!(float(start_interval(num(0.1))), 0.5);
    assert_eq!(float(start_interval(num(99.0))), 10.0);
    assert_eq!(interval_millis(num(1.2345)), 1234);
}

#[test]
fn settings_reach_the_screen() {
    let mut a = args();
    a.theme = String::from("tokyonight");
    a.compact = true;
    a.insecure = true;
    a.interval = num(0.0);
    let u = Ui::new(&a);
    assert_eq!(u.theme(), "tokyonight");
    assert_eq!(u.compact, Some(true));
    assert!(u.insecure);
    assert_eq!(float(u.interval), 0.5);
    a.theme = String::from("nosuch");
    assert_eq!(Ui::new(&a).theme(), "gruvbox");
    assert!(is_compact(&u, 200, 60));
    assert!(is_compact(&ui(), 89, 26));
    assert!(is_compact(&ui(), 90, 25));
    assert!(!is_compact(&ui(), 90, 26));
    assert!(!auto_compact(None));
}

#[test]
fn banner_tells_of_a_pause_or_a_lost_connection() {
    let mut u = ui();
    let err = Some(String::from("scrape failed: connection refused"));
    let banner = |u: &Ui, e: &Option<String>, known: bool, age: Option<u64>| {
        banner_text(u, e, known, age, 100 * SEC)
    };
    assert!(banner(&u, &None, true, Some(500 * SEC)).is_none());
    // three intervals and a second: four seconds are not yet stale
    assert!(banner(&u, &err, true, Some(4 * SEC)).is_none());
    let (msg, tone) = banner(&u, &err, true, Some(4 * SEC + 1)).unwrap();
    assert_eq!(
        msg,
        "⚠ connection lost — retrying… last data 4s ago — scrape failed: connection refused"
    );
    assert_eq!(tone, Tone::Bad);
    let (msg, _) = banner(&u, &err, true, Some(30 * SEC)).unwrap();
    assert!(msg.contains("30s ago"));
    let (msg, _) = banner(&u, &err, false, None).unwrap();
    assert!(msg.contains("last data 0s ago"));
    u.paused_since = Some(93 * SEC);
    let (msg, tone) = banner(&u, &err, true, None).unwrap();
    assert_eq!(msg, "⏸ paused 7s — press space to resume");
    assert_eq!(tone, Tone::Warn);
    assert_eq!(time_since(5, 3), 0);
}

#[test]
fn the_decade_is_the_power_of_ten_at_or_below() {
    for (x, want) in [
        (1.0, 1.0),
        (9.999, 1.0),
        (10.0, 10.0),
        (0.34, 0.1),
        (0.1, 0.1),
        (0.09, 0.01),
        (999.0, 100.0),
        (1000.0, 1000.0),
        (123456.0, 100000.0),
        (1e23, 1e23),
        (f64::MAX, 1e308),
        (3e-7, 1e-7),
        (f64::MIN_POSITIVE, 1e-308),
        (1e-323, 1e-323),
        (5e-324, 0.0),
        (f64::INFINITY, f64::INFINITY),
    ] {
        assert_eq!(float(decade(num(x))), want, "{x:e}");
    }
    // the choice that the logarithm makes
    let mut x: f64 = 1.7e-9;
    while x < 1e12 {
        let by_log = 10.0_f64.powf(x.log10().floor());
        let got = float(decade(num(x)));
        assert!((got / by_log - 1.0).abs() < 1e-15, "{x:e}: {got:e} {by_log:e}");
        x *= 1.37;
    }
}

#[test]
fn grid_lines_reach_the_scale() {
    let values = |scale: f64| -> (Vec<f64>, f64) {
        let (lines, top) = grid_for_scale(num(scale));
        (lines.iter().map(|v| float(*v)).collect(), float(top))
    };
    assert_eq!(values(34.0), (vec![10.0, 20.0, 30.0, 40.0], 40.0 * 1.1));
    assert_eq!(values(3.0), (vec![1.0, 2.0, 3.0], 3.0 * 1.1));
    assert_eq!(values(0.34).0.len(), 4);
    assert_eq!(values(0.34).0[0], 0.1);
    assert_eq!(values(0.0), (vec![], 1.0));
    assert_eq!(values(-3.0), (vec![], 1.0));
    assert!(values(f64::INFINITY).0.is_empty());
    let mut x: f64 = 0.0037;
    while x < 1e9 {
        let (lines, top) = values(x);
        assert!((1..=10).contains(&lines.len()), "{x:e}: {lines:?}");
        assert!(top > x, "{x:e}");
        x *= 1.29;
    }
}

#[test]
fn a_plot_fills_breaks_and_marks() {
    let vals = [some(1.0), some(2.0), None, some(4.0)];
    let dt = [num(15.0), num(15.0), num(15.0), num(15.0)];
    let stall = [false, true, false, true];
    let evict = [num(0.0), num(3.0), num(2.0), num(0.0)];
    let grid = [num(1.0), num(2.0), num(3.0), num(4.0)];
    let dress = PlotDress {
        unit: " tok/s",
        ticks: Some(Ticks {
            stall: &stall,
            evict: Some(&evict),
        }),
        overlay: Some(&vals),
        ref_lines: &grid,
    };
    let p = mini_line_graph(20, 4, &vals, &dt, num(4.0), &dress).unwrap();
    assert_eq!((p.dots.width, p.dots.height), (40, 16));
    // the window is full: positions start at 0, 9.75, 19.5 and 29.25 of 39
    let ticks: Vec<(f64, Mark)> = p.ticks.iter().map(|(x, m)| (float(*x), *m)).collect();
    assert_eq!(
        ticks,
        vec![(9.75, Mark::Stall), (19.5, Mark::Evict), (29.25, Mark::Stall)]
    );
    let cols: Vec<(f64, f64)> = p.cols.iter().map(|(x, h)| (float(*x), float(*h))).collect();
    // ten columns between the first two points, then the newest held from 29 to 39
    assert_eq!(cols.len(), 10 + 11);
    assert_eq!(cols[0], (0.0, 0.25 * 16.0 * 0.96));
    assert_eq!(cols[9].0, 9.0);
    assert_eq!(cols[10], (29.0, 16.0 * 0.96));
    assert_eq!(cols[20], (39.0, 16.0 * 0.96));
    assert!(cols.iter().all(|(x, _)| *x < 10.0 || *x > 28.0), "the gap is drawn");
    // the line joins neighbours only
    assert_eq!(p.overlay.len(), 1);
    assert_eq!(float(p.overlay[0].1 .0), 9.75);
    assert_eq!(p.dashes.len(), 8);
    assert_eq!(p.dashes[7], (35, 37));
    assert_eq!(p.grid.len(), 4);
    assert_eq!(float(p.grid[3]), 14.0);
    let labels: Vec<&str> = p.labels.iter().map(|(_, t)| t.as_str()).collect();
    assert_eq!(labels[0], "1 tok/s");
    assert!(labels.len() < 4, "labels that share a row are dropped: {labels:?}");
    assert_eq!(float(p.tick_height), 2.0);

    assert!(mini_line_graph(20, 4, &vals, &[], num(4.0), &dress).is_none());
    assert!(mini_line_graph(20, 4, &vals, &dt, num(0.0), &dress).is_none());
    assert!(mini_line_graph(0, 4, &vals, &dt, num(4.0), &dress).is_none());
    assert!(mini_line_graph(20, 0, &vals, &dt, num(4.0), &dress).is_none());
}

#[test]
fn graph_faces_carry_titles_and_scales() {
    let d = derived(2);
    let peaks = Peaks {
        decode: some(402.0),
        prefill: some(812.0),
        decode_single: None,
    };
    let f = rate_graph_face(&d, RateGraph::Prefill, &peaks);
    assert_eq!(
        text(&f.title),
        " Prefill (prompt processing) — now 1500 · peak 1500 ● "
    );
    assert_eq!(text(f.sub.as_ref().unwrap()), " bursts freeze streams ");
    assert_eq!(float(f.scale), 1500.0);
    let f = rate_graph_face(&d, RateGraph::Decode, &peaks);
    assert_eq!(
        text(&f.title),
        " Decode (token generation) — aggregate now 40 · peak 402 ● "
    );
    assert_eq!(
        text(f.sub.as_ref().unwrap()),
        " aggregate · single-stream  · avg 10 · peak 10 "
    );
    let f = ttft_plot_face(&d);
    assert_eq!(text(&f.title), " TTFT ● p95");
    assert!(f.sub.is_none());
    assert_eq!(f.tone, Tone::Dim);
    let f = cache_miss_plot_face(&d);
    assert_eq!(text(&f.title), " Cache misses ●");
    assert_eq!(float(f.scale), 1500.0);
}

#[test]
fn graphs_plot_their_lanes() {
    let mut d = derived(2);
    d.graphs.stall = vec![false, true, false];
    d.graphs.evictions.vals = vec![num(0.0), num(2.0), num(3.0)];
    let peaks = Peaks::default();
    let decode = rate_plot(&d, RateGraph::Decode, &peaks, 30, 5).unwrap();
    let marks = |p: &Plot| -> Vec<Mark> { p.ticks.iter().map(|(_, m)| *m).collect() };
    assert_eq!(marks(&decode), vec![Mark::Stall]);
    assert_eq!(decode.overlay.len(), 2);
    assert_eq!(decode.labels[0].1, "10 tok/s");
    let prefill = rate_plot(&d, RateGraph::Prefill, &peaks, 30, 5).unwrap();
    assert!(prefill.ticks.is_empty() && prefill.overlay.is_empty());
    assert_eq!(prefill.labels[0].1, "1k tok/s");
    assert!(!prefill.cols.is_empty());
    let miss = cache_miss_plot(&d, 30, 5).unwrap();
    assert_eq!(marks(&miss), vec![Mark::Stall, Mark::Evict]);
    assert_eq!(miss.labels[0].1, "1k tok/s");
    d.graphs.ttft_p95 = vec![some(0.1), None, some(0.3)];
    let ttft = ttft_plot(&d, 30, 5).unwrap();
    assert_eq!(marks(&ttft), vec![Mark::Stall, Mark::Evict]);
    assert_eq!(ttft.labels[0].1, "0.1s");
    assert!(ttft_plot(&d, 0, 5).is_none());
}

// The latency plots carry labeled y-gridlines like the rate graphs do,
// working at any magnitude: a sub-second TTFT scale labels its seconds
// (0.1s), a tok/s scale labels k-formatted rates (10 tok/s).
#[test]
fn latency_plots_carry_labeled_gridlines_at_any_magnitude() {
    let body = |i: u32| {
        format!(
            "# TYPE vllm:time_to_first_token_seconds histogram\n\
             vllm:time_to_first_token_seconds_bucket{{le=\"0.1\"}} {}\n\
             vllm:time_to_first_token_seconds_bucket{{le=\"0.2\"}} {}\n\
             vllm:time_to_first_token_seconds_bucket{{le=\"0.4\"}} {}\n\
             vllm:time_to_first_token_seconds_bucket{{le=\"+Inf\"}} {}\n\
             vllm:time_to_first_token_seconds_count {}\n\
             # TYPE vllm:prompt_tokens_by_source_total counter\n\
             vllm:prompt_tokens_by_source_total{{source=\"local_compute\"}} {}\n\
             # TYPE vllm:num_requests_running gauge\n\
             vllm:num_requests_running 2\n",
            2.0 * f64::from(i),
            5.0 * f64::from(i),
            6.0 * f64::from(i),
            6.0 * f64::from(i),
            6.0 * f64::from(i),
            10.0 * f64::from(i)
        )
    };
    let mut h = History::default();
    for i in 0..4 {
        h.push(SEC * u64::from(i), parse(&body(i)).unwrap());
    }
    let d = vllm_top::derive::derive(&h, 2).unwrap();
    let labels = |p: Option<Plot>| -> Vec<String> {
        p.unwrap().labels.iter().map(|(_, t)| t.clone()).collect()
    };
    let ttft = labels(ttft_plot(&d, 33, 4));
    assert!(
        ttft.contains(&String::from("0.1s")),
        "fractional ttft gridline label missing: {ttft:?}"
    );
    let miss = labels(cache_miss_plot(&d, 33, 4));
    assert!(
        miss.contains(&String::from("10 tok/s")),
        "cache-miss gridline label missing: {miss:?}"
    );
}

// The very first frame, before any scrape has landed, shows a stable
// zero state: the panels and their placeholders stand, no graph is
// plotted from an empty ring, and no fabricated numbers appear. Two
// consecutive frames must be identical.
#[test]
fn cold_start_frame_renders_a_stable_zero_state() {
    let u = ui();
    let dump = |cols: u16, rows: u16| -> String {
        let s = draw(&u, &Shared::new(), cols, rows, 0);
        assert!(s.derived.is_none());
        let mut out = vec![text(&s.header), String::from(HERO_TITLE)];
        for c in &s.hero {
            out.push(c.label.clone());
        }
        for g in &s.graphs {
            out.push(format!("{g:?}"));
        }
        out.push(String::from(LATENCY_TITLE));
        out.push(s.latency_gloss.clone());
        out.extend(texts(&s.latency));
        match &s.detail {
            Detail::Compact(t) => out.push(t.clone()),
            Detail::Columns {
                quality,
                cache,
                health,
                peaks,
            } => {
                out.extend(DETAIL_TITLES.iter().map(|(t, _)| t.to_string()));
                for rows in [quality, cache, health] {
                    out.extend(texts(&kv_lines(rows, 30)));
                }
                out.extend(texts(peaks));
            }
        }
        if let Some((msg, _)) = &s.banner {
            out.push(msg.clone());
        }
        out.join("\n")
    };
    let first = dump(120, 30);
    assert_eq!(
        first,
        dump(120, 30),
        "the zero state must render identically every frame"
    );
    assert!(first.contains("vllm-top"), "header missing:\n{first}");
    assert!(first.contains("Engine status"), "hero frame missing");
    assert!(first.contains("Latency"), "latency panel missing");
    assert!(first.contains("Peaks"), "peaks panel missing");
    // the peaks panel shows the missing marker for every zero value
    assert!(
        first.contains("decode   —"),
        "peaks placeholders missing:\n{first}"
    );
    // an empty ring plots no graphs and shows no hero numbers
    assert!(!first.contains("Prefill"), "a graph rendered from no data");
    assert!(!first.contains("Decode"), "a graph rendered from no data");
    assert!(
        !first.contains("RUNNING"),
        "hero numbers rendered from no data"
    );
    assert!(!first.contains("NaN"), "a NaN reached the screen:\n{first}");
    let _ = dump(40, 8);
}

#[test]
fn a_frame_shows_the_session() {
    let mut s = Shared::new();
    for i in 0..4 {
        s.absorb(Ok(body(i)), SEC * u64::from(i + 1));
    }
    let mut u = ui();
    let full = draw(&u, &s, 120, 30, 10 * SEC);
    assert!(!full.compact && full.latency_plots);
    assert!(text(&full.header).contains(" · up 9s · poll 1.0s · data 6s old"));
    assert_eq!(full.hero.len(), 6);
    assert_eq!(full.graphs, vec![RateGraph::Prefill, RateGraph::Decode]);
    assert_eq!(full.latency.len(), 4);
    assert!(full.banner.is_none());
    assert_eq!(full.derived.as_ref().unwrap().window_focus, 2);
    match &full.detail {
        Detail::Columns { cache, peaks, .. } => {
            assert_eq!(cache.len(), 5);
            assert_eq!(text(&peaks[0]), " decode   40 tok/s");
        }
        Detail::Compact(_) => panic!("the full layout has columns"),
    }
    s.absorb(Err(String::from("connection refused")), 9 * SEC);
    u.overlay = Overlay::Help;
    let small = draw(&u, &s, 96, 14, 34 * SEC);
    assert!(small.compact && !small.latency_plots);
    assert_eq!(small.graphs, vec![RateGraph::Decode]);
    assert_eq!(small.overlay, Overlay::Help);
    assert_eq!(
        small.banner.unwrap().0,
        "⚠ connection lost — retrying… last data 30s ago — connection refused"
    );
    assert!(matches!(small.detail, Detail::Compact(_)));
}
