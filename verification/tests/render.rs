use vllm_top::args::Args;
use vllm_top::binary64::Binary64;
use vllm_top::derive::{Alarms, Peaks};
use vllm_top::detail::{DETAIL_COLUMNS, HERO_COLUMNS};
use vllm_top::lines::{kv_lines, truncate_line, Span};
use vllm_top::metrics::parse;
use vllm_top::panels::{cache_miss_plot_face, cell_lines, rate_graph_face, ttft_plot_face, Face};
use vllm_top::scrape::Shared;
use vllm_top::screen::{draw, Detail, DETAIL_TITLES, HERO_TITLE, LATENCY_TITLE};
use vllm_top::tour::{explain_lines, help_lines, HELP_TITLE, TOUR_TITLE};
use vllm_top::ui::{Overlay, Ui};

const SEC: u64 = 1_000_000_000;

const MODEL: &str = "DeepSeek-V4-Flash-Vision-Exp";

fn num(x: f64) -> Binary64 {
    Binary64::from_bits(x.to_bits())
}

/// A payload of a running server.
fn live(tokens: &str) -> String {
    let ladder = |name: &str, mid: u32, high: u32| {
        format!(
            "# TYPE {name} histogram\n\
             {name}_bucket{{le=\"{mid}\"}} 50\n{name}_bucket{{le=\"{high}\"}} 95\n\
             {name}_bucket{{le=\"+Inf\"}} 100\n{name}_count 100\n{name}_sum 1\n"
        )
    };
    format!(
        "# TYPE vllm:generation_tokens_total counter\n\
         vllm:generation_tokens_total{{engine=\"0\",model_name=\"{MODEL}\"}} {tokens}\n\
         # TYPE vllm:num_requests_running gauge\n\
         vllm:num_requests_running{{engine=\"0\",model_name=\"{MODEL}\"}} 2\n\
         # TYPE vllm:num_requests_waiting gauge\n\
         vllm:num_requests_waiting 0\n\
         # TYPE vllm:kv_cache_usage_perc gauge\n\
         vllm:kv_cache_usage_perc{{engine=\"0\",model_name=\"{MODEL}\"}} 0.128\n\
         # TYPE vllm:cache_config_info gauge\n\
         vllm:cache_config_info{{kv_cache_size_tokens=\"1000000\"}} 1.0\n\
         # TYPE vllm:kv_offload_cpu_cache_usage_perc gauge\n\
         vllm:kv_offload_cpu_cache_usage_perc 0.97\n{}{}",
        ladder("vllm:request_prompt_tokens", 123_000, 200_000),
        ladder("vllm:request_prefill_kv_computed_tokens", 1_100, 6_700),
    )
}

fn session(bodies: &[String]) -> Shared {
    let mut s = Shared::new();
    for (i, body) in bodies.iter().enumerate() {
        s.history.push(SEC * (i as u64 + 1), parse(body).unwrap());
    }
    s.last_ok = Some(SEC * bodies.len() as u64);
    s
}

fn live_session() -> Shared {
    let mut s = session(&[live("1.952826e+06"), live("1.954826e+06")]);
    s.peaks = Peaks {
        decode: Some(num(402.0)),
        prefill: Some(num(812.0)),
        decode_single: Some(num(134.0)),
    };
    s
}

fn ui_default() -> Ui {
    Ui::new(&Args {
        url: "http://localhost:30000".into(),
        api_key: None,
        insecure: false,
        interval: num(1.0),
        theme: "gruvbox".into(),
        compact: false,
        once: false,
    })
}

fn text(line: &[Span]) -> String {
    line.iter().map(|s| s.text.as_str()).collect()
}

fn push_face(out: &mut Vec<String>, face: &Face) {
    out.push(text(&face.title));
    out.extend(face.sub.iter().map(|s| text(s)));
}

/// The texts of a frame, panel by panel, each cut to its share of the width.
fn panels(ui: &Ui, shared: &Shared, cols: u16, rows: u16) -> Vec<Vec<String>> {
    let now = SEC * 2;
    let s = draw(ui, shared, cols, rows, now);
    let share = |percent: u16| usize::from(cols.saturating_sub(2) * percent / 100);
    let mut hero = vec![String::from(HERO_TITLE)];
    for (cell, percent) in s.hero.iter().zip(HERO_COLUMNS) {
        for l in cell_lines(cell, s.compact, share(percent)) {
            hero.push(text(&l));
        }
    }
    let mut graphs = Vec::new();
    let mut latency = vec![String::from(LATENCY_TITLE), s.latency_gloss.clone()];
    latency.extend(s.latency.iter().map(|l| text(l)));
    if let Some(d) = &s.derived {
        for which in &s.graphs {
            push_face(&mut graphs, &rate_graph_face(d, *which, &shared.peaks));
        }
        if s.latency_plots {
            push_face(&mut latency, &ttft_plot_face(d));
            push_face(&mut latency, &cache_miss_plot_face(d));
        }
    }
    let mut detail = Vec::new();
    match &s.detail {
        Detail::Compact(t) => detail.push(t.clone()),
        Detail::Columns {
            quality,
            cache,
            health,
            peaks,
        } => {
            for (t, sub) in DETAIL_TITLES {
                detail.push(t.to_string());
                detail.push(sub.to_string());
            }
            for (rows, percent) in [quality, cache, health].into_iter().zip(DETAIL_COLUMNS) {
                detail.extend(kv_lines(rows, share(percent)).iter().map(|l| text(l)));
            }
            for l in peaks {
                detail.push(text(&truncate_line(l, share(DETAIL_COLUMNS[3]))));
            }
        }
    }
    let mut overlay = Vec::new();
    match s.overlay {
        Overlay::Closed => {}
        Overlay::Help => {
            overlay.push(String::from(HELP_TITLE));
            overlay.extend(help_lines().iter().map(|l| text(l)));
        }
        Overlay::Explain => {
            overlay.push(String::from(TOUR_TITLE));
            let inner = cols.saturating_sub(2);
            overlay.extend(explain_lines(inner).iter().map(|l| text(l)));
        }
    }
    let banner = s.banner.iter().map(|(m, _)| m.clone()).collect();
    vec![vec![text(&s.header)], hero, graphs, latency, detail, overlay, banner]
}

fn render(ui: &Ui, shared: &Shared, cols: u16, rows: u16) -> String {
    panels(ui, shared, cols, rows).concat().join("\n")
}

fn render_at(cols: u16, rows: u16, overlay: Overlay) -> String {
    let mut ui = ui_default();
    ui.overlay = overlay;
    render(&ui, &live_session(), cols, rows)
}

#[test]
fn full_layout_renders_key_panels() {
    let out = render_at(120, 30, Overlay::Closed);
    assert!(out.contains("vllm-top"), "header missing");
    assert!(out.contains("DeepSeek-V4-Flash-Vision-Exp"), "model missing");
    assert!(out.contains("RUNNING"), "hero missing");
    assert!(out.contains("TOKEN/s"), "token/s hero cell missing");
    assert!(
        out.contains("in-flight request stats"),
        "Generation caption missing:\n{out}"
    );
    assert!(
        out.contains("TIME TO FIRST TOKEN"),
        "ttft hero cell missing"
    );
    assert!(
        out.contains("full = requests queue"),
        "pools occupancy gloss missing"
    );
    // each pool renders on its own line, never joined by
    // " · " on a truncated row; the KV line leads the pool block
    let kv_line = out
        .lines()
        .find(|l| l.contains("KV 128k/1.0M tok"))
        .expect("KV pool line missing");
    assert!(
        !kv_line.contains("host"),
        "pool readings must not share a line:\n{kv_line}"
    );
    assert!(
        !out.contains("KV 128k/1.0M tok ·"),
        "the joined pool line is back"
    );
    assert!(
        out.contains("prompt 123.0k–200.0k"),
        "prompt gloss missing from the render"
    );
    assert!(out.contains("Cache misses"), "cache-misses plot missing");
    assert!(
        !out.contains("Waiting lines"),
        "waiting-lines panel still rendered"
    );
    assert!(
        out.contains("prompt 123.0k–200.0k tok"),
        "TTFT plot subtitle prompt gloss missing:\n{out}"
    );
    assert!(
        out.matches("computed 1.1k–6.7k tok").count() >= 2,
        "cache-misses plot subtitle computed gloss missing:\n{out}"
    );
    assert!(
        out.contains("cached·computed"),
        "CACHE panel cached/computed line missing:\n{out}"
    );
    assert!(out.contains("Prefill"), "prefill graph missing");
    assert!(out.contains("Decode"), "decode graph missing");
    assert!(
        out.contains("aggregate · single-stream"),
        "decode two-line legend missing"
    );
    assert!(out.contains("TTFT"), "TTFT plot missing");
    assert!(!out.contains("Speed per stream"), "stale per-stream panel");
    assert!(
        !out.contains("host full is normal"),
        "stale pools-graph subtitle"
    );
    assert!(out.contains("MEMORY POOLS"), "hero pools cell missing");
    assert!(out.contains("128k/1.0M tok"), "KV absolute counts missing");
    assert!(out.contains("Latency"), "latency panel missing");
    assert!(out.contains("p50"), "percentiles missing");
    assert!(out.contains("Health & trouble"), "health panel missing");
    assert!(out.contains("Peaks"), "peaks panel missing");
    assert!(out.contains("402 tok/s"), "peak decode missing");
}

#[test]
fn hero_pair_gloss_renders_untruncated_on_the_hero_row() {
    let wide = panels(&ui_default(), &live_session(), 200, 30);
    let pair = "prompt 123.0k–200.0k · computed 1.1k–6.7k tok";
    let hero_has_pair = wide[1].iter().any(|line| line.contains(pair));
    assert!(
        hero_has_pair,
        "hero pair gloss missing or clipped:\n{wide:?}"
    );
}

#[test]
fn hero_cells_render_in_the_pinned_order() {
    let out = render_at(120, 30, Overlay::Closed);
    let pos = |needle: &str| {
        out.find(needle)
            .unwrap_or_else(|| panic!("hero label {needle} missing:\n{out}"))
    };
    let running = pos("RUNNING");
    let queue = pos("QUEUE");
    let rates = pos("TOKEN/s");
    let ttft = pos("TIME TO FIRST TOKEN");
    let stalls = pos("STALLS");
    let pools = pos("MEMORY POOLS");
    assert!(running < queue, "RUNNING must precede QUEUE");
    assert!(queue < rates, "QUEUE must precede TOKEN/s");
    assert!(rates < ttft, "TOKEN/s must precede TIME TO FIRST TOKEN");
    assert!(ttft < stalls, "TIME TO FIRST TOKEN must precede STALLS");
    assert!(stalls < pools, "STALLS must precede MEMORY POOLS");
}

#[test]
fn alarm_rows_collapse_while_quiet_and_fire_full() {
    let quiet = render_at(120, 30, Overlay::Closed);
    assert!(
        quiet.contains("quiet: abort·5xx·alloc fail"),
        "quiet alarm line missing:\n{quiet}"
    );
    assert!(
        !quiet.contains("abort/s"),
        "a quiet alarm must not render its full row"
    );

    // the same session with the abort channel latched: its row returns
    let mut shared = live_session();
    shared.alarms = Alarms {
        abort: true,
        ..Alarms::default()
    };
    let out = render(&ui_default(), &shared, 120, 30);
    assert!(
        out.contains("abort/s"),
        "a fired alarm must render its full row:\n{out}"
    );
    assert!(
        out.contains("quiet: 5xx·alloc fail"),
        "the fired channel must leave the quiet line:\n{out}"
    );
}

#[test]
fn compact_layout_renders_at_quarter_screen() {
    let out = render_at(96, 14, Overlay::Closed);
    assert!(out.contains("vllm-top"));
    assert!(out.contains("RUNNING") || out.contains("running"));
    assert!(out.contains("p50"));
}

#[test]
fn overlays_render() {
    let help = render_at(120, 30, Overlay::Help);
    assert!(help.contains("keymap"));
    assert!(help.contains("pause scraping"));
    let explain = render_at(120, 40, Overlay::Explain);
    assert!(explain.contains("What am I looking at?"));
    assert!(explain.contains("Time to first token"));
    assert!(explain.contains("p50 is a typical request"));
}

#[test]
fn tiny_terminal_does_not_panic() {
    let _ = render_at(40, 8, Overlay::Closed);
    let _ = render_at(20, 4, Overlay::Closed);
}

#[test]
fn insecure_tls_hint_renders_only_when_enabled() {
    let out = render_at(120, 30, Overlay::Closed);
    assert!(
        !out.contains("insecure TLS"),
        "hint shown without --insecure"
    );
    let mut ui = ui_default();
    ui.insecure = true;
    let out = render(&ui, &live_session(), 120, 30);
    assert!(
        out.contains("insecure TLS"),
        "hint missing with --insecure:\n{out}"
    );
}

#[test]
fn debug_print_full() {
    let out = render_at(120, 30, Overlay::Closed);
    println!("=====\n{out}\n=====");
}

#[test]
fn error_banner_renders_when_stale() {
    let mut shared = live_session();
    shared.last_error = Some("scrape failed: connection refused".into());
    let ok = shared.last_ok.unwrap();
    let screen = draw(&ui_default(), &shared, 120, 30, ok + 30 * SEC);
    let (out, _) = screen.banner.expect("banner missing");
    assert!(out.contains("connection lost"), "banner missing:\n{out}");
    assert!(out.contains("30s ago"));
}

#[test]
fn narrow_full_layout_truncates_with_ellipsis() {
    // force full layout below the auto threshold to exercise the panels
    let mut ui = ui_default();
    ui.compact = Some(false);
    let out = render(&ui, &live_session(), 76, 30);
    assert!(
        out.contains('\u{2026}'),
        "expected truncated lines with ellipsis:\n{out}"
    );
    assert!(out.contains("Generation"));
    assert!(out.contains("Health & trouble"));
}

#[test]
fn debug_print_wide() {
    let out = render_at(230, 45, Overlay::Closed);
    println!("=====\n{out}\n=====");
}

// A non-finite gauge reading is no data: the UI renders the missing marker,
// never a "NaN" percentage or a maximal-looking bar.
#[test]
fn non_finite_gauge_reading_renders_as_no_data() {
    let body = live("1.952826e+06");
    for reading in ["NaN", "+Inf", "-Inf"] {
        // newest scrape carries a non-finite KV usage reading
        // where the first has a finite one
        let stale = format!(
            "{body}\nvllm:kv_cache_usage_perc{{engine=\"0\",model_name=\"{MODEL}\"}} {reading}\n"
        );
        let lost = body.replace("} 0.128", &format!("}} {reading}"));
        for newest in [stale, lost] {
            let shared = session(&[body.clone(), newest]);
            let out = render(&ui_default(), &shared, 120, 30);
            assert!(
                !out.contains("NaN") && !out.contains("inf"),
                "a {reading} reading must render as no data, got:\n{out}"
            );
        }
    }
    let lost = body.replace("} 0.128", "} NaN");
    let out = render(&ui_default(), &session(&[body, lost]), 120, 30);
    assert!(!out.contains("KV 128k"), "the lost pool must go:\n{out}");
}
