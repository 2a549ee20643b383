use vllm_top::binary64::Binary64;
use vllm_top::derive::{
    any_hit_lane, counter_rate, input_lane, prefill_lane, fam, fam_labeled, fold_stalls, median_of, Alarms, Graphs, Lane, Quantiles, Stalls,
};
use vllm_top::history::{
    counter_delta, hist_family_deltas, hist_window_p95, merge_le, quantile_from_buckets, History,
    RING_CAP,
};
use vllm_top::metrics::{
    label_block_end, parse, parse_labels, parse_value, HistSeries, ParseError, Sample,
};
use vllm_top::scrape::{metrics_url, sanitize_for_terminal, Shared};
use vllm_top::series::{SeriesKey, SeriesMap};
use vllm_top::args::finite_interval;

const SEC: u64 = 1_000_000_000;

fn num(x: f64) -> Binary64 {
    Binary64::from_bits(x.to_bits())
}

fn float(x: Binary64) -> f64 {
    f64::from_bits(x.bits)
}

fn chars(s: &str) -> Vec<char> {
    s.chars().collect()
}

fn key(name: &str, labels: &[(&str, &str)]) -> SeriesKey {
    SeriesKey {
        name: name.into(),
        labels: labels
            .iter()
            .map(|(k, v)| (k.to_string(), v.to_string()))
            .collect(),
    }
}

fn gauge(name: &str, v: f64) -> Sample {
    parse(&format!("{name} {v}\n")).unwrap()
}

#[test]
fn keys_order_by_name_then_labels() {
    let keys = [
        key("a", &[]),
        key("a", &[("k", "1")]),
        key("a", &[("k", "1"), ("z", "")]),
        key("a", &[("k", "2")]),
        key("a", &[("l", "0")]),
        key("ab", &[]),
        key("b", &[]),
        key("é", &[]),
        key("\u{10000}", &[]),
    ];
    for (i, a) in keys.iter().enumerate() {
        for (j, b) in keys.iter().enumerate() {
            assert_eq!(a.less(b), i < j, "{a:?} {b:?}");
            assert_eq!(a < b, i < j, "{a:?} {b:?}");
        }
    }
}

#[test]
fn keys_render_and_find_their_labels() {
    let k = key("m:h", &[("mode", "decode"), ("x", "a\"b")]);
    assert_eq!(k.render(), "m:h{mode=\"decode\",x=\"a\"b\"}");
    assert_eq!(key("m", &[]).render(), "m");
    assert!(k.has_label("mode", "decode"));
    assert!(!k.has_label("mode", "x"));
    assert!(!k.has_label("decode", "mode"));
}

#[test]
fn maps_keep_one_value_per_key_in_order() {
    let mut m: SeriesMap<u64> = SeriesMap::new();
    for (i, n) in ["d", "b", "a", "c", "b"].iter().enumerate() {
        m.insert(key(n, &[]), i as u64);
    }
    assert_eq!(m.len(), 4);
    let names: Vec<&str> = (0..4).map(|i| m.key_at(i).name.as_str()).collect();
    assert_eq!(names, vec!["a", "b", "c", "d"]);
    assert_eq!(m.get(&key("b", &[])), Some(&4));
    assert_eq!(m.get(&key("b", &[("k", "v")])), None);
    *m.value_mut(0) = 9;
    assert_eq!(*m.value_at(0), 9);
    assert_eq!(m.find(&key("c", &[])), Some(2));
}

#[test]
fn label_blocks_end_outside_quotes() {
    let line = chars("m{a=\"}\",b=\"\\\"}\"} 1");
    assert_eq!(label_block_end(&line, 1), Some(15));
    assert_eq!(label_block_end(&chars("m{a=\"x"), 1), None);
    assert_eq!(label_block_end(&chars("m{a=\"x\\"), 1), None);
    assert_eq!(label_block_end(&chars("{}"), 0), Some(1));
}

#[test]
fn values_and_labels_are_read_as_written() {
    let value = |s: &str| parse_value(&chars(s)).map(float);
    assert_eq!(value(" 4.5 1234567890"), Some(4.5));
    assert_eq!(value("+Inf"), Some(f64::INFINITY));
    assert_eq!(value("-Inf"), Some(f64::NEG_INFINITY));
    assert!(value("Nan").unwrap().is_nan());
    assert_eq!(value("x"), None);
    assert_eq!(value("  "), None);
    let labels = |s: &str| parse_labels(&chars(s));
    let pair = |k: &str, v: &str| (k.to_string(), v.to_string());
    assert_eq!(
        labels("b=\"2\", a=\"x\\ny\\\\z\\q\""),
        vec![pair("a", "x\ny\\zq"), pair("b", "2")]
    );
    // a malformed label ends the list, an unclosed quote ends its value
    assert_eq!(labels("a=\"1\",b=2,c=\"3\""), vec![pair("a", "1")]);
    assert_eq!(labels("a=\"1\",b"), vec![pair("a", "1")]);
    assert_eq!(labels("a=\"1"), vec![pair("a", "1")]);
    assert!(labels(" ,\t").is_empty());
}

#[test]
fn malformed_lines_are_skipped() {
    let s = parse(
        "\n  \r\nnovalue\nm{x=\"1\" 3\nm bad\n# HELP m text\n#comment 5\nm 2 77\r\n# TYPE m\n",
    )
    .unwrap();
    assert_eq!(s.simple.len(), 2);
    assert_eq!(s.gauge("m").map(float), Some(2.0));
    // a hash without a space is no header
    assert_eq!(s.gauge("#comment").map(float), Some(5.0));
    assert_eq!(s.gauge("nosuch").map(float), None);
}

#[test]
fn histograms_need_their_announcement() {
    let body = "m_bucket{le=\"1\"} 3\n# TYPE m histogram\nm_bucket{le=\"2\"} 4\n\
                m_bucket{le=\"1\"} 3\nm_bucket{le=\"-Inf\"} 9\nm_count -3\nm_sum 1\n";
    let s = parse(body).unwrap();
    // the record before the announcement is a plain series
    assert_eq!(s.simple.len(), 1);
    let h = s.hist.get(&key("m", &[])).unwrap();
    assert_eq!(h.le.iter().map(|x| float(*x)).collect::<Vec<_>>(), vec![1.0, 2.0]);
    assert_eq!(h.counts.iter().map(|x| float(*x)).collect::<Vec<_>>(), vec![3.0, 4.0]);
    assert_eq!(h.count, 0);
    let redefined = parse("# TYPE m histogram\n# TYPE m gauge\nm_count 3\n").unwrap();
    assert_eq!(redefined.hist.len(), 0);
    assert_eq!(redefined.gauge("m_count").map(float), Some(3.0));
}

#[test]
fn rejections_name_what_is_too_large() {
    let e = ParseError::TooManySeries { series: 16385 };
    assert_eq!(e.message(), "endpoint too large: 16385 series (cap 16384)");
    let e = ParseError::TooManyBuckets {
        key: key("m", &[("a", "b")]),
    };
    assert_eq!(
        e.message(),
        "endpoint too large: m{a=\"b\"} has 257 buckets (cap 256)"
    );
}

#[test]
fn intervals_are_finite_numbers() {
    assert_eq!(finite_interval("1.5").map(float), Ok(1.5));
    assert_eq!(
        finite_interval("x1").map(float),
        Err(String::from("invalid number: x1"))
    );
    assert_eq!(
        finite_interval("-inf").map(float),
        Err(String::from("interval must be finite, got -inf"))
    );
}

#[test]
fn addresses_are_stable() {
    for base in ["http://a", "http://a///", "http://a/metrics/", "", "metrics"] {
        let once = metrics_url(base);
        assert!(once.ends_with("/metrics"));
        assert_eq!(metrics_url(&once), once);
    }
    assert_eq!(metrics_url("http://a///"), "http://a/metrics");
    assert_eq!(metrics_url("metrics"), "metrics/metrics");
}

#[test]
fn messages_are_cut_at_whole_escapes() {
    assert_eq!(sanitize_for_terminal("a\u{1b}[2Jb\t\u{9b}"), "a\\x1b[2Jb\\t\\x9b");
    let benign = "y".repeat(255);
    assert_eq!(sanitize_for_terminal(&benign), benign);
    let cut = sanitize_for_terminal(&format!("{}\u{1b}", "y".repeat(252)));
    assert_eq!(cut, format!("{}\u{2026}", "y".repeat(252)));
}

#[test]
fn counters_rise_from_zero_after_a_reset() {
    assert_eq!(float(counter_delta(num(5.0), num(7.5))), 2.5);
    assert_eq!(float(counter_delta(num(5.0), num(2.0))), 2.0);
    assert_eq!(float(counter_delta(num(5.0), num(5.0))), 0.0);
}

#[test]
fn families_select_by_name_and_label() {
    let old = parse("m{s=\"x\"} 1\nm{s=\"y\"} 10\nn 100\n").unwrap();
    let new = parse("m{s=\"x\"} 3\nm{s=\"y\"} 15\nn 150\nm{s=\"z\"} 9\n").unwrap();
    assert_eq!(float(counter_rate(&old, &new, fam("m"))), 7.0);
    assert_eq!(float(counter_rate(&old, &new, fam("n"))), 50.0);
    assert_eq!(float(counter_rate(&old, &new, fam_labeled("m", "s", "y"))), 5.0);
    // a series that the earlier sample lacks pairs with nothing
    assert_eq!(float(counter_rate(&old, &new, fam_labeled("m", "s", "z"))), 0.0);
}

#[test]
fn late_samples_are_ignored_and_the_ring_is_bounded() {
    let mut h = History::default();
    assert!(h.is_empty() && h.last().is_none() && h.scan().is_none());
    h.push(10, gauge("m", 1.0));
    h.push(10, gauge("m", 2.0));
    h.push(9, gauge("m", 3.0));
    assert_eq!(h.len(), 1);
    assert_eq!(h.first_seen, Some(10));
    for i in 0..RING_CAP as u64 {
        h.push(11 + i, gauge("m", i as f64));
    }
    assert_eq!(h.len(), RING_CAP);
    assert_eq!(h.get(0).unwrap().t, 11);
    assert_eq!(h.last().unwrap().t, 10 + RING_CAP as u64);
    assert!(h.get(RING_CAP).is_none());
    assert_eq!(h.first_seen, Some(10));
    for i in 1..h.len() {
        assert!(h.get(i - 1).unwrap().t < h.get(i).unwrap().t);
    }
}

#[test]
fn windows_count_back_from_the_newest_sample() {
    let mut h = History::default();
    assert_eq!(h.window_base(5 * SEC), None);
    for i in 0..10u64 {
        h.push(SEC * i, gauge("m", i as f64 * 2.0));
    }
    assert_eq!(h.window_base(5 * SEC), Some(4));
    assert_eq!(h.window_base(0), Some(9));
    assert_eq!(h.window_base(u64::MAX), Some(0));
    assert_eq!(h.window_entries(5 * SEC).len(), 6);
    assert_eq!(h.rate_sum(|k| k.name == "m", 5 * SEC).map(float), Some(2.0));
    assert_eq!(h.rate_sum(|k| k.name == "m", 0).map(float), None);
    assert_eq!(h.rate_sum(|k| k.name == "x", 5 * SEC).map(float), None);
    assert_eq!(h.gauge_pred(|k| k.name == "m").map(float), Some(18.0));
    assert_eq!(h.sum_gauge(|k| k.name == "x").map(float), None);
    let mut two = History::default();
    assert_eq!(two.sum_gauge(|_| true).map(float), None);
    two.push(1, parse("m{r=\"0\"} 2\nm{r=\"1\"} 3\nn 9\n").unwrap());
    assert_eq!(two.sum_gauge(|k| k.name == "m").map(float), Some(5.0));
}

#[test]
fn bounds_merge_and_unusable_pairs_go() {
    let pairs = vec![
        (num(2.0), num(1.0)),
        (num(f64::INFINITY), num(4.0)),
        (num(1.0), num(2.0)),
        (num(f64::NAN), num(1.0)),
        (num(f64::NEG_INFINITY), num(1.0)),
        (num(2.0), num(f64::NAN)),
        (num(1.0), num(3.0)),
    ];
    let merged: Vec<(f64, f64)> = merge_le(pairs)
        .iter()
        .map(|(a, b)| (float(*a), float(*b)))
        .collect();
    assert_eq!(merged, vec![(1.0, 5.0), (2.0, 1.0), (f64::INFINITY, 4.0)]);
}

#[test]
fn bucket_changes_pair_by_bound() {
    let hist = |lines: &str| parse(&format!("# TYPE m histogram\n{lines}")).unwrap();
    let old = hist("m_bucket{le=\"1\"} 2\nm_bucket{le=\"3\"} 5\nm_bucket{le=\"+Inf\"} 6\nm_count 6\n");
    let new = hist("m_bucket{le=\"1\"} 9\nm_bucket{le=\"2\"} 9\nm_bucket{le=\"+Inf\"} 16\nm_count 16\n");
    let (raw, grown) = hist_family_deltas(&old, &new, &fam("m"));
    let raw: Vec<(f64, f64)> = raw.iter().map(|(a, b)| (float(*a), float(*b))).collect();
    assert_eq!(raw, vec![(1.0, 7.0), (f64::INFINITY, 10.0)]);
    assert_eq!(grown, 10);
    // p95: rank 9.5 lies above the last finite bound
    assert_eq!(hist_window_p95(&old, &new, &fam("m")).map(float), Some(1.0));
    // backwards is a reset
    assert_eq!(hist_window_p95(&new, &old, &fam("m")).map(float), None);
    let (_, fell) = hist_family_deltas(&new, &old, &fam("m"));
    assert_eq!(fell, -10);
}

#[test]
fn the_median_is_the_upper_middle() {
    let median = |v: &[f64]| float(median_of(&v.iter().map(|x| num(*x)).collect()));
    assert_eq!(median(&[]), 0.0);
    assert_eq!(median(&[3.0]), 3.0);
    assert_eq!(median(&[4.0, 1.0]), 4.0);
    assert_eq!(median(&[5.0, 1.0, 3.0, 2.0, 4.0]), 3.0);
}

#[test]
fn stalls_fold_into_time_budgets() {
    let dt: Vec<Binary64> = [4.0, 3.0, 2.0, 4.0].iter().map(|x| num(*x)).collect();
    let flags = [true, true, false, true];
    let s = fold_stalls(&flags, &dt);
    // five seconds: four of the newest, then one of an interval that did not stall
    assert_eq!((s[0].count, float(s[0].seconds)), (1, 4.0));
    // thirteen seconds are all there is
    assert_eq!((s[1].count, float(s[1].seconds)), (3, 11.0));
    assert_eq!((s[2].count, float(s[2].seconds)), (3, 11.0));
    let cut = fold_stalls(&[true, true], &[num(4.0), num(3.0)]);
    // the oldest interval is cut off by the budget
    assert_eq!((cut[0].count, float(cut[0].seconds)), (2, 5.0));
}

#[test]
fn a_scrape_advances_the_session() {
    let mut s = Shared::new();
    assert_eq!(s.wait_ms(), 1000);
    let body = |v: f64| {
        Ok(format!(
            "vllm:generation_tokens_total {v}\nvllm:num_requests_running 2\n\
             http_requests_total{{status=\"5xx\"}} {v}\n"
        ))
    };
    s.absorb(body(0.0), SEC);
    assert_eq!(s.history.first_seen, Some(SEC));
    s.absorb(body(50.0), 2 * SEC);
    assert_eq!(s.history.len(), 2);
    assert_eq!(s.last_ok, Some(2 * SEC));
    assert_eq!(s.history.first_seen, Some(SEC));
    assert_eq!(s.peaks.decode.map(float), Some(50.0));
    assert_eq!(s.peaks.decode_single.map(float), Some(25.0));
    assert_eq!(
        s.alarms,
        Alarms {
            abort: false,
            http_5xx: true,
            alloc_fail: false
        }
    );
    s.absorb(Err(String::from("scrape failed:\n\u{1b}refused")), 3 * SEC);
    assert_eq!(s.last_error.as_deref(), Some("scrape failed:\\n\\x1brefused"));
    assert_eq!(s.last_ok, Some(2 * SEC));
    assert_eq!(s.history.len(), 2);

    let mut large = String::from("# TYPE m histogram\n");
    for i in 0..257 {
        large.push_str(&format!("m_bucket{{le=\"{i}\"}} 1\n"));
    }
    s.absorb(Ok(large), 4 * SEC);
    assert_eq!(
        s.last_error.as_deref(),
        Some("endpoint too large: m has 257 buckets (cap 256)")
    );
    assert_eq!(s.history.len(), 2);
    assert_eq!(s.peaks.decode.map(float), Some(50.0));

    s.absorb(body(10.0), 5 * SEC);
    assert!(s.last_error.is_none());
    // the counter fell: the session begins anew
    assert_eq!(s.peaks.decode, None);
    assert_eq!(s.alarms, Alarms::default());
    s.interval_ms = 10;
    assert_eq!(s.wait_ms(), 250);
    s.interval_ms = 99_999;
    assert_eq!(s.wait_ms(), 10_000);
}

#[test]
fn a_gap_under_a_queue_is_no_stall_without_prefill() {
    let sample = |decode: Option<f64>, prefill: f64, waiting: f64| {
        let line = decode.map_or(String::new(), |v| {
            format!("vllm:generation_tokens_total {v}\n")
        });
        parse(&format!(
            "{line}vllm:prompt_tokens_by_source_total{{source=\"local_compute\"}} {prefill}\n\
             vllm:num_requests_running 2\nvllm:num_requests_waiting {waiting}\n"
        ))
        .unwrap()
    };
    let flags = |prefill: [f64; 4]| {
        let mut h = History::default();
        for (i, d) in [Some(0.0), Some(40.0), None, Some(80.0)].into_iter().enumerate() {
            h.push(SEC * i as u64, sample(d, prefill[i], 3.0));
        }
        h.scan().unwrap().stall.clone()
    };
    assert_eq!(flags([0.0, 0.0, 0.0, 0.0]), vec![false, false, false]);
    assert_eq!(flags([0.0, 0.0, 0.0, 9.0]), vec![false, false, true]);
}

#[test]
fn rates_of_disjoint_series_add_up() {
    let mut h = History::default();
    h.push(SEC, parse("m{s=\"x\"} 1\nm{s=\"y\"} 10\n").unwrap());
    h.push(3 * SEC, parse("m{s=\"x\"} 4\nm{s=\"y\"} 15\n").unwrap());
    let rate = |v: &'static [&'static str]| {
        h.rate_sum(|k| v.iter().any(|x| k.has_label("s", x)), 60 * SEC)
            .map(float)
    };
    assert_eq!(rate(&["x"]), Some(1.5));
    assert_eq!(rate(&["y"]), Some(2.5));
    assert_eq!(rate(&["x", "y"]), Some(4.0));
    assert_eq!(rate(&["x", "z"]), Some(1.5));
    assert_eq!(rate(&["z"]), None);
    assert_eq!(rate(&["z", "w"]), None);
}

#[test]
fn quantiles_do_not_fall_as_q_grows() {
    let b: Vec<(Binary64, Binary64)> = [(0.1, 2.0), (0.25, 2.0), (1.0, 7.0), (f64::INFINITY, 9.0)]
        .iter()
        .map(|(le, c)| (num(*le), num(*c)))
        .collect();
    let at = |q: f64| float(quantile_from_buckets(&b, num(q)).unwrap());
    let mut last = 0.0;
    for i in 0..=1000 {
        let x = at(f64::from(i) / 1000.0);
        assert!(x >= last && x <= 1.0, "{i}: {x} after {last}");
        last = x;
    }
    assert_eq!(at(-3.0), at(0.0));
    assert_eq!(at(7.0), at(1.0));
    assert_eq!(at(0.8), 1.0);
    // a total without end leaves every rank above the ladder
    let mut endless = b.clone();
    endless[3].1 = num(f64::INFINITY);
    for q in [0.0, 0.3, 1.0] {
        let x = quantile_from_buckets(&endless, num(q)).map(float);
        assert_eq!(x, Some(1.0));
    }
    // rounding lifts this estimate to the number next above its bound
    let wide = [(num(1.5), num(1.0)), (num(4503599627370501.0), num(2.0))];
    let top = quantile_from_buckets(&wide, num(1.0)).map(float);
    assert_eq!(top, Some(4503599627370502.0));
}

#[test]
fn defaults_are_empty() {
    let s = Sample::default();
    assert_eq!(s.simple.len() + s.hist.len(), 0);
    let h = HistSeries::default();
    assert!(h.le.is_empty() && h.counts.is_empty() && h.count == 0);
    let g = Graphs::default();
    assert!(g.stall.is_empty() && g.dt.is_empty() && g.decode.vals.is_empty());
    assert!(Lane::default().absent_old.is_empty());
    assert_eq!(Quantiles::default().p95, None);
    assert_eq!(Stalls::default().count, 0);
    assert_eq!(float(Stalls::default().seconds), 0.0);
}

#[test]
fn a_prompt_token_is_cached_or_computed() {
    let key_of = |name: &str, source: &str| key(name, &[("engine", "0"), ("source", source)]);
    let by_source = "vllm:prompt_tokens_by_source_total";
    for (source, hit, computed) in [
        ("local_cache_hit", true, false),
        ("external_kv_transfer", true, false),
        ("local_compute", false, true),
        ("other", false, false),
    ] {
        let k = key_of(by_source, source);
        assert_eq!(any_hit_lane()(&k), hit, "{source}");
        assert_eq!(prefill_lane()(&k), computed, "{source}");
        assert_eq!(input_lane()(&k), computed, "{source}");
        let total = key_of("vllm:prompt_tokens_total", source);
        assert!(!any_hit_lane()(&total) && !prefill_lane()(&total) && !input_lane()(&total));
    }
}
