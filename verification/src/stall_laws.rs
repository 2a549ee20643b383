//! The lanes of the graphs and the stalls, against the samples that they come from.

use vstd::arithmetic::power2::*;
use vstd::prelude::*;

use crate::accuracy;
use crate::additivity;
use crate::binary64;
use crate::binary64::Binary64;
use crate::derive::{
    carries, collapsed, interval_rate, lane, median, newest_value, out_of_gap, quarter, scan,
    stalled, Derived,
};
use crate::history;
use crate::history::EntryView;
use crate::metrics::SampleView;
use crate::order;
use crate::rounding;
use crate::rounding::HIDDEN;
use crate::series::KeyView;
use crate::shown_laws;
use crate::shown_laws::{decode_tokens, lacks, prefill_tokens, reads};
use crate::window_laws;
use crate::window_laws::{cut_at, named, whole_rate};

verus! {

/// The rate from one entry to the next, zero where no counter stands in both.
pub open spec fn rate_between(
    a: EntryView,
    b: EntryView,
    p: spec_fn(KeyView) -> bool,
) -> Binary64 {
    match whole_rate(seq![a, b], p) {
        Some(r) => r,
        None => binary64::zero(),
    }
}

/// The rate of an interval is the rate between its two entries.
pub proof fn lemma_interval(w: Seq<EntryView>, i: int, p: spec_fn(KeyView) -> bool)
    requires
        history::ring_ok(w),
        0 <= i < w.len() - 1,
    ensures
        interval_rate(w, i, p) == rate_between(w[i], w[i + 1], p),
{
    let e = seq![w[i], w[i + 1]];
    assert(w[i].t < w[i + 1].t);
    assert(history::ring_ok(e)) by {
        assert(w[i].sample.wf() && w[i + 1].sample.wf());
        assert(w[i].t <= u64::MAX && w[i + 1].t <= u64::MAX);
    }
    window_laws::lemma_whole(e);
    let old = w[i].sample.simple;
    let new = w[i + 1].sample.simple;
    let start = (binary64::zero(), false);
    assert(history::rises(e.drop_last(), p) == start);
    assert(e[e.len() - 2].sample.simple == old && e[e.len() - 1].sample.simple == new);
    assert(history::rises(e, p) == history::paired(start, old, new, p));
    additivity::lemma_paired(start, old, new, p);
    if whole_rate(e, p) is None {
        let span = (w[i + 1].t - w[i].t) as nat;
        let b = binary64::seconds(span);
        accuracy::lapses_are_positive(span);
        assert(rounding::magnitude(0) == 0);
        accuracy::magnitudes_ascend(0, b.abs_bits());
        assert(0 * pow2(1074) == 0) by (nonlinear_arith);
        accuracy::zero_over(b.mag());
        assert(additivity::pair_rises(old, new, p).len() == 0);
        assert(crate::derive::rise(w[i].sample, w[i + 1].sample, p) == binary64::zero());
    }
}

/// Some series of the sample meets `p`.
pub open spec fn holds_any(s: SampleView, p: spec_fn(KeyView) -> bool) -> bool {
    exists|j: int| 0 <= j < s.simple.len() && p((#[trigger] s.simple[j]).0)
}

/// The graphs hold one value for each two neighbours among the samples of the last 60
/// seconds: the rates between the two, whether each of them carries the counter, and the
/// seconds between them.
#[verifier::rlimit(40)]
pub proof fn lanes_follow_the_samples(old: Seq<EntryView>, recent: Seq<EntryView>, i: int)
    requires
        history::ring_ok(recent),
        cut_at(old, recent, 60_000_000_000),
        0 <= i < recent.len() - 1,
    ensures
        ({
            let g = scan(old + recent);
            let a = recent[i];
            let b = recent[i + 1];
            let evicted = named("vllm:num_preemptions_total"@);
            &&& g.decode.vals.len() == recent.len() - 1
            &&& g.prefill.vals.len() == recent.len() - 1
            &&& g.evictions.vals.len() == recent.len() - 1
            &&& g.stall.len() == recent.len() - 1
            &&& g.ttft_p95.len() == recent.len() - 1
            &&& g.cache_misses.len() == recent.len() - 1
            &&& g.per_stream.len() == recent.len() - 1
            &&& g.dt.len() == recent.len() - 1
            &&& g.decode.vals[i] == rate_between(a, b, decode_tokens())
            &&& g.prefill.vals[i] == rate_between(a, b, prefill_tokens())
            &&& g.evictions.vals[i] == rate_between(a, b, evicted)
            &&& g.decode.absent_old[i] == lacks(a.sample, "vllm:generation_tokens_total"@)
            &&& g.decode.absent_new[i] == lacks(b.sample, "vllm:generation_tokens_total"@)
            &&& g.prefill.absent_old[i] == !holds_any(a.sample, prefill_tokens())
            &&& g.prefill.absent_new[i] == !holds_any(b.sample, prefill_tokens())
            &&& g.evictions.absent_old[i] == lacks(a.sample, "vllm:num_preemptions_total"@)
            &&& g.evictions.absent_new[i] == lacks(b.sample, "vllm:num_preemptions_total"@)
            &&& g.cache_misses[i] == (if holds_any(a.sample, prefill_tokens()) && holds_any(
                b.sample,
                prefill_tokens(),
            ) {
                Some(rate_between(a, b, prefill_tokens()))
            } else {
                None
            })
            &&& g.dt[i] == binary64::seconds((b.t - a.t) as nat)
        }),
{
    window_laws::windows_hold_what_is_recent(old, recent, 60_000_000_000);
    shown_laws::lemma_selections();
    lemma_interval(recent, i, decode_tokens());
    lemma_interval(recent, i, prefill_tokens());
    lemma_interval(recent, i, named("vllm:num_preemptions_total"@));
    lemma_carried(recent[i].sample, "vllm:generation_tokens_total"@);
    lemma_carried(recent[i + 1].sample, "vllm:generation_tokens_total"@);
    lemma_carried(recent[i].sample, "vllm:num_preemptions_total"@);
    lemma_carried(recent[i + 1].sample, "vllm:num_preemptions_total"@);
    lemma_any(recent[i].sample, prefill_tokens());
    lemma_any(recent[i + 1].sample, prefill_tokens());
}

proof fn lemma_any(s: SampleView, p: spec_fn(KeyView) -> bool)
    ensures
        carries(s, p) == holds_any(s, p),
{
}

proof fn lemma_carried(s: SampleView, name: Seq<char>)
    ensures
        carries(s, named(name)) == !lacks(s, name),
{
    let p = named(name);
    if !lacks(s, name) {
        let j = choose|j: int| 0 <= j < s.simple.len() && (#[trigger] s.simple[j]).0.name == name;
        assert(p(s.simple[j].0));
    }
}

/// How many of the numbers lie below `m`.
pub open spec fn below(v: Seq<Binary64>, m: Binary64) -> nat
    decreases v.len(),
{
    if v.len() == 0 {
        0
    } else {
        below(v.drop_last(), m) + (if binary64::less(v.last(), m) {
            1nat
        } else {
            0
        })
    }
}

/// How many of the numbers lie above `m`.
pub open spec fn above(v: Seq<Binary64>, m: Binary64) -> nat
    decreases v.len(),
{
    if v.len() == 0 {
        0
    } else {
        above(v.drop_last(), m) + (if binary64::less(m, v.last()) {
            1nat
        } else {
            0
        })
    }
}

/// The number stands in the middle: no more than half of the numbers lie below it, and
/// fewer than half, or the half with the middle, above it.
pub open spec fn middle(v: Seq<Binary64>, m: Binary64) -> bool {
    &&& v.len() > 0
    &&& !m.nan()
    &&& below(v, m) <= v.len() / 2
    &&& above(v, m) < v.len() - v.len() / 2
}

spec fn firsts(s: Seq<(Binary64, Binary64)>) -> Seq<Binary64> {
    s.map_values(|x: (Binary64, Binary64)| x.0)
}

proof fn lemma_firsts_push(s: Seq<(Binary64, Binary64)>, x: (Binary64, Binary64))
    ensures
        firsts(s.push(x)) == firsts(s).push(x.0),
{
    assert(firsts(s.push(x)) =~= firsts(s).push(x.0));
}

proof fn lemma_count_push(v: Seq<Binary64>, x: Binary64, m: Binary64)
    ensures
        below(v.push(x), m) == below(v, m) + (if binary64::less(x, m) {
            1nat
        } else {
            0
        }),
        above(v.push(x), m) == above(v, m) + (if binary64::less(m, x) {
            1nat
        } else {
            0
        }),
{
    assert(v.push(x).drop_last() =~= v);
}

proof fn lemma_count_put(s: Seq<(Binary64, Binary64)>, x: (Binary64, Binary64), m: Binary64)
    ensures
        below(firsts(order::put(s, x)), m) == below(firsts(s).push(x.0), m),
        above(firsts(order::put(s, x)), m) == above(firsts(s).push(x.0), m),
    decreases s.len(),
{
    lemma_firsts_push(s, x);
    if !(s.len() == 0 || !binary64::less(x.0, s.last().0)) {
        let d = s.drop_last();
        lemma_count_put(d, x, m);
        lemma_firsts_push(order::put(d, x), s.last());
        lemma_firsts_push(d, s.last());
        assert(d.push(s.last()) =~= s);
        lemma_count_push(firsts(order::put(d, x)), s.last().0, m);
        lemma_count_push(firsts(d), s.last().0, m);
        lemma_count_push(firsts(d), x.0, m);
        lemma_count_push(firsts(s), x.0, m);
    }
}

proof fn lemma_count_arranged(s: Seq<(Binary64, Binary64)>, m: Binary64)
    ensures
        below(firsts(order::arranged(s)), m) == below(firsts(s), m),
        above(firsts(order::arranged(s)), m) == above(firsts(s), m),
    decreases s.len(),
{
    if s.len() > 0 {
        let d = s.drop_last();
        lemma_count_arranged(d, m);
        lemma_count_put(order::arranged(d), s.last(), m);
        lemma_count_push(firsts(order::arranged(d)), s.last().0, m);
        lemma_count_push(firsts(d), s.last().0, m);
        lemma_firsts_push(d, s.last());
        assert(d.push(s.last()) =~= s);
    }
}

/// Numbers that all lie below are all counted.
proof fn lemma_first_below(v: Seq<Binary64>, m: Binary64, n: int)
    requires
        0 <= n <= v.len(),
        forall|i: int| 0 <= i < n ==> binary64::less(#[trigger] v[i], m),
    ensures
        below(v, m) >= n,
    decreases v.len(),
{
    if v.len() > 0 {
        let d = v.drop_last();
        if n == v.len() {
            assert(binary64::less(v[n - 1], m));
            assert forall|i: int| 0 <= i < n - 1 implies binary64::less(#[trigger] d[i], m) by {
                assert(d[i] == v[i]);
            }
            lemma_first_below(d, m, n - 1);
        } else {
            assert forall|i: int| 0 <= i < n implies binary64::less(#[trigger] d[i], m) by {
                assert(d[i] == v[i]);
            }
            lemma_first_below(d, m, n);
        }
    }
}

/// Numbers that all lie above are all counted.
proof fn lemma_last_above(v: Seq<Binary64>, m: Binary64, n: int)
    requires
        0 <= n <= v.len(),
        forall|i: int| n <= i < v.len() ==> binary64::less(m, #[trigger] v[i]),
    ensures
        above(v, m) >= v.len() - n,
    decreases v.len(),
{
    if v.len() > n {
        let d = v.drop_last();
        assert(binary64::less(m, v[v.len() - 1]));
        assert forall|i: int| n <= i < d.len() implies binary64::less(m, #[trigger] d[i]) by {
            assert(d[i] == v[i]);
        }
        lemma_last_above(d, m, n);
    }
}

/// The number that stands in the middle is the median.
pub proof fn the_median_stands_in_the_middle(v: Seq<Binary64>, m: Binary64)
    requires
        middle(v, m),
        forall|i: int| 0 <= i < v.len() ==> !(#[trigger] v[i]).nan(),
    ensures
        binary64::equal(median(v), m),
{
    let pairs = v.map_values(|x: Binary64| (x, x));
    assert(order::ordered(pairs)) by {
        assert forall|i: int| 0 <= i < pairs.len() implies !(#[trigger] pairs[i]).0.nan() by {
            assert(pairs[i].0 == v[i]);
        }
    }
    order::arranging_sorts(pairs);
    let s = order::arranged(pairs);
    lemma_count_arranged(pairs, m);
    assert(firsts(pairs) =~= v);
    let f = firsts(s);
    let n = (v.len() / 2) as int;
    let x = s[n].0;
    assert(!s[n].0.nan());
    if binary64::less(x, m) {
        assert forall|i: int| 0 <= i < n + 1 implies binary64::less(#[trigger] f[i], m) by {
            assert(f[i] == s[i].0);
            assert(!s[i].0.nan());
            if i < n {
                assert(!binary64::less(s[n].0, s[i].0));
            }
        }
        lemma_first_below(f, m, n + 1);
    } else if binary64::less(m, x) {
        assert forall|i: int| n <= i < f.len() implies binary64::less(m, #[trigger] f[i]) by {
            assert(f[i] == s[i].0);
            assert(!s[i].0.nan());
            if n < i {
                assert(!binary64::less(s[i].0, s[n].0));
            }
        }
        lemma_last_above(f, m, n);
    }
}

proof fn lemma_quarter()
    ensures
        quarter().finite(),
        !quarter().negative(),
        quarter().mag() == pow2(1072),
{
    lemma2_to64();
    lemma2_to64_rest();
    accuracy::small_integers_are_exact(1);
    accuracy::small_integers_are_exact(4);
    accuracy::integers_keep_order(0, 1);
    accuracy::integers_keep_order(0, 4);
    assert(rounding::magnitude(0) == 0);
    let p = pow2(1074);
    let q = pow2(1072);
    lemma_pow2_unfold(1074);
    lemma_pow2_unfold(1073);
    lemma_pow2_pos(1072);
    assert(4 * p > 0 && 1 * p == p);
    assert((1 * p) * p == q * (4 * p)) by (nonlinear_arith)
        requires
            p == 4 * q,
    ;
    rounding::lemma_nearest_scale(q, 1, 4 * p);
    assert(1 * (4 * p) == 4 * p);
    accuracy::lemma_magnitude_at(1020, HIDDEN as nat);
    lemma_pow2_adds(52, 1020);
    accuracy::rounding_keeps_numbers(1020 * (HIDDEN as nat) + HIDDEN as nat);
}

/// A quarter of the median, where it is a number.
proof fn lemma_bar(v: Seq<Binary64>, m: Binary64, bar: Binary64)
    requires
        middle(v, m),
        forall|i: int| 0 <= i < v.len() ==> !(#[trigger] v[i]).nan(),
        m.finite(),
        bar.finite(),
        4 * bar.units() == m.units(),
    ensures
        binary64::equal(binary64::product(quarter(), median(v)), bar),
{
    the_median_stands_in_the_middle(v, m);
    lemma_quarter();
    let x = median(v);
    accuracy::order_is_by_value(x, m);
    let p = pow2(1074);
    let q = pow2(1072);
    lemma_pow2_unfold(1074);
    lemma_pow2_unfold(1073);
    lemma_pow2_pos(1072);
    assert(x.mag() == 4 * bar.mag());
    assert(q * x.mag() == bar.mag() * p) by (nonlinear_arith)
        requires
            x.mag() == 4 * bar.mag(),
            p == 4 * q,
    ;
    rounding::lemma_nearest_scale(bar.mag(), 1, p);
    assert(1 * p == p);
    accuracy::rounding_keeps_numbers(bar.abs_bits());
    assert(rounding::magnitude(0) == 0);
    if bar.abs_bits() > 0 {
        accuracy::magnitudes_ascend(0, bar.abs_bits());
    }
}

proof fn lemma_gauge_positive(s: SampleView, name: Seq<char>, v: Binary64)
    ensures
        reads(s, name, v) ==> crate::derive::gauge_or_zero(s, name) == v,
        lacks(s, name) ==> crate::derive::gauge_or_zero(s, name) == binary64::zero(),
{
    shown_laws::lemma_reads(s, name);
}

/// Decode that is measured at both ends of an interval and lies below a quarter of the
/// median of the last 60 seconds is a stall while requests run, if a prefill is computing,
/// whatever else waits, and if requests wait, whatever else computes. Decode that does not
/// lie below it is none.
#[verifier::rlimit(40)]
pub proof fn frozen_decode_is_a_stall(
    old: Seq<EntryView>,
    recent: Seq<EntryView>,
    i: int,
    m: Binary64,
    bar: Binary64,
    running: Binary64,
    waiting: Binary64,
)
    requires
        history::ring_ok(recent),
        cut_at(old, recent, 60_000_000_000),
        0 <= i < recent.len() - 1,
        forall|j: int|
            0 <= j < recent.len() - 1 ==> !(#[trigger] scan(old + recent).decode.vals[j]).nan(),
        middle(scan(old + recent).decode.vals, m),
        m.finite(),
        bar.finite(),
        4 * bar.units() == m.units(),
        !lacks(recent[i].sample, "vllm:generation_tokens_total"@),
        !lacks(recent[i + 1].sample, "vllm:generation_tokens_total"@),
        reads(recent[i + 1].sample, "vllm:num_requests_running"@, running),
    ensures
        ({
            let decode = rate_between(recent[i], recent[i + 1], decode_tokens());
            let prefill = rate_between(recent[i], recent[i + 1], prefill_tokens());
            let stalled = scan(old + recent).stall[i];
            let busy = binary64::less(binary64::zero(), running);
            &&& busy && binary64::less(decode, bar) && binary64::less(binary64::zero(), prefill)
                ==> stalled
            &&& busy && binary64::less(decode, bar) && reads(
                recent[i + 1].sample,
                "vllm:num_requests_waiting"@,
                waiting,
            ) && binary64::less(binary64::zero(), waiting) ==> stalled
            &&& !binary64::less(decode, bar) ==> !stalled
            &&& !busy ==> !stalled
        }),
{
    window_laws::windows_hold_what_is_recent(old, recent, 60_000_000_000);
    shown_laws::lemma_selections();
    let v = scan(old + recent).decode.vals;
    let decode = rate_between(recent[i], recent[i + 1], decode_tokens());
    let prefill = rate_between(recent[i], recent[i + 1], prefill_tokens());
    assert(v.len() == recent.len() - 1);
    assert forall|j: int| 0 <= j < v.len() implies !(#[trigger] v[j]).nan() by {
        assert(!scan(old + recent).decode.vals[j].nan());
    }
    lemma_bar(v, m, bar);
    lemma_interval(recent, i, decode_tokens());
    lemma_interval(recent, i, prefill_tokens());
    assert(collapsed(recent, i) == binary64::less(decode, bar)) by {
        lemma_carried(recent[i].sample, "vllm:generation_tokens_total"@);
        lemma_carried(recent[i + 1].sample, "vllm:generation_tokens_total"@);
        assert(v == lane(recent, decode_tokens()).vals);
    }
    lemma_gauge_positive(recent[i + 1].sample, "vllm:num_requests_running"@, running);
    lemma_gauge_positive(recent[i + 1].sample, "vllm:num_requests_waiting"@, waiting);
    assert(!out_of_gap(recent, i)) by {
        lemma_carried(recent[i].sample, "vllm:generation_tokens_total"@);
    }
    assert(scan(old + recent).stall[i] == stalled(recent, i));
}

/// Nothing stalls while nothing runs, nor while neither a prefill computes nor a request
/// waits.
#[verifier::rlimit(40)]
pub proof fn idle_intervals_are_no_stalls(
    old: Seq<EntryView>,
    recent: Seq<EntryView>,
    i: int,
    running: Binary64,
    waiting: Binary64,
)
    requires
        history::ring_ok(recent),
        cut_at(old, recent, 60_000_000_000),
        0 <= i < recent.len() - 1,
    ensures
        ({
            let s = recent[i + 1].sample;
            let prefill = rate_between(recent[i], recent[i + 1], prefill_tokens());
            let stalled = scan(old + recent).stall[i];
            let idle = lacks(s, "vllm:num_requests_running"@) || (reads(
                s,
                "vllm:num_requests_running"@,
                running,
            ) && !binary64::less(binary64::zero(), running));
            let unclaimed = lacks(s, "vllm:num_requests_waiting"@) || (reads(
                s,
                "vllm:num_requests_waiting"@,
                waiting,
            ) && !binary64::less(binary64::zero(), waiting));
            &&& idle ==> !stalled
            &&& unclaimed && !binary64::less(binary64::zero(), prefill) ==> !stalled
        }),
{
    window_laws::windows_hold_what_is_recent(old, recent, 60_000_000_000);
    shown_laws::lemma_selections();
    lemma_gauge_positive(recent[i + 1].sample, "vllm:num_requests_running"@, running);
    lemma_gauge_positive(recent[i + 1].sample, "vllm:num_requests_waiting"@, waiting);
    lemma_interval(recent, i, prefill_tokens());
}

/// An interval whose earlier sample lacks the decode counter is a stall exactly where some
/// sample of the window before carried it, requests run and a prefill is computing. One
/// whose later sample alone lacks it is none.
#[verifier::rlimit(40)]
pub proof fn unreadable_decode_is_a_stall_once_it_was_seen(
    old: Seq<EntryView>,
    recent: Seq<EntryView>,
    i: int,
    running: Binary64,
)
    requires
        history::ring_ok(recent),
        cut_at(old, recent, 60_000_000_000),
        0 <= i < recent.len() - 1,
        reads(recent[i + 1].sample, "vllm:num_requests_running"@, running),
    ensures
        ({
            let name = "vllm:generation_tokens_total"@;
            let prefill = rate_between(recent[i], recent[i + 1], prefill_tokens());
            let stalled = scan(old + recent).stall[i];
            let seen = exists|j: int| 0 <= j < i && !lacks((#[trigger] recent[j]).sample, name);
            &&& lacks(recent[i].sample, name) ==> (stalled <==> seen && binary64::less(
                binary64::zero(),
                running,
            ) && binary64::less(binary64::zero(), prefill))
            &&& !lacks(recent[i].sample, name) && lacks(recent[i + 1].sample, name) ==> !stalled
        }),
{
    let name = "vllm:generation_tokens_total"@;
    window_laws::windows_hold_what_is_recent(old, recent, 60_000_000_000);
    shown_laws::lemma_selections();
    assert forall|j: int| 0 <= j < recent.len() implies carries(
        (#[trigger] recent[j]).sample,
        crate::derive::decoded(),
    ) == !lacks(recent[j].sample, name) by {
        lemma_carried(recent[j].sample, name);
    }
    assert(carries(recent[i].sample, crate::derive::decoded()) == !lacks(recent[i].sample, name));
    assert(carries(recent[i + 1].sample, crate::derive::decoded()) == !lacks(
        recent[i + 1].sample,
        name,
    ));
    lemma_gauge_positive(recent[i + 1].sample, "vllm:num_requests_running"@, running);
    lemma_interval(recent, i, prefill_tokens());
}

/// A request's own pace is the decode rate over the running requests, where some run and
/// decode is measured at both ends of the interval.
pub proof fn streams_share_the_decode_rate(
    old: Seq<EntryView>,
    recent: Seq<EntryView>,
    i: int,
    running: Binary64,
)
    requires
        history::ring_ok(recent),
        cut_at(old, recent, 60_000_000_000),
        0 <= i < recent.len() - 1,
        reads(recent[i + 1].sample, "vllm:num_requests_running"@, running),
    ensures
        ({
            let name = "vllm:generation_tokens_total"@;
            let decode = rate_between(recent[i], recent[i + 1], decode_tokens());
            scan(old + recent).per_stream[i] == (if binary64::less(binary64::zero(), running)
                && !lacks(recent[i].sample, name) && !lacks(recent[i + 1].sample, name) {
                Some(binary64::quotient(decode, running))
            } else {
                None
            })
        }),
{
    let name = "vllm:generation_tokens_total"@;
    window_laws::windows_hold_what_is_recent(old, recent, 60_000_000_000);
    shown_laws::lemma_selections();
    lemma_carried(recent[i].sample, name);
    lemma_carried(recent[i + 1].sample, name);
    lemma_gauge_positive(recent[i + 1].sample, "vllm:num_requests_running"@, running);
    lemma_interval(recent, i, decode_tokens());
}

/// The rates of the moment are those of the newest interval; before there is one there are
/// none.
#[verifier::rlimit(40)]
pub proof fn rates_of_the_moment_are_of_the_newest_interval(
    d: Derived,
    focus: usize,
    old: Seq<EntryView>,
    recent: Seq<EntryView>,
)
    requires
        history::ring_ok(recent),
        cut_at(old, recent, 60_000_000_000),
        d.derived_from(old + recent, focus),
    ensures
        recent.len() >= 2 ==> ({
            let a = recent[recent.len() - 2];
            let b = recent[recent.len() - 1];
            &&& d.decode_instant == Some(rate_between(a, b, decode_tokens()))
            &&& d.prefill_instant == Some(rate_between(a, b, prefill_tokens()))
        }),
        recent.len() < 2 ==> d.decode_instant is None && d.prefill_instant is None,
{
    let e = old + recent;
    lemma_instants(d, focus, e);
    lemma_newest_values(old, recent);
}

proof fn lemma_instants(d: Derived, focus: usize, e: Seq<EntryView>)
    requires
        d.derived_from(e, focus),
    ensures
        d.decode_instant == newest_value(scan(e).decode.vals),
        d.prefill_instant == newest_value(scan(e).prefill.vals),
{
}

proof fn lemma_newest_values(old: Seq<EntryView>, recent: Seq<EntryView>)
    requires
        history::ring_ok(recent),
        cut_at(old, recent, 60_000_000_000),
    ensures
        recent.len() >= 2 ==> ({
            let a = recent[recent.len() - 2];
            let b = recent[recent.len() - 1];
            let g = scan(old + recent);
            &&& newest_value(g.decode.vals) == Some(rate_between(a, b, decode_tokens()))
            &&& newest_value(g.prefill.vals) == Some(rate_between(a, b, prefill_tokens()))
        }),
        recent.len() < 2 ==> newest_value(scan(old + recent).decode.vals) is None && newest_value(
            scan(old + recent).prefill.vals,
        ) is None,
{
    if recent.len() >= 2 {
        lanes_follow_the_samples(old, recent, recent.len() - 2);
    } else {
        window_laws::windows_hold_what_is_recent(old, recent, 60_000_000_000);
    }
}

} // verus!
