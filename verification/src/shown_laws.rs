//! What the numbers shown stand for, by the names of the metrics that they come from.

use vstd::prelude::*;

use crate::accuracy;
use crate::binary64;
use crate::binary64::Binary64;
use crate::decimal;
use crate::derive::{family, quantiles, rates, Derived};
use crate::history;
use crate::history::EntryView;
use crate::latency_laws;
use crate::metrics;
use crate::metrics::SampleView;
use crate::payload_laws;
use crate::series::KeyView;
use crate::window_laws;
use crate::window_laws::{cut_at, marked, named, whole_rate};

verus! {

/// The decoded tokens, by the name of their counter.
pub open spec fn decode_tokens() -> spec_fn(KeyView) -> bool {
    named("vllm:generation_tokens_total"@)
}

/// The prompt tokens that were computed, by the name and the source of their counter.
pub open spec fn prefill_tokens() -> spec_fn(KeyView) -> bool {
    marked("vllm:prompt_tokens_by_source_total"@, "source"@, "local_compute"@)
}

/// The prompt tokens that a cache served.
pub open spec fn cached_tokens() -> spec_fn(KeyView) -> bool {
    |k: KeyView|
        marked("vllm:prompt_tokens_by_source_total"@, "source"@, "local_cache_hit"@)(k) || marked(
            "vllm:prompt_tokens_by_source_total"@,
            "source"@,
            "external_kv_transfer"@,
        )(k)
}

/// The requests that a client gave up.
pub open spec fn client_aborts() -> spec_fn(KeyView) -> bool {
    marked("vllm:request_success_total"@, "finished_reason"@, "abort"@)
}

/// The requests that the server failed.
pub open spec fn server_errors() -> spec_fn(KeyView) -> bool {
    marked("http_requests_total"@, "status"@, "5xx"@)
}

pub(crate) proof fn lemma_selections()
    ensures
        crate::derive::decoded() == decode_tokens(),
        crate::derive::computed() == prefill_tokens(),
        crate::derive::cached() == cached_tokens(),
        crate::derive::aborted() == client_aborts(),
        crate::derive::http_errors() == server_errors(),
        forall|name: Seq<char>| #[trigger] family(name) == named(name),
{
    assert(crate::derive::decoded() =~= decode_tokens());
    assert(crate::derive::computed() =~= prefill_tokens());
    assert(crate::derive::cached() =~= cached_tokens());
    assert(crate::derive::aborted() =~= client_aborts());
    assert(crate::derive::http_errors() =~= server_errors());
    assert forall|name: Seq<char>| #[trigger] family(name) == named(name) by {
        assert(family(name) =~= named(name));
    }
}

/// The decode and prefill rates are shown for the last 5, 15 and 60 seconds, in this order,
/// each from the samples of its own span of time.
#[verifier::rlimit(40)]
pub proof fn token_rates_are_shown_by_window(
    d: Derived,
    focus: usize,
    old: Seq<EntryView>,
    recent: Seq<EntryView>,
)
    requires
        history::ring_ok(recent),
        d.derived_from(old + recent, focus),
    ensures
        cut_at(old, recent, 5_000_000_000) ==> d.decode_rate[0] == whole_rate(
            recent,
            decode_tokens(),
        ) && d.prefill_rate[0] == whole_rate(recent, prefill_tokens()),
        cut_at(old, recent, 15_000_000_000) ==> d.decode_rate[1] == whole_rate(
            recent,
            decode_tokens(),
        ) && d.prefill_rate[1] == whole_rate(recent, prefill_tokens()),
        cut_at(old, recent, 60_000_000_000) ==> d.decode_rate[2] == whole_rate(
            recent,
            decode_tokens(),
        ) && d.prefill_rate[2] == whole_rate(recent, prefill_tokens()),
{
    lemma_selections();
    window_laws::rates_look_back_as_far_as_their_window(old, recent, decode_tokens());
    window_laws::rates_look_back_as_far_as_their_window(old, recent, prefill_tokens());
    let e = old + recent;
    assert(d.decode_rate[0] == rates(e, crate::derive::decoded(), 0));
    assert(d.decode_rate[1] == rates(e, crate::derive::decoded(), 1));
    assert(d.decode_rate[2] == rates(e, crate::derive::decoded(), 2));
    assert(d.prefill_rate[0] == rates(e, crate::derive::computed(), 0));
    assert(d.prefill_rate[1] == rates(e, crate::derive::computed(), 1));
    assert(d.prefill_rate[2] == rates(e, crate::derive::computed(), 2));
}

/// The health counters are shown as rates over the last 60 seconds, each of the metric that
/// it is named after.
#[verifier::rlimit(40)]
pub proof fn health_rates_are_of_the_last_minute(
    d: Derived,
    focus: usize,
    old: Seq<EntryView>,
    recent: Seq<EntryView>,
)
    requires
        history::ring_ok(recent),
        d.derived_from(old + recent, focus),
        cut_at(old, recent, 60_000_000_000),
    ensures
        d.cache_cached == whole_rate(recent, cached_tokens()),
        d.cache_computed == whole_rate(recent, prefill_tokens()),
        d.evict_rate == whole_rate(recent, named("vllm:num_preemptions_total"@)),
        d.retract_rate == whole_rate(recent, client_aborts()),
        d.http_503_rate == whole_rate(recent, server_errors()),
        d.l2_wb == whole_rate(recent, named("vllm:kv_offload_store_bytes_total"@)),
        d.l2_rb == whole_rate(recent, named("vllm:kv_offload_load_bytes_total"@)),
        d.l2_drop == whole_rate(recent, named("vllm:kv_offload_allocation_failure_total"@)),
        d.cpu_scheduler == whole_rate(recent, named("vllm:scheduler_compute_seconds_total"@)),
{
    lemma_selections();
    assert forall|p: spec_fn(KeyView) -> bool| #[trigger] rates(old + recent, p, 2) == whole_rate(
        recent,
        p,
    ) by {
        window_laws::rates_look_back_as_far_as_their_window(old, recent, p);
    }
}

/// The latencies are shown for the last 5, 15 and 60 seconds, in this order, each of the
/// histogram that it is named after and from the samples of its own span of time; the
/// lengths of prompts are those of the last 60 seconds.
#[verifier::rlimit(40)]
pub proof fn latencies_are_shown_by_window(
    d: Derived,
    focus: usize,
    old: Seq<EntryView>,
    recent: Seq<EntryView>,
    i: int,
    nanos: nat,
)
    requires
        d.derived_from(old + recent, focus),
        cut_at(old, recent, nanos),
        (i == 0 && nanos == 5_000_000_000) || (i == 1 && nanos == 15_000_000_000) || (i == 2
            && nanos == 60_000_000_000),
    ensures
        d.ttft[i] == quantiles(recent, "vllm:time_to_first_token_seconds"@, nanos),
        d.itl[i] == quantiles(recent, "vllm:inter_token_latency_seconds"@, nanos),
        d.e2e[i] == quantiles(recent, "vllm:e2e_request_latency_seconds"@, nanos),
        d.queue_time[i] == quantiles(recent, "vllm:request_queue_time_seconds"@, nanos),
        i == 2 ==> d.prompt_len_p50 == quantiles(recent, "vllm:request_prompt_tokens"@, nanos).p50,
        i == 2 ==> d.prompt_len_p95 == quantiles(recent, "vllm:request_prompt_tokens"@, nanos).p95,
        i == 2 ==> d.computed_p50 == quantiles(
            recent,
            "vllm:request_prefill_kv_computed_tokens"@,
            nanos,
        ).p50,
        i == 2 ==> d.computed_p95 == quantiles(
            recent,
            "vllm:request_prefill_kv_computed_tokens"@,
            nanos,
        ).p95,
{
    let e = old + recent;
    assert(d.ttft[i] == quantiles(e, crate::derive::TTFT@, nanos));
    assert(d.itl[i] == quantiles(e, crate::derive::ITL@, nanos));
    assert(d.e2e[i] == quantiles(e, crate::derive::E2E@, nanos));
    assert(d.queue_time[i] == quantiles(e, crate::derive::QUEUE_TIME@, nanos));
    lemma_own_samples(old, recent, crate::derive::TTFT@, nanos);
    lemma_own_samples(old, recent, crate::derive::ITL@, nanos);
    lemma_own_samples(old, recent, crate::derive::E2E@, nanos);
    lemma_own_samples(old, recent, crate::derive::QUEUE_TIME@, nanos);
    lemma_own_samples(old, recent, crate::derive::PROMPT_TOKENS@, nanos);
    lemma_own_samples(old, recent, crate::derive::COMPUTED_TOKENS@, nanos);
    if i == 2 {
        let a = quantiles(e, crate::derive::PROMPT_TOKENS@, nanos);
        let b = quantiles(e, crate::derive::COMPUTED_TOKENS@, nanos);
        assert(d.prompt_len_p50 == a.p50 && d.prompt_len_p95 == a.p95);
        assert(d.computed_p50 == b.p50 && d.computed_p95 == b.p95);
    }
}

proof fn lemma_own_samples(
    old: Seq<EntryView>,
    recent: Seq<EntryView>,
    name: Seq<char>,
    nanos: nat,
)
    requires
        cut_at(old, recent, nanos),
    ensures
        quantiles(old + recent, name, nanos) == quantiles(recent, name, nanos),
{
    latency_laws::older_samples_do_not_alter_quantiles(old, recent, name, nanos);
}

/// The first series of the given name in the sample reads `v`.
pub open spec fn reads(s: SampleView, name: Seq<char>, v: Binary64) -> bool {
    exists|j: int| #[trigger] reads_at(s, name, v, j)
}

/// The series at `j` is the first of the given name and reads `v`.
pub open spec fn reads_at(s: SampleView, name: Seq<char>, v: Binary64, j: int) -> bool {
    &&& 0 <= j < s.simple.len()
    &&& s.simple[j].0.name == name
    &&& s.simple[j].1 == v
    &&& forall|h: int| 0 <= h < j ==> (#[trigger] s.simple[h]).0.name != name
}

/// No series in the sample has the given name.
pub open spec fn lacks(s: SampleView, name: Seq<char>) -> bool {
    forall|j: int| 0 <= j < s.simple.len() ==> (#[trigger] s.simple[j]).0.name != name
}

/// What a sample reads is what its gauge gives.
pub proof fn lemma_reads(s: SampleView, name: Seq<char>)
    ensures
        forall|v: Binary64| #[trigger] reads(s, name, v) ==> s.gauge(name) == Some(v),
        forall|v: Binary64| #[trigger]
            reads(s, name, v) ==> metrics::first_value(s.simple, family(name)) == Some(v),
        lacks(s, name) ==> s.gauge(name) is None,
        lacks(s, name) ==> metrics::first_value(s.simple, family(name)) is None,
{
    let p = |k: KeyView| k.name == name;
    assert(family(name) =~= p);
    assert forall|v: Binary64| #[trigger] reads(s, name, v) implies metrics::first_value(
        s.simple,
        p,
    ) == Some(v) by {
        let j = choose|j: int| #[trigger] reads_at(s, name, v, j);
        metrics::lemma_first_at(s.simple, p, j);
    }
    if lacks(s, name) {
        metrics::lemma_first_at(s.simple, p, s.simple.len() as int);
    }
}

/// The running and the queued requests are the newest readings of their gauges.
#[verifier::rlimit(40)]
pub proof fn requests_are_shown_as_they_read(
    d: Derived,
    focus: usize,
    e: Seq<EntryView>,
    v: Binary64,
)
    requires
        e.len() > 0,
        d.derived_from(e, focus),
    ensures
        reads(e.last().sample, "vllm:num_requests_running"@, v) ==> d.running == Some(v),
        lacks(e.last().sample, "vllm:num_requests_running"@) ==> d.running is None,
        reads(e.last().sample, "vllm:num_requests_waiting"@, v) ==> d.queue == Some(v),
        lacks(e.last().sample, "vllm:num_requests_waiting"@) ==> d.queue is None,
{
    lemma_reads(e.last().sample, "vllm:num_requests_running"@);
    lemma_reads(e.last().sample, "vllm:num_requests_waiting"@);
}

/// The share that `a` is of `b`, shown as `r`: nothing where there is nothing to share, the
/// quotient where `a` is a part of `b`, and one where it is more.
pub open spec fn shown_share(a: Binary64, b: Binary64, r: Option<Binary64>) -> bool {
    &&& !binary64::less(binary64::zero(), b) ==> r is None
    &&& binary64::less(binary64::zero(), b) && binary64::at_most(binary64::zero(), a)
        && binary64::at_most(a, b) && b.finite() ==> r == Some(binary64::quotient(a, b))
    &&& binary64::less(binary64::zero(), b) && binary64::less(b, a) && a.finite() ==> r == Some(
        binary64::integer(1),
    )
}

proof fn lemma_share(a: Binary64, b: Binary64)
    ensures
        shown_share(a, b, crate::derive::ratio_part(Some(a), Some(b))),
{
    if binary64::less(binary64::zero(), b) && b.finite() && binary64::at_most(binary64::zero(), a)
        && a.finite() {
        accuracy::small_integers_are_exact(1);
        accuracy::integers_keep_order(0, 1);
        accuracy::lemma_plain(a);
        accuracy::lemma_plain(b);
        accuracy::lemma_quotient_place(a, b);
        let p = vstd::arithmetic::power2::pow2(1074);
        vstd::arithmetic::power2::lemma_pow2_pos(1074);
        accuracy::lemma_mag_order(a, b);
        accuracy::lemma_mag_order(b, a);
        let one = binary64::integer(1);
        assert(1 * p == p);
        assert(accuracy::plain(one));
        assert(one.place() == crate::rounding::nearest(p, 1));
        if a.mag() <= b.mag() {
            assert((a.mag() * p) * 1 <= p * b.mag()) by (nonlinear_arith)
                requires
                    a.mag() <= b.mag(),
            ;
            accuracy::rounding_keeps_order(a.mag() * p, b.mag(), p, 1);
        }
        if b.mag() <= a.mag() {
            assert(p * b.mag() <= (a.mag() * p) * 1) by (nonlinear_arith)
                requires
                    b.mag() <= a.mag(),
            ;
            accuracy::rounding_keeps_order(p, 1, a.mag() * p, b.mag());
        }
        accuracy::quotient_not_negative(a, b);
    }
}

/// The hit rate of the prefix cache is the share that the hits are of the queries, and the
/// acceptance of drafts the share that the accepted tokens are of the drafted ones. How many
/// tokens a draft brings is the accepted tokens over the drafts.
#[verifier::rlimit(40)]
pub proof fn shares_are_of_their_counters(
    d: Derived,
    focus: usize,
    e: Seq<EntryView>,
    a: Binary64,
    b: Binary64,
)
    requires
        e.len() > 0,
        d.derived_from(e, focus),
    ensures
        ({
            let s = e.last().sample;
            let hits = "vllm:prefix_cache_hits_total"@;
            let queries = "vllm:prefix_cache_queries_total"@;
            let accepted = "vllm:spec_decode_num_accepted_tokens_total"@;
            let drafted = "vllm:spec_decode_num_draft_tokens_total"@;
            let drafts = "vllm:spec_decode_num_drafts_total"@;
            &&& reads(s, hits, a) && reads(s, queries, b) ==> shown_share(a, b, d.cache_hit)
            &&& lacks(s, hits) || lacks(s, queries) ==> d.cache_hit is None
            &&& reads(s, accepted, a) && reads(s, drafted, b) ==> shown_share(a, b, d.spec_accept)
            &&& lacks(s, accepted) || lacks(s, drafted) ==> d.spec_accept is None
            &&& reads(s, accepted, a) && reads(s, drafts, b) ==> d.spec_accept_len == (
            if binary64::less(binary64::zero(), b) {
                Some(binary64::quotient(a, b))
            } else {
                None
            })
            &&& lacks(s, accepted) || lacks(s, drafts) ==> d.spec_accept_len is None
        }),
{
    let s = e.last().sample;
    lemma_reads(s, "vllm:prefix_cache_hits_total"@);
    lemma_reads(s, "vllm:prefix_cache_queries_total"@);
    lemma_reads(s, "vllm:spec_decode_num_accepted_tokens_total"@);
    lemma_reads(s, "vllm:spec_decode_num_draft_tokens_total"@);
    lemma_reads(s, "vllm:spec_decode_num_drafts_total"@);
    lemma_share(a, b);
}

/// A usage shown as `r`: as it reads where it lies between zero and one, else the end that
/// is nearer.
pub open spec fn shown_usage(u: Binary64, r: Binary64) -> bool {
    &&& binary64::at_most(binary64::zero(), u) && binary64::at_most(u, binary64::integer(1)) ==> r
        == u
    &&& binary64::less(binary64::integer(1), u) ==> r == binary64::integer(1)
    &&& binary64::less(u, binary64::zero()) ==> r == binary64::zero()
}

/// Where the engine reports the usage of its cache, the first pool is that cache, with the
/// usage that it reads, the capacity of the configuration record, and the used tokens that
/// follow from the two. Where it reports the usage of the host tier, the last pool is the
/// host tier, with the usage that it reads and no counts. There are no other pools.
#[verifier::rlimit(40)]
pub proof fn pools_are_shown_as_they_read(
    d: Derived,
    focus: usize,
    e: Seq<EntryView>,
    u: Binary64,
)
    requires
        e.len() > 0,
        d.derived_from(e, focus),
    ensures
        ({
            let s = e.last().sample;
            let kv = "vllm:kv_cache_usage_perc"@;
            let host = "vllm:kv_offload_cpu_cache_usage_perc"@;
            let total = crate::derive::label_number(
                s,
                "vllm:cache_config_info"@,
                "kv_cache_size_tokens"@,
            );
            let n = d.pools@.len();
            &&& n <= 2
            &&& n == 2 ==> !lacks(s, kv) && !lacks(s, host)
            &&& lacks(s, kv) && lacks(s, host) ==> n == 0
            &&& reads(s, kv, u) ==> {
                let pool = d.pools@[0];
                &&& n >= 1
                &&& n == 2 || lacks(s, host)
                &&& pool.name@ == "KV"@
                &&& shown_usage(u, pool.usage)
                &&& pool.total == total
                &&& pool.used is Some <==> total is Some
                &&& total is Some ==> pool.used == Some(binary64::product(pool.usage, total->0))
            }
            &&& reads(s, host, u) ==> {
                let pool = d.pools@[n - 1];
                &&& n >= 1
                &&& n == 2 || lacks(s, kv)
                &&& pool.name@ == "host"@
                &&& shown_usage(u, pool.usage)
                &&& pool.total is None
                &&& pool.used is None
            }
        }),
{
    let s = e.last().sample;
    let kv = "vllm:kv_cache_usage_perc"@;
    let host = "vllm:kv_offload_cpu_cache_usage_perc"@;
    lemma_reads(s, kv);
    lemma_reads(s, host);
    lemma_lacks(s, kv);
    lemma_lacks(s, host);
    accuracy::integers_keep_order(0, 1);
    accuracy::small_integers_are_exact(1);
}

/// The capacity of the cache is the number in the label of its configuration record: of the
/// first record, and the first such label of it.
pub proof fn capacities_are_read_from_the_configuration(
    s: SampleView,
    v: Binary64,
    j: int,
    i: int,
    number: Binary64,
)
    requires
        reads_at(s, "vllm:cache_config_info"@, v, j),
        0 <= i < s.simple[j].0.labels.len(),
        s.simple[j].0.labels[i].0 == "kv_cache_size_tokens"@,
        forall|h: int|
            0 <= h < i ==> (#[trigger] s.simple[j].0.labels[h]).0 != "kv_cache_size_tokens"@,
        decimal::literal(s.simple[j].0.labels[i].1) == Some(number),
    ensures
        crate::derive::label_number(
            s,
            "vllm:cache_config_info"@,
            "kv_cache_size_tokens"@,
        ) == Some(number),
{
    metrics::lemma_first_at(s.simple, family("vllm:cache_config_info"@), j);
    payload_laws::lemma_first_label(s.simple[j].0.labels, i);
}

proof fn lemma_lacks(s: SampleView, name: Seq<char>)
    ensures
        lacks(s, name) <==> metrics::first_value(s.simple, family(name)) is None,
{
    lemma_reads(s, name);
    if !lacks(s, name) {
        let v = lemma_reading(s, name);
        assert(reads(s, name, v));
    }
}

/// A sample that does not lack a gauge reads it.
pub proof fn lemma_reading(s: SampleView, name: Seq<char>) -> (v: Binary64)
    requires
        !lacks(s, name),
    ensures
        reads(s, name, v),
{
    let j = choose|j: int| 0 <= j < s.simple.len() && (#[trigger] s.simple[j]).0.name == name;
    lemma_reading_before(s, name, j)
}

proof fn lemma_reading_before(s: SampleView, name: Seq<char>, j: int) -> (v: Binary64)
    requires
        0 <= j < s.simple.len(),
        s.simple[j].0.name == name,
    ensures
        reads(s, name, v),
    decreases j,
{
    if exists|h: int| 0 <= h < j && (#[trigger] s.simple[h]).0.name == name {
        let h = choose|h: int| 0 <= h < j && (#[trigger] s.simple[h]).0.name == name;
        lemma_reading_before(s, name, h)
    } else {
        assert(reads_at(s, name, s.simple[j].1, j));
        s.simple[j].1
    }
}

/// The labels end with the given value under the given name, as far as that name goes.
pub open spec fn labelled_last(
    labels: Seq<(Seq<char>, Seq<char>)>,
    name: Seq<char>,
    value: Seq<char>,
    i: int,
) -> bool {
    &&& 0 <= i < labels.len()
    &&& labels[i] == (name, value)
    &&& forall|h: int| i < h < labels.len() ==> (#[trigger] labels[h]).0 != name
}

proof fn lemma_last_label(
    labels: Seq<(Seq<char>, Seq<char>)>,
    name: Seq<char>,
    value: Seq<char>,
    i: int,
)
    requires
        labelled_last(labels, name, value, i),
    ensures
        crate::derive::last_label(labels, name) == Some(value),
    decreases labels.len(),
{
    if i < labels.len() - 1 {
        let d = labels.drop_last();
        assert(labels[labels.len() - 1].0 != name);
        assert forall|h: int| i < h < d.len() implies (#[trigger] d[h]).0 != name by {
            assert(labels[h].0 != name);
        }
        lemma_last_label(d, name, value, i);
    }
}

/// The model and the engine that are shown are those that the labels of the first series of
/// running requests name; where no series of running requests is there, they are unknown.
#[verifier::rlimit(40)]
pub proof fn the_engine_is_named_by_its_labels(
    d: Derived,
    focus: usize,
    e: Seq<EntryView>,
    v: Binary64,
    j: int,
    value: Seq<char>,
    i: int,
)
    requires
        e.len() > 0,
        d.derived_from(e, focus),
    ensures
        ({
            let s = e.last().sample;
            let running = "vllm:num_requests_running"@;
            let labels = s.simple[j].0.labels;
            &&& reads_at(s, running, v, j) && labelled_last(labels, "model_name"@, value, i)
                ==> d.model@ == value
            &&& reads_at(s, running, v, j) && labelled_last(labels, "engine"@, value, i)
                ==> d.engine@ == value
            &&& lacks(s, running) ==> d.model@ == "?"@ && d.engine@ == "?"@
        }),
{
    let s = e.last().sample;
    let running = "vllm:num_requests_running"@;
    let labels = s.simple[j].0.labels;
    if reads_at(s, running, v, j) {
        metrics::lemma_first_at(s.simple, family(running), j);
        if labelled_last(labels, "model_name"@, value, i) {
            lemma_last_label(labels, "model_name"@, value, i);
        }
        if labelled_last(labels, "engine"@, value, i) {
            lemma_last_label(labels, "engine"@, value, i);
        }
    }
    if lacks(s, running) {
        metrics::lemma_first_at(s.simple, family(running), s.simple.len() as int);
    }
}

} // verus!
