//! What a session remembers, peaks and alarms, against the samples that it saw.

use vstd::prelude::*;

use crate::binary64;
use crate::binary64::Binary64;
use crate::derive::{alarmed, latest_pair, no_peaks, peaked, Alarms, Peaks};
use crate::history;
use crate::history::EntryView;
use crate::metrics::SampleView;
use crate::series;
use crate::series::KeyView;
use crate::shown_laws;
use crate::shown_laws::{
    client_aborts, decode_tokens, lacks, prefill_tokens, reads, server_errors,
};
use crate::stall_laws;
use crate::stall_laws::rate_between;
use crate::window_laws::named;

verus! {

/// A counter of the earlier sample reads less in the later one.
pub open spec fn fell_from(
    a: SampleView,
    b: SampleView,
    p: spec_fn(KeyView) -> bool,
    i: int,
    j: int,
) -> bool {
    &&& 0 <= i < a.simple.len()
    &&& 0 <= j < b.simple.len()
    &&& a.simple[i].0 == b.simple[j].0
    &&& p(a.simple[i].0)
    &&& binary64::less(b.simple[j].1, a.simple[i].1)
}

/// The engine began again between the two samples: a counter of decoded or of computed
/// tokens reads less in the later one.
pub open spec fn began_again(a: SampleView, b: SampleView) -> bool {
    exists|i: int, j: int|
        #![trigger a.simple[i], b.simple[j]]
        fell_from(a, b, decode_tokens(), i, j) || fell_from(a, b, prefill_tokens(), i, j)
}

proof fn lemma_dropped(a: SampleView, b: SampleView, p: spec_fn(KeyView) -> bool)
    requires
        series::ascending(b.simple),
    ensures
        crate::derive::dropped(a, b, p) <==> exists|i: int, j: int|
            #![trigger a.simple[i], b.simple[j]]
            fell_from(a, b, p, i, j),
{
    if crate::derive::dropped(a, b, p) {
        let i = choose|i: int|
            0 <= i < a.simple.len() && #[trigger] crate::derive::fell_at(a.simple[i], b.simple, p);
        let k = a.simple[i].0;
        let j = choose|j: int| 0 <= j < b.simple.len() && b.simple[j].0 == k;
        series::lemma_lookup_at(b.simple, j);
        assert(fell_from(a, b, p, i, j));
    }
    if exists|i: int, j: int|
        #![trigger a.simple[i], b.simple[j]]
        fell_from(a, b, p, i, j) {
        let (i, j) = choose|i: int, j: int|
            #![trigger a.simple[i], b.simple[j]]
            fell_from(a, b, p, i, j);
        series::lemma_lookup_at(b.simple, j);
        assert(crate::derive::fell_at(a.simple[i], b.simple, p));
    }
}

proof fn lemma_restarted(a: SampleView, b: SampleView)
    requires
        series::ascending(b.simple),
    ensures
        crate::derive::restarted(a, b) <==> began_again(a, b),
{
    shown_laws::lemma_selections();
    lemma_dropped(a, b, decode_tokens());
    lemma_dropped(a, b, prefill_tokens());
    if began_again(a, b) {
        let (i, j) = choose|i: int, j: int|
            #![trigger a.simple[i], b.simple[j]]
            fell_from(a, b, decode_tokens(), i, j) || fell_from(a, b, prefill_tokens(), i, j);
        assert(a.simple[i] == a.simple[i] && b.simple[j] == b.simple[j]);
    }
    if crate::derive::dropped(a, b, decode_tokens()) {
        let (i, j) = choose|i: int, j: int|
            #![trigger a.simple[i], b.simple[j]]
            fell_from(a, b, decode_tokens(), i, j);
        assert(fell_from(a, b, decode_tokens(), i, j));
    }
    if crate::derive::dropped(a, b, prefill_tokens()) {
        let (i, j) = choose|i: int, j: int|
            #![trigger a.simple[i], b.simple[j]]
            fell_from(a, b, prefill_tokens(), i, j);
        assert(fell_from(a, b, prefill_tokens(), i, j));
    }
}

/// What becomes of a peak when a rate is seen: it is no lower than it was, nor lower than
/// the rate where that is positive, and it is the one or the other.
pub open spec fn topped(before: Option<Binary64>, rate: Binary64, after: Option<Binary64>) -> bool {
    &&& after == before || after == Some(rate)
    &&& before is Some ==> after is Some && binary64::at_most(before->0, after->0)
    &&& binary64::less(binary64::zero(), rate) ==> after is Some && binary64::at_most(
        rate,
        after->0,
    )
    &&& !binary64::less(binary64::zero(), rate) && before is None ==> after is None
}

/// A peak, where there is one, is positive.
pub open spec fn sound_peak(peak: Option<Binary64>) -> bool {
    peak is Some ==> binary64::less(binary64::zero(), peak->0)
}

/// Peaks that rates can have made.
pub open spec fn sound_peaks(p: Peaks) -> bool {
    &&& sound_peak(p.decode)
    &&& sound_peak(p.prefill)
    &&& sound_peak(p.decode_single)
}

/// Every peak takes in the rate of the newest interval; that of a single stream takes in the
/// decode rate over the running requests, while some run. Where the engine began again
/// nothing is left of the peaks, and without an interval they stay.
#[verifier::rlimit(40)]
pub proof fn peaks_take_in_the_newest_interval(p: Peaks, e: Seq<EntryView>, running: Binary64)
    requires
        history::ring_ok(e),
        sound_peaks(p),
    ensures
        sound_peaks(peaked(p, e)),
        e.len() < 2 ==> peaked(p, e) == p,
        e.len() >= 2 ==> ({
            let a = e[e.len() - 2];
            let b = e[e.len() - 1];
            let q = peaked(p, e);
            let decode = rate_between(a, b, decode_tokens());
            let prefill = rate_between(a, b, prefill_tokens());
            let name = "vllm:num_requests_running"@;
            &&& began_again(a.sample, b.sample) ==> q.decode is None && q.prefill is None
                && q.decode_single is None
            &&& !began_again(a.sample, b.sample) ==> {
                &&& topped(p.decode, decode, q.decode)
                &&& topped(p.prefill, prefill, q.prefill)
                &&& reads(b.sample, name, running) && binary64::less(binary64::zero(), running)
                    ==> topped(
                    p.decode_single,
                    binary64::quotient(decode, running),
                    q.decode_single,
                )
                &&& lacks(b.sample, name) || (reads(b.sample, name, running) && !binary64::less(
                    binary64::zero(),
                    running,
                )) ==> q.decode_single == p.decode_single
            }
        }),
{
    if e.len() >= 2 {
        lemma_newest(e);
        shown_laws::lemma_reads(e.last().sample, "vllm:num_requests_running"@);
    }
}

proof fn lemma_newest(e: Seq<EntryView>)
    requires
        history::ring_ok(e),
        e.len() >= 2,
    ensures
        crate::derive::restarted(e[e.len() - 2].sample, e[e.len() - 1].sample) <==> began_again(
            e[e.len() - 2].sample,
            e[e.len() - 1].sample,
        ),
        forall|p: spec_fn(KeyView) -> bool| #[trigger]
            crate::derive::latest_rate(e, p) == rate_between(e[e.len() - 2], e[e.len() - 1], p),
        crate::derive::decoded() == decode_tokens(),
        crate::derive::computed() == prefill_tokens(),
        crate::derive::aborted() == client_aborts(),
        crate::derive::http_errors() == server_errors(),
        forall|name: Seq<char>| #[trigger] crate::derive::family(name) == named(name),
{
    let n = e.len() as int;
    let w = latest_pair(e);
    assert(e[n - 2].sample.wf() && e[n - 1].sample.wf());
    assert(e[n - 2].t < e[n - 1].t && e[n - 2].t <= u64::MAX && e[n - 1].t <= u64::MAX);
    assert(w[0] == e[n - 2] && w[1] == e[n - 1]);
    assert(history::ring_ok(w)) by {
        assert(w.len() == 2);
    }
    lemma_restarted(e[n - 2].sample, e[n - 1].sample);
    shown_laws::lemma_selections();
    assert forall|p: spec_fn(KeyView) -> bool| #[trigger]
        crate::derive::latest_rate(e, p) == rate_between(e[n - 2], e[n - 1], p) by {
        stall_laws::lemma_interval(w, 0, p);
    }
}

/// The peaks after the rings of a session, one after the other.
pub open spec fn peaks_after(rings: Seq<Seq<EntryView>>) -> Peaks
    decreases rings.len(),
{
    if rings.len() == 0 {
        no_peaks()
    } else {
        peaked(peaks_after(rings.drop_last()), rings.last())
    }
}

/// The rate over the newest interval of a ring.
pub open spec fn newest_rate(e: Seq<EntryView>, p: spec_fn(KeyView) -> bool) -> Binary64 {
    rate_between(e[e.len() - 2], e[e.len() - 1], p)
}

/// Rings of a session during which the engine never began again.
pub open spec fn unbroken(rings: Seq<Seq<EntryView>>) -> bool {
    forall|i: int|
        0 <= i < rings.len() ==> history::ring_ok(#[trigger] rings[i]) && rings[i].len() >= 2
            && !began_again(
            rings[i][rings[i].len() - 2].sample,
            rings[i][rings[i].len() - 1].sample,
        )
}

/// The peak is the highest of the positive rates that were seen, and there is none exactly
/// where no rate was positive.
pub open spec fn highest(
    peak: Option<Binary64>,
    rings: Seq<Seq<EntryView>>,
    p: spec_fn(KeyView) -> bool,
) -> bool {
    &&& forall|i: int|
        0 <= i < rings.len() && binary64::less(
            binary64::zero(),
            #[trigger] newest_rate(rings[i], p),
        ) ==> peak is Some && binary64::at_most(newest_rate(rings[i], p), peak->0)
    &&& peak is Some ==> binary64::less(binary64::zero(), peak->0) && exists|i: int|
        0 <= i < rings.len() && #[trigger] newest_rate(rings[i], p) == peak->0
}

/// Until the engine begins again, the peaks of decode and prefill are the highest rates that
/// any interval of the session had.
pub proof fn peaks_are_the_highest_rates_of_the_session(rings: Seq<Seq<EntryView>>)
    requires
        unbroken(rings),
    ensures
        sound_peaks(peaks_after(rings)),
        highest(peaks_after(rings).decode, rings, decode_tokens()),
        highest(peaks_after(rings).prefill, rings, prefill_tokens()),
    decreases rings.len(),
{
    if rings.len() > 0 {
        let d = rings.drop_last();
        assert forall|i: int| 0 <= i < d.len() implies history::ring_ok(#[trigger] d[i])
            && d[i].len() >= 2 && !began_again(
            d[i][d[i].len() - 2].sample,
            d[i][d[i].len() - 1].sample,
        ) by {
            assert(d[i] == rings[i]);
        }
        peaks_are_the_highest_rates_of_the_session(d);
        let p = peaks_after(d);
        let e = rings.last();
        assert(rings[rings.len() - 1] == e);
        peaks_take_in_the_newest_interval(p, e, binary64::zero());
        let q = peaks_after(rings);
        lemma_highest(d, e, p.decode, q.decode, decode_tokens());
        lemma_highest(d, e, p.prefill, q.prefill, prefill_tokens());
        assert(d.push(e) =~= rings);
    }
}

proof fn lemma_highest(
    d: Seq<Seq<EntryView>>,
    e: Seq<EntryView>,
    before: Option<Binary64>,
    after: Option<Binary64>,
    p: spec_fn(KeyView) -> bool,
)
    requires
        highest(before, d, p),
        topped(before, newest_rate(e, p), after),
        sound_peak(after),
    ensures
        highest(after, d.push(e), p),
{
    let rings = d.push(e);
    assert forall|i: int|
        0 <= i < rings.len() && binary64::less(
            binary64::zero(),
            #[trigger] newest_rate(rings[i], p),
        ) implies after is Some && binary64::at_most(newest_rate(rings[i], p), after->0) by {
        if i < d.len() {
            assert(rings[i] == d[i]);
            assert(binary64::less(binary64::zero(), newest_rate(d[i], p)));
        }
    }
    if after is Some {
        if after == before {
            let i = choose|i: int|
                0 <= i < d.len() && #[trigger] newest_rate(d[i], p) == before->0;
            assert(newest_rate(rings[i], p) == after->0);
        } else {
            assert(newest_rate(rings[d.len() as int], p) == after->0);
        }
    }
}

/// The rate of a single stream over the newest interval of a ring.
pub open spec fn stream_rate(e: Seq<EntryView>, running: Binary64) -> Binary64 {
    binary64::quotient(newest_rate(e, decode_tokens()), running)
}

/// Until the engine begins again, the peak of single streams is no lower than the decode
/// rate over the running requests of any interval of the session that had some.
pub proof fn no_stream_was_faster_than_its_peak(
    rings: Seq<Seq<EntryView>>,
    i: int,
    running: Binary64,
)
    requires
        unbroken(rings),
        0 <= i < rings.len(),
        reads(rings[i][rings[i].len() - 1].sample, "vllm:num_requests_running"@, running),
        binary64::less(binary64::zero(), running),
        binary64::less(binary64::zero(), stream_rate(rings[i], running)),
    ensures
        peaks_after(rings).decode_single is Some,
        binary64::at_most(stream_rate(rings[i], running), peaks_after(rings).decode_single->0),
    decreases rings.len(),
{
    let d = rings.drop_last();
    let e = rings.last();
    assert(unbroken(d)) by {
        assert forall|j: int| 0 <= j < d.len() implies history::ring_ok(#[trigger] d[j])
            && d[j].len() >= 2 && !began_again(
            d[j][d[j].len() - 2].sample,
            d[j][d[j].len() - 1].sample,
        ) by {
            assert(d[j] == rings[j]);
        }
    }
    peaks_are_the_highest_rates_of_the_session(d);
    assert(rings[rings.len() - 1] == e);
    let p = peaks_after(d);
    if i == rings.len() - 1 {
        peaks_take_in_the_newest_interval(p, e, running);
    } else {
        assert(d[i] == rings[i]);
        no_stream_was_faster_than_its_peak(d, i, running);
        let s = e[e.len() - 1].sample;
        let name = "vllm:num_requests_running"@;
        if lacks(s, name) {
            peaks_take_in_the_newest_interval(p, e, running);
        } else {
            let v = shown_laws::lemma_reading(s, name);
            peaks_take_in_the_newest_interval(p, e, v);
        }
    }
}

/// An alarm is set exactly where it was set before or its counter rose over the newest
/// interval. Where the engine began again none is set, and without an interval they stay.
pub proof fn alarms_are_set_by_their_counters(a: Alarms, e: Seq<EntryView>)
    requires
        history::ring_ok(e),
    ensures
        e.len() < 2 ==> alarmed(a, e) == a,
        e.len() >= 2 ==> ({
            let x = e[e.len() - 2];
            let y = e[e.len() - 1];
            let b = alarmed(a, e);
            let rose = |p: spec_fn(KeyView) -> bool|
                binary64::less(binary64::zero(), rate_between(x, y, p));
            &&& began_again(x.sample, y.sample) ==> !b.abort && !b.http_5xx && !b.alloc_fail
            &&& !began_again(x.sample, y.sample) ==> {
                &&& b.abort <==> a.abort || rose(client_aborts())
                &&& b.http_5xx <==> a.http_5xx || rose(server_errors())
                &&& b.alloc_fail <==> a.alloc_fail || rose(
                    named("vllm:kv_offload_allocation_failure_total"@),
                )
            }
        }),
{
    if e.len() >= 2 {
        lemma_newest(e);
    }
}

} // verus!
