//! The quantiles of a window against the observations that were made in it.

use vstd::arithmetic::power2::*;
use vstd::prelude::*;

use crate::accuracy;
use crate::binary64;
use crate::binary64::Binary64;
use crate::derive::{family, quantiles, scan};
use crate::history;
use crate::history::EntryView;
use crate::laws;
use crate::metrics::{HistView, SampleView};
use crate::rounding;
use crate::series;
use crate::series::KeyView;
use crate::window_laws;
use crate::window_laws::{cut_at, named};

verus! {

/// A finite number that carries no sign.
pub open spec fn unsigned(x: Binary64) -> bool {
    x.finite() && !x.negative()
}

/// A histogram kept its bounds from one sample to another, and each of its counts grew by
/// the count of `more`, exactly.
pub open spec fn grew_by(was: HistView, now: HistView, more: HistView) -> bool {
    &&& was.le == now.le
    &&& more.le == now.le
    &&& was.counts.len() == was.le.len()
    &&& now.counts.len() == now.le.len()
    &&& more.counts.len() == more.le.len()
    &&& now.count == was.count + more.count
    &&& forall|j: int|
        0 <= j < now.counts.len() ==> unsigned(was.counts[j]) && unsigned(#[trigger] now.counts[j])
            && unsigned(more.counts[j]) && now.counts[j].units() == was.counts[j].units()
            + more.counts[j].units()
}

/// The histogram of the later sample, where it meets `p`, grew by the other one since the
/// earlier sample. One that the earlier sample lacks is new, and brings no observations.
pub open spec fn one_grew_by(
    was: SampleView,
    now: (KeyView, HistView),
    more: (KeyView, HistView),
    p: spec_fn(KeyView) -> bool,
) -> bool {
    &&& more.0 == now.0
    &&& p(now.0) ==> match series::lookup(was.hist, now.0) {
        Some(h) => grew_by(h, now.1, more.1),
        None => more.1.le.len() == 0 && more.1.counts.len() == 0 && more.1.count == 0,
    }
}

/// Every histogram of the later sample that meets `p` grew by what `more` holds of it.
pub open spec fn all_grew_by(
    was: SampleView,
    now: SampleView,
    more: SampleView,
    p: spec_fn(KeyView) -> bool,
) -> bool {
    &&& now.hist.len() == more.hist.len()
    &&& forall|i: int|
        0 <= i < now.hist.len() ==> one_grew_by(was, now.hist[i], #[trigger] more.hist[i], p)
}

/// How many observations the histograms that meet `p` hold.
pub open spec fn observed(s: Seq<(KeyView, HistView)>, p: spec_fn(KeyView) -> bool) -> int
    decreases s.len(),
{
    if s.len() == 0 {
        0
    } else {
        observed(s.drop_last(), p) + (if p(s.last().0) {
            s.last().1.count as int
        } else {
            0
        })
    }
}

/// The ladder of a histogram from the bound at `i` on.
spec fn rungs(h: HistView, i: int) -> Seq<(Binary64, Binary64)> {
    Seq::new((h.le.len() - i) as nat, |j: int| (h.le[i + j], history::count_at(h, i + j)))
}

proof fn lemma_difference(was: Binary64, now: Binary64, more: Binary64)
    requires
        unsigned(was),
        unsigned(now),
        unsigned(more),
        now.units() == was.units() + more.units(),
    ensures
        binary64::difference(now, was) == more,
{
    assert(rounding::magnitude(0) == 0);
    assert(binary64::opposite(was).units() == -was.units());
    accuracy::rounding_keeps_numbers(more.abs_bits());
    if more.abs_bits() > 0 {
        accuracy::magnitudes_ascend(0, more.abs_bits());
    }
}

proof fn lemma_shared(was: HistView, now: HistView, more: HistView, i: int)
    requires
        grew_by(was, now, more),
        0 <= i <= now.le.len(),
    ensures
        history::shared(now, was, i, i) == rungs(more, i),
    decreases now.le.len() - i,
{
    if i < now.le.len() {
        lemma_shared(was, now, more, i + 1);
        assert(unsigned(now.counts[i]));
        lemma_difference(was.counts[i], now.counts[i], more.counts[i]);
        assert(seq![(now.le[i], more.counts[i])] + rungs(more, i + 1) =~= rungs(more, i));
    } else {
        assert(rungs(more, i) =~= Seq::empty());
    }
}

proof fn lemma_changes(
    was: SampleView,
    now: Seq<(KeyView, HistView)>,
    more: Seq<(KeyView, HistView)>,
    p: spec_fn(KeyView) -> bool,
)
    requires
        now.len() == more.len(),
        forall|i: int| 0 <= i < now.len() ==> one_grew_by(was, now[i], #[trigger] more[i], p),
    ensures
        history::bucket_changes(was.hist, now, p) == (history::ladders(more, p), observed(more, p)),
    decreases now.len(),
{
    if now.len() > 0 {
        let n = now.drop_last();
        let m = more.drop_last();
        assert forall|i: int| 0 <= i < n.len() implies one_grew_by(
            was,
            n[i],
            #[trigger] m[i],
            p,
        ) by {
            assert(m[i] == more[i] && n[i] == now[i]);
            assert(one_grew_by(was, now[i], more[i], p));
        }
        lemma_changes(was, n, m, p);
        let last = now.len() - 1;
        assert(one_grew_by(was, now[last], more[last], p));
        let h = more.last().1;
        let ladder = Seq::new(h.le.len(), |i: int| (h.le[i], history::count_at(h, i)));
        if p(now.last().0) {
            match series::lookup(was.hist, now.last().0) {
                Some(x) => {
                    lemma_shared(x, now.last().1, h, 0);
                    assert(rungs(h, 0) =~= ladder);
                },
                None => {
                    assert(history::ladders(m, p) + ladder =~= history::ladders(m, p));
                },
            }
        }
    }
}

proof fn lemma_ladder_counts(s: Seq<(KeyView, HistView)>, p: spec_fn(KeyView) -> bool)
    requires
        forall|i: int, j: int|
            0 <= i < s.len() && p(s[i].0) && 0 <= j < s[i].1.counts.len() ==> unsigned(
                #[trigger] s[i].1.counts[j],
            ),
    ensures
        forall|j: int|
            0 <= j < history::ladders(s, p).len() ==> unsigned(
                (#[trigger] history::ladders(s, p)[j]).1,
            ),
    decreases s.len(),
{
    if s.len() > 0 {
        let d = s.drop_last();
        assert forall|i: int, j: int|
            0 <= i < d.len() && p(d[i].0) && 0 <= j < d[i].1.counts.len() implies unsigned(
            #[trigger] d[i].1.counts[j],
        ) by {
            assert(d[i] == s[i]);
            assert(unsigned(s[i].1.counts[j]));
        }
        lemma_ladder_counts(d, p);
        let l = history::ladders(s, p);
        let a = history::ladders(d, p);
        let last = s.len() - 1;
        assert forall|j: int| 0 <= j < l.len() implies unsigned((#[trigger] l[j]).1) by {
            if j < a.len() {
                assert(l[j] == a[j]);
                assert(unsigned(a[j].1));
            } else {
                let h = s[last].1;
                let i = j - a.len();
                assert(l[j] == (h.le[i], history::count_at(h, i)));
                if i < h.counts.len() {
                    assert(unsigned(s[last].1.counts[i]));
                }
            }
        }
    }
}

/// The quantiles of a window are the quantiles of what was observed in it: those that an
/// engine would show since its start that had made these observations and no others. So
/// nothing that was observed before the window alters them.
pub proof fn window_quantiles_are_of_what_was_observed_in_it(
    old: Seq<EntryView>,
    recent: Seq<EntryView>,
    nanos: nat,
    p: spec_fn(KeyView) -> bool,
    q: Binary64,
    more: SampleView,
)
    requires
        cut_at(old, recent, nanos),
        all_grew_by(recent[0].sample, recent.last().sample, more, p),
        5 <= observed(more.hist, p) <= i64::MAX,
        history::snapshot_quantile(more, p, q) is Some,
    ensures
        history::window_quantile(old + recent, p, q, nanos) == history::snapshot_quantile(
            more,
            p,
            q,
        ),
{
    window_laws::windows_hold_what_is_recent(old, recent, nanos);
    lemma_usable(recent[0].sample, recent.last().sample, more, p, q);
}

/// Where enough was observed, the changes are the ladders of what was observed.
proof fn lemma_usable(
    was: SampleView,
    now: SampleView,
    more: SampleView,
    p: spec_fn(KeyView) -> bool,
    q: Binary64,
)
    requires
        all_grew_by(was, now, more, p),
        5 <= observed(more.hist, p) <= i64::MAX,
        history::snapshot_quantile(more, p, q) is Some,
    ensures
        history::usable_changes(was, now, p) == Some(
            history::merged(history::ladders(more.hist, p)),
        ),
{
    lemma_changes(was, now.hist, more.hist, p);
    assert forall|i: int, j: int|
        0 <= i < more.hist.len() && p(more.hist[i].0) && 0 <= j
            < more.hist[i].1.counts.len() implies unsigned(#[trigger] more.hist[i].1.counts[j]) by {
        assert(one_grew_by(was, now.hist[i], more.hist[i], p));
        if series::lookup(was.hist, now.hist[i].0) is Some {
            assert(unsigned(now.hist[i].1.counts[j]));
        }
    }
    lemma_ladder_counts(more.hist, p);
    let raw = history::ladders(more.hist, p);
    assert(!history::fell(raw)) by {
        let bar = binary64::opposite(history::half());
        accuracy::half_is_exact();
        assert forall|i: int| 0 <= i < raw.len() implies !binary64::less(
            (#[trigger] raw[i]).1,
            bar,
        ) by {
            assert(unsigned(raw[i].1));
        }
    }
    let m = history::merged(raw);
    assert(m.len() > 0) by {
        if m.len() == 0 {
            assert(history::top_count(m) is None);
        }
    }
}

/// The quantiles of a window look at the samples in it and at no older one, whatever they
/// hold.
pub proof fn older_samples_do_not_alter_quantiles(
    old: Seq<EntryView>,
    recent: Seq<EntryView>,
    name: Seq<char>,
    nanos: nat,
)
    requires
        cut_at(old, recent, nanos),
    ensures
        quantiles(old + recent, name, nanos) == quantiles(recent, name, nanos),
{
    let none = Seq::<EntryView>::empty();
    assert(none + recent =~= recent);
    window_laws::windows_hold_what_is_recent(old, recent, nanos);
    window_laws::windows_hold_what_is_recent(none, recent, nanos);
}

/// The three quantiles that are shown of a window are the 50th, the 95th and the 99th
/// percentile of what was observed in it.
pub proof fn shown_quantiles_are_of_what_was_observed(
    old: Seq<EntryView>,
    recent: Seq<EntryView>,
    name: Seq<char>,
    nanos: nat,
    more: SampleView,
)
    requires
        cut_at(old, recent, nanos),
        all_grew_by(recent[0].sample, recent.last().sample, more, named(name)),
        5 <= observed(more.hist, named(name)) <= i64::MAX,
    ensures
        ({
            let shown = quantiles(old + recent, name, nanos);
            let percentile = |n: nat|
                history::snapshot_quantile(
                    more,
                    named(name),
                    binary64::quotient(binary64::integer(n), binary64::integer(100)),
                );
            &&& percentile(50) is Some ==> shown.p50 == percentile(50)
            &&& percentile(95) is Some ==> shown.p95 == percentile(95)
            &&& percentile(99) is Some ==> shown.p99 == percentile(99)
        }),
{
    assert(family(name) =~= named(name));
    let fifty = binary64::quotient(binary64::integer(50), binary64::integer(100));
    let most = binary64::quotient(binary64::integer(95), binary64::integer(100));
    let nearly = binary64::quotient(binary64::integer(99), binary64::integer(100));
    let p = named(name);
    if history::snapshot_quantile(more, p, fifty) is Some {
        window_quantiles_are_of_what_was_observed_in_it(old, recent, nanos, p, fifty, more);
    }
    if history::snapshot_quantile(more, p, most) is Some {
        window_quantiles_are_of_what_was_observed_in_it(old, recent, nanos, p, most, more);
    }
    if history::snapshot_quantile(more, p, nearly) is Some {
        window_quantiles_are_of_what_was_observed_in_it(old, recent, nanos, p, nearly, more);
    }
}

/// A window with fewer than five observations shows the quantiles of everything observed
/// since the start.
pub proof fn sparse_windows_show_what_was_observed_since_the_start(
    old: Seq<EntryView>,
    recent: Seq<EntryView>,
    nanos: nat,
    p: spec_fn(KeyView) -> bool,
    q: Binary64,
    more: SampleView,
)
    requires
        cut_at(old, recent, nanos),
        all_grew_by(recent[0].sample, recent.last().sample, more, p),
        observed(more.hist, p) < 5,
    ensures
        history::window_quantile(old + recent, p, q, nanos) == history::snapshot_quantile(
            recent.last().sample,
            p,
            q,
        ),
{
    window_laws::windows_hold_what_is_recent(old, recent, nanos);
    lemma_unusable(recent[0].sample, recent.last().sample, more, p);
}

/// Where too little was observed, there are no changes to interpolate in.
proof fn lemma_unusable(
    was: SampleView,
    now: SampleView,
    more: SampleView,
    p: spec_fn(KeyView) -> bool,
)
    requires
        all_grew_by(was, now, more, p),
        observed(more.hist, p) < 5,
    ensures
        history::usable_changes(was, now, p) is None,
{
    lemma_changes(was, now.hist, more.hist, p);
    lemma_observed(more.hist, p);
}

/// Each point of the latency plot is the 95th percentile of what was observed from the first
/// sample of the last 60 seconds up to the later sample of its interval; there is none where
/// fewer than five observations were made.
#[verifier::rlimit(40)]
pub proof fn latency_points_are_of_what_was_observed(
    old: Seq<EntryView>,
    recent: Seq<EntryView>,
    i: int,
    more: SampleView,
)
    requires
        cut_at(old, recent, 60_000_000_000),
        0 <= i < recent.len() - 1,
        all_grew_by(
            recent[0].sample,
            recent[i + 1].sample,
            more,
            named("vllm:time_to_first_token_seconds"@),
        ),
    ensures
        ({
            let p = named("vllm:time_to_first_token_seconds"@);
            let q = binary64::quotient(binary64::integer(95), binary64::integer(100));
            let want = history::snapshot_quantile(more, p, q);
            let shown = scan(old + recent).ttft_p95[i];
            &&& observed(more.hist, p) < 5 ==> shown is None
            &&& 5 <= observed(more.hist, p) <= i64::MAX && want is Some ==> shown == want
        }),
{
    let p = named("vllm:time_to_first_token_seconds"@);
    assert(family("vllm:time_to_first_token_seconds"@) =~= p);
    let q = binary64::quotient(binary64::integer(95), binary64::integer(100));
    window_laws::windows_hold_what_is_recent(old, recent, 60_000_000_000);
    assert(scan(old + recent).ttft_p95[i] == history::span_p95(
        recent[0].sample,
        recent[i + 1].sample,
        p,
    ));
    if observed(more.hist, p) >= 5 && observed(more.hist, p) <= i64::MAX
        && history::snapshot_quantile(more, p, q) is Some {
        lemma_usable(recent[0].sample, recent[i + 1].sample, more, p, q);
    } else if observed(more.hist, p) < 5 {
        lemma_unusable(recent[0].sample, recent[i + 1].sample, more, p);
    }
}

proof fn lemma_change_is_there(
    old: Seq<(KeyView, HistView)>,
    new: Seq<(KeyView, HistView)>,
    p: spec_fn(KeyView) -> bool,
    i: int,
    x: (Binary64, Binary64),
)
    requires
        0 <= i < new.len(),
        p(new[i].0),
        series::lookup(old, new[i].0) is Some,
        history::shared(new[i].1, series::lookup(old, new[i].0)->0, 0, 0).contains(x),
    ensures
        history::bucket_changes(old, new, p).0.contains(x),
    decreases new.len(),
{
    let d = new.drop_last();
    let a = history::bucket_changes(old, d, p).0;
    let all = history::bucket_changes(old, new, p).0;
    if i < d.len() {
        assert(d[i] == new[i]);
        lemma_change_is_there(old, d, p, i, x);
        let k = choose|k: int| 0 <= k < a.len() && a[k] == x;
        assert(all[k] == x);
    } else {
        let s = history::shared(new[i].1, series::lookup(old, new[i].0)->0, 0, 0);
        let k = choose|k: int| 0 <= k < s.len() && s[k] == x;
        assert(all[a.len() + k] == x);
    }
}

/// Where a count of some histogram fell since the first sample of the window, the engine
/// began again, and the quantiles are those of everything observed since its start.
#[verifier::rlimit(40)]
pub proof fn windows_with_a_reset_show_what_was_observed_since_the_start(
    old: Seq<EntryView>,
    recent: Seq<EntryView>,
    nanos: nat,
    p: spec_fn(KeyView) -> bool,
    q: Binary64,
    i: int,
    a: int,
    b: int,
)
    requires
        cut_at(old, recent, nanos),
        0 <= i < recent.last().sample.hist.len(),
        p(recent.last().sample.hist[i].0),
        series::lookup(recent[0].sample.hist, recent.last().sample.hist[i].0) is Some,
        ({
            let now = recent.last().sample.hist[i].1;
            let was = series::lookup(recent[0].sample.hist, recent.last().sample.hist[i].0)->0;
            &&& laws::orderable(now) && laws::strict(now)
            &&& laws::orderable(was) && laws::strict(was)
            &&& 0 <= a < now.le.len() && a < now.counts.len()
            &&& 0 <= b < was.le.len() && b < was.counts.len()
            &&& binary64::equal(now.le[a], was.le[b])
            &&& unsigned(now.counts[a]) && unsigned(was.counts[b])
            &&& now.counts[a].units() + pow2(1074) <= was.counts[b].units()
        }),
    ensures
        history::window_quantile(old + recent, p, q, nanos) == history::snapshot_quantile(
            recent.last().sample,
            p,
            q,
        ),
{
    window_laws::windows_hold_what_is_recent(old, recent, nanos);
    let new = recent.last().sample.hist;
    let before = recent[0].sample.hist;
    let now = new[i].1;
    let was = series::lookup(before, new[i].0)->0;
    laws::every_shared_bound_is_paired(now, was, 0, 0, a, b);
    let x = laws::paired_at(now, was, a, b);
    lemma_change_is_there(before, new, p, i, x);
    let raw = history::bucket_changes(before, new, p).0;
    let k = choose|k: int| 0 <= k < raw.len() && raw[k] == x;
    // One observation fewer is less than minus one half.
    let y = now.counts[a];
    let z = was.counts[b];
    let c = pow2(1074);
    lemma_pow2_pos(1074);
    lemma_pow2_unfold(1074);
    assert(rounding::magnitude(0) == 0);
    assert(binary64::opposite(z).units() == -z.units());
    let fall = (z.units() - y.units()) as nat;
    accuracy::half_is_exact();
    let half = history::half();
    assert(half.mag() * 1 <= fall * 1);
    accuracy::small_integers_are_exact(1);
    accuracy::integers_keep_order(0, 1);
    let one = binary64::integer(1);
    assert(1 * c == c);
    accuracy::rounding_keeps_order(c, 1, fall, 1);
    accuracy::rounding_keeps_numbers(one.abs_bits());
    assert(half.abs_bits() < one.abs_bits()) by {
        if one.abs_bits() < half.abs_bits() {
            accuracy::magnitudes_ascend(one.abs_bits(), half.abs_bits());
        }
    }
    assert(x.1 == binary64::difference(y, z));
    assert(binary64::less(raw[k].1, binary64::opposite(half)));
    assert(history::fell(raw));
}

proof fn lemma_observed(s: Seq<(KeyView, HistView)>, p: spec_fn(KeyView) -> bool)
    ensures
        observed(s, p) >= 0,
    decreases s.len(),
{
    if s.len() > 0 {
        lemma_observed(s.drop_last(), p);
    }
}

} // verus!
