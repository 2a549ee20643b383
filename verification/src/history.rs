//! The ring of recent samples, and the rates and quantiles computed from it.

use std::collections::VecDeque;

use vstd::prelude::*;
use vstd::string::*;

use crate::binary64;
use crate::binary64::Binary64;
use crate::derive::{scan_window, Graphs, GraphsView};
use crate::metrics;
use crate::metrics::{HistSeries, HistView, Sample, SampleView};
use crate::order;
use crate::order::arrange;
use crate::series;
use crate::series::{KeyView, SeriesKey};

verus! {

/// The number of samples retained. At the default interval of one second this covers
/// well over two minutes, more than the longest window.
pub const RING_CAP: usize = 150;

/// The fewest observations that a quantile is interpolated from.
pub const QUANTILE_MIN_OBS: i64 = 5;

/// A sample and the time of its arrival, in nanoseconds.
pub struct Entry {
    pub t: u64,
    pub sample: Sample,
}

/// What an entry stands for.
pub struct EntryView {
    pub t: nat,
    pub sample: SampleView,
}

impl View for Entry {
    type V = EntryView;

    open spec fn view(&self) -> EntryView {
        EntryView { t: self.t as nat, sample: self.sample@ }
    }
}

/// What a counter rose by between two readings: a reading below the earlier one is a
/// reset and counts as a rise from zero.
pub open spec fn counter_rise(old: Binary64, new: Binary64) -> Binary64 {
    if binary64::less(new, old) {
        new
    } else {
        binary64::difference(new, old)
    }
}

/// What a counter rose by between two readings.
pub fn counter_delta(old: Binary64, new: Binary64) -> (r: Binary64)
    ensures
        r == counter_rise(old, new),
{
    if new.lt(old) {
        new
    } else {
        new.minus(old)
    }
}

/// The executable predicate decides the given property of keys.
pub open spec fn agrees<F: Fn(&SeriesKey) -> bool>(f: F, p: spec_fn(KeyView) -> bool) -> bool {
    forall|k: &SeriesKey, b: bool| #[trigger] f.ensures((k,), b) ==> b == p(k@)
}

/// The executable predicate can be asked of every key.
pub open spec fn askable<F: Fn(&SeriesKey) -> bool>(f: F) -> bool {
    forall|k: &SeriesKey| #[trigger] f.requires((k,))
}

/// The rises of every series that meets `p` and stands in both samples, added to what
/// was there, and whether there was any. A series absent from the earlier sample starts
/// as a new one and pairs with nothing.
pub open spec fn paired(
    acc: (Binary64, bool),
    old: Seq<(KeyView, Binary64)>,
    new: Seq<(KeyView, Binary64)>,
    p: spec_fn(KeyView) -> bool,
) -> (Binary64, bool)
    decreases new.len(),
{
    if new.len() == 0 {
        acc
    } else {
        let a = paired(acc, old, new.drop_last(), p);
        let (k, v) = new.last();
        match series::lookup(old, k) {
            Some(was) => if p(k) {
                (binary64::sum(a.0, counter_rise(was, v)), true)
            } else {
                a
            },
            None => a,
        }
    }
}

/// The rises over every pair of consecutive entries.
pub open spec fn rises(e: Seq<EntryView>, p: spec_fn(KeyView) -> bool) -> (Binary64, bool)
    decreases e.len(),
{
    if e.len() < 2 {
        (binary64::zero(), false)
    } else {
        paired(
            rises(e.drop_last(), p),
            e[e.len() - 2].sample.simple,
            e[e.len() - 1].sample.simple,
            p,
        )
    }
}

/// How many entries stand before the first that is not older than `cutoff`.
pub open spec fn older(e: Seq<EntryView>, cutoff: int) -> nat
    decreases e.len(),
{
    if e.len() == 0 || e[0].t >= cutoff {
        0
    } else {
        1 + older(e.drop_first(), cutoff)
    }
}

/// The entries that are not older than `window` nanoseconds before the last one.
pub open spec fn inside(e: Seq<EntryView>, window: nat) -> Seq<EntryView> {
    if e.len() == 0 {
        e
    } else {
        e.skip(older(e, e.last().t - window) as int)
    }
}

/// The rate per second over a window, summed over every series that meets `p`.
pub open spec fn rate(e: Seq<EntryView>, p: spec_fn(KeyView) -> bool, window: nat) -> Option<
    Binary64,
> {
    let w = inside(e, window);
    if w.len() < 2 || !rises(w, p).1 {
        None
    } else {
        Some(
            binary64::quotient(
                rises(w, p).0,
                binary64::seconds((w.last().t - w[0].t) as nat),
            ),
        )
    }
}

/// The values of every series that meets `p`, added up, and whether there was any.
pub open spec fn total(s: Seq<(KeyView, Binary64)>, p: spec_fn(KeyView) -> bool) -> (
    Binary64,
    bool,
)
    decreases s.len(),
{
    if s.len() == 0 {
        (binary64::zero(), false)
    } else {
        let a = total(s.drop_last(), p);
        if p(s.last().0) {
            (binary64::sum(a.0, s.last().1), true)
        } else {
            a
        }
    }
}

/// The count that goes with the bound at `i`.
pub open spec fn count_at(h: HistView, i: int) -> Binary64 {
    if i < h.counts.len() {
        h.counts[i]
    } else {
        binary64::zero()
    }
}

/// The changes of the cumulative counts at the bounds that two ladders share, from the
/// bounds at `i` and `j` on. A bound of one side only is a change of the ladder, no data.
pub open spec fn shared(new: HistView, old: HistView, i: int, j: int) -> Seq<(Binary64, Binary64)>
    decreases new.le.len() - i + old.le.len() - j,
{
    if i < 0 || j < 0 || i >= new.le.len() || j >= old.le.len() {
        Seq::empty()
    } else if binary64::less(new.le[i], old.le[j]) {
        shared(new, old, i + 1, j)
    } else if binary64::less(old.le[j], new.le[i]) {
        shared(new, old, i, j + 1)
    } else {
        seq![(new.le[i], binary64::difference(count_at(new, i), count_at(old, j)))] + shared(
            new,
            old,
            i + 1,
            j + 1,
        )
    }
}

/// The bucket changes of every histogram that meets `p` and stands in both samples, one
/// after the other, and by how much their observation counts grew together.
pub open spec fn bucket_changes(
    old: Seq<(KeyView, HistView)>,
    new: Seq<(KeyView, HistView)>,
    p: spec_fn(KeyView) -> bool,
) -> (Seq<(Binary64, Binary64)>, int)
    decreases new.len(),
{
    if new.len() == 0 {
        (Seq::empty(), 0)
    } else {
        let a = bucket_changes(old, new.drop_last(), p);
        let (k, h) = new.last();
        match series::lookup(old, k) {
            Some(was) => if p(k) {
                (a.0 + shared(h, was, 0, 0), a.1 + (h.count - was.count))
            } else {
                a
            },
            None => a,
        }
    }
}

/// An integer modulo two to the power of 64, as a signed number.
pub open spec fn wrapped(x: int) -> int {
    let m = x % 0x1_0000_0000_0000_0000;
    if m >= 0x8000_0000_0000_0000 {
        m - 0x1_0000_0000_0000_0000
    } else {
        m
    }
}

/// A pair that counts: a finite value at a finite bound or at positive infinity.
pub open spec fn countable(b: (Binary64, Binary64)) -> bool {
    b.1.finite() && metrics::usable_bound(b.0)
}

/// Neighbours with equal bounds become one, with the sum of their values.
pub open spec fn joined(s: Seq<(Binary64, Binary64)>) -> Seq<(Binary64, Binary64)>
    decreases s.len(),
{
    if s.len() == 0 {
        s
    } else {
        let m = joined(s.drop_last());
        let x = s.last();
        if m.len() > 0 && binary64::equal(m.last().0, x.0) {
            m.drop_last().push((m.last().0, binary64::sum(m.last().1, x.1)))
        } else {
            m.push(x)
        }
    }
}

/// The countable pairs in ascending order of their bounds, one for each bound.
pub open spec fn merged(s: Seq<(Binary64, Binary64)>) -> Seq<(Binary64, Binary64)> {
    joined(order::arranged(s.filter(|b: (Binary64, Binary64)| countable(b))))
}

/// The largest value at an infinite bound.
pub open spec fn top_count(b: Seq<(Binary64, Binary64)>) -> Option<Binary64>
    decreases b.len(),
{
    if b.len() == 0 {
        None
    } else if !b.last().0.infinite() {
        top_count(b.drop_last())
    } else {
        match top_count(b.drop_last()) {
            Some(m) => if binary64::less(b.last().1, m) {
                Some(m)
            } else {
                Some(b.last().1)
            },
            None => Some(b.last().1),
        }
    }
}

/// The number of observations behind a ladder: the count of its infinite bucket, or of
/// its last one.
pub open spec fn observations(b: Seq<(Binary64, Binary64)>) -> Option<Binary64> {
    match top_count(b) {
        Some(m) => Some(m),
        None => if b.len() > 0 {
            Some(b.last().1)
        } else {
            None
        },
    }
}

/// The estimate inside the first finite bucket that reaches `rank`: linear interpolation
/// from the bucket before it.
pub open spec fn interpolated(
    b: Seq<(Binary64, Binary64)>,
    rank: Binary64,
    prev_le: Binary64,
    prev_count: Binary64,
) -> Option<Binary64>
    decreases b.len(),
{
    if b.len() == 0 || !b[0].0.finite() {
        None
    } else {
        let le = b[0].0;
        let count = binary64::larger(b[0].1, binary64::zero());
        let span = binary64::difference(count, prev_count);
        if !binary64::at_most(rank, count) {
            interpolated(b.drop_first(), rank, le, count)
        } else if binary64::at_most(span, binary64::zero()) {
            Some(le)
        } else {
            Some(
                binary64::sum(
                    prev_le,
                    binary64::product(
                        binary64::quotient(binary64::difference(rank, prev_count), span),
                        binary64::difference(le, prev_le),
                    ),
                ),
            )
        }
    }
}

/// The last finite bound.
pub open spec fn last_bound(b: Seq<(Binary64, Binary64)>) -> Option<Binary64>
    decreases b.len(),
{
    if b.len() == 0 {
        None
    } else if b.last().0.finite() {
        Some(b.last().0)
    } else {
        last_bound(b.drop_last())
    }
}

/// The quantile `q` of a ladder of cumulative counts.
pub open spec fn quantile(b: Seq<(Binary64, Binary64)>, q: Binary64) -> Option<Binary64> {
    match observations(b) {
        None => None,
        Some(n) => if binary64::at_most(n, binary64::zero()) {
            None
        } else {
            let rank = binary64::product(
                binary64::clamped(q, binary64::zero(), binary64::integer(1)),
                n,
            );
            match interpolated(b, rank, binary64::zero(), binary64::zero()) {
                Some(x) => Some(x),
                None => last_bound(b),
            }
        },
    }
}

/// The ladders of every histogram that meets `p`, one after the other.
pub open spec fn ladders(s: Seq<(KeyView, HistView)>, p: spec_fn(KeyView) -> bool) -> Seq<
    (Binary64, Binary64),
>
    decreases s.len(),
{
    if s.len() == 0 {
        Seq::empty()
    } else {
        let a = ladders(s.drop_last(), p);
        if p(s.last().0) {
            let h = s.last().1;
            a + Seq::new(h.le.len(), |i: int| (h.le[i], count_at(h, i)))
        } else {
            a
        }
    }
}

/// The quantile of everything observed since the start.
pub open spec fn snapshot_quantile(
    s: SampleView,
    p: spec_fn(KeyView) -> bool,
    q: Binary64,
) -> Option<Binary64> {
    quantile(merged(ladders(s.hist, p)), q)
}

/// One half.
pub open spec fn half() -> Binary64 {
    binary64::quotient(binary64::integer(1), binary64::integer(2))
}

/// Some cumulative count fell: a reset. A reset in any single histogram is one of the
/// whole family.
pub open spec fn fell(raw: Seq<(Binary64, Binary64)>) -> bool {
    exists|i: int|
        0 <= i < raw.len() && binary64::less((#[trigger] raw[i]).1, binary64::opposite(half()))
}

/// The merged bucket changes between two samples, where they are fit to interpolate in:
/// the samples share a bound, nothing fell, and there are enough observations.
pub open spec fn usable_changes(
    old: SampleView,
    new: SampleView,
    p: spec_fn(KeyView) -> bool,
) -> Option<Seq<(Binary64, Binary64)>> {
    let (raw, grown) = bucket_changes(old.hist, new.hist, p);
    if merged(raw).len() == 0 || fell(raw) || wrapped(grown) < QUANTILE_MIN_OBS {
        None
    } else {
        Some(merged(raw))
    }
}

/// The quantile of what was observed over a window, and of everything observed since
/// the start where the window is not fit for it.
pub open spec fn window_quantile(
    e: Seq<EntryView>,
    p: spec_fn(KeyView) -> bool,
    q: Binary64,
    window: nat,
) -> Option<Binary64> {
    if e.len() == 0 {
        None
    } else {
        match usable_changes(inside(e, window)[0].sample, e.last().sample, p) {
            Some(b) => quantile(b, q),
            None => snapshot_quantile(e.last().sample, p, q),
        }
    }
}

/// Nineteen twentieths.
pub open spec fn ninety_five() -> Binary64 {
    binary64::quotient(binary64::integer(95), binary64::integer(100))
}

/// The 95th percentile of what was observed between two samples, where they are fit for
/// it.
pub open spec fn span_p95(old: SampleView, new: SampleView, p: spec_fn(KeyView) -> bool) -> Option<
    Binary64,
> {
    match usable_changes(old, new, p) {
        Some(b) => quantile(b, ninety_five()),
        None => None,
    }
}

/// Adds the rises of every series that meets `pred` and stands in both samples.
pub(crate) fn add_rises<F: Fn(&SeriesKey) -> bool>(
    acc: (Binary64, bool),
    old: &Sample,
    new: &Sample,
    pred: &F,
) -> (r: (Binary64, bool))
    requires
        askable(*pred),
        old.wf(),
    ensures
        forall|p: spec_fn(KeyView) -> bool| #[trigger]
            agrees(*pred, p) ==> r == paired(acc, old@.simple, new@.simple, p),
{
    let mut r: (Binary64, bool) = acc;
    let ghost all = new@.simple;
    let mut i: usize = 0;
    assert(all.take(0) =~= Seq::empty());
    while i < new.simple.len()
        invariant
            i <= new.simple@.len(),
            all == new.simple@,
            askable(*pred),
            old.wf(),
            forall|p: spec_fn(KeyView) -> bool| #[trigger]
                agrees(*pred, p) ==> r == paired(acc, old@.simple, all.take(i as int), p),
        decreases new.simple@.len() - i,
    {
        let k: &SeriesKey = new.simple.key_at(i);
        let ghost had = r;
        assert(all.take(i + 1).drop_last() =~= all.take(i as int));
        assert(all.take(i + 1).last() == all[i as int]);
        if pred(k) {
            if let Some(was) = old.simple.get(k) {
                r = (r.0.plus(counter_delta(*was, *new.simple.value_at(i))), true);
            }
        }
        i += 1;
    }
    assert(all.take(i as int) =~= all);
    r
}

/// The pairs of equal bounds of two ladders, added to `out`.
fn add_shared(out: &mut Vec<(Binary64, Binary64)>, new: &HistSeries, was: &HistSeries)
    requires
        forall|i: int| 0 <= i < new.le@.len() ==> !(#[trigger] new.le@[i]).nan(),
        forall|i: int| 0 <= i < was.le@.len() ==> !(#[trigger] was.le@[i]).nan(),
    ensures
        final(out)@ == old(out)@ + shared(new@, was@, 0, 0),
{
    let mut i: usize = 0;
    let mut j: usize = 0;
    let ghost before = out@;
    let ghost all = shared(new@, was@, 0, 0);
    while i < new.le.len() && j < was.le.len()
        invariant
            i <= new.le@.len(),
            j <= was.le@.len(),
            forall|i: int| 0 <= i < new.le@.len() ==> !(#[trigger] new.le@[i]).nan(),
            forall|i: int| 0 <= i < was.le@.len() ==> !(#[trigger] was.le@[i]).nan(),
            before + all == out@ + shared(new@, was@, i as int, j as int),
        decreases new.le@.len() - i + was.le@.len() - j,
    {
        let a: Binary64 = new.le[i];
        let b: Binary64 = was.le[j];
        if a.lt(b) {
            i += 1;
        } else if b.lt(a) {
            j += 1;
        } else {
            let earlier: Binary64 = count_or_zero(was, j);
            let d: Binary64 = count_or_zero(new, i).minus(earlier);
            let ghost had = out@;
            out.push((a, d));
            i += 1;
            j += 1;
            assert(had + (seq![(a, d)] + shared(new@, was@, i as int, j as int)) =~= out@ + shared(
                new@,
                was@,
                i as int,
                j as int,
            ));
        }
    }
    assert(out@ + Seq::<(Binary64, Binary64)>::empty() =~= out@);
}

fn count_or_zero(h: &HistSeries, i: usize) -> (r: Binary64)
    ensures
        r == count_at(h@, i as int),
{
    if i < h.counts.len() {
        h.counts[i]
    } else {
        Binary64::from_bits(0)
    }
}

/// The unsigned number as a signed one of the same pattern.
fn as_signed(x: u64) -> (r: i64)
    ensures
        r == wrapped(x as int),
{
    if x >= 0x8000_0000_0000_0000 {
        -((0xffff_ffff_ffff_ffff - x) as i64) - 1
    } else {
        x as i64
    }
}

/// Bucket changes between two samples for every family that meets `pred`, and by how
/// much the observation counts grew together.
pub fn hist_family_deltas<F: Fn(&SeriesKey) -> bool>(old: &Sample, new: &Sample, pred: &F) -> (r: (
    Vec<(Binary64, Binary64)>,
    i64,
))
    requires
        askable(*pred),
        old.wf(),
        new.wf(),
    ensures
        forall|p: spec_fn(KeyView) -> bool| #[trigger]
            agrees(*pred, p) ==> r.0@ == bucket_changes(old@.hist, new@.hist, p).0 && r.1
                == wrapped(bucket_changes(old@.hist, new@.hist, p).1),
{
    let mut out: Vec<(Binary64, Binary64)> = Vec::new();
    let mut grown: u64 = 0;
    let ghost all = new@.hist;
    let ghost before = old@.hist;
    let mut i: usize = 0;
    assert(all.take(0) =~= Seq::empty());
    while i < new.hist.len()
        invariant
            i <= new.hist@.len(),
            all == new@.hist,
            before == old@.hist,
            askable(*pred),
            old.wf(),
            new.wf(),
            forall|p: spec_fn(KeyView) -> bool| #[trigger]
                agrees(*pred, p) ==> out@ == bucket_changes(before, all.take(i as int), p).0
                    && grown == bucket_changes(before, all.take(i as int), p).1
                    % 0x1_0000_0000_0000_0000,
        decreases new.hist@.len() - i,
    {
        let k: &SeriesKey = new.hist.key_at(i);
        assert(all.take(i + 1).drop_last() =~= all.take(i as int));
        assert(all.take(i + 1).last() == all[i as int]);
        proof {
            lemma_hist_lookup(*old, k@);
        }
        if pred(k) {
            if let Some(j) = old.hist.find(k) {
                let h: &HistSeries = new.hist.value_at(i);
                let was: &HistSeries = old.hist.value_at(j);
                proof {
                    assert forall|m: int| 0 <= m < h.le@.len() implies !(
                    #[trigger] h.le@[m]).nan() by {
                        assert(!new@.hist[i as int].1.le[m].nan());
                    }
                    assert forall|m: int| 0 <= m < was.le@.len() implies !(
                    #[trigger] was.le@[m]).nan() by {
                        assert(!old@.hist[j as int].1.le[m].nan());
                    }
                }
                add_shared(&mut out, h, was);
                grown = grown.wrapping_add(h.count.wrapping_sub(was.count));
            }
        }
        i += 1;
    }
    assert(all.take(i as int) =~= all);
    (out, as_signed(grown))
}

proof fn lemma_hist_lookup(s: Sample, k: KeyView)
    requires
        s.wf(),
    ensures
        series::ascending(s.hist@),
        series::lookup(s@.hist, k) is Some <==> series::lookup(s.hist@, k) is Some,
        series::lookup(s@.hist, k) is Some ==> series::lookup(s@.hist, k)->0 == (series::lookup(
            s.hist@,
            k,
        )->0)@,
{
    let a = s.hist@;
    let b = s@.hist;
    assert forall|i: int, j: int| 0 <= i < j < a.len() implies series::key_before(
        #[trigger] a[i].0,
        #[trigger] a[j].0,
    ) by {
        assert(series::key_before(b[i].0, b[j].0));
    }
    if series::lookup(b, k) is Some {
        let i = choose|i: int| 0 <= i < b.len() && b[i].0 == k;
        assert(a[i].0 == k);
        series::lemma_lookup_at(a, i);
        series::lemma_lookup_at(b, i);
    } else if series::lookup(a, k) is Some {
        let i = choose|i: int| 0 <= i < a.len() && a[i].0 == k;
        assert(b[i].0 == k);
    }
}

/// Merges pairs of the same bound, dropping what is not countable. The bound at
/// positive infinity is kept: it counts toward the total although nothing can be
/// interpolated into it.
pub fn merge_le(pairs: Vec<(Binary64, Binary64)>) -> (r: Vec<(Binary64, Binary64)>)
    ensures
        r@ == merged(pairs@),
{
    let ghost keep = |b: (Binary64, Binary64)| countable(b);
    let mut kept: Vec<(Binary64, Binary64)> = Vec::new();
    let mut i: usize = 0;
    proof {
        reveal(Seq::filter);
        assert(pairs@.take(0) =~= Seq::empty());
        assert(kept@ =~= pairs@.take(0).filter(keep));
    }
    while i < pairs.len()
        invariant
            i <= pairs@.len(),
            keep == (|b: (Binary64, Binary64)| countable(b)),
            kept@ == pairs@.take(i as int).filter(keep),
        decreases pairs@.len() - i,
    {
        let (le, v) = pairs[i];
        proof {
            reveal(Seq::filter);
            assert(pairs@.take(i + 1).drop_last() =~= pairs@.take(i as int));
            assert(pairs@.take(i + 1).last() == (le, v));
        }
        if v.is_finite() && (le.is_finite() || (le.is_infinite() && le.bits < binary64::SIGN_BIT)) {
            kept.push((le, v));
        }
        i += 1;
    }
    assert(pairs@.take(i as int) =~= pairs@);
    let sorted: Vec<(Binary64, Binary64)> = arrange(kept);
    let mut out: Vec<(Binary64, Binary64)> = Vec::new();
    let mut n: usize = 0;
    assert(sorted@.take(0) =~= Seq::empty());
    while n < sorted.len()
        invariant
            n <= sorted@.len(),
            out@ == joined(sorted@.take(n as int)),
        decreases sorted@.len() - n,
    {
        let (le, v) = sorted[n];
        let ghost m = out@;
        assert(sorted@.take(n + 1).drop_last() =~= sorted@.take(n as int));
        assert(sorted@.take(n + 1).last() == (le, v));
        let len: usize = out.len();
        if len > 0 && out[len - 1].0.same(le) {
            let (last_le, last_v) = out[len - 1];
            out.set(len - 1, (last_le, last_v.plus(v)));
            assert(out@ =~= m.drop_last().push((last_le, binary64::sum(last_v, v))));
        } else {
            out.push((le, v));
        }
        n += 1;
    }
    assert(sorted@.take(n as int) =~= sorted@);
    out
}

fn total_of(buckets: &[(Binary64, Binary64)]) -> (r: Option<Binary64>)
    ensures
        r == observations(buckets@),
{
    let mut top: Option<Binary64> = None;
    let mut i: usize = 0;
    while i < buckets.len()
        invariant
            i <= buckets@.len(),
            top == top_count(buckets@.take(i as int)),
        decreases buckets@.len() - i,
    {
        let (le, c) = buckets[i];
        assert(buckets@.take(i + 1).drop_last() =~= buckets@.take(i as int));
        assert(buckets@.take(i + 1).last() == (le, c));
        if le.is_infinite() {
            top = match top {
                Some(m) => if c.lt(m) {
                    Some(m)
                } else {
                    Some(c)
                },
                None => Some(c),
            };
        }
        i += 1;
    }
    assert(buckets@.take(i as int) =~= buckets@);
    if top.is_none() && buckets.len() > 0 {
        top = Some(buckets[buckets.len() - 1].1);
    }
    top
}

/// The quantile `q` of a ladder of cumulative counts, by linear interpolation inside the
/// bucket that holds the rank. The lowest bucket starts at zero; the bound at infinity
/// counts toward the total only.
pub fn quantile_from_buckets(buckets: &[(Binary64, Binary64)], q: Binary64) -> (r: Option<Binary64>)
    ensures
        r == quantile(buckets@, q),
{
    let zero: Binary64 = Binary64::from_bits(0);
    let total: Binary64 = match total_of(buckets) {
        Some(n) => n,
        None => {
            return None;
        },
    };
    if total.le(zero) {
        return None;
    }
    let one: Binary64 = Binary64::from_u64(1);
    proof {
        binary64::lemma_one();
    }
    let rank: Binary64 = q.clamp(zero, one).times(total);
    let mut prev_le: Binary64 = zero;
    let mut prev_count: Binary64 = zero;
    let mut i: usize = 0;
    assert(buckets@.skip(0) =~= buckets@);
    while i < buckets.len() && buckets[i].0.is_finite()
        invariant
            i <= buckets@.len(),
            zero == binary64::zero(),
            observations(buckets@) == Some(total),
            !binary64::at_most(total, zero),
            rank == binary64::product(binary64::clamped(q, zero, binary64::integer(1)), total),
            interpolated(buckets@, rank, zero, zero) == interpolated(
                buckets@.skip(i as int),
                rank,
                prev_le,
                prev_count,
            ),
        decreases buckets@.len() - i,
    {
        let le: Binary64 = buckets[i].0;
        let count: Binary64 = buckets[i].1.max(zero);
        assert(buckets@.skip(i as int)[0] == buckets@[i as int]);
        assert(buckets@.skip(i as int).drop_first() =~= buckets@.skip(i + 1));
        if rank.le(count) {
            let span: Binary64 = count.minus(prev_count);
            let est: Binary64 = if span.le(zero) {
                le
            } else {
                prev_le.plus(rank.minus(prev_count).over(span).times(le.minus(prev_le)))
            };
            return Some(est);
        }
        prev_le = le;
        prev_count = count;
        i += 1;
    }
    let mut n: usize = buckets.len();
    assert(buckets@.take(n as int) =~= buckets@);
    while n > 0
        invariant
            n <= buckets@.len(),
            quantile(buckets@, q) == last_bound(buckets@),
            last_bound(buckets@) == last_bound(buckets@.take(n as int)),
        decreases n,
    {
        assert(buckets@.take(n as int).last() == buckets@[n - 1]);
        assert(buckets@.take(n as int).drop_last() =~= buckets@.take(n - 1));
        if buckets[n - 1].0.is_finite() {
            return Some(buckets[n - 1].0);
        }
        n -= 1;
    }
    None
}

/// The merged bucket changes between two samples, where they are fit to interpolate in.
fn changes<F: Fn(&SeriesKey) -> bool>(old: &Sample, new: &Sample, pred: &F) -> (r: Option<
    Vec<(Binary64, Binary64)>,
>)
    requires
        askable(*pred),
        old.wf(),
        new.wf(),
    ensures
        forall|p: spec_fn(KeyView) -> bool| #[trigger]
            agrees(*pred, p) ==> (r is Some <==> usable_changes(old@, new@, p) is Some) && (r is Some
                ==> r->0@ == usable_changes(old@, new@, p)->0),
{
    let (raw, grown) = hist_family_deltas(old, new, pred);
    let h: Binary64 = Binary64::from_u64(1).over(Binary64::from_u64(2));
    let bar: Binary64 = h.negated();
    let mut reset: bool = false;
    let mut i: usize = 0;
    while i < raw.len()
        invariant
            i <= raw@.len(),
            bar == binary64::opposite(half()),
            reset <==> exists|j: int| 0 <= j < i && binary64::less((#[trigger] raw@[j]).1, bar),
        decreases raw@.len() - i,
    {
        if raw[i].1.lt(bar) {
            reset = true;
        }
        i += 1;
    }
    let m: Vec<(Binary64, Binary64)> = merge_le(raw);
    if m.len() == 0 || reset || grown < QUANTILE_MIN_OBS {
        None
    } else {
        Some(m)
    }
}

/// The 95th percentile of a histogram family over the span between two samples. It is
/// absent where the span is too sparse or a count fell; it never falls back to what was
/// observed since the start.
pub fn hist_window_p95<F: Fn(&SeriesKey) -> bool>(old: &Sample, new: &Sample, pred: &F) -> (r:
    Option<Binary64>)
    requires
        askable(*pred),
        old.wf(),
        new.wf(),
    ensures
        forall|p: spec_fn(KeyView) -> bool| #[trigger]
            agrees(*pred, p) ==> r == span_p95(old@, new@, p),
{
    match changes(old, new, pred) {
        Some(m) => quantile_from_buckets(
            m.as_slice(),
            Binary64::from_u64(95).over(Binary64::from_u64(100)),
        ),
        None => None,
    }
}

/// A ring that can come about: bounded, with times that ascend strictly.
pub open spec fn ring_ok(e: Seq<EntryView>) -> bool {
    &&& e.len() <= RING_CAP
    &&& forall|i: int| 0 <= i < e.len() ==> (#[trigger] e[i]).t <= u64::MAX
    &&& forall|i: int, j: int| 0 <= i < j < e.len() ==> (#[trigger] e[i]).t < (#[trigger] e[j]).t
    &&& forall|i: int| 0 <= i < e.len() ==> (#[trigger] e[i]).sample.wf()
}

/// The ring after an arrival. One that is not newer than the last is ignored; a full ring
/// loses its oldest entry.
pub open spec fn arrived(e: Seq<EntryView>, x: EntryView) -> Seq<EntryView> {
    if e.len() > 0 && x.t <= e.last().t {
        e
    } else if e.len() == RING_CAP {
        e.drop_first().push(x)
    } else {
        e.push(x)
    }
}

/// The entries, and the graphs drawn from them.
pub struct Ring {
    buf: VecDeque<Entry>,
    /// The graphs of the entries, rebuilt on every arrival; absent only before the first.
    scan: Option<Graphs>,
}

impl View for Ring {
    type V = Seq<EntryView>;

    closed spec fn view(&self) -> Seq<EntryView> {
        self.buf@.map_values(|e: Entry| e@)
    }
}

impl Ring {
    /// The graphs at hand.
    pub closed spec fn graphs(&self) -> Option<GraphsView> {
        match self.scan {
            Some(g) => Some(g@),
            None => None,
        }
    }
}

/// The rolling buffer of recent samples.
pub struct History {
    pub ring: Ring,
    /// When the first sample arrived.
    pub first_seen: Option<u64>,
}

impl View for History {
    type V = Seq<EntryView>;

    open spec fn view(&self) -> Seq<EntryView> {
        self.ring@
    }
}

impl Default for History {
    fn default() -> (r: History)
        ensures
            r.wf(),
            r@.len() == 0,
            r.first_seen is None,
    {
        History { ring: Ring { buf: VecDeque::new(), scan: None }, first_seen: None }
    }
}

impl History {
    /// The graphs at hand.
    pub open spec fn graphs(&self) -> Option<GraphsView> {
        self.ring.graphs()
    }

    /// The ring is in order, and the graphs at hand are its graphs.
    pub open spec fn wf(&self) -> bool {
        &&& ring_ok(self@)
        &&& self.graphs() == (if self@.len() > 0 {
            Some(crate::derive::scan(self@))
        } else {
            None
        })
    }

    /// Takes a sample in, unless it is not newer than the last one.
    pub fn push(&mut self, t: u64, sample: Sample)
        requires
            old(self).wf(),
            sample.wf(),
        ensures
            final(self).wf(),
            final(self)@ == arrived(old(self)@, EntryView { t: t as nat, sample: sample@ }),
            final(self).first_seen == (if old(self).first_seen is None && final(self)@ != old(
                self,
            )@ {
                Some(t)
            } else {
                old(self).first_seen
            }),
    {
        let ghost e = self@;
        let ghost x = EntryView { t: t as nat, sample: sample@ };
        let n: usize = self.ring.buf.len();
        if n > 0 {
            if t <= self.ring.buf[n - 1].t {
                return;
            }
        }
        if self.first_seen.is_none() {
            self.first_seen = Some(t);
        }
        if n == RING_CAP {
            self.ring.buf.pop_front();
            assert(self@ =~= e.drop_first());
        }
        let ghost before = self@;
        self.ring.buf.push_back(Entry { t, sample });
        proof {
            assert(self@ =~= before.push(x));
            assert(self@ == arrived(e, x));
            arrivals_keep_order(e, x);
            assert(self@.last().t != e.last().t || e.len() == 0);
        }
        let g: Graphs = scan_window(&*self);
        self.ring.scan = Some(g);
        assert(self@ =~= arrived(e, x));
    }

    /// The graphs of the ring.
    pub fn scan(&self) -> (r: Option<&Graphs>)
        ensures
            r is Some <==> self.graphs() is Some,
            r is Some ==> r->0@ == self.graphs()->0,
    {
        match &self.ring.scan {
            Some(g) => Some(g),
            None => None,
        }
    }

    /// The number of entries.
    pub fn len(&self) -> (n: usize)
        ensures
            n == self@.len(),
    {
        self.ring.buf.len()
    }

    /// Whether there are no entries.
    pub fn is_empty(&self) -> (r: bool)
        ensures
            r == (self@.len() == 0),
    {
        self.ring.buf.len() == 0
    }

    /// The newest entry.
    pub fn last(&self) -> (r: Option<&Entry>)
        ensures
            r is Some <==> self@.len() > 0,
            r is Some ==> r->0@ == self@.last(),
    {
        let n: usize = self.ring.buf.len();
        if n > 0 {
            Some(&self.ring.buf[n - 1])
        } else {
            None
        }
    }

    /// The entry at `i`, the oldest first.
    pub fn get(&self, i: usize) -> (r: Option<&Entry>)
        ensures
            r is Some <==> i < self@.len(),
            r is Some ==> r->0@ == self@[i as int],
    {
        if i < self.ring.buf.len() {
            Some(&self.ring.buf[i])
        } else {
            None
        }
    }

    /// The position of the oldest sample still inside `window`, counted back from the
    /// newest sample.
    pub fn window_base(&self, window: u64) -> (r: Option<usize>)
        ensures
            r is Some <==> self@.len() > 0,
            r is Some ==> r->0 < self@.len() && inside(self@, window as nat) == self@.skip(
                r->0 as int,
            ) && r->0 == older(self@, self@.last().t - window),
    {
        let n: usize = self.ring.buf.len();
        if n == 0 {
            return None;
        }
        let last: u64 = self.ring.buf[n - 1].t;
        let ghost cutoff = self@.last().t - window;
        let mut i: usize = 0;
        assert(self@.skip(0) =~= self@);
        while (self.ring.buf[i].t as u128) + (window as u128) < (last as u128)
            invariant
                i < n,
                n == self.ring.buf@.len(),
                self@.len() == n,
                last == self@.last().t,
                cutoff == last - window,
                older(self@, cutoff) == i + older(self@.skip(i as int), cutoff),
            decreases n - i,
        {
            assert(self@.skip(i as int)[0] == self@[i as int]);
            assert(self@.skip(i as int).drop_first() =~= self@.skip(i + 1));
            i += 1;
        }
        assert(self@.skip(i as int)[0] == self@[i as int]);
        Some(i)
    }

    /// The entries inside `window`, the oldest first.
    pub fn window_entries(&self, window: u64) -> (r: Vec<&Entry>)
        ensures
            r@.len() == inside(self@, window as nat).len(),
            forall|i: int|
                0 <= i < r@.len() ==> (#[trigger] r@[i])@ == inside(self@, window as nat)[i],
    {
        let mut r: Vec<&Entry> = Vec::new();
        if let Some(base) = self.window_base(window) {
            let mut i: usize = base;
            while i < self.ring.buf.len()
                invariant
                    base <= i <= self.ring.buf@.len(),
                    self@.len() == self.ring.buf@.len(),
                    r@.len() == i - base,
                    forall|j: int| 0 <= j < r@.len() ==> (#[trigger] r@[j])@ == self@[base + j],
                decreases self.ring.buf@.len() - i,
            {
                r.push(&self.ring.buf[i]);
                i += 1;
            }
        }
        r
    }
}

impl History {
    /// The sum of per-series rates over `window` for every series that meets `pred`. A
    /// counter reset clamps its own interval only, and a series that an interval does
    /// not carry at both ends pairs with nothing there.
    pub fn rate_sum<F: Fn(&SeriesKey) -> bool>(&self, pred: F, window: u64) -> (r: Option<Binary64>)
        requires
            askable(pred),
            self.wf(),
        ensures
            forall|p: spec_fn(KeyView) -> bool| #[trigger]
                agrees(pred, p) ==> r == rate(self@, p, window as nat),
    {
        let base: usize = match self.window_base(window) {
            Some(b) => b,
            None => {
                return None;
            },
        };
        let n: usize = self.ring.buf.len();
        let ghost w = inside(self@, window as nat);
        proof {
            lemma_inside(self@, window as nat);
        }
        if n - base < 2 {
            return None;
        }
        let mut acc: (Binary64, bool) = (Binary64::from_bits(0), false);
        let mut i: usize = base + 1;
        assert forall|p: spec_fn(KeyView) -> bool| #[trigger] agrees(pred, p) implies acc == rises(
            w.take(1),
            p,
        ) by {}
        while i < n
            invariant
                base < i <= n,
                n == self.ring.buf@.len(),
                self.wf(),
                w == self@.skip(base as int),
                askable(pred),
                forall|p: spec_fn(KeyView) -> bool| #[trigger]
                    agrees(pred, p) ==> acc == rises(w.take(i - base), p),
            decreases n - i,
        {
            let ghost t = w.take(i + 1 - base);
            assert(t.drop_last() =~= w.take(i - base));
            assert(t[t.len() - 1] == self.ring.buf@[i as int]@);
            assert(t[t.len() - 2] == self.ring.buf@[i - 1]@);
            assert(self@[i - 1].sample.wf());
            acc = add_rises(acc, &self.ring.buf[i - 1].sample, &self.ring.buf[i].sample, &pred);
            i += 1;
        }
        assert(w.take(n - base) =~= w);
        if !acc.1 {
            return None;
        }
        assert(self@[base as int].t < self@[n - 1].t);
        let dt: Binary64 = Binary64::from_nanos(self.ring.buf[n - 1].t - self.ring.buf[base].t);
        Some(acc.0.over(dt))
    }

    /// The newest value of the first series that meets `pred`.
    pub fn gauge_pred<F: Fn(&SeriesKey) -> bool>(&self, pred: F) -> (r: Option<Binary64>)
        requires
            askable(pred),
        ensures
            self@.len() == 0 ==> r is None,
            self@.len() > 0 ==> forall|p: spec_fn(KeyView) -> bool| #[trigger]
                agrees(pred, p) ==> r == metrics::first_value(self@.last().sample.simple, p),
    {
        let n: usize = self.ring.buf.len();
        if n == 0 {
            return None;
        }
        let s: &Sample = &self.ring.buf[n - 1].sample;
        let ghost all = self@.last().sample.simple;
        let mut i: usize = 0;
        while i < s.simple.len()
            invariant
                i <= s.simple@.len(),
                all == s.simple@,
                self@.len() > 0,
                all == self@.last().sample.simple,
                askable(pred),
                forall|p: spec_fn(KeyView) -> bool, j: int| #[trigger]
                    agrees(pred, p) && 0 <= j < i ==> !p((#[trigger] all[j]).0),
            decreases s.simple@.len() - i,
        {
            let k: &SeriesKey = s.simple.key_at(i);
            if pred(k) {
                let v: Binary64 = *s.simple.value_at(i);
                assert forall|p: spec_fn(KeyView) -> bool| #[trigger]
                    agrees(pred, p) implies Some(v) == metrics::first_value(all, p) by {
                    metrics::lemma_first_at(all, p, i as int);
                }
                return Some(v);
            }
            i += 1;
        }
        assert forall|p: spec_fn(KeyView) -> bool| #[trigger]
            agrees(pred, p) implies metrics::first_value(all, p) is None by {
            metrics::lemma_first_at(all, p, i as int);
        }
        None
    }

    /// The sum of the newest values of every series that meets `pred`: totals for gauges
    /// that each rank reports for itself.
    pub fn sum_gauge<F: Fn(&SeriesKey) -> bool>(&self, pred: F) -> (r: Option<Binary64>)
        requires
            askable(pred),
        ensures
            self@.len() == 0 ==> r is None,
            self@.len() > 0 ==> forall|p: spec_fn(KeyView) -> bool| #[trigger]
                agrees(pred, p) ==> r == (if total(self@.last().sample.simple, p).1 {
                    Some(total(self@.last().sample.simple, p).0)
                } else {
                    None
                }),
    {
        let n: usize = self.ring.buf.len();
        if n == 0 {
            return None;
        }
        let s: &Sample = &self.ring.buf[n - 1].sample;
        let ghost all = self@.last().sample.simple;
        let mut acc: (Binary64, bool) = (Binary64::from_bits(0), false);
        let mut i: usize = 0;
        while i < s.simple.len()
            invariant
                i <= s.simple@.len(),
                all == s.simple@,
                askable(pred),
                forall|p: spec_fn(KeyView) -> bool| #[trigger]
                    agrees(pred, p) ==> acc == total(all.take(i as int), p),
            decreases s.simple@.len() - i,
        {
            let k: &SeriesKey = s.simple.key_at(i);
            assert(all.take(i + 1).drop_last() =~= all.take(i as int));
            assert(all.take(i + 1).last() == all[i as int]);
            if pred(k) {
                acc = (acc.0.plus(*s.simple.value_at(i)), true);
            }
            i += 1;
        }
        assert(all.take(i as int) =~= all);
        if acc.1 {
            Some(acc.0)
        } else {
            None
        }
    }

    /// The quantile `q` of a histogram family over `window`, from the bucket changes over
    /// it. Buckets pair by their bounds, so a ladder that gains or loses one never shifts
    /// the pairing. It falls back to everything observed since the start where the two
    /// samples share no bound, a count fell, or the window is too sparse.
    pub fn hist_quantile<F: Fn(&SeriesKey) -> bool>(&self, pred: F, q: Binary64, window: u64) -> (r:
        Option<Binary64>)
        requires
            askable(pred),
            self.wf(),
        ensures
            forall|p: spec_fn(KeyView) -> bool| #[trigger]
                agrees(pred, p) ==> r == window_quantile(self@, p, q, window as nat),
    {
        let base: usize = match self.window_base(window) {
            Some(b) => b,
            None => {
                return None;
            },
        };
        let n: usize = self.ring.buf.len();
        let was: &Sample = &self.ring.buf[base].sample;
        let now: &Sample = &self.ring.buf[n - 1].sample;
        assert(self@[base as int].sample.wf() && self@[n - 1].sample.wf());
        match changes(was, now, &pred) {
            Some(m) => quantile_from_buckets(m.as_slice(), q),
            None => self.hist_snapshot_quantile(&pred, q),
        }
    }

    /// The quantile `q` of everything observed since the start.
    pub fn hist_snapshot_quantile<F: Fn(&SeriesKey) -> bool>(&self, pred: &F, q: Binary64) -> (r:
        Option<Binary64>)
        requires
            askable(*pred),
        ensures
            self@.len() == 0 ==> r is None,
            self@.len() > 0 ==> forall|p: spec_fn(KeyView) -> bool| #[trigger]
                agrees(*pred, p) ==> r == snapshot_quantile(self@.last().sample, p, q),
    {
        let n: usize = self.ring.buf.len();
        if n == 0 {
            return None;
        }
        let s: &Sample = &self.ring.buf[n - 1].sample;
        let ghost all = self@.last().sample.hist;
        let mut out: Vec<(Binary64, Binary64)> = Vec::new();
        let mut i: usize = 0;
        while i < s.hist.len()
            invariant
                i <= s.hist@.len(),
                all == s@.hist,
                askable(*pred),
                forall|p: spec_fn(KeyView) -> bool| #[trigger]
                    agrees(*pred, p) ==> out@ == ladders(all.take(i as int), p),
            decreases s.hist@.len() - i,
        {
            let k: &SeriesKey = s.hist.key_at(i);
            assert(all.take(i + 1).drop_last() =~= all.take(i as int));
            assert(all.take(i + 1).last() == all[i as int]);
            if pred(k) {
                add_ladder(&mut out, s.hist.value_at(i));
            }
            i += 1;
        }
        assert(all.take(i as int) =~= all);
        let m: Vec<(Binary64, Binary64)> = merge_le(out);
        quantile_from_buckets(m.as_slice(), q)
    }
}

/// The ladder of a histogram, added to `out`.
fn add_ladder(out: &mut Vec<(Binary64, Binary64)>, h: &HistSeries)
    ensures
        final(out)@ == old(out)@ + Seq::new(
            h@.le.len(),
            |i: int| (h@.le[i], count_at(h@, i)),
        ),
{
    let ghost ladder = Seq::new(h@.le.len(), |i: int| (h@.le[i], count_at(h@, i)));
    let mut i: usize = 0;
    while i < h.le.len()
        invariant
            i <= h.le@.len(),
            ladder == Seq::new(h@.le.len(), |i: int| (h@.le[i], count_at(h@, i))),
            out@ == old(out)@ + ladder.take(i as int),
        decreases h.le@.len() - i,
    {
        out.push((h.le[i], count_or_zero(h, i)));
        i += 1;
        assert(out@ =~= old(out)@ + ladder.take(i as int));
    }
    assert(ladder.take(i as int) =~= ladder);
}

/// The entries inside a window end with the newest one and are in order.
pub proof fn lemma_inside(e: Seq<EntryView>, window: nat)
    requires
        ring_ok(e),
    ensures
        ring_ok(inside(e, window)),
        e.len() > 0 ==> inside(e, window).len() > 0 && inside(e, window).last() == e.last(),
{
    if e.len() > 0 {
        let cutoff = e.last().t - window;
        lemma_older(e, cutoff);
    }
}

/// An entry that is not older than the cutoff ends the older ones.
pub proof fn lemma_older(e: Seq<EntryView>, cutoff: int)
    ensures
        older(e, cutoff) <= e.len(),
        e.len() > 0 && e.last().t >= cutoff ==> older(e, cutoff) < e.len(),
    decreases e.len(),
{
    if e.len() > 0 && e[0].t < cutoff {
        lemma_older(e.drop_first(), cutoff);
    }
}

/// An arrival keeps the ring in order: bounded, with times that ascend strictly.
pub proof fn arrivals_keep_order(e: Seq<EntryView>, x: EntryView)
    requires
        ring_ok(e),
        x.t <= u64::MAX,
        x.sample.wf(),
    ensures
        ring_ok(arrived(e, x)),
{
}

} // verus!
