//! What each window shows: the samples inside it, and nothing else.

use vstd::prelude::*;

use crate::binary64::Binary64;
use crate::derive::rates;
use crate::history;
use crate::history::EntryView;
use crate::series::KeyView;

verus! {

/// Of the entries of a ring, `recent` are those that are at most `nanos` nanoseconds older
/// than the newest one, and `old` are those before.
pub open spec fn cut_at(old: Seq<EntryView>, recent: Seq<EntryView>, nanos: nat) -> bool {
    &&& recent.len() > 0
    &&& forall|i: int| 0 <= i < old.len() ==> (#[trigger] old[i]).t + nanos < recent.last().t
    &&& forall|i: int|
        0 <= i < recent.len() ==> recent.last().t <= (#[trigger] recent[i]).t + nanos
}

proof fn lemma_older_part(old: Seq<EntryView>, recent: Seq<EntryView>, cutoff: int)
    requires
        recent.len() > 0,
        forall|i: int| 0 <= i < old.len() ==> (#[trigger] old[i]).t < cutoff,
        recent[0].t >= cutoff,
    ensures
        history::older(old + recent, cutoff) == old.len(),
    decreases old.len(),
{
    let e = old + recent;
    if old.len() > 0 {
        assert(e[0] == old[0]);
        let d = old.drop_first();
        assert(e.drop_first() =~= d + recent);
        assert forall|i: int| 0 <= i < d.len() implies (#[trigger] d[i]).t < cutoff by {
            assert(d[i] == old[i + 1]);
        }
        lemma_older_part(d, recent, cutoff);
    } else {
        assert(e[0] == recent[0]);
    }
}

/// A window holds the recent entries.
pub proof fn windows_hold_what_is_recent(old: Seq<EntryView>, recent: Seq<EntryView>, nanos: nat)
    requires
        cut_at(old, recent, nanos),
    ensures
        history::inside(old + recent, nanos) == recent,
        (old + recent).last() == recent.last(),
{
    let e = old + recent;
    assert(e.last() == recent.last());
    assert(recent[0].t + nanos >= recent.last().t);
    lemma_older_part(old, recent, recent.last().t - nanos);
    assert(e.skip(old.len() as int) =~= recent);
}

/// The rate over the whole of a ring, from its first entry to its last.
pub open spec fn whole_rate(e: Seq<EntryView>, p: spec_fn(KeyView) -> bool) -> Option<Binary64> {
    history::rate(e, p, (e.last().t - e[0].t) as nat)
}

/// The whole of a ring is inside its own span.
pub proof fn lemma_whole(e: Seq<EntryView>)
    requires
        history::ring_ok(e),
        e.len() > 0,
    ensures
        history::inside(e, (e.last().t - e[0].t) as nat) == e,
{
    let none = Seq::<EntryView>::empty();
    assert(none + e =~= e);
    assert forall|i: int| 0 <= i < e.len() implies e.last().t <= (#[trigger] e[i]).t + (e.last().t
        - e[0].t) as nat by {
        if i > 0 {
            assert(e[0].t < e[i].t);
        }
        assert(e[0].t <= e[e.len() - 1].t);
    }
    windows_hold_what_is_recent(none, e, (e.last().t - e[0].t) as nat);
}

proof fn lemma_whole_rate(
    old: Seq<EntryView>,
    e: Seq<EntryView>,
    p: spec_fn(KeyView) -> bool,
    nanos: nat,
)
    requires
        history::ring_ok(e),
        cut_at(old, e, nanos),
    ensures
        history::rate(old + e, p, nanos) == whole_rate(e, p),
{
    windows_hold_what_is_recent(old, e, nanos);
    lemma_whole(e);
}

/// The three rates are those of the samples of the last 5, 15 and 60 seconds, each over the
/// time from the first of those samples to the last. Samples that are older change nothing.
pub proof fn rates_look_back_as_far_as_their_window(
    old: Seq<EntryView>,
    recent: Seq<EntryView>,
    p: spec_fn(KeyView) -> bool,
)
    requires
        history::ring_ok(recent),
    ensures
        cut_at(old, recent, 5_000_000_000) ==> rates(old + recent, p, 0) == whole_rate(
            recent,
            p,
        ),
        cut_at(old, recent, 15_000_000_000) ==> rates(old + recent, p, 1) == whole_rate(
            recent,
            p,
        ),
        cut_at(old, recent, 60_000_000_000) ==> rates(old + recent, p, 2) == whole_rate(
            recent,
            p,
        ),
{
    if cut_at(old, recent, 5_000_000_000) {
        lemma_whole_rate(old, recent, p, 5_000_000_000);
    }
    if cut_at(old, recent, 15_000_000_000) {
        lemma_whole_rate(old, recent, p, 15_000_000_000);
    }
    if cut_at(old, recent, 60_000_000_000) {
        lemma_whole_rate(old, recent, p, 60_000_000_000);
    }
}

/// The ring takes in a sample that is newer than its last one, behind those that it holds,
/// and forgets the oldest where it would hold more than 150. Any other sample changes
/// nothing.
pub proof fn the_ring_keeps_the_newest_samples(e: Seq<EntryView>, x: EntryView)
    requires
        history::ring_ok(e),
    ensures
        ({
            let r = history::arrived(e, x);
            let newer = e.len() == 0 || e.last().t < x.t;
            &&& !newer ==> r == e
            &&& newer ==> r.len() > 0 && r.last() == x
            &&& newer && e.len() < 150 ==> r.len() == e.len() + 1
            &&& newer && e.len() >= 150 ==> r.len() == 150
            &&& newer ==> forall|i: int|
                1 <= i < r.len() ==> r[r.len() - 1 - i] == #[trigger] e[e.len() - i]
        }),
{
}

/// The series of the given name.
pub open spec fn named(name: Seq<char>) -> spec_fn(KeyView) -> bool {
    |k: KeyView| k.name == name
}

/// The series of the given name that carry the given label.
pub open spec fn marked(name: Seq<char>, label: Seq<char>, value: Seq<char>) -> spec_fn(
    KeyView,
) -> bool {
    |k: KeyView| k.name == name && k.labels.contains((label, value))
}

} // verus!
