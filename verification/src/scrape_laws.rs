//! Addresses, messages and the shared state, across scrapes.

use vstd::prelude::*;

use crate::derive::{alarmed, peaked};
use crate::history;
use crate::history::EntryView;
use crate::metrics;
use crate::scrape::{cleaned, metrics_address, visible, wait_for, without_strokes, Shared};
use crate::text;

verus! {

/// Strokes at the end of a base address make no difference.
pub proof fn strokes_at_the_end_make_no_difference(base: Seq<char>)
    ensures
        metrics_address(base.push('/')) == metrics_address(base),
{
    assert(base.push('/').drop_last() =~= base);
    assert(without_strokes(base.push('/')) == without_strokes(base));
}

/// A base address that ends in no stroke is extended by the path of the metrics, unless it
/// ends in it already.
pub proof fn base_addresses_are_extended(base: Seq<char>)
    requires
        base.len() > 0 ==> base.last() != '/',
    ensures
        metrics_address(base + "/metrics"@) == base + "/metrics"@,
        (forall|b: Seq<char>| base != #[trigger] (b + "/metrics"@)) ==> metrics_address(base)
            == base + "/metrics"@,
{
    reveal_strlit("/metrics");
    let m = "/metrics"@;
    let full = base + m;
    assert(full.last() == 's');
    assert(without_strokes(full) == full);
    assert(full.skip(full.len() - m.len()) =~= m);
    assert(without_strokes(base) == base);
    if metrics::ends_with(base, m) {
        let b = base.take(base.len() - m.len());
        assert(base =~= b + m) by {
            assert(base =~= b + base.skip(base.len() - m.len()));
        }
    }
}

/// The whole of a message in its visible form.
pub open spec fn all_visible(s: Seq<char>) -> Seq<char>
    decreases s.len(),
{
    if s.len() == 0 {
        Seq::empty()
    } else {
        visible(s[0]) + all_visible(s.drop_first())
    }
}

proof fn lemma_visible_len(c: char)
    ensures
        1 <= visible(c).len() <= 4,
{
    reveal_strlit("\\n");
    reveal_strlit("\\r");
    reveal_strlit("\\t");
    reveal_strlit("\\x");
}

/// A character that is no control character is visible as it is; of the others the line
/// break, the return and the tab have escapes of two characters, and the rest one of four.
pub proof fn control_characters_become_escapes(c: char)
    ensures
        !text::is_control(c) ==> visible(c) == seq![c],
        visible('\n') == seq!['\\', 'n'],
        visible('\r') == seq!['\\', 'r'],
        visible('\t') == seq!['\\', 't'],
        text::is_control(c) && c != '\n' && c != '\r' && c != '\t' ==> visible(c).len() == 4
            && visible(c)[0] == '\\' && visible(c)[1] == 'x',
{
    reveal_strlit("\\n");
    reveal_strlit("\\r");
    reveal_strlit("\\t");
    reveal_strlit("\\x");
    assert(visible('\n') =~= seq!['\\', 'n']);
    assert(visible('\r') =~= seq!['\\', 'r']);
    assert(visible('\t') =~= seq!['\\', 't']);
}

/// A message is shown in full where its visible form has at most 255 characters; a longer
/// one is shown as far as it fits, no character in part, and ends in an ellipsis.
pub proof fn messages_are_cut_where_they_grow_too_long(acc: Seq<char>, s: Seq<char>) -> (k: int)
    requires
        acc.len() <= 255,
    ensures
        acc.len() + all_visible(s).len() <= 255 ==> cleaned(acc, s) == acc + all_visible(s),
        acc.len() + all_visible(s).len() > 255 ==> 0 <= k <= all_visible(s).len() && cleaned(acc, s)
            == acc + all_visible(s).take(k) + seq!['\u{2026}'] && 252 <= acc.len() + k <= 255,
    decreases s.len(),
{
    if s.len() == 0 {
        assert(acc + all_visible(s) =~= acc);
        0
    } else {
        let v = visible(s[0]);
        lemma_visible_len(s[0]);
        let rest = all_visible(s.drop_first());
        let full = all_visible(s);
        if acc.len() + v.len() > 255 {
            assert(acc.push('\u{2026}') =~= acc + full.take(0) + seq!['\u{2026}']);
            0
        } else {
            let j = messages_are_cut_where_they_grow_too_long(acc + v, s.drop_first());
            assert(acc + v + rest =~= acc + full);
            if acc.len() + full.len() > 255 {
                assert(full.take(v.len() + j) =~= v + rest.take(j));
                assert(acc + v + rest.take(j) + seq!['\u{2026}'] =~= acc + full.take(v.len() + j)
                    + seq!['\u{2026}']);
                v.len() + j
            } else {
                0
            }
        }
    }
}

/// A scrape that failed changes nothing but the error that is shown.
pub proof fn failed_scrapes_leave_the_session_alone(s: Shared, before: Shared, message: Seq<char>)
    requires
        s.failed(before, message),
    ensures
        s.history == before.history,
        s.peaks == before.peaks,
        s.alarms == before.alarms,
        s.last_ok == before.last_ok,
        s.last_error is Some,
        (s.last_error->0)@ == cleaned(Seq::empty(), message),
{
}

/// A scrape that brought a newer sample puts it last in the ring and clears the error, and
/// the peaks and alarms take in the ring as it then is. The session began with its first
/// sample.
pub proof fn scrapes_advance_the_session(s: Shared, before: Shared, e: EntryView, now: u64)
    requires
        history::ring_ok(before.history@),
        s.advanced(before, e, now),
    ensures
        before.history@.len() == 0 || before.history@.last().t < e.t ==> s.history@.len() > 0
            && s.history@.last() == e,
        before.history@.len() > 0 && e.t <= before.history@.last().t ==> s.history@
            == before.history@,
        s.peaks == peaked(before.peaks, s.history@),
        s.alarms == alarmed(before.alarms, s.history@),
        s.last_ok == Some(now),
        s.last_error is None,
        before.history.first_seen is Some ==> s.history.first_seen == before.history.first_seen,
        before.history.first_seen is None && before.history@.len() == 0 ==> s.history.first_seen
            == Some(now),
{
    if before.history@.len() == 0 {
        assert(s.history@.len() == 1);
        assert(s.history@ != before.history@);
    }
}

/// The scraper waits for the interval, within a quarter of a second and ten seconds.
pub proof fn waits_stay_in_bounds(ms: u64)
    ensures
        250 <= wait_for(ms) <= 10_000,
        250 <= ms <= 10_000 ==> wait_for(ms) == ms,
        ms <= 250 ==> wait_for(ms) == 250,
        ms >= 10_000 ==> wait_for(ms) == 10_000,
{
}

} // verus!
