//! What holds of the library as a whole.

use vstd::arithmetic::power2::*;
use vstd::multiset::*;
use vstd::prelude::*;
use vstd::seq_lib::*;

use crate::accuracy;
use crate::binary64;
use crate::binary64::Binary64;
use crate::derive::{Alarms, Peaks, WINDOWS};
use crate::history;
use crate::history::EntryView;
use crate::metrics;
use crate::metrics::{HistView, SampleView, State};
use crate::order;
use crate::rounding;
use crate::series;
use crate::series::{KeyView, SeriesKey};
use crate::text;
use crate::ui;
use crate::ui::{Key, Ui};

verus! {

/// A payload determines the sample: two samples that hold the same readings are the same.
pub proof fn readings_determine_the_sample(a: SampleView, b: SampleView, st: State)
    requires
        metrics::holds(a, st),
        metrics::holds(b, st),
    ensures
        a == b,
{
    lemma_entries_determined(a.simple, b.simple);
    lemma_entries_determined(a.hist, b.hist);
}

proof fn lemma_entries_determined<T>(a: Seq<(KeyView, T)>, b: Seq<(KeyView, T)>)
    requires
        series::ascending(a),
        series::ascending(b),
        series::as_map(a) == series::as_map(b),
    ensures
        a == b,
{
    series::lemma_map_len(a);
    series::lemma_map_len(b);
    assert forall|i: int| 0 <= i < a.len() implies a[i] == b[i] by {
        lemma_entry_determined(a, b, i);
    }
    assert(a =~= b);
}

proof fn lemma_entry_determined<T>(a: Seq<(KeyView, T)>, b: Seq<(KeyView, T)>, i: int)
    requires
        series::ascending(a),
        series::ascending(b),
        series::as_map(a) == series::as_map(b),
        a.len() == b.len(),
        0 <= i < a.len(),
    ensures
        a[i] == b[i],
    decreases i,
{
    assert forall|j: int| 0 <= j < i implies a[j] == b[j] by {
        lemma_entry_determined(a, b, j);
    }
    let x = a[i].0;
    let y = b[i].0;
    series::lemma_lookup_at(a, i);
    series::lemma_lookup_at(b, i);
    series::lemma_key_order(x, y, x);
    assert(series::as_map(a).dom().contains(x));
    assert(series::as_map(b).dom().contains(x));
    assert(series::as_map(b).dom().contains(y));
    assert(series::as_map(a).dom().contains(y));
    if series::key_before(x, y) {
        let j = choose|j: int| 0 <= j < b.len() && b[j].0 == x;
        if j < i {
            assert(series::key_before(a[j].0, a[i].0));
            series::lemma_key_order(x, x, x);
        } else if j > i {
            assert(series::key_before(b[i].0, b[j].0));
        }
    } else if series::key_before(y, x) {
        let j = choose|j: int| 0 <= j < a.len() && a[j].0 == y;
        if j < i {
            assert(series::key_before(b[j].0, b[i].0));
            series::lemma_key_order(y, y, y);
        } else if j > i {
            assert(series::key_before(a[i].0, a[j].0));
        }
    }
    assert(series::as_map(a)[x] == a[i].1);
    assert(series::as_map(b)[x] == b[i].1);
}

/// A record whose value is a not-a-number or an infinity changes nothing, as if its line
/// were missing.
pub proof fn unreadable_reading_is_no_reading(name: Seq<char>, labels: Seq<
    (Seq<char>, Seq<char>),
>, field: Seq<char>)
    requires
        metrics::value_of(field) is Some,
        !(metrics::value_of(field)->0).finite(),
    ensures
        metrics::finite_reading(name, labels, field) is None,
{
}

/// A line that is neither a header nor a record changes nothing.
pub proof fn malformed_line_changes_nothing(st: State, line: Seq<char>)
    requires
        metrics::reading(text::trim(line)) is None,
        !(text::trim(line).len() >= 2 && text::trim(line)[0] == '#' && text::trim(line)[1] == ' '),
    ensures
        metrics::line_read(st, line) == Ok::<State, metrics::Rejection>(st),
{
}

/// The order in which the labels of a record are written does not fork the series: label
/// blocks that write the same labels are read as the same labels.
pub proof fn label_order_does_not_fork_series(a: Seq<char>, b: Seq<char>)
    requires
        metrics::written_labels(a).to_multiset() == metrics::written_labels(b).to_multiset(),
    ensures
        metrics::labels_of(a) == metrics::labels_of(b),
{
    order::label_order_is_immaterial(metrics::written_labels(a), metrics::written_labels(b));
}

/// Only a bucket can make a ladder too long: the total and the count of a family at the
/// cap are still taken.
pub proof fn totals_and_counts_fill_no_ladder(st: State, r: metrics::Reading)
    requires
        !(metrics::part_of(r.name).0 is Bucket),
    ensures
        !(metrics::recorded(st, r) is Err && metrics::recorded(st, r)->Err_0 is Buckets),
{
}

/// A counter that is not negative never seems to fall: a reset counts as a rise from zero.
pub proof fn rises_are_not_negative(was: Binary64, now: Binary64)
    requires
        was.finite(),
        now.finite(),
        binary64::at_most(binary64::zero(), now),
    ensures
        binary64::at_most(binary64::zero(), history::counter_rise(was, now)),
{
    if !binary64::less(now, was) {
        accuracy::order_is_by_value(now, was);
        accuracy::order_is_by_value(was, now);
        let d = binary64::opposite(was);
        assert(d.units() == -was.units());
        assert(now.units() >= was.units());
    }
}

/// A series that the earlier sample lacks pairs with nothing: where it lacks every series
/// in question, nothing rises.
pub proof fn reappearance_pairs_with_nothing(
    acc: (Binary64, bool),
    old: Seq<(KeyView, Binary64)>,
    new: Seq<(KeyView, Binary64)>,
    p: spec_fn(KeyView) -> bool,
)
    requires
        forall|k: KeyView| #[trigger] p(k) ==> series::lookup(old, k) is None,
    ensures
        history::paired(acc, old, new, p) == acc,
    decreases new.len(),
{
    if new.len() > 0 {
        reappearance_pairs_with_nothing(acc, old, new.drop_last(), p);
        assert(p(new.last().0) ==> series::lookup(old, new.last().0) is None);
    }
}

/// A wider window holds every entry that a narrower one holds.
pub proof fn wider_windows_hold_more(e: Seq<EntryView>, narrow: nat, wide: nat)
    requires
        narrow <= wide,
        e.len() > 0,
    ensures
        history::older(e, e.last().t - wide) <= history::older(e, e.last().t - narrow),
        history::inside(e, wide).len() >= history::inside(e, narrow).len(),
{
    lemma_older_monotone(e, e.last().t - wide, e.last().t - narrow);
}

proof fn lemma_older_monotone(e: Seq<EntryView>, a: int, b: int)
    requires
        a <= b,
    ensures
        history::older(e, a) <= history::older(e, b) <= e.len(),
    decreases e.len(),
{
    if e.len() > 0 {
        lemma_older_monotone(e.drop_first(), a, b);
    }
}

/// No bound of a ladder is a not-a-number.
pub open spec fn orderable(h: HistView) -> bool {
    forall|i: int| 0 <= i < h.le.len() ==> !(#[trigger] h.le[i]).nan()
}

/// The bounds of a ladder ascend strictly.
pub open spec fn strict(h: HistView) -> bool {
    forall|i: int, j: int|
        0 <= i < j < h.le.len() ==> binary64::less(#[trigger] h.le[i], #[trigger] h.le[j])
}

/// The pair of changes at a bound of both ladders.
pub open spec fn paired_at(new: HistView, old: HistView, i: int, j: int) -> (Binary64, Binary64) {
    (
        new.le[i],
        binary64::difference(history::count_at(new, i), history::count_at(old, j)),
    )
}

/// Bucket counts pair by bound only: every change belongs to a bound that both ladders
/// have, and is the change of the count at that bound.
pub proof fn changes_pair_equal_bounds(new: HistView, old: HistView, i: int, j: int, k: int)
    requires
        orderable(new),
        orderable(old),
        0 <= i,
        0 <= j,
        0 <= k < history::shared(new, old, i, j).len(),
    ensures
        exists|a: int, b: int|
            i <= a < new.le.len() && j <= b < old.le.len() && binary64::equal(
                new.le[a],
                old.le[b],
            ) && history::shared(new, old, i, j)[k] == #[trigger] paired_at(new, old, a, b),
    decreases new.le.len() - i + old.le.len() - j,
{
    if i < new.le.len() && j < old.le.len() {
        if binary64::less(new.le[i], old.le[j]) {
            changes_pair_equal_bounds(new, old, i + 1, j, k);
        } else if binary64::less(old.le[j], new.le[i]) {
            changes_pair_equal_bounds(new, old, i, j + 1, k);
        } else {
            let rest = history::shared(new, old, i + 1, j + 1);
            if k == 0 {
                assert(history::shared(new, old, i, j)[0] == paired_at(new, old, i, j));
            } else {
                changes_pair_equal_bounds(new, old, i + 1, j + 1, k - 1);
                assert(history::shared(new, old, i, j)[k] == rest[k - 1]);
            }
        }
    }
}

/// No bound that both ladders have is passed over, whatever bounds only one of them has.
pub proof fn every_shared_bound_is_paired(
    new: HistView,
    old: HistView,
    i: int,
    j: int,
    a: int,
    b: int,
)
    requires
        orderable(new),
        orderable(old),
        strict(new),
        strict(old),
        0 <= i <= a < new.le.len(),
        0 <= j <= b < old.le.len(),
        binary64::equal(new.le[a], old.le[b]),
    ensures
        history::shared(new, old, i, j).contains(paired_at(new, old, a, b)),
    decreases new.le.len() - i + old.le.len() - j,
{
    let all = history::shared(new, old, i, j);
    if binary64::less(new.le[i], old.le[j]) {
        if i == a {
            if j < b {
                assert(binary64::less(old.le[j], old.le[b]));
            }
        }
        every_shared_bound_is_paired(new, old, i + 1, j, a, b);
    } else if binary64::less(old.le[j], new.le[i]) {
        if j == b {
            if i < a {
                assert(binary64::less(new.le[i], new.le[a]));
            }
        }
        every_shared_bound_is_paired(new, old, i, j + 1, a, b);
    } else {
        let rest = history::shared(new, old, i + 1, j + 1);
        if i == a && j == b {
            assert(all[0] == paired_at(new, old, a, b));
        } else {
            if i == a {
                assert(binary64::less(old.le[j], old.le[b]));
            }
            if j == b {
                assert(binary64::less(new.le[i], new.le[a]));
            }
            every_shared_bound_is_paired(new, old, i + 1, j + 1, a, b);
            let k = choose|k: int| 0 <= k < rest.len() && rest[k] == paired_at(new, old, a, b);
            assert(all[k + 1] == rest[k]);
        }
    }
}

/// First numbers ascend strictly.
pub open spec fn strictly_ascends(s: Seq<(Binary64, Binary64)>) -> bool {
    forall|i: int, j: int|
        0 <= i < j < s.len() ==> binary64::less(#[trigger] s[i].0, #[trigger] s[j].0)
}

/// Merged ladders have every bound once, in ascending order.
pub proof fn merged_bounds_ascend(s: Seq<(Binary64, Binary64)>)
    ensures
        strictly_ascends(history::merged(s)),
{
    let keep = |b: (Binary64, Binary64)| history::countable(b);
    let kept = s.filter(keep);
    assert(order::ordered(kept)) by {
        assert forall|i: int| 0 <= i < kept.len() implies !(#[trigger] kept[i]).0.nan() by {
            s.lemma_filter_pred(keep, i);
        }
    }
    order::arranging_sorts(kept);
    lemma_joined(order::arranged(kept));
}

proof fn lemma_joined(s: Seq<(Binary64, Binary64)>)
    requires
        order::ascends(s),
        order::ordered(s),
    ensures
        strictly_ascends(history::joined(s)),
        order::ordered(history::joined(s)),
        s.len() > 0 ==> history::joined(s).len() > 0 && binary64::equal(
            history::joined(s).last().0,
            s.last().0,
        ),
    decreases s.len(),
{
    if s.len() > 0 {
        let d = s.drop_last();
        assert(order::ascends(d)) by {
            assert forall|i: int, j: int| 0 <= i < j < d.len() implies !binary64::less(
                #[trigger] d[j].0,
                #[trigger] d[i].0,
            ) by {
                assert(!binary64::less(s[j].0, s[i].0));
            }
        }
        assert(order::ordered(d)) by {
            assert forall|i: int| 0 <= i < d.len() implies !(#[trigger] d[i]).0.nan() by {
                assert(!s[i].0.nan());
            }
        }
        lemma_joined(d);
        let m = history::joined(d);
        let x = s.last();
        let r = history::joined(s);
        assert(!s[s.len() - 1].0.nan());
        if m.len() > 0 && binary64::equal(m.last().0, x.0) {
            assert forall|i: int, j: int| 0 <= i < j < r.len() implies binary64::less(
                #[trigger] r[i].0,
                #[trigger] r[j].0,
            ) by {
                assert(r[i].0 == m[i].0 && r[j].0 == m[j].0);
            }
            assert forall|i: int| 0 <= i < r.len() implies !(#[trigger] r[i]).0.nan() by {
                assert(r[i].0 == m[i].0);
                assert(!m[i].0.nan());
            }
        } else {
            if d.len() > 0 {
                assert(!binary64::less(s[s.len() - 1].0, s[d.len() - 1].0));
            }
            assert forall|i: int, j: int| 0 <= i < j < r.len() implies binary64::less(
                #[trigger] r[i].0,
                #[trigger] r[j].0,
            ) by {
                if j < m.len() {
                    assert(binary64::less(m[i].0, m[j].0));
                } else {
                    assert(binary64::less(m.last().0, x.0));
                    if i < m.len() - 1 {
                        assert(binary64::less(m[i].0, m[m.len() - 1].0));
                    }
                }
            }
        }
    }
}

/// A number that is not below zero.
pub open spec fn not_negative(x: Binary64) -> bool {
    binary64::at_most(binary64::zero(), x)
}

/// What is left of a finite number after no larger one is not negative.
pub proof fn lemma_difference_not_negative(a: Binary64, b: Binary64)
    requires
        a.finite(),
        b.finite(),
        !binary64::less(a, b),
    ensures
        not_negative(binary64::difference(a, b)),
{
    accuracy::order_is_by_value(a, b);
    assert(binary64::opposite(b).units() == -b.units());
}

proof fn lemma_product_not_negative(a: Binary64, b: Binary64)
    requires
        not_negative(a),
        not_negative(b),
        a.finite(),
        b.finite(),
    ensures
        not_negative(binary64::product(a, b)),
{
    lemma_pow2_pos(1074);
    if a.negative() || b.negative() {
        assert(rounding::magnitude(0) == 0);
        assert(a.mag() * b.mag() == 0) by (nonlinear_arith)
            requires
                a.mag() == 0 || b.mag() == 0,
        ;
        accuracy::zero_over(pow2(1074));
    }
}

/// A ladder with bounds and counts that are fit to interpolate in: the bounds ascend from
/// zero on, and the counts at finite bounds are finite.
pub open spec fn regular(b: Seq<(Binary64, Binary64)>) -> bool {
    &&& strictly_ascends(b)
    &&& forall|i: int|
        0 <= i < b.len() ==> not_negative((#[trigger] b[i]).0) && (b[i].0.finite()
            ==> b[i].1.finite())
}

proof fn lemma_interpolated_not_negative(
    b: Seq<(Binary64, Binary64)>,
    rank: Binary64,
    prev_le: Binary64,
    prev_count: Binary64,
)
    requires
        regular(b),
        !rank.infinite(),
        prev_le.finite() && not_negative(prev_le),
        prev_count.finite() && not_negative(prev_count),
        binary64::at_most(prev_count, rank) || rank.nan(),
        b.len() > 0 ==> binary64::at_most(prev_le, b[0].0),
        history::interpolated(b, rank, prev_le, prev_count) is Some,
    ensures
        not_negative(history::interpolated(b, rank, prev_le, prev_count)->0),
    decreases b.len(),
{
    let le = b[0].0;
    let count = binary64::larger(b[0].1, binary64::zero());
    let span = binary64::difference(count, prev_count);
    assert(not_negative(b[0].0) && b[0].1.finite());
    if !binary64::at_most(rank, count) {
        let rest = b.drop_first();
        assert(regular(rest)) by {
            assert forall|i: int, j: int| 0 <= i < j < rest.len() implies binary64::less(
                #[trigger] rest[i].0,
                #[trigger] rest[j].0,
            ) by {
                assert(binary64::less(b[i + 1].0, b[j + 1].0));
            }
            assert forall|i: int| 0 <= i < rest.len() implies not_negative((#[trigger] rest[i]).0)
                && (rest[i].0.finite() ==> rest[i].1.finite()) by {
                assert(rest[i] == b[i + 1]);
                assert(not_negative(b[i + 1].0));
            }
        }
        if rest.len() > 0 {
            assert(binary64::less(b[0].0, b[1].0));
        }
        lemma_interpolated_not_negative(rest, rank, le, count);
    } else if !binary64::at_most(span, binary64::zero()) {
        let above = binary64::difference(rank, prev_count);
        let wide = binary64::difference(le, prev_le);
        lemma_difference_not_negative(rank, prev_count);
        lemma_difference_not_negative(count, prev_count);
        lemma_difference_not_negative(le, prev_le);
        lemma_difference_bounded(rank, prev_count);
        lemma_difference_bounded(le, prev_le);
        lemma_difference_bounded(count, prev_count);
        let part = binary64::quotient(above, span);
        lemma_part(rank, count, prev_count);
        lemma_product_not_negative(part, wide);
        lemma_sum_not_negative(prev_le, binary64::product(part, wide));
    }
}

/// What is left of a finite number after one that is not negative is finite.
pub proof fn lemma_difference_bounded(a: Binary64, b: Binary64)
    requires
        a.finite(),
        b.finite() && not_negative(b),
        !binary64::less(a, b),
    ensures
        binary64::difference(a, b).finite(),
{
    accuracy::order_is_by_value(a, b);
    assert(rounding::magnitude(0) == 0);
    let d = a.units() - b.units();
    assert(binary64::opposite(b).units() == -b.units());
    if d > 0 {
        assert(0 <= b.units());
        assert((d as nat) * 1 <= a.mag() * 1);
        accuracy::rounding_keeps_order(d as nat, 1, a.mag(), 1);
        accuracy::rounding_keeps_numbers(a.abs_bits());
    }
}

/// The part of a bucket below the rank is a finite number that is not negative.
proof fn lemma_part(rank: Binary64, count: Binary64, prev: Binary64)
    requires
        rank.finite(),
        count.finite(),
        prev.finite() && not_negative(prev),
        binary64::at_most(prev, rank),
        binary64::at_most(rank, count),
        !binary64::at_most(binary64::difference(count, prev), binary64::zero()),
    ensures
        ({
            let part = binary64::quotient(
                binary64::difference(rank, prev),
                binary64::difference(count, prev),
            );
            part.finite() && not_negative(part)
        }),
{
    let above = binary64::difference(rank, prev);
    let span = binary64::difference(count, prev);
    lemma_difference_not_negative(rank, prev);
    lemma_difference_not_negative(count, prev);
    lemma_difference_bounded(rank, prev);
    lemma_difference_bounded(count, prev);
    accuracy::order_is_by_value(rank, prev);
    accuracy::order_is_by_value(count, rank);
    assert(binary64::opposite(prev).units() == -prev.units());
    assert(rounding::magnitude(0) == 0);
    let x = rank.units() - prev.units();
    let y = count.units() - prev.units();
    if x > 0 {
        assert((x as nat) * 1 <= (y as nat) * 1);
        accuracy::rounding_keeps_order(x as nat, 1, y as nat, 1);
    }
    assert(binary64::at_most(above, span));
    accuracy::quotient_not_negative(above, span);
    accuracy::magnitudes_ascend(0, span.abs_bits());
    if above.abs_bits() < span.abs_bits() {
        accuracy::magnitudes_ascend(above.abs_bits(), span.abs_bits());
    }
    let p = pow2(1074);
    assert((above.mag() * p) * 1 <= p * span.mag()) by (nonlinear_arith)
        requires
            above.mag() <= span.mag(),
            p >= 0,
    ;
    accuracy::rounding_keeps_order(above.mag() * p, span.mag(), p, 1);
    accuracy::small_integers_are_exact(1);
    assert(1 * p == p);
}

proof fn lemma_last_bound_not_negative(b: Seq<(Binary64, Binary64)>)
    requires
        forall|i: int| 0 <= i < b.len() ==> not_negative((#[trigger] b[i]).0),
        history::last_bound(b) is Some,
    ensures
        not_negative(history::last_bound(b)->0),
    decreases b.len(),
{
    assert(not_negative(b[b.len() - 1].0));
    if !b.last().0.finite() {
        let d = b.drop_last();
        assert forall|i: int| 0 <= i < d.len() implies not_negative((#[trigger] d[i]).0) by {
            assert(d[i] == b[i]);
        }
        lemma_last_bound_not_negative(d);
    }
}

/// A rank that no finite bucket reaches is not interpolated.
pub proof fn lemma_beyond(
    b: Seq<(Binary64, Binary64)>,
    rank: Binary64,
    prev_le: Binary64,
    prev_count: Binary64,
)
    requires
        forall|i: int|
            0 <= i < b.len() && (#[trigger] b[i]).0.finite() ==> !binary64::at_most(
                rank,
                binary64::larger(b[i].1, binary64::zero()),
            ),
    ensures
        history::interpolated(b, rank, prev_le, prev_count) is None,
    decreases b.len(),
{
    if b.len() > 0 && b[0].0.finite() {
        let rest = b.drop_first();
        assert forall|i: int| 0 <= i < rest.len() && (#[trigger] rest[i]).0.finite() implies
            !binary64::at_most(rank, binary64::larger(rest[i].1, binary64::zero())) by {
            assert(b[i + 1] == rest[i]);
        }
        lemma_beyond(rest, rank, b[0].0, binary64::larger(b[0].1, binary64::zero()));
    }
}

/// A number that is infinite, and not below zero, or a not-a-number.
pub open spec fn beyond_count(x: Binary64) -> bool {
    x.nan() || (x.infinite() && !x.negative())
}

/// No count at a finite bound reaches an infinite rank, or one that is not a number.
pub proof fn lemma_infinite_rank(b: Seq<(Binary64, Binary64)>, c: Binary64, n: Binary64)
    requires
        regular(b),
        beyond_count(n),
        c.nan() || not_negative(c),
        !c.infinite(),
    ensures
        forall|i: int|
            0 <= i < b.len() && (#[trigger] b[i]).0.finite() ==> !binary64::at_most(
                binary64::product(c, n),
                binary64::larger(b[i].1, binary64::zero()),
            ),
{
    let rank = binary64::product(c, n);
    assert(beyond_count(rank));
    assert forall|i: int| 0 <= i < b.len() && (#[trigger] b[i]).0.finite() implies
        !binary64::at_most(rank, binary64::larger(b[i].1, binary64::zero())) by {
        assert(b[i].1.finite());
    }
}

/// The quantiles of a ladder whose bounds ascend from zero on are not negative.
pub proof fn quantiles_are_not_negative(b: Seq<(Binary64, Binary64)>, q: Binary64)
    requires
        regular(b),
        history::quantile(b, q) is Some,
    ensures
        not_negative(history::quantile(b, q)->0),
{
    if b.len() > 0 {
        assert(not_negative(b[0].0));
    }
    let n = history::observations(b)->0;
    let one = binary64::integer(1);
    let c = binary64::clamped(q, binary64::zero(), one);
    let rank = binary64::product(c, n);
    accuracy::small_integers_are_exact(1);
    accuracy::integers_keep_order(0, 1);
    let z = binary64::zero();
    if !n.finite() {
        lemma_infinite_rank(b, c, n);
        lemma_beyond(b, rank, z, z);
    } else if !q.nan() {
        lemma_product_not_negative(c, n);
        lemma_rank_bounded(c, n);
    }
    if history::interpolated(b, rank, z, z) is Some {
        lemma_interpolated_not_negative(b, rank, z, z);
    } else {
        lemma_last_bound_not_negative(b);
    }
}

/// A rank is no larger than the number of observations.
proof fn lemma_rank_bounded(c: Binary64, n: Binary64)
    requires
        not_negative(c),
        binary64::at_most(c, binary64::integer(1)),
        n.finite(),
        !binary64::at_most(n, binary64::zero()),
    ensures
        binary64::product(c, n).finite(),
{
    accuracy::small_integers_are_exact(1);
    accuracy::integers_keep_order(0, 1);
    let one = binary64::integer(1);
    let p = pow2(1074);
    lemma_pow2_pos(1074);
    assert(rounding::magnitude(0) == 0);
    if c.abs_bits() < one.abs_bits() {
        accuracy::magnitudes_ascend(c.abs_bits(), one.abs_bits());
    }
    assert(1 * p == p);
    assert((c.mag() * n.mag()) * 1 <= n.mag() * p) by (nonlinear_arith)
        requires
            c.mag() <= p,
            n.mag() >= 0,
    ;
    accuracy::rounding_keeps_order(c.mag() * n.mag(), p, n.mag(), 1);
    accuracy::rounding_keeps_numbers(n.abs_bits());
}

/// The bucket bounds of an accepted payload ascend in every family.
pub proof fn accepted_ladders_ascend(body: Seq<char>, s: SampleView, i: int)
    requires
        metrics::exposition(body) is Ok,
        metrics::holds(s, metrics::exposition(body)->Ok_0),
        0 <= i < s.hist.len(),
    ensures
        forall|a: int, b: int|
            0 <= a < b < s.hist[i].1.le.len() ==> !binary64::less(
                #[trigger] s.hist[i].1.le[b],
                #[trigger] s.hist[i].1.le[a],
            ),
        s.hist[i].1.le.len() == s.hist[i].1.counts.len(),
        s.hist[i].1.le.len() <= metrics::BUCKET_CAP,
{
    metrics::accepted_payload_is_sound(body);
    let st = metrics::exposition(body)->Ok_0;
    let k = s.hist[i].0;
    series::lemma_lookup_at(s.hist, i);
    assert(series::as_map(s.hist).dom().contains(k));
    assert(st.hists.contains_key(k));
    let l = st.hists[k];
    let f = |x: metrics::LadderView| metrics::ladder_series(x);
    assert(st.hists.map_values(f)[k] == metrics::ladder_series(l));
    assert(series::as_map(s.hist)[k] == s.hist[i].1);
    let b = l.buckets;
    assert(metrics::sound_ladder(b));
    assert(order::ordered(b)) by {
        assert forall|m: int| 0 <= m < b.len() implies !(#[trigger] b[m]).0.nan() by {
            assert(metrics::usable_bound(b[m].0));
        }
    }
    order::arranging_sorts(b);
    let h = s.hist[i].1;
    assert forall|x: int, y: int| 0 <= x < y < h.le.len() implies !binary64::less(
        #[trigger] h.le[y],
        #[trigger] h.le[x],
    ) by {
        assert(!binary64::less(order::arranged(b)[y].0, order::arranged(b)[x].0));
    }
}

/// The key has at most one label that names a source.
pub open spec fn one_source(k: KeyView) -> bool {
    forall|i: int, j: int|
        0 <= i < k.labels.len() && 0 <= j < k.labels.len() && (#[trigger] k.labels[i]).0
            == "source"@ && (#[trigger] k.labels[j]).0 == "source"@ ==> i == j
}

/// The source that a key names.
pub open spec fn source_of(k: KeyView) -> Option<Seq<char>> {
    metrics::label_value(k.labels, "source"@)
}

proof fn lemma_label_value(l: Seq<(Seq<char>, Seq<char>)>, name: Seq<char>, v: Seq<char>)
    requires
        forall|i: int, j: int|
            0 <= i < l.len() && 0 <= j < l.len() && (#[trigger] l[i]).0 == name && (
            #[trigger] l[j]).0 == name ==> i == j,
    ensures
        l.contains((name, v)) <==> metrics::label_value(l, name) == Some(v),
    decreases l.len(),
{
    if l.len() > 0 {
        let d = l.drop_first();
        assert forall|i: int, j: int|
            0 <= i < d.len() && 0 <= j < d.len() && (#[trigger] d[i]).0 == name && (
            #[trigger] d[j]).0 == name implies i == j by {
            assert(d[i] == l[i + 1] && d[j] == l[j + 1]);
        }
        lemma_label_value(d, name, v);
        if l.contains((name, v)) {
            let i = choose|i: int| 0 <= i < l.len() && l[i] == (name, v);
            if i > 0 {
                assert(d[i - 1] == (name, v));
                if l[0].0 == name {
                    assert(l[i].0 == name);
                }
            }
        }
        if d.contains((name, v)) {
            let i = choose|i: int| 0 <= i < d.len() && d[i] == (name, v);
            assert(l[i + 1] == (name, v));
        }
        if l[0] == (name, v) {
            assert(l.contains(l[0]));
        }
    }
}

/// A prompt token is cached or computed by its source, never both, and the total over all
/// sources is neither.
pub proof fn cached_and_computed_are_disjoint(k: KeyView)
    requires
        one_source(k),
    ensures
        crate::derive::cached()(k) <==> k.name == crate::derive::PROMPT_BY_SOURCE@ && (source_of(k)
            == Some("local_cache_hit"@) || source_of(k) == Some("external_kv_transfer"@)),
        crate::derive::computed()(k) <==> k.name == crate::derive::PROMPT_BY_SOURCE@ && source_of(k)
            == Some("local_compute"@),
        !(crate::derive::cached()(k) && crate::derive::computed()(k)),
        k.name == "vllm:prompt_tokens_total"@ ==> !crate::derive::cached()(k)
            && !crate::derive::computed()(k),
{
    reveal_strlit("local_cache_hit");
    reveal_strlit("external_kv_transfer");
    reveal_strlit("local_compute");
    reveal_strlit("vllm:prompt_tokens_total");
    reveal_strlit("vllm:prompt_tokens_by_source_total");
    lemma_label_value(k.labels, "source"@, "local_cache_hit"@);
    lemma_label_value(k.labels, "source"@, "external_kv_transfer"@);
    lemma_label_value(k.labels, "source"@, "local_compute"@);
    assert("local_compute"@.len() != "local_cache_hit"@.len());
    assert("local_compute"@.len() != "external_kv_transfer"@.len());
    assert("vllm:prompt_tokens_total"@.len() != "vllm:prompt_tokens_by_source_total"@.len());
}

/// Two predicates that decide the same property, as those of the prefill and the input
/// lane do, answer alike.
pub proof fn lanes_of_one_property_agree<F, G>(
    f: F,
    g: G,
    p: spec_fn(KeyView) -> bool,
    k: &SeriesKey,
    a: bool,
    b: bool,
) where F: Fn(&SeriesKey) -> bool, G: Fn(&SeriesKey) -> bool
    requires
        history::agrees(f, p),
        history::agrees(g, p),
        f.ensures((k,), a),
        g.ensures((k,), b),
    ensures
        a == p(k@),
        b == p(k@),
{
}

/// Every reading of a series that meets `p` is a finite number not below zero.
pub open spec fn counts_up(s: SampleView, p: spec_fn(KeyView) -> bool) -> bool {
    forall|i: int|
        0 <= i < s.simple.len() && p((#[trigger] s.simple[i]).0) ==> s.simple[i].1.finite()
            && binary64::at_most(binary64::zero(), s.simple[i].1)
}

/// A sum of numbers that are not negative is not negative.
pub proof fn lemma_sum_not_negative(a: Binary64, b: Binary64)
    requires
        binary64::at_most(binary64::zero(), a),
        binary64::at_most(binary64::zero(), b),
    ensures
        binary64::at_most(binary64::zero(), binary64::sum(a, b)),
{
    assert(rounding::magnitude(0) == 0);
}

proof fn lemma_paired_not_negative(
    acc: (Binary64, bool),
    old: Seq<(KeyView, Binary64)>,
    new: Seq<(KeyView, Binary64)>,
    p: spec_fn(KeyView) -> bool,
)
    requires
        binary64::at_most(binary64::zero(), acc.0),
        series::ascending(old),
        forall|i: int|
            0 <= i < old.len() && p((#[trigger] old[i]).0) ==> old[i].1.finite(),
        forall|i: int|
            0 <= i < new.len() && p((#[trigger] new[i]).0) ==> new[i].1.finite()
                && binary64::at_most(binary64::zero(), new[i].1),
    ensures
        binary64::at_most(binary64::zero(), history::paired(acc, old, new, p).0),
    decreases new.len(),
{
    if new.len() > 0 {
        let d = new.drop_last();
        assert forall|i: int| 0 <= i < d.len() && p((#[trigger] d[i]).0) implies d[i].1.finite()
            && binary64::at_most(binary64::zero(), d[i].1) by {
            assert(d[i] == new[i]);
        }
        lemma_paired_not_negative(acc, old, d, p);
        let (k, v) = new.last();
        assert(new[new.len() - 1] == (k, v));
        if let Some(was) = series::lookup(old, k) {
            if p(k) {
                let j = choose|j: int| 0 <= j < old.len() && old[j].0 == k;
                series::lemma_lookup_at(old, j);
                assert(old[j].1.finite());
                rises_are_not_negative(was, v);
                lemma_sum_not_negative(
                    history::paired(acc, old, d, p).0,
                    history::counter_rise(was, v),
                );
            }
        }
    }
}

proof fn lemma_rises_not_negative(e: Seq<EntryView>, p: spec_fn(KeyView) -> bool)
    requires
        forall|i: int| 0 <= i < e.len() ==> (#[trigger] e[i]).sample.wf(),
        forall|i: int| 0 <= i < e.len() ==> counts_up((#[trigger] e[i]).sample, p),
    ensures
        binary64::at_most(binary64::zero(), history::rises(e, p).0),
    decreases e.len(),
{
    if e.len() >= 2 {
        let d = e.drop_last();
        assert forall|i: int| 0 <= i < d.len() implies (#[trigger] d[i]).sample.wf() && counts_up(
            d[i].sample,
            p,
        ) by {
            assert(d[i] == e[i]);
        }
        lemma_rises_not_negative(d, p);
        let a = e[e.len() - 2].sample;
        let b = e[e.len() - 1].sample;
        assert(a.wf() && counts_up(a, p) && counts_up(b, p));
        lemma_paired_not_negative(history::rises(d, p), a.simple, b.simple, p);
    }
}

/// A rate of counters that are not negative is not negative, whatever resets the window
/// holds.
pub proof fn rates_are_not_negative(e: Seq<EntryView>, p: spec_fn(KeyView) -> bool, window: nat)
    requires
        history::ring_ok(e),
        forall|i: int| 0 <= i < e.len() ==> counts_up((#[trigger] e[i]).sample, p),
        history::rate(e, p, window) is Some,
    ensures
        binary64::at_most(binary64::zero(), history::rate(e, p, window)->0),
{
    history::lemma_inside(e, window);
    history::lemma_older(e, e.last().t - window);
    let w = history::inside(e, window);
    let base = history::older(e, e.last().t - window) as int;
    assert forall|i: int| 0 <= i < w.len() implies (#[trigger] w[i]).sample.wf() && counts_up(
        w[i].sample,
        p,
    ) by {
        assert(w[i] == e[base + i]);
        assert(e[base + i].sample.wf() && counts_up(e[base + i].sample, p));
    }
    lemma_rises_not_negative(w, p);
    assert(w[0].t < w[w.len() - 1].t);
    let dt = (w.last().t - w[0].t) as nat;
    accuracy::lapses_are_positive(dt);
    assert(rounding::magnitude(0) == 0);
    let a = history::rises(w, p).0;
    let b = binary64::seconds(dt);
    accuracy::quotient_not_negative(a, b);
}

/// Without a restart no alarm that is set is cleared.
pub proof fn alarms_are_sticky(a: Alarms, e: Seq<EntryView>)
    requires
        e.len() >= 2 ==> !crate::derive::restarted(
            e[e.len() - 2].sample,
            e[e.len() - 1].sample,
        ),
    ensures
        ({
            let b = crate::derive::alarmed(a, e);
            &&& a.abort ==> b.abort
            &&& a.http_5xx ==> b.http_5xx
            &&& a.alloc_fail ==> b.alloc_fail
        }),
{
}

/// A peak is there, and not below another.
pub open spec fn no_lower(before: Option<Binary64>, after: Option<Binary64>) -> bool {
    match before {
        Some(v) => after is Some && binary64::at_most(v, after->0),
        None => true,
    }
}

/// Without a restart no peak falls.
pub proof fn peaks_only_grow(p: Peaks, e: Seq<EntryView>)
    requires
        e.len() >= 2 ==> !crate::derive::restarted(
            e[e.len() - 2].sample,
            e[e.len() - 1].sample,
        ),
        p.decode is Some ==> !(p.decode->0).nan(),
        p.prefill is Some ==> !(p.prefill->0).nan(),
        p.decode_single is Some ==> !(p.decode_single->0).nan(),
    ensures
        ({
            let q = crate::derive::peaked(p, e);
            &&& no_lower(p.decode, q.decode)
            &&& no_lower(p.prefill, q.prefill)
            &&& no_lower(p.decode_single, q.decode_single)
        }),
{
}

/// A restart clears every peak and every alarm.
pub proof fn restart_clears_the_session(p: Peaks, a: Alarms, e: Seq<EntryView>)
    requires
        e.len() >= 2,
        crate::derive::restarted(e[e.len() - 2].sample, e[e.len() - 1].sample),
    ensures
        crate::derive::peaked(p, e) == crate::derive::no_peaks(),
        crate::derive::alarmed(a, e) == crate::derive::no_alarms(),
{
}

/// The newest point of the latency plot, where there is one, is the headline quantile of
/// the window.
pub proof fn newest_point_is_the_headline(e: Seq<EntryView>)
    requires
        history::ring_ok(e),
        crate::derive::scan(e).ttft_p95.len() > 0,
        crate::derive::scan(e).ttft_p95.last() is Some,
    ensures
        crate::derive::scan(e).ttft_p95.last() == crate::derive::quantiles(
            e,
            crate::derive::TTFT@,
            WINDOWS[2] as nat,
        ).p95,
{
    history::lemma_inside(e, WINDOWS[2] as nat);
    let w = history::inside(e, WINDOWS[2] as nat);
    let p = crate::derive::family(crate::derive::TTFT@);
    assert(crate::derive::scan(e).ttft_p95.last() == history::span_p95(
        w[0].sample,
        w.last().sample,
        p,
    ));
}

/// While nothing runs, no interval is stalled.
pub proof fn idle_engine_does_not_stall(w: Seq<EntryView>, i: int)
    requires
        !crate::derive::positive(
            crate::derive::gauge_or_zero(w[i + 1].sample, crate::derive::RUNNING@),
        ),
    ensures
        !crate::derive::stalled(w, i),
{
}

/// The first appearance of the decode series is no stall.
pub proof fn first_appearance_is_no_stall(w: Seq<EntryView>, i: int)
    requires
        forall|j: int|
            0 <= j <= i ==> !crate::derive::carries(
                (#[trigger] w[j]).sample,
                crate::derive::decoded(),
            ),
        0 <= i,
    ensures
        !crate::derive::stalled(w, i),
{
    assert(!crate::derive::carries(w[i].sample, crate::derive::decoded()));
}

/// An interval over which the decode series goes missing is no stall: nothing that can be
/// measured collapsed.
pub proof fn absence_that_starts_is_no_stall(w: Seq<EntryView>, i: int)
    requires
        crate::derive::carries(w[i].sample, crate::derive::decoded()),
        !crate::derive::carries(w[i + 1].sample, crate::derive::decoded()),
    ensures
        !crate::derive::stalled(w, i),
{
}

/// No window counts more stalls than it has intervals.
pub proof fn stalls_are_intervals(
    flags: Seq<bool>,
    dt: Seq<Binary64>,
    n: int,
    budget: Binary64,
    acc: (nat, Binary64),
)
    requires
        0 <= n,
    ensures
        crate::derive::frozen(flags, dt, n, budget, acc).0 <= acc.0 + n,
    decreases n,
{
    if n > 0 && !binary64::at_most(budget, binary64::zero()) {
        let next = if flags[n - 1] {
            (acc.0 + 1, binary64::sum(acc.1, binary64::smaller(dt[n - 1], budget)))
        } else {
            acc
        };
        stalls_are_intervals(flags, dt, n - 1, binary64::difference(budget, dt[n - 1]), next);
    }
}

/// The keys that toggle undo themselves, and the theme comes round after three.
pub proof fn toggles_undo_themselves(ui: Ui, paused: bool, size: Option<(u16, u16)>, t: u64, u: u64)
    requires
        ui.wf(),
    ensures
        ({
            let g = Key::Char('g');
            ui::keyed(ui::keyed(ui, paused, g, size, t), paused, g, size, u) == ui
        }),
        ({
            let c = Key::Char('c');
            let twice = ui::keyed(ui::keyed(ui, paused, c, size, t), paused, c, size, u);
            ui.compact is Some ==> twice == ui
        }),
        ({
            let k = Key::Char('t');
            let one = ui::keyed(ui, paused, k, size, t);
            let two = ui::keyed(one, paused, k, size, t);
            ui::keyed(two, paused, k, size, t) == ui
        }),
        ({
            let space = Key::Char(' ');
            let on = ui::keyed(ui, false, space, size, t);
            on.paused_since == Some(t) && ui::keyed(on, true, space, size, u).paused_since is None
        }),
        ({
            let q = Key::Char('?');
            let twice = ui::keyed(ui::keyed(ui, paused, q, size, t), paused, q, size, u);
            ui.overlay != ui::Overlay::Explain ==> twice == ui
        }),
{
}

} // verus!
