//! Ladders of several histograms as one.

use vstd::prelude::*;

use crate::additivity;
use crate::binary64;
use crate::binary64::Binary64;
use crate::history;
use crate::laws;
use crate::order;

verus! {

/// The ladder has a rung at the bound.
pub open spec fn has_rung(m: Seq<(Binary64, Binary64)>, le: Binary64) -> bool {
    exists|k: int| 0 <= k < m.len() && #[trigger] binary64::equal(m[k].0, le)
}

/// The counts of the pairs whose bound is equal to `le`, in their order, those that count.
pub open spec fn counts_at(s: Seq<(Binary64, Binary64)>, le: Binary64) -> Seq<Binary64>
    decreases s.len(),
{
    if s.len() == 0 {
        Seq::empty()
    } else {
        let a = counts_at(s.drop_last(), le);
        if history::countable(s.last()) && binary64::equal(s.last().0, le) {
            a.push(s.last().1)
        } else {
            a
        }
    }
}

proof fn lemma_counts_push(s: Seq<(Binary64, Binary64)>, x: (Binary64, Binary64), le: Binary64)
    ensures
        counts_at(s.push(x), le) == (if history::countable(x) && binary64::equal(x.0, le) {
            counts_at(s, le).push(x.1)
        } else {
            counts_at(s, le)
        }),
{
    assert(s.push(x).drop_last() =~= s);
}

proof fn lemma_counts_put(s: Seq<(Binary64, Binary64)>, x: (Binary64, Binary64), le: Binary64)
    ensures
        counts_at(order::put(s, x), le) == counts_at(s.push(x), le),
    decreases s.len(),
{
    if !(s.len() == 0 || !binary64::less(x.0, s.last().0)) {
        let d = s.drop_last();
        lemma_counts_put(d, x, le);
        lemma_counts_push(order::put(d, x), s.last(), le);
        lemma_counts_push(d, x, le);
        lemma_counts_push(s, x, le);
        lemma_counts_push(d, s.last(), le);
        assert(d.push(s.last()) =~= s);
    }
}

proof fn lemma_counts_arranged(s: Seq<(Binary64, Binary64)>, le: Binary64)
    ensures
        counts_at(order::arranged(s), le) == counts_at(s, le),
    decreases s.len(),
{
    if s.len() > 0 {
        let d = s.drop_last();
        lemma_counts_arranged(d, le);
        lemma_counts_put(order::arranged(d), s.last(), le);
        lemma_counts_push(order::arranged(d), s.last(), le);
        lemma_counts_push(d, s.last(), le);
        assert(d.push(s.last()) =~= s);
    }
}

proof fn lemma_counts_filter(s: Seq<(Binary64, Binary64)>, le: Binary64)
    ensures
        counts_at(s.filter(|b: (Binary64, Binary64)| history::countable(b)), le) == counts_at(
            s,
            le,
        ),
    decreases s.len(),
{
    reveal(Seq::filter);
    let keep = |b: (Binary64, Binary64)| history::countable(b);
    if s.len() > 0 {
        let d = s.drop_last();
        lemma_counts_filter(d, le);
        lemma_counts_push(d.filter(keep), s.last(), le);
    }
}

/// The first number and the others added to it, one after the other.
pub open spec fn total_of(l: Seq<Binary64>) -> Binary64 {
    additivity::added(l[0], l.skip(1))
}

proof fn lemma_total_push(l: Seq<Binary64>, x: Binary64)
    ensures
        l.len() > 0 ==> total_of(l.push(x)) == binary64::sum(total_of(l), x),
        l.len() == 0 ==> total_of(l.push(x)) == x,
{
    let a = l.push(x);
    if l.len() > 0 {
        assert(a.skip(1).drop_last() =~= l.skip(1));
        assert(a.skip(1).last() == x);
        assert(a[0] == l[0]);
    } else {
        assert(a.skip(1) =~= Seq::empty());
    }
}

#[verifier::rlimit(40)]
proof fn lemma_joined_totals(s: Seq<(Binary64, Binary64)>)
    requires
        order::ascends(s),
        forall|i: int| 0 <= i < s.len() ==> history::countable(#[trigger] s[i]),
    ensures
        ({
            let m = history::joined(s);
            &&& laws::strictly_ascends(m)
            &&& forall|k: int|
                0 <= k < m.len() ==> counts_at(s, (#[trigger] m[k]).0).len() > 0 && m[k].1
                    == total_of(counts_at(s, m[k].0)) && !m[k].0.nan()
            &&& forall|i: int|
                0 <= i < s.len() ==> has_rung(m, (#[trigger] s[i]).0)
            &&& s.len() > 0 ==> m.len() > 0 && binary64::equal(m.last().0, s.last().0)
        }),
    decreases s.len(),
{
    let m = history::joined(s);
    if s.len() > 0 {
        let d = s.drop_last();
        let x = s.last();
        assert(history::countable(s[s.len() - 1]));
        assert(order::ascends(d)) by {
            assert forall|i: int, j: int| 0 <= i < j < d.len() implies !binary64::less(
                #[trigger] d[j].0,
                #[trigger] d[i].0,
            ) by {
                assert(!binary64::less(s[j].0, s[i].0));
            }
        }
        assert forall|i: int| 0 <= i < d.len() implies history::countable(#[trigger] d[i]) by {
            assert(history::countable(s[i]));
        }
        lemma_joined_totals(d);
        let a = history::joined(d);
        assert(d.push(x) =~= s);
        let n = a.len() as int;
        if d.len() > 0 {
            assert(!binary64::less(s[s.len() - 1].0, s[d.len() - 1].0));
        }
        if n > 0 && binary64::equal(a.last().0, x.0) {
            assert forall|k: int| 0 <= k < m.len() implies counts_at(s, (#[trigger] m[k]).0).len()
                > 0 && m[k].1 == total_of(counts_at(s, m[k].0)) && !m[k].0.nan() by {
                assert(m[k].0 == a[k].0);
                lemma_counts_push(d, x, a[k].0);
                assert(counts_at(d, a[k].0).len() > 0);
                if k < n - 1 {
                    assert(binary64::less(a[k].0, a[n - 1].0));
                    assert(m[k] == a[k]);
                } else {
                    lemma_total_push(counts_at(d, a[k].0), x.1);
                }
            }
            assert forall|k: int, l: int| 0 <= k < l < m.len() implies binary64::less(
                #[trigger] m[k].0,
                #[trigger] m[l].0,
            ) by {
                assert(m[k].0 == a[k].0 && m[l].0 == a[l].0);
            }
            assert forall|i: int| 0 <= i < s.len() implies has_rung(
                m,
                (#[trigger] s[i]).0,
            ) by {
                if i < d.len() {
                    assert(s[i] == d[i]);
                    assert(has_rung(a, d[i].0));
                    let k = choose|k: int|
                        0 <= k < a.len() && #[trigger] binary64::equal(a[k].0, d[i].0);
                    assert(m[k].0 == a[k].0);
                    assert(binary64::equal(m[k].0, s[i].0));
                } else {
                    assert(binary64::equal(m[n - 1].0, s[i].0));
                }
            }
        } else {
            assert(m == a.push(x));
            if n > 0 {
                assert(!a[n - 1].0.nan());
                assert(binary64::less(a[n - 1].0, x.0));
            }
            assert forall|k: int, l: int| 0 <= k < l < m.len() implies binary64::less(
                #[trigger] m[k].0,
                #[trigger] m[l].0,
            ) by {
                if l < n {
                    assert(binary64::less(a[k].0, a[l].0));
                } else if k < n - 1 {
                    assert(binary64::less(a[k].0, a[n - 1].0));
                }
            }
            assert(counts_at(d, x.0).len() == 0) by {
                lemma_counts_none(d, x.0, a);
            }
            assert forall|k: int| 0 <= k < m.len() implies counts_at(s, (#[trigger] m[k]).0).len()
                > 0 && m[k].1 == total_of(counts_at(s, m[k].0)) && !m[k].0.nan() by {
                lemma_counts_push(d, x, m[k].0);
                if k < n {
                    assert(m[k] == a[k]);
                    assert(counts_at(d, a[k].0).len() > 0);
                    assert(binary64::less(m[k].0, m[n].0));
                } else {
                    lemma_total_push(counts_at(d, x.0), x.1);
                }
            }
            assert forall|i: int| 0 <= i < s.len() implies has_rung(
                m,
                (#[trigger] s[i]).0,
            ) by {
                if i < d.len() {
                    assert(s[i] == d[i]);
                    assert(has_rung(a, d[i].0));
                    let k = choose|k: int|
                        0 <= k < a.len() && #[trigger] binary64::equal(a[k].0, d[i].0);
                    assert(m[k].0 == a[k].0);
                    assert(binary64::equal(m[k].0, s[i].0));
                } else {
                    assert(binary64::equal(m[n].0, s[i].0));
                }
            }
        }
    }
}

/// Where every pair has the bound of one of the rungs, and none of them is `le`, no count
/// stands at `le`.
proof fn lemma_counts_none(
    d: Seq<(Binary64, Binary64)>,
    le: Binary64,
    a: Seq<(Binary64, Binary64)>,
)
    requires
        forall|i: int|
            0 <= i < d.len() ==> has_rung(a, (#[trigger] d[i]).0),
        laws::strictly_ascends(a),
        a.len() > 0 ==> binary64::less(a.last().0, le),
    ensures
        counts_at(d, le).len() == 0,
    decreases d.len(),
{
    if d.len() > 0 {
        let e = d.drop_last();
        assert forall|i: int| 0 <= i < e.len() implies has_rung(a, (#[trigger] e[i]).0) by {
            assert(e[i] == d[i]);
            assert(has_rung(a, d[i].0));
        }
        lemma_counts_none(e, le, a);
        let x = d[d.len() - 1];
        assert(has_rung(a, x.0));
        let k = choose|k: int| 0 <= k < a.len() && #[trigger] binary64::equal(a[k].0, x.0);
        if k < a.len() - 1 {
            assert(binary64::less(a[k].0, a[a.len() - 1].0));
        }
    }
}

/// Merged ladders have a rung for every bound that counts, and each rung holds the counts of
/// all ladders at its bound, added up.
pub proof fn merged_rungs_hold_the_counts_of_all_ladders(s: Seq<(Binary64, Binary64)>)
    ensures
        ({
            let m = history::merged(s);
            &&& laws::strictly_ascends(m)
            &&& forall|k: int|
                0 <= k < m.len() ==> counts_at(s, (#[trigger] m[k]).0).len() > 0 && m[k].1
                    == total_of(counts_at(s, m[k].0))
            &&& forall|i: int|
                0 <= i < s.len() && history::countable(#[trigger] s[i]) ==> has_rung(m, s[i].0)
        }),
{
    let keep = |b: (Binary64, Binary64)| history::countable(b);
    let kept = s.filter(keep);
    assert forall|i: int| 0 <= i < kept.len() implies history::countable(#[trigger] kept[i]) by {
        s.lemma_filter_pred(keep, i);
    }
    assert(order::ordered(kept)) by {
        assert forall|i: int| 0 <= i < kept.len() implies !(#[trigger] kept[i]).0.nan() by {
            assert(history::countable(kept[i]));
        }
    }
    order::arranging_sorts(kept);
    let t = order::arranged(kept);
    assert forall|i: int| 0 <= i < t.len() implies history::countable(#[trigger] t[i]) by {
        lemma_same_members(kept, t, t[i]);
    }
    lemma_joined_totals(t);
    let m = history::merged(s);
    assert(m == history::joined(t));
    assert forall|k: int| 0 <= k < m.len() implies counts_at(s, (#[trigger] m[k]).0).len() > 0
        && m[k].1 == total_of(counts_at(s, m[k].0)) by {
        lemma_counts_arranged(kept, m[k].0);
        lemma_counts_filter(s, m[k].0);
        assert(counts_at(t, m[k].0).len() > 0);
    }
    assert forall|i: int| 0 <= i < s.len() && history::countable(#[trigger] s[i]) implies has_rung(
        m,
        s[i].0,
    ) by {
        s.lemma_filter_contains(keep, i);
        let j = choose|j: int| 0 <= j < kept.len() && kept[j] == s[i];
        lemma_same_members(t, kept, s[i]);
        let h = choose|h: int| 0 <= h < t.len() && t[h] == s[i];
        assert(has_rung(m, t[h].0));
        let k = choose|k: int| 0 <= k < m.len() && #[trigger] binary64::equal(m[k].0, t[h].0);
        assert(binary64::equal(m[k].0, s[i].0));
    }
}

proof fn lemma_same_members(
    a: Seq<(Binary64, Binary64)>,
    b: Seq<(Binary64, Binary64)>,
    x: (Binary64, Binary64),
)
    requires
        a.to_multiset() == b.to_multiset(),
        b.contains(x),
    ensures
        a.contains(x),
{
    a.to_multiset_ensures();
    b.to_multiset_ensures();
    assert(b.to_multiset().count(x) > 0);
    assert(a.to_multiset().count(x) > 0);
}

} // verus!
