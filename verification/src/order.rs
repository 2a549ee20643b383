//! Stable arrangement by a number, and arrangement of labels.

use vstd::multiset::*;
use vstd::prelude::*;
use vstd::relations::*;
use vstd::seq_lib::*;

use crate::binary64;
use crate::binary64::Binary64;
use crate::series;
use crate::series::label_less;

verus! {

/// `s` with `x` put in behind everything that is not greater than it, counting from
/// the end.
pub open spec fn put(s: Seq<(Binary64, Binary64)>, x: (Binary64, Binary64)) -> Seq<
    (Binary64, Binary64),
>
    decreases s.len(),
{
    if s.len() == 0 || !binary64::less(x.0, s.last().0) {
        s.push(x)
    } else {
        put(s.drop_last(), x).push(s.last())
    }
}

/// The pairs in ascending order of their first numbers; pairs with equal numbers keep
/// their order.
pub open spec fn arranged(s: Seq<(Binary64, Binary64)>) -> Seq<(Binary64, Binary64)>
    decreases s.len(),
{
    if s.len() == 0 {
        s
    } else {
        put(arranged(s.drop_last()), s.last())
    }
}

/// No first number is below an earlier one.
pub open spec fn ascends(s: Seq<(Binary64, Binary64)>) -> bool {
    forall|i: int, j: int|
        0 <= i < j < s.len() ==> !binary64::less(#[trigger] s[j].0, #[trigger] s[i].0)
}

/// No first number is a not-a-number.
pub open spec fn ordered(s: Seq<(Binary64, Binary64)>) -> bool {
    forall|i: int| 0 <= i < s.len() ==> !(#[trigger] s[i]).0.nan()
}

proof fn lemma_put(s: Seq<(Binary64, Binary64)>, x: (Binary64, Binary64))
    requires
        ascends(s),
        ordered(s),
        !x.0.nan(),
    ensures
        ascends(put(s, x)),
        ordered(put(s, x)),
        put(s, x).to_multiset() == s.to_multiset().insert(x),
        put(s, x).len() == s.len() + 1,
    decreases s.len(),
{
    broadcast use group_to_multiset_ensures;

    if s.len() == 0 || !binary64::less(x.0, s.last().0) {
        let t = s.push(x);
        assert forall|i: int, j: int| 0 <= i < j < t.len() implies !binary64::less(
            #[trigger] t[j].0,
            #[trigger] t[i].0,
        ) by {
            if j < s.len() {
                assert(!binary64::less(s[j].0, s[i].0));
            } else if i < s.len() - 1 {
                assert(!binary64::less(s[s.len() - 1].0, s[i].0));
            }
        }
    } else {
        let d = s.drop_last();
        assert(ascends(d)) by {
            assert forall|i: int, j: int| 0 <= i < j < d.len() implies !binary64::less(
                #[trigger] d[j].0,
                #[trigger] d[i].0,
            ) by {
                assert(!binary64::less(s[j].0, s[i].0));
            }
        }
        lemma_put(d, x);
        let u = put(d, x);
        let t = u.push(s.last());
        assert(d.push(s.last()) =~= s);
        assert forall|i: int, j: int| 0 <= i < j < t.len() implies !binary64::less(
            #[trigger] t[j].0,
            #[trigger] t[i].0,
        ) by {
            if j < u.len() {
                assert(!binary64::less(u[j].0, u[i].0));
            } else {
                assert(u.contains(u[i]));
                assert(u.to_multiset().count(u[i]) > 0);
                if u[i] != x {
                    assert(d.to_multiset().count(u[i]) > 0);
                    assert(d.contains(u[i]));
                    let m = choose|m: int| 0 <= m < d.len() && d[m] == u[i];
                    assert(!binary64::less(s[s.len() - 1].0, s[m].0));
                }
            }
        }
        assert(t.to_multiset() == s.to_multiset().insert(x)) by {
            assert(t.to_multiset() =~= d.to_multiset().insert(x).insert(s.last()));
            assert(s.to_multiset() =~= d.to_multiset().insert(s.last()));
            assert(d.to_multiset().insert(x).insert(s.last()) =~= d.to_multiset().insert(
                s.last(),
            ).insert(x));
        }
    }
}

proof fn lemma_put_len(s: Seq<(Binary64, Binary64)>, x: (Binary64, Binary64))
    ensures
        put(s, x).len() == s.len() + 1,
    decreases s.len(),
{
    if s.len() > 0 && binary64::less(x.0, s.last().0) {
        lemma_put_len(s.drop_last(), x);
    }
}

/// Arranging keeps the number of pairs.
pub proof fn lemma_arranged_len(s: Seq<(Binary64, Binary64)>)
    ensures
        arranged(s).len() == s.len(),
    decreases s.len(),
{
    if s.len() > 0 {
        lemma_arranged_len(s.drop_last());
        lemma_put_len(arranged(s.drop_last()), s.last());
    }
}

/// Arranging keeps every pair and makes the first numbers ascend.
pub proof fn arranging_sorts(s: Seq<(Binary64, Binary64)>)
    requires
        ordered(s),
    ensures
        ascends(arranged(s)),
        ordered(arranged(s)),
        arranged(s).to_multiset() == s.to_multiset(),
        arranged(s).len() == s.len(),
    decreases s.len(),
{
    broadcast use group_to_multiset_ensures;

    if s.len() > 0 {
        arranging_sorts(s.drop_last());
        lemma_put(arranged(s.drop_last()), s.last());
        assert(s.drop_last().push(s.last()) =~= s);
    }
}

/// Puts the pairs in ascending order of their first numbers.
pub fn arrange(v: Vec<(Binary64, Binary64)>) -> (r: Vec<(Binary64, Binary64)>)
    ensures
        r@ == arranged(v@),
{
    let mut r: Vec<(Binary64, Binary64)> = Vec::new();
    let mut n: usize = 0;
    assert(v@.take(0) =~= Seq::empty());
    while n < v.len()
        invariant
            n <= v@.len(),
            r@ == arranged(v@.take(n as int)),
        decreases v@.len() - n,
    {
        let x: (Binary64, Binary64) = v[n];
        let mut i: usize = r.len();
        let ghost s = r@;
        assert(s.take(s.len() as int) =~= s);
        assert(s.skip(s.len() as int) =~= Seq::empty());
        assert(put(s, x) =~= put(s.take(i as int), x) + s.skip(i as int));
        while i > 0 && x.0.lt(r[i - 1].0)
            invariant
                i <= r@.len(),
                r@ == s,
                put(s, x) == put(s.take(i as int), x) + s.skip(i as int),
            decreases i,
        {
            let ghost t = s.take(i as int);
            assert(t.drop_last() =~= s.take(i - 1));
            assert(t.last() == s[i - 1]);
            assert(put(t, x) == put(s.take(i - 1), x).push(s[i - 1]));
            assert(put(s.take(i - 1), x).push(s[i - 1]) + s.skip(i as int) =~= put(
                s.take(i - 1),
                x,
            ) + s.skip(i - 1));
            i -= 1;
        }
        assert(put(s.take(i as int), x) == s.take(i as int).push(x)) by {
            if i > 0 {
                assert(s.take(i as int).last() == s[i - 1]);
            }
        }
        r.insert(i, x);
        assert(r@ =~= put(s, x));
        n += 1;
        assert(v@.take(n as int).drop_last() =~= v@.take(n - 1));
    }
    assert(v@.take(v@.len() as int) =~= v@);
    r
}

/// The order of labels that admits equality.
pub open spec fn label_at_most() -> spec_fn(
    (Seq<char>, Seq<char>),
    (Seq<char>, Seq<char>),
) -> bool {
    |a: (Seq<char>, Seq<char>), b: (Seq<char>, Seq<char>)| !series::label_before(b, a)
}

/// Labels are totally ordered.
pub proof fn lemma_label_at_most()
    ensures
        total_ordering(label_at_most()),
{
    let r = label_at_most();
    assert forall|a: (Seq<char>, Seq<char>)| #[trigger] r(a, a) by {
        series::lemma_label_order(a, a, a);
    }
    assert forall|a: (Seq<char>, Seq<char>), b: (Seq<char>, Seq<char>)| #[trigger]
        r(a, b) && #[trigger] r(b, a) implies a == b by {
        series::lemma_label_order(a, b, a);
    }
    assert forall|
        a: (Seq<char>, Seq<char>),
        b: (Seq<char>, Seq<char>),
        c: (Seq<char>, Seq<char>),
    | #[trigger]
        r(a, b) && #[trigger] r(b, c) implies r(a, c) by {
        series::lemma_label_order(c, a, b);
        series::lemma_label_order(a, b, c);
        series::lemma_label_order(b, c, a);
    }
    assert forall|a: (Seq<char>, Seq<char>), b: (Seq<char>, Seq<char>)| #[trigger]
        r(a, b) || #[trigger] r(b, a) by {
        series::lemma_label_order(a, b, a);
    }
}

/// Labels in ascending order.
pub open spec fn sorted_labels(s: Seq<(Seq<char>, Seq<char>)>) -> Seq<(Seq<char>, Seq<char>)> {
    s.sort_by(label_at_most())
}

/// The order in which labels are written does not matter: the same labels, each as
/// often, sort into the same list.
pub proof fn label_order_is_immaterial(
    a: Seq<(Seq<char>, Seq<char>)>,
    b: Seq<(Seq<char>, Seq<char>)>,
)
    requires
        a.to_multiset() == b.to_multiset(),
    ensures
        sorted_labels(a) == sorted_labels(b),
{
    lemma_label_at_most();
    a.lemma_sort_by_ensures(label_at_most());
    b.lemma_sort_by_ensures(label_at_most());
    lemma_sorted_unique(sorted_labels(a), sorted_labels(b), label_at_most());
}

/// Puts labels in ascending order.
pub fn sort_labels(v: Vec<(String, String)>) -> (r: Vec<(String, String)>)
    ensures
        series::labels_view(r@) == sorted_labels(series::labels_view(v@)),
{
    let ghost all = series::labels_view(v@);
    let mut rest: Vec<(String, String)> = v;
    let mut r: Vec<(String, String)> = Vec::new();
    let ghost leq = label_at_most();
    proof {
        broadcast use group_to_multiset_ensures;

        lemma_label_at_most();
        assert(series::labels_view(r@) =~= Seq::empty());
        assert(series::labels_view(r@).to_multiset().add(all.to_multiset()) =~= all.to_multiset());
    }
    while rest.len() > 0
        invariant
            leq == label_at_most(),
            total_ordering(leq),
            sorted_by(series::labels_view(r@), leq),
            series::labels_view(r@).to_multiset().add(series::labels_view(rest@).to_multiset())
                == all.to_multiset(),
        decreases rest@.len(),
    {
        let ghost before = series::labels_view(rest@);
        let ghost s = series::labels_view(r@);
        let x: (String, String) = rest.pop().unwrap();
        let ghost w = series::label_view(x);
        let mut i: usize = r.len();
        while i > 0 && label_less(&x, &r[i - 1])
            invariant
                i <= r@.len(),
                s == series::labels_view(r@),
                w == series::label_view(x),
                leq == label_at_most(),
                forall|j: int| i <= j < s.len() ==> series::label_before(w, #[trigger] s[j]),
            decreases i,
        {
            assert(s[i - 1] == series::label_view(r@[i - 1]));
            i -= 1;
        }
        r.insert(i, x);
        proof {
            broadcast use group_to_multiset_ensures;

            let t = series::labels_view(r@);
            assert(t =~= s.insert(i as int, w));
            assert(before =~= series::labels_view(rest@).push(w));
            assert forall|a: int, b: int| 0 <= a < b < t.len() implies #[trigger] leq(
                t[a],
                t[b],
            ) by {
                series::lemma_label_order(w, w, w);
                if a == i {
                    series::lemma_label_order(w, s[b - 1], w);
                } else if b == i {
                    assert(s[i - 1] == t[i - 1]);
                    assert(leq(s[i - 1], w));
                    if a < i - 1 {
                        assert(leq(s[a], s[i - 1]));
                    }
                } else {
                    let p = if a < i { a } else { a - 1 };
                    let q = if b < i { b } else { b - 1 };
                    assert(leq(s[p], s[q]));
                }
            }
            assert(t.to_multiset() =~= s.to_multiset().insert(w)) by {
                assert(t.remove(i as int) =~= s);
                assert(t.contains(t[i as int]));
                assert(t.to_multiset().remove(w) =~= s.to_multiset());
                assert(t.to_multiset().remove(w).insert(w) =~= t.to_multiset());
            }
            assert(t.to_multiset().add(series::labels_view(rest@).to_multiset())
                =~= s.to_multiset().add(before.to_multiset()));
        }
    }
    proof {
        broadcast use group_to_multiset_ensures;

        let s = series::labels_view(r@);
        assert(series::labels_view(rest@) =~= Seq::empty());
        assert(s.to_multiset() =~= all.to_multiset());
        all.lemma_sort_by_ensures(leq);
        lemma_sorted_unique(s, sorted_labels(all), leq);
    }
    r
}

} // verus!
