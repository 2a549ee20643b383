//! What is written into a payload is what is read from it.

use vstd::arithmetic::div_mod::*;
use vstd::arithmetic::power2::*;
use vstd::prelude::*;

use crate::accuracy;
use crate::binary64;
use crate::binary64::Binary64;
use crate::decimal;
use crate::metrics;
use crate::metrics::{LadderView, Reading, State};
use crate::order;
use crate::rounding;
use crate::series::KeyView;
use crate::text;

verus! {

/// A character of a label value as it is written.
pub open spec fn escape(c: char) -> Seq<char> {
    if c == '\\' {
        seq!['\\', '\\']
    } else if c == '"' {
        seq!['\\', '"']
    } else if c == '\n' {
        seq!['\\', 'n']
    } else {
        seq![c]
    }
}

/// A label value as it is written between its quotes.
pub open spec fn escaped(v: Seq<char>) -> Seq<char>
    decreases v.len(),
{
    if v.len() == 0 {
        Seq::empty()
    } else {
        escape(v[0]) + escaped(v.drop_first())
    }
}

/// A label as it is written: its name, and its value in quotes.
pub open spec fn label_text(l: (Seq<char>, Seq<char>)) -> Seq<char> {
    l.0 + seq!['=', '"'] + escaped(l.1) + seq!['"']
}

/// Labels as they are written, with commas between them.
pub open spec fn block_text(l: Seq<(Seq<char>, Seq<char>)>) -> Seq<char>
    decreases l.len(),
{
    if l.len() == 0 {
        Seq::empty()
    } else if l.len() == 1 {
        label_text(l[0])
    } else {
        label_text(l[0]) + seq![','] + block_text(l.drop_first())
    }
}

/// The name of a label can be written: it holds nothing that ends a name or a block, and
/// does not begin with what stands between labels.
pub open spec fn label_name(n: Seq<char>) -> bool {
    &&& forall|i: int|
        0 <= i < n.len() ==> (#[trigger] n[i]) != '=' && n[i] != '"' && n[i] != '}'
    &&& n.len() > 0 ==> n[0] != ',' && n[0] != ' ' && n[0] != '\t'
}

/// A label value is read as it was written, whatever characters it holds.
pub proof fn label_values_are_read_as_written(v: Seq<char>, rest: Seq<char>)
    ensures
        metrics::quoted(escaped(v) + seq!['"'] + rest) == (v, rest),
    decreases v.len(),
{
    let s = escaped(v) + seq!['"'] + rest;
    if v.len() == 0 {
        assert(s =~= seq!['"'] + rest);
        assert(s.skip(1) =~= rest);
        assert(v =~= Seq::empty());
    } else {
        let d = v.drop_first();
        label_values_are_read_as_written(d, rest);
        let tail = escaped(d) + seq!['"'] + rest;
        let c = v[0];
        assert(s =~= escape(c) + tail);
        if c == '\\' || c == '"' || c == '\n' {
            assert(s.skip(2) =~= tail);
            assert(s[0] == '\\' && s.len() > 1);
        } else {
            assert(s.skip(1) =~= tail);
        }
        assert(seq![c] + d =~= v);
    }
}

proof fn lemma_block_of_one(l: (Seq<char>, Seq<char>), rest: Seq<char>)
    requires
        label_name(l.0),
    ensures
        metrics::written_labels(label_text(l) + rest) == seq![l] + metrics::written_labels(rest),
{
    let t = label_text(l) + rest;
    let n = l.0.len() as int;
    assert(t =~= l.0 + seq!['=', '"'] + escaped(l.1) + seq!['"'] + rest);
    assert(n > 0 ==> t[0] == l.0[0]);
    assert(t[n] == '=');
    assert(t[n + 1] == '"');
    assert(metrics::after_separators(t) == t);
    assert forall|i: int| 0 <= i < n implies t[i] != '=' by {
        assert(t[i] == l.0[i]);
    }
    text::lemma_find_char_at(t, '=', n as nat);
    assert(t.skip(n + 2) =~= escaped(l.1) + seq!['"'] + rest);
    label_values_are_read_as_written(l.1, rest);
    assert(t.take(n) =~= l.0);
}

proof fn lemma_no_labels()
    ensures
        metrics::written_labels(Seq::empty()) == Seq::<(Seq<char>, Seq<char>)>::empty(),
{
    let s = Seq::<char>::empty();
    assert(metrics::after_separators(s) == s);
}

/// Labels are read as they were written, in their order.
pub proof fn labels_are_read_as_written(l: Seq<(Seq<char>, Seq<char>)>)
    requires
        forall|i: int| 0 <= i < l.len() ==> label_name((#[trigger] l[i]).0),
    ensures
        metrics::written_labels(block_text(l)) == l,
    decreases l.len(),
{
    lemma_no_labels();
    if l.len() == 0 {
        assert(l =~= Seq::empty());
    } else {
        assert(label_name(l[0].0));
        let d = l.drop_first();
        if l.len() == 1 {
            lemma_block_of_one(l[0], Seq::empty());
            assert(label_text(l[0]) + Seq::<char>::empty() =~= label_text(l[0]));
            assert(seq![l[0]] + Seq::<(Seq<char>, Seq<char>)>::empty() =~= l);
        } else {
            assert forall|i: int| 0 <= i < d.len() implies label_name((#[trigger] d[i]).0) by {
                assert(d[i] == l[i + 1]);
                assert(label_name(l[i + 1].0));
            }
            labels_are_read_as_written(d);
            let rest = seq![','] + block_text(d);
            lemma_block_of_one(l[0], rest);
            assert(block_text(l) =~= label_text(l[0]) + rest);
            assert(rest.drop_first() =~= block_text(d));
            assert(metrics::after_separators(rest) == metrics::after_separators(block_text(d)));
            assert(metrics::written_labels(rest) == metrics::written_labels(block_text(d)));
            assert(seq![l[0]] + d =~= l);
        }
    }
}

/// The text stands in the other one, from the given position on.
spec fn stands_at(s: Seq<char>, at: int, part: Seq<char>) -> bool {
    &&& 0 <= at
    &&& at + part.len() <= s.len()
    &&& s.subrange(at, at + part.len()) == part
}

proof fn lemma_stands(s: Seq<char>, at: int, a: Seq<char>, b: Seq<char>)
    requires
        stands_at(s, at, a + b),
    ensures
        stands_at(s, at, a),
        stands_at(s, at + a.len(), b),
{
    let w = s.subrange(at, at + (a + b).len());
    assert(s.subrange(at, at + a.len()) =~= w.take(a.len() as int));
    assert(w.take(a.len() as int) =~= a);
    assert(s.subrange(at + a.len(), at + a.len() + b.len()) =~= w.skip(a.len() as int));
    assert(w.skip(a.len() as int) =~= b);
}

proof fn lemma_over_name(s: Seq<char>, at: int, n: Seq<char>)
    requires
        stands_at(s, at, n),
        forall|i: int| 0 <= i < n.len() ==> (#[trigger] n[i]) != '"' && n[i] != '}',
    ensures
        metrics::block_end(s, at, false) == metrics::block_end(s, at + n.len(), false),
    decreases n.len(),
{
    if n.len() > 0 {
        let d = n.drop_first();
        assert(n =~= seq![n[0]] + d);
        lemma_stands(s, at, seq![n[0]], d);
        assert(s[at] == n[0]) by {
            assert(s.subrange(at, at + n.len())[0] == s[at]);
        }
        assert forall|i: int| 0 <= i < d.len() implies (#[trigger] d[i]) != '"' && d[i] != '}' by {
            assert(d[i] == n[i + 1]);
        }
        lemma_over_name(s, at + 1, d);
    }
}

proof fn lemma_over_value(s: Seq<char>, at: int, v: Seq<char>)
    requires
        stands_at(s, at, escaped(v)),
    ensures
        metrics::block_end(s, at, true) == metrics::block_end(s, at + escaped(v).len(), true),
    decreases v.len(),
{
    if v.len() > 0 {
        let d = v.drop_first();
        let c = escape(v[0]);
        lemma_stands(s, at, c, escaped(d));
        assert(s[at] == c[0]) by {
            assert(s.subrange(at, at + c.len())[0] == s[at]);
        }
        lemma_over_value(s, at + c.len(), d);
    }
}

proof fn lemma_over_label(s: Seq<char>, at: int, l: (Seq<char>, Seq<char>))
    requires
        stands_at(s, at, label_text(l)),
        label_name(l.0),
    ensures
        metrics::block_end(s, at, false) == metrics::block_end(
            s,
            at + label_text(l).len(),
            false,
        ),
{
    let n = l.0;
    let e = escaped(l.1);
    let open = seq!['=', '"'];
    let close = seq!['"'];
    assert(label_text(l) =~= n + (open + (e + close)));
    lemma_stands(s, at, n, open + (e + close));
    let a = at + n.len();
    lemma_stands(s, a, open, e + close);
    lemma_stands(s, a + 2, e, close);
    lemma_over_name(s, at, n);
    assert(s[a] == '=' && s[a + 1] == '"') by {
        assert(s.subrange(a, a + 2)[0] == s[a]);
        assert(s.subrange(a, a + 2)[1] == s[a + 1]);
    }
    assert(metrics::block_end(s, a, false) == metrics::block_end(s, a + 1, false));
    assert(metrics::block_end(s, a + 1, false) == metrics::block_end(s, a + 2, true));
    lemma_over_value(s, a + 2, l.1);
    let b = a + 2 + e.len();
    assert(s[b] == '"') by {
        assert(s.subrange(b, b + 1)[0] == s[b]);
    }
}

proof fn lemma_over_block(s: Seq<char>, at: int, l: Seq<(Seq<char>, Seq<char>)>)
    requires
        stands_at(s, at, block_text(l)),
        forall|i: int| 0 <= i < l.len() ==> label_name((#[trigger] l[i]).0),
    ensures
        metrics::block_end(s, at, false) == metrics::block_end(
            s,
            at + block_text(l).len(),
            false,
        ),
    decreases l.len(),
{
    if l.len() > 0 {
        assert(label_name(l[0].0));
        let d = l.drop_first();
        let first = label_text(l[0]);
        if l.len() == 1 {
            lemma_over_label(s, at, l[0]);
        } else {
            let comma = seq![','];
            assert(block_text(l) =~= first + (comma + block_text(d)));
            lemma_stands(s, at, first, comma + block_text(d));
            let a = at + first.len();
            lemma_stands(s, a, comma, block_text(d));
            lemma_over_label(s, at, l[0]);
            assert(s[a] == ',') by {
                assert(s.subrange(a, a + 1)[0] == s[a]);
            }
            assert forall|i: int| 0 <= i < d.len() implies label_name((#[trigger] d[i]).0) by {
                assert(d[i] == l[i + 1]);
                assert(label_name(l[i + 1].0));
            }
            lemma_over_block(s, a + 1, d);
        }
    }
}

/// The field begins with the given number: a word, and behind it nothing, or white space and
/// anything, such as a timestamp.
pub open spec fn field_of(word: Seq<char>, tail: Seq<char>) -> bool {
    &&& text::is_word(word)
    &&& tail.len() > 0 ==> text::is_space(tail[0])
}

proof fn lemma_field(word: Seq<char>, tail: Seq<char>)
    requires
        field_of(word, tail),
    ensures
        metrics::value_of(seq![' '] + word + tail) == decimal::literal(word),
        metrics::value_of(word + tail) == decimal::literal(word),
{
    let s = seq![' '] + word + tail;
    let t = word + tail;
    assert(s.drop_first() =~= t);
    assert(t[0] == word[0]);
    assert(!text::is_space(word[0]));
    assert(text::trim_start(t) == t);
    assert(text::trim_start(s) == text::trim_start(s.drop_first()));
    text::lemma_word_len(t);
    let n = text::word_len(t);
    if n < word.len() {
        assert(t[n as int] == word[n as int]);
        assert(!text::is_space(word[n as int]));
    } else if n > word.len() {
        assert(t[word.len() as int] == tail[0]);
        assert(!text::is_space(t[word.len() as int]));
    }
    assert(t.take(word.len() as int) =~= word);
}

/// A record is read as it was written: its name, its labels in their canonical order, and
/// the number that its first word behind them stands for, where that is finite.
#[verifier::rlimit(40)]
pub proof fn records_are_read_as_written(
    name: Seq<char>,
    labels: Seq<(Seq<char>, Seq<char>)>,
    word: Seq<char>,
    tail: Seq<char>,
    value: Binary64,
)
    requires
        forall|i: int| 0 <= i < name.len() ==> (#[trigger] name[i]) != '{',
        forall|i: int| 0 <= i < labels.len() ==> label_name((#[trigger] labels[i]).0),
        field_of(word, tail),
        decimal::literal(word) == Some(value),
    ensures
        ({
            let line = name + seq!['{'] + block_text(labels) + seq!['}', ' '] + word + tail;
            let record = Reading { name, labels: order::sorted_labels(labels), value };
            &&& value.finite() ==> metrics::reading(line) == Some(record)
            &&& !value.finite() ==> metrics::reading(line) is None
        }),
{
    let block = block_text(labels);
    let behind = seq![' '] + word + tail;
    let line = name + seq!['{'] + block + seq!['}', ' '] + word + tail;
    let n = name.len() as int;
    assert(line =~= name + seq!['{'] + block + seq!['}'] + behind);
    assert(line[n] == '{');
    assert forall|i: int| 0 <= i < n implies line[i] != '{' by {
        assert(line[i] == name[i]);
    }
    text::lemma_find_char_at(line, '{', name.len());
    let close = n + 1 + block.len();
    assert(line.subrange(n + 1, close) =~= block);
    assert(stands_at(line, n + 1, block));
    lemma_over_block(line, n + 1, labels);
    assert(line[close] == '}');
    assert(metrics::block_end(line, n + 1, false) == Some(close));
    labels_are_read_as_written(labels);
    assert(line.take(n) =~= name);
    assert(line.skip(close + 1) =~= behind);
    lemma_field(word, tail);
}

/// A record without labels is read as it was written.
pub proof fn bare_records_are_read_as_written(
    name: Seq<char>,
    word: Seq<char>,
    tail: Seq<char>,
    value: Binary64,
)
    requires
        text::is_word(name),
        field_of(word, tail),
        decimal::literal(word) == Some(value),
        forall|i: int| 0 <= i < name.len() ==> (#[trigger] name[i]) != '{',
        forall|i: int| 0 <= i < word.len() ==> (#[trigger] word[i]) != '{',
        forall|i: int| 0 <= i < tail.len() ==> (#[trigger] tail[i]) != '{',
    ensures
        ({
            let line = name + seq![' '] + word + tail;
            let none = Seq::<(Seq<char>, Seq<char>)>::empty();
            &&& value.finite() ==> metrics::reading(line) == Some(
                Reading { name, labels: none, value },
            )
            &&& !value.finite() ==> metrics::reading(line) is None
        }),
{
    let line = name + seq![' '] + word + tail;
    let n = name.len() as int;
    assert forall|i: int| 0 <= i < line.len() implies line[i] != '{' by {
        if i < n {
            assert(line[i] == name[i]);
        } else if i == n {
            assert(line[i] == ' ');
        } else if i < n + 1 + word.len() {
            assert(line[i] == word[i - n - 1]);
        } else {
            assert(line[i] == tail[i - n - 1 - word.len()]);
        }
    }
    text::lemma_find_char_at(line, '{', line.len());
    text::lemma_word_len(line);
    let k = text::word_len(line) as int;
    assert(line[n] == ' ');
    if k < n {
        assert(line[k] == name[k]);
        assert(!text::is_space(name[k]));
    } else if k > n {
        assert(!text::is_space(line[n]));
    }
    assert(line.take(n) =~= name);
    assert(line.skip(n + 1) =~= word + tail);
    lemma_field(word, tail);
}

/// The lines of a payload are read one after the other: what stands before a line break is
/// read before what stands behind it.
pub proof fn lines_are_read_in_turn(st: State, a: Seq<char>, b: Seq<char>)
    ensures
        metrics::lines_read(st, a + seq!['\n'] + b) == (match metrics::lines_read(st, a) {
            Ok(next) => metrics::lines_read(next, b),
            Err(e) => Err(e),
        }),
    decreases a.len(),
{
    let s = a + seq!['\n'] + b;
    text::lemma_find_char(a, '\n');
    let n = text::find_char(a, '\n') as int;
    if n < a.len() {
        assert forall|i: int| 0 <= i < n implies s[i] != '\n' by {
            assert(s[i] == a[i]);
        }
        assert(s[n] == a[n]);
        text::lemma_find_char_at(s, '\n', n as nat);
        assert(s.take(n) =~= a.take(n));
        let rest = a.skip(n + 1);
        assert(s.skip(n + 1) =~= rest + seq!['\n'] + b);
        if let Ok(next) = metrics::line_read(st, a.take(n)) {
            lines_are_read_in_turn(next, rest, b);
        }
    } else {
        assert forall|i: int| 0 <= i < a.len() implies s[i] != '\n' by {
            assert(s[i] == a[i]);
        }
        assert(s[a.len() as int] == '\n');
        text::lemma_find_char_at(s, '\n', a.len());
        assert(s.take(a.len() as int) =~= a);
        assert(s.skip(a.len() as int + 1) =~= b);
    }
}

/// The payload announced the family as a histogram.
pub open spec fn histogram(st: State, name: Seq<char>) -> bool {
    let k = KeyView { name, labels: Seq::empty() };
    st.families.contains_key(k) && st.families[k]
}

/// The record is a part of an announced histogram: its name is that of the histogram and a
/// suffix.
pub open spec fn part_of_histogram(st: State, name: Seq<char>, base: Seq<char>) -> bool {
    &&& histogram(st, base)
    &&& name == base + "_bucket"@ || name == base + "_sum"@ || name == base + "_count"@
}

proof fn lemma_suffix(name: Seq<char>, suffix: Seq<char>)
    ensures
        metrics::ends_with(name, suffix) <==> name.len() >= suffix.len() && name == name.take(
            name.len() - suffix.len(),
        ) + suffix,
        metrics::ends_with(name + suffix, suffix),
        (name + suffix).take((name + suffix).len() - suffix.len()) == name,
{
    if name.len() >= suffix.len() {
        let n = name.len() - suffix.len();
        assert(name =~= name.take(n) + name.skip(n));
        if name == name.take(n) + suffix {
            assert(name.skip(n) =~= suffix) by {
                assert((name.take(n) + suffix).skip(n) =~= suffix);
            }
        }
    }
    assert((name + suffix).skip((name + suffix).len() - suffix.len()) =~= suffix);
    assert((name + suffix).take((name + suffix).len() - suffix.len()) =~= name);
}

proof fn lemma_last_chars(name: Seq<char>, suffix: Seq<char>)
    requires
        metrics::ends_with(name, suffix),
        suffix.len() > 0,
    ensures
        name.last() == suffix.last(),
{
    assert(name.skip(name.len() - suffix.len()).last() == name.last());
}

proof fn lemma_parts(base: Seq<char>)
    ensures
        metrics::part_of(base + "_bucket"@) == (metrics::Part::Bucket, base),
        metrics::part_of(base + "_sum"@) == (metrics::Part::Total, base),
        metrics::part_of(base + "_count"@) == (metrics::Part::Count, base),
{
    reveal_strlit("_bucket");
    reveal_strlit("_sum");
    reveal_strlit("_count");
    let a = base + "_bucket"@;
    let b = base + "_sum"@;
    let c = base + "_count"@;
    lemma_suffix(base, "_bucket"@);
    lemma_suffix(base, "_sum"@);
    lemma_suffix(base, "_count"@);
    assert(b.last() == 'm');
    assert(c.last() == 't');
    if metrics::ends_with(b, "_bucket"@) {
        lemma_last_chars(b, "_bucket"@);
    }
    if metrics::ends_with(c, "_bucket"@) {
        let n = c.len() - 7;
        assert(c.skip(n)[5] == c[n + 5]);
        assert(c[n + 5] == "_count"@[4]);
        assert("_bucket"@[5] == 'e');
    }
    if metrics::ends_with(c, "_sum"@) {
        lemma_last_chars(c, "_sum"@);
    }
}

/// The record belongs to no histogram that was announced.
pub open spec fn free_standing(st: State, name: Seq<char>) -> bool {
    forall|base: Seq<char>| !#[trigger] part_of_histogram(st, name, base)
}

proof fn lemma_part_of(st: State, name: Seq<char>)
    requires
        free_standing(st, name),
    ensures
        ({
            let (part, base) = metrics::part_of(name);
            part is Plain || !histogram(st, base)
        }),
{
    let (part, base) = metrics::part_of(name);
    lemma_suffix(name, "_bucket"@);
    lemma_suffix(name, "_sum"@);
    lemma_suffix(name, "_count"@);
    assert(!part_of_histogram(st, name, base));
}

/// A record that is no part of an announced histogram is a series of its own, under its full
/// name and all its labels: it takes the value read, in place of an earlier one, and nothing
/// else changes.
pub proof fn series_take_their_last_reading(st: State, r: Reading)
    requires
        free_standing(st, r.name),
        metrics::recorded(st, r) is Ok,
    ensures
        ({
            let next = metrics::recorded(st, r)->Ok_0;
            let key = KeyView { name: r.name, labels: r.labels };
            &&& next.simple.contains_key(key)
            &&& next.simple[key] == r.value
            &&& forall|k: KeyView|
                k != key ==> (#[trigger] next.simple.contains_key(k) <==> st.simple.contains_key(k))
                    && next.simple[k] == st.simple[k]
            &&& next.hists == st.hists
            &&& next.families == st.families
        }),
{
    lemma_part_of(st, r.name);
}

/// A bucket of an announced histogram is counted at its bound, under the name of the
/// histogram and its labels but the bound; a count is how often the histogram was observed;
/// a sum adds nothing. Nothing else changes.
pub proof fn histograms_take_their_records(st: State, r: Reading, base: Seq<char>)
    requires
        histogram(st, base),
        metrics::recorded(st, r) is Ok,
        part_of_histogram(st, r.name, base),
    ensures
        ({
            let next = metrics::recorded(st, r)->Ok_0;
            let key = KeyView {
                name: base,
                labels: r.labels.filter(|l: (Seq<char>, Seq<char>)| l.0 != "le"@),
            };
            let had = if st.hists.contains_key(key) {
                st.hists[key]
            } else {
                LadderView { buckets: Seq::empty(), count: 0 }
            };
            &&& next.simple == st.simple
            &&& next.families == st.families
            &&& next.hists.contains_key(key)
            &&& forall|k: KeyView|
                k != key ==> (#[trigger] next.hists.contains_key(k) <==> st.hists.contains_key(k))
                    && next.hists[k] == st.hists[k]
            &&& r.name == base + "_sum"@ ==> next.hists[key] == had
            &&& r.name == base + "_count"@ ==> next.hists[key].buckets == had.buckets
                && next.hists[key].count == metrics::counted(r.value)
            &&& r.name == base + "_bucket"@ ==> next.hists[key].count == had.count
            &&& r.name == base + "_bucket"@ && metrics::bound_of(r.labels) is Some
                ==> next.hists[key].buckets == had.buckets.push(
                (metrics::bound_of(r.labels)->0, r.value),
            )
            &&& r.name == base + "_bucket"@ && metrics::bound_of(r.labels) is None
                ==> next.hists[key].buckets == had.buckets
        }),
{
    lemma_parts(base);
}

/// A whole number is counted as it is.
pub proof fn whole_numbers_are_counted_as_they_are(n: nat)
    requires
        n < rounding::SIGNIFICAND_END,
    ensures
        metrics::counted(binary64::integer(n)) == n,
{
    accuracy::small_integers_are_exact(n);
    accuracy::integers_keep_order(0, n);
    lemma_pow2_pos(1074);
    lemma_div_multiples_vanish(n as int, pow2(1074) as int);
    assert(pow2(1074) * n == n * pow2(1074)) by (nonlinear_arith);
}

/// A histogram holds every bucket that was read of it, each as often, in the order of their
/// bounds, and its count.
pub proof fn histograms_keep_every_bucket(l: LadderView)
    requires
        metrics::sound_ladder(l.buckets),
    ensures
        ({
            let h = metrics::ladder_series(l);
            let rungs = Seq::new(h.le.len(), |i: int| (h.le[i], h.counts[i]));
            &&& h.le.len() == h.counts.len()
            &&& h.count == l.count
            &&& rungs.to_multiset() == l.buckets.to_multiset()
            &&& forall|i: int, j: int|
                0 <= i < j < h.le.len() ==> !binary64::less(#[trigger] h.le[j], #[trigger] h.le[i])
        }),
{
    let b = l.buckets;
    assert(order::ordered(b)) by {
        assert forall|m: int| 0 <= m < b.len() implies !(#[trigger] b[m]).0.nan() by {
            assert(metrics::usable_bound(b[m].0));
        }
    }
    order::arranging_sorts(b);
    let h = metrics::ladder_series(l);
    let rungs = Seq::new(h.le.len(), |i: int| (h.le[i], h.counts[i]));
    assert(rungs =~= order::arranged(b));
    assert forall|i: int, j: int| 0 <= i < j < h.le.len() implies !binary64::less(
        #[trigger] h.le[j],
        #[trigger] h.le[i],
    ) by {
        assert(!binary64::less(order::arranged(b)[j].0, order::arranged(b)[i].0));
    }
}

/// The bound of a bucket is the number in its `le` label, where that is a number that can
/// bound anything: finite, or positive infinity.
pub proof fn bounds_are_read_from_their_label(
    labels: Seq<(Seq<char>, Seq<char>)>,
    i: int,
    word: Seq<char>,
    value: Binary64,
)
    requires
        0 <= i < labels.len(),
        labels[i] == ("le"@, word),
        forall|j: int| 0 <= j < i ==> (#[trigger] labels[j]).0 != "le"@,
        text::is_word(word),
        decimal::literal(word) == Some(value),
    ensures
        value.finite() || (value.infinite() && !value.negative()) ==> metrics::bound_of(labels)
            == Some(value),
        value.nan() || (value.infinite() && value.negative()) ==> metrics::bound_of(labels) is None,
{
    lemma_first_label(labels, i);
    lemma_field(word, Seq::empty());
    assert(word + Seq::<char>::empty() =~= word);
}

/// The first label of a name is the one that its name finds.
pub proof fn lemma_first_label(labels: Seq<(Seq<char>, Seq<char>)>, i: int)
    requires
        0 <= i < labels.len(),
        forall|j: int| 0 <= j < i ==> (#[trigger] labels[j]).0 != labels[i].0,
    ensures
        metrics::label_value(labels, labels[i].0) == Some(labels[i].1),
    decreases i,
{
    if i > 0 {
        let d = labels.drop_first();
        assert(labels[0].0 != labels[i].0);
        assert(d[i - 1] == labels[i]);
        assert forall|j: int| 0 <= j < i - 1 implies (#[trigger] d[j]).0 != d[i - 1].0 by {
            assert(d[j] == labels[j + 1]);
        }
        lemma_first_label(d, i - 1);
    }
}

/// A payload is rejected by a record exactly where the record makes it hold more than 16384
/// series, or a histogram more than 256 buckets.
pub proof fn payloads_are_rejected_over_their_caps(st: State, r: Reading, base: Seq<char>)
    requires
        st.simple.dom().finite(),
        st.hists.dom().finite(),
        st.simple.dom().len() + st.hists.dom().len() <= 16_384,
        free_standing(st, r.name) || part_of_histogram(st, r.name, base),
    ensures
        ({
            let plain = KeyView { name: r.name, labels: r.labels };
            let key = KeyView {
                name: base,
                labels: r.labels.filter(|l: (Seq<char>, Seq<char>)| l.0 != "le"@),
            };
            let full = st.simple.dom().len() + st.hists.dom().len() == 16_384;
            let long = r.name == base + "_bucket"@ && st.hists.contains_key(key)
                && st.hists[key].buckets.len() >= 256;
            &&& free_standing(st, r.name) ==> (metrics::recorded(st, r) is Err <==> full
                && !st.simple.contains_key(plain))
            &&& part_of_histogram(st, r.name, base) ==> (metrics::recorded(st, r) is Err <==> long
                || (full && !st.hists.contains_key(key)))
        }),
{
    let plain = KeyView { name: r.name, labels: r.labels };
    let key = KeyView { name: base, labels: metrics::without_bound(r.labels) };
    if part_of_histogram(st, r.name, base) {
        lemma_parts(base);
        let any = LadderView { buckets: Seq::empty(), count: 0 };
        let (part, b) = metrics::part_of(r.name);
        let had = if st.hists.contains_key(key) {
            st.hists[key]
        } else {
            any
        };
        let next = st.hists.insert(key, metrics::grown(had, part, r));
        assert(next.dom() =~= st.hists.dom().insert(key));
    } else {
        lemma_part_of(st, r.name);
        let next = st.simple.insert(plain, r.value);
        assert(next.dom() =~= st.simple.dom().insert(plain));
    }
}

proof fn lemma_words(w: Seq<char>, rest: Seq<char>)
    requires
        text::is_word(w),
    ensures
        text::words(w) == seq![w],
        text::words(w + seq![' '] + rest) == seq![w] + text::words(rest),
{
    let s = w + seq![' '] + rest;
    assert(!text::is_space(w[0]));
    assert(s[0] == w[0]);
    text::lemma_word_len(s);
    text::lemma_word_len(w);
    let n = text::word_len(s) as int;
    assert(s[w.len() as int] == ' ');
    if n < w.len() {
        assert(s[n] == w[n]);
        assert(!text::is_space(w[n]));
    } else if n > w.len() {
        assert(!text::is_space(s[w.len() as int]));
    }
    let m = text::word_len(w) as int;
    if m < w.len() {
        assert(!text::is_space(w[m]));
    }
    assert(s.take(n) =~= w);
    assert(w.take(m) =~= w);
    assert(w.skip(m) =~= Seq::empty());
    assert(text::words(w.skip(m)) =~= Seq::empty());
    assert(seq![w] + Seq::<Seq<char>>::empty() =~= seq![w]);
    let t = s.skip(n);
    assert(t =~= seq![' '] + rest);
    assert(t.drop_first() =~= rest);
    assert(text::trim_start(t) == text::trim_start(rest));
    assert(text::words(t) == text::words(rest));
}

/// A header announces its family: as a histogram where it says so, as none where it says
/// anything else. It changes nothing else.
pub proof fn headers_announce_their_family(st: State, name: Seq<char>, kind: Seq<char>)
    requires
        text::is_word(name),
        text::is_word(kind),
    ensures
        ({
            let line = "# TYPE "@ + name + seq![' '] + kind;
            let next = metrics::line_read(st, line)->Ok_0;
            &&& metrics::line_read(st, line) is Ok
            &&& histogram(next, name) <==> kind == "histogram"@
            &&& forall|other: Seq<char>|
                other != name ==> (#[trigger] histogram(next, other) <==> histogram(st, other))
            &&& next.simple == st.simple
            &&& next.hists == st.hists
        }),
{
    reveal_strlit("# TYPE ");
    reveal_strlit("TYPE");
    let line = "# TYPE "@ + name + seq![' '] + kind;
    assert(line[0] == '#' && line[1] == ' ');
    assert(line.last() == kind.last());
    assert(!text::is_space(kind[kind.len() - 1]));
    assert(text::trim_start(line) == line);
    assert(text::trim_end(line) == line);
    let rest = name + seq![' '] + kind;
    assert(line.skip(2) =~= "TYPE"@ + seq![' '] + rest);
    assert(text::is_word("TYPE"@));
    lemma_words("TYPE"@, rest);
    lemma_words(name, kind);
    lemma_words(kind, Seq::empty());
    let w = text::words(line.skip(2));
    assert(w =~= seq!["TYPE"@, name, kind]);
    let next = metrics::line_read(st, line)->Ok_0;
    assert forall|other: Seq<char>| other != name implies (#[trigger] histogram(next, other)
        <==> histogram(st, other)) by {
        let a = KeyView { name, labels: Seq::<(Seq<char>, Seq<char>)>::empty() };
        let b = KeyView { name: other, labels: Seq::<(Seq<char>, Seq<char>)>::empty() };
        assert(a.name != b.name);
    }
}

} // verus!
