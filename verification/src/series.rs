//! Series keys, their order, and maps from keys to readings.

use vstd::prelude::*;
use vstd::string::*;

use crate::text;
use crate::text::{same_text, text_less};

verus! {

/// Identity of one time series: metric family name and its sorted labels.
/// For histograms, the `le` label is stripped from bucket samples and the
/// `_sum` and `_count` suffixes are folded into the parent series key.
#[derive(Debug, Clone, PartialEq, Eq, PartialOrd, Ord, Hash)]
pub struct SeriesKey {
    pub name: String,
    pub labels: Vec<(String, String)>,
}

/// What a series key stands for: a name and labels as text.
pub struct KeyView {
    pub name: Seq<char>,
    pub labels: Seq<(Seq<char>, Seq<char>)>,
}

/// A label as text.
pub open spec fn label_view(l: (String, String)) -> (Seq<char>, Seq<char>) {
    (l.0@, l.1@)
}

/// A list of labels as text.
pub open spec fn labels_view(l: Seq<(String, String)>) -> Seq<(Seq<char>, Seq<char>)> {
    l.map_values(|p: (String, String)| label_view(p))
}

impl View for SeriesKey {
    type V = KeyView;

    open spec fn view(&self) -> KeyView {
        KeyView { name: self.name@, labels: labels_view(self.labels@) }
    }
}

impl KeyView {
    /// The key carries the label.
    pub open spec fn has_label(self, k: Seq<char>, v: Seq<char>) -> bool {
        self.labels.contains((k, v))
    }
}

/// The order of labels: by name, then by value.
pub open spec fn label_before(a: (Seq<char>, Seq<char>), b: (Seq<char>, Seq<char>)) -> bool {
    text::before(a.0, b.0) || (a.0 == b.0 && text::before(a.1, b.1))
}

/// Lexicographic order of lists of labels.
pub open spec fn labels_before(
    a: Seq<(Seq<char>, Seq<char>)>,
    b: Seq<(Seq<char>, Seq<char>)>,
) -> bool
    decreases a.len(),
{
    if b.len() == 0 {
        false
    } else if a.len() == 0 {
        true
    } else if a[0] != b[0] {
        label_before(a[0], b[0])
    } else {
        labels_before(a.drop_first(), b.drop_first())
    }
}

/// The order of keys: by name, then by labels.
pub open spec fn key_before(a: KeyView, b: KeyView) -> bool {
    text::before(a.name, b.name) || (a.name == b.name && labels_before(a.labels, b.labels))
}

/// Labels are totally ordered.
pub proof fn lemma_label_order(
    a: (Seq<char>, Seq<char>),
    b: (Seq<char>, Seq<char>),
    c: (Seq<char>, Seq<char>),
)
    ensures
        !label_before(a, a),
        label_before(a, b) && label_before(b, c) ==> label_before(a, c),
        label_before(a, b) || label_before(b, a) || a == b,
        label_before(a, b) ==> !label_before(b, a),
{
    text::lemma_before_irreflexive(a.0);
    text::lemma_before_irreflexive(a.1);
    text::lemma_before_total(a.0, b.0);
    text::lemma_before_total(a.1, b.1);
    if label_before(a, b) && label_before(b, c) {
        if text::before(a.0, b.0) && text::before(b.0, c.0) {
            text::lemma_before_transitive(a.0, b.0, c.0);
        }
        if a.0 == b.0 && b.0 == c.0 {
            text::lemma_before_transitive(a.1, b.1, c.1);
        }
    }
    if label_before(a, b) && label_before(b, a) {
        if text::before(a.0, b.0) && text::before(b.0, a.0) {
            text::lemma_before_transitive(a.0, b.0, a.0);
        }
        if a.0 == b.0 {
            text::lemma_before_irreflexive(b.0);
            text::lemma_before_transitive(a.1, b.1, a.1);
        }
    }
}

proof fn lemma_labels_irreflexive(a: Seq<(Seq<char>, Seq<char>)>)
    ensures
        !labels_before(a, a),
    decreases a.len(),
{
    if a.len() > 0 {
        lemma_labels_irreflexive(a.drop_first());
    }
}

proof fn lemma_labels_transitive(
    a: Seq<(Seq<char>, Seq<char>)>,
    b: Seq<(Seq<char>, Seq<char>)>,
    c: Seq<(Seq<char>, Seq<char>)>,
)
    requires
        labels_before(a, b),
        labels_before(b, c),
    ensures
        labels_before(a, c),
    decreases a.len(),
{
    if a.len() > 0 {
        lemma_label_order(a[0], b[0], c[0]);
        if a[0] == b[0] && b[0] == c[0] {
            lemma_labels_transitive(a.drop_first(), b.drop_first(), c.drop_first());
        } else if a[0] == c[0] {
            lemma_label_order(b[0], c[0], b[0]);
        }
    }
}

proof fn lemma_labels_total(a: Seq<(Seq<char>, Seq<char>)>, b: Seq<(Seq<char>, Seq<char>)>)
    ensures
        labels_before(a, b) || labels_before(b, a) || a == b,
    decreases a.len(),
{
    if a.len() > 0 && b.len() > 0 {
        lemma_label_order(a[0], b[0], a[0]);
        if a[0] == b[0] {
            lemma_labels_total(a.drop_first(), b.drop_first());
            if a.drop_first() == b.drop_first() {
                assert(a =~= seq![a[0]] + a.drop_first());
                assert(b =~= seq![b[0]] + b.drop_first());
            }
        }
    } else if a.len() == 0 && b.len() == 0 {
        assert(a =~= b);
    }
}

/// Keys are totally ordered.
pub proof fn lemma_key_order(a: KeyView, b: KeyView, c: KeyView)
    ensures
        !key_before(a, a),
        key_before(a, b) && key_before(b, c) ==> key_before(a, c),
        key_before(a, b) || key_before(b, a) || a == b,
        key_before(a, b) ==> !key_before(b, a),
{
    text::lemma_before_irreflexive(a.name);
    lemma_labels_irreflexive(a.labels);
    text::lemma_before_total(a.name, b.name);
    lemma_labels_total(a.labels, b.labels);
    if key_before(a, b) && key_before(b, c) {
        if text::before(a.name, b.name) && text::before(b.name, c.name) {
            text::lemma_before_transitive(a.name, b.name, c.name);
        }
        if a.name == b.name && b.name == c.name {
            lemma_labels_transitive(a.labels, b.labels, c.labels);
        }
    }
    if key_before(a, b) && key_before(b, a) {
        if text::before(a.name, b.name) && text::before(b.name, a.name) {
            text::lemma_before_transitive(a.name, b.name, a.name);
        }
        if a.name == b.name {
            text::lemma_before_irreflexive(b.name);
            lemma_labels_transitive(a.labels, b.labels, a.labels);
        }
    }
}

/// Whether one label comes before another.
pub fn label_less(a: &(String, String), b: &(String, String)) -> (r: bool)
    ensures
        r == label_before(label_view(*a), label_view(*b)),
{
    if text_less(a.0.as_str(), b.0.as_str()) {
        true
    } else if same_text(a.0.as_str(), b.0.as_str()) {
        text_less(a.1.as_str(), b.1.as_str())
    } else {
        false
    }
}

fn same_label(a: &(String, String), b: &(String, String)) -> (r: bool)
    ensures
        r == (label_view(*a) == label_view(*b)),
{
    same_text(a.0.as_str(), b.0.as_str()) && same_text(a.1.as_str(), b.1.as_str())
}

fn labels_less(a: &Vec<(String, String)>, b: &Vec<(String, String)>) -> (r: bool)
    ensures
        r == labels_before(labels_view(a@), labels_view(b@)),
{
    let ghost x = labels_view(a@);
    let ghost y = labels_view(b@);
    let mut i: usize = 0;
    assert(x.skip(0) =~= x);
    assert(y.skip(0) =~= y);
    while i < a.len() && i < b.len()
        invariant
            i <= a@.len(),
            i <= b@.len(),
            x == labels_view(a@),
            y == labels_view(b@),
            labels_before(x, y) == labels_before(x.skip(i as int), y.skip(i as int)),
        decreases a@.len() - i,
    {
        assert(x.skip(i as int)[0] == label_view(a@[i as int]));
        assert(y.skip(i as int)[0] == label_view(b@[i as int]));
        if !same_label(&a[i], &b[i]) {
            return label_less(&a[i], &b[i]);
        }
        assert(x.skip(i as int).drop_first() =~= x.skip(i + 1));
        assert(y.skip(i as int).drop_first() =~= y.skip(i + 1));
        i += 1;
    }
    i < b.len()
}

impl SeriesKey {
    /// Whether the key carries the label `k` with the value `v`.
    pub fn has_label(&self, k: &str, v: &str) -> (r: bool)
        ensures
            r == self@.has_label(k@, v@),
    {
        let mut i: usize = 0;
        while i < self.labels.len()
            invariant
                i <= self.labels@.len(),
                forall|j: int| 0 <= j < i ==> self@.labels[j] != (k@, v@),
            decreases self.labels@.len() - i,
        {
            assert(self@.labels[i as int] == label_view(self.labels@[i as int]));
            if same_text(self.labels[i].0.as_str(), k) && same_text(self.labels[i].1.as_str(), v) {
                assert(self@.labels.contains((k@, v@)));
                return true;
            }
            i += 1;
        }
        assert(!self@.labels.contains((k@, v@)));
        false
    }

    /// Whether the key comes before another one.
    pub fn less(&self, other: &SeriesKey) -> (r: bool)
        ensures
            r == key_before(self@, other@),
    {
        if text_less(self.name.as_str(), other.name.as_str()) {
            true
        } else if same_text(self.name.as_str(), other.name.as_str()) {
            labels_less(&self.labels, &other.labels)
        } else {
            false
        }
    }

    /// The key in exposition form, without escaping label values: the family name,
    /// followed by `{k="v",...}` where there are labels, so that families that differ
    /// in labels can be told apart.
    pub fn render(&self) -> (s: String)
        ensures
            s@ == key_text(self@),
    {
        let mut s: String = self.name.clone();
        let ghost labels = self@.labels;
        let mut i: usize = 0;
        assert(labels.take(0) =~= Seq::empty());
        assert(s@ =~= self@.name + labels_text(labels.take(0)));
        while i < self.labels.len()
            invariant
                i <= self.labels@.len(),
                labels == self@.labels,
                s@ == self@.name + labels_text(labels.take(i as int)),
            decreases self.labels@.len() - i,
        {
            let ghost before = s@;
            s.push(if i == 0 { '{' } else { ',' });
            s.append(self.labels[i].0.as_str());
            s.append("=\"");
            s.append(self.labels[i].1.as_str());
            s.push('"');
            i += 1;
            proof {
                let t = labels.take(i as int);
                assert(t.drop_last() =~= labels.take(i - 1));
                assert(t.last() == label_view(self.labels@[i - 1]));
                assert(s@ =~= self@.name + labels_text(t));
            }
        }
        assert(labels.take(labels.len() as int) =~= labels);
        if self.labels.len() > 0 {
            s.push('}');
        }
        assert(s@ =~= key_text(self@));
        s
    }
}

/// The labels of a key as text, with the opening brace.
pub open spec fn labels_text(l: Seq<(Seq<char>, Seq<char>)>) -> Seq<char>
    decreases l.len(),
{
    if l.len() == 0 {
        Seq::empty()
    } else {
        (labels_text(l.drop_last()).push(if l.len() == 1 { '{' } else { ',' }) + l.last().0 + "=\""@
            + l.last().1).push('"')
    }
}

/// A key as text.
pub open spec fn key_text(k: KeyView) -> Seq<char> {
    if k.labels.len() == 0 {
        k.name
    } else {
        (k.name + labels_text(k.labels)).push('}')
    }
}

/// A key whose text can be read back: no brace in its name, no equals sign in a label's
/// name and no quote in a label's value.
pub open spec fn legible(k: KeyView) -> bool {
    &&& !k.name.contains('{')
    &&& forall|i: int| 0 <= i < k.labels.len() ==> legible_label(#[trigger] k.labels[i])
}

/// A label whose text can be read back.
pub open spec fn legible_label(l: (Seq<char>, Seq<char>)) -> bool {
    !l.0.contains('=') && !l.1.contains('"')
}

/// The labels of a key as text, without the opening brace, from the first one on.
spec fn labels_tail(l: Seq<(Seq<char>, Seq<char>)>) -> Seq<char>
    decreases l.len(),
{
    if l.len() == 0 {
        seq!['}']
    } else {
        l[0].0 + "=\""@ + l[0].1 + seq!['"'] + (if l.len() == 1 {
            seq!['}']
        } else {
            seq![','] + labels_tail(l.drop_first())
        })
    }
}

proof fn lemma_labels_tail(l: Seq<(Seq<char>, Seq<char>)>, n: int)
    requires
        0 <= n < l.len(),
    ensures
        labels_text(l).push('}') == labels_text(l.take(n)) + seq![
            if n == 0 {
                '{'
            } else {
                ','
            },
        ] + labels_tail(l.skip(n)),
    decreases l.len() - n,
{
    let t = l.skip(n);
    let head = l.take(n + 1);
    assert(head.drop_last() =~= l.take(n));
    assert(head.last() == l[n]);
    assert(t[0] == l[n]);
    assert(t.drop_first() =~= l.skip(n + 1));
    if n + 1 == l.len() {
        assert(head =~= l);
        assert(labels_text(l).push('}') =~= labels_text(l.take(n)) + seq![
            if n == 0 {
                '{'
            } else {
                ','
            },
        ] + labels_tail(t));
    } else {
        lemma_labels_tail(l, n + 1);
        assert(labels_text(head) + seq![','] + labels_tail(l.skip(n + 1)) =~= labels_text(l.take(n))
            + seq![
            if n == 0 {
                '{'
            } else {
                ','
            },
        ] + labels_tail(t));
    }
}

/// Texts that begin with parts free of `c`, each followed by `c`, begin with equal parts.
proof fn lemma_same_part(a: Seq<char>, x: Seq<char>, b: Seq<char>, y: Seq<char>, c: char)
    requires
        a + x == b + y,
        !a.contains(c),
        !b.contains(c),
        x.len() > 0,
        y.len() > 0,
        x[0] == c,
        y[0] == c,
    ensures
        a == b,
        x == y,
{
    let s = a + x;
    assert(s[a.len() as int] == c);
    assert((b + y)[b.len() as int] == c);
    if a.len() < b.len() {
        assert(s[a.len() as int] == b[a.len() as int]);
        assert(b.contains(c));
    } else if b.len() < a.len() {
        assert((b + y)[b.len() as int] == a[b.len() as int]);
        assert(a.contains(c));
    }
    assert(a =~= s.take(a.len() as int));
    assert(b =~= (b + y).take(b.len() as int));
    assert(x =~= s.skip(a.len() as int));
    assert(y =~= (b + y).skip(b.len() as int));
}

proof fn lemma_tail_injective(a: Seq<(Seq<char>, Seq<char>)>, b: Seq<(Seq<char>, Seq<char>)>)
    requires
        a.len() > 0,
        b.len() > 0,
        forall|i: int| 0 <= i < a.len() ==> legible_label(#[trigger] a[i]),
        forall|i: int| 0 <= i < b.len() ==> legible_label(#[trigger] b[i]),
        labels_tail(a) == labels_tail(b),
    ensures
        a == b,
    decreases a.len(),
{
    reveal_strlit("=\"");
    let eq = "=\""@;
    let after = |l: Seq<(Seq<char>, Seq<char>)>|
        if l.len() == 1 {
            seq!['}']
        } else {
            seq![','] + labels_tail(l.drop_first())
        };
    let va = a[0].1 + (seq!['"'] + after(a));
    let vb = b[0].1 + (seq!['"'] + after(b));
    assert(legible_label(a[0]) && legible_label(b[0]));
    assert(labels_tail(a) =~= a[0].0 + (eq + va));
    assert(labels_tail(b) =~= b[0].0 + (eq + vb));
    assert((eq + va)[0] == '=' && (eq + vb)[0] == '=');
    lemma_same_part(a[0].0, eq + va, b[0].0, eq + vb, '=');
    assert(va =~= (eq + va).skip(2));
    assert(vb =~= (eq + vb).skip(2));
    lemma_same_part(a[0].1, seq!['"'] + after(a), b[0].1, seq!['"'] + after(b), '"');
    let ra = after(a);
    let rb = after(b);
    assert(ra =~= (seq!['"'] + ra).skip(1));
    assert(rb =~= (seq!['"'] + rb).skip(1));
    assert(ra[0] == (if a.len() == 1 {
        '}'
    } else {
        ','
    }));
    assert(rb[0] == (if b.len() == 1 {
        '}'
    } else {
        ','
    }));
    if a.len() > 1 {
        let da = a.drop_first();
        let db = b.drop_first();
        assert(labels_tail(da) =~= ra.skip(1));
        assert(labels_tail(db) =~= rb.skip(1));
        assert forall|i: int| 0 <= i < da.len() implies legible_label(#[trigger] da[i]) by {
            assert(da[i] == a[i + 1]);
        }
        assert forall|i: int| 0 <= i < db.len() implies legible_label(#[trigger] db[i]) by {
            assert(db[i] == b[i + 1]);
        }
        lemma_tail_injective(da, db);
        assert(a =~= seq![a[0]] + da);
        assert(b =~= seq![b[0]] + db);
    } else {
        assert(a =~= seq![a[0]]);
        assert(b =~= seq![b[0]]);
    }
}

/// Different keys have different texts, so that families that differ in labels can be
/// told apart.
pub proof fn texts_tell_keys_apart(a: KeyView, b: KeyView)
    requires
        legible(a),
        legible(b),
        key_text(a) == key_text(b),
    ensures
        a == b,
{
    let la = labels_text(a.labels).push('}');
    let lb = labels_text(b.labels).push('}');
    if a.labels.len() > 0 {
        lemma_labels_tail(a.labels, 0);
        assert(a.labels.take(0) =~= Seq::empty());
        assert(a.labels.skip(0) =~= a.labels);
        assert(la =~= seq!['{'] + labels_tail(a.labels));
        assert(key_text(a) =~= a.name + la);
    }
    if b.labels.len() > 0 {
        lemma_labels_tail(b.labels, 0);
        assert(b.labels.take(0) =~= Seq::empty());
        assert(b.labels.skip(0) =~= b.labels);
        assert(lb =~= seq!['{'] + labels_tail(b.labels));
        assert(key_text(b) =~= b.name + lb);
    }
    if a.labels.len() > 0 && b.labels.len() > 0 {
        lemma_same_part(a.name, la, b.name, lb, '{');
        assert(labels_tail(a.labels) =~= la.skip(1));
        assert(labels_tail(b.labels) =~= lb.skip(1));
        lemma_tail_injective(a.labels, b.labels);
    } else if a.labels.len() > 0 {
        assert(key_text(a)[a.name.len() as int] == '{');
        assert(b.name.contains('{'));
    } else if b.labels.len() > 0 {
        assert(key_text(b)[b.name.len() as int] == '{');
        assert(a.name.contains('{'));
    } else {
        assert(a.labels =~= b.labels);
    }
}

/// A map from keys to values of one kind, walked in ascending order of the keys.
#[derive(Debug, Clone)]
pub struct SeriesMap<T> {
    entries: Vec<(SeriesKey, T)>,
}

impl<T> View for SeriesMap<T> {
    type V = Seq<(KeyView, T)>;

    closed spec fn view(&self) -> Seq<(KeyView, T)> {
        self.entries@.map_values(|e: (SeriesKey, T)| (e.0@, e.1))
    }
}

/// The keys ascend strictly.
pub open spec fn ascending<T>(s: Seq<(KeyView, T)>) -> bool {
    forall|i: int, j: int| 0 <= i < j < s.len() ==> key_before(#[trigger] s[i].0, #[trigger] s[j].0)
}

/// The value that a sequence of entries gives a key.
pub open spec fn lookup<T>(s: Seq<(KeyView, T)>, k: KeyView) -> Option<T> {
    if exists|i: int| 0 <= i < s.len() && s[i].0 == k {
        Some(s[choose|i: int| 0 <= i < s.len() && s[i].0 == k].1)
    } else {
        None
    }
}

/// The map that a sequence of entries stands for.
pub open spec fn as_map<T>(s: Seq<(KeyView, T)>) -> Map<KeyView, T> {
    Map::new(|k: KeyView| lookup(s, k) is Some, |k: KeyView| lookup(s, k)->0)
}

/// In ascending entries, the entry at hand is the one that its key finds.
pub proof fn lemma_lookup_at<T>(s: Seq<(KeyView, T)>, i: int)
    requires
        ascending(s),
        0 <= i < s.len(),
    ensures
        lookup(s, s[i].0) == Some(s[i].1),
{
    let k = s[i].0;
    let j = choose|j: int| 0 <= j < s.len() && s[j].0 == k;
    lemma_key_order(s[i].0, s[j].0, s[i].0);
    if j < i {
        assert(key_before(s[j].0, s[i].0));
    } else if i < j {
        assert(key_before(s[i].0, s[j].0));
    }
}

impl<T> SeriesMap<T> {
    pub open spec fn wf(&self) -> bool {
        ascending(self@)
    }

    /// The map without its order.
    pub open spec fn map(&self) -> Map<KeyView, T> {
        as_map(self@)
    }

    /// A map without entries.
    pub fn new() -> (m: SeriesMap<T>)
        ensures
            m.wf(),
            m@ == Seq::<(KeyView, T)>::empty(),
            m.map() == Map::<KeyView, T>::empty(),
    {
        let m: SeriesMap<T> = SeriesMap { entries: Vec::new() };
        assert(m@ =~= Seq::empty());
        assert(m.map() =~= Map::empty());
        m
    }

    /// The number of entries.
    pub fn len(&self) -> (n: usize)
        ensures
            n == self@.len(),
    {
        self.entries.len()
    }

    /// The key of the entry at `i`, in ascending order.
    pub fn key_at(&self, i: usize) -> (k: &SeriesKey)
        requires
            i < self@.len(),
        ensures
            k@ == self@[i as int].0,
    {
        &self.entries[i].0
    }

    /// The value of the entry at `i`, in ascending order of keys.
    pub fn value_at(&self, i: usize) -> (v: &T)
        requires
            i < self@.len(),
        ensures
            *v == self@[i as int].1,
    {
        &self.entries[i].1
    }

    /// How many keys come before `k`.
    fn rank(&self, k: &SeriesKey) -> (n: usize)
        requires
            self.wf(),
        ensures
            n <= self@.len(),
            forall|i: int| 0 <= i < n ==> key_before((#[trigger] self@[i]).0, k@),
            forall|i: int| n <= i < self@.len() ==> !key_before((#[trigger] self@[i]).0, k@),
    {
        let mut lo: usize = 0;
        let mut hi: usize = self.entries.len();
        while lo < hi
            invariant
                lo <= hi <= self@.len(),
                self.wf(),
                self@.len() == self.entries@.len(),
                forall|i: int| 0 <= i < lo ==> key_before((#[trigger] self@[i]).0, k@),
                forall|i: int| hi <= i < self@.len() ==> !key_before((#[trigger] self@[i]).0, k@),
            decreases hi - lo,
        {
            let mid: usize = lo + (hi - lo) / 2;
            assert(self@[mid as int].0 == self.entries@[mid as int].0@);
            if self.entries[mid].0.less(k) {
                assert forall|i: int| 0 <= i < mid + 1 implies key_before(
                    (#[trigger] self@[i]).0,
                    k@,
                ) by {
                    if i < mid {
                        assert(key_before(self@[i].0, self@[mid as int].0));
                        lemma_key_order(self@[i].0, self@[mid as int].0, k@);
                    }
                }
                lo = mid + 1;
            } else {
                assert forall|i: int| mid <= i < self@.len() implies !key_before(
                    (#[trigger] self@[i]).0,
                    k@,
                ) by {
                    if i > mid && key_before(self@[i].0, k@) {
                        assert(key_before(self@[mid as int].0, self@[i].0));
                        lemma_key_order(self@[mid as int].0, self@[i].0, k@);
                    }
                }
                hi = mid;
            }
        }
        lo
    }

    /// The position of a key, where the map has it.
    pub fn find(&self, k: &SeriesKey) -> (r: Option<usize>)
        requires
            self.wf(),
        ensures
            r is Some ==> r->0 < self@.len() && self@[r->0 as int].0 == k@ && lookup(self@, k@)
                == Some(self@[r->0 as int].1),
            r is None ==> lookup(self@, k@) is None,
    {
        let n: usize = self.rank(k);
        if n < self.entries.len() && !k.less(&self.entries[n].0) {
            proof {
                assert(self@[n as int].0 == self.entries@[n as int].0@);
                lemma_key_order(self@[n as int].0, k@, k@);
                lemma_lookup_at(self@, n as int);
            }
            Some(n)
        } else {
            proof {
                assert forall|i: int| 0 <= i < self@.len() implies self@[i].0 != k@ by {
                    lemma_key_order(self@[i].0, k@, k@);
                    lemma_key_order(k@, k@, k@);
                    if i < n {
                        assert(key_before(self@[i].0, k@));
                    } else {
                        assert(self@[n as int].0 == self.entries@[n as int].0@);
                        if i > n {
                            assert(key_before(self@[n as int].0, self@[i].0));
                            lemma_key_order(k@, self@[n as int].0, self@[i].0);
                        }
                    }
                }
            }
            None
        }
    }

    /// The value of a key, where the map has it.
    pub fn get(&self, k: &SeriesKey) -> (r: Option<&T>)
        requires
            self.wf(),
        ensures
            r is Some <==> lookup(self@, k@) is Some,
            r is Some ==> *r->0 == lookup(self@, k@)->0,
    {
        match self.find(k) {
            Some(n) => Some(&self.entries[n].1),
            None => None,
        }
    }

    /// Gives a key a value, replacing the one that it had.
    pub fn insert(&mut self, k: SeriesKey, v: T)
        requires
            old(self).wf(),
        ensures
            final(self).wf(),
            final(self).map() == old(self).map().insert(k@, v),
            final(self)@.len() == (if lookup(old(self)@, k@) is Some {
                old(self)@.len()
            } else {
                old(self)@.len() + 1
            }),
    {
        let ghost s = self@;
        let ghost key = k@;
        match self.find(&k) {
            Some(n) => {
                self.entries.set(n, (k, v));
                proof {
                    assert(self@ =~= s.update(n as int, (key, v)));
                    lemma_update_map(s, n as int, v);
                }
            },
            None => {
                let n: usize = self.rank(&k);
                self.entries.insert(n, (k, v));
                proof {
                    assert(self@ =~= s.insert(n as int, (key, v)));
                    assert forall|i: int| 0 <= i < s.len() implies s[i].0 != key by {
                        assert(lookup(s, key) is None);
                    }
                    lemma_insert_map(s, n as int, key, v);
                }
            },
        }
    }

    /// The value of the entry at `i`, to be changed in place.
    pub fn value_mut(&mut self, i: usize) -> (v: &mut T)
        requires
            i < old(self)@.len(),
        ensures
            *v == old(self)@[i as int].1,
            final(self)@ == old(self)@.update(i as int, (old(self)@[i as int].0, *final(v))),
    {
        let ghost s = self@;
        let slot = &mut self.entries[i];
        proof {
            assert forall|x: (SeriesKey, T)|
                old(self).entries@.update(i as int, x).map_values(
                    |e: (SeriesKey, T)| (e.0@, e.1),
                ) =~= s.update(i as int, (#[trigger] x.0@, x.1)) by {}
        }
        &mut slot.1
    }

    /// The entries in ascending order of keys.
    pub(crate) fn into_entries(self) -> (r: Vec<(SeriesKey, T)>)
        ensures
            r@.len() == self@.len(),
            forall|i: int| 0 <= i < r@.len() ==> ((#[trigger] r@[i]).0@, r@[i].1) == self@[i],
    {
        self.entries
    }

    /// The map of the given entries.
    pub(crate) fn from_entries(entries: Vec<(SeriesKey, T)>) -> (m: SeriesMap<T>)
        ensures
            m@ == entries@.map_values(|e: (SeriesKey, T)| (e.0@, e.1)),
    {
        SeriesMap { entries }
    }
}

/// Ascending entries have as many keys as entries.
pub proof fn lemma_map_len<T>(s: Seq<(KeyView, T)>)
    requires
        ascending(s),
    ensures
        as_map(s).dom().finite(),
        as_map(s).dom().len() == s.len(),
{
    let keys = s.map_values(|e: (KeyView, T)| e.0);
    assert(keys.no_duplicates()) by {
        assert forall|i: int, j: int| 0 <= i < j < keys.len() implies keys[i] != keys[j] by {
            assert(key_before(s[i].0, s[j].0));
            lemma_key_order(s[i].0, s[i].0, s[i].0);
        }
    }
    keys.unique_seq_to_set();
    assert forall|k: KeyView| as_map(s).dom().contains(k) == keys.to_set().contains(k) by {
        if lookup(s, k) is Some {
            let i = choose|i: int| 0 <= i < s.len() && s[i].0 == k;
            assert(keys[i] == k);
        }
        if keys.contains(k) {
            let i = choose|i: int| 0 <= i < keys.len() && keys[i] == k;
            assert(s[i].0 == k);
        }
    }
    assert(as_map(s).dom() =~= keys.to_set());
}

/// Changing the value at `n` changes the value of its key.
pub proof fn lemma_update_map<T>(s: Seq<(KeyView, T)>, n: int, v: T)
    requires
        ascending(s),
        0 <= n < s.len(),
    ensures
        ascending(s.update(n, (s[n].0, v))),
        as_map(s.update(n, (s[n].0, v))) == as_map(s).insert(s[n].0, v),
{
    let t = s.update(n, (s[n].0, v));
    assert forall|i: int, j: int| 0 <= i < j < t.len() implies key_before(
        #[trigger] t[i].0,
        #[trigger] t[j].0,
    ) by {
        assert(key_before(s[i].0, s[j].0));
    }
    let m = as_map(t);
    let w = as_map(s).insert(s[n].0, v);
    assert forall|k: KeyView|
        #![trigger m.dom().contains(k)]
        #![trigger w.dom().contains(k)]
        m.dom().contains(k) == w.dom().contains(k) && (m.dom().contains(k) ==> m[k] == w[k]) by {
        if exists|i: int| 0 <= i < t.len() && t[i].0 == k {
            let i = choose|i: int| 0 <= i < t.len() && t[i].0 == k;
            lemma_lookup_at(t, i);
            lemma_lookup_at(s, i);
            assert(s[i].0 == k);
            if i != n && k == s[n].0 {
                lemma_lookup_at(t, n);
                lemma_key_order(s[i].0, s[n].0, s[i].0);
                if i < n {
                    assert(key_before(s[i].0, s[n].0));
                } else {
                    assert(key_before(s[n].0, s[i].0));
                }
            }
        } else {
            assert forall|i: int| 0 <= i < s.len() implies s[i].0 != k by {
                assert(t[i].0 == s[i].0);
            }
            assert(t[n].0 == s[n].0);
        }
    }
    assert(m.dom() =~= w.dom());
    assert(m =~= w);
}

proof fn lemma_insert_map<T>(s: Seq<(KeyView, T)>, n: int, k: KeyView, v: T)
    requires
        ascending(s),
        0 <= n <= s.len(),
        forall|i: int| 0 <= i < s.len() ==> s[i].0 != k,
        forall|i: int| 0 <= i < n ==> key_before((#[trigger] s[i]).0, k),
        forall|i: int| n <= i < s.len() ==> !key_before((#[trigger] s[i]).0, k),
    ensures
        ascending(s.insert(n, (k, v))),
        as_map(s.insert(n, (k, v))) == as_map(s).insert(k, v),
{
    let t = s.insert(n, (k, v));
    assert forall|i: int, j: int| 0 <= i < j < t.len() implies key_before(
        #[trigger] t[i].0,
        #[trigger] t[j].0,
    ) by {
        if i == n {
            lemma_key_order(s[j - 1].0, k, k);
        } else if j == n {
            assert(key_before(s[i].0, k));
        } else {
            let a = if i < n { i } else { i - 1 };
            let b = if j < n { j } else { j - 1 };
            assert(key_before(s[a].0, s[b].0));
        }
    }
    let m = as_map(t);
    let w = as_map(s).insert(k, v);
    assert forall|x: KeyView|
        #![trigger m.dom().contains(x)]
        #![trigger w.dom().contains(x)]
        m.dom().contains(x) == w.dom().contains(x) && (m.dom().contains(x) ==> m[x] == w[x]) by {
        lemma_lookup_at(t, n);
        if x != k {
            if exists|i: int| 0 <= i < t.len() && t[i].0 == x {
                let i = choose|i: int| 0 <= i < t.len() && t[i].0 == x;
                lemma_lookup_at(t, i);
                let a = if i < n { i } else { i - 1 };
                assert(s[a] == t[i]);
                lemma_lookup_at(s, a);
            } else {
                assert forall|i: int| 0 <= i < s.len() implies s[i].0 != x by {
                    let b = if i < n { i } else { i + 1 };
                    assert(t[b] == s[i]);
                }
            }
        }
    }
    assert(m.dom() =~= w.dom());
    assert(m =~= w);
}

} // verus!
