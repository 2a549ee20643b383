//! Reading a Prometheus text exposition into one sample.

use vstd::prelude::*;
use vstd::slice::slice_subrange;
use vstd::string::*;

use crate::binary64;
use crate::binary64::Binary64;
use crate::decimal;
use crate::decimal::parse_literal;
use crate::fixed;
use crate::fixed::append_decimal;
use crate::order;
use crate::order::{arrange, sort_labels};
use crate::series;
use crate::series::{SeriesKey, SeriesMap, KeyView};
use crate::text;
use crate::text::{
    chars_of, equals, leading_space, leading_word, position_of, same_text, string_of, trimmed,
    words_of,
};

verus! {

/// The position of the `}` that closes a label block, from `at` on. Braces and escaped
/// characters inside quoted label values do not close it; a block whose quote never
/// closes has no end.
pub open spec fn block_end(s: Seq<char>, at: int, in_quotes: bool) -> Option<int>
    decreases s.len() + 1 - at,
{
    if at >= s.len() {
        None
    } else if s[at] == '"' {
        block_end(s, at + 1, !in_quotes)
    } else if s[at] == '}' && !in_quotes {
        Some(at)
    } else if s[at] == '\\' && in_quotes {
        block_end(s, at + 2, in_quotes)
    } else {
        block_end(s, at + 1, in_quotes)
    }
}

/// The position of the `}` that closes the label block whose `{` stands at `open`.
pub fn label_block_end(line: &[char], open: usize) -> (r: Option<usize>)
    requires
        open < line@.len(),
    ensures
        r is Some <==> block_end(line@, open + 1, false) is Some,
        r is Some ==> open < r->0 < line@.len() && r->0 == block_end(line@, open + 1, false)->0,
{
    let end: usize = line.len();
    let mut in_quotes: bool = false;
    let mut i: usize = open + 1;
    while i < end
        invariant
            end == line@.len(),
            open < i <= line@.len(),
            block_end(line@, open + 1, false) == block_end(line@, i as int, in_quotes),
        decreases line@.len() - i,
    {
        let c: char = line[i];
        if c == '"' {
            in_quotes = !in_quotes;
        } else if c == '}' && !in_quotes {
            return Some(i);
        } else if c == '\\' && in_quotes && i + 1 < end {
            i += 1;
        } else {
            assert(c == '\\' && in_quotes ==> block_end(line@, i + 2, in_quotes) == block_end(
                line@,
                i + 1,
                in_quotes,
            ));
        }
        i += 1;
    }
    None
}

/// The number that a value field stands for: its first word; an optional timestamp may
/// follow.
pub open spec fn value_of(s: Seq<char>) -> Option<Binary64> {
    let t = text::trim_start(s);
    if t.len() == 0 {
        None
    } else {
        decimal::literal(t.take(text::word_len(t) as int))
    }
}

/// Reads a value field.
pub fn parse_value(s: &[char]) -> (r: Option<Binary64>)
    ensures
        r == value_of(s@),
{
    let from: usize = leading_space(s);
    let t: &[char] = slice_subrange(s, from, s.len());
    assert(t@ =~= text::trim_start(s@));
    if t.len() == 0 {
        return None;
    }
    let n: usize = leading_word(t);
    let word: &[char] = slice_subrange(t, 0, n);
    assert(word@ =~= t@.take(n as int));
    parse_literal(word)
}

/// The text without the separators that stand before a label.
pub open spec fn after_separators(s: Seq<char>) -> Seq<char>
    decreases s.len(),
{
    if s.len() > 0 && (s[0] == ',' || s[0] == ' ' || s[0] == '\t') {
        after_separators(s.drop_first())
    } else {
        s
    }
}

/// A label value from behind its opening quote, and the text behind its closing quote.
pub open spec fn quoted(s: Seq<char>) -> (Seq<char>, Seq<char>)
    decreases s.len(),
{
    if s.len() == 0 {
        (Seq::empty(), Seq::empty())
    } else if s[0] == '"' {
        (Seq::empty(), s.skip(1))
    } else if s[0] == '\\' && s.len() == 1 {
        (Seq::empty(), Seq::empty())
    } else if s[0] == '\\' {
        let q = quoted(s.skip(2));
        let c = if s[1] == 'n' {
            '\n'
        } else {
            s[1]
        };
        (seq![c] + q.0, q.1)
    } else {
        let q = quoted(s.skip(1));
        (seq![s[0]] + q.0, q.1)
    }
}

/// The labels of a label block, as they stand in it, up to the first that is malformed.
pub open spec fn written_labels(s: Seq<char>) -> Seq<(Seq<char>, Seq<char>)>
    decreases s.len(),
{
    let t = after_separators(s);
    let n = text::find_char(t, '=') as int;
    if n + 1 >= t.len() || t[n + 1] != '"' {
        Seq::empty()
    } else {
        proof {
            lemma_after_separators(s);
            lemma_quoted(t.skip(n + 2));
        }
        let q = quoted(t.skip(n + 2));
        seq![(t.take(n), q.0)] + written_labels(q.1)
    }
}

/// The labels of a label block in canonical order.
pub open spec fn labels_of(s: Seq<char>) -> Seq<(Seq<char>, Seq<char>)> {
    order::sorted_labels(written_labels(s))
}

pub proof fn lemma_after_separators(s: Seq<char>)
    ensures
        after_separators(s).len() <= s.len(),
    decreases s.len(),
{
    if s.len() > 0 && (s[0] == ',' || s[0] == ' ' || s[0] == '\t') {
        lemma_after_separators(s.drop_first());
    }
}

pub proof fn lemma_quoted(s: Seq<char>)
    ensures
        quoted(s).1.len() <= s.len(),
    decreases s.len(),
{
    if s.len() > 0 && s[0] != '"' {
        if s[0] == '\\' && s.len() > 1 {
            lemma_quoted(s.skip(2));
        } else if s[0] != '\\' {
            lemma_quoted(s.skip(1));
        }
    }
}

/// A label value from behind its opening quote at `from`, and where the text goes on.
fn read_quoted(v: &[char], from: usize) -> (r: (String, usize))
    requires
        from <= v@.len(),
    ensures
        from <= r.1 <= v@.len(),
        r.0@ == quoted(v@.skip(from as int)).0,
        v@.skip(r.1 as int) == quoted(v@.skip(from as int)).1,
{
    let ghost all = quoted(v@.skip(from as int));
    let mut value: String = String::new();
    let mut i: usize = from;
    assert(Seq::<char>::empty() + all.0 =~= all.0);
    while i < v.len()
        invariant
            from <= i <= v@.len(),
            all == quoted(v@.skip(from as int)),
            all.0 == value@ + quoted(v@.skip(i as int)).0,
            all.1 == quoted(v@.skip(i as int)).1,
        decreases v@.len() - i,
    {
        let ghost s = v@.skip(i as int);
        let ghost had = value@;
        let c: char = v[i];
        assert(c == s[0]);
        if c == '"' {
            assert(s.skip(1) =~= v@.skip(i + 1));
            assert(all.0 =~= value@);
            return (value, i + 1);
        }
        if c == '\\' {
            if i + 1 >= v.len() {
                assert(all.0 =~= value@);
                assert(v@.skip(i + 1) =~= Seq::empty());
                return (value, i + 1);
            }
            let d: char = v[i + 1];
            let e: char = if d == 'n' { '\n' } else { d };
            value.push(e);
            assert(s.skip(2) =~= v@.skip(i + 2));
            assert(had + (seq![e] + quoted(v@.skip(i + 2)).0) =~= had.push(e) + quoted(
                v@.skip(i + 2),
            ).0);
            i += 2;
        } else {
            value.push(c);
            assert(s.skip(1) =~= v@.skip(i + 1));
            assert(had + (seq![c] + quoted(v@.skip(i + 1)).0) =~= had.push(c) + quoted(
                v@.skip(i + 1),
            ).0);
            i += 1;
        }
    }
    assert(v@.skip(i as int) =~= Seq::empty());
    assert(all.0 =~= value@);
    (value, i)
}

/// Reads the labels of a label block. They come in canonical order, so that the same
/// labels written in two orders make one series.
pub fn parse_labels(src: &[char]) -> (r: Vec<(String, String)>)
    ensures
        series::labels_view(r@) == labels_of(src@),
{
    let mut out: Vec<(String, String)> = Vec::new();
    let mut at: usize = 0;
    assert(src@.skip(0) =~= src@);
    assert(series::labels_view(out@) + written_labels(src@) =~= written_labels(src@));
    loop
        invariant_except_break
            at <= src@.len(),
            series::labels_view(out@) + written_labels(src@.skip(at as int)) == written_labels(
                src@,
            ),
        ensures
            series::labels_view(out@) == written_labels(src@),
        decreases src@.len() - at,
    {
        let ghost s = src@.skip(at as int);
        let mut from: usize = at;
        while from < src.len() && (src[from] == ',' || src[from] == ' ' || src[from] == '\t')
            invariant
                at <= from <= src@.len(),
                after_separators(s) == after_separators(src@.skip(from as int)),
            decreases src@.len() - from,
        {
            assert(src@.skip(from as int).drop_first() =~= src@.skip(from + 1));
            from += 1;
        }
        let t: &[char] = slice_subrange(src, from, src.len());
        assert(t@ =~= after_separators(s));
        let n: usize = position_of(t, '=');
        if n >= t.len() || t.len() - n < 2 || t[n + 1] != '"' {
            assert(written_labels(s) =~= Seq::empty());
            assert(series::labels_view(out@) =~= written_labels(src@));
            break;
        }
        let name: String = string_of(slice_subrange(t, 0, n));
        assert(name@ =~= t@.take(n as int));
        let (value, end) = read_quoted(t, n + 2);
        let ghost q = quoted(t@.skip(n + 2));
        let ghost had = series::labels_view(out@);
        out.push((name, value));
        at = from + end;
        proof {
            assert(src@.skip(at as int) =~= t@.skip(end as int));
            assert(series::labels_view(out@) =~= had.push((name@, value@)));
            assert(had + (seq![(name@, value@)] + written_labels(q.1)) =~= had.push(
                (name@, value@),
            ) + written_labels(q.1));
        }
    }
    sort_labels(out)
}

/// Cumulative histogram state at one scrape, for one label combination.
#[derive(Debug, Clone)]
pub struct HistSeries {
    /// Upper bounds, ascending. Bounds are finite or positive infinity.
    pub le: Vec<Binary64>,
    /// Cumulative counts, parallel to `le`.
    pub counts: Vec<Binary64>,
    pub count: u64,
}

/// What a histogram series stands for.
pub struct HistView {
    pub le: Seq<Binary64>,
    pub counts: Seq<Binary64>,
    pub count: u64,
}

impl View for HistSeries {
    type V = HistView;

    open spec fn view(&self) -> HistView {
        HistView { le: self.le@, counts: self.counts@, count: self.count }
    }
}

/// One scrape: simple gauge and counter series, and histogram families.
#[derive(Debug, Clone)]
pub struct Sample {
    pub simple: SeriesMap<Binary64>,
    pub hist: SeriesMap<HistSeries>,
}

/// What a sample stands for: its series in ascending order of their keys.
pub struct SampleView {
    pub simple: Seq<(KeyView, Binary64)>,
    pub hist: Seq<(KeyView, HistView)>,
}

impl View for Sample {
    type V = SampleView;

    open spec fn view(&self) -> SampleView {
        SampleView {
            simple: self.simple@,
            hist: self.hist@.map_values(|e: (KeyView, HistSeries)| (e.0, e.1@)),
        }
    }
}

/// A bound that a bucket can have.
pub open spec fn usable_bound(le: Binary64) -> bool {
    le.finite() || (le.infinite() && !le.negative())
}

impl SampleView {
    /// The keys ascend, and no bucket bound is a not-a-number.
    pub open spec fn wf(self) -> bool {
        &&& series::ascending(self.simple)
        &&& series::ascending(self.hist)
        &&& forall|i: int, j: int|
            0 <= i < self.hist.len() && 0 <= j < self.hist[i].1.le.len()
                ==> !(#[trigger] self.hist[i].1.le[j]).nan()
    }

    /// The value of the first series of the family `name`.
    pub open spec fn gauge(self, name: Seq<char>) -> Option<Binary64> {
        first_value(self.simple, |k: KeyView| k.name == name)
    }
}

/// The position of the first series that meets `p`, or the number of series.
pub open spec fn first_at<T>(s: Seq<(KeyView, T)>, p: spec_fn(KeyView) -> bool) -> nat
    decreases s.len(),
{
    if s.len() == 0 || p(s[0].0) {
        0
    } else {
        1 + first_at(s.drop_first(), p)
    }
}

/// The value of the first series that meets `p`.
pub open spec fn first_value<T>(s: Seq<(KeyView, T)>, p: spec_fn(KeyView) -> bool) -> Option<T> {
    let i = first_at(s, p) as int;
    if i < s.len() {
        Some(s[i].1)
    } else {
        None
    }
}

/// The first match is the one before which nothing matches.
pub proof fn lemma_first_at<T>(s: Seq<(KeyView, T)>, p: spec_fn(KeyView) -> bool, n: int)
    requires
        0 <= n <= s.len(),
        forall|i: int| 0 <= i < n ==> !p((#[trigger] s[i]).0),
        n < s.len() ==> p(s[n].0),
    ensures
        first_at(s, p) == n,
    decreases n,
{
    if n > 0 {
        let d = s.drop_first();
        assert(s[0] == s[0]);
        assert forall|i: int| 0 <= i < n - 1 implies !p((#[trigger] d[i]).0) by {
            assert(d[i] == s[i + 1]);
        }
        lemma_first_at(d, p, n - 1);
    }
}

impl Default for HistSeries {
    /// A histogram without buckets.
    fn default() -> (r: HistSeries)
        ensures
            r@.le.len() == 0,
            r@.counts.len() == 0,
            r@.count == 0,
    {
        HistSeries { le: Vec::new(), counts: Vec::new(), count: 0 }
    }
}

impl Default for Sample {
    /// A sample without series.
    fn default() -> (r: Sample)
        ensures
            r.wf(),
            r@.simple.len() == 0,
            r@.hist.len() == 0,
    {
        Sample { simple: SeriesMap::new(), hist: SeriesMap::new() }
    }
}

impl Sample {
    pub open spec fn wf(&self) -> bool {
        self@.wf()
    }

    /// The value of the first series of the family `name`.
    pub fn gauge(&self, name: &str) -> (r: Option<Binary64>)
        ensures
            r == self@.gauge(name@),
    {
        let ghost p = |k: KeyView| k.name == name@;
        let mut i: usize = 0;
        while i < self.simple.len()
            invariant
                i <= self.simple@.len(),
                p == (|k: KeyView| k.name == name@),
                forall|j: int| 0 <= j < i ==> !p((#[trigger] self.simple@[j]).0),
            decreases self.simple@.len() - i,
        {
            if same_text(self.simple.key_at(i).name.as_str(), name) {
                proof {
                    lemma_first_at(self.simple@, p, i as int);
                }
                return Some(*self.simple.value_at(i));
            }
            i += 1;
        }
        proof {
            lemma_first_at(self.simple@, p, i as int);
        }
        None
    }
}

/// Maximum number of series (simple series and histogram families together) in one
/// scrape. It sits above the some twelve thousand series of a busy deployment of many
/// ranks, with headroom.
pub const SERIES_CAP: usize = 16_384;

/// Maximum number of buckets in a single histogram family per scrape. It counts
/// `_bucket` records only: the trailing `_sum` and `_count` lines are no buckets, so a
/// family at exactly the cap is accepted.
pub const BUCKET_CAP: usize = 256;

/// Why a payload is rejected as a whole.
#[derive(Debug)]
pub enum ParseError {
    /// More than `SERIES_CAP` series.
    TooManySeries { series: usize },
    /// A histogram family with more than `BUCKET_CAP` buckets.
    TooManyBuckets { key: SeriesKey },
}

/// A rejection, with the number of series or the family that is too large.
pub enum Rejection {
    Series(nat),
    Buckets(KeyView),
}

impl View for ParseError {
    type V = Rejection;

    open spec fn view(&self) -> Rejection {
        match self {
            ParseError::TooManySeries { series } => Rejection::Series(*series as nat),
            ParseError::TooManyBuckets { key } => Rejection::Buckets(key@),
        }
    }
}

/// A rejection in words.
pub open spec fn rejection_text(e: Rejection) -> Seq<char> {
    match e {
        Rejection::Series(n) => "endpoint too large: "@ + fixed::digits_text(n) + " series (cap "@
            + fixed::digits_text(SERIES_CAP as nat) + ")"@,
        Rejection::Buckets(k) => "endpoint too large: "@ + series::key_text(k) + " has "@
            + fixed::digits_text(BUCKET_CAP as nat + 1) + " buckets (cap "@ + fixed::digits_text(
            BUCKET_CAP as nat,
        ) + ")"@,
    }
}

impl ParseError {
    /// The rejection in words.
    pub fn message(&self) -> (s: String)
        ensures
            s@ == rejection_text(self@),
    {
        let mut s: String = String::new();
        s.append("endpoint too large: ");
        assert(s@ =~= "endpoint too large: "@);
        match self {
            ParseError::TooManySeries { series } => {
                append_decimal(&mut s, *series as u64);
                s.append(" series (cap ");
                append_decimal(&mut s, SERIES_CAP as u64);
            },
            ParseError::TooManyBuckets { key } => {
                s.append(key.render().as_str());
                s.append(" has ");
                append_decimal(&mut s, BUCKET_CAP as u64 + 1);
                s.append(" buckets (cap ");
                append_decimal(&mut s, BUCKET_CAP as u64);
            },
        }
        s.append(")");
        s
    }
}

/// One record of a payload.
pub struct Reading {
    pub name: Seq<char>,
    pub labels: Seq<(Seq<char>, Seq<char>)>,
    pub value: Binary64,
}

/// A record, where its value field holds a finite number. A not-a-number and an infinity
/// are unreadable data, never extreme readings.
pub open spec fn finite_reading(
    name: Seq<char>,
    labels: Seq<(Seq<char>, Seq<char>)>,
    field: Seq<char>,
) -> Option<Reading> {
    match value_of(field) {
        Some(value) => if value.finite() {
            Some(Reading { name, labels, value })
        } else {
            None
        },
        None => None,
    }
}

/// The record `name{labels} value` or `name value` that a line holds.
pub open spec fn reading(line: Seq<char>) -> Option<Reading> {
    let open = text::find_char(line, '{') as int;
    let n = text::word_len(line) as int;
    if open < line.len() {
        match block_end(line, open + 1, false) {
            Some(close) => finite_reading(
                line.take(open),
                labels_of(line.subrange(open + 1, close)),
                line.skip(close + 1),
            ),
            None => None,
        }
    } else if n < line.len() {
        finite_reading(line.take(n), Seq::empty(), line.skip(n + 1))
    } else {
        None
    }
}

/// What a record is by the suffix of its name.
pub enum Part {
    Bucket,
    Total,
    Count,
    Plain,
}

/// The text ends with the other one.
pub open spec fn ends_with(s: Seq<char>, t: Seq<char>) -> bool {
    s.len() >= t.len() && s.skip(s.len() - t.len()) == t
}

/// The part of a histogram that a name stands for, and the name of the histogram.
pub open spec fn part_of(name: Seq<char>) -> (Part, Seq<char>) {
    if ends_with(name, "_bucket"@) {
        (Part::Bucket, name.take(name.len() - "_bucket"@.len()))
    } else if ends_with(name, "_sum"@) {
        (Part::Total, name.take(name.len() - "_sum"@.len()))
    } else if ends_with(name, "_count"@) {
        (Part::Count, name.take(name.len() - "_count"@.len()))
    } else {
        (Part::Plain, name)
    }
}

/// The value of the first label of the given name.
pub open spec fn label_value(
    labels: Seq<(Seq<char>, Seq<char>)>,
    name: Seq<char>,
) -> Option<Seq<char>>
    decreases labels.len(),
{
    if labels.len() == 0 {
        None
    } else if labels[0].0 == name {
        Some(labels[0].1)
    } else {
        label_value(labels.drop_first(), name)
    }
}

/// The bound of a bucket: its `le` label, where that is a finite number or positive
/// infinity.
pub open spec fn bound_of(labels: Seq<(Seq<char>, Seq<char>)>) -> Option<Binary64> {
    match label_value(labels, "le"@) {
        Some(v) => match value_of(v) {
            Some(le) => if usable_bound(le) {
                Some(le)
            } else {
                None
            },
            None => None,
        },
        None => None,
    }
}

/// The labels that are no bucket bound.
pub open spec fn without_bound(labels: Seq<(Seq<char>, Seq<char>)>) -> Seq<
    (Seq<char>, Seq<char>),
> {
    labels.filter(|l: (Seq<char>, Seq<char>)| l.0 != "le"@)
}

/// The records of one histogram family so far.
pub struct LadderView {
    pub buckets: Seq<(Binary64, Binary64)>,
    pub count: u64,
}

/// What has been read of a payload so far.
pub struct State {
    /// For each announced family, a key without labels, whether it is a histogram.
    pub families: Map<KeyView, bool>,
    pub simple: Map<KeyView, Binary64>,
    pub hists: Map<KeyView, LadderView>,
}

/// The integral part of a number as a count, zero below zero.
pub open spec fn counted(value: Binary64) -> u64 {
    if binary64::whole_part(value) > u64::MAX {
        u64::MAX
    } else {
        binary64::whole_part(value) as u64
    }
}

/// A histogram family with one more record. A bucket without a usable bound adds
/// nothing, and neither does a total.
pub open spec fn grown(had: LadderView, part: Part, r: Reading) -> LadderView {
    match part {
        Part::Bucket => match bound_of(r.labels) {
            Some(le) => LadderView { buckets: had.buckets.push((le, r.value)), count: had.count },
            None => had,
        },
        Part::Count => LadderView { buckets: had.buckets, count: counted(r.value) },
        _ => had,
    }
}

/// The state, unless it holds too many series.
pub open spec fn capped(st: State) -> Result<State, Rejection> {
    let n = st.simple.dom().len() + st.hists.dom().len();
    if n > SERIES_CAP {
        Err(Rejection::Series(n))
    } else {
        Ok(st)
    }
}

/// The key of a family as a whole.
pub open spec fn family_key(name: Seq<char>) -> KeyView {
    KeyView { name, labels: Seq::empty() }
}

/// The state after one more record.
pub open spec fn recorded(st: State, r: Reading) -> Result<State, Rejection> {
    let (part, base) = part_of(r.name);
    let family = family_key(base);
    if !(part is Plain) && st.families.contains_key(family) && st.families[family] {
        let key = KeyView { name: base, labels: without_bound(r.labels) };
        let had = if st.hists.contains_key(key) {
            st.hists[key]
        } else {
            LadderView { buckets: Seq::empty(), count: 0 }
        };
        if part is Bucket && had.buckets.len() >= BUCKET_CAP {
            Err(Rejection::Buckets(key))
        } else {
            capped(State { hists: st.hists.insert(key, grown(had, part, r)), ..st })
        }
    } else {
        let key = KeyView { name: r.name, labels: r.labels };
        capped(State { simple: st.simple.insert(key, r.value), ..st })
    }
}

/// The family that a `TYPE` header announces, and whether it is a histogram.
pub open spec fn announced(header: Seq<char>) -> Option<(Seq<char>, bool)> {
    let w = text::words(header);
    if w.len() >= 3 && w[0] == "TYPE"@ {
        Some((w[1], w[2] == "histogram"@))
    } else {
        None
    }
}

/// The state after one more line. Malformed lines change nothing.
pub open spec fn line_read(st: State, raw: Seq<char>) -> Result<State, Rejection> {
    let line = text::trim(raw);
    if line.len() == 0 {
        Ok(st)
    } else if line.len() >= 2 && line[0] == '#' && line[1] == ' ' {
        match announced(line.skip(2)) {
            Some((name, histogram)) => Ok(
                State { families: st.families.insert(family_key(name), histogram), ..st },
            ),
            None => Ok(st),
        }
    } else {
        match reading(line) {
            Some(r) => recorded(st, r),
            None => Ok(st),
        }
    }
}

/// The state after the lines of a text.
pub open spec fn lines_read(st: State, s: Seq<char>) -> Result<State, Rejection>
    decreases s.len(),
{
    let n = text::find_char(s, '\n') as int;
    if n >= s.len() {
        line_read(st, s)
    } else {
        match line_read(st, s.take(n)) {
            Ok(next) => lines_read(next, s.skip(n + 1)),
            Err(e) => Err(e),
        }
    }
}

/// What a whole payload holds.
pub open spec fn exposition(body: Seq<char>) -> Result<State, Rejection> {
    lines_read(
        State { families: Map::empty(), simple: Map::empty(), hists: Map::empty() },
        body,
    )
}

/// A histogram family with its buckets in ascending order of their bounds.
pub open spec fn ladder_series(l: LadderView) -> HistView {
    let b = order::arranged(l.buckets);
    HistView {
        le: b.map_values(|p: (Binary64, Binary64)| p.0),
        counts: b.map_values(|p: (Binary64, Binary64)| p.1),
        count: l.count,
    }
}

/// The sample holds what was read.
pub open spec fn holds(s: SampleView, st: State) -> bool {
    &&& s.wf()
    &&& series::as_map(s.simple) == st.simple
    &&& series::as_map(s.hist) == st.hists.map_values(|l: LadderView| ladder_series(l))
}

/// A record in plain values.
pub struct Record {
    pub name: Vec<char>,
    pub labels: Vec<(String, String)>,
    pub value: Binary64,
}

impl View for Record {
    type V = Reading;

    open spec fn view(&self) -> Reading {
        Reading { name: self.name@, labels: series::labels_view(self.labels@), value: self.value }
    }
}

/// Reads the record that a line holds.
pub fn read_record(line: &[char]) -> (r: Option<Record>)
    ensures
        r is Some <==> reading(line@) is Some,
        r is Some ==> r->0@ == reading(line@)->0,
{
    let open: usize = position_of(line, '{');
    let name_end: usize;
    let field: &[char];
    let labels: Vec<(String, String)>;
    if open < line.len() {
        match label_block_end(line, open) {
            Some(close) => {
                let block: &[char] = slice_subrange(line, open + 1, close);
                assert(block@ =~= line@.subrange(open + 1, close as int));
                labels = parse_labels(block);
                name_end = open;
                field = slice_subrange(line, close + 1, line.len());
                assert(field@ =~= line@.skip(close + 1));
            },
            None => {
                return None;
            },
        }
    } else {
        let n: usize = leading_word(line);
        if n >= line.len() {
            return None;
        }
        labels = Vec::new();
        assert(series::labels_view(labels@) =~= Seq::empty());
        name_end = n;
        field = slice_subrange(line, n + 1, line.len());
        assert(field@ =~= line@.skip(n + 1));
    }
    match parse_value(field) {
        Some(value) => if value.is_finite() {
            let name: Vec<char> = text::copied(slice_subrange(line, 0, name_end));
            assert(name@ =~= line@.take(name_end as int));
            Some(Record { name, labels, value })
        } else {
            None
        },
        None => None,
    }
}

/// Where `t` stands at the end of `v`, the length of what stands before it.
fn before_suffix(v: &[char], t: &str) -> (r: Option<usize>)
    ensures
        r is Some <==> ends_with(v@, t@),
        r is Some ==> r->0 == v@.len() - t@.len(),
{
    let w: Vec<char> = chars_of(t);
    if v.len() < w.len() {
        return None;
    }
    let n: usize = v.len() - w.len();
    let tail: &[char] = slice_subrange(v, n, v.len());
    assert(tail@ =~= v@.skip(v@.len() - t@.len()));
    if equals(tail, t) {
        Some(n)
    } else {
        None
    }
}

fn read_part(name: &[char]) -> (r: (Part, usize))
    ensures
        r.1 <= name@.len(),
        part_of(name@) == (r.0, name@.take(r.1 as int)),
{
    assert(name@.take(name@.len() as int) =~= name@);
    if let Some(n) = before_suffix(name, "_bucket") {
        (Part::Bucket, n)
    } else if let Some(n) = before_suffix(name, "_sum") {
        (Part::Total, n)
    } else if let Some(n) = before_suffix(name, "_count") {
        (Part::Count, n)
    } else {
        (Part::Plain, name.len())
    }
}

/// The position of the first label of the given name.
pub fn find_label(labels: &Vec<(String, String)>, name: &str) -> (r: Option<usize>)
    ensures
        r is Some <==> label_value(series::labels_view(labels@), name@) is Some,
        r is Some ==> r->0 < labels@.len() && labels@[r->0 as int].1@ == label_value(
            series::labels_view(labels@),
            name@,
        )->0,
{
    let ghost all = series::labels_view(labels@);
    let mut i: usize = 0;
    assert(all.skip(0) =~= all);
    while i < labels.len()
        invariant
            i <= labels@.len(),
            all == series::labels_view(labels@),
            label_value(all, name@) == label_value(all.skip(i as int), name@),
        decreases labels@.len() - i,
    {
        assert(all.skip(i as int)[0] == series::label_view(labels@[i as int]));
        if same_text(labels[i].0.as_str(), name) {
            return Some(i);
        }
        assert(all.skip(i as int).drop_first() =~= all.skip(i + 1));
        i += 1;
    }
    None
}

fn read_bound(labels: &Vec<(String, String)>) -> (r: Option<Binary64>)
    ensures
        r == bound_of(series::labels_view(labels@)),
{
    match find_label(labels, "le") {
        Some(i) => {
            let v: Vec<char> = chars_of(labels[i].1.as_str());
            match parse_value(v.as_slice()) {
                Some(le) => if le.is_finite() || (le.is_infinite() && le.bits < binary64::SIGN_BIT) {
                    Some(le)
                } else {
                    None
                },
                None => None,
            }
        },
        None => None,
    }
}

fn drop_bound(labels: &Vec<(String, String)>) -> (r: Vec<(String, String)>)
    ensures
        series::labels_view(r@) == without_bound(series::labels_view(labels@)),
{
    let ghost all = series::labels_view(labels@);
    let mut r: Vec<(String, String)> = Vec::new();
    let mut i: usize = 0;
    proof {
        reveal(Seq::filter);
        assert(all.take(0) =~= Seq::empty());
        assert(series::labels_view(r@) =~= Seq::empty());
    }
    while i < labels.len()
        invariant
            i <= labels@.len(),
            all == series::labels_view(labels@),
            series::labels_view(r@) == without_bound(all.take(i as int)),
        decreases labels@.len() - i,
    {
        let ghost had = series::labels_view(r@);
        let ghost l = series::label_view(labels@[i as int]);
        proof {
            reveal(Seq::filter);
            assert(all.take(i + 1).drop_last() =~= all.take(i as int));
            assert(all.take(i + 1).last() == l);
        }
        if !same_text(labels[i].0.as_str(), "le") {
            r.push((labels[i].0.clone(), labels[i].1.clone()));
            assert(series::labels_view(r@) =~= had.push(l));
        }
        i += 1;
    }
    assert(all.take(all.len() as int) =~= all);
    r
}

/// Every value is finite, every bound is finite or positive infinity, and no ladder is
/// longer than the cap.
pub open spec fn sound(st: State) -> bool {
    &&& forall|k: KeyView|
        st.simple.contains_key(k) ==> (#[trigger] st.simple[k]).finite()
    &&& forall|k: KeyView|
        st.hists.contains_key(k) ==> sound_ladder((#[trigger] st.hists[k]).buckets)
    &&& st.simple.dom().finite()
    &&& st.hists.dom().finite()
    &&& st.simple.dom().len() + st.hists.dom().len() <= SERIES_CAP
}

/// A ladder within the cap, of usable bounds and finite counts.
pub open spec fn sound_ladder(b: Seq<(Binary64, Binary64)>) -> bool {
    &&& b.len() <= BUCKET_CAP
    &&& forall|i: int|
        0 <= i < b.len() ==> usable_bound((#[trigger] b[i]).0) && b[i].1.finite()
}

proof fn lemma_recorded_sound(st: State, r: Reading)
    requires
        sound(st),
        r.value.finite(),
    ensures
        recorded(st, r) is Ok ==> sound(recorded(st, r)->Ok_0),
{
    if recorded(st, r) is Ok {
        let next = recorded(st, r)->Ok_0;
        let (part, base) = part_of(r.name);
        let family = family_key(base);
        assert forall|k: KeyView| next.simple.contains_key(k) implies (
        #[trigger] next.simple[k]).finite() by {
            if st.simple.contains_key(k) {
                assert(st.simple[k].finite());
            }
        }
        assert forall|k: KeyView| next.hists.contains_key(k) implies sound_ladder(
            (#[trigger] next.hists[k]).buckets,
        ) by {
            if st.hists.contains_key(k) {
                assert(sound_ladder(st.hists[k].buckets));
            }
        }
    }
}

proof fn lemma_line_sound(st: State, line: Seq<char>)
    requires
        sound(st),
    ensures
        line_read(st, line) is Ok ==> sound(line_read(st, line)->Ok_0),
{
    if let Some(r) = reading(text::trim(line)) {
        lemma_recorded_sound(st, r);
    }
}

proof fn lemma_lines_sound(st: State, s: Seq<char>)
    requires
        sound(st),
    ensures
        lines_read(st, s) is Ok ==> sound(lines_read(st, s)->Ok_0),
    decreases s.len(),
{
    let n = text::find_char(s, '\n') as int;
    if n >= s.len() {
        lemma_line_sound(st, s);
    } else {
        lemma_line_sound(st, s.take(n));
        if let Ok(next) = line_read(st, s.take(n)) {
            lemma_lines_sound(next, s.skip(n + 1));
        }
    }
}

/// An accepted payload leaves no unreadable number behind: every value is finite, every
/// bucket bound can be ordered, and both caps hold.
pub proof fn accepted_payload_is_sound(body: Seq<char>)
    ensures
        exposition(body) is Ok ==> sound(exposition(body)->Ok_0),
{
    lemma_lines_sound(
        State { families: Map::empty(), simple: Map::empty(), hists: Map::empty() },
        body,
    );
}

/// The records of one histogram family so far.
struct Ladder {
    buckets: Vec<(Binary64, Binary64)>,
    count: u64,
}

impl View for Ladder {
    type V = LadderView;

    closed spec fn view(&self) -> LadderView {
        LadderView { buckets: self.buckets@, count: self.count }
    }
}

/// What has been read of a payload so far.
struct Reader {
    families: SeriesMap<bool>,
    simple: SeriesMap<Binary64>,
    hists: SeriesMap<Ladder>,
}

impl View for Reader {
    type V = State;

    closed spec fn view(&self) -> State {
        State {
            families: self.families.map(),
            simple: self.simple.map(),
            hists: self.hists.map().map_values(|l: Ladder| l@),
        }
    }
}

impl Reader {
    spec fn wf(&self) -> bool {
        &&& self.families.wf()
        &&& self.simple.wf()
        &&& self.hists.wf()
        &&& self.simple@.len() + self.hists@.len() <= SERIES_CAP
    }
}

fn grow(l: &mut Ladder, part: &Part, r: &Record)
    requires
        r.value.finite(),
    ensures
        final(l)@ == grown(old(l)@, *part, r@),
{
    match part {
        Part::Bucket => {
            if let Some(le) = read_bound(&r.labels) {
                l.buckets.push((le, r.value));
            }
        },
        Part::Count => {
            l.count = r.value.to_u64();
        },
        _ => {},
    }
}

/// Adds one record.
fn record(st: &mut Reader, r: Record) -> (e: Result<(), ParseError>)
    requires
        old(st).wf(),
        r.value.finite(),
    ensures
        match recorded(old(st)@, r@) {
            Ok(next) => e is Ok && final(st).wf() && final(st)@ == next,
            Err(x) => e is Err && e->Err_0@ == x,
        },
{
    let (part, n) = read_part(r.name.as_slice());
    let base: String = string_of(slice_subrange(r.name.as_slice(), 0, n));
    assert(base@ =~= r.name@.take(n as int));
    let mut known: bool = false;
    if !matches!(part, Part::Plain) {
        let family: SeriesKey = SeriesKey { name: base.clone(), labels: Vec::new() };
        assert(family@.labels =~= Seq::empty());
        if let Some(histogram) = st.families.get(&family) {
            known = *histogram;
        }
    }
    if known {
        let key: SeriesKey = SeriesKey { name: base, labels: drop_bound(&r.labels) };
        let ghost k = key@;
        let ghost before = st.hists@;
        match st.hists.find(&key) {
            Some(i) => {
                if matches!(part, Part::Bucket) && st.hists.value_at(i).buckets.len() >= BUCKET_CAP {
                    return Err(ParseError::TooManyBuckets { key });
                }
                let l = st.hists.value_mut(i);
                grow(l, &part, &r);
                proof {
                    series::lemma_update_map(before, i as int, st.hists@[i as int].1);
                    assert(st@.hists =~= old(st)@.hists.insert(
                        k,
                        grown(old(st)@.hists[k], part, r@),
                    ));
                }
            },
            None => {
                let mut l: Ladder = Ladder { buckets: Vec::new(), count: 0 };
                grow(&mut l, &part, &r);
                st.hists.insert(key, l);
                proof {
                    let fresh = LadderView { buckets: Seq::empty(), count: 0 };
                    assert(st@.hists =~= old(st)@.hists.insert(k, grown(fresh, part, r@)));
                }
            },
        }
    } else {
        let key: SeriesKey = SeriesKey { name: string_of(r.name.as_slice()), labels: r.labels };
        st.simple.insert(key, r.value);
    }
    proof {
        series::lemma_map_len(st.simple@);
        series::lemma_map_len(st.hists@);
        assert(st@.hists.dom() =~= st.hists.map().dom());
    }
    let simple: usize = st.simple.len();
    let hists: usize = st.hists.len();
    if simple + hists > SERIES_CAP {
        return Err(ParseError::TooManySeries { series: simple + hists });
    }
    Ok(())
}

/// Reads one line.
fn read_line(st: &mut Reader, raw: &[char]) -> (e: Result<(), ParseError>)
    requires
        old(st).wf(),
    ensures
        match line_read(old(st)@, raw@) {
            Ok(next) => e is Ok && final(st).wf() && final(st)@ == next,
            Err(x) => e is Err && e->Err_0@ == x,
        },
{
    let line: &[char] = trimmed(raw);
    if line.len() == 0 {
        return Ok(());
    }
    if line.len() >= 2 && line[0] == '#' && line[1] == ' ' {
        let header: &[char] = slice_subrange(line, 2, line.len());
        assert(header@ =~= line@.skip(2));
        let w: Vec<Vec<char>> = words_of(header);
        if w.len() >= 3 && equals(w[0].as_slice(), "TYPE") {
            let key: SeriesKey = SeriesKey { name: string_of(w[1].as_slice()), labels: Vec::new() };
            assert(key@.labels =~= Seq::empty());
            st.families.insert(key, equals(w[2].as_slice(), "histogram"));
        }
        return Ok(());
    }
    match read_record(line) {
        Some(r) => record(st, r),
        None => Ok(()),
    }
}

/// Splits pairs into their first and their second numbers.
fn unzip(v: &Vec<(Binary64, Binary64)>) -> (r: (Vec<Binary64>, Vec<Binary64>))
    ensures
        r.0@ == v@.map_values(|p: (Binary64, Binary64)| p.0),
        r.1@ == v@.map_values(|p: (Binary64, Binary64)| p.1),
{
    let mut a: Vec<Binary64> = Vec::new();
    let mut b: Vec<Binary64> = Vec::new();
    let mut i: usize = 0;
    while i < v.len()
        invariant
            i <= v@.len(),
            a@ == v@.take(i as int).map_values(|p: (Binary64, Binary64)| p.0),
            b@ == v@.take(i as int).map_values(|p: (Binary64, Binary64)| p.1),
        decreases v@.len() - i,
    {
        a.push(v[i].0);
        b.push(v[i].1);
        i += 1;
        assert(v@.take(i as int) =~= v@.take(i - 1).push(v@[i - 1]));
        assert(a@ =~= v@.take(i as int).map_values(|p: (Binary64, Binary64)| p.0));
        assert(b@ =~= v@.take(i as int).map_values(|p: (Binary64, Binary64)| p.1));
    }
    assert(v@.take(i as int) =~= v@);
    (a, b)
}

/// Puts the buckets of every family in order.
fn finish(hists: SeriesMap<Ladder>) -> (r: SeriesMap<HistSeries>)
    requires
        hists.wf(),
    ensures
        r@.len() == hists@.len(),
        forall|i: int|
            0 <= i < r@.len() ==> (#[trigger] r@[i]).0 == hists@[i].0 && r@[i].1@ == ladder_series(
                hists@[i].1@,
            ),
{
    let ghost from = hists@;
    let mut rest: Vec<(SeriesKey, Ladder)> = hists.into_entries();
    let ghost all = rest@;
    let mut back: Vec<(SeriesKey, HistSeries)> = Vec::new();
    while rest.len() > 0
        invariant
            rest@.len() + back@.len() == all.len(),
            rest@ == all.take(rest@.len() as int),
            forall|i: int|
                0 <= i < back@.len() ==> (#[trigger] back@[i]).0@ == all[all.len() - 1 - i].0@
                    && back@[i].1@ == ladder_series(all[all.len() - 1 - i].1@),
        decreases rest@.len(),
    {
        let ghost n = rest@.len();
        let (key, l) = rest.pop().unwrap();
        assert(rest@ =~= all.take(rest@.len() as int));
        assert(key == all[n - 1].0 && l == all[n - 1].1);
        let ghost lv = l@;
        let buckets: Vec<(Binary64, Binary64)> = arrange(l.buckets);
        let (le, counts) = unzip(&buckets);
        let h: HistSeries = HistSeries { le, counts, count: l.count };
        assert(h@ == ladder_series(lv));
        back.push((key, h));
    }
    let mut out: Vec<(SeriesKey, HistSeries)> = Vec::new();
    let ghost whole = back@;
    while back.len() > 0
        invariant
            whole.len() == all.len(),
            back@.len() + out@.len() == whole.len(),
            back@ == whole.take(back@.len() as int),
            forall|i: int|
                0 <= i < whole.len() ==> (#[trigger] whole[i]).0@ == all[all.len() - 1 - i].0@
                    && whole[i].1@ == ladder_series(all[all.len() - 1 - i].1@),
            forall|i: int|
                0 <= i < out@.len() ==> (#[trigger] out@[i]).0@ == all[i].0@ && out@[i].1@
                    == ladder_series(all[i].1@),
        decreases back@.len(),
    {
        let ghost n = back@.len();
        let e: (SeriesKey, HistSeries) = back.pop().unwrap();
        assert(back@ =~= whole.take(back@.len() as int));
        assert(e == whole[n - 1]);
        out.push(e);
    }
    let r: SeriesMap<HistSeries> = SeriesMap::from_entries(out);
    proof {
        assert forall|i: int| 0 <= i < r@.len() implies (#[trigger] r@[i]).0 == from[i].0
            && r@[i].1@ == ladder_series(from[i].1@) by {
            assert(r@[i] == (out@[i].0@, out@[i].1));
            assert((all[i].0@, all[i].1) == from[i]);
        }
    }
    r
}

proof fn lemma_finished(st: Reader, hist: SeriesMap<HistSeries>)
    requires
        st.wf(),
        sound(st@),
        hist@.len() == st.hists@.len(),
        forall|i: int|
            0 <= i < hist@.len() ==> (#[trigger] hist@[i]).0 == st.hists@[i].0 && hist@[i].1@
                == ladder_series(st.hists@[i].1@),
    ensures
        holds((Sample { simple: st.simple, hist })@, st@),
{
    let s = (Sample { simple: st.simple, hist })@;
    let e = st.hists@;
    let f = |l: LadderView| ladder_series(l);
    assert forall|i: int, j: int| 0 <= i < j < s.hist.len() implies series::key_before(
        #[trigger] s.hist[i].0,
        #[trigger] s.hist[j].0,
    ) by {
        assert(hist@[i].0 == e[i].0 && hist@[j].0 == e[j].0);
        assert(series::key_before(e[i].0, e[j].0));
    }
    assert forall|i: int, j: int| 0 <= i < s.hist.len() && 0 <= j < s.hist[i].1.le.len() implies !(
    #[trigger] s.hist[i].1.le[j]).nan() by {
        assert(hist@[i].1@ == ladder_series(e[i].1@));
        series::lemma_lookup_at(e, i);
        let k = e[i].0;
        assert(st@.hists.contains_key(k));
        assert(sound_ladder(st@.hists[k].buckets));
        let b = e[i].1@.buckets;
        assert(st@.hists[k].buckets == b);
        assert(order::ordered(b)) by {
            assert forall|m: int| 0 <= m < b.len() implies !(#[trigger] b[m]).0.nan() by {
                assert(usable_bound(b[m].0));
            }
        }
        order::arranging_sorts(b);
        assert(!order::arranged(b)[j].0.nan());
    }
    let m = series::as_map(s.hist);
    let w = st@.hists.map_values(f);
    assert forall|k: KeyView|
        #![trigger m.dom().contains(k)]
        #![trigger w.dom().contains(k)]
        m.dom().contains(k) == w.dom().contains(k) && (m.dom().contains(k) ==> m[k] == w[k]) by {
        if series::lookup(s.hist, k) is Some {
            let i = choose|i: int| 0 <= i < s.hist.len() && s.hist[i].0 == k;
            series::lemma_lookup_at(s.hist, i);
            assert(hist@[i].0 == e[i].0);
            series::lemma_lookup_at(e, i);
        } else if series::lookup(e, k) is Some {
            let i = choose|i: int| 0 <= i < e.len() && e[i].0 == k;
            assert(hist@[i].0 == e[i].0);
            assert(s.hist[i].0 == k);
        }
    }
    assert(m.dom() =~= w.dom());
    assert(m =~= w);
}

proof fn lemma_line_end(line: Seq<char>, rest: Seq<char>)
    requires
        forall|i: int| 0 <= i < line.len() ==> line[i] != '\n',
        rest.len() > 0 ==> rest[0] == '\n',
    ensures
        text::find_char(line + rest, '\n') == line.len(),
        (line + rest).take(line.len() as int) == line,
        rest.len() > 0 ==> (line + rest).skip(line.len() as int + 1) == rest.skip(1),
{
    let s = line + rest;
    assert forall|i: int| 0 <= i < line.len() implies s[i] != '\n' by {
        assert(s[i] == line[i]);
    }
    text::lemma_find_char_at(s, '\n', line.len());
    assert(s.take(line.len() as int) =~= line);
    if rest.len() > 0 {
        assert(s.skip(line.len() as int + 1) =~= rest.skip(1));
    }
}

/// Reads a Prometheus text exposition into a sample.
///
/// It takes `# TYPE` headers, `name{labels} value` records with optional timestamps,
/// label escapes, and histogram bucket ladders (`_bucket` with `le`, `_sum`, `_count`).
/// Malformed records are skipped line by line. A payload with more than `SERIES_CAP`
/// series, or with a family of more than `BUCKET_CAP` buckets, is rejected as a whole.
pub fn parse(body: &str) -> (r: Result<Sample, ParseError>)
    ensures
        match exposition(body@) {
            Ok(st) => r is Ok && holds(r->Ok_0@, st) && sound(st),
            Err(e) => r is Err && r->Err_0@ == e,
        },
{
    let mut st: Reader = Reader {
        families: SeriesMap::new(),
        simple: SeriesMap::new(),
        hists: SeriesMap::new(),
    };
    proof {
        assert(st@.hists =~= Map::empty());
        accepted_payload_is_sound(body@);
    }
    let mut line: Vec<char> = Vec::new();
    assert(line@ + body@.skip(0) =~= body@);
    for c in it: body.chars()
        invariant
            it.seq() == body@,
            st.wf(),
            forall|i: int| 0 <= i < line@.len() ==> line@[i] != '\n',
            exposition(body@) == lines_read(st@, line@ + body@.skip(it.index())),
            exposition(body@) is Ok ==> sound(exposition(body@)->Ok_0),
    {
        let ghost rest = body@.skip(it.index());
        let ghost had = line@;
        assert(rest[0] == c);
        assert(rest.skip(1) =~= body@.skip(it.index() + 1));
        if c == '\n' {
            proof {
                lemma_line_end(line@, rest);
            }
            match read_line(&mut st, line.as_slice()) {
                Ok(_) => {},
                Err(e) => {
                    return Err(e);
                },
            }
            line = Vec::new();
            assert(line@ + rest.skip(1) =~= rest.skip(1));
        } else {
            line.push(c);
            assert(line@ + rest.skip(1) =~= had + rest);
        }
    }
    proof {
        assert(body@.skip(body@.len() as int) =~= Seq::empty());
        assert(line@ + Seq::<char>::empty() =~= line@);
        lemma_line_end(line@, Seq::empty());
    }
    match read_line(&mut st, line.as_slice()) {
        Ok(_) => {},
        Err(e) => {
            return Err(e);
        },
    }
    let ghost whole = st;
    let hist: SeriesMap<HistSeries> = finish(st.hists);
    proof {
        lemma_finished(whole, hist);
    }
    Ok(Sample { simple: st.simple, hist })
}

} // verus!
