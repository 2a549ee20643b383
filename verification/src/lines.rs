//! Styled lines of text: spans, truncation, aligned rows and wrapping.

use vstd::prelude::*;
use vstd::slice::slice_subrange;
use vstd::string::*;

use crate::binary64::Binary64;
use crate::figures;
use crate::figures::{char_count, pad_right};
use crate::text;
use crate::text::{chars_of, copied, position_of, string_of, words_of};

verus! {

/// The role of a colour in a theme.
#[derive(Clone, Copy, Debug, PartialEq, Eq, Structural)]
pub enum Tone {
    Fg,
    Dim,
    Accent,
    Good,
    Warn,
    Bad,
    S1,
    S2,
    S3,
    /// The colour of a pool with the given usage.
    Usage(Binary64),
}

/// A run of text in one style.
#[derive(Debug)]
pub struct Span {
    pub text: String,
    pub tone: Tone,
    pub bold: bool,
}

/// What a span stands for.
pub struct SpanView {
    pub text: Seq<char>,
    pub tone: Tone,
    pub bold: bool,
}

impl View for Span {
    type V = SpanView;

    open spec fn view(&self) -> SpanView {
        SpanView { text: self.text@, tone: self.tone, bold: self.bold }
    }
}

/// A span of plain weight.
pub open spec fn plain(text: Seq<char>, tone: Tone) -> SpanView {
    SpanView { text, tone, bold: false }
}

/// A bold span.
pub open spec fn bold(text: Seq<char>, tone: Tone) -> SpanView {
    SpanView { text, tone, bold: true }
}

/// What a line stands for.
pub open spec fn line_view(l: Seq<Span>) -> Seq<SpanView> {
    l.map_values(|s: Span| s@)
}

/// What a list of lines stands for.
pub open spec fn lines_view(l: Seq<Vec<Span>>) -> Seq<Seq<SpanView>> {
    l.map_values(|s: Vec<Span>| line_view(s@))
}

pub(crate) fn plain_span(text: String, tone: Tone) -> (r: Span)
    ensures
        r@ == plain(text@, tone),
{
    Span { text, tone, bold: false }
}

pub(crate) fn bold_span(text: String, tone: Tone) -> (r: Span)
    ensures
        r@ == bold(text@, tone),
{
    Span { text, tone, bold: true }
}

/// The line of one span.
pub(crate) fn line_of(s: Span) -> (r: Vec<Span>)
    ensures
        line_view(r@) == seq![s@],
{
    let mut r: Vec<Span> = Vec::new();
    r.push(s);
    assert(line_view(r@) =~= seq![s@]);
    r
}

/// The line of two spans.
pub(crate) fn line_of_two(a: Span, b: Span) -> (r: Vec<Span>)
    ensures
        line_view(r@) == seq![a@, b@],
{
    let mut r: Vec<Span> = Vec::new();
    r.push(a);
    r.push(b);
    assert(line_view(r@) =~= seq![a@, b@]);
    r
}

/// The line of three spans.
pub(crate) fn line_of_three(a: Span, b: Span, c: Span) -> (r: Vec<Span>)
    ensures
        line_view(r@) == seq![a@, b@, c@],
{
    let mut r: Vec<Span> = Vec::new();
    r.push(a);
    r.push(b);
    r.push(c);
    assert(line_view(r@) =~= seq![a@, b@, c@]);
    r
}

/// The line of four spans.
pub(crate) fn line_of_four(a: Span, b: Span, c: Span, d: Span) -> (r: Vec<Span>)
    ensures
        line_view(r@) == seq![a@, b@, c@, d@],
{
    let mut r: Vec<Span> = Vec::new();
    r.push(a);
    r.push(b);
    r.push(c);
    r.push(d);
    assert(line_view(r@) =~= seq![a@, b@, c@, d@]);
    r
}

/// A text between two others.
pub(crate) fn between(before: &str, s: &str, after: &str) -> (r: String)
    ensures
        r@ == before@ + s@ + after@,
{
    let mut r: String = String::from_str(before);
    r.append(s);
    r.append(after);
    r
}

/// The number of characters in a line.
pub open spec fn line_len(line: Seq<SpanView>) -> nat
    decreases line.len(),
{
    if line.len() == 0 {
        0
    } else {
        line[0].text.len() + line_len(line.drop_first())
    }
}

/// The characters of a line.
pub open spec fn line_text(line: Seq<SpanView>) -> Seq<char>
    decreases line.len(),
{
    if line.len() == 0 {
        Seq::empty()
    } else {
        line[0].text + line_text(line.drop_first())
    }
}

/// The first `width - 1` characters of a longer line and an ellipsis, which takes the
/// style of the span that it falls in.
pub open spec fn chopped(line: Seq<SpanView>, width: nat) -> Seq<SpanView>
    decreases line.len(),
{
    if line.len() == 0 || width == 0 {
        Seq::empty()
    } else {
        let s = line[0];
        if s.text.len() < width {
            seq![s] + chopped(line.drop_first(), (width - s.text.len()) as nat)
        } else {
            seq![SpanView { text: s.text.take(width - 1).push('\u{2026}'), ..s }]
        }
    }
}

/// A line cut to `width` characters, with an ellipsis where text is lost.
pub open spec fn cut(line: Seq<SpanView>, width: nat) -> Seq<SpanView> {
    if width == 0 {
        Seq::empty()
    } else if line_len(line) <= width {
        line
    } else {
        chopped(line, width)
    }
}

proof fn lemma_line_text_len(line: Seq<SpanView>)
    ensures
        line_text(line).len() == line_len(line),
    decreases line.len(),
{
    if line.len() > 0 {
        lemma_line_text_len(line.drop_first());
    }
}

proof fn lemma_chopped(line: Seq<SpanView>, width: nat)
    requires
        0 < width < line_len(line),
    ensures
        line_text(chopped(line, width)) == line_text(line).take(width - 1).push('\u{2026}'),
        line_len(chopped(line, width)) == width,
    decreases line.len(),
{
    lemma_line_text_len(line);
    lemma_line_text_len(chopped(line, width));
    let s = line[0];
    let t = line_text(line.drop_first());
    let c = chopped(line, width);
    if s.text.len() < width {
        let left = (width - s.text.len()) as nat;
        lemma_chopped(line.drop_first(), left);
        assert(c[0] == s);
        assert(c.drop_first() =~= chopped(line.drop_first(), left));
        assert(s.text + t.take(left - 1).push('\u{2026}') =~= (s.text + t).take(width - 1).push(
            '\u{2026}',
        ));
    } else {
        assert(c.drop_first() =~= Seq::empty());
        assert(line_text(c.drop_first()) =~= Seq::empty());
        assert(line_text(c) =~= (s.text + t).take(width - 1).push('\u{2026}'));
    }
}

/// A line that is too long is cut to its width, which its first characters and an
/// ellipsis fill; a line that fits keeps its text.
pub proof fn cut_lines_fit(line: Seq<SpanView>, width: nat)
    ensures
        line_len(line) <= width ==> line_text(cut(line, width)) == line_text(line),
        line_len(line) > width > 0 ==> line_len(cut(line, width)) == width && line_text(
            cut(line, width),
        ) == line_text(line).take(width - 1).push('\u{2026}'),
        width == 0 ==> line_text(cut(line, width)).len() == 0,
{
    lemma_line_text_len(line);
    if width == 0 {
        assert(line_len(line) == 0 ==> line_text(line) =~= Seq::empty());
    } else if line_len(line) > width {
        lemma_chopped(line, width);
    }
}

/// Whether a line has more than `width` characters.
fn longer_than(line: &Vec<Span>, width: usize) -> (r: bool)
    ensures
        r == (line_len(line_view(line@)) > width),
{
    let ghost all = line_view(line@);
    let mut room: usize = width;
    let mut i: usize = 0;
    assert(all.skip(0) =~= all);
    while i < line.len()
        invariant
            i <= line@.len(),
            all == line_view(line@),
            line_len(all) + room == line_len(all.skip(i as int)) + width,
        decreases line@.len() - i,
    {
        let ghost rest = all.skip(i as int);
        assert(rest[0] == line@[i as int]@);
        assert(rest.drop_first() =~= all.skip(i + 1));
        let n: usize = char_count(line[i].text.as_str());
        if n > room {
            return true;
        }
        room = room - n;
        i += 1;
    }
    false
}

/// Cuts a line to `width` characters, with an ellipsis where text is lost.
pub fn truncate_line(line: &Vec<Span>, width: usize) -> (r: Vec<Span>)
    ensures
        line_view(r@) == cut(line_view(line@), width as nat),
{
    let ghost all = line_view(line@);
    let mut r: Vec<Span> = Vec::new();
    if width == 0 {
        assert(line_view(r@) =~= Seq::empty());
        return r;
    }
    let long: bool = longer_than(line, width);
    let mut remaining: usize = width;
    let mut i: usize = 0;
    assert(all.skip(0) =~= all);
    assert(all.take(0) =~= Seq::empty());
    assert(line_view(r@) =~= Seq::empty());
    assert(line_view(r@) + chopped(all, width as nat) =~= chopped(all, width as nat));
    while i < line.len()
        invariant
            i <= line@.len(),
            all == line_view(line@),
            width > 0,
            long == (line_len(all) > width),
            !long ==> line_view(r@) == all.take(i as int),
            long ==> remaining > 0 && line_view(r@) + chopped(
                all.skip(i as int),
                remaining as nat,
            ) == chopped(all, width as nat),
        decreases line@.len() - i,
    {
        let s: &Span = &line[i];
        let ghost rest = all.skip(i as int);
        let ghost had = line_view(r@);
        assert(rest[0] == s@);
        assert(rest.drop_first() =~= all.skip(i + 1));
        if long {
            let n: usize = char_count(s.text.as_str());
            if n >= remaining {
                let v: Vec<char> = chars_of(s.text.as_str());
                let mut text: String = string_of(slice_subrange(v.as_slice(), 0, remaining - 1));
                assert(text@ =~= s.text@.take(remaining - 1));
                text.push('\u{2026}');
                r.push(Span { text, tone: s.tone, bold: s.bold });
                let ghost last = SpanView { text: text@, tone: s.tone, bold: s.bold };
                assert(line_view(r@) =~= had + seq![last]);
                return r;
            }
            let ghost tail = chopped(all.skip(i + 1), (remaining - n) as nat);
            remaining = remaining - n;
            assert(had + (seq![s@] + tail) =~= had.push(s@) + tail);
        }
        r.push(Span { text: s.text.clone(), tone: s.tone, bold: s.bold });
        assert(line_view(r@) =~= had.push(s@));
        assert(all.take(i + 1) =~= all.take(i as int).push(s@));
        i += 1;
    }
    assert(all.take(i as int) =~= all);
    if long {
        assert(chopped(all.skip(i as int), remaining as nat) =~= Seq::empty());
        assert(line_view(r@) =~= cut(all, width as nat));
    }
    r
}

/// One row of a key, a value and a gloss.
#[derive(Debug)]
pub struct Kv {
    pub k: String,
    pub v: String,
    pub gloss: String,
    pub tone: Option<Tone>,
}

/// What a row stands for.
pub struct KvView {
    pub k: Seq<char>,
    pub v: Seq<char>,
    pub gloss: Seq<char>,
    pub tone: Option<Tone>,
}

impl View for Kv {
    type V = KvView;

    open spec fn view(&self) -> KvView {
        KvView { k: self.k@, v: self.v@, gloss: self.gloss@, tone: self.tone }
    }
}

/// What a list of rows stands for.
pub open spec fn kvs_view(s: Seq<Kv>) -> Seq<KvView> {
    s.map_values(|e: Kv| e@)
}

/// A row of plain colour.
pub open spec fn kv_plain(k: Seq<char>, v: Seq<char>, gloss: Seq<char>) -> KvView {
    KvView { k, v, gloss, tone: None }
}

/// A row with a coloured value.
pub open spec fn kv_colored(k: Seq<char>, v: Seq<char>, gloss: Seq<char>, tone: Tone) -> KvView {
    KvView { k, v, gloss, tone: Some(tone) }
}

/// A row of a gloss alone.
pub open spec fn kv_gloss(gloss: Seq<char>) -> KvView {
    KvView { k: Seq::empty(), v: Seq::empty(), gloss, tone: None }
}

impl Kv {
    /// A row of plain colour.
    pub fn plain(k: &str, v: String, gloss: &str) -> (r: Kv)
        ensures
            r@ == kv_plain(k@, v@, gloss@),
    {
        Kv { k: String::from_str(k), v, gloss: String::from_str(gloss), tone: None }
    }

    /// A row with a coloured value.
    pub fn colored(k: &str, v: String, gloss: &str, tone: Tone) -> (r: Kv)
        ensures
            r@ == kv_colored(k@, v@, gloss@, tone),
    {
        Kv { k: String::from_str(k), v, gloss: String::from_str(gloss), tone: Some(tone) }
    }

    /// A dim line over the full width.
    pub fn gloss_only(gloss: String) -> (r: Kv)
        ensures
            r@ == kv_gloss(gloss@),
    {
        Kv { k: String::new(), v: String::new(), gloss, tone: None }
    }
}

/// The length of the longest key.
pub open spec fn widest_key(s: Seq<KvView>) -> nat
    decreases s.len(),
{
    if s.len() == 0 {
        0
    } else {
        let w = widest_key(s.drop_last());
        if s.last().k.len() > w {
            s.last().k.len()
        } else {
            w
        }
    }
}

/// The length of the longest value.
pub open spec fn widest_value(s: Seq<KvView>) -> nat
    decreases s.len(),
{
    if s.len() == 0 {
        0
    } else {
        let w = widest_value(s.drop_last());
        if s.last().v.len() > w {
            s.last().v.len()
        } else {
            w
        }
    }
}

/// A row as a line with the given widths of the key and value columns.
pub open spec fn kv_line(e: KvView, kpad: nat, vpad: nat, width: nat) -> Seq<SpanView> {
    if e.k.len() == 0 && e.v.len() == 0 {
        cut(seq![plain(" "@ + e.gloss, Tone::Dim)], width)
    } else {
        let tone = match e.tone {
            Some(t) => t,
            None => Tone::Fg,
        };
        cut(
            seq![
                plain(" "@ + figures::padded_right(e.k, kpad) + "  "@, Tone::Fg),
                bold(figures::padded_right(e.v, vpad) + "  "@, tone),
                plain(e.gloss, Tone::Dim),
            ],
            width,
        )
    }
}

/// Rows as lines: the key column is as wide as the longest key and at least eight, the
/// value column as wide as the longest value.
pub open spec fn kv_table(s: Seq<KvView>, width: nat) -> Seq<Seq<SpanView>> {
    let k = widest_key(s);
    let kpad = if k > 8 {
        k
    } else {
        8
    };
    Seq::new(s.len(), |i: int| kv_line(s[i], kpad, widest_value(s), width))
}

/// Lays rows out as lines.
pub fn kv_lines(entries: &Vec<Kv>, width: usize) -> (r: Vec<Vec<Span>>)
    ensures
        lines_view(r@) == kv_table(kvs_view(entries@), width as nat),
{
    let ghost all = kvs_view(entries@);
    let mut kpad: usize = 0;
    let mut vpad: usize = 0;
    let mut i: usize = 0;
    assert(all.take(0) =~= Seq::empty());
    while i < entries.len()
        invariant
            i <= entries@.len(),
            all == kvs_view(entries@),
            kpad == widest_key(all.take(i as int)),
            vpad == widest_value(all.take(i as int)),
        decreases entries@.len() - i,
    {
        assert(all.take(i + 1).drop_last() =~= all.take(i as int));
        assert(all.take(i + 1).last() == entries@[i as int]@);
        let k: usize = char_count(entries[i].k.as_str());
        let v: usize = char_count(entries[i].v.as_str());
        if k > kpad {
            kpad = k;
        }
        if v > vpad {
            vpad = v;
        }
        i += 1;
    }
    assert(all.take(i as int) =~= all);
    if kpad < 8 {
        kpad = 8;
    }
    let mut r: Vec<Vec<Span>> = Vec::new();
    let mut n: usize = 0;
    while n < entries.len()
        invariant
            n <= entries@.len(),
            all == kvs_view(entries@),
            kpad == (if widest_key(all) > 8 {
                widest_key(all)
            } else {
                8
            }),
            vpad == widest_value(all),
            r@.len() == n,
            forall|j: int|
                0 <= j < n ==> line_view((#[trigger] r@[j])@) == kv_line(
                    all[j],
                    kpad as nat,
                    vpad as nat,
                    width as nat,
                ),
        decreases entries@.len() - n,
    {
        let e: &Kv = &entries[n];
        assert(all[n as int] == e@);
        let line: Vec<Span> = if char_count(e.k.as_str()) == 0 && char_count(e.v.as_str()) == 0 {
            let mut text: String = String::from_str(" ");
            text.append(e.gloss.as_str());
            line_of(plain_span(text, Tone::Dim))
        } else {
            let tone: Tone = match e.tone {
                Some(t) => t,
                None => Tone::Fg,
            };
            let mut value: String = pad_right(e.v.as_str(), vpad);
            value.append("  ");
            line_of_three(
                plain_span(between(" ", pad_right(e.k.as_str(), kpad).as_str(), "  "), Tone::Fg),
                bold_span(value, tone),
                plain_span(e.gloss.clone(), Tone::Dim),
            )
        };
        r.push(truncate_line(&line, width));
        n += 1;
    }
    assert(lines_view(r@) =~= kv_table(all, width as nat));
    r
}

/// The number of bytes of a character in UTF-8.
pub open spec fn char_bytes(c: char) -> nat {
    if c <= '\u{7f}' {
        1
    } else if c <= '\u{7ff}' {
        2
    } else if c <= '\u{ffff}' {
        3
    } else {
        4
    }
}

/// The number of bytes of a text in UTF-8.
pub open spec fn text_bytes(s: Seq<char>) -> nat
    decreases s.len(),
{
    if s.len() == 0 {
        0
    } else {
        text_bytes(s.drop_last()) + char_bytes(s.last())
    }
}

fn byte_count(v: &[char]) -> (n: u128)
    ensures
        n == text_bytes(v@),
        n <= 4 * usize::MAX,
{
    let mut n: u128 = 0;
    let mut i: usize = 0;
    assert(v@.take(0) =~= Seq::empty());
    while i < v.len()
        invariant
            i <= v@.len(),
            n == text_bytes(v@.take(i as int)),
            n <= 4 * i,
        decreases v@.len() - i,
    {
        assert(v@.take(i + 1).drop_last() =~= v@.take(i as int));
        let c: char = v[i];
        let b: u128 = if c <= '\u{7f}' {
            1
        } else if c <= '\u{7ff}' {
            2
        } else if c <= '\u{ffff}' {
            3
        } else {
            4
        };
        n = n + b;
        i += 1;
    }
    assert(v@.take(i as int) =~= v@);
    n
}

/// Lines filled with words, behind a line that is begun; no line that holds more than
/// one word is longer than `width` bytes.
pub open spec fn filled(words: Seq<Seq<char>>, width: nat, line: Seq<char>) -> Seq<Seq<char>>
    decreases words.len(),
{
    if words.len() == 0 {
        seq![line]
    } else if line.len() == 0 {
        filled(words.drop_first(), width, words[0])
    } else if text_bytes(line) + text_bytes(words[0]) + 1 > width {
        seq![line] + filled(words.drop_first(), width, words[0])
    } else {
        filled(words.drop_first(), width, line.push(' ') + words[0])
    }
}

/// The lines of a text, each filled anew.
pub open spec fn wrapped_text(s: Seq<char>, width: nat) -> Seq<Seq<char>>
    decreases s.len(),
{
    let n = text::find_char(s, '\n') as int;
    if n >= s.len() {
        filled(text::words(s), width, Seq::empty())
    } else {
        filled(text::words(s.take(n)), width, Seq::empty()) + wrapped_text(s.skip(n + 1), width)
    }
}

/// The words of lines, one line after the other.
pub open spec fn all_words(l: Seq<Seq<char>>) -> Seq<Seq<char>>
    decreases l.len(),
{
    if l.len() == 0 {
        Seq::empty()
    } else {
        text::words(l[0]) + all_words(l.drop_first())
    }
}

proof fn lemma_all_words_append(a: Seq<Seq<char>>, b: Seq<Seq<char>>)
    ensures
        all_words(a + b) == all_words(a) + all_words(b),
    decreases a.len(),
{
    if a.len() == 0 {
        assert(a + b =~= b);
        assert(all_words(a) + all_words(b) =~= all_words(b));
    } else {
        assert((a + b)[0] == a[0]);
        assert((a + b).drop_first() =~= a.drop_first() + b);
        lemma_all_words_append(a.drop_first(), b);
        assert(text::words(a[0]) + (all_words(a.drop_first()) + all_words(b)) =~= (text::words(a[0])
            + all_words(a.drop_first())) + all_words(b));
    }
}

proof fn lemma_bytes_append(a: Seq<char>, b: Seq<char>)
    ensures
        text_bytes(a + b) == text_bytes(a) + text_bytes(b),
    decreases b.len(),
{
    if b.len() == 0 {
        assert(a + b =~= a);
    } else {
        assert((a + b).drop_last() =~= a + b.drop_last());
        lemma_bytes_append(a, b.drop_last());
    }
}

/// A line of at most `width` bytes or of one word.
pub open spec fn fits(line: Seq<char>, width: nat) -> bool {
    text_bytes(line) <= width || text::words(line).len() <= 1
}

proof fn lemma_filled(w: Seq<Seq<char>>, width: nat, line: Seq<char>)
    requires
        forall|i: int| 0 <= i < w.len() ==> text::is_word(#[trigger] w[i]),
        fits(line, width),
    ensures
        all_words(filled(w, width, line)) == text::words(line) + w,
        forall|i: int|
            0 <= i < filled(w, width, line).len() ==> fits(
                #[trigger] filled(w, width, line)[i],
                width,
            ),
    decreases w.len(),
{
    if w.len() == 0 {
        assert(seq![line].drop_first() =~= Seq::empty());
        assert(all_words(seq![line].drop_first()) =~= Seq::empty());
        assert(all_words(seq![line]) =~= text::words(line) + w);
    } else {
        let rest = w.drop_first();
        assert(text::is_word(w[0]));
        assert forall|i: int| 0 <= i < rest.len() implies text::is_word(#[trigger] rest[i]) by {
            assert(rest[i] == w[i + 1]);
        }
        text::lemma_one_word(w[0]);
        assert(w =~= seq![w[0]] + rest);
        if line.len() == 0 {
            assert(text::words(line) =~= Seq::empty());
            lemma_filled(rest, width, w[0]);
            assert(text::words(line) + w =~= text::words(w[0]) + rest);
        } else if text_bytes(line) + text_bytes(w[0]) + 1 > width {
            lemma_filled(rest, width, w[0]);
            let later = filled(rest, width, w[0]);
            let all = seq![line] + later;
            assert(all.drop_first() =~= later);
            assert(text::words(line) + (seq![w[0]] + rest) =~= text::words(line) + w);
            assert forall|i: int| 0 <= i < all.len() implies fits(#[trigger] all[i], width) by {
                if i > 0 {
                    assert(fits(later[i - 1], width));
                }
            }
        } else {
            let next = line.push(' ') + w[0];
            let tail = seq![' '] + w[0];
            assert(next =~= line + tail);
            text::lemma_words_append(line, tail);
            lemma_bytes_append(line, tail);
            lemma_bytes_append(seq![' '], w[0]);
            assert(text_bytes(seq![' ']) == 1) by {
                assert(seq![' '].drop_last() =~= Seq::empty());
                assert(text_bytes(seq![' '].drop_last()) == 0);
            }
            lemma_filled(rest, width, next);
            assert(text::words(next) + rest =~= text::words(line) + w);
        }
    }
}

/// Wrapping keeps every word, in order, and no line of more than one word is longer than
/// asked for.
pub proof fn wrapping_keeps_words(s: Seq<char>, width: nat)
    ensures
        all_words(wrapped_text(s, width)) == text::words(s),
        forall|i: int|
            0 <= i < wrapped_text(s, width).len() ==> fits(
                #[trigger] wrapped_text(s, width)[i],
                width,
            ),
    decreases s.len(),
{
    let n = text::find_char(s, '\n') as int;
    let none = Seq::<char>::empty();
    assert(text::words(none) =~= Seq::empty());
    if n >= s.len() {
        text::lemma_words_are_words(s);
        lemma_filled(text::words(s), width, none);
        assert(text::words(none) + text::words(s) =~= text::words(s));
    } else {
        text::lemma_find_char(s, '\n');
        let a = s.take(n);
        let b = s.skip(n + 1);
        text::lemma_words_are_words(a);
        lemma_filled(text::words(a), width, none);
        assert(text::words(none) + text::words(a) =~= text::words(a));
        wrapping_keeps_words(b, width);
        let fa = filled(text::words(a), width, none);
        let fb = wrapped_text(b, width);
        lemma_all_words_append(fa, fb);
        let tail = seq!['\n'] + b;
        assert(s =~= a + tail);
        text::lemma_words_append(a, tail);
        assert(text::words(tail) == text::words(b)) by {
            assert(tail.drop_first() =~= b);
            assert(text::trim_start(tail) == text::trim_start(b));
        }
        assert forall|i: int| 0 <= i < (fa + fb).len() implies fits(
            #[trigger] (fa + fb)[i],
            width,
        ) by {
            if i < fa.len() {
                assert(fits(fa[i], width));
            } else {
                assert(fits(fb[i - fa.len()], width));
            }
        }
    }
}

/// A list of strings as texts.
pub open spec fn strings_view(s: Seq<String>) -> Seq<Seq<char>> {
    s.map_values(|x: String| x@)
}

fn fill(out: &mut Vec<String>, line: &[char], width: usize)
    ensures
        strings_view(final(out)@) == strings_view(old(out)@) + filled(
            text::words(line@),
            width as nat,
            Seq::empty(),
        ),
{
    let words: Vec<Vec<char>> = words_of(line);
    let ghost all = text::words(line@);
    let ghost before = strings_view(out@);
    let ghost whole = before + filled(all, width as nat, Seq::empty());
    let mut cur: Vec<char> = Vec::new();
    let mut i: usize = 0;
    assert(all.skip(0) =~= all);
    assert(cur@ =~= Seq::empty());
    while i < words.len()
        invariant
            i <= words@.len(),
            words@.len() == all.len(),
            forall|j: int| 0 <= j < words@.len() ==> (#[trigger] words@[j])@ == all[j],
            strings_view(out@) + filled(all.skip(i as int), width as nat, cur@) == whole,
        decreases words@.len() - i,
    {
        let ghost rest = all.skip(i as int);
        let ghost had = strings_view(out@);
        let ghost line = cur@;
        assert(rest[0] == words@[i as int]@);
        assert(rest.drop_first() =~= all.skip(i + 1));
        if cur.len() == 0 {
            cur = copied(words[i].as_slice());
        } else if byte_count(cur.as_slice()) + byte_count(words[i].as_slice()) + 1 > width as u128 {
            out.push(string_of(cur.as_slice()));
            cur = copied(words[i].as_slice());
            assert(strings_view(out@) =~= had.push(line));
            assert(had + (seq![line] + filled(all.skip(i + 1), width as nat, cur@)) =~= had.push(
                line,
            ) + filled(all.skip(i + 1), width as nat, cur@));
        } else {
            cur.push(' ');
            let mut j: usize = 0;
            while j < words[i].len()
                invariant
                    i < words@.len(),
                    j <= words@[i as int]@.len(),
                    cur@ == line.push(' ') + words@[i as int]@.take(j as int),
                decreases words@[i as int]@.len() - j,
            {
                cur.push(words[i][j]);
                j += 1;
                assert(cur@ =~= line.push(' ') + words@[i as int]@.take(j as int));
            }
            assert(words@[i as int]@.take(j as int) =~= words@[i as int]@);
        }
        i += 1;
    }
    let ghost had = strings_view(out@);
    out.push(string_of(cur.as_slice()));
    assert(all.skip(i as int) =~= Seq::empty());
    assert(strings_view(out@) =~= had + seq![cur@]);
}

/// Wraps a text into lines of `width` bytes.
pub fn wrap_text(s: &str, width: usize) -> (r: Vec<String>)
    ensures
        strings_view(r@) == wrapped_text(s@, width as nat),
{
    let v: Vec<char> = chars_of(s);
    let mut out: Vec<String> = Vec::new();
    let mut at: usize = 0;
    let ghost whole = wrapped_text(s@, width as nat);
    assert(v@.skip(0) =~= v@);
    assert(strings_view(out@) + whole =~= whole);
    loop
        invariant_except_break
            at <= v@.len(),
            v@ == s@,
            whole == wrapped_text(s@, width as nat),
            strings_view(out@) + wrapped_text(v@.skip(at as int), width as nat) == whole,
        ensures
            strings_view(out@) == whole,
        decreases v@.len() - at,
    {
        let rest: &[char] = slice_subrange(v.as_slice(), at, v.len());
        let ghost had = strings_view(out@);
        assert(rest@ =~= v@.skip(at as int));
        let n: usize = position_of(rest, '\n');
        let line: &[char] = slice_subrange(rest, 0, n);
        assert(line@ =~= rest@.take(n as int));
        fill(&mut out, line, width);
        if n >= rest.len() {
            assert(rest@.take(n as int) =~= rest@);
            break;
        }
        at = at + n + 1;
        proof {
            assert(rest@.skip(n + 1) =~= v@.skip(at as int));
            let a = filled(text::words(line@), width as nat, Seq::empty());
            let b = wrapped_text(v@.skip(at as int), width as nat);
            assert(had + (a + b) =~= (had + a) + b);
        }
    }
    out
}

} // verus!
