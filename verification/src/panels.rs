//! The texts of the panels.

use vstd::prelude::*;
use vstd::string::*;

use crate::binary64;
use crate::binary64::Binary64;
use crate::decimal::lower_case;
use crate::derive::{Derived, Peaks, Pool, Quantiles, Stalls, WIN_LABELS};
use crate::figures;
use crate::figures::{
    fmt_dur, fmt_num, fmt_secs, pad_left, pad_right, pool_value, prompt_computed_gloss,
    computed_size_span, prompt_size_span, triple,
};
use crate::fixed;
use crate::fixed::{append_decimal, append_fixed};
use crate::history;
use crate::lines;
use crate::lines::{
    between, bold_span, line_of, line_of_four, line_of_three, line_of_two, plain_span,
    truncate_line, Span, SpanView, Tone,
};
use crate::text::{chars_of, same_text, string_of};
use crate::ui::{RateGraph, Ui};

verus! {

/// The line at the top: the model, how long it was watched, the poll interval, and what
/// to worry about. Times are in nanoseconds.
pub open spec fn header(ui: Ui, d: Option<&Derived>, uptime: Option<u64>, age: Option<u64>) -> Seq<
    SpanView,
> {
    let name = match d {
        Some(x) => seq![
            lines::plain(" · "@ + x.model@ + " ("@ + x.engine@ + ")"@, Tone::Fg),
        ],
        None => Seq::empty(),
    };
    let up = match (d, uptime) {
        (Some(_), Some(u)) => seq![
            lines::plain(" · up "@ + figures::dur_text(u as nat / 1_000_000_000), Tone::Dim),
        ],
        _ => Seq::empty(),
    };
    let poll = seq![
        lines::plain(" · poll "@ + fixed::fixed_text(ui.interval, 1) + "s"@, Tone::Dim),
    ];
    let tls = if ui.insecure {
        seq![lines::plain(" · ⚠ insecure TLS"@, Tone::Warn)]
    } else {
        Seq::empty()
    };
    let old_data = match age {
        Some(a) => if a > 2_000_000_000 {
            seq![
                lines::plain(
                    " · data "@ + fixed::fixed_text(binary64::seconds(a as nat), 0) + "s old"@,
                    Tone::Warn,
                ),
            ]
        } else {
            Seq::empty()
        },
        None => Seq::empty(),
    };
    seq![lines::bold(" vllm-top"@, Tone::Accent)] + name + up + poll + tls + old_data + seq![
        lines::plain("  [? help · e explain]"@, Tone::Dim),
    ]
}

/// The line at the top.
pub fn header_line(ui: &Ui, d: Option<&Derived>, uptime: Option<u64>, age: Option<u64>) -> (r: Vec<
    Span,
>)
    ensures
        lines::line_view(r@) == header(*ui, d, uptime, age),
{
    let mut r: Vec<Span> = Vec::new();
    r.push(bold_span(String::from_str(" vllm-top"), Tone::Accent));
    if let Some(x) = d {
        let mut s: String = between(" · ", x.model.as_str(), " (");
        s.append(x.engine.as_str());
        s.append(")");
        r.push(plain_span(s, Tone::Fg));
        if let Some(u) = uptime {
            let mut s: String = String::from_str(" · up ");
            s.append(fmt_dur(u).as_str());
            r.push(plain_span(s, Tone::Dim));
        }
    }
    let poll: String = fixed::fixed(ui.interval, 1);
    r.push(plain_span(between(" · poll ", poll.as_str(), "s"), Tone::Dim));
    if ui.insecure {
        r.push(plain_span(String::from_str(" · ⚠ insecure TLS"), Tone::Warn));
    }
    if let Some(a) = age {
        if a > 2_000_000_000 {
            let secs: String = fixed::fixed(Binary64::from_nanos(a), 0);
            r.push(plain_span(between(" · data ", secs.as_str(), "s old"), Tone::Warn));
        }
    }
    r.push(plain_span(String::from_str("  [? help · e explain]"), Tone::Dim));
    assert(lines::line_view(r@) =~= header(*ui, d, uptime, age));
    r
}

/// The colour of a latency: lower is better.
pub open spec fn latency_tone(v: Option<Binary64>) -> Tone {
    match v {
        Some(x) => if binary64::less(binary64::integer(2), x) {
            Tone::Bad
        } else if binary64::less(history::half(), x) {
            Tone::Warn
        } else {
            Tone::Good
        },
        None => Tone::Dim,
    }
}

/// The colour of a latency.
pub fn latency_color(v: Option<Binary64>) -> (r: Tone)
    ensures
        r == latency_tone(v),
{
    match v {
        Some(x) => {
            let half: Binary64 = Binary64::from_u64(1).over(Binary64::from_u64(2));
            if Binary64::from_u64(2).lt(x) {
                Tone::Bad
            } else if half.lt(x) {
                Tone::Warn
            } else {
                Tone::Good
            }
        },
        None => Tone::Dim,
    }
}

/// The colour of a rate that should be zero.
pub open spec fn trouble_tone(v: Option<Binary64>) -> Tone {
    match v {
        Some(x) => if binary64::less(binary64::zero(), x) {
            Tone::Bad
        } else {
            Tone::Good
        },
        None => Tone::Good,
    }
}

/// The colour of a rate that should be zero.
pub fn trouble_color(v: Option<Binary64>) -> (r: Tone)
    ensures
        r == trouble_tone(v),
{
    match v {
        Some(x) => if Binary64::from_bits(0).lt(x) {
            Tone::Bad
        } else {
            Tone::Good
        },
        None => Tone::Good,
    }
}

/// The colour of the queue.
pub open spec fn queue_tone(v: Option<Binary64>) -> Tone {
    match v {
        Some(q) => if binary64::less(binary64::integer(20), q) {
            Tone::Bad
        } else if binary64::less(binary64::integer(5), q) {
            Tone::Warn
        } else {
            Tone::Fg
        },
        None => Tone::Fg,
    }
}

fn queue_color(v: Option<Binary64>) -> (r: Tone)
    ensures
        r == queue_tone(v),
{
    match v {
        Some(q) => if Binary64::from_u64(20).lt(q) {
            Tone::Bad
        } else if Binary64::from_u64(5).lt(q) {
            Tone::Warn
        } else {
            Tone::Fg
        },
        None => Tone::Fg,
    }
}

/// One cell of the status strip.
#[derive(Debug)]
pub struct Cell {
    pub label: String,
    pub lines: Vec<Vec<Span>>,
}

/// What a cell stands for.
pub struct CellView {
    pub label: Seq<char>,
    pub lines: Seq<Seq<SpanView>>,
}

impl View for Cell {
    type V = CellView;

    open spec fn view(&self) -> CellView {
        CellView { label: self.label@, lines: lines::lines_view(self.lines@) }
    }
}

/// What a list of cells stands for.
pub open spec fn cells_view(c: Seq<Cell>) -> Seq<CellView> {
    c.map_values(|x: Cell| x@)
}

/// A cell of one value with a gloss under it.
pub open spec fn value_cell(
    label: Seq<char>,
    value: Seq<char>,
    sub: Seq<char>,
    tone: Tone,
) -> CellView {
    CellView {
        label,
        lines: seq![
            seq![lines::bold(" "@ + value, tone)],
            seq![lines::plain(" "@ + sub, Tone::Dim)],
        ],
    }
}

fn make_value_cell(label: &str, value: String, sub: &str, tone: Tone) -> (r: Cell)
    ensures
        r@ == value_cell(label@, value@, sub@, tone),
{
    let mut a: String = String::from_str(" ");
    a.append(value.as_str());
    let mut b: String = String::from_str(" ");
    b.append(sub);
    let mut l: Vec<Vec<Span>> = Vec::new();
    l.push(line_of(bold_span(a, tone)));
    l.push(line_of(plain_span(b, Tone::Dim)));
    let r: Cell = Cell { label: String::from_str(label), lines: l };
    assert(r@.lines =~= value_cell(label@, value@, sub@, tone).lines);
    r
}

/// A number, zero where it is not known.
pub open spec fn or_zero(v: Option<Binary64>) -> Binary64 {
    match v {
        Some(x) => x,
        None => binary64::zero(),
    }
}

fn value_or_zero(v: Option<Binary64>) -> (r: Binary64)
    ensures
        r == or_zero(v),
{
    match v {
        Some(x) => x,
        None => Binary64::from_bits(0),
    }
}

/// A rate now and over the three windows.
pub open spec fn rate_line(
    tag: Seq<char>,
    now: Option<Binary64>,
    win: [Option<Binary64>; 3],
    tone: Tone,
) -> Seq<SpanView> {
    seq![
        lines::plain(" "@ + tag + " "@, Tone::Dim),
        lines::bold(fixed::fixed_text(or_zero(now), 0) + " tok/s"@, tone),
        lines::plain("  ·  "@ + figures::triple_text(win), Tone::Dim),
    ]
}

fn make_rate_line(
    tag: &str,
    now: Option<Binary64>,
    win: &[Option<Binary64>; 3],
    tone: Tone,
) -> (r: Vec<Span>)
    ensures
        lines::line_view(r@) == rate_line(tag@, now, *win, tone),
{
    let mut rate: String = fixed::fixed(value_or_zero(now), 0);
    rate.append(" tok/s");
    let mut three: String = String::from_str("  ·  ");
    three.append(triple(win).as_str());
    line_of_three(
        plain_span(between(" ", tag, " "), Tone::Dim),
        bold_span(rate, tone),
        plain_span(three, Tone::Dim),
    )
}

/// The token rates, with the prompt sizes under them as far as they are known.
pub open spec fn rates_cell(d: &Derived) -> CellView {
    let gloss = match figures::pair_gloss(d) {
        Some(g) => seq![seq![lines::plain(" "@ + g, Tone::Dim)]],
        None => Seq::empty(),
    };
    CellView {
        label: "TOKEN/s"@,
        lines: seq![
            rate_line("prefill"@, d.prefill_instant, d.prefill_rate, Tone::S2),
            rate_line("decode"@, d.decode_instant, d.decode_rate, Tone::S1),
        ] + gloss,
    }
}

fn make_rates_cell(d: &Derived) -> (r: Cell)
    ensures
        r@ == rates_cell(d),
{
    let mut l: Vec<Vec<Span>> = Vec::new();
    l.push(make_rate_line("prefill", d.prefill_instant, &d.prefill_rate, Tone::S2));
    l.push(make_rate_line("decode", d.decode_instant, &d.decode_rate, Tone::S1));
    if let Some(g) = prompt_computed_gloss(d) {
        let mut s: String = String::from_str(" ");
        s.append(g.as_str());
        l.push(line_of(plain_span(s, Tone::Dim)));
    }
    let r: Cell = Cell { label: String::from_str("TOKEN/s"), lines: l };
    assert(r@.lines =~= rates_cell(d).lines);
    r
}

/// How many stalls a window has.
pub open spec fn stall_count(s: Stalls) -> Seq<char> {
    if s.count > 0 {
        fixed::digits_text(s.count as nat) + "×"@
    } else {
        "0"@
    }
}

/// The stalls of the window in focus, bold while there are any.
pub open spec fn stalls_cell(s: Stalls, label: Seq<char>) -> CellView {
    let count = SpanView {
        text: " "@ + stall_count(s),
        tone: if s.count > 0 {
            Tone::Bad
        } else {
            Tone::Good
        },
        bold: s.count > 0,
    };
    CellView {
        label: "STALLS"@,
        lines: seq![
            seq![count],
            seq![
                lines::plain(
                    " "@ + (fixed::fixed_text(s.seconds, 1) + "s frozen in "@ + label),
                    Tone::Dim,
                ),
            ],
        ],
    }
}

fn make_stalls_cell(s: Stalls, label: &str) -> (r: Cell)
    ensures
        r@ == stalls_cell(s, label@),
{
    let mut count: String = String::new();
    if s.count > 0 {
        append_decimal(&mut count, s.count as u64);
        count.append("×");
    } else {
        count.append("0");
    }
    assert(count@ =~= stall_count(s));
    let mut first: String = String::from_str(" ");
    first.append(count.as_str());
    let mut frozen: String = fixed::fixed(s.seconds, 1);
    frozen.append("s frozen in ");
    frozen.append(label);
    let mut sub: String = String::from_str(" ");
    sub.append(frozen.as_str());
    let span: Span = if s.count > 0 {
        bold_span(first, Tone::Bad)
    } else {
        plain_span(first, Tone::Good)
    };
    let mut l: Vec<Vec<Span>> = Vec::new();
    l.push(line_of(span));
    l.push(line_of(plain_span(sub, Tone::Dim)));
    let r: Cell = Cell { label: String::from_str("STALLS"), lines: l };
    assert(r@.lines =~= stalls_cell(s, label@).lines);
    r
}

/// The lines of the pools but for the host pool, which idles near full by design.
pub open spec fn pool_lines(p: Seq<Pool>) -> Seq<Seq<SpanView>>
    decreases p.len(),
{
    if p.len() == 0 {
        Seq::empty()
    } else {
        let before = pool_lines(p.drop_last());
        let x = p.last();
        if x.name@ == "host"@ {
            before
        } else {
            before.push(
                seq![
                    lines::bold(
                        " "@ + x.name@ + " "@ + figures::pool_text(x),
                        Tone::Usage(x.usage),
                    ),
                ],
            )
        }
    }
}

/// The pools, and what a full one means.
pub open spec fn pools_cell(p: Seq<Pool>) -> CellView {
    CellView {
        label: "MEMORY POOLS"@,
        lines: pool_lines(p).push(seq![lines::plain(" full = requests queue"@, Tone::Dim)]),
    }
}

fn make_pools_cell(p: &Vec<Pool>) -> (r: Cell)
    ensures
        r@ == pools_cell(p@),
{
    let mut l: Vec<Vec<Span>> = Vec::new();
    let mut i: usize = 0;
    assert(p@.take(0) =~= Seq::empty());
    assert(lines::lines_view(l@) =~= pool_lines(p@.take(0)));
    while i < p.len()
        invariant
            i <= p@.len(),
            lines::lines_view(l@) == pool_lines(p@.take(i as int)),
        decreases p@.len() - i,
    {
        let x: &Pool = &p[i];
        let ghost had = lines::lines_view(l@);
        assert(p@.take(i + 1).drop_last() =~= p@.take(i as int));
        assert(p@.take(i + 1).last() == x);
        if !same_text(x.name, "host") {
            let mut s: String = between(" ", x.name, " ");
            if let Some(v) = pool_value(x) {
                s.append(v.as_str());
            }
            let line: Vec<Span> = line_of(bold_span(s, Tone::Usage(x.usage)));
            let ghost lv = lines::line_view(line@);
            l.push(line);
            assert(lines::lines_view(l@) =~= had.push(lv));
        }
        i += 1;
    }
    assert(p@.take(i as int) =~= p@);
    let ghost had = lines::lines_view(l@);
    l.push(line_of(plain_span(String::from_str(" full = requests queue"), Tone::Dim)));
    let r: Cell = Cell { label: String::from_str("MEMORY POOLS"), lines: l };
    assert(r@.lines =~= pools_cell(p@).lines);
    r
}

/// The cells of the status strip, for the window in focus.
pub open spec fn hero(d: &Derived, focus: int) -> Seq<CellView> {
    seq![
        value_cell(
            "RUNNING"@,
            figures::num_text(d.running),
            "being answered now"@,
            Tone::Fg,
        ),
        value_cell(
            "QUEUE"@,
            figures::num_text(d.queue),
            "waiting to start"@,
            queue_tone(d.queue),
        ),
        rates_cell(d),
        value_cell(
            "TIME TO FIRST TOKEN"@,
            figures::secs_text(d.ttft[focus].p95),
            "p95 · first token"@,
            latency_tone(d.ttft[focus].p95),
        ),
        stalls_cell(d.stalls[focus], WIN_LABELS[focus]@),
        pools_cell(d.pools@),
    ]
}

/// The cells of the status strip.
pub fn hero_cells(d: &Derived, focus: usize) -> (r: Vec<Cell>)
    requires
        focus < 3,
    ensures
        cells_view(r@) == hero(d, focus as int),
{
    let mut r: Vec<Cell> = Vec::new();
    r.push(make_value_cell("RUNNING", fmt_num(d.running), "being answered now", Tone::Fg));
    r.push(
        make_value_cell("QUEUE", fmt_num(d.queue), "waiting to start", queue_color(d.queue)),
    );
    r.push(make_rates_cell(d));
    let ttft: Option<Binary64> = d.ttft[focus].p95;
    r.push(
        make_value_cell(
            "TIME TO FIRST TOKEN",
            fmt_secs(ttft),
            "p95 · first token",
            latency_color(ttft),
        ),
    );
    r.push(make_stalls_cell(d.stalls[focus], WIN_LABELS[focus]));
    r.push(make_pools_cell(&d.pools));
    assert(cells_view(r@) =~= hero(d, focus as int));
    r
}

/// The lines of a cell: its label, in small letters where the layout is compact, and its
/// lines, all cut to the width of the cell.
pub open spec fn cell_text(c: CellView, compact: bool, width: nat) -> Seq<Seq<SpanView>> {
    let label = if compact {
        crate::decimal::lowered(c.label)
    } else {
        c.label
    };
    seq![lines::cut(seq![lines::plain(label, Tone::Dim)], width)] + c.lines.map_values(
        |l: Seq<SpanView>| lines::cut(l, width),
    )
}

/// The lines of a cell, cut to its width.
pub fn cell_lines(c: &Cell, compact: bool, width: usize) -> (r: Vec<Vec<Span>>)
    ensures
        lines::lines_view(r@) == cell_text(c@, compact, width as nat),
{
    let label: String = if compact {
        string_of(lower_case(chars_of(c.label.as_str()).as_slice()).as_slice())
    } else {
        c.label.clone()
    };
    let mut r: Vec<Vec<Span>> = Vec::new();
    r.push(truncate_line(&line_of(plain_span(label, Tone::Dim)), width));
    let ghost all = c@.lines;
    let ghost first = lines::line_view(r@[0]@);
    let mut i: usize = 0;
    while i < c.lines.len()
        invariant
            i <= c.lines@.len(),
            all == lines::lines_view(c.lines@),
            r@.len() == i + 1,
            lines::line_view(r@[0]@) == first,
            forall|j: int|
                0 <= j < i ==> lines::line_view((#[trigger] r@[j + 1])@) == lines::cut(
                    all[j],
                    width as nat,
                ),
        decreases c.lines@.len() - i,
    {
        let line: Vec<Span> = truncate_line(&c.lines[i], width);
        assert(all[i as int] == lines::line_view(c.lines@[i as int]@));
        r.push(line);
        i += 1;
    }
    assert(lines::lines_view(r@) =~= cell_text(c@, compact, width as nat)) by {
        let a = lines::lines_view(r@);
        let b = cell_text(c@, compact, width as nat);
        assert(a.len() == b.len());
        assert forall|j: int| 0 <= j < a.len() implies a[j] == b[j] by {
            if j > 0 {
                assert(lines::line_view(r@[(j - 1) + 1]@) == lines::cut(all[j - 1], width as nat));
            }
        }
    }
    r
}

/// What frames a graph: its title, the text on its lower border, the largest value that
/// it has to show, and the colour of its fill.
#[derive(Debug)]
pub struct Face {
    pub title: Vec<Span>,
    pub sub: Option<Vec<Span>>,
    pub scale: Binary64,
    pub tone: Tone,
}

/// What the frame of a graph stands for.
pub struct FaceView {
    pub title: Seq<SpanView>,
    pub sub: Option<Seq<SpanView>>,
    pub scale: Binary64,
    pub tone: Tone,
}

impl View for Face {
    type V = FaceView;

    open spec fn view(&self) -> FaceView {
        FaceView {
            title: lines::line_view(self.title@),
            sub: match self.sub {
                Some(s) => Some(lines::line_view(s@)),
                None => None,
            },
            scale: self.scale,
            tone: self.tone,
        }
    }
}

/// The largest of the values, and not below zero.
pub open spec fn largest(v: Seq<Binary64>) -> Binary64
    decreases v.len(),
{
    if v.len() == 0 {
        binary64::zero()
    } else {
        binary64::larger(largest(v.drop_last()), v.last())
    }
}

/// The measured values: the sum, the largest, and how many there are.
pub open spec fn measured(v: Seq<Option<Binary64>>) -> (Binary64, Binary64, nat)
    decreases v.len(),
{
    if v.len() == 0 {
        (binary64::zero(), binary64::zero(), 0)
    } else {
        let a = measured(v.drop_last());
        match v.last() {
            Some(x) => (binary64::sum(a.0, x), binary64::larger(a.1, x), a.2 + 1),
            None => a,
        }
    }
}

fn largest_of(v: &Vec<Binary64>) -> (r: Binary64)
    ensures
        r == largest(v@),
{
    let mut r: Binary64 = Binary64::from_bits(0);
    let mut i: usize = 0;
    while i < v.len()
        invariant
            i <= v@.len(),
            r == largest(v@.take(i as int)),
        decreases v@.len() - i,
    {
        assert(v@.take(i + 1).drop_last() =~= v@.take(i as int));
        r = r.max(v[i]);
        i += 1;
    }
    assert(v@.take(i as int) =~= v@);
    r
}

fn measure(v: &Vec<Option<Binary64>>) -> (r: (Binary64, Binary64, u64))
    ensures
        (r.0, r.1, r.2 as nat) == measured(v@),
{
    let mut total: Binary64 = Binary64::from_bits(0);
    let mut top: Binary64 = Binary64::from_bits(0);
    let mut n: u64 = 0;
    let mut i: usize = 0;
    while i < v.len()
        invariant
            i <= v@.len(),
            n <= i,
            (total, top, n as nat) == measured(v@.take(i as int)),
        decreases v@.len() - i,
    {
        assert(v@.take(i + 1).drop_last() =~= v@.take(i as int));
        if let Some(x) = v[i] {
            total = total.plus(x);
            top = top.max(x);
            n = n + 1;
        }
        i += 1;
    }
    assert(v@.take(i as int) =~= v@);
    (total, top, n)
}

/// The scale of a rate graph: the larger of the window's top and the session peak.
pub open spec fn rate_scale(d: &Derived, which: RateGraph, peaks: Peaks) -> Binary64 {
    match which {
        RateGraph::Prefill => binary64::larger(
            largest(d.graphs.prefill.vals@),
            or_zero(peaks.prefill),
        ),
        RateGraph::Decode => binary64::larger(
            largest(d.graphs.decode.vals@),
            or_zero(peaks.decode),
        ),
    }
}

/// The title of a rate graph.
pub open spec fn rate_title(
    name: Seq<char>,
    gloss: Seq<char>,
    lead: Seq<char>,
    now: Option<Binary64>,
    scale: Binary64,
    tone: Tone,
) -> Seq<SpanView> {
    seq![
        lines::bold(" "@ + name + " "@, Tone::Fg),
        lines::plain("("@ + gloss + ") "@, Tone::Dim),
        lines::bold(
            "— "@ + lead + " "@ + fixed::fixed_text(or_zero(now), 0) + " · peak "@
                + fixed::fixed_text(scale, 0) + " "@,
            Tone::Fg,
        ),
        lines::bold("● "@, tone),
    ]
}

fn make_rate_title(
    name: &str,
    gloss: &str,
    lead: &str,
    now: Option<Binary64>,
    scale: Binary64,
    tone: Tone,
) -> (r: Vec<Span>)
    ensures
        lines::line_view(r@) == rate_title(name@, gloss@, lead@, now, scale, tone),
{
    let mut s: String = between("— ", lead, " ");
    append_fixed(&mut s, value_or_zero(now), 0);
    s.append(" · peak ");
    append_fixed(&mut s, scale, 0);
    s.append(" ");
    line_of_four(
        bold_span(between(" ", name, " "), Tone::Fg),
        plain_span(between("(", gloss, ") "), Tone::Dim),
        bold_span(s, Tone::Fg),
        bold_span(String::from_str("● "), tone),
    )
}

/// The legend of the decode graph, with the mean and the peak per stream once measured.
pub open spec fn decode_legend(per_stream: Seq<Option<Binary64>>) -> Seq<SpanView> {
    let m = measured(per_stream);
    let stats = if m.2 > 0 {
        seq![
            lines::bold(
                " · avg "@ + fixed::fixed_text(
                    binary64::quotient(m.0, binary64::integer(m.2)),
                    0,
                ) + " · peak "@ + fixed::fixed_text(m.1, 0) + " "@,
                Tone::S3,
            ),
        ]
    } else {
        Seq::empty()
    };
    seq![
        lines::bold(" aggregate "@, Tone::S1),
        lines::plain("· "@, Tone::Dim),
        lines::bold("single-stream "@, Tone::S3),
    ] + stats
}

fn make_decode_legend(per_stream: &Vec<Option<Binary64>>) -> (r: Vec<Span>)
    ensures
        lines::line_view(r@) == decode_legend(per_stream@),
{
    let mut r: Vec<Span> = line_of_three(
        bold_span(String::from_str(" aggregate "), Tone::S1),
        plain_span(String::from_str("· "), Tone::Dim),
        bold_span(String::from_str("single-stream "), Tone::S3),
    );
    let ghost had = lines::line_view(r@);
    let (total, top, n) = measure(per_stream);
    if n > 0 {
        let mut s: String = String::from_str(" · avg ");
        append_fixed(&mut s, total.over(Binary64::from_u64(n)), 0);
        s.append(" · peak ");
        append_fixed(&mut s, top, 0);
        s.append(" ");
        let x: Span = bold_span(s, Tone::S3);
        let ghost xv = x@;
        r.push(x);
        assert(lines::line_view(r@) =~= had.push(xv));
    }
    assert(lines::line_view(r@) =~= decode_legend(per_stream@));
    r
}

/// The frame of a rate graph.
pub open spec fn rate_face(d: &Derived, which: RateGraph, peaks: Peaks) -> FaceView {
    let scale = rate_scale(d, which, peaks);
    match which {
        RateGraph::Prefill => FaceView {
            title: rate_title(
                "Prefill"@,
                "prompt processing"@,
                "now"@,
                d.prefill_instant,
                scale,
                Tone::S2,
            ),
            sub: Some(seq![lines::plain(" bursts freeze streams "@, Tone::Dim)]),
            scale,
            tone: Tone::S2,
        },
        RateGraph::Decode => FaceView {
            title: rate_title(
                "Decode"@,
                "token generation"@,
                "aggregate now"@,
                d.decode_instant,
                scale,
                Tone::S1,
            ),
            sub: Some(decode_legend(d.graphs.per_stream@)),
            scale,
            tone: Tone::S1,
        },
    }
}

/// Frames a rate graph.
pub fn rate_graph_face(d: &Derived, which: RateGraph, peaks: &Peaks) -> (r: Face)
    ensures
        r@ == rate_face(d, which, *peaks),
{
    match which {
        RateGraph::Prefill => {
            let scale: Binary64 = largest_of(&d.graphs.prefill.vals).max(
                value_or_zero(peaks.prefill),
            );
            let title: Vec<Span> = make_rate_title(
                "Prefill",
                "prompt processing",
                "now",
                d.prefill_instant,
                scale,
                Tone::S2,
            );
            let sub: Vec<Span> = line_of(
                plain_span(String::from_str(" bursts freeze streams "), Tone::Dim),
            );
            Face { title, sub: Some(sub), scale, tone: Tone::S2 }
        },
        RateGraph::Decode => {
            let scale: Binary64 = largest_of(&d.graphs.decode.vals).max(
                value_or_zero(peaks.decode),
            );
            let title: Vec<Span> = make_rate_title(
                "Decode",
                "token generation",
                "aggregate now",
                d.decode_instant,
                scale,
                Tone::S1,
            );
            let sub: Vec<Span> = make_decode_legend(&d.graphs.per_stream);
            Face { title, sub: Some(sub), scale, tone: Tone::S1 }
        },
    }
}

/// A gloss on the lower border of a plot.
pub open spec fn border_gloss(g: Option<Seq<char>>) -> Option<Seq<SpanView>> {
    match g {
        Some(t) => Some(seq![lines::plain(" "@ + t + " "@, Tone::Dim)]),
        None => None,
    }
}

/// The frame of the plot of the time to the first token. Its fill takes the colour of the
/// newest value: green only while the wait is short.
pub open spec fn ttft_face(d: &Derived) -> FaceView {
    let tone = latency_tone(d.ttft[2].p95);
    FaceView {
        title: seq![
            lines::bold(" TTFT "@, Tone::Fg),
            lines::bold("● "@, tone),
            lines::plain("p95"@, Tone::Dim),
        ],
        sub: border_gloss(figures::prompt_gloss(d.prompt_len_p50, d.prompt_len_p95)),
        scale: measured(d.graphs.ttft_p95@).1,
        tone,
    }
}

/// Frames the plot of the time to the first token.
pub fn ttft_plot_face(d: &Derived) -> (r: Face)
    ensures
        r@ == ttft_face(d),
{
    let tone: Tone = latency_color(d.ttft[2].p95);
    let title: Vec<Span> = line_of_three(
        bold_span(String::from_str(" TTFT "), Tone::Fg),
        bold_span(String::from_str("● "), tone),
        plain_span(String::from_str("p95"), Tone::Dim),
    );
    let sub: Option<Vec<Span>> = match prompt_size_span(d) {
        Some(g) => Some(line_of(plain_span(between(" ", g.as_str(), " "), Tone::Dim))),
        None => None,
    };
    Face { title, sub, scale: measure(&d.graphs.ttft_p95).1, tone }
}

/// The frame of the plot of cache misses.
pub open spec fn miss_face(d: &Derived) -> FaceView {
    FaceView {
        title: seq![
            lines::bold(" Cache misses "@, Tone::Fg),
            lines::bold("●"@, Tone::S2),
        ],
        sub: border_gloss(figures::computed_gloss(d.computed_p50, d.computed_p95)),
        scale: measured(d.graphs.cache_misses@).1,
        tone: Tone::S2,
    }
}

/// Frames the plot of cache misses.
pub fn cache_miss_plot_face(d: &Derived) -> (r: Face)
    ensures
        r@ == miss_face(d),
{
    let title: Vec<Span> = line_of_two(
        bold_span(String::from_str(" Cache misses "), Tone::Fg),
        bold_span(String::from_str("●"), Tone::S2),
    );
    let sub: Option<Vec<Span>> = match computed_size_span(d) {
        Some(g) => Some(line_of(plain_span(between(" ", g.as_str(), " "), Tone::Dim))),
        None => None,
    };
    Face { title, sub, scale: measure(&d.graphs.cache_misses).1, tone: Tone::S2 }
}

/// The legend of the percentiles, with the prompt sizes where they are known.
pub open spec fn latency_gloss(d: Option<&Derived>) -> Seq<char> {
    let legend = "p50 typical · p95 1-in-20 · p99 worst"@;
    match d {
        Some(x) => match figures::pair_gloss(x) {
            Some(g) => legend + " · "@ + g,
            None => legend,
        },
        None => legend,
    }
}

/// The legend of the percentiles.
pub fn lat_subtitle(d: Option<&Derived>) -> (r: String)
    ensures
        r@ == latency_gloss(d),
{
    let mut s: String = String::from_str("p50 typical · p95 1-in-20 · p99 worst");
    if let Some(x) = d {
        if let Some(g) = prompt_computed_gloss(x) {
            s.append(" · ");
            s.append(g.as_str());
        }
    }
    s
}

/// The head of the latency table.
pub open spec fn latency_head() -> Seq<SpanView> {
    seq![
        lines::plain("           "@, Tone::Dim),
        lines::bold("    p50      p95      p99"@, Tone::Dim),
    ]
}

/// The head of the latency table.
pub fn lat_header() -> (r: Vec<Span>)
    ensures
        lines::line_view(r@) == latency_head(),
{
    line_of_two(
        plain_span(String::from_str("           "), Tone::Dim),
        bold_span(String::from_str("    p50      p95      p99"), Tone::Dim),
    )
}

/// A latency, seven characters wide, behind a lead.
pub open spec fn latency_cell(lead: Seq<char>, v: Option<Binary64>, tail: Seq<char>) -> SpanView {
    lines::plain(
        lead + figures::padded_left(figures::secs_text(v), 7) + tail,
        latency_tone(v),
    )
}

fn make_latency_cell(lead: &str, v: Option<Binary64>, tail: &str) -> (r: Span)
    ensures
        r@ == latency_cell(lead@, v, tail@),
{
    plain_span(
        between(lead, pad_left(fmt_secs(v).as_str(), 7).as_str(), tail),
        latency_color(v),
    )
}

/// A row of the latency table.
pub open spec fn latency_row(name: Seq<char>, q: Quantiles) -> Seq<SpanView> {
    seq![
        lines::plain(" "@ + figures::padded_right(name, 10), Tone::Fg),
        latency_cell(""@, q.p50, "  "@),
        latency_cell(""@, q.p95, "  "@),
        latency_cell(""@, q.p99, ""@),
    ]
}

/// A row of the latency table.
pub fn lat_row(name: &str, q: &Quantiles) -> (r: Vec<Span>)
    ensures
        lines::line_view(r@) == latency_row(name@, *q),
{
    let mut s: String = String::from_str(" ");
    s.append(pad_right(name, 10).as_str());
    line_of_four(
        plain_span(s, Tone::Fg),
        make_latency_cell("", q.p50, "  "),
        make_latency_cell("", q.p95, "  "),
        make_latency_cell("", q.p99, ""),
    )
}

/// A row of the latency table in the compact layout.
pub open spec fn compact_latency_row(name: Seq<char>, q: Quantiles) -> Seq<SpanView> {
    seq![
        lines::plain(" "@ + figures::padded_right(name, 26), Tone::Fg),
        latency_cell("p50 "@, q.p50, "  "@),
        latency_cell("p95 "@, q.p95, "  "@),
        latency_cell("p99 "@, q.p99, ""@),
    ]
}

/// A row of the latency table in the compact layout.
pub fn lat_row_compact(name: &str, q: &Quantiles) -> (r: Vec<Span>)
    ensures
        lines::line_view(r@) == compact_latency_row(name@, *q),
{
    let mut s: String = String::from_str(" ");
    s.append(pad_right(name, 26).as_str());
    line_of_four(
        plain_span(s, Tone::Fg),
        make_latency_cell("p50 ", q.p50, "  "),
        make_latency_cell("p95 ", q.p95, "  "),
        make_latency_cell("p99 ", q.p99, ""),
    )
}

/// The latency table for the window in focus.
pub open spec fn latency_table(d: Option<&Derived>, focus: int, compact: bool) -> Seq<
    Seq<SpanView>,
> {
    match d {
        None => Seq::empty(),
        Some(x) => if compact {
            seq![
                compact_latency_row("time to first token (TTFT)"@, x.ttft[focus]),
                compact_latency_row("time between tokens (ITL)"@, x.itl[focus]),
            ]
        } else {
            seq![
                latency_head(),
                latency_row("TTFT"@, x.ttft[focus]),
                latency_row("ITL"@, x.itl[focus]),
                latency_row("queue time"@, x.queue_time[focus]),
            ]
        },
    }
}

/// The latency table for the window in focus.
pub fn latency_lines(d: Option<&Derived>, focus: usize, compact: bool) -> (r: Vec<Vec<Span>>)
    requires
        focus < 3,
    ensures
        lines::lines_view(r@) == latency_table(d, focus as int, compact),
{
    let mut r: Vec<Vec<Span>> = Vec::new();
    if let Some(x) = d {
        if compact {
            r.push(lat_row_compact("time to first token (TTFT)", &x.ttft[focus]));
            r.push(lat_row_compact("time between tokens (ITL)", &x.itl[focus]));
        } else {
            r.push(lat_header());
            r.push(lat_row("TTFT", &x.ttft[focus]));
            r.push(lat_row("ITL", &x.itl[focus]));
            r.push(lat_row("queue time", &x.queue_time[focus]));
        }
    }
    assert(lines::lines_view(r@) =~= latency_table(d, focus as int, compact));
    r
}

} // verus!
