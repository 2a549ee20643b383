//! The keymap and the plain-language tour.

use vstd::prelude::*;
use vstd::string::*;

use crate::figures;
use crate::figures::pad_right;
use crate::lines;
use crate::lines::{
    bold_span, line_of, line_of_two, plain_span, wrap_text, Span, SpanView, Tone,
};
use crate::text::same_text;

verus! {

/// The title of the keymap.
pub const HELP_TITLE: &'static str = " keymap ";

/// The title of the tour.
pub const TOUR_TITLE: &'static str = " What am I looking at?  (e or q to close · ↑↓ scroll) ";

/// The keys and what they do.
pub const KEYMAP: [(&'static str, &'static str); 10] = [
    ("q / Esc", "quit"),
    ("space", "pause scraping (for staring & screenshots)"),
    ("c", "toggle compact / full layout"),
    ("g", "toggle graphs"),
    ("1 2 3", "focus the 5s / 15s / 60s window"),
    ("t", "cycle theme"),
    ("e", "plain-language tour of every panel"),
    ("+ / -", "poll interval (faster / slower)"),
    ("↑ ↓", "scroll the explain screen"),
    ("?", "this keymap"),
];

/// The paragraphs of the tour. A title opens a section; a paragraph without one goes on
/// with the section before it.
pub const TOUR: [(&'static str, &'static str); 16] = [
    (
        "A token",
        "A token is roughly a word-piece: the model reads your prompt and writes its answer one token at a time, several times per second. \"tok/s\" below is how many of those pieces appear per second.",
    ),
    (
        "Token rates (TOKEN/s)",
        "Decode is the model writing its answer — the number users experience as speed. Prefill is the model reading a new prompt; it happens in bursts and can momentarily freeze everyone else's stream (the seesaw in the graph). The prompt + computed gloss names both size distributions behind those rates: the prompts as submitted, and the prefix-cache misses the GPU computed.",
    ),
    (
        "Time to first token (TTFT)",
        "When you send a message, this is the pause before the first word appears. Small is good. It grows when the model is busy reading long prompts or when there is a line of requests waiting.",
    ),
    (
        "Time between tokens (ITL)",
        "Once words are flowing, ITL is the rhythm: the time between one word and the next. Steady and small means the text streams smoothly; spikes are why text sometimes freezes then jumps — usually a new request's prompt being processed in the middle of your answer.",
    ),
    (
        "",
        "The decode graph draws a second line for the single-stream speed: total writing speed divided by how many answers are being written at once. When that line dips while a prefill burst rides the same graph, everyone's stream briefly froze.",
    ),
    (
        "p50 / p95 / p99",
        "p50 is a typical request. p95 is the experience of the unluckiest 1-in-20. p99 is the worst moments. If p50 is fine but p95 is bad, most people are happy but some are having a bad time — that gap is the number to watch.",
    ),
    (
        "",
        "The latency row plots first-token wait (TTFT, its p95 shaded) next to the cache-miss rate: computed prompt tokens per second, the prompt text the prefix cache did not hold. Queue time isolates congestion — how long requests waited for their turn — while end-to-end latency also grows with the work itself, so it stays out of the plots (once-mode still prints it).",
    ),
    (
        "Waiting (QUEUE)",
        "QUEUE counts requests that arrived but have not started. A short, spiky line is normal; a tall, flat line means the server is overloaded and everyone's wait grows. The latency table's queue row shows how long they waited.",
    ),
    (
        "Peaks",
        "The Peak box holds the highest rates seen since vllm-top started: the busiest decode moment, the biggest prefill burst, and single — the fastest one stream has ever moved (total decode speed divided by how many requests were sharing it).",
    ),
    (
        "Memory pools",
        "The model keeps working memory for every conversation in progress (KV). At 100% a pool is full: new requests wait, and the server may throw out or preempt the ones running (see preemptions).",
    ),
    (
        "",
        "The host tier is the CPU-RAM cache the engine uses to offload KV blocks. It is reported as a percentage, and a high reading is normal — it is a write-through cache that recycles its own oldest entries. Only the GPU KV pool running full is the requests-will-wait warning.",
    ),
    (
        "Stalls",
        "A stall is a moment when every stream froze because the engine was busy with something else instead of decoding: a prefill was computing (decode starved), or requests were queued waiting to start (decode enqueued/blocked). Measured as how many times it happened and how many seconds in total over the window. Red ticks mark stalled intervals on the decode and latency plots; orange ticks there mark intervals where the eviction counter advanced (device KV cache freed to make room).",
    ),
    (
        "Cache hit & the KV offload",
        "How much of each new prompt the server already remembers from earlier turns. The cache-misses plot tracks the opposite side: computed prompt tokens/s, the text the GPU had to read because no cache tier held it. High cache hit = fast starts and less work. A sudden drop usually means a restart or very different traffic.",
    ),
    (
        "",
        "The offload st·ld line is the CPU-KV-offload traffic in bytes/s — how much KV state is being written down to, or read back from, the CPU cache. alloc fail/s counts offload allocations that failed; it should be zero.",
    ),
    (
        "Speculative accept",
        "The model tries to guess several words ahead and checks them in one go. Accept rate is how often the guesses are right; accept length is how many words each lucky guess saves. High numbers make everything feel faster.",
    ),
    (
        "Preemptions & aborts",
        "A preemption means a running request was stopped and its KV blocks freed to make room — the user's answer stalls and may need to be restarted. Aborts are requests the client cancelled mid-answer. Preemptions are the signal of memory pressure; a steady preemption count is normal, a spike is the engine running out of KV space.",
    ),
];

/// A key and what it does, as a line.
pub open spec fn key_line(k: Seq<char>, v: Seq<char>) -> Seq<SpanView> {
    seq![
        lines::bold(" "@ + figures::padded_right(k, 9), Tone::Accent),
        lines::plain(v, Tone::Fg),
    ]
}

/// The lines of the keymap.
pub fn help_lines() -> (r: Vec<Vec<Span>>)
    ensures
        lines::lines_view(r@) == Seq::new(
            10,
            |i: int| key_line(KEYMAP[i].0@, KEYMAP[i].1@),
        ),
{
    let mut r: Vec<Vec<Span>> = Vec::new();
    let mut i: usize = 0;
    while i < 10
        invariant
            i <= 10,
            r@.len() == i,
            forall|j: int|
                0 <= j < i ==> lines::line_view((#[trigger] r@[j])@) == key_line(
                    KEYMAP[j].0@,
                    KEYMAP[j].1@,
                ),
        decreases 10 - i,
    {
        let (k, v) = KEYMAP[i];
        let mut s: String = String::from_str(" ");
        s.append(pad_right(k, 9).as_str());
        r.push(line_of_two(bold_span(s, Tone::Accent), plain_span(String::from_str(v), Tone::Fg)));
        i += 1;
    }
    assert(lines::lines_view(r@) =~= Seq::new(
        10,
        |i: int| key_line(KEYMAP[i].0@, KEYMAP[i].1@),
    ));
    r
}

/// A rectangle on the screen.
#[derive(Clone, Copy, Debug, PartialEq, Eq, Structural)]
pub struct Area {
    pub x: u16,
    pub y: u16,
    pub width: u16,
    pub height: u16,
}

/// The smaller of two lengths.
pub open spec fn min16(a: u16, b: u16) -> u16 {
    if a < b {
        a
    } else {
        b
    }
}

/// Where the keymap lies: in the middle, 52 columns by 16 rows where they fit.
pub fn help_area(a: Area) -> (r: Area)
    requires
        a.x + (a.width - min16(a.width, 52)) / 2 <= u16::MAX,
        a.y + (a.height - min16(a.height, 16)) / 2 <= u16::MAX,
    ensures
        r.width == min16(a.width, 52),
        r.height == min16(a.height, 16),
        r.x == a.x + (a.width - r.width) / 2,
        r.y == a.y + (a.height - r.height) / 2,
{
    let width: u16 = if a.width < 52 {
        a.width
    } else {
        52
    };
    let height: u16 = if a.height < 16 {
        a.height
    } else {
        16
    };
    Area { x: a.x + (a.width - width) / 2, y: a.y + (a.height - height) / 2, width, height }
}

/// The width that the tour is wrapped to.
pub open spec fn tour_width(width: u16) -> nat {
    if width < 24 {
        20
    } else {
        (width - 4) as nat
    }
}

/// Texts as lines, a space before each.
pub open spec fn body_lines(s: Seq<Seq<char>>) -> Seq<Seq<SpanView>> {
    s.map_values(|t: Seq<char>| seq![lines::plain(" "@ + t, Tone::Fg)])
}

/// The lines of a paragraph: its title where it has one, its wrapped text and an empty
/// line.
pub open spec fn paragraph(title: Seq<char>, body: Seq<char>, width: nat) -> Seq<Seq<SpanView>> {
    let head = if title == ""@ {
        Seq::empty()
    } else {
        seq![seq![lines::bold(" "@ + title, Tone::Accent)]]
    };
    head + body_lines(lines::wrapped_text(body, width)) + seq![Seq::empty()]
}

/// The lines of the first `n` paragraphs of the tour.
pub open spec fn tour(n: int, width: nat) -> Seq<Seq<SpanView>>
    decreases n,
{
    if n <= 0 {
        Seq::empty()
    } else {
        tour(n - 1, width) + paragraph(TOUR[n - 1].0@, TOUR[n - 1].1@, width)
    }
}

fn add_paragraph(out: &mut Vec<Vec<Span>>, title: &str, body: &str, width: usize)
    ensures
        lines::lines_view(final(out)@) == lines::lines_view(old(out)@) + paragraph(
            title@,
            body@,
            width as nat,
        ),
{
    let ghost start = lines::lines_view(out@);
    if !same_text(title, "") {
        let mut s: String = String::from_str(" ");
        s.append(title);
        out.push(line_of(bold_span(s, Tone::Accent)));
    }
    let segs: Vec<String> = wrap_text(body, width);
    let ghost head = lines::lines_view(out@);
    let ghost all = body_lines(lines::wrapped_text(body@, width as nat));
    let mut i: usize = 0;
    assert(head + all.take(0) =~= head);
    while i < segs.len()
        invariant
            i <= segs@.len(),
            all == body_lines(lines::strings_view(segs@)),
            lines::lines_view(out@) == head + all.take(i as int),
        decreases segs@.len() - i,
    {
        let mut s: String = String::from_str(" ");
        s.append(segs[i].as_str());
        let ghost had = lines::lines_view(out@);
        let line: Vec<Span> = line_of(plain_span(s, Tone::Fg));
        let ghost lv = lines::line_view(line@);
        out.push(line);
        assert(lines::lines_view(out@) =~= had.push(lv));
        assert(lv == all[i as int]);
        i += 1;
        assert(all.take(i as int) =~= all.take(i - 1).push(all[i - 1]));
        assert(head + all.take(i as int) =~= had.push(lv));
    }
    assert(all.take(i as int) =~= all);
    let ghost had = lines::lines_view(out@);
    let blank: Vec<Span> = Vec::new();
    assert(lines::line_view(blank@) =~= Seq::empty());
    out.push(blank);
    assert(lines::lines_view(out@) =~= had.push(Seq::empty()));
    assert(lines::lines_view(out@) =~= start + paragraph(title@, body@, width as nat));
}

/// The lines of the tour on a screen of the given width.
pub fn explain_lines(width: u16) -> (r: Vec<Vec<Span>>)
    ensures
        lines::lines_view(r@) == tour(16, tour_width(width)),
{
    let w: usize = if width < 24 {
        20
    } else {
        width as usize - 4
    };
    let mut r: Vec<Vec<Span>> = Vec::new();
    let mut i: usize = 0;
    assert(lines::lines_view(r@) =~= tour(0, w as nat));
    while i < 16
        invariant
            i <= 16,
            lines::lines_view(r@) == tour(i as int, w as nat),
        decreases 16 - i,
    {
        let (title, body) = TOUR[i];
        add_paragraph(&mut r, title, body, w);
        i += 1;
    }
    r
}

} // verus!
