//! The address that is scraped, error messages fit for a terminal, and what one scrape
//! changes.

use vstd::prelude::*;
use vstd::slice::slice_subrange;
use vstd::string::*;

use crate::derive::{update_alarms, update_peaks, Alarms, Peaks};
use crate::history;
use crate::history::{EntryView, History};
use crate::metrics;
use crate::metrics::parse;
use crate::text;
use crate::text::{chars_of, control, equals, string_of};

verus! {

/// The text without the strokes at its end.
pub open spec fn without_strokes(s: Seq<char>) -> Seq<char>
    decreases s.len(),
{
    if s.len() > 0 && s.last() == '/' {
        without_strokes(s.drop_last())
    } else {
        s
    }
}

/// The address of the metrics below a base address.
pub open spec fn metrics_address(base: Seq<char>) -> Seq<char> {
    let b = without_strokes(base);
    if metrics::ends_with(b, "/metrics"@) {
        b
    } else {
        b + "/metrics"@
    }
}

/// Turns a base address into the full address of the metrics.
pub fn metrics_url(base: &str) -> (r: String)
    ensures
        r@ == metrics_address(base@),
{
    let v: Vec<char> = chars_of(base);
    let mut n: usize = v.len();
    assert(v@.take(n as int) =~= v@);
    while n > 0 && v[n - 1] == '/'
        invariant
            n <= v@.len(),
            without_strokes(v@) == without_strokes(v@.take(n as int)),
        decreases n,
    {
        assert(v@.take(n as int).drop_last() =~= v@.take(n - 1));
        n -= 1;
    }
    let b: &[char] = slice_subrange(v.as_slice(), 0, n);
    assert(b@ =~= v@.take(n as int));
    let mut r: String = string_of(b);
    let tail: Vec<char> = chars_of("/metrics");
    if n >= tail.len() {
        let end: &[char] = slice_subrange(b, n - tail.len(), n);
        assert(end@ =~= b@.skip(b@.len() - tail@.len()));
        if equals(end, "/metrics") {
            return r;
        }
    }
    r.append("/metrics");
    r
}

/// The address of the metrics is its own address, and it ends as it should.
pub proof fn metrics_address_is_stable(base: Seq<char>)
    ensures
        metrics::ends_with(metrics_address(base), "/metrics"@),
        metrics_address(metrics_address(base)) == metrics_address(base),
{
    reveal_strlit("/metrics");
    let b = without_strokes(base);
    let m = "/metrics"@;
    let r = metrics_address(base);
    if !metrics::ends_with(b, m) {
        assert((b + m).skip((b + m).len() - m.len()) =~= m);
    }
    assert(r.skip(r.len() - m.len()) == m);
    assert(r.last() == m.last()) by {
        assert(r.skip(r.len() - m.len()).last() == r.last());
    }
}

/// The longest error message that is shown, in characters.
pub const MAX_ERROR_CHARS: usize = 256;

/// The hexadecimal digit of a number below sixteen.
pub open spec fn hex_char(d: int) -> char {
    "0123456789abcdef"@[d]
}

/// A character in a form that a terminal shows: control characters as escapes.
pub open spec fn visible(c: char) -> Seq<char> {
    if c == '\n' {
        "\\n"@
    } else if c == '\r' {
        "\\r"@
    } else if c == '\t' {
        "\\t"@
    } else if text::is_control(c) {
        "\\x"@ + seq![hex_char(c as int / 16), hex_char(c as int % 16)]
    } else {
        seq![c]
    }
}

/// The visible form of a text behind what is there already, cut off with an ellipsis
/// where it grows too long.
pub open spec fn cleaned(acc: Seq<char>, s: Seq<char>) -> Seq<char>
    decreases s.len(),
{
    if s.len() == 0 {
        acc
    } else if acc.len() + visible(s[0]).len() > MAX_ERROR_CHARS - 1 {
        acc.push('\u{2026}')
    } else {
        cleaned(acc + visible(s[0]), s.drop_first())
    }
}

fn hex_digit(d: u32) -> (r: char)
    requires
        d < 16,
    ensures
        r == hex_char(d as int),
{
    proof {
        reveal_strlit("0123456789abcdef");
    }
    if d == 0 {
        '0'
    } else if d == 1 {
        '1'
    } else if d == 2 {
        '2'
    } else if d == 3 {
        '3'
    } else if d == 4 {
        '4'
    } else if d == 5 {
        '5'
    } else if d == 6 {
        '6'
    } else if d == 7 {
        '7'
    } else if d == 8 {
        '8'
    } else if d == 9 {
        '9'
    } else if d == 10 {
        'a'
    } else if d == 11 {
        'b'
    } else if d == 12 {
        'c'
    } else if d == 13 {
        'd'
    } else if d == 14 {
        'e'
    } else {
        'f'
    }
}

fn visible_chars(c: char) -> (r: Vec<char>)
    ensures
        r@ == visible(c),
{
    if c == '\n' {
        chars_of("\\n")
    } else if c == '\r' {
        chars_of("\\r")
    } else if c == '\t' {
        chars_of("\\t")
    } else if control(c) {
        let mut r: Vec<char> = chars_of("\\x");
        let code: u32 = c as u32;
        r.push(hex_digit(code / 16));
        r.push(hex_digit(code % 16));
        assert(r@ =~= visible(c));
        r
    } else {
        let mut r: Vec<char> = Vec::new();
        r.push(c);
        assert(r@ =~= visible(c));
        r
    }
}

/// Rewrites an error message so that it is safe to print to a terminal: control
/// characters become escapes, and an overlong message is cut off with an ellipsis. Names,
/// labels and counts survive.
pub fn sanitize_for_terminal(msg: &str) -> (r: String)
    ensures
        r@ == cleaned(Seq::empty(), msg@),
{
    let v: Vec<char> = chars_of(msg);
    let mut out: Vec<char> = Vec::new();
    let mut i: usize = 0;
    assert(v@.skip(0) =~= v@);
    while i < v.len()
        invariant
            i <= v@.len(),
            v@ == msg@,
            out@.len() < MAX_ERROR_CHARS,
            cleaned(Seq::empty(), msg@) == cleaned(out@, v@.skip(i as int)),
        decreases v@.len() - i,
    {
        let piece: Vec<char> = visible_chars(v[i]);
        let ghost had = out@;
        assert(v@.skip(i as int)[0] == v@[i as int]);
        assert(v@.skip(i as int).drop_first() =~= v@.skip(i + 1));
        if piece.len() > MAX_ERROR_CHARS - 1 - out.len() {
            out.push('\u{2026}');
            return string_of(out.as_slice());
        }
        let mut j: usize = 0;
        while j < piece.len()
            invariant
                j <= piece@.len(),
                out@ == had + piece@.take(j as int),
            decreases piece@.len() - j,
        {
            out.push(piece[j]);
            j += 1;
            assert(out@ =~= had + piece@.take(j as int));
        }
        assert(piece@.take(j as int) =~= piece@);
        i += 1;
    }
    string_of(out.as_slice())
}

/// No character is a control character.
pub open spec fn printable(s: Seq<char>) -> bool {
    forall|i: int| 0 <= i < s.len() ==> !text::is_control(#[trigger] s[i])
}

proof fn lemma_visible(c: char)
    ensures
        printable(visible(c)),
        0 < visible(c).len() <= 4,
        !text::is_control(c) ==> visible(c) == seq![c],
{
    reveal_strlit("\\n");
    reveal_strlit("\\r");
    reveal_strlit("\\t");
    reveal_strlit("\\x");
    reveal_strlit("0123456789abcdef");
    let hex = "0123456789abcdef"@;
    assert forall|d: int| 0 <= d < 16 implies !text::is_control(#[trigger] hex[d]) by {}
    if text::is_control(c) && c != '\n' && c != '\r' && c != '\t' {
        let code = c as int;
        assert(0 <= code / 16 < 16 && 0 <= code % 16 < 16);
        let v = visible(c);
        assert(v[2] == hex[code / 16] && v[3] == hex[code % 16]);
    }
}

/// What is shown holds no control character and no more characters than the limit,
/// whatever the message holds.
pub proof fn shown_message_is_safe(acc: Seq<char>, s: Seq<char>)
    requires
        printable(acc),
        acc.len() < MAX_ERROR_CHARS,
    ensures
        printable(cleaned(acc, s)),
        cleaned(acc, s).len() <= MAX_ERROR_CHARS,
    decreases s.len(),
{
    if s.len() > 0 {
        lemma_visible(s[0]);
        let next = acc + visible(s[0]);
        if next.len() <= MAX_ERROR_CHARS - 1 {
            shown_message_is_safe(next, s.drop_first());
        }
    }
}

/// A short message without control characters is shown as it is.
pub proof fn benign_message_is_unchanged(acc: Seq<char>, s: Seq<char>)
    requires
        printable(s),
        acc.len() + s.len() < MAX_ERROR_CHARS,
    ensures
        cleaned(acc, s) == acc + s,
    decreases s.len(),
{
    if s.len() > 0 {
        lemma_visible(s[0]);
        benign_message_is_unchanged(acc + visible(s[0]), s.drop_first());
        assert(acc + visible(s[0]) + s.drop_first() =~= acc + s);
    } else {
        assert(acc + s =~= acc);
    }
}

/// What the scraper and the screen share.
pub struct Shared {
    pub history: History,
    /// When the last scrape succeeded.
    pub last_ok: Option<u64>,
    pub last_error: Option<String>,
    pub paused: bool,
    /// The poll interval, which can be changed while running.
    pub interval_ms: u64,
    pub peaks: Peaks,
    pub alarms: Alarms,
}

/// The interval as the scraper waits for it: no shorter than a quarter of a second, and no
/// longer than ten seconds.
pub open spec fn wait_for(interval_ms: u64) -> u64 {
    if interval_ms < 250 {
        250
    } else if interval_ms > 10_000 {
        10_000
    } else {
        interval_ms
    }
}

impl Shared {
    /// A session before its first scrape.
    pub fn new() -> (r: Shared)
        ensures
            r.history.wf(),
            r.history@.len() == 0,
            r.history.first_seen is None,
            r.last_ok is None,
            r.last_error is None,
            !r.paused,
            r.interval_ms == 1000,
            r.peaks == crate::derive::no_peaks(),
            r.alarms == crate::derive::no_alarms(),
    {
        Shared {
            history: History::default(),
            last_ok: None,
            last_error: None,
            paused: false,
            interval_ms: 1000,
            peaks: Peaks::default(),
            alarms: Alarms::default(),
        }
    }

    /// How long to wait before the next scrape, in milliseconds.
    pub fn wait_ms(&self) -> (ms: u64)
        ensures
            ms == (if self.interval_ms < 250 {
                250
            } else if self.interval_ms > 10_000 {
                10_000
            } else {
                self.interval_ms as int
            }),
            ms == wait_for(self.interval_ms),
    {
        if self.interval_ms < 250 {
            250
        } else if self.interval_ms > 10_000 {
            10_000
        } else {
            self.interval_ms
        }
    }

    /// The error shown is the given message in its visible form; everything else is as it
    /// was.
    pub open spec fn failed(&self, before: Shared, message: Seq<char>) -> bool {
        &&& self.history == before.history
        &&& self.peaks == before.peaks
        &&& self.alarms == before.alarms
        &&& self.last_ok == before.last_ok
        &&& self.last_error is Some
        &&& self.last_error->0@ == cleaned(Seq::empty(), message)
    }

    /// A sample arrived: it is in the ring, and the newest interval of the ring is in the
    /// peaks and alarms.
    pub open spec fn advanced(&self, before: Shared, e: EntryView, now: u64) -> bool {
        &&& self.history.wf()
        &&& self.history@ == history::arrived(before.history@, e)
        &&& self.history.first_seen == (if before.history.first_seen is None && self.history@
            != before.history@ {
            Some(now)
        } else {
            before.history.first_seen
        })
        &&& self.peaks == crate::derive::peaked(before.peaks, self.history@)
        &&& self.alarms == crate::derive::alarmed(before.alarms, self.history@)
        &&& self.last_ok == Some(now)
        &&& self.last_error is None
    }

    /// Takes in what a scrape brought: the payload, or why there is none. A payload that
    /// is rejected leaves the ring and the peaks as they were, so that the screen goes
    /// stale under the error.
    pub fn absorb(&mut self, fetched: Result<String, String>, now: u64)
        requires
            old(self).history.wf(),
        ensures
            final(self).history.wf(),
            final(self).paused == old(self).paused,
            final(self).interval_ms == old(self).interval_ms,
            match fetched {
                Err(e) => final(self).failed(*old(self), e@),
                Ok(body) => match metrics::exposition(body@) {
                    Err(e) => final(self).failed(*old(self), metrics::rejection_text(e)),
                    Ok(st) => exists|s: metrics::SampleView|
                        metrics::holds(s, st) && #[trigger] final(self).advanced(
                            *old(self),
                            EntryView { t: now as nat, sample: s },
                            now,
                        ),
                },
            },
    {
        match fetched {
            Ok(body) => match parse(body.as_str()) {
                Ok(sample) => {
                    let ghost s = sample@;
                    self.history.push(now, sample);
                    update_peaks(&mut self.peaks, &self.history);
                    update_alarms(&mut self.alarms, &self.history);
                    self.last_ok = Some(now);
                    self.last_error = None;
                    assert(self.advanced(*old(self), EntryView { t: now as nat, sample: s }, now));
                },
                Err(e) => {
                    self.last_error = Some(sanitize_for_terminal(e.message().as_str()));
                },
            },
            Err(e) => {
                self.last_error = Some(sanitize_for_terminal(e.as_str()));
            },
        }
    }
}

} // verus!
