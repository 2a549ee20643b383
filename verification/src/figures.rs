//! Numbers, spans and durations as short texts.

use vstd::prelude::*;
use vstd::string::*;

use crate::binary64;
use crate::binary64::Binary64;
use crate::derive::{Derived, Pool};
use crate::fixed;
use crate::fixed::{append_decimal, append_padded};
use crate::text::same_text;

verus! {

/// What stands for a number that is not known.
pub open spec fn missing() -> Seq<char> {
    "—"@
}

/// A span of whole seconds, in its two largest units.
pub open spec fn dur_text(s: nat) -> Seq<char> {
    if s >= 3600 {
        fixed::digits_text(s / 3600) + "h"@ + fixed::padded_text((s % 3600) / 60, 2) + "m"@
    } else if s >= 60 {
        fixed::digits_text(s / 60) + "m"@ + fixed::digits_text(s % 60) + "s"@
    } else {
        fixed::digits_text(s) + "s"@
    }
}

/// A span of time given in nanoseconds, down to whole seconds.
pub fn fmt_dur(nanos: u64) -> (r: String)
    ensures
        r@ == dur_text(nanos as nat / 1_000_000_000),
{
    let s: u64 = nanos / 1_000_000_000;
    let mut r: String = String::new();
    if s >= 3600 {
        append_decimal(&mut r, s / 3600);
        r.append("h");
        append_padded(&mut r, (s % 3600) / 60, 2);
        r.append("m");
    } else if s >= 60 {
        append_decimal(&mut r, s / 60);
        r.append("m");
        append_decimal(&mut r, s % 60);
        r.append("s");
    } else {
        append_decimal(&mut r, s);
        r.append("s");
    }
    assert(r@ =~= dur_text(s as nat));
    r
}

/// The number without its sign.
pub open spec fn absolute(x: Binary64) -> Binary64 {
    binary64::signed(false, x.abs_bits())
}

/// `x` is at least the integer `n`.
pub open spec fn reaches(x: Binary64, n: nat) -> bool {
    binary64::at_most(binary64::integer(n), x)
}

/// `x` divided by the integer `n`.
pub open spec fn divided(x: Binary64, n: nat) -> Binary64 {
    binary64::quotient(x, binary64::integer(n))
}

/// `x` times the integer `n`.
pub open spec fn multiplied(x: Binary64, n: nat) -> Binary64 {
    binary64::product(x, binary64::integer(n))
}

fn at_least(x: Binary64, n: u64) -> (r: bool)
    ensures
        r == reaches(x, n as nat),
{
    Binary64::from_u64(n).le(x)
}

fn divide(x: Binary64, n: u64) -> (r: Binary64)
    ensures
        r == divided(x, n as nat),
{
    x.over(Binary64::from_u64(n))
}

fn multiply(x: Binary64, n: u64) -> (r: Binary64)
    ensures
        r == multiplied(x, n as nat),
{
    x.times(Binary64::from_u64(n))
}

/// A number, in thousands from one thousand on.
pub open spec fn num_text(v: Option<Binary64>) -> Seq<char> {
    match v {
        Some(x) => if reaches(absolute(x), 1000) {
            fixed::fixed_text(divided(x, 1000), 1) + "k"@
        } else {
            fixed::fixed_text(x, 0)
        },
        None => missing(),
    }
}

/// Writes a number, in thousands from one thousand on.
pub fn fmt_num(v: Option<Binary64>) -> (r: String)
    ensures
        r@ == num_text(v),
{
    match v {
        Some(x) => {
            let size: Binary64 = Binary64::from_bits(x.abs_pattern());
            if at_least(size, 1000) {
                let mut r: String = fixed::fixed(divide(x, 1000), 1);
                r.append("k");
                r
            } else {
                fixed::fixed(x, 0)
            }
        },
        None => String::from_str("—"),
    }
}

/// A part as a percentage.
pub open spec fn pct_text(v: Option<Binary64>) -> Seq<char> {
    match v {
        Some(x) => fixed::fixed_text(multiplied(x, 100), 0) + "%"@,
        None => missing(),
    }
}

/// Writes a part as a percentage.
pub fn fmt_pct(v: Option<Binary64>) -> (r: String)
    ensures
        r@ == pct_text(v),
{
    match v {
        Some(x) => {
            let mut r: String = fixed::fixed(multiply(x, 100), 0);
            r.append("%");
            r
        },
        None => String::from_str("—"),
    }
}

/// A count of tokens: `115904` is `116k`, `2843392` is `2.8M`.
pub open spec fn tokens_text(x: Binary64) -> Seq<char> {
    if reaches(x, 1_000_000) {
        fixed::fixed_text(divided(x, 1_000_000), 1) + "M"@
    } else if reaches(x, 1000) {
        fixed::fixed_text(divided(x, 1000), 0) + "k"@
    } else {
        fixed::fixed_text(x, 0)
    }
}

/// Writes a count of tokens.
pub fn fmt_tokens(v: Binary64) -> (r: String)
    ensures
        r@ == tokens_text(v),
{
    if at_least(v, 1_000_000) {
        let mut r: String = fixed::fixed(divide(v, 1_000_000), 1);
        r.append("M");
        r
    } else if at_least(v, 1000) {
        let mut r: String = fixed::fixed(divide(v, 1000), 0);
        r.append("k");
        r
    } else {
        fixed::fixed(v, 0)
    }
}

/// A latency: milliseconds below ten seconds, then seconds.
pub open spec fn secs_text(v: Option<Binary64>) -> Seq<char> {
    match v {
        Some(x) => if reaches(x, 100) {
            fixed::fixed_text(x, 0) + "s"@
        } else if reaches(x, 10) {
            fixed::fixed_text(x, 1) + "s"@
        } else {
            fixed::fixed_text(multiplied(x, 1000), 0) + "ms"@
        },
        None => missing(),
    }
}

/// Writes a latency.
pub fn fmt_secs(v: Option<Binary64>) -> (r: String)
    ensures
        r@ == secs_text(v),
{
    match v {
        Some(x) => if at_least(x, 100) {
            let mut r: String = fixed::fixed(x, 0);
            r.append("s");
            r
        } else if at_least(x, 10) {
            let mut r: String = fixed::fixed(x, 1);
            r.append("s");
            r
        } else {
            let mut r: String = fixed::fixed(multiply(x, 1000), 0);
            r.append("ms");
            r
        },
        None => String::from_str("—"),
    }
}

/// What a pool line shows: the absolute counts, or the usage where there are none.
pub open spec fn pool_text(p: Pool) -> Seq<char> {
    match (p.used, p.total) {
        (Some(u), Some(t)) => if binary64::less(binary64::zero(), t) {
            tokens_text(u) + "/"@ + tokens_text(t) + " "@ + (if p.unit@ == "slots"@ {
                "slots"@
            } else {
                "tok"@
            })
        } else {
            pct_text(Some(p.usage))
        },
        _ => pct_text(Some(p.usage)),
    }
}

/// The occupancy of a pool. The host pool reports no absolute count, so it shows its
/// usage, the only reading it has.
pub fn pool_value(p: &Pool) -> (r: Option<String>)
    ensures
        r is Some,
        r->0@ == pool_text(*p),
{
    if let (Some(u), Some(t)) = (p.used, p.total) {
        if Binary64::from_bits(0).lt(t) {
            let mut r: String = fmt_tokens(u);
            r.append("/");
            r.append(fmt_tokens(t).as_str());
            r.append(" ");
            r.append(if same_text(p.unit, "slots") { "slots" } else { "tok" });
            return Some(r);
        }
    }
    Some(fmt_pct(Some(p.usage)))
}

/// A typical and a high size, as far as they are known.
pub open spec fn span_text(p50: Option<Binary64>, p95: Option<Binary64>) -> Option<Seq<char>> {
    match (p50, p95) {
        (Some(a), Some(b)) => Some(num_text(Some(a)) + "–"@ + num_text(Some(b))),
        (Some(a), None) => Some(num_text(Some(a))),
        _ => None,
    }
}

/// Writes a typical and a high size.
pub fn size_span(p50: Option<Binary64>, p95: Option<Binary64>) -> (r: Option<String>)
    ensures
        r is Some <==> span_text(p50, p95) is Some,
        r is Some ==> r->0@ == span_text(p50, p95)->0,
{
    match (p50, p95) {
        (Some(a), Some(b)) => {
            let mut r: String = fmt_num(Some(a));
            r.append("–");
            r.append(fmt_num(Some(b)).as_str());
            Some(r)
        },
        (Some(a), None) => Some(fmt_num(Some(a))),
        _ => None,
    }
}

/// The text between two others, where there is one.
pub open spec fn wrapped_in(
    before: Seq<char>,
    s: Option<Seq<char>>,
    after: Seq<char>,
) -> Option<Seq<char>> {
    match s {
        Some(t) => Some(before + t + after),
        None => None,
    }
}

/// The sizes of prompts as submitted.
pub open spec fn prompt_gloss(p50: Option<Binary64>, p95: Option<Binary64>) -> Option<Seq<char>> {
    wrapped_in("prompt "@, span_text(p50, p95), " tok"@)
}

/// The sizes of the prompt text that was computed.
pub open spec fn computed_gloss(p50: Option<Binary64>, p95: Option<Binary64>) -> Option<
    Seq<char>,
> {
    wrapped_in("computed "@, span_text(p50, p95), " tok"@)
}

/// Writes the sizes of prompts as submitted.
pub fn prompt_size_span(d: &Derived) -> (r: Option<String>)
    ensures
        r is Some <==> prompt_gloss(d.prompt_len_p50, d.prompt_len_p95) is Some,
        r is Some ==> r->0@ == prompt_gloss(d.prompt_len_p50, d.prompt_len_p95)->0,
{
    match size_span(d.prompt_len_p50, d.prompt_len_p95) {
        Some(s) => {
            let mut r: String = String::from_str("prompt ");
            r.append(s.as_str());
            r.append(" tok");
            Some(r)
        },
        None => None,
    }
}

/// Writes the sizes of the prompt text that was computed.
pub fn computed_size_span(d: &Derived) -> (r: Option<String>)
    ensures
        r is Some <==> computed_gloss(d.computed_p50, d.computed_p95) is Some,
        r is Some ==> r->0@ == computed_gloss(d.computed_p50, d.computed_p95)->0,
{
    match size_span(d.computed_p50, d.computed_p95) {
        Some(s) => {
            let mut r: String = String::from_str("computed ");
            r.append(s.as_str());
            r.append(" tok");
            Some(r)
        },
        None => None,
    }
}

/// Both sizes with the unit once, as far as they are known.
pub open spec fn pair_gloss(d: &Derived) -> Option<Seq<char>> {
    let prompt = span_text(d.prompt_len_p50, d.prompt_len_p95);
    let computed = span_text(d.computed_p50, d.computed_p95);
    match (prompt, computed) {
        (Some(p), Some(c)) => Some("prompt "@ + p + " · computed "@ + c + " tok"@),
        (Some(p), None) => Some("prompt "@ + p + " tok"@),
        (None, Some(c)) => Some("computed "@ + c + " tok"@),
        (None, None) => None,
    }
}

/// Writes both sizes with the unit once.
pub fn prompt_computed_gloss(d: &Derived) -> (r: Option<String>)
    ensures
        r is Some <==> pair_gloss(d) is Some,
        r is Some ==> r->0@ == pair_gloss(d)->0,
{
    let prompt: Option<String> = size_span(d.prompt_len_p50, d.prompt_len_p95);
    let computed: Option<String> = size_span(d.computed_p50, d.computed_p95);
    match (prompt, computed) {
        (Some(p), Some(c)) => {
            let mut r: String = String::from_str("prompt ");
            r.append(p.as_str());
            r.append(" · computed ");
            r.append(c.as_str());
            r.append(" tok");
            Some(r)
        },
        (Some(p), None) => {
            let mut r: String = String::from_str("prompt ");
            r.append(p.as_str());
            r.append(" tok");
            Some(r)
        },
        (None, Some(c)) => {
            let mut r: String = String::from_str("computed ");
            r.append(c.as_str());
            r.append(" tok");
            Some(r)
        },
        (None, None) => None,
    }
}

/// A rate as a whole number.
pub open spec fn whole_text(v: Option<Binary64>) -> Seq<char> {
    match v {
        Some(x) => fixed::fixed_text(x, 0),
        None => missing(),
    }
}

fn fmt_whole(v: Option<Binary64>) -> (r: String)
    ensures
        r@ == whole_text(v),
{
    match v {
        Some(x) => fixed::fixed(x, 0),
        None => String::from_str("—"),
    }
}

/// Three rates, with strokes between them.
pub open spec fn triple_text(v: [Option<Binary64>; 3]) -> Seq<char> {
    whole_text(v[0]) + "/"@ + whole_text(v[1]) + "/"@ + whole_text(v[2])
}

/// Writes three rates.
pub fn triple(v: &[Option<Binary64>; 3]) -> (r: String)
    ensures
        r@ == triple_text(*v),
{
    let mut r: String = fmt_whole(v[0]);
    r.append("/");
    r.append(fmt_whole(v[1]).as_str());
    r.append("/");
    r.append(fmt_whole(v[2]).as_str());
    r
}

/// The text with spaces behind it, up to `width` characters.
pub open spec fn padded_right(s: Seq<char>, width: nat) -> Seq<char> {
    s + Seq::new(
        if s.len() < width {
            (width - s.len()) as nat
        } else {
            0
        },
        |i: int| ' ',
    )
}

/// The text with spaces before it, up to `width` characters.
pub open spec fn padded_left(s: Seq<char>, width: nat) -> Seq<char> {
    Seq::new(
        if s.len() < width {
            (width - s.len()) as nat
        } else {
            0
        },
        |i: int| ' ',
    ) + s
}

/// The number of characters.
pub fn char_count(s: &str) -> (n: usize)
    ensures
        n == s@.len(),
{
    let v: Vec<char> = crate::text::chars_of(s);
    v.len()
}

fn append_spaces(out: &mut String, n: usize)
    ensures
        final(out)@ == old(out)@ + Seq::new(n as nat, |i: int| ' '),
{
    let ghost all = Seq::new(n as nat, |i: int| ' ');
    let mut i: usize = 0;
    assert(all.take(0) =~= Seq::empty());
    assert(out@ + Seq::<char>::empty() =~= out@);
    while i < n
        invariant
            i <= n,
            all == Seq::new(n as nat, |i: int| ' '),
            out@ == old(out)@ + all.take(i as int),
        decreases n - i,
    {
        out.push(' ');
        i += 1;
        assert(out@ =~= old(out)@ + all.take(i as int));
    }
    assert(all.take(n as int) =~= all);
}

/// Puts spaces behind a text.
pub fn pad_right(s: &str, width: usize) -> (r: String)
    ensures
        r@ == padded_right(s@, width as nat),
{
    let mut r: String = String::from_str(s);
    let n: usize = char_count(s);
    append_spaces(&mut r, if n < width { width - n } else { 0 });
    r
}

/// Puts spaces before a text.
pub fn pad_left(s: &str, width: usize) -> (r: String)
    ensures
        r@ == padded_left(s@, width as nat),
{
    let mut r: String = String::new();
    let n: usize = char_count(s);
    append_spaces(&mut r, if n < width { width - n } else { 0 });
    r.append(s);
    assert(r@ =~= padded_left(s@, width as nat));
    r
}

} // verus!
