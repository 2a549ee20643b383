//! Settings of a run.

use vstd::prelude::*;
use vstd::string::*;

use crate::accuracy;
use crate::binary64;
use crate::binary64::Binary64;
use crate::decimal;
use crate::decimal::parse_literal;
use crate::history;
use crate::text::chars_of;

verus! {

/// The settings.
#[derive(Debug)]
pub struct Args {
    /// The base address of the server.
    pub url: String,
    /// The bearer token, where the server asks for one.
    pub api_key: Option<String>,
    /// Accept invalid and self-signed certificates.
    pub insecure: bool,
    /// The scrape interval in seconds.
    pub interval: Binary64,
    /// The name of the theme.
    pub theme: String,
    /// Force the compact layout.
    pub compact: bool,
    /// Print one text snapshot and exit.
    pub once: bool,
}

/// Reads an interval: a finite number.
pub fn finite_interval(s: &str) -> (r: Result<Binary64, String>)
    ensures
        match decimal::literal(s@) {
            Some(v) => if v.finite() {
                r == Ok::<Binary64, String>(v)
            } else {
                r is Err && r->Err_0@ == "interval must be finite, got "@ + s@
            },
            None => r is Err && r->Err_0@ == "invalid number: "@ + s@,
        },
{
    match parse_literal(chars_of(s).as_slice()) {
        Some(v) => if v.is_finite() {
            Ok(v)
        } else {
            let mut e: String = String::from_str("interval must be finite, got ");
            e.append(s);
            Err(e)
        },
        None => {
            let mut e: String = String::from_str("invalid number: ");
            e.append(s);
            Err(e)
        },
    }
}

/// The interval moved into the range from half a second to ten seconds.
pub open spec fn bounded(interval: Binary64) -> Binary64 {
    binary64::clamped(interval, history::half(), binary64::integer(10))
}

/// The interval lies between half a second and ten seconds.
pub open spec fn in_bounds(interval: Binary64) -> bool {
    binary64::at_most(history::half(), interval) && binary64::at_most(
        interval,
        binary64::integer(10),
    )
}

/// An interval in whole milliseconds.
pub open spec fn millis(interval: Binary64) -> u64 {
    binary64::truncated(binary64::product(interval, binary64::integer(1000)))
}

/// Half is not above ten.
pub proof fn lemma_bounds()
    ensures
        binary64::at_most(history::half(), binary64::integer(10)),
        in_bounds(history::half()),
        in_bounds(binary64::integer(10)),
{
    accuracy::half_is_exact();
    accuracy::half_is_below(10);
}

/// An interval that is in bounds is an ordinary positive number.
pub proof fn lemma_in_bounds(x: Binary64)
    requires
        in_bounds(x),
    ensures
        x.finite(),
        !x.negative(),
        binary64::less(binary64::zero(), x),
{
    accuracy::half_is_exact();
    accuracy::small_integers_are_exact(10);
    accuracy::integers_keep_order(0, 10);
    accuracy::lemma_half_positive();
}

/// The interval that a run starts with.
pub fn start_interval(interval: Binary64) -> (r: Binary64)
    ensures
        r == bounded(interval),
        !interval.nan() ==> in_bounds(r),
{
    proof {
        lemma_bounds();
    }
    let half: Binary64 = Binary64::from_u64(1).over(Binary64::from_u64(2));
    interval.clamp(half, Binary64::from_u64(10))
}

/// An interval in whole milliseconds.
pub fn interval_millis(interval: Binary64) -> (ms: u64)
    ensures
        ms == millis(interval),
{
    interval.times(Binary64::from_u64(1000)).to_u64()
}

/// An interval in bounds has at most ten thousand milliseconds.
pub proof fn millis_are_bounded(x: Binary64)
    requires
        in_bounds(x),
    ensures
        millis(x) <= 10_000,
{
    lemma_in_bounds(x);
    accuracy::small_integers_are_exact(10);
    accuracy::small_integers_are_exact(1000);
    accuracy::small_integers_are_exact(10_000);
    accuracy::integers_keep_order(0, 10);
    accuracy::integers_keep_order(0, 1000);
    accuracy::integers_keep_order(0, 10_000);
    accuracy::products_keep_order(x, binary64::integer(10), binary64::integer(1000));
    accuracy::small_products_are_exact(10, 1000);
    accuracy::lemma_whole_at_most(
        binary64::product(x, binary64::integer(1000)),
        10_000,
    );
}

} // verus!
