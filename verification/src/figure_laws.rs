//! Texts of numbers against the numbers that they stand for.

use vstd::arithmetic::div_mod::*;
use vstd::arithmetic::power::*;
use vstd::arithmetic::power2::*;
use vstd::prelude::*;

use crate::accuracy;
use crate::binary64;
use crate::binary64::Binary64;
use crate::decimal;
use crate::figures;
use crate::fixed;
use crate::fixed::{digits_text, fixed_text, padded_text};
use crate::rounding;

verus! {

/// Only digits.
pub open spec fn all_digits(s: Seq<char>) -> bool {
    forall|i: int| 0 <= i < s.len() ==> decimal::is_digit(#[trigger] s[i])
}

proof fn lemma_digit(d: nat)
    requires
        d < 10,
    ensures
        decimal::is_digit(fixed::digit_char(d)),
        decimal::digit(fixed::digit_char(d)) == d,
{
}

proof fn lemma_value_push(s: Seq<char>, d: nat)
    requires
        d < 10,
        all_digits(s),
    ensures
        decimal::digits_value(s.push(fixed::digit_char(d))) == 10 * decimal::digits_value(s) + d,
        all_digits(s.push(fixed::digit_char(d))),
{
    lemma_digit(d);
    let t = s.push(fixed::digit_char(d));
    assert(t.drop_last() =~= s);
    assert forall|i: int| 0 <= i < t.len() implies decimal::is_digit(#[trigger] t[i]) by {
        if i < s.len() {
            assert(decimal::is_digit(s[i]));
        }
    }
}

/// A natural number is read from its text as it was written.
pub proof fn integers_are_read_as_written(n: nat)
    ensures
        all_digits(digits_text(n)),
        digits_text(n).len() > 0,
        decimal::digits_value(digits_text(n)) == n,
    decreases n,
{
    if n < 10 {
        let none = Seq::<char>::empty();
        assert(none.push(fixed::digit_char(n)) =~= digits_text(n));
        assert(decimal::digits_value(none) == 0);
        lemma_value_push(none, n);
    } else {
        integers_are_read_as_written(n / 10);
        lemma_value_push(digits_text(n / 10), n % 10);
    }
}

proof fn lemma_padded(whole: Seq<char>, n: nat, k: nat)
    requires
        all_digits(whole),
        decimal::digits_value(whole) == n / decimal::pow10(k),
    ensures
        padded_text(n, k).len() == k,
        all_digits(whole + padded_text(n, k)),
        decimal::digits_value(whole + padded_text(n, k)) == n,
    decreases k,
{
    if k == 0 {
        lemma_pow0(10);
        assert(whole + padded_text(n, k) =~= whole);
        assert(n / 1 == n);
    } else {
        let j = (k - 1) as nat;
        lemma_pow_positive(10, j);
        lemma_pow_adds(10, 1, j);
        lemma_pow1(10);
        lemma_div_denominator(n as int, 10, decimal::pow10(j) as int);
        assert(10 * decimal::pow10(j) == decimal::pow10(k));
        assert((n / 10) / decimal::pow10(j) == n / decimal::pow10(k));
        lemma_padded(whole, n / 10, j);
        let s = whole + padded_text(n / 10, j);
        lemma_value_push(s, n % 10);
        assert(whole + padded_text(n, k) =~= s.push(fixed::digit_char(n % 10)));
    }
}

/// A number is written to the nearest decimal with the digits asked for: its text is a sign
/// where there is one, the whole part, and a point with as many digits behind it, and the
/// digits together are off by at most one half in the last place.
pub proof fn numbers_are_written_to_the_nearest_decimal(x: Binary64, prec: nat)
    requires
        x.finite(),
    ensures
        ({
            let n = rounding::round_even(x.mag() * decimal::pow10(prec), pow2(1074));
            let sign = if x.negative() {
                seq!['-']
            } else {
                Seq::empty()
            };
            let whole = digits_text(n / decimal::pow10(prec));
            let rest = padded_text(n, prec);
            &&& fixed_text(x, prec) == sign + (if prec == 0 {
                whole
            } else {
                whole + seq!['.'] + rest
            })
            &&& rest.len() == prec
            &&& all_digits(whole + rest)
            &&& decimal::digits_value(whole + rest) == n
            &&& -(pow2(1074) as int) <= 2 * (n * pow2(1074)) - 2 * (x.mag() * decimal::pow10(prec))
                <= pow2(1074)
        }),
{
    let p = pow2(1074);
    lemma_pow2_pos(1074);
    let num = x.mag() * decimal::pow10(prec);
    let n = rounding::round_even(num, p);
    let whole = digits_text(n / decimal::pow10(prec));
    integers_are_read_as_written(n / decimal::pow10(prec));
    lemma_padded(whole, n, prec);
    lemma_fundamental_div_mod(num as int, p as int);
    let q = num / p;
    assert((q + 1) * p == p * q + p) by (nonlinear_arith);
    assert(q * p == p * q) by (nonlinear_arith);
    if prec == 0 {
        lemma_pow0(10);
        assert(n / 1 == n);
    } else {
        assert(whole.push('.') + padded_text(n, prec) =~= whole + seq!['.'] + padded_text(n, prec));
    }
}

proof fn lemma_digits_len(s: Seq<char>, rest: Seq<char>)
    requires
        all_digits(s),
        rest.len() > 0 ==> !decimal::is_digit(rest[0]),
    ensures
        decimal::digits_len(s + rest) == s.len(),
    decreases s.len(),
{
    let t = s + rest;
    if s.len() > 0 {
        assert(decimal::is_digit(s[0]));
        assert(t[0] == s[0]);
        assert(t.drop_first() =~= s.drop_first() + rest);
        let d = s.drop_first();
        assert forall|i: int| 0 <= i < d.len() implies decimal::is_digit(#[trigger] d[i]) by {
            assert(decimal::is_digit(s[i + 1]));
        }
        lemma_digits_len(d, rest);
    } else {
        assert(t =~= rest);
    }
}

proof fn lemma_no_name(s: Seq<char>)
    requires
        s.len() > 0,
        decimal::is_digit(s[0]),
    ensures
        decimal::lowered(s) != "inf"@,
        decimal::lowered(s) != "infinity"@,
        decimal::lowered(s) != "nan"@,
{
    reveal_strlit("inf");
    reveal_strlit("infinity");
    reveal_strlit("nan");
    assert(decimal::lowered(s)[0] == decimal::lower(s[0]));
    assert(decimal::lower(s[0]) == s[0]);
}

/// Decimal digits are read as the number nearest to what they stand for: all of them as an
/// integer, over ten for each that stands behind the point. A minus before them changes the
/// sign and nothing else.
pub proof fn decimals_are_read_to_the_nearest_number(whole: Seq<char>, rest: Seq<char>)
    requires
        all_digits(whole),
        all_digits(rest),
        whole.len() > 0,
    ensures
        decimal::literal(whole) == Some(binary64::integer(decimal::digits_value(whole))),
        rest.len() > 0 ==> decimal::literal(whole + seq!['.'] + rest) == Some(
            binary64::signed(
                false,
                rounding::nearest(
                    decimal::digits_value(whole + rest) * pow2(1074),
                    decimal::pow10(rest.len()),
                ),
            ),
        ),
        decimal::literal(seq!['-'] + whole) == Some(
            binary64::opposite(binary64::integer(decimal::digits_value(whole))),
        ),
{
    let none = Seq::<char>::empty();
    assert(decimal::is_digit(whole[0]));
    lemma_digits_len(whole, none);
    assert(whole + none =~= whole);
    let n = decimal::digits_value(whole);
    lemma_pow0(10);
    assert((n * decimal::pow10(0)) * pow2(1074) == n * pow2(1074)) by {
        assert(n * 1 == n);
    }
    // The whole part alone.
    assert(whole.take(whole.len() as int) =~= whole);
    assert(whole.skip(whole.len() as int) =~= none);
    assert(whole.take(whole.len() as int) + none =~= whole);
    lemma_no_name(whole);
    assert(decimal::unsigned_decimal(whole) == Some(decimal::decimal_bits(n, 0)));
    // With a minus.
    let minus = seq!['-'] + whole;
    assert(minus.skip(1) =~= whole);
    // With digits behind the point.
    if rest.len() > 0 {
        let t = whole + seq!['.'] + rest;
        let tail = seq!['.'] + rest;
        assert(t =~= whole + tail);
        assert(t[0] == whole[0]);
        lemma_digits_len(whole, tail);
        lemma_digits_len(rest, none);
        assert(rest + none =~= rest);
        assert(t.skip(whole.len() as int) =~= tail);
        assert(tail.skip(1) =~= rest);
        assert(tail.subrange(1, 1 + rest.len() as int) =~= rest);
        assert(tail.skip(1 + rest.len() as int) =~= none);
        assert(t.take(whole.len() as int) =~= whole);
        lemma_no_name(t);
        let k = decimal::decimal_bits(decimal::digits_value(whole + rest), -(rest.len() as int));
        assert(decimal::unsigned_decimal(t) == Some(k));
    }
}

/// An exponent shifts the point: digits with an exponent behind them are read as the number
/// nearest to what they stand for times that power of ten, of either sign.
pub proof fn exponents_shift_the_point(whole: Seq<char>, exp: Seq<char>)
    requires
        all_digits(whole),
        all_digits(exp),
        whole.len() > 0,
        exp.len() > 0,
    ensures
        ({
            let n = decimal::digits_value(whole);
            let e = decimal::digits_value(exp);
            let large = binary64::signed(
                false,
                rounding::nearest((n * decimal::pow10(e)) * pow2(1074), 1),
            );
            let small = binary64::signed(
                false,
                rounding::nearest(n * pow2(1074), decimal::pow10(e)),
            );
            &&& decimal::literal(whole + seq!['e'] + exp) == Some(large)
            &&& decimal::literal(whole + seq!['e', '+'] + exp) == Some(large)
            &&& e > 0 ==> decimal::literal(whole + seq!['e', '-'] + exp) == Some(small)
        }),
{
    let none = Seq::<char>::empty();
    let n = decimal::digits_value(whole);
    let e = decimal::digits_value(exp);
    assert(decimal::is_digit(whole[0]));
    assert(decimal::is_digit(exp[0]));
    lemma_digits_len(exp, none);
    assert(exp + none =~= exp);
    let a = seq!['e'] + exp;
    let b = seq!['e', '+'] + exp;
    let c = seq!['e', '-'] + exp;
    assert(a[1] == exp[0]);
    assert(a.skip(1) =~= exp);
    assert(b.skip(2) =~= exp);
    assert(c.skip(2) =~= exp);
    assert(decimal::exponent(a) == Some(e as int));
    assert(decimal::exponent(b) == Some(e as int));
    assert(decimal::exponent(c) == Some(-(e as int)));
    lemma_with_tail(whole, a);
    lemma_with_tail(whole, b);
    lemma_with_tail(whole, c);
    assert(whole + seq!['e'] + exp =~= whole + a);
    assert(whole + seq!['e', '+'] + exp =~= whole + b);
    assert(whole + seq!['e', '-'] + exp =~= whole + c);
}

proof fn lemma_with_tail(whole: Seq<char>, tail: Seq<char>)
    requires
        all_digits(whole),
        whole.len() > 0,
        tail.len() > 0,
        tail[0] == 'e',
        decimal::exponent(tail) is Some,
    ensures
        decimal::literal(whole + tail) == Some(
            binary64::signed(
                false,
                decimal::decimal_bits(
                    decimal::digits_value(whole),
                    decimal::exponent(tail)->0,
                ),
            ),
        ),
{
    let t = whole + tail;
    assert(decimal::is_digit(whole[0]));
    assert(t[0] == whole[0]);
    lemma_digits_len(whole, tail);
    assert(t.take(whole.len() as int) =~= whole);
    assert(t.skip(whole.len() as int) =~= tail);
    assert(whole + Seq::<char>::empty() =~= whole);
    lemma_no_name(t);
}

/// The names of the numbers that no digits write are read in letters of either case.
pub proof fn names_are_read_as_their_numbers()
    ensures
        decimal::literal("+Inf"@) is Some,
        (decimal::literal("+Inf"@)->0).infinite() && !(decimal::literal("+Inf"@)->0).negative(),
        decimal::literal("-Inf"@) is Some,
        (decimal::literal("-Inf"@)->0).infinite() && (decimal::literal("-Inf"@)->0).negative(),
        decimal::literal("NaN"@) is Some,
        (decimal::literal("NaN"@)->0).nan(),
{
    reveal_strlit("+Inf");
    reveal_strlit("-Inf");
    reveal_strlit("NaN");
    reveal_strlit("inf");
    reveal_strlit("infinity");
    reveal_strlit("nan");
    assert(decimal::lowered("+Inf"@.skip(1)) =~= "inf"@);
    assert(decimal::lowered("-Inf"@.skip(1)) =~= "inf"@);
    assert(decimal::lowered("NaN"@) =~= "nan"@);
    assert("nan"@[0] != "inf"@[0] && "nan"@[0] != "infinity"@[0]);
}

/// A span of time is written in its two largest units: hours and minutes, or minutes and
/// seconds, or seconds alone.
pub proof fn spans_are_written_in_their_two_largest_units(h: nat, m: nat, s: nat)
    requires
        m < 60,
        s < 60,
    ensures
        h > 0 ==> figures::dur_text(3600 * h + 60 * m + s) == digits_text(h) + "h"@ + padded_text(
            m,
            2,
        ) + "m"@,
        h == 0 && m > 0 ==> figures::dur_text(60 * m + s) == digits_text(m) + "m"@ + digits_text(s)
            + "s"@,
        h == 0 && m == 0 ==> figures::dur_text(s) == digits_text(s) + "s"@,
{
    let t = 3600 * h + 60 * m + s;
    assert(t / 3600 == h && t % 3600 == 60 * m + s) by {
        lemma_fundamental_div_mod_converse(t as int, 3600, h as int, (60 * m + s) as int);
    }
    assert((60 * m + s) / 60 == m && (60 * m + s) % 60 == s);
}

/// What the short forms of numbers look like, by their size: counts in thousands from one
/// thousand on and in millions from a million on, latencies in milliseconds below ten
/// seconds, parts in hundredths.
pub proof fn numbers_are_shortened_by_their_size(x: Binary64)
    requires
        x.finite(),
    ensures
        ({
            let p = pow2(1074);
            let over = |n: nat| binary64::quotient(x, binary64::integer(n));
            let times = |n: nat| binary64::product(x, binary64::integer(n));
            let u = x.units();
            let num = figures::num_text(Some(x));
            let tokens = figures::tokens_text(x);
            let secs = figures::secs_text(Some(x));
            &&& -1000 * p < u < 1000 * p ==> num == fixed_text(x, 0)
            &&& u >= 1000 * p || u <= -1000 * p ==> num == fixed_text(over(1000), 1) + "k"@
            &&& u < 1000 * p ==> tokens == fixed_text(x, 0)
            &&& 1000 * p <= u < 1_000_000 * p ==> tokens == fixed_text(over(1000), 0) + "k"@
            &&& u >= 1_000_000 * p ==> tokens == fixed_text(over(1_000_000), 1) + "M"@
            &&& u < 10 * p ==> secs == fixed_text(times(1000), 0) + "ms"@
            &&& 10 * p <= u < 100 * p ==> secs == fixed_text(x, 1) + "s"@
            &&& u >= 100 * p ==> secs == fixed_text(x, 0) + "s"@
            &&& figures::pct_text(Some(x)) == fixed_text(times(100), 0) + "%"@
        }),
        figures::num_text(None) == "—"@,
        figures::secs_text(None) == "—"@,
        figures::pct_text(None) == "—"@,
{
    lemma_pow2_pos(1074);
    assert(rounding::magnitude(0) == 0);
    lemma_reaches(x, 10);
    lemma_reaches(x, 100);
    lemma_reaches(x, 1000);
    lemma_reaches(x, 1_000_000);
    lemma_reaches(figures::absolute(x), 1000);
}

proof fn lemma_reaches(x: Binary64, n: nat)
    requires
        x.finite(),
        n < 2_000_000,
    ensures
        figures::reaches(x, n) <==> x.units() >= n * pow2(1074),
{
    accuracy::small_integers_are_exact(n);
    accuracy::order_is_by_value(x, binary64::integer(n));
    accuracy::order_is_by_value(binary64::integer(n), x);
}

} // verus!
