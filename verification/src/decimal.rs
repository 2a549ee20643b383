//! Decimal text of binary64 numbers.

use vstd::arithmetic::div_mod::*;
use vstd::arithmetic::mul::*;
use vstd::arithmetic::power::*;
use vstd::arithmetic::power2::*;
use vstd::prelude::*;
use vstd::slice::slice_subrange;

use crate::accuracy;
use crate::binary64;
use crate::binary64::Binary64;
use crate::natural::Natural;
use crate::rounding;
use crate::rounding::{round_dyadic, round_ratio, INF_BITS};
use crate::text::{copied, equals};

verus! {

pub open spec fn is_digit(c: char) -> bool {
    '0' <= c <= '9'
}

pub open spec fn digit(c: char) -> nat {
    (c as int - '0' as int) as nat
}

/// How many digits stand first.
pub open spec fn digits_len(s: Seq<char>) -> nat
    decreases s.len(),
{
    if s.len() == 0 || !is_digit(s[0]) {
        0
    } else {
        1 + digits_len(s.drop_first())
    }
}

/// The number that a run of digits stands for.
pub open spec fn digits_value(s: Seq<char>) -> nat
    decreases s.len(),
{
    if s.len() == 0 {
        0
    } else {
        10 * digits_value(s.drop_last()) + digit(s.last())
    }
}

pub open spec fn pow10(n: nat) -> nat {
    pow(10, n) as nat
}

/// The unsigned pattern of the number nearest to `d * 10^e`.
pub open spec fn decimal_bits(d: nat, e: int) -> nat {
    if e >= 0 {
        rounding::nearest((d * pow10(e as nat)) * pow2(1074), 1)
    } else {
        rounding::nearest(d * pow2(1074), pow10((-e) as nat))
    }
}

/// The value of an exponent part: nothing, or `e`, an optional sign and digits.
pub open spec fn exponent(s: Seq<char>) -> Option<int> {
    if s.len() == 0 {
        Some(0)
    } else if s[0] == 'e' || s[0] == 'E' {
        let negative = s.len() > 1 && s[1] == '-';
        let signed = s.len() > 1 && (s[1] == '-' || s[1] == '+');
        let ds = s.skip(if signed { 2 } else { 1 });
        if ds.len() > 0 && digits_len(ds) == ds.len() {
            Some(if negative { -(digits_value(ds) as int) } else { digits_value(ds) as int })
        } else {
            None
        }
    } else {
        None
    }
}

/// The unsigned pattern of a decimal number without a sign: digits, optionally with a
/// point among or beside them, and an optional exponent.
pub open spec fn unsigned_decimal(s: Seq<char>) -> Option<nat> {
    let a = digits_len(s);
    let rest = s.skip(a as int);
    let pointed = rest.len() > 0 && rest[0] == '.';
    let frac: int = if pointed { digits_len(rest.skip(1)) as int } else { 0 };
    let ds = s.take(a as int) + (if pointed { rest.subrange(1, 1 + frac) } else { Seq::empty() });
    let tail = if pointed { rest.skip(1 + frac) } else { rest };
    match exponent(tail) {
        Some(e) => if ds.len() > 0 {
            Some(decimal_bits(digits_value(ds), e - frac))
        } else {
            None
        },
        None => None,
    }
}

/// The lower-case form of a character, for the letters of ASCII.
pub open spec fn lower(c: char) -> char {
    if 'A' <= c <= 'Z' {
        (c as u32 + 32) as char
    } else {
        c
    }
}

pub open spec fn lowered(s: Seq<char>) -> Seq<char> {
    s.map_values(|c: char| lower(c))
}

/// The number that a text stands for: an optional sign, then a decimal number or the
/// name of an infinity or of a not-a-number in letters of either case.
pub open spec fn literal(s: Seq<char>) -> Option<Binary64> {
    let negative = s.len() > 0 && s[0] == '-';
    let body = if s.len() > 0 && (s[0] == '-' || s[0] == '+') {
        s.skip(1)
    } else {
        s
    };
    if lowered(body) == "inf"@ || lowered(body) == "infinity"@ {
        Some(binary64::signed(negative, INF_BITS as nat))
    } else if lowered(body) == "nan"@ {
        Some(binary64::not_a_number())
    } else {
        match unsigned_decimal(body) {
            Some(k) => Some(binary64::signed(negative, k)),
            None => None,
        }
    }
}

pub proof fn lemma_digits_len(s: Seq<char>)
    ensures
        digits_len(s) <= s.len(),
        forall|i: int| 0 <= i < digits_len(s) ==> is_digit(s[i]),
    decreases s.len(),
{
    if s.len() > 0 && is_digit(s[0]) {
        let d = s.drop_first();
        lemma_digits_len(d);
        assert forall|i: int| 0 <= i < digits_len(s) implies is_digit(s[i]) by {
            if i > 0 {
                assert(d[i - 1] == s[i]);
            }
        }
    }
}

proof fn lemma_digits_value_bound(s: Seq<char>)
    requires
        forall|i: int| 0 <= i < s.len() ==> is_digit(s[i]),
    ensures
        digits_value(s) < pow10(s.len()),
    decreases s.len(),
{
    lemma_pow10_unfold(s.len());
    lemma_pow10_zero();
    if s.len() > 0 {
        let t = s.drop_last();
        assert forall|i: int| 0 <= i < t.len() implies is_digit(t[i]) by {
            assert(t[i] == s[i]);
        }
        lemma_digits_value_bound(t);
        assert(is_digit(s.last()));
    }
}

pub proof fn lemma_pow10_zero()
    ensures
        pow10(0) == 1,
{
    lemma_pow0(10);
}

pub proof fn lemma_pow10_unfold(n: nat)
    ensures
        pow10(n) > 0,
        n > 0 ==> pow10(n) == 10 * pow10((n - 1) as nat),
{
    lemma_pow_positive(10, n);
    if n > 0 {
        lemma_pow_positive(10, (n - 1) as nat);
        reveal(pow);
    }
}

/// Powers of ten against powers of two: `2^(3n) <= 10^n <= 2^(4n)`.
proof fn lemma_pow10_bounds(n: nat)
    ensures
        pow2(3 * n) <= pow10(n) <= pow2(4 * n),
    decreases n,
{
    lemma2_to64();
    lemma_pow10_zero();
    if n > 0 {
        lemma_pow10_bounds((n - 1) as nat);
        lemma_pow10_unfold(n);
        lemma_pow2_adds(3 * (n - 1) as nat, 3);
        lemma_pow2_adds(4 * (n - 1) as nat, 4);
        assert(3 * (n - 1) as nat + 3 == 3 * n);
        assert(4 * (n - 1) as nat + 4 == 4 * n);
    }
}

proof fn lemma_pow10_monotone(a: nat, b: nat)
    requires
        a <= b,
    ensures
        pow10(a) <= pow10(b),
    decreases b,
{
    if a < b {
        lemma_pow10_monotone(a, (b - 1) as nat);
        lemma_pow10_unfold(b);
        lemma_pow10_unfold((b - 1) as nat);
    }
}

/// Beyond every finite magnitude, rounding gives infinity.
proof fn lemma_nearest_huge(num: nat, den: nat)
    requires
        den > 0,
        num >= den * pow2(2100),
    ensures
        rounding::nearest(num, den) == INF_BITS,
{
    let n = num / den;
    assert(n >= pow2(2100)) by {
        lemma_fundamental_div_mod(num as int, den as int);
        assert(n >= pow2(2100)) by (nonlinear_arith)
            requires
                num == den * n + num % den,
                0 <= num % den < den,
                num >= den * pow2(2100),
        ;
    }
    lemma_excess_large(n, 2047);
    let s = rounding::excess_bits(n);
    assert(s * rounding::HIDDEN >= INF_BITS) by (nonlinear_arith)
        requires
            s >= 2047,
            rounding::HIDDEN == 0x10_0000_0000_0000,
            INF_BITS == 0x7ff0_0000_0000_0000,
    ;
}

proof fn lemma_excess_large(n: nat, s: nat)
    requires
        n >= pow2(53 + s),
    ensures
        rounding::excess_bits(n) >= s,
    decreases s,
{
    if s > 0 {
        lemma_pow2_unfold(53 + s);
        lemma2_to64_rest();
        if s > 0 {
            lemma_pow2_strictly_increases(53, 53 + s);
        }
        lemma_excess_large(n / 2, (s - 1) as nat);
    }
}

/// Below half a unit, rounding gives zero.
proof fn lemma_nearest_tiny(num: nat, den: nat)
    requires
        2 * num < den,
    ensures
        rounding::nearest(num, den) == 0,
{
    lemma2_to64();
    lemma_fundamental_div_mod_converse(num as int, den as int, 0, num as int);
    assert(rounding::excess_bits(0) == 0);
    assert(den * pow2(0) == den);
}

proof fn lemma_decimal_huge(d: nat, e: int)
    requires
        d > 0,
        e >= 400,
    ensures
        decimal_bits(d, e) == INF_BITS,
{
    lemma_pow10_bounds(e as nat);
    lemma_pow2_adds(3 * (e as nat), 1074);
    lemma_pow2_strictly_increases(2100, 3 * (e as nat) + 1074);
    let num = (d * pow10(e as nat)) * pow2(1074);
    lemma_pow2_pos(1074);
    assert(num >= pow2(3 * (e as nat)) * pow2(1074)) by (nonlinear_arith)
        requires
            num == (d * pow10(e as nat)) * pow2(1074),
            d >= 1,
            pow10(e as nat) >= pow2(3 * (e as nat)),
            pow2(1074) > 0,
    ;
    assert(1 * pow2(2100) == pow2(2100));
    lemma_nearest_huge(num, 1);
}

proof fn lemma_decimal_tiny(d: nat, n: nat, e: int)
    requires
        d < pow10(n),
        e + n <= -400,
    ensures
        decimal_bits(d, e) == 0,
{
    let k = (-e) as nat;
    let m = (k - n) as nat;
    assert(pow10(k) == pow10(n) * pow10(m)) by {
        lemma_pow_adds(10, n, m);
        lemma_pow_positive(10, n);
        lemma_pow_positive(10, m);
        lemma_mul_strictly_positive(pow(10, n), pow(10, m));
    }
    lemma_pow10_bounds(m);
    lemma_pow2_unfold(1075);
    lemma_pow2_strictly_increases(1075, 3 * m);
    assert(2 * (d * pow2(1074)) < pow10(k)) by (nonlinear_arith)
        requires
            d < pow10(n),
            pow10(k) == pow10(n) * pow10(m),
            pow10(m) > 2 * pow2(1074),
            pow2(1074) >= 0,
    ;
    lemma_nearest_tiny(d * pow2(1074), pow10(k));
}

proof fn lemma_decimal_zero(e: int)
    ensures
        decimal_bits(0, e) == 0,
{
    let den = if e >= 0 { 1 } else { pow10((-e) as nat) };
    lemma_pow10_unfold((-e) as nat);
    assert(0 * pow10(e as nat) == 0);
    assert(0 * pow2(1074) == 0);
    lemma_nearest_tiny(0, den);
}

/// Powers of ten round to numbers or to infinity, and keep their order.
pub proof fn lemma_decimal_order(e: int)
    ensures
        decimal_bits(1, e) <= decimal_bits(1, e + 1) <= INF_BITS,
{
    let p = pow2(1074);
    if e >= 0 {
        lemma_pow10_unfold(e as nat + 1);
        lemma_pow10_unfold(e as nat);
        let a = (1 * pow10(e as nat)) * p;
        let b = (1 * pow10((e + 1) as nat)) * p;
        assert(a * 1 <= b * 1) by (nonlinear_arith)
            requires
                a == (1 * pow10(e as nat)) * p,
                b == (1 * pow10((e + 1) as nat)) * p,
                pow10(e as nat) <= pow10((e + 1) as nat),
        ;
        accuracy::rounding_keeps_order(a, 1, b, 1);
    } else if e + 1 < 0 {
        let x = pow10((-e) as nat);
        let y = pow10((-(e + 1)) as nat);
        lemma_pow10_unfold((-e) as nat);
        lemma_pow10_unfold((-(e + 1)) as nat);
        assert((1 * p) * y <= (1 * p) * x) by (nonlinear_arith)
            requires
                y <= x,
        ;
        accuracy::rounding_keeps_order(1 * p, x, 1 * p, y);
    } else {
        lemma_pow10_zero();
        lemma_pow10_unfold(1);
        let x = pow10(1);
        assert((1 * p) * 1 <= ((1 * pow10(0)) * p) * x) by (nonlinear_arith)
            requires
                x == 10,
                pow10(0) == 1,
                p >= 0,
        ;
        accuracy::rounding_keeps_order(1 * p, x, (1 * pow10(0)) * p, 1);
    }
}

/// Far enough down a power of ten rounds to zero, and far enough up to infinity.
pub proof fn lemma_decimal_ends()
    ensures
        decimal_bits(1, -401) == 0,
        decimal_bits(1, 400) == INF_BITS,
{
    lemma_pow10_zero();
    lemma_pow10_unfold(1);
    lemma_decimal_tiny(1, 1, -401);
    lemma_decimal_huge(1, 400);
}

/// The unsigned pattern of the number nearest to ten to the power of `e`.
pub(crate) fn power_bits(e: i128) -> (k: u64)
    requires
        -401 < e < 400,
    ensures
        k == decimal_bits(1, e as int),
        k <= INF_BITS,
{
    let mut one: Vec<char> = Vec::new();
    one.push('1');
    proof {
        assert(one@.drop_last() =~= Seq::empty());
        assert(digits_value(one@.drop_last()) == 0);
        assert(digits_value(one@) == 1);
    }
    round_long(one.as_slice(), e)
}

/// How many digits stand first.
fn leading_digits(v: &[char]) -> (n: usize)
    ensures
        n == digits_len(v@),
        n <= v@.len(),
{
    let mut n: usize = 0;
    assert(v@.skip(0) =~= v@);
    while n < v.len() && v[n] >= '0' && v[n] <= '9'
        invariant
            n <= v@.len(),
            digits_len(v@) == n + digits_len(v@.skip(n as int)),
        decreases v@.len() - n,
    {
        assert(v@.skip(n as int).drop_first() =~= v@.skip(n + 1));
        n += 1;
    }
    n
}

fn digit_of(c: char) -> (d: u32)
    requires
        is_digit(c),
    ensures
        d == digit(c),
        d < 10,
{
    c as u32 - '0' as u32
}

/// Exponents are read up to this size; the result is the same for all larger ones.
const EXPONENT_CAP: i128 = 1_000_000_000_000_000_000_000_000_000_000;

/// An exponent and its capped form.
spec fn capped(e: int, x: int) -> bool {
    ||| x == e
    ||| e >= EXPONENT_CAP && x == EXPONENT_CAP
    ||| e <= -EXPONENT_CAP && x == -EXPONENT_CAP
}

fn capped_digits(v: &[char]) -> (x: i128)
    requires
        forall|i: int| 0 <= i < v@.len() ==> is_digit(v@[i]),
    ensures
        capped(digits_value(v@) as int, x as int),
        0 <= x <= EXPONENT_CAP,
{
    let mut x: i128 = 0;
    let mut i: usize = 0;
    assert(v@.take(0) =~= Seq::empty());
    while i < v.len()
        invariant
            i <= v@.len(),
            0 <= x <= EXPONENT_CAP,
            capped(digits_value(v@.take(i as int)) as int, x as int),
            forall|i: int| 0 <= i < v@.len() ==> is_digit(v@[i]),
        decreases v@.len() - i,
    {
        let d: u32 = digit_of(v[i]);
        x = x * 10 + d as i128;
        if x > EXPONENT_CAP {
            x = EXPONENT_CAP;
        }
        i += 1;
        assert(v@.take(i as int).drop_last() =~= v@.take(i - 1));
    }
    assert(v@.take(v@.len() as int) =~= v@);
    x
}

/// The capped value of an exponent part.
fn read_exponent(v: &[char]) -> (r: Option<i128>)
    ensures
        r is Some <==> exponent(v@) is Some,
        r is Some ==> capped(exponent(v@)->0, r->0 as int) && -EXPONENT_CAP <= r->0
            <= EXPONENT_CAP,
{
    if v.len() == 0 {
        return Some(0);
    }
    if v[0] != 'e' && v[0] != 'E' {
        return None;
    }
    let negative: bool = v.len() > 1 && v[1] == '-';
    let signed: bool = v.len() > 1 && (v[1] == '-' || v[1] == '+');
    let from: usize = if signed { 2 } else { 1 };
    let ds: &[char] = slice_subrange(v, from, v.len());
    assert(ds@ =~= v@.skip(from as int));
    if ds.len() == 0 || leading_digits(ds) != ds.len() {
        return None;
    }
    proof {
        lemma_digits_len(ds@);
    }
    let x: i128 = capped_digits(ds);
    Some(if negative { -x } else { x })
}

proof fn lemma_capped_huge(d: nat, e: int, x: int, frac: nat)
    requires
        capped(e, x),
        x - frac >= 400,
        frac <= usize::MAX,
        d > 0,
    ensures
        decimal_bits(d, e - frac) == INF_BITS,
{
    lemma_decimal_huge(d, e - frac);
}

/// The number of `d * 10^e` units scaled up before a division by `10^k`.
proof fn lemma_scaled_up(d: nat, k: nat, t: nat)
    requires
        d > 0,
        32 * t >= 4 * k + 65,
    ensures
        d * pow2(32 * t) >= pow10(k) * pow2(64) + pow10(k),
        rounding::nearest_scaled(d * pow2(32 * t), pow10(k), 1074 - 32 * t)
            == rounding::nearest(d * pow2(1074), pow10(k)),
{
    lemma_pow10_unfold(k);
    lemma_pow10_bounds(k);
    rounding::lemma_nearest_scaled_shift(d, pow10(k), 1074, 32 * t);
    lemma_pow2_adds(4 * k, 65);
    if 32 * t > 4 * k + 65 {
        lemma_pow2_strictly_increases(4 * k + 65, 32 * t);
    }
    lemma_pow2_unfold(65);
    lemma2_to64();
    assert(d * pow2(32 * t) >= pow2(32 * t)) by (nonlinear_arith)
        requires
            d >= 1,
    ;
    assert(pow2(4 * k) * pow2(65) >= pow10(k) * pow2(64) + pow10(k)) by (nonlinear_arith)
        requires
            pow2(4 * k) >= pow10(k),
            pow2(65) == 2 * pow2(64),
            pow2(64) >= 1,
    ;
}

/// Dividing the denominator's partner by two to the power of 32 moves the exponent.
proof fn lemma_drop_limb(n: nat, c: nat, e: int)
    requires
        c > 0,
    ensures
        rounding::nearest_scaled(n, c * 0x1_0000_0000, e + 32) == rounding::nearest_scaled(
            n,
            c,
            e,
        ),
{
    lemma2_to64();
    let k: nat = if e >= 0 { 0 } else { (-e) as nat };
    rounding::lemma_nearest_scaled_common(n, c * 0x1_0000_0000, e + 32, k);
    rounding::lemma_nearest_scaled_common(n, c, e, k + 32);
    lemma_pow2_adds(32, k);
    assert((c * 0x1_0000_0000) * pow2(k) == c * pow2(k + 32)) by (nonlinear_arith)
        requires
            pow2(k + 32) == 0x1_0000_0000 * pow2(k),
    ;
}

/// One more division in a chain of divisions.
proof fn lemma_chain(n: nat, q: nat, c: nat, r: nat, q2: nat, d: nat, low: nat)
    requires
        n == q * c + r,
        r < c,
        q == q2 * d + low,
        low < d,
    ensures
        n == q2 * (c * d) + (low * c + r),
        low * c + r < c * d,
        (low * c + r == 0) == (low == 0 && r == 0),
{
    assert(n == q2 * (c * d) + (low * c + r)) by (nonlinear_arith)
        requires
            n == q * c + r,
            q == q2 * d + low,
    ;
    assert(low * c + r < c * d) by (nonlinear_arith)
        requires
            low < d,
            r < c,
    ;
    assert(low * c == 0 <==> low == 0) by (nonlinear_arith)
        requires
            c > 0,
            low >= 0,
    ;
    assert(low * c >= 0) by (nonlinear_arith)
        requires
            c > 0,
            low >= 0,
    ;
}

/// The pattern nearest to `digits * 10^e`, for digits and exponents of any size.
fn round_long(ds: &[char], e: i128) -> (k: u64)
    requires
        forall|i: int| 0 <= i < ds@.len() ==> is_digit(ds@[i]),
        e < 400,
        e + ds@.len() > -400,
    ensures
        k == decimal_bits(digits_value(ds@), e as int),
        k <= INF_BITS,
{
    let mut big: Natural = Natural::zero();
    let mut i: usize = 0;
    assert(ds@.take(0) =~= Seq::empty());
    while i < ds.len()
        invariant
            i <= ds@.len(),
            big.wf(),
            big.value() == digits_value(ds@.take(i as int)),
            forall|i: int| 0 <= i < ds@.len() ==> is_digit(ds@[i]),
        decreases ds@.len() - i,
    {
        big.mul_add(10, digit_of(ds[i]));
        i += 1;
        assert(ds@.take(i as int).drop_last() =~= ds@.take(i - 1));
    }
    assert(ds@.take(ds@.len() as int) =~= ds@);
    let ghost d = digits_value(ds@);
    let ghost target = decimal_bits(d, e as int);
    let mut count: usize = big.limb_count();
    if count == 0 {
        proof {
            lemma2_to64();
            lemma_decimal_zero(e as int);
        }
        return 0;
    }
    assert(d > 0) by {
        lemma_pow2_pos((32 * (count - 1)) as nat);
    }
    let mut lost: bool = false;
    let mut exp: i128 = 1074;
    let ghost mut c: nat = 1;
    let ghost mut r: nat = 0;
    let ghost mut n: nat = d;
    if e >= 0 {
        let mut j: i128 = 0;
        proof {
            lemma_pow10_zero();
            assert(d * 1 == d);
        }
        while j < e
            invariant
                0 <= j <= e < 400,
                big.wf(),
                big.value() == d * pow10(j as nat),
            decreases e - j,
        {
            big.mul_add(10, 0);
            proof {
                lemma_pow10_unfold((j + 1) as nat);
                assert((d * pow10(j as nat)) * 10 == d * (10 * pow10(j as nat)))
                    by (nonlinear_arith);
            }
            j += 1;
        }
        proof {
            n = big.value();
            assert(n * 1 == n);
            lemma_pow10_unfold(e as nat);
            lemma_mul_strictly_positive(d as int, pow10(e as nat) as int);
        }
    } else {
        let k: i128 = -e;
        let t: i128 = k / 8 + 3;
        let mut j: i128 = 0;
        proof {
            lemma2_to64();
            assert(d * pow2(0) == d);
        }
        while j < t
            invariant
                0 <= j <= t,
                d > 0,
                big.wf(),
                big.value() == d * pow2(32 * (j as nat)),
            decreases t - j,
        {
            proof {
                lemma_pow2_pos(32 * (j as nat));
                lemma_mul_strictly_positive(d as int, pow2(32 * (j as nat)) as int);
            }
            big.add_limb();
            proof {
                lemma2_to64();
                lemma_pow2_adds(32 * (j as nat), 32);
                assert(32 * ((j + 1) as nat) == 32 * (j as nat) + 32);
                assert((d * pow2(32 * (j as nat))) * 0x1_0000_0000 == d * (pow2(32 * (j as nat))
                    * 0x1_0000_0000)) by (nonlinear_arith);
            }
            j += 1;
        }
        exp = 1074 - 32 * t;
        proof {
            n = big.value();
            lemma_scaled_up(d, k as nat, t as nat);
            lemma_pow10_zero();
            assert(n == n * 1 + 0);
        }
        let mut j: i128 = 0;
        while j < k
            invariant
                0 <= j <= k,
                big.wf(),
                n == big.value() * c + r,
                r < c,
                c == pow10(j as nat),
                lost == (r != 0),
            decreases k - j,
        {
            let ghost q = big.value();
            let low: u32 = big.div_rem(10);
            proof {
                lemma_chain(n, q, c, r, big.value(), 10, low as nat);
                lemma_pow10_unfold((j + 1) as nat);
                r = low as nat * c + r;
                c = c * 10;
            }
            lost = lost || low != 0;
            j += 1;
        }
        proof {
            let q = big.value();
            assert(q >= pow2(64)) by (nonlinear_arith)
                requires
                    n == q * c + r,
                    r < c,
                    n >= c * pow2(64) + c,
            ;
            lemma_pow2_pos(64);
        }
    }
    assert(target == rounding::nearest_scaled(n, c, exp as int));
    count = big.limb_count();
    while count > 3
        invariant
            big.wf(),
            n == big.value() * c + r,
            r < c,
            lost == (r != 0),
            big.value() > 0,
            r != 0 ==> big.value() >= pow2(64),
            count > 0 ==> big.value() >= pow2((32 * (count - 1)) as nat),
            big.value() < pow2(32 * (count as nat)),
            target == rounding::nearest_scaled(n, c, exp as int),
            -0x1_0000_0000_0000_0000_0000_0000 <= exp <= 1074 + 32 * (usize::MAX - count),
            count <= usize::MAX,
        decreases big.value(),
    {
        let ghost q = big.value();
        proof {
            lemma2_to64();
            lemma_pow2_adds(64, 32);
            if 32 * (count - 1) > 96 {
                lemma_pow2_strictly_increases(96, (32 * (count - 1)) as nat);
            }
        }
        let low: u32 = big.drop_limb();
        proof {
            lemma_chain(n, q, c, r, big.value(), 0x1_0000_0000, low as nat);
            lemma_drop_limb(n, c, exp as int);
            lemma_pow2_pos(64);
            r = low as nat * c + r;
            c = c * 0x1_0000_0000;
            let v = big.value();
            assert(v >= pow2(64)) by (nonlinear_arith)
                requires
                    q == v * 0x1_0000_0000 + low,
                    low < 0x1_0000_0000,
                    q >= pow2(64) * 0x1_0000_0000,
            ;
        }
        lost = lost || low != 0;
        let ghost prev = count;
        count = big.limb_count();
        proof {
            lemma_pow2_adds((32 * (prev - 1)) as nat, 32);
            assert((32 * (prev - 1)) as nat + 32 == 32 * (prev as nat));
            let v = big.value();
            assert(v < pow2((32 * (prev - 1)) as nat)) by (nonlinear_arith)
                requires
                    q == v * 0x1_0000_0000 + low,
                    q < pow2((32 * (prev - 1)) as nat) * 0x1_0000_0000,
                    low >= 0,
            ;
            if count >= prev {
                if 32 * (count - 1) > 32 * (prev - 1) {
                    lemma_pow2_strictly_increases(
                        (32 * (prev - 1)) as nat,
                        (32 * (count - 1)) as nat,
                    );
                }
            }
        }
        exp = exp + 32;
    }
    proof {
        lemma2_to64();
        lemma_pow2_adds(64, 32);
        if 32 * (count as nat) < 96 {
            lemma_pow2_strictly_increases(32 * (count as nat), 96);
        }
        lemma_pow2_unfold(97);
    }
    let m: u128 = big.to_u128();
    proof {
        lemma_exact_or_sticky(n, m as nat, c, r, exp as int, target);
    }
    let (m2, e2): (u128, i128) = if lost { (m * 2 + 1, exp - 1) } else { (m, exp) };
    if e2 > 10000 {
        proof {
            lemma_far_up(m2 as nat, e2 as int);
        }
        return INF_BITS;
    }
    if e2 < -10000 {
        proof {
            lemma_far_down(m2 as nat, e2 as int);
        }
        return 0;
    }
    proof {
        rounding::lemma_pow2_127();
        lemma_pow2_strictly_increases(97, 127);
    }
    round_dyadic(m2, e2 as i32)
}

proof fn lemma_exact_or_sticky(n: nat, m: nat, c: nat, r: nat, e: int, target: nat)
    requires
        n == m * c + r,
        r < c,
        r != 0 ==> m >= pow2(64),
        target == rounding::nearest_scaled(n, c, e),
    ensures
        r == 0 ==> target == rounding::nearest_dyadic(m, e),
        r != 0 ==> target == rounding::nearest_dyadic(2 * m + 1, e - 1),
{
    if r == 0 {
        rounding::lemma_scaled_integral(m, c, e);
    } else {
        lemma_pow2_strictly_increases(54, 64);
        rounding::lemma_nearest_sticky(m, r, c, e);
    }
}

proof fn lemma_far_up(m: nat, e: int)
    requires
        m > 0,
        e >= 2100,
    ensures
        rounding::nearest_dyadic(m, e) == INF_BITS,
{
    if e > 2100 {
        lemma_pow2_strictly_increases(2100, e as nat);
    }
    assert(m * pow2(e as nat) >= pow2(e as nat)) by (nonlinear_arith)
        requires
            m >= 1,
    ;
    assert(1 * pow2(2100) == pow2(2100));
    lemma_nearest_huge(m * pow2(e as nat), 1);
}

proof fn lemma_far_down(m: nat, e: int)
    requires
        m < pow2(97),
        e <= -200,
    ensures
        rounding::nearest_dyadic(m, e) == 0,
{
    lemma_pow2_unfold(98);
    lemma_pow2_strictly_increases(98, (-e) as nat);
    lemma_nearest_tiny(m, pow2((-e) as nat));
}

/// The largest digit count for which the digits and the power of ten fit a machine word.
const SHORT: usize = 18;

fn power_of_ten(n: u32) -> (p: u64)
    requires
        n <= 18,
    ensures
        p == pow10(n as nat),
        0 < p <= 1_000_000_000_000_000_000,
{
    let mut p: u64 = 1;
    let mut i: u32 = 0;
    proof {
        lemma_pow10_zero();
    }
    while i < n
        invariant
            i <= n <= 18,
            p == pow10(i as nat),
        decreases n - i,
    {
        proof {
            lemma_pow10_18();
            lemma_pow10_monotone((i + 1) as nat, 18);
            lemma_pow10_unfold((i + 1) as nat);
        }
        p = p * 10;
        i += 1;
    }
    proof {
        lemma_pow10_18();
        lemma_pow10_monotone(n as nat, 18);
        lemma_pow10_unfold(n as nat);
    }
    p
}

proof fn lemma_pow10_18()
    ensures
        pow10(18) == 1_000_000_000_000_000_000,
{
    lemma_pow10_zero();
    lemma_pow10_unfold(1);
    lemma_pow10_unfold(2);
    lemma_pow10_unfold(3);
    lemma_pow10_unfold(4);
    lemma_pow10_unfold(5);
    lemma_pow10_unfold(6);
    lemma_pow10_unfold(7);
    lemma_pow10_unfold(8);
    lemma_pow10_unfold(9);
    lemma_pow10_unfold(10);
    lemma_pow10_unfold(11);
    lemma_pow10_unfold(12);
    lemma_pow10_unfold(13);
    lemma_pow10_unfold(14);
    lemma_pow10_unfold(15);
    lemma_pow10_unfold(16);
    lemma_pow10_unfold(17);
    lemma_pow10_unfold(18);
}

/// The value of at most eighteen digits.
fn short_value(ds: &[char]) -> (x: u64)
    requires
        forall|i: int| 0 <= i < ds@.len() ==> is_digit(ds@[i]),
        ds@.len() <= SHORT,
    ensures
        x == digits_value(ds@),
        x < 1_000_000_000_000_000_000,
{
    let mut x: u64 = 0;
    let mut i: usize = 0;
    assert(ds@.take(0) =~= Seq::empty());
    while i < ds.len()
        invariant
            i <= ds@.len() <= SHORT,
            x == digits_value(ds@.take(i as int)),
            forall|i: int| 0 <= i < ds@.len() ==> is_digit(ds@[i]),
        decreases ds@.len() - i,
    {
        proof {
            lemma_pow10_18();
            lemma_digits_value_bound(ds@.take(i as int));
            lemma_pow10_monotone(i as nat, 18);
            assert(ds@.take(i + 1).drop_last() =~= ds@.take(i as int));
        }
        x = x * 10 + digit_of(ds[i]) as u64;
        i += 1;
    }
    proof {
        assert(ds@.take(ds@.len() as int) =~= ds@);
        lemma_digits_value_bound(ds@);
        lemma_pow10_18();
        lemma_pow10_monotone(ds@.len(), 18);
    }
    x
}

/// The pattern nearest to `digits * 10^(exp - frac)`, for an exponent in capped form.
fn round_decimal(ds: &[char], exp: i128, frac: usize, Ghost(e): Ghost<int>) -> (k: u64)
    requires
        forall|i: int| 0 <= i < ds@.len() ==> is_digit(ds@[i]),
        capped(e, exp as int),
        -EXPONENT_CAP <= exp <= EXPONENT_CAP,
        frac <= ds@.len(),
    ensures
        k == decimal_bits(digits_value(ds@), e - frac),
        k <= INF_BITS,
{
    let ghost d = digits_value(ds@);
    let at: i128 = exp - frac as i128;
    if ds.len() <= SHORT && at >= -18 && at <= 18 {
        let x: u64 = short_value(ds);
        if at < 0 {
            let p: u64 = power_of_ten((-at) as u32);
            return round_ratio(x, p, 1074);
        } else {
            let p: u64 = power_of_ten(at as u32);
            assert(x * p <= 1_000_000_000_000_000_000 * 1_000_000_000_000_000_000)
                by (nonlinear_arith)
                requires
                    x <= 1_000_000_000_000_000_000,
                    p <= 1_000_000_000_000_000_000,
            ;
            return round_dyadic(x as u128 * p as u128, 1074);
        }
    }
    proof {
        lemma_digits_value_bound(ds@);
    }
    if at >= 400 {
        let mut all_zero: bool = true;
        let mut i: usize = 0;
        while i < ds.len()
            invariant
                i <= ds@.len(),
                all_zero ==> forall|j: int| 0 <= j < i ==> ds@[j] == '0',
                !all_zero ==> exists|j: int| 0 <= j < i && ds@[j] != '0',
            decreases ds@.len() - i,
        {
            if ds[i] != '0' {
                all_zero = false;
            }
            i += 1;
        }
        proof {
            lemma_all_zero(ds@);
        }
        if all_zero {
            proof {
                lemma_decimal_zero(e - frac);
            }
            return 0;
        }
        proof {
            lemma_capped_huge(d, e, exp as int, frac as nat);
        }
        return INF_BITS;
    }
    if at + ds.len() as i128 <= -400 {
        proof {
            lemma_decimal_tiny(d, ds@.len(), e - frac);
        }
        return 0;
    }
    round_long(ds, at)
}

proof fn lemma_all_zero(s: Seq<char>)
    requires
        forall|i: int| 0 <= i < s.len() ==> is_digit(s[i]),
    ensures
        (forall|j: int| 0 <= j < s.len() ==> s[j] == '0') ==> digits_value(s) == 0,
        (exists|j: int| 0 <= j < s.len() && s[j] != '0') ==> digits_value(s) > 0,
    decreases s.len(),
{
    if s.len() > 0 {
        let t = s.drop_last();
        assert forall|i: int| 0 <= i < t.len() implies is_digit(t[i]) by {
            assert(t[i] == s[i]);
        }
        lemma_all_zero(t);
        assert(is_digit(s.last()));
        if forall|j: int| 0 <= j < s.len() ==> s[j] == '0' {
            assert forall|j: int| 0 <= j < t.len() implies t[j] == '0' by {
                assert(t[j] == s[j]);
            }
            assert(s.last() == '0');
        }
        if exists|j: int| 0 <= j < s.len() && s[j] != '0' {
            let j = choose|j: int| 0 <= j < s.len() && s[j] != '0';
            if j < s.len() - 1 {
                assert(t[j] != '0');
            } else {
                assert(s.last() != '0');
            }
        }
    }
}

/// The pattern of a decimal number without a sign.
fn read_unsigned(v: &[char]) -> (r: Option<u64>)
    ensures
        r is Some <==> unsigned_decimal(v@) is Some,
        r is Some ==> r->0 == unsigned_decimal(v@)->0 && r->0 <= INF_BITS,
{
    let a: usize = leading_digits(v);
    let mut ds: Vec<char> = copied(slice_subrange(v, 0, a));
    assert(ds@ =~= v@.take(a as int));
    let rest: &[char] = slice_subrange(v, a, v.len());
    assert(rest@ =~= v@.skip(a as int));
    proof {
        lemma_digits_len(v@);
    }
    let mut frac: usize = 0;
    let mut tail: &[char] = rest;
    if rest.len() > 0 && rest[0] == '.' {
        let after: &[char] = slice_subrange(rest, 1, rest.len());
        assert(after@ =~= rest@.skip(1));
        frac = leading_digits(after);
        proof {
            lemma_digits_len(after@);
        }
        let mut more: Vec<char> = copied(slice_subrange(after, 0, frac));
        assert(more@ =~= rest@.subrange(1, 1 + frac));
        assert forall|i: int| 0 <= i < more@.len() implies is_digit(more@[i]) by {
            assert(more@[i] == after@[i]);
        }
        ds.append(&mut more);
        tail = slice_subrange(after, frac, after.len());
        assert(tail@ =~= rest@.skip(1 + frac));
    } else {
        assert(ds@ + Seq::<char>::empty() =~= ds@);
    }
    match read_exponent(tail) {
        Some(exp) => {
            if ds.len() == 0 {
                return None;
            }
            let ghost e = exponent(tail@)->0;
            Some(round_decimal(ds.as_slice(), exp, frac, Ghost(e)))
        },
        None => None,
    }
}

/// The text in lower case, for the letters of ASCII.
pub(crate) fn lower_case(v: &[char]) -> (r: Vec<char>)
    ensures
        r@ == lowered(v@),
{
    let mut r: Vec<char> = Vec::new();
    let mut i: usize = 0;
    while i < v.len()
        invariant
            i <= v@.len(),
            r@.len() == i,
            forall|j: int| 0 <= j < i ==> r@[j] == lower(v@[j]),
        decreases v@.len() - i,
    {
        let c: char = v[i];
        r.push(if c >= 'A' && c <= 'Z' { (c as u8 + 32) as char } else { c });
        i += 1;
    }
    assert(r@ =~= lowered(v@));
    r
}

/// The number that a text stands for.
pub fn parse_literal(v: &[char]) -> (r: Option<Binary64>)
    ensures
        r == literal(v@),
{
    let negative: bool = v.len() > 0 && v[0] == '-';
    let signed: bool = v.len() > 0 && (v[0] == '-' || v[0] == '+');
    let body: &[char] = if signed { slice_subrange(v, 1, v.len()) } else { v };
    assert(signed ==> body@ =~= v@.skip(1));
    let low: Vec<char> = lower_case(body);
    if equals(low.as_slice(), "inf") || equals(low.as_slice(), "infinity") {
        return Some(binary64::signed_exec(negative, INF_BITS));
    }
    if equals(low.as_slice(), "nan") {
        return Some(Binary64::from_bits(binary64::NAN_BITS));
    }
    match read_unsigned(body) {
        Some(k) => Some(binary64::signed_exec(negative, k)),
        None => None,
    }
}

} // verus!
