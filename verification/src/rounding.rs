//! Rounding of exact rational numbers to the nearest binary64 magnitude.
//!
//! A magnitude is measured in units of the smallest positive binary64 number,
//! two to the power of minus 1074. The bit pattern of a number without its sign
//! bit grows with the magnitude, so a rounded magnitude is given as that pattern.

use vstd::arithmetic::div_mod::*;
use vstd::arithmetic::mul::*;
use vstd::arithmetic::power2::*;
use vstd::prelude::*;

verus! {

/// Two to the power of 52: the weight of the implicit leading bit.
pub const HIDDEN: u64 = 0x10_0000_0000_0000;

/// Two to the power of 53: significands stay below it.
pub const SIGNIFICAND_END: u64 = 0x20_0000_0000_0000;

/// The pattern of positive infinity. Every finite magnitude has a smaller one.
pub const INF_BITS: u64 = 0x7ff0_0000_0000_0000;

/// The quotient `num / den` rounded to an integer, ties going to the even one.
pub open spec fn round_even(num: nat, den: nat) -> nat {
    let q = num / den;
    let r = num % den;
    if 2 * r > den || (2 * r == den && q % 2 == 1) {
        q + 1
    } else {
        q
    }
}

/// How many low bits of the integer `n` do not fit a 53-bit significand.
pub open spec fn excess_bits(n: nat) -> nat
    decreases n,
{
    if n < SIGNIFICAND_END {
        0
    } else {
        1 + excess_bits(n / 2)
    }
}

/// The pattern of the binary64 magnitude nearest to `num / den` units, ties going
/// to the even significand; infinity from the point where no finite number is near.
pub open spec fn nearest(num: nat, den: nat) -> nat {
    let s = excess_bits(num / den);
    let k = s * (HIDDEN as nat) + round_even(num, den * pow2(s));
    if k >= INF_BITS {
        INF_BITS as nat
    } else {
        k
    }
}

/// The magnitude, in units, that the pattern `k` of a finite number stands for.
pub open spec fn magnitude(k: nat) -> nat {
    if k < HIDDEN {
        k
    } else {
        let s = (k / (HIDDEN as nat) - 1) as nat;
        ((k - s * HIDDEN) * pow2(s)) as nat
    }
}

/// `nearest` of the number `m * 2^e` units, for an exponent of either sign.
pub open spec fn nearest_dyadic(m: nat, e: int) -> nat {
    if e >= 0 {
        nearest(m * pow2(e as nat), 1)
    } else {
        nearest(m, pow2((-e) as nat))
    }
}

proof fn lemma_excess_bits_zero(n: nat)
    requires
        n < SIGNIFICAND_END,
    ensures
        excess_bits(n) == 0,
{
}

/// The number of excess bits, from the position of the leading bit.
pub proof fn lemma_excess_bits(n: nat, s: nat)
    requires
        pow2(52 + s) <= n < pow2(53 + s),
    ensures
        excess_bits(n) == s,
    decreases s,
{
    lemma2_to64();
    lemma2_to64_rest();
    if s > 0 {
        lemma_pow2_unfold(52 + s);
        lemma_pow2_unfold(53 + s);
        if s > 1 {
            lemma_pow2_strictly_increases(53, 52 + s);
        }
        assert(pow2(52 + (s - 1) as nat) == pow2((52 + s - 1) as nat));
        assert(pow2(53 + (s - 1) as nat) == pow2((53 + s - 1) as nat));
        lemma_excess_bits(n / 2, (s - 1) as nat);
    }
}

/// Rounding a quotient does not depend on a common factor.
pub proof fn lemma_round_even_scale(num: nat, den: nat, c: nat)
    requires
        den > 0,
        c > 0,
    ensures
        den * c > 0,
        round_even(num * c, den * c) == round_even(num, den),
{
    let q = (num / den) as int;
    let r = (num % den) as int;
    lemma_mul_strictly_positive(den as int, c as int);
    lemma_fundamental_div_mod(num as int, den as int);
    assert(num * c == q * (den * c) + r * c) by (nonlinear_arith)
        requires
            num == den * q + r,
    ;
    assert(0 <= r * c < den * c) by (nonlinear_arith)
        requires
            0 <= r < den,
            c > 0,
    ;
    lemma_fundamental_div_mod_converse((num * c) as int, (den * c) as int, q, r * c);
    assert(2 * (r * c) > den * c <==> 2 * r > den) by (nonlinear_arith)
        requires
            c > 0,
    ;
    assert(2 * (r * c) == den * c <==> 2 * r == den) by (nonlinear_arith)
        requires
            c > 0,
    ;
}

/// Rounding an integral quotient is exact.
pub proof fn lemma_round_even_exact(q: nat, den: nat)
    requires
        den > 0,
    ensures
        round_even(q * den, den) == q,
{
    lemma_fundamental_div_mod_converse((q * den) as int, den as int, q as int, 0);
}

/// `nearest` does not depend on a common factor.
pub proof fn lemma_nearest_scale(num: nat, den: nat, c: nat)
    requires
        den > 0,
        c > 0,
    ensures
        den * c > 0,
        nearest(num * c, den * c) == nearest(num, den),
{
    lemma_mul_strictly_positive(den as int, c as int);
    assert((num * c) / (den * c) == num / den) by {
        lemma_fundamental_div_mod(num as int, den as int);
        let q = (num / den) as int;
        let r = (num % den) as int;
        assert(num * c == q * (den * c) + r * c) by (nonlinear_arith)
            requires
                num == den * q + r,
        ;
        assert(0 <= r * c < den * c) by (nonlinear_arith)
            requires
                0 <= r < den,
                c > 0,
        ;
        lemma_fundamental_div_mod_converse((num * c) as int, (den * c) as int, q, r * c);
    }
    let s = excess_bits(num / den);
    lemma_pow2_pos(s);
    lemma_mul_strictly_positive(den as int, pow2(s) as int);
    lemma_round_even_scale(num, den * pow2(s), c);
    assert((den * pow2(s)) * c == (den * c) * pow2(s)) by (nonlinear_arith);
}

/// A nonzero tail below the rounding position can be replaced by a half.
pub proof fn lemma_round_even_sticky(q: nat, r: nat, c: nat, h: nat)
    requires
        0 < r < c,
        h > 0,
    ensures
        round_even(q * c + r, c * (2 * h)) == round_even(2 * q + 1, 2 * (2 * h)),
        (q * c + r) / (c * (2 * h)) == (2 * q + 1) / (2 * (2 * h)),
{
    let w = (q / (2 * h)) as int;
    let j = (q % (2 * h)) as int;
    lemma_fundamental_div_mod(q as int, (2 * h) as int);
    let r1 = j * c + r;
    assert(q * c + r == w * (c * (2 * h)) + r1) by (nonlinear_arith)
        requires
            q == (2 * h) * w + j,
            r1 == j * c + r,
    ;
    assert(0 <= r1 < c * (2 * h)) by (nonlinear_arith)
        requires
            0 <= j < 2 * h,
            0 < r < c,
            r1 == j * c + r,
    ;
    lemma_fundamental_div_mod_converse((q * c + r) as int, (c * (2 * h)) as int, w, r1);
    assert(2 * q + 1 == w * (2 * (2 * h)) + (2 * j + 1)) by (nonlinear_arith)
        requires
            q == (2 * h) * w + j,
    ;
    lemma_fundamental_div_mod_converse((2 * q + 1) as int, (2 * (2 * h)) as int, w, 2 * j + 1);
    assert(j >= h ==> r1 > h * c) by (nonlinear_arith)
        requires
            r1 == j * c + r,
            r > 0,
            c > 0,
    ;
    assert(j < h ==> r1 < h * c) by (nonlinear_arith)
        requires
            r1 == j * c + r,
            0 < r < c,
    ;
    assert(c * (2 * h) == 2 * (h * c)) by (nonlinear_arith);
}

/// The pattern `nearest` gives, from the position of the leading bit of `num / den`.
proof fn lemma_nearest_at(num: nat, den: nat, s: nat)
    requires
        den > 0,
        s == 0 ==> num / den < SIGNIFICAND_END,
        s > 0 ==> pow2(52 + s) <= num / den < pow2(53 + s),
    ensures
        nearest(num, den) == ({
            let k = s * (HIDDEN as nat) + round_even(num, den * pow2(s));
            if k >= INF_BITS {
                INF_BITS as nat
            } else {
                k
            }
        }),
{
    if s > 0 {
        lemma_excess_bits(num / den, s);
    } else {
        lemma_excess_bits_zero(num / den);
    }
}

/// `(q + r / c) * 2^e` with a nonzero tail `r / c` rounds as `(q + 1/2) * 2^e` does.
pub proof fn lemma_nearest_sticky(q: nat, r: nat, c: nat, e: int)
    requires
        q >= pow2(54),
        0 < r < c,
    ensures
        e >= 0 ==> nearest((q * c + r) * pow2(e as nat), c) == nearest_dyadic(2 * q + 1, e - 1),
        e < 0 ==> nearest(q * c + r, c * pow2((-e) as nat)) == nearest_dyadic(2 * q + 1, e - 1),
{
    let big = q * c + r;
    let m = 2 * q + 1;
    if e < 0 {
        let t = (-e) as nat;
        // den = c * 2^t against 2 * 2^t
        lemma_pow2_pos(t);
        lemma_pow2_unfold(t + 1);
        let half = pow2((t - 1) as nat);
        lemma_pow2_unfold(t);
        lemma_pow2_pos((t - 1) as nat);
        lemma_round_even_sticky(q, r, c, half);
        assert(big / (c * pow2(t)) == m / pow2(t + 1));
        let s = excess_bits(big / (c * pow2(t)));
        lemma_pow2_pos(s);
        assert(half * pow2(s) > 0) by (nonlinear_arith)
            requires
                half > 0,
                pow2(s) > 0,
        ;
        lemma_round_even_sticky(q, r, c, half * pow2(s));
        assert((c * pow2(t)) * pow2(s) == c * (2 * (half * pow2(s)))) by (nonlinear_arith)
            requires
                pow2(t) == 2 * half,
        ;
        assert(pow2(t + 1) * pow2(s) == 2 * (2 * (half * pow2(s)))) by (nonlinear_arith)
            requires
                pow2(t + 1) == 2 * pow2(t),
                pow2(t) == 2 * half,
        ;
        assert((-(e - 1)) as nat == t + 1);
    } else {
        let t = e as nat;
        lemma_pow2_pos(54);
        let len = lemma_bit_length(q);
        lemma_pow2_monotone_converse(54, len);
        // both numbers have their leading bit at position len + t - 1
        let s = (len + t - 53) as nat;
        lemma_pow2_pos(t);
        lemma_pow2_adds((len - 1) as nat, t);
        lemma_pow2_adds(len, t);
        assert(52 + s == (len - 1) + t);
        assert(53 + s == len + t);
        let p = pow2(t);
        let n1 = (big * p) / c;
        assert(q * p <= n1 < (q + 1) * p) by {
            assert(big * p == (q * p) * c + r * p) by (nonlinear_arith)
                requires
                    big == q * c + r,
            ;
            lemma_fundamental_div_mod((big * p) as int, c as int);
            let rem = ((big * p) % c) as int;
            assert(c * n1 + rem == (q * p) * c + r * p);
            assert(q * p <= n1) by (nonlinear_arith)
                requires
                    c * n1 + rem == (q * p) * c + r * p,
                    0 <= rem < c,
                    r * p >= 0,
            ;
            assert(n1 < (q + 1) * p) by (nonlinear_arith)
                requires
                    c * n1 + rem == (q * p) * c + r * p,
                    0 <= rem,
                    0 < r < c,
                    p > 0,
                    c > 0,
            ;
        }
        assert(pow2((len - 1) as nat) * p <= q * p) by (nonlinear_arith)
            requires
                pow2((len - 1) as nat) <= q,
        ;
        assert((q + 1) * p <= pow2(len) * p) by (nonlinear_arith)
            requires
                q + 1 <= pow2(len),
        ;
        lemma_nearest_at(big * p, c, s);
        // rounding position: c * 2^s = (c * 2^(s - t)) * 2^t, with s - t >= 2
        let g = (s - t) as nat;
        let half = pow2((g - 1) as nat);
        lemma_pow2_unfold(g);
        lemma_pow2_pos((g - 1) as nat);
        lemma_pow2_adds(g, t);
        lemma_round_even_sticky(q, r, c, half);
        lemma_mul_strictly_positive(c as int, pow2(g) as int);
        lemma_round_even_scale(big, c * pow2(g), p);
        assert((c * pow2(g)) * p == c * pow2(s)) by (nonlinear_arith)
            requires
                pow2(s) == pow2(g) * p,
        ;
        assert(round_even(big * p, c * pow2(s)) == round_even(m, 2 * pow2(g)));
        if t == 0 {
            // m / 2 against den 2
            lemma_pow2_unfold(1);
            lemma2_to64();
            assert(m / 2 == q);
            lemma_nearest_at(m, 2, s);
            assert(2 * pow2(s) == 2 * pow2(g));
        } else {
            let p1 = pow2((t - 1) as nat);
            lemma_pow2_unfold(t);
            lemma_pow2_pos((t - 1) as nat);
            let n2 = m * p1;
            assert(q * p <= n2 < (q + 1) * p) by (nonlinear_arith)
                requires
                    n2 == (2 * q + 1) * p1,
                    p == 2 * p1,
                    p1 > 0,
            ;
            assert(n2 / 1 == n2);
            lemma_nearest_at(n2, 1, s);
            lemma_pow2_pos(g);
            lemma_round_even_scale(m, 2 * pow2(g), p1);
            assert((2 * pow2(g)) * p1 == 1 * pow2(s)) by (nonlinear_arith)
                requires
                    pow2(s) == pow2(g) * p,
                    p == 2 * p1,
            ;
        }
    }
}

/// The number of bits of a positive integer.
proof fn lemma_bit_length(n: nat) -> (len: nat)
    requires
        n > 0,
    ensures
        len > 0,
        pow2((len - 1) as nat) <= n < pow2(len),
    decreases n,
{
    lemma2_to64();
    if n == 1 {
        1
    } else {
        let l = lemma_bit_length(n / 2);
        lemma_pow2_unfold(l);
        lemma_pow2_unfold(l + 1);
        l + 1
    }
}

/// A power of two below another one has the smaller exponent.
proof fn lemma_pow2_monotone_converse(a: nat, b: nat)
    ensures
        pow2(a) < pow2(b) ==> a < b,
{
    if a >= b {
        if a > b {
            lemma_pow2_strictly_increases(b, a);
        }
    }
}

/// The number of bits of `m`, with two to that power.
pub(crate) fn bit_length(m: u128) -> (r: (u32, u128))
    requires
        0 < m < 0x8000_0000_0000_0000_0000_0000_0000_0000,
    ensures
        0 < r.0 <= 127,
        r.1 == pow2(r.0 as nat),
        pow2((r.0 - 1) as nat) <= m < r.1,
{
    proof {
        lemma2_to64();
    }
    let mut len: u32 = 1;
    let mut end: u128 = 2;
    while end <= m
        invariant
            0 < len <= 127,
            end == pow2(len as nat),
            pow2((len - 1) as nat) <= m < 0x8000_0000_0000_0000_0000_0000_0000_0000,
        decreases 127 - len,
    {
        proof {
            lemma_pow2_127();
            lemma_pow2_unfold((len + 1) as nat);
        }
        len = len + 1;
        end = end * 2;
    }
    (len, end)
}

/// Two to the power of 127 in full.
pub proof fn lemma_pow2_127()
    ensures
        pow2(127) == 0x8000_0000_0000_0000_0000_0000_0000_0000int,
{
    lemma2_to64();
    lemma2_to64_rest();
    lemma_pow2_adds(63, 64);
    assert(0x8000_0000_0000_0000int * 0x1_0000_0000_0000_0000int
        == 0x8000_0000_0000_0000_0000_0000_0000_0000int);
}

/// Two to the power of `k`.
pub(crate) fn power_of_two(k: u32) -> (p: u128)
    requires
        k < 128,
    ensures
        p == pow2(k as nat),
{
    proof {
        lemma2_to64();
    }
    let mut p: u128 = 1;
    let mut i: u32 = 0;
    while i < k
        invariant
            i <= k < 128,
            p == pow2(i as nat),
        decreases k - i,
    {
        proof {
            lemma_pow2_127();
            if i < 127 {
                lemma_pow2_strictly_increases(i as nat, 127);
            }
            lemma_pow2_unfold((i + 1) as nat);
        }
        p = p * 2;
        i = i + 1;
    }
    p
}

/// The pattern of the magnitude nearest to `m * 2^e` units.
pub fn round_dyadic(m: u128, e: i32) -> (k: u64)
    requires
        m < 0x8000_0000_0000_0000_0000_0000_0000_0000,
        -10000 <= e <= 10000,
    ensures
        k == nearest_dyadic(m as nat, e as int),
        k <= INF_BITS,
{
    if m == 0 {
        proof {
            lemma_nearest_zero(e as int);
        }
        return 0;
    }
    let (len, _end) = bit_length(m);
    let top: i32 = len as i32 + e;
    let s: i32 = if top > 53 { top - 53 } else { 0 };
    let drop: i32 = s - e;
    let q: u64 = if drop <= 0 {
        let up: u32 = (-drop) as u32;
        proof {
            lemma_dyadic_exact(m as nat, e as int, len as nat, s as nat);
            lemma_pow2_adds(len as nat, up as nat);
            lemma2_to64_rest();
            lemma_pow2_pos(up as nat);
            lemma_mul_strict_inequality(m as int, pow2(len as nat) as int, pow2(up as nat) as int);
            if len + up < 53 {
                lemma_pow2_strictly_increases((len + up) as nat, 53);
            }
        }
        let p: u128 = power_of_two(up);
        (m * p) as u64
    } else if drop >= 128 {
        proof {
            lemma_dyadic_drop(m as nat, e as int, len as nat, s as nat);
            lemma_pow2_127();
            lemma_pow2_unfold(128);
            if drop > 128 {
                lemma_pow2_strictly_increases(128, drop as nat);
            }
            lemma_small_div(m as nat, pow2(drop as nat));
        }
        0
    } else {
        let p: u128 = power_of_two(drop as u32);
        proof {
            lemma_dyadic_drop(m as nat, e as int, len as nat, s as nat);
            lemma_pow2_pos(drop as nat);
            lemma_quotient_bound(m as nat, len as nat, drop as nat);
        }
        let q: u128 = m / p;
        let r: u128 = m % p;
        if r > p - r || (r == p - r && q % 2 == 1) {
            (q + 1) as u64
        } else {
            q as u64
        }
    };
    proof {
        assert(nearest_dyadic(m as nat, e as int) == clamp_inf(s * HIDDEN + q));
    }
    if s > 2046 {
        proof {
            assert(s * HIDDEN >= INF_BITS) by (nonlinear_arith)
                requires
                    s >= 2047,
                    HIDDEN == 0x10_0000_0000_0000,
                    INF_BITS == 0x7ff0_0000_0000_0000,
            ;
        }
        return INF_BITS;
    }
    assert(s * HIDDEN <= 2046 * HIDDEN);
    let k: u64 = s as u64 * HIDDEN + q;
    if k >= INF_BITS {
        INF_BITS
    } else {
        k
    }
}

/// A pattern, or that of infinity where it is not below it.
pub open spec fn clamp_inf(k: int) -> int {
    if k >= INF_BITS {
        INF_BITS as int
    } else {
        k
    }
}

proof fn lemma_small_div(m: nat, d: nat)
    requires
        2 * m < d,
    ensures
        round_even(m, d) == 0,
{
    lemma_fundamental_div_mod_converse(m as int, d as int, 0, m as int);
}

proof fn lemma_nearest_zero(e: int)
    ensures
        nearest_dyadic(0, e) == 0,
{
    lemma2_to64();
    let d = if e >= 0 { 1 } else { pow2((-e) as nat) };
    lemma_pow2_pos((-e) as nat);
    lemma_fundamental_div_mod_converse(0, d as int, 0, 0);
    lemma_small_div(0, d);
    assert(excess_bits(0) == 0);
    assert(d * pow2(0) == d);
    assert(nearest(0, d) == 0);
    assert(0 * pow2(e as nat) == 0);
}

/// `m / 2^drop`, for `m` of `len` bits, has at most 53 bits when `len - drop <= 53`.
proof fn lemma_quotient_bound(m: nat, len: nat, drop: nat)
    requires
        m < pow2(len),
        len <= drop + 53,
    ensures
        m / pow2(drop) < SIGNIFICAND_END,
{
    lemma2_to64_rest();
    lemma_pow2_pos(drop);
    lemma_pow2_adds(53, drop);
    if len < drop + 53 {
        lemma_pow2_strictly_increases(len, drop + 53);
    }
    lemma_fundamental_div_mod(m as int, pow2(drop) as int);
    assert(m / pow2(drop) < pow2(53)) by (nonlinear_arith)
        requires
            m < pow2(53) * pow2(drop),
            m == pow2(drop) * (m / pow2(drop)) + m % pow2(drop),
            m % pow2(drop) >= 0,
    ;
}

/// Where the leading bit of `m * 2^e` units stands.
proof fn lemma_dyadic_top(m: nat, e: int, len: nat, s: nat)
    requires
        len > 0,
        pow2((len - 1) as nat) <= m < pow2(len),
        s == (if len + e > 53 { len + e - 53 } else { 0 }),
    ensures
        e >= 0 && s == 0 ==> m * pow2(e as nat) < SIGNIFICAND_END,
        e >= 0 && s > 0 ==> pow2(52 + s) <= m * pow2(e as nat) < pow2(53 + s),
        e < 0 && s == 0 ==> m / pow2((-e) as nat) < SIGNIFICAND_END,
        e < 0 && s > 0 ==> pow2(52 + s) <= m / pow2((-e) as nat) < pow2(53 + s),
{
    lemma2_to64_rest();
    if e >= 0 {
        let p = pow2(e as nat);
        lemma_pow2_pos(e as nat);
        lemma_pow2_adds((len - 1) as nat, e as nat);
        lemma_pow2_adds(len, e as nat);
        assert(pow2((len - 1) as nat) * p <= m * p < pow2(len) * p) by (nonlinear_arith)
            requires
                pow2((len - 1) as nat) <= m < pow2(len),
                p > 0,
        ;
        if s > 0 {
            assert(52 + s == (len - 1) as nat + e as nat);
            assert(53 + s == len + e as nat);
        } else if len + e < 53 {
            lemma_pow2_strictly_increases(len + e as nat, 53);
        }
    } else {
        let t = (-e) as nat;
        let p = pow2(t);
        lemma_pow2_pos(t);
        lemma_fundamental_div_mod(m as int, p as int);
        if s > 0 {
            lemma_pow2_adds((52 + s) as nat, t);
            lemma_pow2_adds((53 + s) as nat, t);
            assert((52 + s) as nat + t == (len - 1) as nat);
            assert((53 + s) as nat + t == len);
            assert(pow2(52 + s) <= m / p) by (nonlinear_arith)
                requires
                    pow2(52 + s) * p <= m,
                    m == p * (m / p) + m % p,
                    m % p < p,
                    p > 0,
            ;
            assert(m / p < pow2(53 + s)) by (nonlinear_arith)
                requires
                    m < pow2(53 + s) * p,
                    m == p * (m / p) + m % p,
                    m % p >= 0,
                    p > 0,
            ;
        } else {
            lemma_quotient_bound(m, len, t);
        }
    }
}

/// The case in which no bit of `m` is dropped.
proof fn lemma_dyadic_exact(m: nat, e: int, len: nat, s: nat)
    requires
        len > 0,
        pow2((len - 1) as nat) <= m < pow2(len),
        s == (if len + e > 53 { len + e - 53 } else { 0 }),
        s <= e,
    ensures
        nearest_dyadic(m, e) == clamp_inf(s * HIDDEN + m * pow2((e - s) as nat)),
{
    lemma_dyadic_top(m, e, len, s);
    let num = m * pow2(e as nat);
    assert(num / 1 == num);
    lemma_nearest_at(num, 1, s);
    lemma_pow2_adds((e - s) as nat, s);
    lemma_pow2_pos(s);
    lemma_round_even_exact(m * pow2((e - s) as nat), pow2(s));
    assert(num == (m * pow2((e - s) as nat)) * pow2(s)) by (nonlinear_arith)
        requires
            num == m * pow2(e as nat),
            pow2(e as nat) == pow2((e - s) as nat) * pow2(s),
    ;
    assert(1 * pow2(s) == pow2(s));
}

/// The case in which `s - e` low bits of `m` are dropped.
proof fn lemma_dyadic_drop(m: nat, e: int, len: nat, s: nat)
    requires
        len > 0,
        pow2((len - 1) as nat) <= m < pow2(len),
        s == (if len + e > 53 { len + e - 53 } else { 0 }),
        s > e,
    ensures
        nearest_dyadic(m, e) == clamp_inf(s * HIDDEN + round_even(m, pow2((s - e) as nat))),
{
    lemma_dyadic_top(m, e, len, s);
    if e >= 0 {
        let num = m * pow2(e as nat);
        assert(num / 1 == num);
        lemma_nearest_at(num, 1, s);
        lemma_pow2_adds((s - e) as nat, e as nat);
        lemma_pow2_pos((s - e) as nat);
        lemma_pow2_pos(e as nat);
        lemma_round_even_scale(m, pow2((s - e) as nat), pow2(e as nat));
        assert(1 * pow2(s) == pow2(s));
    } else {
        let t = (-e) as nat;
        lemma_pow2_pos(t);
        lemma_nearest_at(m, pow2(t), s);
        lemma_pow2_adds(t, s);
        assert((s - e) as nat == t + s);
    }
}

/// `nearest` of the number `(n / d) * 2^e` units, for an exponent of either sign.
pub open spec fn nearest_scaled(n: nat, d: nat, e: int) -> nat {
    if e >= 0 {
        nearest(n * pow2(e as nat), d)
    } else {
        nearest(n, d * pow2((-e) as nat))
    }
}

/// `nearest_scaled` over one common power of two.
pub proof fn lemma_nearest_scaled_common(n: nat, d: nat, e: int, k: nat)
    requires
        d > 0,
        k + e >= 0,
    ensures
        d * pow2(k) > 0,
        nearest_scaled(n, d, e) == nearest(n * pow2((k + e) as nat), d * pow2(k)),
{
    lemma_pow2_pos(k);
    lemma_mul_strictly_positive(d as int, pow2(k) as int);
    if e >= 0 {
        lemma_pow2_adds(e as nat, k);
        lemma_nearest_scale(n * pow2(e as nat), d, pow2(k));
        assert((n * pow2(e as nat)) * pow2(k) == n * pow2((k + e) as nat)) by (nonlinear_arith)
            requires
                pow2((k + e) as nat) == pow2(e as nat) * pow2(k),
        ;
    } else {
        let t = (-e) as nat;
        let g = (k - t) as nat;
        lemma_pow2_adds(t, g);
        lemma_pow2_pos(t);
        lemma_pow2_pos(g);
        lemma_mul_strictly_positive(d as int, pow2(t) as int);
        lemma_nearest_scale(n, d * pow2(t), pow2(g));
        assert((d * pow2(t)) * pow2(g) == d * pow2(k)) by (nonlinear_arith)
            requires
                pow2(k) == pow2(t) * pow2(g),
        ;
    }
}

/// A power of two moves between the number and the exponent.
pub proof fn lemma_nearest_scaled_shift(n: nat, d: nat, e: int, t: nat)
    requires
        d > 0,
    ensures
        nearest_scaled(n * pow2(t), d, e - t) == nearest_scaled(n, d, e),
{
    let k: nat = if e >= 0 { t } else { (t - e) as nat };
    lemma_nearest_scaled_common(n * pow2(t), d, e - t, k);
    lemma_nearest_scaled_common(n, d, e, k);
    let g = (k + e - t) as nat;
    lemma_pow2_adds(t, g);
    assert((n * pow2(t)) * pow2(g) == n * pow2((k + e) as nat)) by (nonlinear_arith)
        requires
            pow2((k + e) as nat) == pow2(t) * pow2(g),
    ;
}

/// The pattern of the magnitude nearest to `(n / d) * 2^e` units.
pub fn round_ratio(n: u64, d: u64, e: i32) -> (k: u64)
    requires
        d > 0,
        -5000 <= e <= 5000,
    ensures
        k == nearest_scaled(n as nat, d as nat, e as int),
        k <= INF_BITS,
{
    if n == 0 {
        proof {
            lemma_nearest_scaled_zero(d as nat, e as int);
        }
        return 0;
    }
    let (len, _end) = bit_length(n as u128);
    proof {
        lemma2_to64();
        lemma2_to64_rest();
        lemma_pow2_127();
        lemma_pow2_monotone_converse((len - 1) as nat, 64);
    }
    assert(len <= 64);
    let t: u32 = 126 - len;
    let p: u128 = power_of_two(t);
    proof {
        lemma_pow2_adds(len as nat, t as nat);
        lemma_pow2_adds((len - 1) as nat, t as nat);
        lemma_pow2_pos(t as nat);
        lemma_mul_strict_inequality(n as int, pow2(len as nat) as int, p as int);
        lemma_mul_inequality(pow2((len - 1) as nat) as int, n as int, p as int);
        lemma_pow2_unfold(127);
        lemma_pow2_unfold(126);
    }
    let big: u128 = n as u128 * p;
    let q: u128 = big / d as u128;
    let r: u128 = big % d as u128;
    proof {
        lemma_nearest_scaled_shift(n as nat, d as nat, e as int, t as nat);
        lemma_fundamental_div_mod(big as int, d as int);
        // the quotient keeps more than 54 bits
        lemma_pow2_adds(61, 64);
        lemma_pow2_strictly_increases(54, 61);
        assert(q >= pow2(61)) by (nonlinear_arith)
            requires
                big >= pow2(61) * 0x1_0000_0000_0000_0000,
                big == d * q + r,
                0 <= r < d,
                d < 0x1_0000_0000_0000_0000,
        ;
        assert(q <= big) by (nonlinear_arith)
            requires
                big == d * q + r,
                r >= 0,
                d >= 1,
                q >= 0,
        ;
        assert(big == q * d + r) by (nonlinear_arith)
            requires
                big == d * q + r,
        ;
    }
    let f: i32 = e - t as i32;
    if r == 0 {
        proof {
            lemma_scaled_integral(q as nat, d as nat, f as int);
        }
        round_dyadic(q, f)
    } else {
        proof {
            lemma_nearest_sticky(q as nat, r as nat, d as nat, f as int);
        }
        round_dyadic(q * 2 + 1, f - 1)
    }
}

/// An integral quotient rounds as the integer does.
pub proof fn lemma_scaled_integral(q: nat, d: nat, e: int)
    requires
        d > 0,
    ensures
        nearest_scaled(q * d, d, e) == nearest_dyadic(q, e),
{
    if e >= 0 {
        let p = pow2(e as nat);
        lemma_nearest_scale(q * p, 1, d);
        assert((q * p) * d == (q * d) * p) by (nonlinear_arith);
        assert(1 * d == d);
    } else {
        let p = pow2((-e) as nat);
        lemma_pow2_pos((-e) as nat);
        lemma_nearest_scale(q, p, d);
        assert(p * d == d * p) by (nonlinear_arith);
    }
}

proof fn lemma_nearest_scaled_zero(d: nat, e: int)
    requires
        d > 0,
    ensures
        nearest_scaled(0, d, e) == 0,
{
    lemma_scaled_integral(0, d, e);
    assert(0 * d == 0);
    lemma_nearest_zero(e);
}

} // verus!
