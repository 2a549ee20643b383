//! Numbers written with a fixed count of digits after the point.

use vstd::arithmetic::div_mod::*;
use vstd::arithmetic::mul::*;
use vstd::arithmetic::power2::*;
use vstd::prelude::*;
use vstd::string::*;

use crate::binary64::{parts, Binary64, Parts, SIGN_BIT};
use crate::decimal;
use crate::natural::Natural;
use crate::rounding;
use crate::rounding::power_of_two;

verus! {

/// The character of a digit.
pub open spec fn digit_char(d: nat) -> char {
    (d + '0' as nat) as char
}

/// The decimal digits of a natural number.
pub open spec fn digits_text(n: nat) -> Seq<char>
    decreases n,
{
    if n < 10 {
        seq![digit_char(n)]
    } else {
        digits_text(n / 10).push(digit_char(n % 10))
    }
}

/// The last `k` decimal digits of a natural number.
pub open spec fn padded_text(n: nat, k: nat) -> Seq<char>
    decreases k,
{
    if k == 0 {
        Seq::empty()
    } else {
        padded_text(n / 10, (k - 1) as nat).push(digit_char(n % 10))
    }
}

/// `n` over `10^prec`, written with `prec` digits after the point.
pub open spec fn point_text(n: nat, prec: nat) -> Seq<char> {
    if prec == 0 {
        digits_text(n)
    } else {
        digits_text(n / decimal::pow10(prec)).push('.') + padded_text(n, prec)
    }
}

/// A number rounded to `prec` digits after the point, ties going to the even digit.
pub open spec fn fixed_text(x: Binary64, prec: nat) -> Seq<char> {
    if x.nan() {
        "NaN"@
    } else {
        let sign = if x.negative() {
            seq!['-']
        } else {
            Seq::empty()
        };
        sign + (if x.infinite() {
            "inf"@
        } else {
            point_text(rounding::round_even(x.mag() * decimal::pow10(prec), pow2(1074)), prec)
        })
    }
}

fn digit_of(d: u64) -> (c: char)
    requires
        d < 10,
    ensures
        c == digit_char(d as nat),
{
    (d as u8 + 48) as char
}

/// Appends the decimal digits of `n`.
pub fn append_decimal(out: &mut String, n: u64)
    ensures
        final(out)@ == old(out)@ + digits_text(n as nat),
    decreases n,
{
    if n >= 10 {
        append_decimal(out, n / 10);
    }
    let ghost before = out@;
    out.push(digit_of(n % 10));
    proof {
        if n < 10 {
            assert(old(out)@.push(digit_char(n as nat)) =~= old(out)@ + digits_text(n as nat));
        } else {
            assert(before.push(digit_char((n % 10) as nat)) =~= old(out)@ + digits_text(n as nat));
        }
    }
}

/// Appends the last `k` decimal digits of `n`.
pub fn append_padded(out: &mut String, n: u64, k: u32)
    ensures
        final(out)@ == old(out)@ + padded_text(n as nat, k as nat),
    decreases k,
{
    if k == 0 {
        assert(old(out)@ + Seq::<char>::empty() =~= old(out)@);
    } else {
        append_padded(out, n / 10, k - 1);
        let ghost before = out@;
        out.push(digit_of(n % 10));
        assert(before.push(digit_char((n % 10) as nat)) =~= old(out)@ + padded_text(
            n as nat,
            k as nat,
        ));
    }
}

/// Appends the decimal digits of a number of any size.
fn append_natural(out: &mut String, n: Natural)
    requires
        n.wf(),
        n.value() > 0,
    ensures
        final(out)@ == old(out)@ + digits_text(n.value()),
{
    let ghost start = n.value();
    let mut n: Natural = n;
    let mut low: Vec<char> = Vec::new();
    let mut count: usize = n.limb_count();
    proof {
        lemma2_to64();
    }
    assert(Seq::<char>::empty() =~= low@.reverse());
    assert(digits_text(start) =~= digits_text(start) + low@.reverse());
    while count > 0
        invariant
            n.wf(),
            count > 0 ==> n.value() > 0,
            count == 0 ==> n.value() == 0,
            n.value() > 0 ==> digits_text(start) == digits_text(n.value()) + low@.reverse(),
            n.value() == 0 ==> digits_text(start) == low@.reverse(),
        decreases n.value(),
    {
        let ghost q = n.value();
        let d: u32 = n.div_rem(10);
        let ghost before = low@;
        low.push(digit_of(d as u64));
        count = n.limb_count();
        proof {
            lemma2_to64();
            if count > 0 {
                lemma_pow2_pos((32 * (count - 1)) as nat);
            }
            assert(low@.reverse() =~= seq![digit_char(d as nat)] + before.reverse());
            assert(q / 10 == n.value() && q % 10 == d);
            if n.value() > 0 {
                assert(digits_text(q) == digits_text(n.value()).push(digit_char(d as nat)));
                assert(digits_text(q) + before.reverse() =~= digits_text(n.value())
                    + low@.reverse());
            } else {
                assert(digits_text(q) =~= seq![digit_char(d as nat)]);
            }
        }
    }
    let mut i: usize = low.len();
    let ghost base = out@;
    assert(low@.reverse().take(0) =~= Seq::empty());
    assert(base + Seq::<char>::empty() =~= base);
    while i > 0
        invariant
            i <= low@.len(),
            out@ == base + low@.reverse().take(low@.len() - i),
        decreases i,
    {
        i -= 1;
        let ghost before = out@;
        out.push(low[i]);
        proof {
            let r = low@.reverse();
            assert(r[low@.len() - 1 - i] == low@[i as int]);
            assert(r.take(low@.len() - i) =~= r.take(low@.len() - i - 1).push(low@[i as int]));
            assert(out@ =~= base + r.take(low@.len() - i));
        }
    }
    assert(low@.reverse().take(low@.len() as int) =~= low@.reverse());
}

/// A finite number of fewer than 2^1074 units per digit: `m * 10^prec / 2^drop` rounded.
fn rounded_quotient(num: u64, drop: u32) -> (n: u64)
    requires
        num < 0x1000_0000_0000_0000,
        drop <= 1074,
    ensures
        n == rounding::round_even(num as nat, pow2(drop as nat)),
        n < 0x2000_0000_0000_0000,
{
    proof {
        lemma2_to64();
        lemma_pow2_pos(drop as nat);
    }
    if drop >= 64 {
        proof {
            if drop > 64 {
                lemma_pow2_strictly_increases(64, drop as nat);
            }
            lemma_fundamental_div_mod_converse(num as int, pow2(drop as nat) as int, 0, num as int);
        }
        return 0;
    }
    let p: u128 = power_of_two(drop);
    let q: u128 = num as u128 / p;
    let r: u128 = num as u128 % p;
    assert(q <= num) by (nonlinear_arith)
        requires
            q == num as u128 / p,
            p >= 1,
    ;
    if r > p - r || (r == p - r && q % 2 == 1) {
        q as u64 + 1
    } else {
        q as u64
    }
}

/// Appends a number with `prec` digits after the point.
pub fn append_fixed(out: &mut String, x: Binary64, prec: u32)
    requires
        prec <= 2,
    ensures
        final(out)@ == old(out)@ + fixed_text(x, prec as nat),
{
    if x.is_nan() {
        out.append("NaN");
        return;
    }
    let ghost sign = if x.negative() {
        seq!['-']
    } else {
        Seq::<char>::empty()
    };
    if x.bits >= SIGN_BIT {
        out.push('-');
        assert(out@ =~= old(out)@ + sign);
    } else {
        assert(out@ =~= old(out)@ + sign);
    }
    let ghost base = out@;
    if x.is_infinite() {
        out.append("inf");
        assert(out@ =~= old(out)@ + (sign + "inf"@));
        return;
    }
    let scale: u64 = if prec == 0 {
        1
    } else if prec == 1 {
        10
    } else {
        100
    };
    proof {
        decimal::lemma_pow10_zero();
        decimal::lemma_pow10_unfold(1);
        decimal::lemma_pow10_unfold(2);
    }
    assert(scale == decimal::pow10(prec as nat));
    let k: u64 = x.abs_pattern();
    let a: Parts = parts(k);
    let ghost n = rounding::round_even(x.mag() * decimal::pow10(prec as nat), pow2(1074));
    if a.e <= 1074 {
        proof {
            lemma_fixed_down(a, scale as nat);
        }
        let w: u64 = rounded_quotient(a.m * scale, 1074 - a.e);
        append_decimal(out, w / scale);
        let ghost mid = out@;
        if prec > 0 {
            out.push('.');
            append_padded(out, w, prec);
            assert(out@ =~= base + point_text(n, prec as nat));
        } else {
            assert(w / scale == w);
            assert(out@ =~= base + point_text(n, 0));
        }
    } else {
        let up: u32 = a.e - 1074;
        let mut big: Natural = Natural::zero();
        big.mul_add(1, (a.m / 0x1_0000_0000) as u32);
        big.mul_add(0x1_0000, 0);
        big.mul_add(0x1_0000, 0);
        big.mul_add(1, (a.m % 0x1_0000_0000) as u32);
        assert(big.value() == a.m);
        let mut i: u32 = 0;
        proof {
            lemma2_to64();
            assert(a.m * pow2(0) == a.m);
        }
        while i < up
            invariant
                i <= up,
                big.wf(),
                big.value() == a.m * pow2(i as nat),
            decreases up - i,
        {
            big.mul_add(2, 0);
            proof {
                lemma_pow2_unfold((i + 1) as nat);
                assert((a.m * pow2(i as nat)) * 2 == a.m * (2 * pow2(i as nat)))
                    by (nonlinear_arith);
            }
            i += 1;
        }
        proof {
            lemma_fixed_up(a, scale as nat);
            lemma_pow2_pos(up as nat);
            lemma_mul_strictly_positive(a.m as int, pow2(up as nat) as int);
        }
        let ghost v = big.value();
        append_natural(out, big);
        proof {
            lemma_fundamental_div_mod_converse((v * scale) as int, scale as int, v as int, 0);
        }
        if prec > 0 {
            out.push('.');
            append_padded(out, 0, prec);
            proof {
                lemma_padded_multiple(v, prec as nat);
                assert(out@ =~= base + point_text(n, prec as nat));
            }
        } else {
            assert(v * 1 == v);
            assert(out@ =~= base + point_text(n, 0));
        }
    }
    assert(out@ =~= old(out)@ + (sign + point_text(n, prec as nat)));
}

proof fn lemma_fixed_down(a: Parts, scale: nat)
    requires
        a.e <= 1074,
    ensures
        rounding::round_even(a.mag() * scale, pow2(1074)) == rounding::round_even(
            a.m as nat * scale,
            pow2((1074 - a.e) as nat),
        ),
{
    let down = (1074 - a.e) as nat;
    lemma_pow2_adds(down, a.e as nat);
    lemma_pow2_pos(down);
    lemma_pow2_pos(a.e as nat);
    rounding::lemma_round_even_scale(a.m as nat * scale, pow2(down), pow2(a.e as nat));
    assert((a.m * scale) * pow2(a.e as nat) == (a.m * pow2(a.e as nat)) * scale)
        by (nonlinear_arith);
}

proof fn lemma_fixed_up(a: Parts, scale: nat)
    requires
        a.e > 1074,
    ensures
        rounding::round_even(a.mag() * scale, pow2(1074)) == (a.m as nat * pow2(
            (a.e - 1074) as nat,
        )) * scale,
{
    let up = (a.e - 1074) as nat;
    lemma_pow2_adds(up, 1074);
    lemma_pow2_pos(1074);
    let w = (a.m as nat * pow2(up)) * scale;
    rounding::lemma_round_even_exact(w, pow2(1074));
    assert((a.m * pow2(a.e as nat)) * scale == w * pow2(1074)) by (nonlinear_arith)
        requires
            pow2(a.e as nat) == pow2(up) * pow2(1074),
            w == (a.m as nat * pow2(up)) * scale,
    ;
}

/// The last `k` digits of a multiple of `10^k` are zeros.
proof fn lemma_padded_multiple(v: nat, k: nat)
    ensures
        padded_text(v * decimal::pow10(k), k) == padded_text(0, k),
    decreases k,
{
    if k > 0 {
        decimal::lemma_pow10_unfold(k);
        let p = decimal::pow10((k - 1) as nat);
        assert(v * (10 * p) == (v * p) * 10 + 0) by (nonlinear_arith);
        lemma_fundamental_div_mod_converse((v * (10 * p)) as int, 10, (v * p) as int, 0);
        lemma_padded_multiple(v, (k - 1) as nat);
    }
}

/// A number with `prec` digits after the point.
pub fn fixed(x: Binary64, prec: u32) -> (s: String)
    requires
        prec <= 2,
    ensures
        s@ == fixed_text(x, prec as nat),
{
    let mut s: String = String::new();
    append_fixed(&mut s, x, prec);
    assert(Seq::<char>::empty() + fixed_text(x, prec as nat) =~= fixed_text(x, prec as nat));
    s
}

} // verus!
