//! Binary64 numbers, held by their bit patterns.
//!
//! A reading is a number of the IEEE 754 format with one sign bit, eleven exponent
//! bits and 52 fraction bits. The arithmetic here is that of the format, rounding to
//! the nearest number with ties to the even significand.

use vstd::arithmetic::div_mod::*;
use vstd::arithmetic::mul::*;
use vstd::arithmetic::power2::*;
use vstd::prelude::*;

use crate::rounding;
use crate::rounding::{power_of_two, round_dyadic, round_ratio, HIDDEN, INF_BITS};

verus! {

/// The sign bit.
pub const SIGN_BIT: u64 = 0x8000_0000_0000_0000;

/// The pattern of the one not-a-number that arithmetic here produces.
pub const NAN_BITS: u64 = 0x7ff8_0000_0000_0000;

/// A binary64 number.
#[derive(Clone, Copy, PartialEq, Eq, Structural, Debug)]
pub struct Binary64 {
    pub bits: u64,
}

impl Binary64 {
    /// The sign bit is set.
    pub open spec fn negative(self) -> bool {
        self.bits >= SIGN_BIT
    }

    /// The pattern without its sign bit.
    pub open spec fn abs_bits(self) -> nat {
        if self.bits >= SIGN_BIT {
            (self.bits - SIGN_BIT) as nat
        } else {
            self.bits as nat
        }
    }

    /// The pattern is that of a not-a-number.
    pub open spec fn nan(self) -> bool {
        self.abs_bits() > INF_BITS
    }

    /// The pattern is that of an infinity.
    pub open spec fn infinite(self) -> bool {
        self.abs_bits() == INF_BITS
    }

    /// The pattern is that of a finite number.
    pub open spec fn finite(self) -> bool {
        self.abs_bits() < INF_BITS
    }

    /// The magnitude of a finite number, in units of two to the power of minus 1074.
    pub open spec fn mag(self) -> nat {
        rounding::magnitude(self.abs_bits())
    }

    /// The value of a finite number, in units of two to the power of minus 1074.
    pub open spec fn units(self) -> int {
        if self.negative() {
            -(self.mag() as int)
        } else {
            self.mag() as int
        }
    }

    /// The position of the number on the line of all numbers, infinities included.
    /// Both zeros stand at zero.
    pub open spec fn place(self) -> int {
        if self.negative() {
            -(self.abs_bits() as int)
        } else {
            self.abs_bits() as int
        }
    }
}

/// The number with the given sign and unsigned pattern.
pub open spec fn signed(negative: bool, k: nat) -> Binary64 {
    Binary64 {
        bits: if negative {
            (k + SIGN_BIT) as u64
        } else {
            k as u64
        },
    }
}

/// The not-a-number that arithmetic gives.
pub open spec fn not_a_number() -> Binary64 {
    Binary64 { bits: NAN_BITS }
}

/// Positive zero.
pub open spec fn zero() -> Binary64 {
    signed(false, 0)
}

/// The finite number nearest to `x` units; a zero takes the sign given.
pub open spec fn nearest_units(x: int, zero_negative: bool) -> Binary64 {
    if x == 0 {
        signed(zero_negative, 0)
    } else if x < 0 {
        signed(true, rounding::nearest((-x) as nat, 1))
    } else {
        signed(false, rounding::nearest(x as nat, 1))
    }
}

/// The sum `a + b`.
pub open spec fn sum(a: Binary64, b: Binary64) -> Binary64 {
    if a.nan() || b.nan() {
        not_a_number()
    } else if a.infinite() {
        if b.infinite() && a.negative() != b.negative() {
            not_a_number()
        } else {
            a
        }
    } else if b.infinite() {
        b
    } else {
        nearest_units(a.units() + b.units(), a.negative() && b.negative())
    }
}

/// The number with the other sign.
pub open spec fn opposite(a: Binary64) -> Binary64 {
    signed(!a.negative(), a.abs_bits())
}

/// The difference `a - b`.
pub open spec fn difference(a: Binary64, b: Binary64) -> Binary64 {
    sum(a, opposite(b))
}

/// The product `a * b`.
pub open spec fn product(a: Binary64, b: Binary64) -> Binary64 {
    let negative = a.negative() != b.negative();
    if a.nan() || b.nan() {
        not_a_number()
    } else if a.infinite() || b.infinite() {
        if a.abs_bits() == 0 || b.abs_bits() == 0 {
            not_a_number()
        } else {
            signed(negative, INF_BITS as nat)
        }
    } else {
        signed(negative, rounding::nearest(a.mag() * b.mag(), pow2(1074)))
    }
}

/// The quotient `a / b`.
pub open spec fn quotient(a: Binary64, b: Binary64) -> Binary64 {
    let negative = a.negative() != b.negative();
    if a.nan() || b.nan() || (a.infinite() && b.infinite()) || (a.abs_bits() == 0 && b.abs_bits()
        == 0) {
        not_a_number()
    } else if a.infinite() || b.abs_bits() == 0 {
        signed(negative, INF_BITS as nat)
    } else if b.infinite() {
        signed(negative, 0)
    } else {
        signed(negative, rounding::nearest(a.mag() * pow2(1074), b.mag()))
    }
}

/// `a < b`; false where either is not a number.
pub open spec fn less(a: Binary64, b: Binary64) -> bool {
    !a.nan() && !b.nan() && a.place() < b.place()
}

/// `a <= b`; false where either is not a number.
pub open spec fn at_most(a: Binary64, b: Binary64) -> bool {
    !a.nan() && !b.nan() && a.place() <= b.place()
}

/// `a == b` as numbers: the two zeros are equal, and nothing equals a not-a-number.
pub open spec fn equal(a: Binary64, b: Binary64) -> bool {
    !a.nan() && !b.nan() && a.place() == b.place()
}

/// A finite number taken apart: its magnitude is `m * 2^e` units.
pub struct Parts {
    pub m: u64,
    pub e: u32,
}

impl Parts {
    pub open spec fn mag(self) -> nat {
        self.m as nat * pow2(self.e as nat)
    }

    pub open spec fn wf(self) -> bool {
        &&& self.m < rounding::SIGNIFICAND_END
        &&& self.e <= 2045
        &&& self.e > 0 ==> self.m >= HIDDEN
    }
}

pub(crate) fn parts(k: u64) -> (p: Parts)
    requires
        k < INF_BITS,
    ensures
        p.wf(),
        p.mag() == rounding::magnitude(k as nat),
        p.m == 0 <==> k == 0,
{
    proof {
        lemma2_to64();
    }
    if k < HIDDEN {
        assert(k as nat * pow2(0) == k as nat);
        Parts { m: k, e: 0 }
    } else {
        let s: u64 = k / HIDDEN - 1;
        assert(s * HIDDEN <= k) by (nonlinear_arith)
            requires
                s == k / HIDDEN - 1,
                k >= HIDDEN,
                HIDDEN == 0x10_0000_0000_0000,
        ;
        assert(k - s * HIDDEN < 2 * HIDDEN) by (nonlinear_arith)
            requires
                s == k / HIDDEN - 1,
                HIDDEN == 0x10_0000_0000_0000,
        ;
        assert(k - s * HIDDEN >= HIDDEN) by (nonlinear_arith)
            requires
                s == k / HIDDEN - 1,
                HIDDEN == 0x10_0000_0000_0000,
        ;
        let m: u64 = k - s * HIDDEN;
        Parts { m, e: s as u32 }
    }
}

pub(crate) fn signed_exec(negative: bool, k: u64) -> (r: Binary64)
    requires
        k <= INF_BITS,
    ensures
        r == signed(negative, k as nat),
{
    Binary64 { bits: if negative { k + SIGN_BIT } else { k } }
}

/// A significand times two to the power of `k`.
fn scaled(m: u64, k: u32) -> (r: u128)
    requires
        m < rounding::SIGNIFICAND_END,
        k <= 74,
    ensures
        r == m * pow2(k as nat),
        r + rounding::SIGNIFICAND_END <= 0x8000_0000_0000_0000_0000_0000_0000_0000,
{
    proof {
        lemma2_to64();
        lemma2_to64_rest();
        assert(m as nat * pow2(0) == m);
    }
    let mut r: u128 = m as u128;
    let mut i: u32 = 0;
    while i < k
        invariant
            i <= k <= 74,
            m < rounding::SIGNIFICAND_END,
            r == m * pow2(i as nat),
        decreases k - i,
    {
        proof {
            lemma_scaled_bound(m as nat, i as nat);
            lemma_pow2_unfold((i + 1) as nat);
            assert(m * (2 * pow2(i as nat)) == 2 * (m * pow2(i as nat))) by (nonlinear_arith);
        }
        r = r * 2;
        i = i + 1;
    }
    proof {
        lemma_scaled_bound(m as nat, k as nat);
    }
    r
}

proof fn lemma_scaled_bound(m: nat, k: nat)
    requires
        m < rounding::SIGNIFICAND_END,
        k <= 74,
    ensures
        m * pow2(k) + rounding::SIGNIFICAND_END <= 0x8000_0000_0000_0000_0000_0000_0000_0000,
{
    lemma2_to64();
    lemma2_to64_rest();
    lemma_pow2_adds(10, 64);
    if k < 74 {
        lemma_pow2_strictly_increases(k, 74);
    }
    assert(pow2(74) == 0x400_0000_0000_0000_0000);
    assert(m * pow2(k) <= 0x1f_ffff_ffff_ffffint * 0x400_0000_0000_0000_0000int) by (nonlinear_arith)
        requires
            m <= 0x1f_ffff_ffff_ffff,
            pow2(k) <= 0x400_0000_0000_0000_0000,
    ;
}

/// The nearest pattern of `a + b` units.
fn round_sum(a: &Parts, b: &Parts) -> (k: u64)
    requires
        a.wf(),
        b.wf(),
        a.e >= b.e,
    ensures
        k == rounding::nearest(a.mag() + b.mag(), 1),
        k <= INF_BITS,
{
    let d: u32 = a.e - b.e;
    if d <= 74 {
        let x: u128 = scaled(a.m, d);
        proof {
            lemma_align(*a, *b);
            assert((x + b.m) * pow2(b.e as nat) == x * pow2(b.e as nat) + b.m * pow2(b.e as nat))
                by (nonlinear_arith);
        }
        round_dyadic(x + b.m as u128, b.e as i32)
    } else if b.m == 0 {
        assert(0 * pow2(b.e as nat) == 0);
        round_dyadic(a.m as u128, a.e as i32)
    } else {
        proof {
            lemma_far_sum(*a, *b);
        }
        round_dyadic((a.m as u128 * 8) * 2 + 1, a.e as i32 - 4)
    }
}

/// Whether `a - b` is negative, and the nearest pattern of its magnitude.
fn round_diff(a: &Parts, b: &Parts) -> (r: (bool, u64))
    requires
        a.wf(),
        b.wf(),
        a.e >= b.e,
    ensures
        r.0 == (a.mag() < b.mag()),
        a.mag() >= b.mag() ==> r.1 == rounding::nearest((a.mag() - b.mag()) as nat, 1),
        a.mag() < b.mag() ==> r.1 == rounding::nearest((b.mag() - a.mag()) as nat, 1),
        r.1 <= INF_BITS,
        r.1 == 0 <==> a.mag() == b.mag(),
{
    let d: u32 = a.e - b.e;
    proof {
        lemma_pow2_pos(b.e as nat);
    }
    let r: (bool, u64) = if d <= 74 {
        let x: u128 = scaled(a.m, d);
        let y: u128 = b.m as u128;
        proof {
            let p = pow2(b.e as nat);
            lemma_align(*a, *b);
            assert((x - y) * p == x * p - y * p) by (nonlinear_arith);
            assert((y - x) * p == y * p - x * p) by (nonlinear_arith);
            assert(x < y ==> x * p < y * p) by (nonlinear_arith)
                requires
                    p > 0,
            ;
            assert(x >= y ==> x * p >= y * p) by (nonlinear_arith)
                requires
                    p > 0,
            ;
        }
        if x < y {
            (true, round_dyadic(y - x, b.e as i32))
        } else {
            (false, round_dyadic(x - y, b.e as i32))
        }
    } else if b.m == 0 {
        assert(0 * pow2(b.e as nat) == 0);
        (false, round_dyadic(a.m as u128, a.e as i32))
    } else {
        proof {
            lemma_far_diff(*a, *b);
        }
        (false, round_dyadic((a.m as u128 * 8 - 1) * 2 + 1, a.e as i32 - 4))
    };
    proof {
        if a.mag() >= b.mag() {
            lemma_nearest_is_zero((a.mag() - b.mag()) as nat);
        } else {
            lemma_nearest_is_zero((b.mag() - a.mag()) as nat);
        }
    }
    r
}

/// Only zero rounds to zero, among integral numbers of units.
pub proof fn lemma_nearest_is_zero(n: nat)
    ensures
        rounding::nearest(n, 1) == 0 <==> n == 0,
{
    lemma2_to64();
    assert(n / 1 == n);
    let s = rounding::excess_bits(n);
    if n < rounding::SIGNIFICAND_END {
        rounding::lemma_round_even_exact(n, 1);
        assert(1 * pow2(0) == 1);
        assert(n * 1 == n);
    } else {
        assert(s >= 1);
        assert(s * HIDDEN >= HIDDEN) by (nonlinear_arith)
            requires
                s >= 1,
        ;
    }
}

/// A common exponent for two magnitudes.
proof fn lemma_align(a: Parts, b: Parts)
    requires
        a.e >= b.e,
    ensures
        a.mag() == (a.m * pow2((a.e - b.e) as nat)) * pow2(b.e as nat),
{
    let d = (a.e - b.e) as nat;
    lemma_pow2_adds(d, b.e as nat);
    assert(a.m * pow2(a.e as nat) == (a.m * pow2(d)) * pow2(b.e as nat)) by (nonlinear_arith)
        requires
            pow2(a.e as nat) == pow2(d) * pow2(b.e as nat),
    ;
}

/// A magnitude far below another one is less than an eighth of its last place.
proof fn lemma_far(a: Parts, b: Parts)
    requires
        a.wf(),
        b.wf(),
        b.m > 0,
        a.e > b.e + 74,
    ensures
        a.mag() == (a.m * 8) * pow2((a.e - 3) as nat),
        0 < b.mag() < pow2((a.e - 3) as nat),
        a.m * 8 - 1 >= pow2(54),
{
    lemma2_to64();
    lemma2_to64_rest();
    let c = pow2((a.e - 3) as nat);
    lemma_pow2_adds(3, (a.e - 3) as nat);
    assert(a.m * pow2(a.e as nat) == (a.m * 8) * c) by (nonlinear_arith)
        requires
            pow2(a.e as nat) == 8 * c,
    ;
    lemma_pow2_pos(b.e as nat);
    lemma_mul_strictly_positive(b.m as int, pow2(b.e as nat) as int);
    lemma_pow2_adds(53, b.e as nat);
    lemma_mul_strict_inequality(b.m as int, pow2(53) as int, pow2(b.e as nat) as int);
    lemma_pow2_strictly_increases(53 + b.e as nat, (a.e - 3) as nat);
}

proof fn lemma_far_sum(a: Parts, b: Parts)
    requires
        a.wf(),
        b.wf(),
        b.m > 0,
        a.e > b.e + 74,
    ensures
        rounding::nearest(a.mag() + b.mag(), 1) == rounding::nearest_dyadic(
            ((a.m * 8) * 2 + 1) as nat,
            a.e - 4,
        ),
{
    lemma_far(a, b);
    let c = pow2((a.e - 3) as nat);
    let q = (a.m * 8) as nat;
    rounding::lemma_nearest_scale(a.mag() + b.mag(), 1, c);
    rounding::lemma_nearest_sticky(q, b.mag(), c, a.e - 3);
    assert(1 * c == c);
}

proof fn lemma_far_diff(a: Parts, b: Parts)
    requires
        a.wf(),
        b.wf(),
        b.m > 0,
        a.e > b.e + 74,
    ensures
        a.mag() > b.mag(),
        rounding::nearest((a.mag() - b.mag()) as nat, 1) == rounding::nearest_dyadic(
            ((a.m * 8 - 1) * 2 + 1) as nat,
            a.e - 4,
        ),
{
    lemma_far(a, b);
    let c = pow2((a.e - 3) as nat);
    let q = (a.m * 8 - 1) as nat;
    let r = (c - b.mag()) as nat;
    assert(a.mag() - b.mag() == q * c + r) by (nonlinear_arith)
        requires
            a.mag() == (a.m * 8) * c,
            q == a.m * 8 - 1,
            r == c - b.mag(),
    ;
    assert(q * c >= 0) by (nonlinear_arith)
        requires
            q >= 0,
            c >= 0,
    ;
    rounding::lemma_nearest_scale((a.mag() - b.mag()) as nat, 1, c);
    rounding::lemma_nearest_sticky(q, r, c, a.e - 3);
    assert(1 * c == c);
}

impl Binary64 {
    /// The number with the given pattern.
    pub fn from_bits(bits: u64) -> (r: Binary64)
        ensures
            r.bits == bits,
    {
        Binary64 { bits }
    }

    pub(crate) fn abs_pattern(self) -> (k: u64)
        ensures
            k == self.abs_bits(),
    {
        if self.bits >= SIGN_BIT {
            self.bits - SIGN_BIT
        } else {
            self.bits
        }
    }

    /// Whether this is a not-a-number.
    pub fn is_nan(self) -> (r: bool)
        ensures
            r == self.nan(),
    {
        self.abs_pattern() > INF_BITS
    }

    /// Whether this is a finite number.
    pub fn is_finite(self) -> (r: bool)
        ensures
            r == self.finite(),
    {
        self.abs_pattern() < INF_BITS
    }

    /// Whether this is an infinity.
    pub fn is_infinite(self) -> (r: bool)
        ensures
            r == self.infinite(),
    {
        self.abs_pattern() == INF_BITS
    }

    /// The sum, rounded to the nearest number.
    pub fn plus(self, other: Binary64) -> (r: Binary64)
        ensures
            r == sum(self, other),
    {
        let ka: u64 = self.abs_pattern();
        let kb: u64 = other.abs_pattern();
        let na: bool = self.bits >= SIGN_BIT;
        let nb: bool = other.bits >= SIGN_BIT;
        if ka > INF_BITS || kb > INF_BITS {
            return Binary64 { bits: NAN_BITS };
        }
        if ka == INF_BITS {
            if kb == INF_BITS && na != nb {
                return Binary64 { bits: NAN_BITS };
            }
            return self;
        }
        if kb == INF_BITS {
            return other;
        }
        let a: Parts = parts(ka);
        let b: Parts = parts(kb);
        if na == nb {
            let k: u64 = if a.e >= b.e {
                round_sum(&a, &b)
            } else {
                round_sum(&b, &a)
            };
            proof {
                lemma_nearest_is_zero(a.mag() + b.mag());
            }
            signed_exec(na, k)
        } else {
            let (flip, k) = if a.e >= b.e {
                round_diff(&a, &b)
            } else {
                let (g, k) = round_diff(&b, &a);
                (!g && k != 0, k)
            };
            if k == 0 {
                signed_exec(false, 0)
            } else {
                signed_exec(na != flip, k)
            }
        }
    }

    /// The difference, rounded to the nearest number.
    pub fn minus(self, other: Binary64) -> (r: Binary64)
        ensures
            r == difference(self, other),
    {
        self.plus(other.negated())
    }

    /// The number with the opposite sign.
    pub fn negated(self) -> (r: Binary64)
        ensures
            r == opposite(self),
    {
        let k: u64 = self.abs_pattern();
        Binary64 { bits: if self.bits >= SIGN_BIT { k } else { k + SIGN_BIT } }
    }

    /// `self < other`.
    pub fn lt(self, other: Binary64) -> (r: bool)
        ensures
            r == less(self, other),
    {
        let ka: u64 = self.abs_pattern();
        let kb: u64 = other.abs_pattern();
        if ka > INF_BITS || kb > INF_BITS {
            return false;
        }
        if self.bits >= SIGN_BIT {
            if other.bits >= SIGN_BIT {
                kb < ka
            } else {
                ka > 0 || kb > 0
            }
        } else if other.bits >= SIGN_BIT {
            false
        } else {
            ka < kb
        }
    }

    /// `self <= other`.
    pub fn le(self, other: Binary64) -> (r: bool)
        ensures
            r == at_most(self, other),
    {
        if self.is_nan() || other.is_nan() {
            false
        } else {
            !other.lt(self)
        }
    }

    /// `self == other`, as numbers.
    pub fn same(self, other: Binary64) -> (r: bool)
        ensures
            r == equal(self, other),
    {
        self.le(other) && other.le(self)
    }
}

/// The larger of two numbers; where one is not a number, the other one.
pub open spec fn larger(a: Binary64, b: Binary64) -> Binary64 {
    if a.nan() || less(a, b) {
        b
    } else {
        a
    }
}

/// The smaller of two numbers; where one is not a number, the other one.
pub open spec fn smaller(a: Binary64, b: Binary64) -> Binary64 {
    if a.nan() || less(b, a) {
        b
    } else {
        a
    }
}

/// The number moved into `[lo, hi]`.
pub open spec fn clamped(a: Binary64, lo: Binary64, hi: Binary64) -> Binary64 {
    if less(a, lo) {
        lo
    } else if less(hi, a) {
        hi
    } else {
        a
    }
}

/// The number nearest to the integer `n`.
pub open spec fn integer(n: nat) -> Binary64 {
    signed(false, rounding::nearest(n * pow2(1074), 1))
}

/// The integral part of a number that is not negative; zero for a negative number
/// and for a not-a-number.
pub open spec fn whole_part(a: Binary64) -> nat {
    if a.negative() || a.nan() {
        0
    } else {
        a.mag() / pow2(1074)
    }
}

/// The integral part as an unsigned number: zero below zero and for a not-a-number, the
/// largest where it does not fit.
pub open spec fn truncated(x: Binary64) -> u64 {
    if x.nan() || x.negative() {
        0
    } else if x.infinite() || whole_part(x) > u64::MAX {
        u64::MAX
    } else {
        whole_part(x) as u64
    }
}

/// The number of seconds in a span of `nanos` nanoseconds: the whole seconds plus
/// the rest over a thousand million.
pub open spec fn seconds(nanos: nat) -> Binary64 {
    sum(
        integer(nanos / 1_000_000_000),
        quotient(integer(nanos % 1_000_000_000), integer(1_000_000_000)),
    )
}

proof fn lemma_product_scaled(a: Parts, b: Parts)
    ensures
        rounding::nearest(a.mag() * b.mag(), pow2(1074)) == rounding::nearest_dyadic(
            (a.m * b.m) as nat,
            a.e + b.e - 1074,
        ),
{
    let m = (a.m * b.m) as nat;
    let t = (a.e + b.e) as nat;
    lemma_pow2_adds(a.e as nat, b.e as nat);
    assert(a.mag() * b.mag() == m * pow2(t)) by (nonlinear_arith)
        requires
            a.mag() == a.m * pow2(a.e as nat),
            b.mag() == b.m * pow2(b.e as nat),
            pow2(t) == pow2(a.e as nat) * pow2(b.e as nat),
            m == a.m * b.m,
    ;
    rounding::lemma_nearest_scaled_common(m, 1, t - 1074, 1074);
    assert(1 * pow2(1074) == pow2(1074));
    if t < 1074 {
        assert(1 * pow2((1074 - t) as nat) == pow2((1074 - t) as nat));
    }
}

proof fn lemma_quotient_scaled(a: Parts, b: Parts)
    requires
        b.m > 0,
    ensures
        rounding::nearest(a.mag() * pow2(1074), b.mag()) == rounding::nearest_scaled(
            a.m as nat,
            b.m as nat,
            a.e + 1074 - b.e,
        ),
{
    rounding::lemma_nearest_scaled_common(a.m as nat, b.m as nat, a.e + 1074 - b.e, b.e as nat);
    lemma_pow2_adds(a.e as nat, 1074);
    assert((a.m * pow2(a.e as nat)) * pow2(1074) == a.m * pow2(a.e as nat + 1074))
        by (nonlinear_arith)
        requires
            pow2(a.e as nat + 1074) == pow2(a.e as nat) * pow2(1074),
    ;
}

impl Binary64 {
    /// The product, rounded to the nearest number.
    pub fn times(self, other: Binary64) -> (r: Binary64)
        ensures
            r == product(self, other),
    {
        let ka: u64 = self.abs_pattern();
        let kb: u64 = other.abs_pattern();
        let negative: bool = (self.bits >= SIGN_BIT) != (other.bits >= SIGN_BIT);
        if ka > INF_BITS || kb > INF_BITS {
            return Binary64 { bits: NAN_BITS };
        }
        if ka == INF_BITS || kb == INF_BITS {
            if ka == 0 || kb == 0 {
                return Binary64 { bits: NAN_BITS };
            }
            return signed_exec(negative, INF_BITS);
        }
        let a: Parts = parts(ka);
        let b: Parts = parts(kb);
        proof {
            lemma_product_scaled(a, b);
            assert(a.m * b.m <= 0x1f_ffff_ffff_ffff * 0x1f_ffff_ffff_ffff) by (nonlinear_arith)
                requires
                    a.m <= 0x1f_ffff_ffff_ffff,
                    b.m <= 0x1f_ffff_ffff_ffff,
            ;
        }
        let m: u128 = a.m as u128 * b.m as u128;
        let k: u64 = round_dyadic(m, a.e as i32 + b.e as i32 - 1074);
        signed_exec(negative, k)
    }

    /// The quotient, rounded to the nearest number.
    pub fn over(self, other: Binary64) -> (r: Binary64)
        ensures
            r == quotient(self, other),
    {
        let ka: u64 = self.abs_pattern();
        let kb: u64 = other.abs_pattern();
        let negative: bool = (self.bits >= SIGN_BIT) != (other.bits >= SIGN_BIT);
        if ka > INF_BITS || kb > INF_BITS || (ka == INF_BITS && kb == INF_BITS) || (ka == 0 && kb
            == 0) {
            return Binary64 { bits: NAN_BITS };
        }
        if ka == INF_BITS || kb == 0 {
            return signed_exec(negative, INF_BITS);
        }
        if kb == INF_BITS {
            return signed_exec(negative, 0);
        }
        let a: Parts = parts(ka);
        let b: Parts = parts(kb);
        proof {
            lemma_quotient_scaled(a, b);
        }
        let k: u64 = round_ratio(a.m, b.m, a.e as i32 + 1074 - b.e as i32);
        signed_exec(negative, k)
    }

    /// The larger number.
    pub fn max(self, other: Binary64) -> (r: Binary64)
        ensures
            r == larger(self, other),
    {
        if self.is_nan() || self.lt(other) {
            other
        } else {
            self
        }
    }

    /// The smaller number.
    pub fn min(self, other: Binary64) -> (r: Binary64)
        ensures
            r == smaller(self, other),
    {
        if self.is_nan() || other.lt(self) {
            other
        } else {
            self
        }
    }

    /// The number moved into `[lo, hi]`.
    pub fn clamp(self, lo: Binary64, hi: Binary64) -> (r: Binary64)
        requires
            at_most(lo, hi),
        ensures
            r == clamped(self, lo, hi),
    {
        if self.lt(lo) {
            lo
        } else if hi.lt(self) {
            hi
        } else {
            self
        }
    }

    /// The number nearest to `n`.
    pub fn from_u64(n: u64) -> (r: Binary64)
        ensures
            r == integer(n as nat),
    {
        signed_exec(false, round_dyadic(n as u128, 1074))
    }

    /// The seconds in `nanos` nanoseconds.
    pub fn from_nanos(nanos: u64) -> (r: Binary64)
        ensures
            r == seconds(nanos as nat),
    {
        let whole: Binary64 = Binary64::from_u64(nanos / 1_000_000_000);
        let rest: Binary64 = Binary64::from_u64(nanos % 1_000_000_000);
        whole.plus(rest.over(Binary64::from_u64(1_000_000_000)))
    }

    /// The integral part, zero below zero, capped at the largest `u64`.
    pub fn to_u64(self) -> (r: u64)
        ensures
            r == truncated(self),
    {
        let k: u64 = self.abs_pattern();
        if self.bits >= SIGN_BIT || k > INF_BITS {
            return 0;
        }
        if k == INF_BITS {
            return u64::MAX;
        }
        let a: Parts = parts(k);
        if a.e >= 1074 {
            proof {
                lemma_whole_up(a);
            }
            let up: u32 = a.e - 1074;
            if up >= 64 {
                proof {
                    lemma2_to64();
                    if up > 64 {
                        lemma_pow2_strictly_increases(64, up as nat);
                    }
                    assert(a.m * pow2(up as nat) > u64::MAX) by (nonlinear_arith)
                        requires
                            a.m >= 1,
                            pow2(up as nat) > u64::MAX,
                    ;
                }
                return u64::MAX;
            }
            let w: u128 = scaled(a.m, up);
            if w > u64::MAX as u128 {
                u64::MAX
            } else {
                w as u64
            }
        } else {
            proof {
                lemma_whole_down(a);
            }
            let down: u32 = 1074 - a.e;
            if down >= 64 {
                proof {
                    lemma2_to64();
                    if down > 64 {
                        lemma_pow2_strictly_increases(64, down as nat);
                    }
                    lemma_fundamental_div_mod_converse(
                        a.m as int,
                        pow2(down as nat) as int,
                        0,
                        a.m as int,
                    );
                }
                return 0;
            }
            let p: u128 = rounding::power_of_two(down);
            proof {
                lemma_pow2_pos(down as nat);
                assert(a.m as nat / pow2(down as nat) <= a.m) by (nonlinear_arith)
                    requires
                        pow2(down as nat) >= 1,
                        a.m >= 0,
                ;
            }
            (a.m as u128 / p) as u64
        }
    }
}

proof fn lemma_whole_up(a: Parts)
    requires
        a.e >= 1074,
    ensures
        a.mag() / pow2(1074) == a.m * pow2((a.e - 1074) as nat),
{
    let up = (a.e - 1074) as nat;
    lemma_pow2_adds(up, 1074);
    lemma_pow2_pos(1074);
    assert(a.mag() == (a.m * pow2(up)) * pow2(1074)) by (nonlinear_arith)
        requires
            a.mag() == a.m * pow2(a.e as nat),
            pow2(a.e as nat) == pow2(up) * pow2(1074),
    ;
    lemma_fundamental_div_mod_converse(
        a.mag() as int,
        pow2(1074) as int,
        (a.m * pow2(up)) as int,
        0,
    );
}

proof fn lemma_whole_down(a: Parts)
    requires
        a.e < 1074,
    ensures
        a.mag() / pow2(1074) == a.m as nat / pow2((1074 - a.e) as nat),
{
    let down = (1074 - a.e) as nat;
    lemma_pow2_adds(down, a.e as nat);
    lemma_pow2_pos(down);
    lemma_pow2_pos(a.e as nat);
    let p = pow2(a.e as nat);
    let q = (a.m as nat / pow2(down)) as int;
    let r = (a.m as nat % pow2(down)) as int;
    lemma_fundamental_div_mod(a.m as int, pow2(down) as int);
    assert(a.mag() == q * pow2(1074) + r * p) by (nonlinear_arith)
        requires
            a.mag() == a.m * p,
            a.m == pow2(down) * q + r,
            pow2(1074) == pow2(down) * p,
    ;
    assert(0 <= r * p < pow2(1074)) by (nonlinear_arith)
        requires
            0 <= r < pow2(down),
            p > 0,
            pow2(1074) == pow2(down) * p,
    ;
    lemma_fundamental_div_mod_converse(a.mag() as int, pow2(1074) as int, q, r * p);
}

/// The nanoseconds in a number of seconds, rounded to the nearest, ties to even.
pub open spec fn nanoseconds(x: Binary64) -> nat {
    rounding::round_even(x.mag() * 1_000_000_000, pow2(1074))
}

proof fn lemma_nanoseconds(a: Parts)
    requires
        a.wf(),
        a.mag() / pow2(1074) < 0x2_0000_0000,
    ensures
        a.e < 1074,
        rounding::round_even(a.mag() * 1_000_000_000, pow2(1074)) == rounding::round_even(
            (a.m * 1_000_000_000) as nat,
            pow2((1074 - a.e) as nat),
        ),
        a.m * 1_000_000_000 < 0x2_0000_0000 * 1_000_000_000 * pow2((1074 - a.e) as nat),
{
    lemma2_to64();
    lemma2_to64_rest();
    let p = pow2(1074);
    lemma_pow2_pos(1074);
    if a.e >= 1074 {
        let up = (a.e - 1074) as nat;
        lemma_pow2_adds(up, 1074);
        lemma_pow2_pos(up);
        let k = a.m * pow2(up);
        assert(a.mag() == k * p) by (nonlinear_arith)
            requires
                a.mag() == a.m * pow2(a.e as nat),
                pow2(a.e as nat) == pow2(up) * p,
                k == a.m * pow2(up),
        ;
        lemma_div_multiples_vanish(k as int, p as int);
        assert(p * k == k * p) by (nonlinear_arith);
        assert(k >= HIDDEN) by (nonlinear_arith)
            requires
                k == a.m * pow2(up),
                a.m >= HIDDEN,
                pow2(up) >= 1,
        ;
    }
    let e = pow2(a.e as nat);
    let d = (1074 - a.e) as nat;
    lemma_pow2_pos(a.e as nat);
    lemma_pow2_pos(d);
    lemma_pow2_adds(d, a.e as nat);
    let n = (a.m * 1_000_000_000) as nat;
    assert(a.mag() * 1_000_000_000 == n * e) by (nonlinear_arith)
        requires
            a.mag() == a.m * e,
            n == a.m * 1_000_000_000,
    ;
    rounding::lemma_round_even_scale(n, pow2(d), e);
    lemma_fundamental_div_mod(a.mag() as int, p as int);
    let w = a.mag() / p;
    assert((w + 1) * p == p * w + p) by (nonlinear_arith);
    let c = pow2(d);
    assert(a.m < 0x2_0000_0000 * c) by (nonlinear_arith)
        requires
            a.m * e < (w + 1) * p,
            w + 1 <= 0x2_0000_0000,
            p == c * e,
            e > 0,
            c > 0,
    ;
    assert(a.m * 1_000_000_000 < 0x2_0000_0000 * 1_000_000_000 * c) by (nonlinear_arith)
        requires
            a.m < 0x2_0000_0000 * c,
    ;
}

impl Binary64 {
    /// The nanoseconds in this number of seconds.
    pub fn to_nanos(self) -> (r: u64)
        requires
            self.finite(),
            !self.negative(),
            whole_part(self) < 0x2_0000_0000,
        ensures
            r == nanoseconds(self),
    {
        let a: Parts = parts(self.abs_pattern());
        proof {
            lemma_nanoseconds(a);
        }
        let n: u128 = a.m as u128 * 1_000_000_000;
        let drop: u32 = 1074 - a.e;
        proof {
            lemma_pow2_pos(drop as nat);
        }
        if drop >= 127 {
            proof {
                rounding::lemma_pow2_127();
                if drop > 127 {
                    lemma_pow2_strictly_increases(127, drop as nat);
                }
                lemma_fundamental_div_mod_converse(n as int, pow2(drop as nat) as int, 0, n as int);
            }
            return 0;
        }
        let p: u128 = power_of_two(drop);
        let q: u128 = n / p;
        let r: u128 = n % p;
        proof {
            lemma_fundamental_div_mod(n as int, p as int);
            assert(q < 0x2_0000_0000 * 1_000_000_000) by (nonlinear_arith)
                requires
                    n < 0x2_0000_0000 * 1_000_000_000 * p,
                    n == p * q + r,
                    r >= 0,
                    p > 0,
            ;
        }
        if r > p - r || (r == p - r && q % 2 == 1) {
            q as u64 + 1
        } else {
            q as u64
        }
    }
}

/// The least integer that is not below the number.
pub open spec fn ceiling(x: Binary64) -> Binary64 {
    let whole = x.mag() / pow2(1074);
    if !x.finite() || x.mag() % pow2(1074) == 0 {
        x
    } else if x.negative() {
        opposite(integer(whole))
    } else {
        integer(whole + 1)
    }
}

impl Binary64 {
    /// The least integer that is not below the number.
    pub fn ceil(self) -> (r: Binary64)
        ensures
            r == ceiling(self),
    {
        let k: u64 = self.abs_pattern();
        if k >= INF_BITS {
            return self;
        }
        let a: Parts = parts(k);
        proof {
            lemma_whole_split(a);
        }
        if a.e >= 1074 {
            return self;
        }
        let drop: u32 = 1074 - a.e;
        let whole: u64;
        let rest: bool;
        if drop >= 64 {
            whole = 0;
            rest = a.m > 0;
            proof {
                lemma2_to64();
                lemma_pow2_pos(drop as nat);
                if drop > 64 {
                    lemma_pow2_strictly_increases(64, drop as nat);
                }
                lemma_fundamental_div_mod_converse(
                    a.m as int,
                    pow2(drop as nat) as int,
                    0,
                    a.m as int,
                );
            }
        } else {
            let p: u128 = power_of_two(drop);
            assert(a.m as u128 / p <= a.m) by (nonlinear_arith)
                requires
                    p >= 1,
            ;
            whole = (a.m as u128 / p) as u64;
            rest = a.m as u128 % p > 0;
        }
        if !rest {
            self
        } else if self.bits >= SIGN_BIT {
            Binary64::from_u64(whole).negated()
        } else {
            Binary64::from_u64(whole + 1)
        }
    }
}

/// The integral part of a number taken apart, and whether anything is left.
proof fn lemma_whole_split(a: Parts)
    requires
        a.wf(),
    ensures
        a.e >= 1074 ==> a.mag() % pow2(1074) == 0,
        a.e < 1074 ==> a.mag() / pow2(1074) == a.m as nat / pow2((1074 - a.e) as nat) && (a.mag()
            % pow2(1074) == 0 <==> a.m as nat % pow2((1074 - a.e) as nat) == 0) && pow2(
            (1074 - a.e) as nat,
        ) > 0 && a.m as nat / pow2((1074 - a.e) as nat) <= a.m,
{
    let p = pow2(1074);
    lemma_pow2_pos(1074);
    if a.e >= 1074 {
        let up = (a.e - 1074) as nat;
        lemma_pow2_adds(up, 1074);
        let k = a.m * pow2(up);
        assert(a.mag() == k * p) by (nonlinear_arith)
            requires
                a.mag() == a.m * pow2(a.e as nat),
                pow2(a.e as nat) == pow2(up) * p,
                k == a.m * pow2(up),
        ;
        lemma_mod_multiples_basic(k as int, p as int);
    } else {
        let d = (1074 - a.e) as nat;
        let c = pow2(d);
        let e = pow2(a.e as nat);
        lemma_pow2_pos(d);
        lemma_pow2_pos(a.e as nat);
        lemma_pow2_adds(d, a.e as nat);
        let q = a.m as nat / c;
        let r = a.m as nat % c;
        lemma_fundamental_div_mod(a.m as int, c as int);
        assert(a.mag() == p * q + r * e) by (nonlinear_arith)
            requires
                a.mag() == a.m * e,
                a.m == c * q + r,
                p == c * e,
        ;
        assert(r * e < p) by (nonlinear_arith)
            requires
                r < c,
                p == c * e,
                e > 0,
        ;
        assert(r * e >= 0) by (nonlinear_arith)
            requires
                r >= 0,
                e > 0,
        ;
        assert(p * q == q * p) by (nonlinear_arith);
        lemma_fundamental_div_mod_converse(a.mag() as int, p as int, q as int, (r * e) as int);
        assert(r * e == 0 <==> r == 0) by (nonlinear_arith)
            requires
                e > 0,
        ;
        assert(q <= a.m) by (nonlinear_arith)
            requires
                a.m == c * q + r,
                c >= 1,
                r >= 0,
                q >= 0,
        ;
    }
}

/// One is not below zero.
pub proof fn lemma_one()
    ensures
        at_most(zero(), integer(1)),
{
}

} // verus!
