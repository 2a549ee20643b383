//! Natural numbers of any size, as vectors of 32-bit limbs, lowest first.

use vstd::arithmetic::div_mod::*;
use vstd::arithmetic::mul::*;
use vstd::arithmetic::power2::*;
use vstd::prelude::*;

verus! {

/// The number that a sequence of limbs stands for.
pub open spec fn limbs_value(s: Seq<u32>) -> nat
    decreases s.len(),
{
    if s.len() == 0 {
        0
    } else {
        limbs_value(s.drop_last()) + s.last() as nat * pow2(32 * (s.len() - 1) as nat)
    }
}

pub struct Natural {
    limbs: Vec<u32>,
}

impl Natural {
    pub closed spec fn value(&self) -> nat {
        limbs_value(self.limbs@)
    }

    /// No leading zero limb.
    pub closed spec fn wf(&self) -> bool {
        self.limbs@.len() > 0 ==> self.limbs@.last() != 0
    }

    pub fn zero() -> (r: Natural)
        ensures
            r.wf(),
            r.value() == 0,
    {
        Natural { limbs: Vec::new() }
    }

    /// Replaces the number `n` by `n * m + a`.
    pub fn mul_add(&mut self, m: u32, a: u32)
        requires
            old(self).wf(),
            m > 0,
        ensures
            final(self).wf(),
            final(self).value() == old(self).value() * m + a,
    {
        let ghost start = self.limbs@;
        let n: usize = self.limbs.len();
        let mut carry: u64 = a as u64;
        let mut i: usize = 0;
        proof {
            lemma2_to64();
            assert(start.take(0) =~= Seq::empty());
            assert(limbs_value(start.take(0)) == 0);
            assert(limbs_value(start.take(0)) * m == 0) by (nonlinear_arith)
                requires
                    limbs_value(start.take(0)) == 0,
            ;
            assert(self.limbs@.take(0) =~= Seq::empty());
            assert(32 * (i as nat) == 0);
            assert(carry * pow2(0) == carry) by (nonlinear_arith)
                requires
                    pow2(0) == 1,
            ;
        }
        while i < n
            invariant
                i <= n,
                n == start.len(),
                self.limbs@.len() == n,
                carry < 0x1_0000_0000,
                m > 0,
                forall|j: int| i <= j < n ==> self.limbs@[j] == start[j],
                limbs_value(self.limbs@.take(i as int)) + carry * pow2(32 * (i as nat))
                    == limbs_value(start.take(i as int)) * m + a,
                i > 0 && start[i - 1] != 0 ==> carry > 0 || self.limbs@[i - 1] != 0,
            decreases n - i,
        {
            let ghost before = self.limbs@;
            let x: u32 = self.limbs[i];
            assert(x * m <= 0xffff_ffff * 0xffff_ffff) by (nonlinear_arith)
                requires
                    x <= 0xffff_ffff,
                    m <= 0xffff_ffff,
            ;
            let t: u64 = x as u64 * m as u64 + carry;
            let low: u32 = (t % 0x1_0000_0000) as u32;
            let high: u64 = t / 0x1_0000_0000;
            assert(high < 0x1_0000_0000);
            self.limbs.set(i, low);
            proof {
                let p = pow2(32 * (i as nat));
                lemma2_to64();
                lemma_pow2_adds(32 * (i as nat), 32);
                assert(32 * ((i + 1) as nat) == 32 * (i as nat) + 32);
                assert(self.limbs@.take(i + 1).drop_last() =~= before.take(i as int));
                assert(start.take(i + 1).drop_last() =~= start.take(i as int));
                let lv = limbs_value(before.take(i as int));
                let sv = limbs_value(start.take(i as int));
                assert(limbs_value(self.limbs@.take(i + 1)) == lv + low * p);
                assert(limbs_value(start.take(i + 1)) == sv + x * p);
                assert((sv + x * p) * m == sv * m + (x * m) * p) by (nonlinear_arith);
                assert(high * (0x1_0000_0000 * p) + low * p == t * p) by (nonlinear_arith)
                    requires
                        t == 0x1_0000_0000 * high + low,
                ;
                assert(pow2(32 * ((i + 1) as nat)) == 0x1_0000_0000 * p);
                assert(t * p == (x * m) * p + carry * p) by (nonlinear_arith)
                    requires
                        t == x * m + carry,
                ;
                if x != 0 {
                    assert(t > 0) by (nonlinear_arith)
                        requires
                            t == x * m + carry,
                            x > 0,
                            m > 0,
                            carry >= 0,
                    ;
                }
            }
            carry = high;
            i += 1;
        }
        assert(self.limbs@.take(n as int) =~= self.limbs@);
        assert(start.take(n as int) =~= start);
        if carry != 0 {
            let ghost before = self.limbs@;
            self.limbs.push(carry as u32);
            assert(self.limbs@.drop_last() =~= before);
        } else {
            assert(0 * pow2(32 * (n as nat)) == 0);
        }
    }

    /// Replaces the number by its quotient by `d`, and gives the remainder.
    pub fn div_rem(&mut self, d: u32) -> (r: u32)
        requires
            old(self).wf(),
            d > 0,
        ensures
            final(self).wf(),
            old(self).value() == final(self).value() * d + r,
            r < d,
    {
        let ghost start = self.limbs@;
        let n: usize = self.limbs.len();
        let mut rem: u64 = 0;
        let mut i: usize = n;
        proof {
            lemma2_to64();
            assert(start.skip(n as int) =~= Seq::empty());
        }
        assert(limbs_value(start) == limbs_value(start.take(n as int)) + shifted(
            start.skip(n as int),
            n as nat,
        )) by {
            assert(start.take(n as int) =~= start);
        }
        while i > 0
            invariant
                i <= n,
                n == start.len(),
                self.limbs@.len() == n,
                d > 0,
                rem < d,
                forall|j: int| 0 <= j < i ==> self.limbs@[j] == start[j],
                limbs_value(start) == limbs_value(start.take(i as int)) + rem * pow2(32 * (i as nat))
                    + shifted(self.limbs@.skip(i as int), i as nat) * d,
            decreases i,
        {
            let ghost before = self.limbs@;
            i -= 1;
            let x: u32 = self.limbs[i];
            let t: u64 = rem * 0x1_0000_0000 + x as u64;
            let q: u64 = t / d as u64;
            assert(q < 0x1_0000_0000) by (nonlinear_arith)
                requires
                    t < d * 0x1_0000_0000,
                    q == t / (d as u64),
                    d > 0,
            ;
            let old_rem: u64 = rem;
            rem = t % d as u64;
            self.limbs.set(i, q as u32);
            proof {
                let p = pow2(32 * (i as nat));
                lemma2_to64();
                lemma_pow2_adds(32 * (i as nat), 32);
                assert(32 * ((i + 1) as nat) == 32 * (i as nat) + 32);
                assert(start.take(i + 1).drop_last() =~= start.take(i as int));
                assert(limbs_value(start.take(i + 1)) == limbs_value(start.take(i as int)) + x * p);
                let hi = shifted(before.skip(i + 1), (i + 1) as nat);
                assert(before.skip(i + 1) =~= self.limbs@.skip(i as int).drop_first());
                lemma_shifted_step(self.limbs@.skip(i as int), i as nat);
                assert(shifted(self.limbs@.skip(i as int), i as nat) == q * p + hi);
                lemma_fundamental_div_mod(t as int, d as int);
                assert(x * p + old_rem * (0x1_0000_0000 * p) == rem * p + (q * p) * d)
                    by (nonlinear_arith)
                    requires
                        old_rem * 0x1_0000_0000 + x == d * q + rem,
                ;
                assert((q * p + hi) * d == (q * p) * d + hi * d) by (nonlinear_arith);
            }
        }
        proof {
            assert(start.take(0) =~= Seq::empty());
            assert(self.limbs@.skip(0) =~= self.limbs@);
            lemma_shifted_zero(self.limbs@);
            assert(rem * pow2(0) == rem);
        }
        let ghost quot = limbs_value(self.limbs@);
        while self.limbs.len() > 0 && self.limbs[self.limbs.len() - 1] == 0
            invariant
                limbs_value(self.limbs@) == quot,
            decreases self.limbs@.len(),
        {
            let ghost before = self.limbs@;
            assert(0 * pow2(32 * (before.len() - 1) as nat) == 0);
            self.limbs.pop();
            assert(self.limbs@ =~= before.drop_last());
        }
        rem as u32
    }

    /// How many limbs the number has.
    pub fn limb_count(&self) -> (n: usize)
        requires
            self.wf(),
        ensures
            n > 0 ==> self.value() >= pow2((32 * (n - 1)) as nat),
            self.value() < pow2(32 * (n as nat)),
    {
        proof {
            lemma_limbs_bound(self.limbs@);
            if self.limbs@.len() > 0 {
                let p = pow2(32 * (self.limbs@.len() - 1) as nat);
                assert(self.limbs@.last() * p >= p) by (nonlinear_arith)
                    requires
                        self.limbs@.last() >= 1,
                ;
            }
        }
        self.limbs.len()
    }

    /// Divides by two to the power of 32, and tells whether anything was lost.
    pub fn drop_limb(&mut self) -> (low: u32)
        requires
            old(self).wf(),
            old(self).value() > 0,
        ensures
            final(self).wf(),
            old(self).value() == final(self).value() * 0x1_0000_0000 + low,
    {
        let ghost start = self.limbs@;
        assert(start.len() > 0);
        let low: u32 = self.limbs.remove(0);
        proof {
            assert(self.limbs@ =~= start.drop_first());
            lemma_shifted_zero(start);
            lemma_shifted_step(start, 0);
            lemma_shifted_one(self.limbs@);
            lemma2_to64();
            assert(low * pow2(0) == low);
            if self.limbs@.len() > 0 {
                assert(self.limbs@.last() == start.last());
            }
        }
        low
    }

    /// Multiplies by two to the power of 32.
    pub fn add_limb(&mut self)
        requires
            old(self).wf(),
            old(self).value() > 0,
        ensures
            final(self).wf(),
            final(self).value() == old(self).value() * 0x1_0000_0000,
    {
        let ghost start = self.limbs@;
        self.limbs.insert(0, 0);
        proof {
            assert(self.limbs@.drop_first() =~= start);
            lemma_shifted_zero(self.limbs@);
            lemma_shifted_step(self.limbs@, 0);
            lemma_shifted_one(start);
            lemma2_to64();
            assert(0 * pow2(0) == 0);
            assert(start.len() > 0);
            assert(self.limbs@.last() == start.last());
        }
    }

    /// The number, where it has at most three limbs.
    pub fn to_u128(&self) -> (r: u128)
        requires
            self.wf(),
            self.value() < pow2(96),
        ensures
            r == self.value(),
    {
        proof {
            lemma2_to64();
            lemma_pow2_adds(32, 64);
            if self.limbs@.len() > 3 {
                let p = pow2(32 * (self.limbs@.len() - 1) as nat);
                assert(self.limbs@.last() * p >= p) by (nonlinear_arith)
                    requires
                        self.limbs@.last() >= 1,
                ;
                if 32 * (self.limbs@.len() - 1) > 96 {
                    lemma_pow2_strictly_increases(96, 32 * (self.limbs@.len() - 1) as nat);
                }
            }
        }
        let mut r: u128 = 0;
        let mut i: usize = self.limbs.len();
        assert(self.limbs@.skip(i as int) =~= Seq::empty());
        while i > 0
            invariant
                i <= self.limbs@.len() <= 3,
                r == shifted(self.limbs@.skip(i as int), 0),
                i == 3 ==> r == 0,
                i == 2 ==> r < 0x1_0000_0000,
                i == 1 ==> r < 0x1_0000_0000_0000_0000,
                i == 0 ==> r < 0x1_0000_0000_0000_0000_0000_0000,
            decreases i,
        {
            i -= 1;
            proof {
                let s = self.limbs@.skip(i as int);
                lemma_shifted_step(s, 0);
                assert(s.drop_first() =~= self.limbs@.skip(i + 1));
                lemma_shifted_zero(s.drop_first());
                lemma_shifted_one(s.drop_first());
                lemma2_to64();
                assert(s[0] * pow2(32 * 0) == s[0]) by (nonlinear_arith)
                    requires
                        pow2(32 * 0) == 1,
                ;
            }
            r = r * 0x1_0000_0000 + self.limbs[i] as u128;
        }
        proof {
            assert(self.limbs@.skip(0) =~= self.limbs@);
            lemma_shifted_zero(self.limbs@);
        }
        r
    }
}

/// The value of limbs that start at position `at`, lowest first.
spec fn shifted(s: Seq<u32>, at: nat) -> nat
    decreases s.len(),
{
    if s.len() == 0 {
        0
    } else {
        shifted(s.drop_last(), at) + s.last() as nat * pow2(32 * (at + s.len() - 1) as nat)
    }
}

proof fn lemma_shifted_zero(s: Seq<u32>)
    ensures
        shifted(s, 0) == limbs_value(s),
    decreases s.len(),
{
    if s.len() > 0 {
        lemma_shifted_zero(s.drop_last());
    }
}

proof fn lemma_shifted_one(s: Seq<u32>)
    ensures
        shifted(s, 1) == limbs_value(s) * 0x1_0000_0000,
    decreases s.len(),
{
    if s.len() > 0 {
        lemma_shifted_one(s.drop_last());
        let p = pow2(32 * (s.len() - 1) as nat);
        lemma2_to64();
        lemma_pow2_adds(32 * (s.len() - 1) as nat, 32);
        assert(32 * (1 + s.len() - 1) as nat == 32 * (s.len() - 1) as nat + 32);
        assert((limbs_value(s.drop_last()) + s.last() * p) * 0x1_0000_0000 == limbs_value(
            s.drop_last(),
        ) * 0x1_0000_0000 + s.last() * (p * 0x1_0000_0000)) by (nonlinear_arith);
    }
}

proof fn lemma_shifted_step(s: Seq<u32>, at: nat)
    requires
        s.len() > 0,
    ensures
        shifted(s, at) == s[0] as nat * pow2(32 * at) + shifted(s.drop_first(), at + 1),
    decreases s.len(),
{
    if s.len() == 1 {
        assert(s.drop_last() =~= Seq::empty());
        assert(s.drop_first() =~= Seq::empty());
        assert(shifted(s.drop_last(), at) == 0);
        assert(shifted(s.drop_first(), at + 1) == 0);
        assert(s.last() == s[0]);
        assert((at + s.len() - 1) as nat == at);
    } else {
        let d = s.drop_last();
        lemma_shifted_step(d, at);
        assert(d.drop_first() =~= s.drop_first().drop_last());
        assert(s.drop_first().last() == s.last());
        assert(((at + 1) + s.drop_first().len() - 1) as nat == (at + s.len() - 1) as nat);
        assert(d[0] == s[0]);
    }
}

proof fn lemma_limbs_bound(s: Seq<u32>)
    ensures
        limbs_value(s) < pow2(32 * s.len()),
    decreases s.len(),
{
    lemma2_to64();
    if s.len() > 0 {
        lemma_limbs_bound(s.drop_last());
        let p = pow2(32 * (s.len() - 1) as nat);
        lemma_pow2_adds(32 * (s.len() - 1) as nat, 32);
        assert(32 * s.len() == 32 * (s.len() - 1) as nat + 32);
        assert(p + s.last() * p <= 0x1_0000_0000 * p) by (nonlinear_arith)
            requires
                s.last() <= 0xffff_ffff,
        ;
    }
}

} // verus!
