//! A 256-bit unsigned integer built from four 64-bit limbs, little-endian.
//!
//! Targets and difficulty values are 256-bit quantities; every operation here
//! carries a contract relating the limb representation to its mathematical
//! value, so the retarget arithmetic can be verified end to end.
use vstd::prelude::*;
use vstd::arithmetic::power2::*;
use vstd::arithmetic::div_mod::*;
use vstd::arithmetic::mul::*;

verus! {

#[derive(Clone, Copy, PartialEq, Eq, Structural, Debug)]
pub struct U256 {
    pub w0: u64,
    pub w1: u64,
    pub w2: u64,
    pub w3: u64,
}

impl U256 {
    /// The mathematical value of the four limbs.
    pub open spec fn as_nat(self) -> nat {
        (self.w0 + self.w1 * 0x1_0000_0000_0000_0000
            + self.w2 * 0x1_0000_0000_0000_0000_0000_0000_0000_0000
            + self.w3 * 0x1_0000_0000_0000_0000_0000_0000_0000_0000_0000_0000_0000_0000) as nat
    }
}

/// pow2 written out for the limb boundaries.
pub proof fn lemma_pow2_limbs()
    ensures
        pow2(64) == 0x1_0000_0000_0000_0000,
        pow2(128) == 0x1_0000_0000_0000_0000_0000_0000_0000_0000,
        pow2(192) == 0x1_0000_0000_0000_0000_0000_0000_0000_0000_0000_0000_0000_0000,
        pow2(256) == 0x1_0000_0000_0000_0000_0000_0000_0000_0000_0000_0000_0000_0000_0000_0000_0000_0000,
{
    lemma2_to64();
    lemma_pow2_adds(32, 32);
    lemma_pow2_adds(64, 64);
    lemma_pow2_adds(128, 64);
    lemma_pow2_adds(128, 128);
    assert(0x1_0000_0000_0000_0000_0000_0000_0000_0000
        * 0x1_0000_0000_0000_0000_0000_0000_0000_0000
        == 0x1_0000_0000_0000_0000_0000_0000_0000_0000_0000_0000_0000_0000_0000_0000_0000_0000)
        by (nonlinear_arith);
}

pub proof fn lemma_val_bound(a: U256)
    ensures
        a.as_nat() < pow2(256),
{
    lemma_pow2_limbs();
}

impl U256 {
    pub fn zero() -> (r: U256)
        ensures
            r.as_nat() == 0,
    {
        U256 { w0: 0, w1: 0, w2: 0, w3: 0 }
    }

    pub fn from_u64(x: u64) -> (r: U256)
        ensures
            r.as_nat() == x,
    {
        U256 { w0: x, w1: 0, w2: 0, w3: 0 }
    }

    /// The low 64 bits of the value.
    pub fn low_u64(&self) -> (r: u64)
        ensures
            r == self.as_nat() % pow2(64),
    {
        proof {
            lemma_pow2_limbs();
            let p: int = 0x1_0000_0000_0000_0000;
            let rest: int = self.w1 + self.w2 * 0x1_0000_0000_0000_0000
                + self.w3 * 0x1_0000_0000_0000_0000_0000_0000_0000_0000;
            assert(self.as_nat() == self.w0 + rest * p) by (nonlinear_arith)
                requires
                    rest == self.w1 + self.w2 * 0x1_0000_0000_0000_0000
                        + self.w3 * 0x1_0000_0000_0000_0000_0000_0000_0000_0000,
                    p == 0x1_0000_0000_0000_0000,
                    self.as_nat() == self.w0 + self.w1 * 0x1_0000_0000_0000_0000
                        + self.w2 * 0x1_0000_0000_0000_0000_0000_0000_0000_0000
                        + self.w3 * 0x1_0000_0000_0000_0000_0000_0000_0000_0000_0000_0000_0000_0000,
            ;
            lemma_mod_multiples_vanish(rest, self.w0 as int, p);
            lemma_small_mod(self.w0 as nat, p as nat);
        }
        self.w0
    }

    /// Strict order on the values, decided limb by limb from the top.
    pub fn lt(&self, other: &U256) -> (r: bool)
        ensures
            r == (self.as_nat() < other.as_nat()),
    {
        if self.w3 != other.w3 {
            self.w3 < other.w3
        } else if self.w2 != other.w2 {
            self.w2 < other.w2
        } else if self.w1 != other.w1 {
            self.w1 < other.w1
        } else {
            self.w0 < other.w0
        }
    }

    pub fn ge(&self, other: &U256) -> (r: bool)
        ensures
            r == (self.as_nat() >= other.as_nat()),
    {
        !self.lt(other)
    }

    pub fn eq_val(&self, other: &U256) -> (r: bool)
        ensures
            r == (self.as_nat() == other.as_nat()),
    {
        self.w0 == other.w0 && self.w1 == other.w1 && self.w2 == other.w2 && self.w3 == other.w3
    }
}

/// One limb of a carrying addition: `a + b + c` split into a low limb and a carry.
fn add_limb(a: u64, b: u64, c: u64) -> (r: (u64, u64))
    requires
        c <= 1,
    ensures
        r.0 + r.1 * 0x1_0000_0000_0000_0000 == a + b + c,
        r.1 <= 1,
{
    let t: u128 = a as u128 + b as u128 + c as u128;
    let lo: u64 = (t % 0x1_0000_0000_0000_0000) as u64;
    let hi: u64 = (t / 0x1_0000_0000_0000_0000) as u64;
    proof {
        lemma_fundamental_div_mod(t as int, 0x1_0000_0000_0000_0000);
    }
    (lo, hi)
}

/// One limb of a borrowing subtraction.
fn sub_limb(a: u64, b: u64, brw: u64) -> (r: (u64, u64))
    requires
        brw <= 1,
    ensures
        a - b - brw == r.0 - r.1 * 0x1_0000_0000_0000_0000,
        r.1 <= 1,
{
    let t: u128 = 0x1_0000_0000_0000_0000u128 + a as u128 - b as u128 - brw as u128;
    let lo: u64 = (t % 0x1_0000_0000_0000_0000) as u64;
    let hi: u64 = (t / 0x1_0000_0000_0000_0000) as u64;
    proof {
        lemma_fundamental_div_mod(t as int, 0x1_0000_0000_0000_0000);
    }
    (lo, 1 - hi)
}

impl U256 {
    /// Addition modulo 2^256, with the carry out.
    pub fn add_with_carry(&self, other: &U256) -> (r: (U256, u64))
        ensures
            r.0.as_nat() + r.1 * pow2(256) == self.as_nat() + other.as_nat(),
            r.1 <= 1,
    {
        let (s0, c0) = add_limb(self.w0, other.w0, 0);
        let (s1, c1) = add_limb(self.w1, other.w1, c0);
        let (s2, c2) = add_limb(self.w2, other.w2, c1);
        let (s3, c3) = add_limb(self.w3, other.w3, c2);
        let r = U256 { w0: s0, w1: s1, w2: s2, w3: s3 };
        proof {
            lemma_pow2_limbs();
            assert(r.as_nat() + c3 * pow2(256) == self.as_nat() + other.as_nat())
                by (nonlinear_arith)
                requires
                    s0 + c0 * 0x1_0000_0000_0000_0000 == self.w0 + other.w0,
                    s1 + c1 * 0x1_0000_0000_0000_0000 == self.w1 + other.w1 + c0,
                    s2 + c2 * 0x1_0000_0000_0000_0000 == self.w2 + other.w2 + c1,
                    s3 + c3 * 0x1_0000_0000_0000_0000 == self.w3 + other.w3 + c2,
                    r.as_nat() == s0 + s1 * 0x1_0000_0000_0000_0000
                        + s2 * 0x1_0000_0000_0000_0000_0000_0000_0000_0000
                        + s3 * 0x1_0000_0000_0000_0000_0000_0000_0000_0000_0000_0000_0000_0000,
                    self.as_nat() == self.w0 + self.w1 * 0x1_0000_0000_0000_0000
                        + self.w2 * 0x1_0000_0000_0000_0000_0000_0000_0000_0000
                        + self.w3 * 0x1_0000_0000_0000_0000_0000_0000_0000_0000_0000_0000_0000_0000,
                    other.as_nat() == other.w0 + other.w1 * 0x1_0000_0000_0000_0000
                        + other.w2 * 0x1_0000_0000_0000_0000_0000_0000_0000_0000
                        + other.w3 * 0x1_0000_0000_0000_0000_0000_0000_0000_0000_0000_0000_0000_0000,
                    pow2(256) == 0x1_0000_0000_0000_0000_0000_0000_0000_0000_0000_0000_0000_0000_0000_0000_0000_0000,
            ;
        }
        (r, c3)
    }

    /// Subtraction modulo 2^256, with the borrow out; borrow is set exactly
    /// when the true difference is negative.
    pub fn sub_with_borrow(&self, other: &U256) -> (r: (U256, u64))
        ensures
            r.0.as_nat() - r.1 * pow2(256) == self.as_nat() - other.as_nat(),
            r.1 <= 1,
            (r.1 == 1) == (self.as_nat() < other.as_nat()),
    {
        let (s0, b0) = sub_limb(self.w0, other.w0, 0);
        let (s1, b1) = sub_limb(self.w1, other.w1, b0);
        let (s2, b2) = sub_limb(self.w2, other.w2, b1);
        let (s3, b3) = sub_limb(self.w3, other.w3, b2);
        let r = U256 { w0: s0, w1: s1, w2: s2, w3: s3 };
        proof {
            lemma_pow2_limbs();
            assert(r.as_nat() - b3 * pow2(256) == self.as_nat() - other.as_nat())
                by (nonlinear_arith)
                requires
                    self.w0 - other.w0 - 0 == s0 - b0 * 0x1_0000_0000_0000_0000,
                    self.w1 - other.w1 - b0 == s1 - b1 * 0x1_0000_0000_0000_0000,
                    self.w2 - other.w2 - b1 == s2 - b2 * 0x1_0000_0000_0000_0000,
                    self.w3 - other.w3 - b2 == s3 - b3 * 0x1_0000_0000_0000_0000,
                    r.as_nat() == s0 + s1 * 0x1_0000_0000_0000_0000
                        + s2 * 0x1_0000_0000_0000_0000_0000_0000_0000_0000
                        + s3 * 0x1_0000_0000_0000_0000_0000_0000_0000_0000_0000_0000_0000_0000,
                    self.as_nat() == self.w0 + self.w1 * 0x1_0000_0000_0000_0000
                        + self.w2 * 0x1_0000_0000_0000_0000_0000_0000_0000_0000
                        + self.w3 * 0x1_0000_0000_0000_0000_0000_0000_0000_0000_0000_0000_0000_0000,
                    other.as_nat() == other.w0 + other.w1 * 0x1_0000_0000_0000_0000
                        + other.w2 * 0x1_0000_0000_0000_0000_0000_0000_0000_0000
                        + other.w3 * 0x1_0000_0000_0000_0000_0000_0000_0000_0000_0000_0000_0000_0000,
                    pow2(256) == 0x1_0000_0000_0000_0000_0000_0000_0000_0000_0000_0000_0000_0000_0000_0000_0000_0000,
            ;
            lemma_val_bound(r);
        }
        (r, b3)
    }

    /// Exact subtraction.
    pub fn sub(&self, other: &U256) -> (r: U256)
        requires
            other.as_nat() <= self.as_nat(),
        ensures
            r.as_nat() == self.as_nat() - other.as_nat(),
    {
        let (r, b) = self.sub_with_borrow(other);
        proof {
            assert(b == 0);
            assert(b * pow2(256) == 0);
        }
        r
    }

    /// Doubling modulo 2^256; the carry out is the former top bit.
    pub fn shl1(&self) -> (r: (U256, u64))
        ensures
            r.0.as_nat() + r.1 * pow2(256) == 2 * self.as_nat(),
            r.1 <= 1,
    {
        self.add_with_carry(self)
    }

    /// Right shift by any amount: floor division by a power of two.
    pub fn shr(&self, k: u64) -> (r: U256)
        ensures
            r.as_nat() == self.as_nat() / pow2(k as nat),
    {
        let mut r: U256 = *self;
        let mut j: u64 = 0;
        proof {
            lemma2_to64();
            assert(self.as_nat() / pow2(0) == self.as_nat()) by {
                lemma_pow2(0);
            }
        }
        while j < k
            invariant
                j <= k,
                r.as_nat() == self.as_nat() / pow2(j as nat),
            decreases k - j,
        {
            let r2 = r.shr1();
            proof {
                lemma_pow2_adds(j as nat, 1);
                lemma2_to64();
                lemma_pow2_pos(j as nat);
                lemma_div_denominator(self.as_nat() as int, pow2(j as nat) as int, 2);
            }
            r = r2;
            j = j + 1;
        }
        r
    }

    /// Left shift by any amount, modulo 2^256.
    pub fn shl(&self, k: u64) -> (r: U256)
        ensures
            r.as_nat() == (self.as_nat() * pow2(k as nat)) % pow2(256),
    {
        let mut r: U256 = *self;
        let mut j: u64 = 0;
        proof {
            lemma_pow2_pos(256);
            lemma2_to64();
            lemma_pow2(0);
            lemma_val_bound(*self);
            lemma_small_mod(self.as_nat(), pow2(256));
            assert(self.as_nat() * pow2(0) == self.as_nat());
        }
        while j < k
            invariant
                j <= k,
                r.as_nat() == (self.as_nat() * pow2(j as nat)) % pow2(256),
            decreases k - j,
        {
            let (r2, c) = r.shl1();
            proof {
                lemma_pow2_pos(256);
                lemma_val_bound(r2);
                lemma_fundamental_div_mod_converse_mod(
                    2 * r.as_nat() as int,
                    pow2(256) as int,
                    c as int,
                    r2.as_nat() as int,
                );
                lemma_mul_mod_noop_right(2, (self.as_nat() * pow2(j as nat)) as int, pow2(256) as int);
                lemma_pow2_adds(j as nat, 1);
                lemma2_to64();
                assert(2 * (self.as_nat() * pow2(j as nat)) == self.as_nat() * pow2(
                    (j + 1) as nat,
                )) by (nonlinear_arith)
                    requires
                        pow2((j + 1) as nat) == pow2(j as nat) * 2,
                ;
            }
            r = r2;
            j = j + 1;
        }
        r
    }

    /// The bit at position `i`.
    pub fn bit(&self, i: u64) -> (r: bool)
        requires
            i < 256,
        ensures
            r == (self.as_nat() / pow2(i as nat) % 2 == 1),
    {
        let sh = self.shr(i);
        proof {
            let k: int = sh.w1 * 0x8000_0000_0000_0000
                + sh.w2 * 0x8000_0000_0000_0000_0000_0000_0000_0000
                + sh.w3 * 0x8000_0000_0000_0000_0000_0000_0000_0000_0000_0000_0000_0000;
            assert(sh.as_nat() == 2 * k + sh.w0);
            lemma_mod_multiples_vanish(k, sh.w0 as int, 2);
            lemma_small_mod((sh.w0 % 2) as nat, 2);
        }
        sh.w0 % 2 == 1
    }

    /// Halving: floor division by two.
    pub fn shr1(&self) -> (r: U256)
        ensures
            r.as_nat() == self.as_nat() / 2,
    {
        let r = U256 {
            w0: self.w0 / 2 + (self.w1 % 2) * 0x8000_0000_0000_0000,
            w1: self.w1 / 2 + (self.w2 % 2) * 0x8000_0000_0000_0000,
            w2: self.w2 / 2 + (self.w3 % 2) * 0x8000_0000_0000_0000,
            w3: self.w3 / 2,
        };
        proof {
            assert(2 * r.as_nat() + (self.w0 % 2) == self.as_nat()) by (nonlinear_arith)
                requires
                    r.w0 == self.w0 / 2 + (self.w1 % 2) * 0x8000_0000_0000_0000,
                    r.w1 == self.w1 / 2 + (self.w2 % 2) * 0x8000_0000_0000_0000,
                    r.w2 == self.w2 / 2 + (self.w3 % 2) * 0x8000_0000_0000_0000,
                    r.w3 == self.w3 / 2,
                    r.as_nat() == r.w0 + r.w1 * 0x1_0000_0000_0000_0000
                        + r.w2 * 0x1_0000_0000_0000_0000_0000_0000_0000_0000
                        + r.w3 * 0x1_0000_0000_0000_0000_0000_0000_0000_0000_0000_0000_0000_0000,
                    self.as_nat() == self.w0 + self.w1 * 0x1_0000_0000_0000_0000
                        + self.w2 * 0x1_0000_0000_0000_0000_0000_0000_0000_0000
                        + self.w3 * 0x1_0000_0000_0000_0000_0000_0000_0000_0000_0000_0000_0000_0000,
            ;
            lemma_fundamental_div_mod_converse(
                self.as_nat() as int,
                2,
                r.as_nat() as int,
                (self.w0 % 2) as int,
            );
        }
        r
    }
}

/// One limb of a multiply-accumulate: `a * m + c` split into a low limb and a carry.
fn mul_limb(a: u64, m: u64, c: u64) -> (r: (u64, u64))
    ensures
        r.0 + r.1 * 0x1_0000_0000_0000_0000 == a * m + c,
{
    proof {
        assert((a as int) * (m as int) + c < 0x1_0000_0000_0000_0000_0000_0000_0000_0000)
            by (nonlinear_arith)
            requires
                a <= 0xffff_ffff_ffff_ffff,
                m <= 0xffff_ffff_ffff_ffff,
                c <= 0xffff_ffff_ffff_ffff,
        ;
    }
    let t: u128 = a as u128 * m as u128 + c as u128;
    let lo: u64 = (t % 0x1_0000_0000_0000_0000) as u64;
    let hi: u64 = (t / 0x1_0000_0000_0000_0000) as u64;
    proof {
        lemma_fundamental_div_mod(t as int, 0x1_0000_0000_0000_0000);
        assert(t / 0x1_0000_0000_0000_0000 < 0x1_0000_0000_0000_0000) by (nonlinear_arith)
            requires
                t < 0x1_0000_0000_0000_0000_0000_0000_0000_0000,
        ;
    }
    (lo, hi)
}

impl U256 {
    /// Multiplication by a 32-bit factor, modulo 2^256. Targets under the
    /// network cap never overflow here, but the wrapping semantics are part
    /// of the retarget arithmetic and are stated as such.
    pub fn mul_u32(&self, m: u32) -> (r: U256)
        ensures
            r.as_nat() == (self.as_nat() * m as nat) % pow2(256),
    {
        let mm: u64 = m as u64;
        let (s0, c0) = mul_limb(self.w0, mm, 0);
        let (s1, c1) = mul_limb(self.w1, mm, c0);
        let (s2, c2) = mul_limb(self.w2, mm, c1);
        let (s3, c3) = mul_limb(self.w3, mm, c2);
        let r = U256 { w0: s0, w1: s1, w2: s2, w3: s3 };
        proof {
            lemma_pow2_limbs();
            assert(r.as_nat() + c3 * pow2(256) == self.as_nat() * mm) by (nonlinear_arith)
                requires
                    s0 + c0 * 0x1_0000_0000_0000_0000 == self.w0 * mm + 0,
                    s1 + c1 * 0x1_0000_0000_0000_0000 == self.w1 * mm + c0,
                    s2 + c2 * 0x1_0000_0000_0000_0000 == self.w2 * mm + c1,
                    s3 + c3 * 0x1_0000_0000_0000_0000 == self.w3 * mm + c2,
                    r.as_nat() == s0 + s1 * 0x1_0000_0000_0000_0000
                        + s2 * 0x1_0000_0000_0000_0000_0000_0000_0000_0000
                        + s3 * 0x1_0000_0000_0000_0000_0000_0000_0000_0000_0000_0000_0000_0000,
                    self.as_nat() == self.w0 + self.w1 * 0x1_0000_0000_0000_0000
                        + self.w2 * 0x1_0000_0000_0000_0000_0000_0000_0000_0000
                        + self.w3 * 0x1_0000_0000_0000_0000_0000_0000_0000_0000_0000_0000_0000_0000,
                    pow2(256) == 0x1_0000_0000_0000_0000_0000_0000_0000_0000_0000_0000_0000_0000_0000_0000_0000_0000,
            ;
            lemma_pow2_pos(256);
            lemma_val_bound(r);
            lemma_fundamental_div_mod_converse_mod(
                (self.as_nat() * mm) as int,
                pow2(256) as int,
                c3 as int,
                r.as_nat() as int,
            );
        }
        r
    }

    /// The number of significant bits: zero for zero, else the unique `L`
    /// with `pow2(L - 1) <= value < pow2(L)`.
    pub fn bit_length(&self) -> (r: u64)
        ensures
            self.as_nat() == 0 ==> r == 0,
            self.as_nat() > 0 ==> pow2((r - 1) as nat) <= self.as_nat() < pow2(r as nat),
            r <= 256,
    {
        proof {
            lemma_pow2_limbs();
        }
        if self.w3 != 0 {
            let c = limb_bits(self.w3);
            proof {
                lemma_limb_scale(self.w3, c, 192, self.as_nat(), (self.w0 + self.w1
                    * 0x1_0000_0000_0000_0000 + self.w2
                    * 0x1_0000_0000_0000_0000_0000_0000_0000_0000) as nat);
            }
            192 + c
        } else if self.w2 != 0 {
            let c = limb_bits(self.w2);
            proof {
                lemma_limb_scale(self.w2, c, 128, self.as_nat(), (self.w0 + self.w1
                    * 0x1_0000_0000_0000_0000) as nat);
            }
            128 + c
        } else if self.w1 != 0 {
            let c = limb_bits(self.w1);
            proof {
                lemma_limb_scale(self.w1, c, 64, self.as_nat(), self.w0 as nat);
            }
            64 + c
        } else {
            let c = limb_bits(self.w0);
            proof {
                lemma2_to64();
                if self.w0 != 0 {
                    assert(self.as_nat() == 0 + self.w0 * pow2(0)) by (nonlinear_arith)
                        requires
                            pow2(0) == 1,
                            self.as_nat() == self.w0,
                    ;
                    lemma_limb_scale(self.w0, c, 0, self.as_nat(), 0);
                }
            }
            c
        }
    }

    /// Long division: quotient and remainder.
    pub fn div_rem(&self, d: &U256) -> (r: (U256, U256))
        requires
            d.as_nat() > 0,
        ensures
            r.0.as_nat() == self.as_nat() / d.as_nat(),
            r.1.as_nat() == self.as_nat() % d.as_nat(),
    {
        let mut q = U256::zero();
        let mut rem = U256::zero();
        let mut i: u64 = 256;
        proof {
            lemma_val_bound(*self);
            lemma_basic_div(self.as_nat() as int, pow2(256) as int);
        }
        while i > 0
            invariant
                i <= 256,
                d.as_nat() > 0,
                q.as_nat() * d.as_nat() + rem.as_nat() == self.as_nat() / pow2(i as nat),
                rem.as_nat() < d.as_nat(),
                q.as_nat() <= self.as_nat() / pow2(i as nat),
            decreases i,
        {
            i = i - 1;
            let ghost x_prev: nat = self.as_nat() / pow2((i + 1) as nat);
            let ghost x: nat = self.as_nat() / pow2(i as nat);
            let ghost old_q: nat = q.as_nat();
            let ghost old_rem: nat = rem.as_nat();
            let b = self.bit(i);
            let ghost bitval: nat = if b {
                1
            } else {
                0
            };
            proof {
                lemma_pow2_adds(i as nat, 1);
                lemma2_to64();
                lemma_pow2_pos(i as nat);
                lemma_div_denominator(self.as_nat() as int, pow2(i as nat) as int, 2);
                lemma_fundamental_div_mod(x as int, 2);
                assert(x == 2 * x_prev + bitval);
            }
            // shift the working remainder and bring the next dividend bit in
            let (r2, c) = rem.shl1();
            let r3 = if b {
                proof {
                    let k: int = r2.w1 * 0x8000_0000_0000_0000 + r2.w2
                        * 0x8000_0000_0000_0000_0000_0000_0000_0000 + r2.w3
                        * 0x8000_0000_0000_0000_0000_0000_0000_0000_0000_0000_0000_0000;
                    assert(r2.as_nat() == 2 * k + r2.w0);
                    lemma_mod_multiples_vanish(k, r2.w0 as int, 2);
                    assert(r2.as_nat() % 2 == (2 * rem.as_nat() - c * pow2(256)) % 2);
                    lemma_pow2_limbs();
                    assert(r2.w0 % 2 == 0) by (nonlinear_arith)
                        requires
                            r2.as_nat() % 2 == r2.w0 % 2,
                            r2.as_nat() + c * pow2(256) == 2 * rem.as_nat(),
                            pow2(256) == 0x1_0000_0000_0000_0000_0000_0000_0000_0000_0000_0000_0000_0000_0000_0000_0000_0000,
                            c <= 1,
                    ;
                }
                U256 { w0: r2.w0 + 1, w1: r2.w1, w2: r2.w2, w3: r2.w3 }
            } else {
                r2
            };
            let ghost rt: nat = (2 * rem.as_nat() + bitval) as nat;
            proof {
                assert(r3.as_nat() + c * pow2(256) == rt);
                assert(rt < 2 * d.as_nat());
                lemma_val_bound(*d);
                lemma_val_bound(r3);
            }
            // the quotient gains one bit as well
            let (q2, qc) = q.shl1();
            proof {
                lemma_pow2_pos(i as nat);
                lemma_fundamental_div_mod(self.as_nat() as int, pow2(i as nat) as int);
                assert(x <= self.as_nat()) by (nonlinear_arith)
                    requires
                        self.as_nat() == pow2(i as nat) * x + self.as_nat() % pow2(i as nat),
                        pow2(i as nat) >= 1,
                        self.as_nat() % pow2(i as nat) >= 0,
                        x >= 0,
                ;
                lemma_val_bound(*self);
                if qc == 1 {
                    assert(2 * q.as_nat() >= pow2(256));
                    assert(old_q <= x_prev);
                    assert(x == 2 * x_prev + bitval);
                    assert(false);
                }
            }
            if c == 1 || r3.ge(d) {
                let (r4, brw) = r3.sub_with_borrow(d);
                proof {
                    // the true shifted remainder is rt; after subtracting d it
                    // lands below d and inside 256 bits
                    assert(rt >= d.as_nat());
                    assert(r4.as_nat() - brw * pow2(256) == r3.as_nat() - d.as_nat());
                    assert(rt - d.as_nat() < d.as_nat());
                    assert(r4.as_nat() + c * pow2(256) - brw * pow2(256) == rt - d.as_nat());
                    lemma_val_bound(r4);
                    assert(c * pow2(256) == if c == 1 {
                        pow2(256) as int
                    } else {
                        0
                    }) by (nonlinear_arith)
                        requires
                            c <= 1,
                    ;
                    assert(brw * pow2(256) == if brw == 1 {
                        pow2(256) as int
                    } else {
                        0
                    }) by (nonlinear_arith)
                        requires
                            brw <= 1,
                    ;
                    if c != brw {
                        lemma_pow2_pos(256);
                        assert(false);
                    }
                    assert(r4.as_nat() == rt - d.as_nat());
                }
                rem = r4;
                let ghost kq: int = q2.w1 * 0x8000_0000_0000_0000 + q2.w2
                    * 0x8000_0000_0000_0000_0000_0000_0000_0000 + q2.w3
                    * 0x8000_0000_0000_0000_0000_0000_0000_0000_0000_0000_0000_0000;
                proof {
                    assert(q2.as_nat() == 2 * kq + q2.w0);
                    lemma_mod_multiples_vanish(kq, q2.w0 as int, 2);
                    assert(q2.as_nat() % 2 == (2 * q.as_nat()) % 2);
                    lemma_mod_multiples_vanish(q.as_nat() as int, 0, 2);
                    assert(q2.w0 % 2 == 0);
                }
                q = U256 { w0: q2.w0 + 1, w1: q2.w1, w2: q2.w2, w3: q2.w3 };
                proof {
                    assert(q.as_nat() * d.as_nat() + rem.as_nat() == x) by (nonlinear_arith)
                        requires
                            q.as_nat() == 2 * old_q + 1,
                            rem.as_nat() == rt - d.as_nat(),
                            old_q * d.as_nat() + old_rem == x_prev,
                            rt == 2 * old_rem + bitval,
                            x == 2 * x_prev + bitval,
                    ;
                }
            } else {
                rem = r3;
                q = q2;
                proof {
                    assert(q.as_nat() * d.as_nat() + rem.as_nat() == x) by (nonlinear_arith)
                        requires
                            q.as_nat() == 2 * old_q,
                            rem.as_nat() == rt,
                            old_q * d.as_nat() + old_rem == x_prev,
                            rt == 2 * old_rem + bitval,
                            x == 2 * x_prev + bitval,
                    ;
                }
            }
            proof {
                assert(q.as_nat() <= x) by (nonlinear_arith)
                    requires
                        q.as_nat() * d.as_nat() + rem.as_nat() == x,
                        d.as_nat() >= 1,
                        rem.as_nat() >= 0,
                ;
            }
        }
        proof {
            lemma2_to64();
            assert(self.as_nat() / 1 == self.as_nat());
            lemma_fundamental_div_mod_converse(
                self.as_nat() as int,
                d.as_nat() as int,
                q.as_nat() as int,
                rem.as_nat() as int,
            );
        }
        (q, rem)
    }
}

/// Bit length of a single limb, by repeated halving.
fn limb_bits(x: u64) -> (r: u64)
    ensures
        x == 0 ==> r == 0,
        x > 0 ==> r >= 1 && pow2((r - 1) as nat) <= x < pow2(r as nat),
        r <= 64,
{
    let mut y: u64 = x;
    let mut c: u64 = 0;
    proof {
        lemma2_to64();
        assert(x as nat / 1 == x as nat);
    }
    while y > 0
        invariant
            c <= 64,
            y == x as nat / pow2(c as nat),
            c > 0 ==> x >= pow2((c - 1) as nat),
            x == 0 ==> c == 0,
        decreases y,
    {
        proof {
            lemma_pow2_pos(c as nat);
            lemma_fundamental_div_mod(x as int, pow2(c as nat) as int);
            assert(x >= pow2(c as nat)) by (nonlinear_arith)
                requires
                    x as nat == pow2(c as nat) * (x as nat / pow2(c as nat)) + x as nat % pow2(
                        c as nat,
                    ),
                    x as nat / pow2(c as nat) >= 1,
                    x as nat % pow2(c as nat) >= 0,
                    pow2(c as nat) > 0,
            ;
            if c == 64 {
                lemma2_to64();
                lemma2_to64_rest();
                lemma_basic_div(x as int, pow2(64) as int);
                assert(false);
            }
            lemma_pow2_adds(c as nat, 1);
            lemma2_to64();
            lemma_div_denominator(x as int, pow2(c as nat) as int, 2);
        }
        y = y / 2;
        c = c + 1;
    }
    proof {
        if x > 0 {
            lemma_pow2_pos(c as nat);
            lemma_fundamental_div_mod(x as int, pow2(c as nat) as int);
            lemma_mod_bound(x as int, pow2(c as nat) as int);
            assert(pow2(c as nat) * (x as nat / pow2(c as nat)) == 0) by (nonlinear_arith)
                requires
                    x as nat / pow2(c as nat) == 0,
            ;
            assert(x < pow2(c as nat));
            if c == 0 {
                lemma2_to64();
                assert(x as nat / 1 == x as nat);
                assert(false);
            }
        }
    }
    c
}

/// Lifts the bit length of the top nonzero limb to the whole value:
/// `total = low + limb * pow2(base)` with `low < pow2(base)`.
proof fn lemma_limb_scale(limb: u64, c: u64, base: nat, total: nat, low: nat)
    requires
        limb > 0,
        pow2((c - 1) as nat) <= limb < pow2(c as nat),
        c >= 1,
        c <= 64,
        total == low + limb * pow2(base),
        low < pow2(base),
    ensures
        pow2((base + c - 1) as nat) <= total < pow2((base + c) as nat),
        total > 0,
{
    lemma_pow2_pos(base);
    lemma_pow2_adds(base, (c - 1) as nat);
    lemma_pow2_adds(base, c as nat);
    assert(pow2(base) * pow2((c - 1) as nat) <= limb * pow2(base)) by (nonlinear_arith)
        requires
            pow2((c - 1) as nat) <= limb,
            pow2(base) > 0,
    ;
    assert(low + limb * pow2(base) < pow2(base) * pow2(c as nat)) by (nonlinear_arith)
        requires
            limb < pow2(c as nat),
            low < pow2(base),
            pow2(base) > 0,
    ;
    assert(pow2(base) * pow2((c - 1) as nat) == pow2((base + c - 1) as nat));
    lemma_pow2_pos((base + c - 1) as nat);
}

} // verus!
