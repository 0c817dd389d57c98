//! The lossy precision rounding of the compact ("bits") target encoding, and
//! the decoding of a compact field into a full 256-bit target.
//!
//! The rounding reproduces, bit for bit, what serialising a target into the
//! compact header field and reading it back does to the value, including the
//! historical quirk around bit 23; consensus depends on the exact behaviour.
use vstd::prelude::*;
use vstd::arithmetic::power2::*;
use vstd::arithmetic::div_mod::*;
use crate::u256::U256;
use crate::u256::lemma_val_bound;

verus! {

/// The number of significant bits of `n`.
pub open spec fn bit_len(n: nat) -> nat
    decreases n,
{
    if n == 0 {
        0
    } else {
        1 + bit_len(n / 2)
    }
}

pub proof fn lemma_bit_len_bounds(n: nat)
    requires
        n > 0,
    ensures
        bit_len(n) >= 1,
        pow2((bit_len(n) - 1) as nat) <= n < pow2(bit_len(n)),
    decreases n,
{
    lemma2_to64();
    if n / 2 == 0 {
        assert(n == 1);
        assert(bit_len(0nat) == 0);
        assert(bit_len(1nat) == 1);
    } else {
        lemma_bit_len_bounds(n / 2);
        let l: nat = bit_len(n / 2);
        lemma_pow2_adds((l - 1) as nat, 1);
        lemma_pow2_adds(l, 1);
        lemma_fundamental_div_mod(n as int, 2);
        assert(n >= 2 * pow2((l - 1) as nat));
        assert(n < 2 * pow2(l));
    }
}

pub proof fn lemma_bit_len_unique(n: nat, l: nat)
    requires
        n > 0,
        l >= 1,
        pow2((l - 1) as nat) <= n < pow2(l),
    ensures
        bit_len(n) == l,
{
    lemma_bit_len_bounds(n);
    let b: nat = bit_len(n);
    if b < l {
        lemma_pow2_subtracts(b, (l - 1) as nat);
        assert(pow2(b) <= pow2((l - 1) as nat)) by {
            if b < l - 1 {
                lemma_pow2_strictly_increases(b, (l - 1) as nat);
            }
        }
        assert(false);
    }
    if b > l {
        assert(pow2(l) <= pow2((b - 1) as nat)) by {
            if l < b - 1 {
                lemma_pow2_strictly_increases(l, (b - 1) as nat);
            }
        }
        assert(false);
    }
}

/// How far a value of `l` significant bits is shifted down before the
/// mantissa is taken: whole bytes, three bytes kept.
pub open spec fn round_shift(l: nat) -> nat {
    (8 * ((l + 7) / 8 - 3)) as nat
}

/// The two-step lossy rounding of a target: shift down to the mantissa,
/// zero the low byte when bit 23 is set, shift back.
pub open spec fn compact_round(n: nat) -> nat {
    let s = round_shift(bit_len(n));
    let r = n / pow2(s);
    let r2 = if r / pow2(23) % 2 == 1 {
        (r / 256) * 256
    } else {
        r
    };
    r2 * pow2(s)
}

impl U256 {
    /// Drops a target to the precision that survives the compact encoding.
    ///
    /// Values of sixteen bits or fewer are excluded by `requires`, and the
    /// restriction is deliberate: for them the shift formula itself goes
    /// negative, so no rounded value is defined for them, and every real
    /// target (a capped retarget seeded from a nonzero compact mantissa)
    /// lies far above the floor.
    pub fn compact_precision_round(&self) -> (r: U256)
        requires
            self.as_nat() >= 0x10000,
        ensures
            r.as_nat() == compact_round(self.as_nat()),
            r.as_nat() >= 0x10000,
            r.as_nat() <= self.as_nat(),
            bit_len(r.as_nat()) == bit_len(self.as_nat()),
    {
        let l = self.bit_length();
        proof {
            lemma2_to64();
            lemma2_to64_rest();
            assert(pow2(16) == 0x10000);
            if l < 17 {
                lemma_pow2_strictly_increases(l as nat, 16);
                assert(false);
            }
            lemma_bit_len_unique(self.as_nat(), l as nat);
        }
        let bits: u64 = 8 * ((l + 7) / 8 - 3);
        let ret = self.shr(bits);
        proof {
            lemma_round_parts(self.as_nat(), l as nat);
        }
        let ret2 = if ret.bit(23) {
            let t = ret.shr(8);
            let t2 = t.shl(8);
            proof {
                lemma2_to64();
                lemma_val_bound(*self);
                lemma_round_quirk(self.as_nat(), l as nat);
                lemma_fundamental_div_mod(ret.as_nat() as int, 256);
                lemma_mod_bound(ret.as_nat() as int, 256);
                lemma_pow2_strictly_increases(24, 256);
                lemma_small_mod((ret.as_nat() / 256 * 256) as nat, pow2(256));
            }
            t2
        } else {
            ret
        };
        let r = ret2.shl(bits);
        proof {
            lemma_round_back(self.as_nat(), l as nat);
            lemma_small_mod((ret2.as_nat() * pow2(bits as nat)) as nat, pow2(256));
        }
        r
    }
}

/// For a value of `l >= 17` bits, the shifted mantissa keeps between 17 and 24
/// bits, so it is nonzero and below 2^24.
pub proof fn lemma_round_parts(n: nat, l: nat)
    requires
        n >= 0x10000,
        l == bit_len(n),
        pow2((l - 1) as nat) <= n < pow2(l),
        17 <= l <= 256,
    ensures
        round_shift(l) <= l - 17,
        l - round_shift(l) <= 24,
        pow2((l - round_shift(l) - 1) as nat) <= n / pow2(round_shift(l)) < pow2(
            (l - round_shift(l)) as nat,
        ),
        bit_len(n / pow2(round_shift(l))) == l - round_shift(l),
        n / pow2(round_shift(l)) < pow2(24),
        n / pow2(round_shift(l)) >= pow2(16),
{
    let s = round_shift(l);
    assert(8 * ((l + 7) / 8) >= l) by {
        lemma_fundamental_div_mod((l + 7) as int, 8);
    }
    assert(8 * ((l + 7) / 8) <= l + 7) by {
        lemma_fundamental_div_mod((l + 7) as int, 8);
    }
    assert(s <= l - 17);
    assert(l - s <= 24);
    let r = n / pow2(s);
    lemma_pow2_pos(s);
    lemma_pow2_subtracts(s, (l - 1) as nat);
    lemma_pow2_subtracts(s, l);
    lemma_div_is_ordered(pow2((l - 1) as nat) as int, n as int, pow2(s) as int);
    assert(pow2((l - 1) as nat) / pow2(s) == pow2((l - s - 1) as nat));
    assert(r >= pow2((l - s - 1) as nat));
    // upper bound: n < pow2(l) = pow2(s) * pow2(l - s)
    lemma_pow2_adds(s, (l - s) as nat);
    lemma_fundamental_div_mod(n as int, pow2(s) as int);
    assert(r < pow2((l - s) as nat)) by (nonlinear_arith)
        requires
            n < pow2(s) * pow2((l - s) as nat),
            r == n / pow2(s),
            pow2(s) > 0,
            n == pow2(s) * r + n % pow2(s),
            n % pow2(s) >= 0,
    {
    }
    lemma_bit_len_unique(r, (l - s) as nat);
    if l - s < 24 {
        lemma_pow2_strictly_increases((l - s) as nat, 24);
    }
    lemma_pow2_subtracts(16, (l - s - 1) as nat);
    if 16 < l - s - 1 {
        lemma_pow2_strictly_increases(16, (l - s - 1) as nat);
    }
    lemma2_to64();
}

/// When bit 23 of the mantissa is set, zeroing its low byte keeps the value
/// in the same bit range.
pub proof fn lemma_round_quirk(n: nat, l: nat)
    requires
        n >= 0x10000,
        l == bit_len(n),
        pow2((l - 1) as nat) <= n < pow2(l),
        17 <= l <= 256,
        (n / pow2(round_shift(l))) / pow2(23) % 2 == 1,
    ensures
        l - round_shift(l) == 24,
        pow2(23) <= (n / pow2(round_shift(l))) / 256 * 256,
        bit_len((n / pow2(round_shift(l))) / 256 * 256) == 24,
{
    let s = round_shift(l);
    let r = n / pow2(s);
    lemma_round_parts(n, l);
    lemma2_to64();
    // bit 23 set means the mantissa reaches 2^23, so it has exactly 24 bits
    lemma_pow2_pos(23);
    lemma_fundamental_div_mod((r / pow2(23)) as int, 2);
    assert(r / pow2(23) >= 1);
    assert(r >= pow2(23)) by (nonlinear_arith)
        requires
            r / pow2(23) >= 1,
            pow2(23) > 0,
            r == pow2(23) * (r / pow2(23)) + r % pow2(23),
            r % pow2(23) >= 0,
    {
    }
    if l - s < 24 {
        lemma_pow2_strictly_increases((l - s) as nat, 24);
        assert(false);
    }
    let r2 = r / 256 * 256;
    lemma_fundamental_div_mod(r as int, 256);
    lemma_mod_bound(r as int, 256);
    assert(r2 > r - 256);
    assert(r2 >= pow2(23)) by {
        assert(pow2(23) % 256 == 0) by {
            lemma_pow2_adds(15, 8);
            lemma_mod_multiples_basic(pow2(15) as int, 256);
            assert(pow2(23) == 256 * pow2(15));
        }
        lemma_div_is_ordered(pow2(23) as int, r as int, 256);
        assert(pow2(23) / 256 == pow2(15)) by {
            lemma_pow2_subtracts(8, 23);
        }
        assert(r / 256 >= pow2(15));
        assert(r2 >= pow2(15) * 256) by (nonlinear_arith)
            requires
                r / 256 >= pow2(15),
                r2 == r / 256 * 256,
        {
        }
        lemma_pow2_adds(15, 8);
    }
    assert(r2 <= r);
    lemma_bit_len_unique(r2, 24);
}

/// Shifting the rounded mantissa back restores the input's bit length.
pub proof fn lemma_round_back(n: nat, l: nat)
    requires
        n >= 0x10000,
        l == bit_len(n),
        pow2((l - 1) as nat) <= n < pow2(l),
        17 <= l <= 256,
    ensures
        compact_round(n) <= n,
        compact_round(n) >= pow2((l - 1) as nat),
        compact_round(n) < pow2(l),
        bit_len(compact_round(n)) == l,
        compact_round(n) >= 0x10000,
        compact_round(n) < pow2(256),
{
    let s = round_shift(l);
    let r = n / pow2(s);
    lemma_round_parts(n, l);
    lemma_pow2_pos(s);
    let r2: nat = if r / pow2(23) % 2 == 1 {
        (r / 256) * 256
    } else {
        r
    };
    if r / pow2(23) % 2 == 1 {
        lemma_round_quirk(n, l);
        lemma_fundamental_div_mod(r as int, 256);
        lemma_mod_bound(r as int, 256);
        assert(r2 <= r);
        assert(r2 >= pow2((l - s - 1) as nat)) by {
            assert(l - s == 24);
            assert(r2 >= pow2(23));
        }
    } else {
        assert(r2 == r);
    }
    assert(pow2((l - s - 1) as nat) <= r2 < pow2((l - s) as nat));
    let m = r2 * pow2(s);
    lemma_pow2_adds((l - s - 1) as nat, s);
    lemma_pow2_adds((l - s) as nat, s);
    assert(m >= pow2((l - 1) as nat) && m < pow2(l)) by (nonlinear_arith)
        requires
            pow2((l - s - 1) as nat) <= r2 < pow2((l - s) as nat),
            m == r2 * pow2(s),
            pow2(s) > 0,
            pow2((l - s - 1) as nat) * pow2(s) == pow2((l - 1) as nat),
            pow2((l - s) as nat) * pow2(s) == pow2(l),
    {
    }
    lemma_fundamental_div_mod(n as int, pow2(s) as int);
    assert(m <= n) by (nonlinear_arith)
        requires
            r2 <= n / pow2(s),
            m == r2 * pow2(s),
            pow2(s) > 0,
            n == pow2(s) * (n / pow2(s)) + n % pow2(s),
            n % pow2(s) >= 0,
    {
    }
    lemma_pow2_pos((l - 1) as nat);
    lemma_bit_len_unique(m, l);
    assert(compact_round(n) == m);
    lemma2_to64();
    assert(pow2(16) <= pow2((l - 1) as nat)) by {
        if 16 < l - 1 {
            lemma_pow2_strictly_increases(16, (l - 1) as nat);
        }
    }
    if l < 256 {
        lemma_pow2_strictly_increases(l, 256);
    }
}

/// The 256-bit target a compact "bits" field encodes: a 24-bit mantissa
/// scaled by a byte-granular exponent. A mantissa with its sign bit set is
/// invalid and decodes to zero.
pub open spec fn target_of_compact(bits: u32) -> nat {
    let ue = bits / 0x100_0000;
    let m0 = bits % 0x100_0000;
    let mant: nat = if ue <= 3 {
        (m0 as nat) / pow2((8 * (3 - ue)) as nat)
    } else {
        m0 as nat
    };
    let expt: nat = if ue <= 3 {
        0
    } else {
        (8 * (ue - 3)) as nat
    };
    if mant > 0x7f_ffff {
        0
    } else {
        (mant * pow2(expt)) % pow2(256)
    }
}

/// Decodes a compact target field into the full 256-bit target.
pub fn target_from_compact(bits: u32) -> (r: U256)
    ensures
        r.as_nat() == target_of_compact(bits),
{
    let ue: u32 = bits / 0x100_0000;
    let m0: u32 = bits % 0x100_0000;
    let mant: u32 = if ue <= 3 {
        let sh: u32 = 8 * (3 - ue);
        proof {
            lemma2_to64();
            assert(pow2(0) == 1 && pow2(8) == 256 && pow2(16) == 65536 && pow2(24) == 16777216);
        }
        if sh == 0 {
            proof {
                assert(m0 as nat / 1 == m0 as nat);
            }
            m0
        } else if sh == 8 {
            m0 / 256
        } else if sh == 16 {
            m0 / 65536
        } else {
            m0 / 16777216
        }
    } else {
        m0
    };
    let expt: u32 = if ue <= 3 {
        0
    } else {
        8 * (ue - 3)
    };
    if mant > 0x7f_ffff {
        U256::zero()
    } else {
        let v = U256::from_u64(mant as u64);
        v.shl(expt as u64)
    }
}

/// The network difficulty a compact target implies: the easiest target
/// divided by this one, in its low 64 bits.
pub open spec fn difficulty_of_compact(bits: u32, max_target: nat) -> nat {
    (max_target / target_of_compact(bits)) % pow2(64)
}

/// Computes the difficulty implied by a header's compact target field.
pub fn compact_difficulty(bits: u32, max_target: &U256) -> (r: u64)
    requires
        target_of_compact(bits) > 0,
    ensures
        r == difficulty_of_compact(bits, max_target.as_nat()),
{
    let t = target_from_compact(bits);
    let (q, _rem) = max_target.div_rem(&t);
    q.low_u64()
}

/// Rounding an already-rounded target changes nothing: the compact encoding
/// is a fixed point of its own loss.
pub proof fn lemma_compact_round_idempotent(n: nat)
    requires
        0x10000 <= n < pow2(256),
    ensures
        compact_round(compact_round(n)) == compact_round(n),
{
    let l = bit_len(n);
    lemma_bit_len_bounds(n);
    lemma2_to64();
    assert(pow2(16) == 0x10000);
    assert(l >= 17) by {
        if l < 17 {
            lemma_pow2_subtracts(16, l as nat);
            if l < 16 {
                lemma_pow2_strictly_increases(l as nat, 16);
            }
            assert(n < pow2(l));
            assert(pow2(l) <= pow2(16)) by {
                if l < 16 {
                    lemma_pow2_strictly_increases(l as nat, 16);
                }
            }
            assert(false);
        }
    }
    assert(l <= 256) by {
        if l > 256 {
            lemma_pow2_subtracts(256, (l - 1) as nat);
            assert(pow2(256) <= pow2((l - 1) as nat)) by {
                if 256 < l - 1 {
                    lemma_pow2_strictly_increases(256, (l - 1) as nat);
                }
            }
            assert(false);
        }
    }
    let s = round_shift(l);
    let r = n / pow2(s);
    let r2: nat = if r / pow2(23) % 2 == 1 {
        (r / 256) * 256
    } else {
        r
    };
    let m = compact_round(n);
    lemma_round_parts(n, l);
    lemma_round_back(n, l);
    assert(m == r2 * pow2(s));
    assert(bit_len(m) == l);
    // the same shift applies, and recovers r2 exactly
    lemma_pow2_pos(s);
    assert(m / pow2(s) == r2) by {
        lemma_div_multiples_vanish(r2 as int, pow2(s) as int);
        assert(pow2(s) * r2 == r2 * pow2(s)) by (nonlinear_arith);
    }
    // the quirk test gives the same answer on r2 as on r
    if r / pow2(23) % 2 == 1 {
        lemma_round_quirk(n, l);
        assert(r2 >= pow2(23));
        assert(r2 < pow2(24));
        // so bit 23 of r2 is set: r2 / pow2(23) == 1
        lemma_pow2_adds(23, 1);
        assert(r2 / pow2(23) == 1) by {
            lemma_pow2_pos(23);
            lemma_fundamental_div_mod(r2 as int, pow2(23) as int);
            lemma_mod_bound(r2 as int, pow2(23) as int);
            let q = r2 / pow2(23);
            assert(q >= 1) by (nonlinear_arith)
                requires
                    r2 == pow2(23) * q + r2 % pow2(23),
                    r2 % pow2(23) < pow2(23),
                    r2 >= pow2(23),
                    pow2(23) > 0,
            {
            }
            assert(q < 2) by (nonlinear_arith)
                requires
                    r2 == pow2(23) * q + r2 % pow2(23),
                    r2 % pow2(23) >= 0,
                    r2 < pow2(23) * 2,
                    pow2(23) > 0,
                    q >= 0,
            {
            }
        }
        // zeroing the low byte of r2 changes nothing: it is already a multiple
        assert(r2 / 256 * 256 == r2) by {
            lemma_div_multiples_vanish((r / 256) as int, 256);
            assert(256 * (r / 256) == r / 256 * 256) by (nonlinear_arith);
        }
        assert(compact_round(m) == r2 * pow2(s));
    } else {
        // bit 23 of r2 == r is clear, as before
        assert(compact_round(m) == r2 * pow2(s));
    }
}

} // verus!
