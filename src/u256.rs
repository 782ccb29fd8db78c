use vstd::prelude::*;

use crate::bytes::{push_u64, read_u64, u64_be, u64_of_be};

verus! {

/// One limb's worth: 2^64.
pub open spec fn limb_base() -> int {
    0x1_0000_0000_0000_0000
}

/// An unsigned 256-bit integer held as four 64-bit limbs, least significant first.
#[derive(Clone, Copy, Debug, PartialEq, Eq, Structural)]
pub struct U256 {
    pub w0: u64,
    pub w1: u64,
    pub w2: u64,
    pub w3: u64,
}

/// The value of four limbs, least significant first.
pub open spec fn limbs_value(w0: u64, w1: u64, w2: u64, w3: u64) -> nat {
    (w0 + limb_base() * (w1 + limb_base() * (w2 + limb_base() * w3))) as nat
}

impl U256 {
    pub open spec fn value(self) -> nat {
        limbs_value(self.w0, self.w1, self.w2, self.w3)
    }

    pub fn zero() -> (r: U256)
        ensures
            r.value() == 0,
    {
        U256 { w0: 0, w1: 0, w2: 0, w3: 0 }
    }

    pub fn from_limbs(w: [u64; 4]) -> (r: U256)
        ensures
            r.w0 == w[0] && r.w1 == w[1] && r.w2 == w[2] && r.w3 == w[3],
    {
        U256 { w0: w[0], w1: w[1], w2: w[2], w3: w[3] }
    }

    /// The largest value, 2^256 - 1.
    pub fn max_value() -> (r: U256)
        ensures
            r.value() == u256_bound() - 1,
    {
        U256 { w0: u64::MAX, w1: u64::MAX, w2: u64::MAX, w3: u64::MAX }
    }

    /// `self <= other` as numbers.
    pub fn le(&self, other: &U256) -> (r: bool)
        ensures
            r == (self.value() <= other.value()),
    {
        let (a, b) = (self, other);
        proof {
            lemma_limbs_order(a.w0, a.w1, a.w2, a.w3, b.w0, b.w1, b.w2, b.w3);
        }
        if a.w3 != b.w3 {
            a.w3 < b.w3
        } else if a.w2 != b.w2 {
            a.w2 < b.w2
        } else if a.w1 != b.w1 {
            a.w1 < b.w1
        } else {
            a.w0 <= b.w0
        }
    }

    /// `self < other` as numbers.
    pub fn lt(&self, other: &U256) -> (r: bool)
        ensures
            r == (self.value() < other.value()),
    {
        !other.le(self)
    }

    /// The smaller of the two values.
    pub fn min(self, other: U256) -> (r: U256)
        ensures
            r.value() == if self.value() <= other.value() {
                self.value()
            } else {
                other.value()
            },
    {
        if self.le(&other) {
            self
        } else {
            other
        }
    }

    /// Division by a machine word: the quotient and the remainder.
    pub fn div_rem_u64(&self, d: u64) -> (r: (U256, u64))
        requires
            d > 0,
        ensures
            r.0.value() == self.value() / (d as nat),
            r.1 as nat == self.value() % (d as nat),
    {
        let dd = d as u128;
        let c3 = self.w3 as u128;
        let q3 = c3 / dd;
        let r3 = c3 % dd;
        proof { lemma_div_facts(c3 as int, d as int); }
        proof { lemma_div_step_bound(r3 as int, self.w2 as int, d as int); }
        let c2 = r3 * 0x1_0000_0000_0000_0000u128 + self.w2 as u128;
        let q2 = c2 / dd;
        let r2 = c2 % dd;
        proof { lemma_div_facts(c2 as int, d as int); }
        proof { lemma_div_step_bound(r2 as int, self.w1 as int, d as int); }
        let c1 = r2 * 0x1_0000_0000_0000_0000u128 + self.w1 as u128;
        let q1 = c1 / dd;
        let r1 = c1 % dd;
        proof { lemma_div_facts(c1 as int, d as int); }
        proof { lemma_div_step_bound(r1 as int, self.w0 as int, d as int); }
        let c0 = r1 * 0x1_0000_0000_0000_0000u128 + self.w0 as u128;
        let q0 = c0 / dd;
        let r0 = c0 % dd;
        proof { lemma_div_facts(c0 as int, d as int); }
        let q = U256 { w0: q0 as u64, w1: q1 as u64, w2: q2 as u64, w3: q3 as u64 };
        proof {
            let b = limb_base();
            let di = d as int;
            lemma_div_step(self.w3 as int, q3 as int, r3 as int, self.w2 as int, q2 as int, r2 as int, di, b);
            let hi2 = self.w2 + b * self.w3;
            let qh2 = q2 + b * q3;
            lemma_div_step(hi2, qh2, r2 as int, self.w1 as int, q1 as int, r1 as int, di, b);
            let hi1 = self.w1 + b * hi2;
            let qh1 = q1 + b * qh2;
            lemma_div_step(hi1, qh1, r1 as int, self.w0 as int, q0 as int, r0 as int, di, b);
            assert(self.value() == (q0 + b * qh1) * di + r0);
            assert(q.value() == q0 + b * qh1);
            vstd::arithmetic::div_mod::lemma_fundamental_div_mod_converse(
                self.value() as int,
                di,
                q.value() as int,
                r0 as int,
            );
        }
        (q, r0 as u64)
    }

    /// Multiplication by a machine word; `None` where the product needs more than 256 bits.
    pub fn checked_mul_u64(&self, m: u64) -> (r: Option<U256>)
        ensures
            r is Some <==> self.value() * m < u256_bound(),
            r is Some ==> r->0.value() == self.value() * m,
    {
        let mm = m as u128;
        proof { lemma_mul_step_bound(self.w0 as int, m as int, 0); }
        let prod0 = self.w0 as u128 * mm;
        let l0 = (prod0 % 0x1_0000_0000_0000_0000u128) as u64;
        let c0 = prod0 / 0x1_0000_0000_0000_0000u128;
        proof { lemma_mul_step_bound(self.w1 as int, m as int, c0 as int); }
        let prod1 = self.w1 as u128 * mm + c0;
        let l1 = (prod1 % 0x1_0000_0000_0000_0000u128) as u64;
        let c1 = prod1 / 0x1_0000_0000_0000_0000u128;
        proof { lemma_mul_step_bound(self.w2 as int, m as int, c1 as int); }
        let prod2 = self.w2 as u128 * mm + c1;
        let l2 = (prod2 % 0x1_0000_0000_0000_0000u128) as u64;
        let c2 = prod2 / 0x1_0000_0000_0000_0000u128;
        proof { lemma_mul_step_bound(self.w3 as int, m as int, c2 as int); }
        let prod3 = self.w3 as u128 * mm + c2;
        let l3 = (prod3 % 0x1_0000_0000_0000_0000u128) as u64;
        let c3 = prod3 / 0x1_0000_0000_0000_0000u128;
        let prod = U256 { w0: l0, w1: l1, w2: l2, w3: l3 };
        proof {
            let b = limb_base();
            assert(prod0 == l0 + b * c0);
            assert(prod1 == l1 + b * c1);
            assert(prod2 == l2 + b * c2);
            assert(prod3 == l3 + b * c3);
            lemma_mul_total(self.w0 as int, self.w1 as int, self.w2 as int, self.w3 as int, m as int,
                l0 as int, l1 as int, l2 as int, l3 as int, c0 as int, c1 as int, c2 as int, c3 as int);
            assert(self.value() * m == prod.value() + u256_bound() * c3);
            lemma_lower_bound(l0, l1, l2);
            assert(prod.value() < u256_bound()) by {
                lemma_regroup(l0 as int, l1 as int, l2 as int, l3 as int, b);
                assert((l0 + b * (l1 + b * l2)) + b * b * b * l3 < b * b * b * b) by (nonlinear_arith)
                    requires 0 <= l0 + b * (l1 + b * l2) < b * b * b, 0 <= l3 < b, b > 0;
            }
            if c3 > 0 {
                assert(b * b * b * b * c3 >= b * b * b * b) by (nonlinear_arith) requires c3 > 0, b > 0;
                assert(self.value() * m >= u256_bound());
            } else {
                assert(u256_bound() * c3 == 0) by (nonlinear_arith) requires c3 == 0;
                assert(self.value() * m == prod.value());
            }
        }
        if c3 == 0 {
            Some(prod)
        } else {
            None
        }
    }

    /// Addition of a machine word; `None` where the sum needs more than 256 bits.
    pub fn checked_add_u64(&self, x: u64) -> (r: Option<U256>)
        ensures
            r is Some <==> self.value() + x < u256_bound(),
            r is Some ==> r->0.value() == self.value() + x,
    {
        let s0 = self.w0 as u128 + x as u128;
        let l0 = (s0 % 0x1_0000_0000_0000_0000u128) as u64;
        let c0 = s0 / 0x1_0000_0000_0000_0000u128;
        let s1 = self.w1 as u128 + c0;
        let l1 = (s1 % 0x1_0000_0000_0000_0000u128) as u64;
        let c1 = s1 / 0x1_0000_0000_0000_0000u128;
        let s2 = self.w2 as u128 + c1;
        let l2 = (s2 % 0x1_0000_0000_0000_0000u128) as u64;
        let c2 = s2 / 0x1_0000_0000_0000_0000u128;
        let s3 = self.w3 as u128 + c2;
        let l3 = (s3 % 0x1_0000_0000_0000_0000u128) as u64;
        let c3 = s3 / 0x1_0000_0000_0000_0000u128;
        let sum = U256 { w0: l0, w1: l1, w2: l2, w3: l3 };
        proof {
            let b = limb_base();
            lemma_carry_total(self.w0 as int, self.w1 as int, self.w2 as int, self.w3 as int, x as int,
                l0 as int, l1 as int, l2 as int, l3 as int, c0 as int, c1 as int, c2 as int, c3 as int);
            lemma_lower_bound(l0, l1, l2);
            assert(sum.value() < u256_bound()) by {
                lemma_regroup(l0 as int, l1 as int, l2 as int, l3 as int, b);
                assert((l0 + b * (l1 + b * l2)) + b * b * b * l3 < b * b * b * b) by (nonlinear_arith)
                    requires 0 <= l0 + b * (l1 + b * l2) < b * b * b, 0 <= l3 < b, b > 0;
            }
            if c3 > 0 {
                assert(b * b * b * b * c3 >= b * b * b * b) by (nonlinear_arith) requires c3 > 0, b > 0;
            }
        }
        if c3 == 0 {
            Some(sum)
        } else {
            None
        }
    }
}

/// The 32 big-endian bytes of a value.
pub open spec fn u256_be(t: U256) -> Seq<u8> {
    u64_be(t.w3) + u64_be(t.w2) + u64_be(t.w1) + u64_be(t.w0)
}

/// The value that 32 big-endian bytes spell.
pub open spec fn u256_of_be(s: Seq<u8>) -> U256 {
    U256 {
        w3: u64_of_be(s.subrange(0, 8)),
        w2: u64_of_be(s.subrange(8, 16)),
        w1: u64_of_be(s.subrange(16, 24)),
        w0: u64_of_be(s.subrange(24, 32)),
    }
}

impl U256 {
    /// Appends the 32 big-endian bytes of the value.
    pub fn push_be(&self, out: &mut Vec<u8>)
        ensures
            final(out)@ == old(out)@ + u256_be(*self),
    {
        push_u64(out, self.w3);
        push_u64(out, self.w2);
        push_u64(out, self.w1);
        push_u64(out, self.w0);
        assert(final(out)@ =~= old(out)@ + u256_be(*self));
    }

    /// Reads 32 big-endian bytes at `pos`, if that many remain.
    pub fn read_be(data: &Vec<u8>, pos: usize) -> (r: Option<U256>)
        ensures
            r is Some <==> pos + 32 <= data@.len(),
            r is Some ==> r->0 == u256_of_be(data@.subrange(pos as int, pos + 32)),
    {
        if pos > data.len() || data.len() - pos < 32 {
            return None;
        }
        let w3 = read_u64(data, pos).unwrap();
        let w2 = read_u64(data, pos + 8).unwrap();
        let w1 = read_u64(data, pos + 16).unwrap();
        let w0 = read_u64(data, pos + 24).unwrap();
        let ghost s = data@.subrange(pos as int, pos + 32);
        assert(s.subrange(0, 8) =~= data@.subrange(pos as int, pos + 8));
        assert(s.subrange(8, 16) =~= data@.subrange(pos + 8, pos + 16));
        assert(s.subrange(16, 24) =~= data@.subrange(pos + 16, pos + 24));
        assert(s.subrange(24, 32) =~= data@.subrange(pos + 24, pos + 32));
        Some(U256 { w0, w1, w2, w3 })
    }
}

pub proof fn lemma_u256_be_round_trip(t: U256)
    ensures
        u256_of_be(u256_be(t)) == t,
        u256_be(t).len() == 32,
{
    crate::bytes::lemma_u64_be_round_trip(t.w0);
    crate::bytes::lemma_u64_be_round_trip(t.w1);
    crate::bytes::lemma_u64_be_round_trip(t.w2);
    crate::bytes::lemma_u64_be_round_trip(t.w3);
    let s = u256_be(t);
    assert(s.subrange(0, 8) =~= u64_be(t.w3));
    assert(s.subrange(8, 16) =~= u64_be(t.w2));
    assert(s.subrange(16, 24) =~= u64_be(t.w1));
    assert(s.subrange(24, 32) =~= u64_be(t.w0));
}

pub proof fn lemma_value_zero_iff(t: U256)
    ensures
        t.value() == 0 <==> (t.w0 == 0 && t.w1 == 0 && t.w2 == 0 && t.w3 == 0),
{
    let b = limb_base();
    assert(t.value() == 0 ==> t.w0 == 0 && t.w1 == 0 && t.w2 == 0 && t.w3 == 0) by (nonlinear_arith)
        requires
            t.value() == t.w0 + b * (t.w1 + b * (t.w2 + b * t.w3)),
            b > 0,
            t.w0 >= 0, t.w1 >= 0, t.w2 >= 0, t.w3 >= 0,
    ;
}

/// 2^256.
pub open spec fn u256_bound() -> int {
    limb_base() * limb_base() * limb_base() * limb_base()
}

proof fn lemma_div_facts(c: int, d: int)
    requires
        0 <= c < d * limb_base(),
        0 < d,
    ensures
        c == (c / d) * d + c % d,
        0 <= c % d < d,
        0 <= c / d < limb_base(),
{
    vstd::arithmetic::div_mod::lemma_fundamental_div_mod(c, d);
    vstd::arithmetic::div_mod::lemma_mod_pos_bound(c, d);
    vstd::arithmetic::div_mod::lemma_div_pos_is_pos(c, d);
    let q = c / d;
    let b = limb_base();
    vstd::arithmetic::mul::lemma_mul_is_commutative(q, d);
    if q >= b {
        assert(d * q >= d * b) by (nonlinear_arith)
            requires
                q >= b,
                d > 0,
        ;
    }
}

proof fn lemma_div_step_bound(r: int, w: int, d: int)
    requires
        0 <= r < d,
        d <= 0xFFFF_FFFF_FFFF_FFFF,
        0 <= w <= 0xFFFF_FFFF_FFFF_FFFF,
    ensures
        r * 0x1_0000_0000_0000_0000 + w <= 0xFFFF_FFFF_FFFF_FFFF_FFFF_FFFF_FFFF_FFFF,
        r * limb_base() + w < d * limb_base(),
{
    assert(r * limb_base() + limb_base() <= d * limb_base()) by (nonlinear_arith)
        requires
            r + 1 <= d,
    ;
    assert(r * 0x1_0000_0000_0000_0000 <= 0xFFFF_FFFF_FFFF_FFFE * 0x1_0000_0000_0000_0000)
        by (nonlinear_arith)
        requires
            0 <= r <= 0xFFFF_FFFF_FFFF_FFFE,
    ;
}

/// One step of long division: a high part already divided, then the next limb.
proof fn lemma_div_step(hi: int, qh: int, rh: int, lo: int, ql: int, rl: int, d: int, b: int)
    requires
        hi == qh * d + rh,
        rh * b + lo == ql * d + rl,
    ensures
        lo + b * hi == (ql + b * qh) * d + rl,
{
    assert(lo + b * hi == (ql + b * qh) * d + rl) by (nonlinear_arith)
        requires
            hi == qh * d + rh,
            rh * b + lo == ql * d + rl,
    ;
}

proof fn lemma_mul_step_bound(w: int, m: int, c: int)
    requires
        0 <= w <= 0xFFFF_FFFF_FFFF_FFFF,
        0 <= m <= 0xFFFF_FFFF_FFFF_FFFF,
        0 <= c <= 0xFFFF_FFFF_FFFF_FFFF,
    ensures
        w * m + c <= 0xFFFF_FFFF_FFFF_FFFF_FFFF_FFFF_FFFF_FFFF,
        (w * m + c) / 0x1_0000_0000_0000_0000 <= 0xFFFF_FFFF_FFFF_FFFF,
{
    assert(w * m <= 0xFFFF_FFFF_FFFF_FFFF * 0xFFFF_FFFF_FFFF_FFFF) by (nonlinear_arith)
        requires
            0 <= w <= 0xFFFF_FFFF_FFFF_FFFF,
            0 <= m <= 0xFFFF_FFFF_FFFF_FFFF,
    ;
}

proof fn lemma_mul_carry_step(w: int, hi: int, m: int, c_in: int, l: int, c_hi: int, h: int, big: int, c: int)
    requires
        hi * m + c_hi == h + big * c,
        w * m + c_in == l + limb_base() * c_hi,
    ensures
        (w + limb_base() * hi) * m + c_in == (l + limb_base() * h) + limb_base() * big * c,
{
    let b = limb_base();
    assert((w + b * hi) * m == w * m + b * (hi * m)) by (nonlinear_arith);
    assert(b * (hi * m) == b * h + b * big * c - b * c_hi) by (nonlinear_arith)
        requires
            hi * m + c_hi == h + big * c,
    ;
}

/// Limb-wise multiplication with carries gives the product of the values.
proof fn lemma_mul_total(
    w0: int, w1: int, w2: int, w3: int, m: int,
    l0: int, l1: int, l2: int, l3: int, c0: int, c1: int, c2: int, c3: int,
)
    requires
        w0 * m == l0 + limb_base() * c0,
        w1 * m + c0 == l1 + limb_base() * c1,
        w2 * m + c1 == l2 + limb_base() * c2,
        w3 * m + c2 == l3 + limb_base() * c3,
    ensures
        (w0 + limb_base() * (w1 + limb_base() * (w2 + limb_base() * w3))) * m
            == (l0 + limb_base() * (l1 + limb_base() * (l2 + limb_base() * l3)))
            + limb_base() * limb_base() * limb_base() * limb_base() * c3,
{
    let b = limb_base();
    lemma_mul_carry_step(w2, w3, m, c1, l2, c2, l3, b, c3);
    lemma_mul_carry_step(w1, w2 + b * w3, m, c0, l1, c1, l2 + b * l3, b * b, c3);
    lemma_mul_carry_step(w0, w1 + b * (w2 + b * w3), m, 0, l0, c0, l1 + b * (l2 + b * l3), b * b * b, c3);
    assert(b * (b * b) == b * b * b) by (nonlinear_arith);
    assert(b * (b * b * b) == b * b * b * b) by (nonlinear_arith);
}

/// Limb-wise addition of a word with carries gives the sum of the values.
proof fn lemma_carry_total(
    w0: int, w1: int, w2: int, w3: int, x: int,
    l0: int, l1: int, l2: int, l3: int, c0: int, c1: int, c2: int, c3: int,
)
    requires
        w0 + x == l0 + limb_base() * c0,
        w1 + c0 == l1 + limb_base() * c1,
        w2 + c1 == l2 + limb_base() * c2,
        w3 + c2 == l3 + limb_base() * c3,
    ensures
        (w0 + limb_base() * (w1 + limb_base() * (w2 + limb_base() * w3))) + x
            == (l0 + limb_base() * (l1 + limb_base() * (l2 + limb_base() * l3)))
            + limb_base() * limb_base() * limb_base() * limb_base() * c3,
{
    let b = limb_base();
    assert((w0 + b * (w1 + b * (w2 + b * w3))) + x
        == (l0 + b * (l1 + b * (l2 + b * l3))) + b * b * b * b * c3) by (nonlinear_arith)
        requires
            w0 + x == l0 + b * c0,
            w1 + c0 == l1 + b * c1,
            w2 + c1 == l2 + b * c2,
            w3 + c2 == l3 + b * c3,
    ;
}

proof fn lemma_limb_step(lo_a: int, lo_b: int, hi_a: int, hi_b: int, bound: int)
    requires
        0 <= lo_a < bound,
        0 <= lo_b < bound,
        0 <= hi_a,
        0 <= hi_b,
    ensures
        hi_a < hi_b ==> lo_a + bound * hi_a < lo_b + bound * hi_b,
        hi_a == hi_b ==> (lo_a + bound * hi_a <= lo_b + bound * hi_b <==> lo_a <= lo_b),
{
    if hi_a < hi_b {
        assert(bound * hi_a + bound <= bound * hi_b) by (nonlinear_arith)
            requires
                hi_a < hi_b,
                0 < bound,
        ;
    }
}

proof fn lemma_lower_bound(w0: u64, w1: u64, w2: u64)
    ensures
        0 <= w0 + limb_base() * w1 < limb_base() * limb_base(),
        0 <= w0 + limb_base() * (w1 + limb_base() * w2) < limb_base() * limb_base()
            * limb_base(),
{
    let b = limb_base();
    assert(0 <= w0 + b * w1 < b * b) by (nonlinear_arith)
        requires
            0 <= w0 < b,
            0 <= w1 < b,
    ;
    let lo = w0 + b * w1;
    assert(0 <= lo + b * b * w2 < b * b * b) by (nonlinear_arith)
        requires
            0 <= lo < b * b,
            0 <= w2 < b,
            b > 0,
    ;
    lemma_regroup(w0 as int, w1 as int, w2 as int, 0, b);
}

proof fn lemma_regroup(x0: int, x1: int, x2: int, x3: int, b: int)
    ensures
        x0 + b * (x1 + b * (x2 + b * x3)) == (x0 + b * (x1 + b * x2)) + b * b * b * x3,
        x0 + b * (x1 + b * x2) == (x0 + b * x1) + b * b * x2,
{
    assert(x0 + b * (x1 + b * (x2 + b * x3)) == (x0 + b * (x1 + b * x2)) + b * b * b * x3)
        by (nonlinear_arith);
    assert(x0 + b * (x1 + b * x2) == (x0 + b * x1) + b * b * x2) by (nonlinear_arith);
}

/// Comparing four limbs from the most significant down orders their values.
proof fn lemma_limbs_order(
    a0: u64,
    a1: u64,
    a2: u64,
    a3: u64,
    b0: u64,
    b1: u64,
    b2: u64,
    b3: u64,
)
    ensures
        a3 != b3 ==> (limbs_value(a0, a1, a2, a3) <= limbs_value(b0, b1, b2, b3) <==> a3 < b3),
        a3 == b3 && a2 != b2 ==> (limbs_value(a0, a1, a2, a3) <= limbs_value(b0, b1, b2, b3)
            <==> a2 < b2),
        a3 == b3 && a2 == b2 && a1 != b1 ==> (limbs_value(a0, a1, a2, a3) <= limbs_value(
            b0,
            b1,
            b2,
            b3,
        ) <==> a1 < b1),
        a3 == b3 && a2 == b2 && a1 == b1 ==> (limbs_value(a0, a1, a2, a3) <= limbs_value(
            b0,
            b1,
            b2,
            b3,
        ) <==> a0 <= b0),
{
    let b = limb_base();
    lemma_lower_bound(a0, a1, a2);
    lemma_lower_bound(b0, b1, b2);
    let la = a0 + b * (a1 + b * a2);
    let lb = b0 + b * (b1 + b * b2);
    let b3p = b * b * b;
    assert(limbs_value(a0, a1, a2, a3) == la + b3p * a3) by {
        lemma_regroup(a0 as int, a1 as int, a2 as int, a3 as int, b);
    }
    assert(limbs_value(b0, b1, b2, b3) == lb + b3p * b3) by {
        lemma_regroup(b0 as int, b1 as int, b2 as int, b3 as int, b);
    }
    lemma_limb_step(la, lb, a3 as int, b3 as int, b3p);
    lemma_limb_step(lb, la, b3 as int, a3 as int, b3p);
    let ma = a0 + b * a1;
    let mb = b0 + b * b1;
    lemma_regroup(a0 as int, a1 as int, a2 as int, 0, b);
    lemma_regroup(b0 as int, b1 as int, b2 as int, 0, b);
    lemma_limb_step(ma, mb, a2 as int, b2 as int, b * b);
    lemma_limb_step(mb, ma, b2 as int, a2 as int, b * b);
    lemma_limb_step(a0 as int, b0 as int, a1 as int, b1 as int, b);
    lemma_limb_step(b0 as int, a0 as int, b1 as int, a1 as int, b);
}

} // verus!
