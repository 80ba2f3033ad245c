//! Fixed-width bitvectors and the bitvector theory solver.
//!
//! A bitvector of width `w` (1 to 64) denotes a number modulo `2^w`; its
//! signed reading is the two's-complement value.
use vstd::prelude::*;
use vstd::arithmetic::power2::{pow2, lemma2_to64, lemma_pow2_pos, lemma_pow2_adds, lemma_pow2_strictly_increases};
use vstd::arithmetic::div_mod::{lemma_mod_mod, lemma_mod_multiples_vanish, lemma_small_mod, lemma_fundamental_div_mod, lemma_mod_pos_bound};
use vstd::bits::{low_bits_mask, lemma_u64_low_bits_mask_is_mod, lemma_u64_shl_is_mul, lemma_u64_shr_is_div, lemma_u64_pow2_no_overflow};
use std::collections::HashMap;
use std::ops::{Add, BitAnd, BitOr, BitXor, Mul, Not, Sub};
use crate::literal::Literal;
use crate::theory::{TheoryConflict, TheoryPropagation, TheoryResult, TheorySolver, lemma_facts_filter};

verus! {

/// Widths a bitvector can have.
pub open spec fn width_ok(w: int) -> bool {
    1 <= w <= 64
}

/// Truncating integer division, as Rust's `/` on signed integers.
pub open spec fn tdiv(a: int, b: int) -> int {
    let q = (if a < 0 { -a } else { a }) / (if b < 0 { -b } else { b });
    if (a < 0) == (b < 0) { q } else { -q }
}

/// Remainder of truncating division, as Rust's `%` on signed integers.
pub open spec fn trem(a: int, b: int) -> int {
    a - b * tdiv(a, b)
}

/// Reducing modulo `2^64` and then modulo `2^w` is reducing modulo `2^w`.
pub proof fn lemma_mod64_mod(x: int, w: nat)
    requires
        w <= 64,
    ensures
        pow2(w) > 0,
        (x % pow2(64) as int) % pow2(w) as int == x % pow2(w) as int,
{
    lemma_pow2_pos(w);
    lemma_pow2_pos((64 - w) as nat);
    lemma_pow2_adds(w, (64 - w) as nat);
    lemma_mod_mod(x, pow2(w) as int, pow2((64 - w) as nat) as int);
}

/// Masking with the low `w` bits is reduction modulo `2^w`.
pub proof fn lemma_and_mask(x: u64, w: nat)
    requires
        1 <= w <= 64,
    ensures
        x & ((pow2(w) - 1) as u64) == x as nat % pow2(w),
        pow2(w) <= pow2(64),
{
    lemma2_to64();
    if w < 64 {
        lemma_u64_low_bits_mask_is_mod(x, w);
        lemma_u64_pow2_no_overflow(w);
        lemma_pow2_strictly_increases(w, 64);
    } else {
        assert(x & 0xffff_ffff_ffff_ffffu64 == x) by (bit_vector);
        lemma_small_mod(x as nat, pow2(64));
    }
}

/// The mask of the low `width` bits.
fn mask_for(width: u32) -> (m: u64)
    requires
        width_ok(width as int),
    ensures
        m == pow2(width as nat) - 1,
{
    if width == 64 {
        proof {
            lemma2_to64();
        }
        u64::MAX
    } else {
        proof {
            lemma_u64_pow2_no_overflow(width as nat);
            lemma_u64_shl_is_mul(1, width as u64);
        }
        (1u64 << (width as u64)) - 1
    }
}

/// The magnitude of `a`.
fn magnitude(a: i64) -> (m: u64)
    ensures
        m == if a < 0 { -(a as int) } else { a as int },
{
    if a >= 0 {
        a as u64
    } else if a == i64::MIN {
        0x8000_0000_0000_0000u64
    } else {
        (-a) as u64
    }
}

/// Truncating signed division.
pub(crate) fn signed_div(a: i64, c: i64) -> (q: i64)
    requires
        c != 0,
        !(a == i64::MIN && c == -1),
    ensures
        q == tdiv(a as int, c as int),
{
    let ma = magnitude(a);
    let mc = magnitude(c);
    let qm = ma / mc;
    assert(qm <= ma) by (nonlinear_arith)
        requires
            mc >= 1,
            qm == ma / mc,
    ;
    assert((a < 0) == (c < 0) ==> qm < 0x8000_0000_0000_0000u64) by (nonlinear_arith)
        requires
            mc >= 1,
            qm == ma / mc,
            ma <= 0x8000_0000_0000_0000u64,
            ma == 0x8000_0000_0000_0000u64 && (a < 0) == (c < 0) ==> mc >= 2,
    ;
    if (a < 0) == (c < 0) {
        qm as i64
    } else if qm == 0x8000_0000_0000_0000u64 {
        i64::MIN
    } else {
        -(qm as i64)
    }
}

/// Remainder of truncating signed division (it has the sign of the dividend).
pub(crate) fn signed_rem(a: i64, c: i64) -> (r: i64)
    requires
        c != 0,
        !(a == i64::MIN && c == -1),
    ensures
        r == trem(a as int, c as int),
{
    let ma = magnitude(a);
    let mc = magnitude(c);
    let rm = ma % mc;
    let qm = ma / mc;
    proof {
        lemma_fundamental_div_mod(ma as int, mc as int);
        lemma_mod_pos_bound(ma as int, mc as int);
        let t = tdiv(a as int, c as int);
        assert(a - c * t == (if a < 0 { -(rm as int) } else { rm as int })) by (nonlinear_arith)
            requires
                ma == mc * qm + rm,
                ma == (if a < 0 { -(a as int) } else { a as int }),
                mc == (if c < 0 { -(c as int) } else { c as int }),
                qm == ma / mc,
                t == (if (a < 0) == (c < 0) { qm as int } else { -(qm as int) }),
        ;
    }
    if a < 0 {
        -(rm as i64)
    } else {
        rm as i64
    }
}

/// A fixed-width bitvector value.
#[derive(Debug, Clone, Copy, PartialEq, Eq, Hash, Structural)]
pub struct BitVec {
    /// The value (only the low `width` bits count).
    pub value: u64,
    /// Width in bits.
    pub width: u32,
}

impl BitVec {
    /// The unsigned value: the low `width` bits of `value`.
    pub open spec fn norm(self) -> nat {
        self.value as nat % pow2(self.width as nat)
    }

    /// The two's-complement signed value.
    pub open spec fn signed(self) -> int {
        if self.norm() >= pow2((self.width - 1) as nat) {
            self.norm() - pow2(self.width as nat)
        } else {
            self.norm() as int
        }
    }

    /// The bitvector of width `w` denoting `v` modulo `2^w`.
    pub open spec fn of(v: int, w: u32) -> BitVec {
        BitVec { value: (v % pow2(w as nat) as int) as u64, width: w }
    }

    /// Create a bitvector; `value` is reduced modulo `2^width`.
    pub fn new(value: u64, width: u32) -> (b: Self)
        requires
            width_ok(width as int),
        ensures
            b == BitVec::of(value as int, width),
            b.value < pow2(width as nat),
    {
        let mask = mask_for(width);
        proof {
            lemma_and_mask(value, width as nat);
            lemma_pow2_pos(width as nat);
        }
        BitVec { value: value & mask, width }
    }

    /// The zero bitvector.
    pub fn zero(width: u32) -> (b: Self)
        requires
            width_ok(width as int),
        ensures
            b == BitVec::of(0, width),
            b.value == 0,
    {
        BitVec::new(0, width)
    }

    /// The bitvector with all bits set.
    pub fn ones(width: u32) -> (b: Self)
        requires
            width_ok(width as int),
        ensures
            b == BitVec::of(pow2(width as nat) - 1, width),
            b.value == pow2(width as nat) - 1,
    {
        let mask = mask_for(width);
        proof {
            lemma_pow2_pos(width as nat);
            lemma_small_mod((pow2(width as nat) - 1) as nat, pow2(width as nat));
        }
        BitVec::new(mask, width)
    }

    /// The low `width` bits of `value`.
    fn normalize(&self) -> (v: u64)
        requires
            width_ok(self.width as int),
        ensures
            v == self.norm(),
            v < pow2(self.width as nat),
    {
        let mask = mask_for(self.width);
        proof {
            lemma_and_mask(self.value, self.width as nat);
            lemma_pow2_pos(self.width as nat);
        }
        self.value & mask
    }

    /// Unsigned less than.
    pub fn ult(&self, other: &BitVec) -> (b: bool)
        requires
            width_ok(self.width as int),
            self.width == other.width,
        ensures
            b == (self.norm() < other.norm()),
    {
        self.normalize() < other.normalize()
    }

    /// Unsigned less than or equal.
    pub fn ule(&self, other: &BitVec) -> (b: bool)
        requires
            width_ok(self.width as int),
            self.width == other.width,
        ensures
            b == (self.norm() <= other.norm()),
    {
        self.normalize() <= other.normalize()
    }

    /// Unsigned greater than.
    pub fn ugt(&self, other: &BitVec) -> (b: bool)
        requires
            width_ok(self.width as int),
            self.width == other.width,
        ensures
            b == (self.norm() > other.norm()),
    {
        self.normalize() > other.normalize()
    }

    /// Unsigned greater than or equal.
    pub fn uge(&self, other: &BitVec) -> (b: bool)
        requires
            width_ok(self.width as int),
            self.width == other.width,
        ensures
            b == (self.norm() >= other.norm()),
    {
        self.normalize() >= other.normalize()
    }

    /// The two's-complement signed value.
    fn to_signed(&self) -> (s: i64)
        requires
            width_ok(self.width as int),
        ensures
            s == self.signed(),
    {
        let val = self.normalize();
        proof {
            lemma2_to64();
            lemma_u64_pow2_no_overflow((self.width - 1) as nat);
            lemma_u64_shl_is_mul(1, (self.width - 1) as u64);
            lemma_pow2_adds((self.width - 1) as nat, 1);
            if self.width < 64 {
                lemma_pow2_strictly_increases(self.width as nat, 64);
            }
        }
        let half: u64 = 1u64 << ((self.width - 1) as u64);
        if val >= half {
            let modulus: i128 = if self.width == 64 {
                18446744073709551616i128
            } else {
                proof {
                    lemma_u64_pow2_no_overflow(self.width as nat);
                    lemma_u64_shl_is_mul(1, self.width as u64);
                }
                (1u64 << (self.width as u64)) as i128
            };
            (val as i128 - modulus) as i64
        } else {
            val as i64
        }
    }

    /// The bitvector of width `width` denoting `v` modulo `2^width`.
    fn from_signed(v: i64, width: u32) -> (b: Self)
        requires
            width_ok(width as int),
        ensures
            b == BitVec::of(v as int, width),
    {
        if v >= 0 {
            BitVec::new(v as u64, width)
        } else {
            let t: i128 = v as i128 + 18446744073709551616i128;
            proof {
                lemma2_to64();
                lemma_pow2_pos(width as nat);
                lemma_pow2_adds(width as nat, (64 - width) as nat);
                lemma_mod_multiples_vanish(pow2((64 - width) as nat) as int, v as int, pow2(width as nat) as int);
                assert(pow2(width as nat) * pow2((64 - width) as nat) == pow2(64));
                assert(t == pow2(width as nat) * pow2((64 - width) as nat) + v) by (nonlinear_arith)
                    requires
                        pow2(width as nat) * pow2((64 - width) as nat) == 18446744073709551616int,
                        t == v + 18446744073709551616int,
                ;
            }
            BitVec::new(t as u64, width)
        }
    }

    /// Signed less than.
    pub fn slt(&self, other: &BitVec) -> (b: bool)
        requires
            width_ok(self.width as int),
            self.width == other.width,
        ensures
            b == (self.signed() < other.signed()),
    {
        self.to_signed() < other.to_signed()
    }

    /// Signed less than or equal.
    pub fn sle(&self, other: &BitVec) -> (b: bool)
        requires
            width_ok(self.width as int),
            self.width == other.width,
        ensures
            b == (self.signed() <= other.signed()),
    {
        self.to_signed() <= other.to_signed()
    }

    /// Signed greater than.
    pub fn sgt(&self, other: &BitVec) -> (b: bool)
        requires
            width_ok(self.width as int),
            self.width == other.width,
        ensures
            b == (self.signed() > other.signed()),
    {
        self.to_signed() > other.to_signed()
    }

    /// Signed greater than or equal.
    pub fn sge(&self, other: &BitVec) -> (b: bool)
        requires
            width_ok(self.width as int),
            self.width == other.width,
        ensures
            b == (self.signed() >= other.signed()),
    {
        self.to_signed() >= other.to_signed()
    }

    /// Unsigned division; division by a zero value gives all ones.
    pub fn udiv(&self, other: &BitVec) -> (b: BitVec)
        requires
            width_ok(self.width as int),
            self.width == other.width,
            other.value != 0 ==> other.norm() != 0,
        ensures
            b == if other.value == 0 {
                BitVec::of(pow2(self.width as nat) - 1, self.width)
            } else {
                BitVec::of((self.norm() / other.norm()) as int, self.width)
            },
    {
        if other.value == 0 {
            BitVec::ones(self.width)
        } else {
            BitVec::new(self.normalize() / other.normalize(), self.width)
        }
    }

    /// Unsigned remainder; the remainder by a zero value is the dividend.
    pub fn urem(&self, other: &BitVec) -> (b: BitVec)
        requires
            width_ok(self.width as int),
            self.width == other.width,
            other.value != 0 ==> other.norm() != 0,
        ensures
            b == if other.value == 0 { *self } else { BitVec::of((self.norm() % other.norm()) as int, self.width) },
    {
        if other.value == 0 {
            *self
        } else {
            BitVec::new(self.normalize() % other.normalize(), self.width)
        }
    }

    /// Signed (truncating) division; division by a zero value gives all ones.
    pub fn sdiv(&self, other: &BitVec) -> (b: BitVec)
        requires
            width_ok(self.width as int),
            self.width == other.width,
            other.value != 0 ==> other.signed() != 0 && !(self.signed() == i64::MIN && other.signed() == -1),
        ensures
            b == if other.value == 0 {
                BitVec::of(pow2(self.width as nat) - 1, self.width)
            } else {
                BitVec::of(tdiv(self.signed(), other.signed()), self.width)
            },
    {
        if other.value == 0 {
            BitVec::ones(self.width)
        } else {
            let a = self.to_signed();
            let c = other.to_signed();
            let q = signed_div(a, c);
            BitVec::from_signed(q, self.width)
        }
    }

    /// Signed remainder (sign of the dividend); the remainder by a zero value is the dividend.
    pub fn srem(&self, other: &BitVec) -> (b: BitVec)
        requires
            width_ok(self.width as int),
            self.width == other.width,
            other.value != 0 ==> other.signed() != 0 && !(self.signed() == i64::MIN && other.signed() == -1),
        ensures
            b == if other.value == 0 { *self } else { BitVec::of(trem(self.signed(), other.signed()), self.width) },
    {
        if other.value == 0 {
            *self
        } else {
            let a = self.to_signed();
            let c = other.to_signed();
            let r = signed_rem(a, c);
            BitVec::from_signed(r, self.width)
        }
    }

    /// The shift amount: `amount`'s value, capped at the width.
    pub open spec fn shift_of(self, amount: BitVec) -> nat {
        if amount.value < self.width { amount.value as nat } else { self.width as nat }
    }

    /// Shift left, filling with zeros; an amount of at least the width gives zero.
    pub fn shl_bv(&self, amount: &BitVec) -> (b: BitVec)
        requires
            width_ok(self.width as int),
        ensures
            b == BitVec::of(self.value * pow2(self.shift_of(*amount)), self.width),
    {
        let shift: u32 = if amount.value < self.width as u64 { amount.value as u32 } else { self.width };
        self.shift_left(shift)
    }

    /// Shift left by `shift` bits.
    fn shift_left(&self, shift: u32) -> (b: BitVec)
        requires
            width_ok(self.width as int),
            shift <= self.width,
        ensures
            b == BitVec::of(self.value * pow2(shift as nat), self.width),
    {
        let w = self.width;
        proof {
            lemma_pow2_pos(shift as nat);
            lemma_pow2_pos(w as nat);
            lemma_pow2_pos((w - shift) as nat);
            lemma_pow2_adds((w - shift) as nat, shift as nat);
        }
        if shift == w {
            proof {
                lemma_mod_multiples_vanish(self.value as int, 0, pow2(w as nat) as int);
                assert(self.value * pow2(shift as nat) == pow2(w as nat) * self.value + 0) by (nonlinear_arith)
                    requires
                        pow2(shift as nat) == pow2(w as nat),
                ;
            }
            BitVec::zero(w)
        } else {
            let m = mask_for(w - shift);
            let low = self.value & m;
            proof {
                lemma_and_mask(self.value, (w - shift) as nat);
                if shift > 0 {
                    lemma_pow2_strictly_increases((w - shift) as nat, w as nat);
                }
                lemma2_to64();
                if w < 64 {
                    lemma_pow2_strictly_increases(w as nat, 64);
                }
                let d = pow2((w - shift) as nat) as int;
                let e = pow2(shift as nat) as int;
                let v = self.value as int;
                lemma_fundamental_div_mod(v, d);
                lemma_mod_pos_bound(v, d);
                assert(low * e < pow2(w as nat)) by (nonlinear_arith)
                    requires
                        0 <= low < d,
                        e > 0,
                        d * e == pow2(w as nat),
                ;
                assert(v * e == d * e * (v / d) + low * e) by (nonlinear_arith)
                    requires
                        v == d * (v / d) + low,
                ;
                lemma_mod_multiples_vanish(v / d, low * e, d * e);
                lemma_small_mod((low * e) as nat, pow2(w as nat));
                lemma_u64_shl_is_mul(low, shift as u64);
            }
            BitVec::new(low << (shift as u64), w)
        }
    }

    /// Logical shift right; an amount of at least the width gives zero.
    pub fn lshr(&self, amount: &BitVec) -> (b: BitVec)
        requires
            width_ok(self.width as int),
        ensures
            b == BitVec::of((self.norm() / pow2(self.shift_of(*amount))) as int, self.width),
    {
        let shift: u32 = if amount.value < self.width as u64 { amount.value as u32 } else { self.width };
        let v = self.normalize();
        if shift == 64 {
            proof {
                vstd::arithmetic::div_mod::lemma_basic_div(v as int, pow2(64) as int);
            }
            return BitVec::new(0, self.width);
        }
        proof {
            lemma_u64_shr_is_div(v, shift as u64);
        }
        BitVec::new(v >> (shift as u64), self.width)
    }

    /// Arithmetic shift right (rounding towards minus infinity).
    pub fn ashr(&self, amount: &BitVec) -> (b: BitVec)
        requires
            width_ok(self.width as int),
        ensures
            b == BitVec::of(self.signed() / pow2(self.shift_of(*amount)) as int, self.width),
    {
        let shift: u32 = if amount.value < self.width as u64 { amount.value as u32 } else { self.width };
        let s = self.to_signed();
        if shift == 64 {
            let q: i64 = if s >= 0 { 0 } else { -1 };
            proof {
                lemma2_to64();
                let d = pow2(64) as int;
                if s >= 0 {
                    vstd::arithmetic::div_mod::lemma_basic_div(s as int, d);
                } else {
                    vstd::arithmetic::div_mod::lemma_fundamental_div_mod_converse_div(s as int, d, -1, s as int + d);
                }
                assert(q == self.signed() / pow2(64) as int);
            }
            return BitVec::from_signed(q, self.width);
        }
        proof {
            lemma_u64_pow2_no_overflow(shift as nat);
            lemma_u64_shl_is_mul(1, shift as u64);
            lemma_pow2_pos(shift as nat);
        }
        let d: i128 = (1u64 << (shift as u64)) as i128;
        let q: i128 = if s >= 0 {
            (s as i128) / d
        } else {
            let a: i128 = -(s as i128) - 1;
            let qa = a / d;
            proof {
                lemma_fundamental_div_mod(a as int, d as int);
                lemma_mod_pos_bound(a as int, d as int);
                let r = a as int % d as int;
                assert(s as int == (-qa - 1) * d + (d - r - 1)) by (nonlinear_arith)
                    requires
                        a == d * qa + r,
                        a == -(s as int) - 1,
                ;
                vstd::arithmetic::div_mod::lemma_fundamental_div_mod_converse_div(s as int, d as int, -qa - 1, d - r - 1);
            }
            -qa - 1
        };
        proof {
            assert(q == s as int / d as int);
            vstd::arithmetic::div_mod::lemma_div_is_ordered_by_denominator(if s >= 0 { s as int } else { -(s as int) }, 1, d as int);
        }
        assert(i64::MIN <= q <= i64::MAX) by (nonlinear_arith)
            requires
                q == s as int / d as int,
                d >= 1,
                i64::MIN <= s <= i64::MAX,
        ;
        BitVec::from_signed(q as i64, self.width)
    }

    /// Concatenation: `self` in the high bits, `other` in the low bits.
    pub fn concat(&self, other: &BitVec) -> (b: BitVec)
        requires
            width_ok(self.width as int),
            width_ok(other.width as int),
            self.width + other.width <= 64,
        ensures
            b.width == self.width + other.width,
            b.value == self.norm() * pow2(other.width as nat) + other.norm(),
    {
        let new_width = self.width + other.width;
        let hi = self.normalize();
        let lo = other.normalize();
        proof {
            lemma_pow2_adds(self.width as nat, other.width as nat);
            lemma_pow2_pos(other.width as nat);
            lemma_u64_pow2_no_overflow(other.width as nat);
            lemma2_to64();
            if new_width < 64 {
                lemma_pow2_strictly_increases(new_width as nat, 64);
            }
            assert(hi * pow2(other.width as nat) + lo < pow2(new_width as nat)) by (nonlinear_arith)
                requires
                    hi < pow2(self.width as nat),
                    lo < pow2(other.width as nat),
                    pow2(self.width as nat) * pow2(other.width as nat) == pow2(new_width as nat),
            ;
            lemma_u64_shl_is_mul(hi, other.width as u64);
            lemma_small_mod((hi * pow2(other.width as nat) + lo) as nat, pow2(new_width as nat));
        }
        let result = (hi << (other.width as u64)) + lo;
        BitVec::new(result, new_width)
    }

    /// The bits `high` down to `low` (inclusive).
    pub fn extract(&self, high: u32, low: u32) -> (b: BitVec)
        requires
            width_ok(self.width as int),
            low <= high < self.width,
        ensures
            b == BitVec::of((self.norm() / pow2(low as nat)) as int, (high - low + 1) as u32),
    {
        let new_width = high - low + 1;
        let v = self.normalize();
        if new_width == 64 {
            proof {
                assert(low == 0);
                assert(pow2(0) == 1) by {
                    vstd::arithmetic::power2::lemma2_to64();
                }
                let n = self.norm() as int;
                assert(n / 1 == n) by (nonlinear_arith);
                assert(self.norm() / pow2(low as nat) == self.norm());
            }
            return BitVec::new(v, 64);
        }
        let m = mask_for(new_width);
        proof {
            lemma_u64_shr_is_div(v, low as u64);
            lemma_and_mask(v >> (low as u64), new_width as nat);
        }
        let result = (v >> (low as u64)) & m;
        proof {
            lemma_pow2_pos(new_width as nat);
            lemma_small_mod(result as nat, pow2(new_width as nat));
            vstd::arithmetic::div_mod::lemma_mod_twice((v as nat / pow2(low as nat)) as int, pow2(new_width as nat) as int);
        }
        BitVec::new(result, new_width)
    }

    /// Widen by `extra_bits` zero bits.
    pub fn zero_extend(&self, extra_bits: u32) -> (b: BitVec)
        requires
            width_ok(self.width as int),
            width_ok(self.width + extra_bits),
        ensures
            b.width == self.width + extra_bits,
            b.value == self.norm(),
    {
        let v = self.normalize();
        proof {
            if extra_bits > 0 {
                lemma_pow2_strictly_increases(self.width as nat, (self.width + extra_bits) as nat);
            }
            lemma_small_mod(v as nat, pow2((self.width + extra_bits) as nat));
        }
        BitVec::new(v, self.width + extra_bits)
    }

    /// Widen by `extra_bits` copies of the sign bit.
    pub fn sign_extend(&self, extra_bits: u32) -> (b: BitVec)
        requires
            width_ok(self.width as int),
            width_ok(self.width + extra_bits),
        ensures
            b == BitVec::of(self.signed(), (self.width + extra_bits) as u32),
    {
        let s = self.to_signed();
        BitVec::from_signed(s, self.width + extra_bits)
    }
}

/// `x` and `x - 2^64` agree modulo `2^w`.
proof fn lemma_sub_2_64_mod(x: int, w: nat)
    requires
        w <= 64,
    ensures
        (x - pow2(64)) % pow2(w) as int == x % pow2(w) as int,
        (x + pow2(64)) % pow2(w) as int == x % pow2(w) as int,
{
    lemma_pow2_pos(w);
    lemma_pow2_adds(w, (64 - w) as nat);
    let k = pow2((64 - w) as nat) as int;
    assert(pow2(w) * k == pow2(64));
    lemma_mod_multiples_vanish(-k, x, pow2(w) as int);
    lemma_mod_multiples_vanish(k, x, pow2(w) as int);
    assert(pow2(w) * (-k) + x == x - pow2(64)) by (nonlinear_arith)
        requires
            pow2(w) * k == pow2(64),
    ;
}

impl std::ops::Not for BitVec {
    type Output = BitVec;

    fn not(self) -> (b: BitVec) {
        BitVec::new(!self.value, self.width)
    }
}

impl vstd::std_specs::ops::NotSpecImpl for BitVec {
    open spec fn obeys_not_spec() -> bool {
        true
    }

    open spec fn not_req(self) -> bool {
        width_ok(self.width as int)
    }

    open spec fn not_spec(self) -> BitVec {
        BitVec::of((!self.value) as int, self.width)
    }
}

impl std::ops::BitAnd for BitVec {
    type Output = BitVec;

    fn bitand(self, rhs: BitVec) -> (b: BitVec) {
        BitVec::new(self.value & rhs.value, self.width)
    }
}

impl vstd::std_specs::ops::BitAndSpecImpl for BitVec {
    open spec fn obeys_bitand_spec() -> bool {
        true
    }

    open spec fn bitand_req(self, rhs: BitVec) -> bool {
        width_ok(self.width as int) && self.width == rhs.width
    }

    open spec fn bitand_spec(self, rhs: BitVec) -> BitVec {
        BitVec::of((self.value & rhs.value) as int, self.width)
    }
}

impl std::ops::BitOr for BitVec {
    type Output = BitVec;

    fn bitor(self, rhs: BitVec) -> (b: BitVec) {
        BitVec::new(self.value | rhs.value, self.width)
    }
}

impl vstd::std_specs::ops::BitOrSpecImpl for BitVec {
    open spec fn obeys_bitor_spec() -> bool {
        true
    }

    open spec fn bitor_req(self, rhs: BitVec) -> bool {
        width_ok(self.width as int) && self.width == rhs.width
    }

    open spec fn bitor_spec(self, rhs: BitVec) -> BitVec {
        BitVec::of((self.value | rhs.value) as int, self.width)
    }
}

impl std::ops::BitXor for BitVec {
    type Output = BitVec;

    fn bitxor(self, rhs: BitVec) -> (b: BitVec) {
        BitVec::new(self.value ^ rhs.value, self.width)
    }
}

impl vstd::std_specs::ops::BitXorSpecImpl for BitVec {
    open spec fn obeys_bitxor_spec() -> bool {
        true
    }

    open spec fn bitxor_req(self, rhs: BitVec) -> bool {
        width_ok(self.width as int) && self.width == rhs.width
    }

    open spec fn bitxor_spec(self, rhs: BitVec) -> BitVec {
        BitVec::of((self.value ^ rhs.value) as int, self.width)
    }
}

impl std::ops::Add for BitVec {
    type Output = BitVec;

    fn add(self, rhs: BitVec) -> (b: BitVec) {
        let v = self.value.wrapping_add(rhs.value);
        proof {
            lemma2_to64();
            lemma_sub_2_64_mod(self.value + rhs.value, self.width as nat);
        }
        BitVec::new(v, self.width)
    }
}

impl vstd::std_specs::ops::AddSpecImpl for BitVec {
    open spec fn obeys_add_spec() -> bool {
        true
    }

    open spec fn add_req(self, rhs: BitVec) -> bool {
        width_ok(self.width as int) && self.width == rhs.width
    }

    open spec fn add_spec(self, rhs: BitVec) -> BitVec {
        BitVec::of(self.value + rhs.value, self.width)
    }
}

impl std::ops::Sub for BitVec {
    type Output = BitVec;

    fn sub(self, rhs: BitVec) -> (b: BitVec) {
        let v = self.value.wrapping_sub(rhs.value);
        proof {
            lemma2_to64();
            lemma_sub_2_64_mod(self.value - rhs.value, self.width as nat);
        }
        BitVec::new(v, self.width)
    }
}

impl vstd::std_specs::ops::SubSpecImpl for BitVec {
    open spec fn obeys_sub_spec() -> bool {
        true
    }

    open spec fn sub_req(self, rhs: BitVec) -> bool {
        width_ok(self.width as int) && self.width == rhs.width
    }

    open spec fn sub_spec(self, rhs: BitVec) -> BitVec {
        BitVec::of(self.value - rhs.value, self.width)
    }
}

impl std::ops::Mul for BitVec {
    type Output = BitVec;

    fn mul(self, rhs: BitVec) -> (b: BitVec) {
        let v = self.value.wrapping_mul(rhs.value);
        proof {
            lemma2_to64();
            lemma_mod64_mod(self.value * rhs.value, self.width as nat);
        }
        BitVec::new(v, self.width)
    }
}

impl vstd::std_specs::ops::MulSpecImpl for BitVec {
    open spec fn obeys_mul_spec() -> bool {
        true
    }

    open spec fn mul_req(self, rhs: BitVec) -> bool {
        width_ok(self.width as int) && self.width == rhs.width
    }

    open spec fn mul_spec(self, rhs: BitVec) -> BitVec {
        BitVec::of(self.value * rhs.value, self.width)
    }
}

/// The smaller of a shift amount and a width.
pub open spec fn capped(rhs: u32, w: u32) -> nat {
    if rhs < w { rhs as nat } else { w as nat }
}

impl std::ops::Shl<u32> for BitVec {
    type Output = BitVec;

    fn shl(self, rhs: u32) -> (b: BitVec) {
        let shift = if rhs < self.width { rhs } else { self.width };
        self.shift_left(shift)
    }
}

impl vstd::std_specs::ops::ShlSpecImpl<u32> for BitVec {
    open spec fn obeys_shl_spec() -> bool {
        true
    }

    open spec fn shl_req(self, rhs: u32) -> bool {
        width_ok(self.width as int) && capped(rhs, self.width) < 64
    }

    open spec fn shl_spec(self, rhs: u32) -> BitVec {
        BitVec::of(self.value * pow2(capped(rhs, self.width)), self.width)
    }
}

impl std::ops::Shr<u32> for BitVec {
    type Output = BitVec;

    fn shr(self, rhs: u32) -> (b: BitVec) {
        let shift = if rhs < self.width { rhs } else { self.width };
        let v = self.normalize();
        proof {
            lemma_u64_shr_is_div(v, shift as u64);
        }
        BitVec::new(v >> (shift as u64), self.width)
    }
}

impl vstd::std_specs::ops::ShrSpecImpl<u32> for BitVec {
    open spec fn obeys_shr_spec() -> bool {
        true
    }

    open spec fn shr_req(self, rhs: u32) -> bool {
        width_ok(self.width as int) && capped(rhs, self.width) < 64
    }

    open spec fn shr_spec(self, rhs: u32) -> BitVec {
        BitVec::of((self.norm() / pow2(capped(rhs, self.width))) as int, self.width)
    }
}

/// A structural copy of a term.
fn copy_term(t: &BvTerm) -> (r: BvTerm)
    ensures
        r == *t,
    decreases t,
{
    match t {
        BvTerm::Const(bv) => BvTerm::Const(*bv),
        BvTerm::Var(id, w) => BvTerm::Var(*id, *w),
        BvTerm::Not(a) => BvTerm::Not(Box::new(copy_term(a))),
        BvTerm::And(a, b) => BvTerm::And(Box::new(copy_term(a)), Box::new(copy_term(b))),
        BvTerm::Or(a, b) => BvTerm::Or(Box::new(copy_term(a)), Box::new(copy_term(b))),
        BvTerm::Xor(a, b) => BvTerm::Xor(Box::new(copy_term(a)), Box::new(copy_term(b))),
        BvTerm::Add(a, b) => BvTerm::Add(Box::new(copy_term(a)), Box::new(copy_term(b))),
        BvTerm::Sub(a, b) => BvTerm::Sub(Box::new(copy_term(a)), Box::new(copy_term(b))),
        BvTerm::Mul(a, b) => BvTerm::Mul(Box::new(copy_term(a)), Box::new(copy_term(b))),
        BvTerm::Udiv(a, b) => BvTerm::Udiv(Box::new(copy_term(a)), Box::new(copy_term(b))),
        BvTerm::Sdiv(a, b) => BvTerm::Sdiv(Box::new(copy_term(a)), Box::new(copy_term(b))),
        BvTerm::Urem(a, b) => BvTerm::Urem(Box::new(copy_term(a)), Box::new(copy_term(b))),
        BvTerm::Srem(a, b) => BvTerm::Srem(Box::new(copy_term(a)), Box::new(copy_term(b))),
        BvTerm::Shl(a, b) => BvTerm::Shl(Box::new(copy_term(a)), Box::new(copy_term(b))),
        BvTerm::Lshr(a, b) => BvTerm::Lshr(Box::new(copy_term(a)), Box::new(copy_term(b))),
        BvTerm::Ashr(a, b) => BvTerm::Ashr(Box::new(copy_term(a)), Box::new(copy_term(b))),
        BvTerm::Concat(a, b) => BvTerm::Concat(Box::new(copy_term(a)), Box::new(copy_term(b))),
        BvTerm::Extract(h, l, a) => BvTerm::Extract(*h, *l, Box::new(copy_term(a))),
        BvTerm::ZeroExtend(e, a) => BvTerm::ZeroExtend(*e, Box::new(copy_term(a))),
        BvTerm::SignExtend(e, a) => BvTerm::SignExtend(*e, Box::new(copy_term(a))),
    }
}

impl Clone for BvTerm {
    fn clone(&self) -> (r: BvTerm)
        ensures
            r == *self,
    {
        copy_term(self)
    }
}

/// Variable identifier.
pub type BvVarId = u32;

/// A bitvector term.
#[derive(Debug)]
pub enum BvTerm {
    /// Constant.
    Const(BitVec),
    /// Variable: identifier and width.
    Var(BvVarId, u32),
    /// Bitwise not.
    Not(Box<BvTerm>),
    /// Bitwise and.
    And(Box<BvTerm>, Box<BvTerm>),
    /// Bitwise or.
    Or(Box<BvTerm>, Box<BvTerm>),
    /// Bitwise xor.
    Xor(Box<BvTerm>, Box<BvTerm>),
    /// Addition.
    Add(Box<BvTerm>, Box<BvTerm>),
    /// Subtraction.
    Sub(Box<BvTerm>, Box<BvTerm>),
    /// Multiplication.
    Mul(Box<BvTerm>, Box<BvTerm>),
    /// Unsigned division.
    Udiv(Box<BvTerm>, Box<BvTerm>),
    /// Signed division.
    Sdiv(Box<BvTerm>, Box<BvTerm>),
    /// Unsigned remainder.
    Urem(Box<BvTerm>, Box<BvTerm>),
    /// Signed remainder.
    Srem(Box<BvTerm>, Box<BvTerm>),
    /// Shift left.
    Shl(Box<BvTerm>, Box<BvTerm>),
    /// Logical shift right.
    Lshr(Box<BvTerm>, Box<BvTerm>),
    /// Arithmetic shift right.
    Ashr(Box<BvTerm>, Box<BvTerm>),
    /// Concatenation.
    Concat(Box<BvTerm>, Box<BvTerm>),
    /// Extraction of bits high..low: (high, low, term).
    Extract(u32, u32, Box<BvTerm>),
    /// Zero extension by a number of bits.
    ZeroExtend(u32, Box<BvTerm>),
    /// Sign extension by a number of bits.
    SignExtend(u32, Box<BvTerm>),
}

/// The width of a term, computed over the integers.
pub open spec fn term_width(t: BvTerm) -> int
    decreases t,
{
    match t {
        BvTerm::Const(bv) => bv.width as int,
        BvTerm::Var(_, w) => w as int,
        BvTerm::Not(a) => term_width(*a),
        BvTerm::And(a, _) => term_width(*a),
        BvTerm::Or(a, _) => term_width(*a),
        BvTerm::Xor(a, _) => term_width(*a),
        BvTerm::Add(a, _) => term_width(*a),
        BvTerm::Sub(a, _) => term_width(*a),
        BvTerm::Mul(a, _) => term_width(*a),
        BvTerm::Udiv(a, _) => term_width(*a),
        BvTerm::Sdiv(a, _) => term_width(*a),
        BvTerm::Urem(a, _) => term_width(*a),
        BvTerm::Srem(a, _) => term_width(*a),
        BvTerm::Shl(a, _) => term_width(*a),
        BvTerm::Lshr(a, _) => term_width(*a),
        BvTerm::Ashr(a, _) => term_width(*a),
        BvTerm::Concat(a, b) => term_width(*a) + term_width(*b),
        BvTerm::Extract(high, low, _) => high - low + 1,
        BvTerm::ZeroExtend(extra, a) => term_width(*a) + extra,
        BvTerm::SignExtend(extra, a) => term_width(*a) + extra,
    }
}

/// Whether computing the width of `t` stays within `u32`.
pub open spec fn width_fits(t: BvTerm) -> bool
    decreases t,
{
    match t {
        BvTerm::Const(_) => true,
        BvTerm::Var(_, _) => true,
        BvTerm::Not(a) => width_fits(*a),
        BvTerm::And(a, _) => width_fits(*a),
        BvTerm::Or(a, _) => width_fits(*a),
        BvTerm::Xor(a, _) => width_fits(*a),
        BvTerm::Add(a, _) => width_fits(*a),
        BvTerm::Sub(a, _) => width_fits(*a),
        BvTerm::Mul(a, _) => width_fits(*a),
        BvTerm::Udiv(a, _) => width_fits(*a),
        BvTerm::Sdiv(a, _) => width_fits(*a),
        BvTerm::Urem(a, _) => width_fits(*a),
        BvTerm::Srem(a, _) => width_fits(*a),
        BvTerm::Shl(a, _) => width_fits(*a),
        BvTerm::Lshr(a, _) => width_fits(*a),
        BvTerm::Ashr(a, _) => width_fits(*a),
        BvTerm::Concat(a, b) => width_fits(*a) && width_fits(*b) && term_width(*a) + term_width(*b) <= u32::MAX,
        BvTerm::Extract(high, low, _) => low <= high && high - low < u32::MAX,
        BvTerm::ZeroExtend(extra, a) => width_fits(*a) && term_width(*a) + extra <= u32::MAX,
        BvTerm::SignExtend(extra, a) => width_fits(*a) && term_width(*a) + extra <= u32::MAX,
    }
}

/// The width of a term is non-negative and at most `u32::MAX` when its computation fits.
#[verifier::spinoff_prover]
pub proof fn lemma_term_width_range(t: BvTerm)
    requires
        width_fits(t),
    ensures
        0 <= term_width(t) <= u32::MAX,
    decreases t,
{
    match t {
        BvTerm::Const(bv) => {
            assert(term_width(t) == bv.width as int);
        },
        BvTerm::Var(_, w) => {
            assert(term_width(t) == w as int);
        },
        BvTerm::Not(a) => lemma_term_width_range(*a),
        BvTerm::And(a, _) => lemma_term_width_range(*a),
        BvTerm::Or(a, _) => lemma_term_width_range(*a),
        BvTerm::Xor(a, _) => lemma_term_width_range(*a),
        BvTerm::Add(a, _) => lemma_term_width_range(*a),
        BvTerm::Sub(a, _) => lemma_term_width_range(*a),
        BvTerm::Mul(a, _) => lemma_term_width_range(*a),
        BvTerm::Udiv(a, _) => lemma_term_width_range(*a),
        BvTerm::Sdiv(a, _) => lemma_term_width_range(*a),
        BvTerm::Urem(a, _) => lemma_term_width_range(*a),
        BvTerm::Srem(a, _) => lemma_term_width_range(*a),
        BvTerm::Shl(a, _) => lemma_term_width_range(*a),
        BvTerm::Lshr(a, _) => lemma_term_width_range(*a),
        BvTerm::Ashr(a, _) => lemma_term_width_range(*a),
        BvTerm::Concat(a, b) => {
            lemma_term_width_range(*a);
            lemma_term_width_range(*b);
        },
        BvTerm::Extract(_, _, _) => {},
        BvTerm::ZeroExtend(_, a) => lemma_term_width_range(*a),
        BvTerm::SignExtend(_, a) => lemma_term_width_range(*a),
    }
}

/// The value of a variable: its binding, or zero of its width when unbound.
pub open spec fn var_value(env: Map<u32, BitVec>, id: u32, w: u32) -> BitVec {
    if env.contains_key(id) { env[id] } else { BitVec::of(0, w) }
}

/// Whether a binary operation on `a` and `b` is defined (equal widths, a valid width).
pub open spec fn same_width(a: BitVec, b: BitVec) -> bool {
    width_ok(a.width as int) && a.width == b.width
}

/// The value of `t` under the variable bindings `env`.
pub open spec fn eval(t: BvTerm, env: Map<u32, BitVec>) -> BitVec
    decreases t,
{
    match t {
        BvTerm::Const(bv) => bv,
        BvTerm::Var(id, w) => var_value(env, id, w),
        BvTerm::Not(a) => BitVec::of((!eval(*a, env).value) as int, eval(*a, env).width),
        BvTerm::And(a, b) => BitVec::of((eval(*a, env).value & eval(*b, env).value) as int, eval(*a, env).width),
        BvTerm::Or(a, b) => BitVec::of((eval(*a, env).value | eval(*b, env).value) as int, eval(*a, env).width),
        BvTerm::Xor(a, b) => BitVec::of((eval(*a, env).value ^ eval(*b, env).value) as int, eval(*a, env).width),
        BvTerm::Add(a, b) => BitVec::of(eval(*a, env).value + eval(*b, env).value, eval(*a, env).width),
        BvTerm::Sub(a, b) => BitVec::of(eval(*a, env).value - eval(*b, env).value, eval(*a, env).width),
        BvTerm::Mul(a, b) => BitVec::of(eval(*a, env).value * eval(*b, env).value, eval(*a, env).width),
        BvTerm::Udiv(a, b) => {
            let (x, y) = (eval(*a, env), eval(*b, env));
            if y.value == 0 { BitVec::of(pow2(x.width as nat) - 1, x.width) } else { BitVec::of((x.norm() / y.norm()) as int, x.width) }
        },
        BvTerm::Sdiv(a, b) => {
            let (x, y) = (eval(*a, env), eval(*b, env));
            if y.value == 0 { BitVec::of(pow2(x.width as nat) - 1, x.width) } else { BitVec::of(tdiv(x.signed(), y.signed()), x.width) }
        },
        BvTerm::Urem(a, b) => {
            let (x, y) = (eval(*a, env), eval(*b, env));
            if y.value == 0 { x } else { BitVec::of((x.norm() % y.norm()) as int, x.width) }
        },
        BvTerm::Srem(a, b) => {
            let (x, y) = (eval(*a, env), eval(*b, env));
            if y.value == 0 { x } else { BitVec::of(trem(x.signed(), y.signed()), x.width) }
        },
        BvTerm::Shl(a, b) => {
            let (x, y) = (eval(*a, env), eval(*b, env));
            BitVec::of(x.value * pow2(x.shift_of(y)), x.width)
        },
        BvTerm::Lshr(a, b) => {
            let (x, y) = (eval(*a, env), eval(*b, env));
            BitVec::of((x.norm() / pow2(x.shift_of(y))) as int, x.width)
        },
        BvTerm::Ashr(a, b) => {
            let (x, y) = (eval(*a, env), eval(*b, env));
            BitVec::of(x.signed() / pow2(x.shift_of(y)) as int, x.width)
        },
        BvTerm::Concat(a, b) => {
            let (x, y) = (eval(*a, env), eval(*b, env));
            BitVec { value: (x.norm() * pow2(y.width as nat) + y.norm()) as u64, width: (x.width + y.width) as u32 }
        },
        BvTerm::Extract(high, low, a) => BitVec::of((eval(*a, env).norm() / pow2(low as nat)) as int, (high - low + 1) as u32),
        BvTerm::ZeroExtend(extra, a) => BitVec { value: eval(*a, env).norm() as u64, width: (eval(*a, env).width + extra) as u32 },
        BvTerm::SignExtend(extra, a) => BitVec::of(eval(*a, env).signed(), (eval(*a, env).width + extra) as u32),
    }
}

/// Whether evaluating `t` under `env` stays within the operations' requirements
/// (valid and matching widths, no division overflow, shifts below 64).
pub open spec fn eval_safe(t: BvTerm, env: Map<u32, BitVec>) -> bool
    decreases t,
{
    match t {
        BvTerm::Const(_) => true,
        BvTerm::Var(id, w) => env.contains_key(id) || width_ok(w as int),
        BvTerm::Not(a) => eval_safe(*a, env) && width_ok(eval(*a, env).width as int),
        BvTerm::And(a, b) => eval_safe(*a, env) && eval_safe(*b, env) && same_width(eval(*a, env), eval(*b, env)),
        BvTerm::Or(a, b) => eval_safe(*a, env) && eval_safe(*b, env) && same_width(eval(*a, env), eval(*b, env)),
        BvTerm::Xor(a, b) => eval_safe(*a, env) && eval_safe(*b, env) && same_width(eval(*a, env), eval(*b, env)),
        BvTerm::Add(a, b) => eval_safe(*a, env) && eval_safe(*b, env) && same_width(eval(*a, env), eval(*b, env)),
        BvTerm::Sub(a, b) => eval_safe(*a, env) && eval_safe(*b, env) && same_width(eval(*a, env), eval(*b, env)),
        BvTerm::Mul(a, b) => eval_safe(*a, env) && eval_safe(*b, env) && same_width(eval(*a, env), eval(*b, env)),
        BvTerm::Udiv(a, b) => eval_safe(*a, env) && eval_safe(*b, env) && same_width(eval(*a, env), eval(*b, env))
            && (eval(*b, env).value != 0 ==> eval(*b, env).norm() != 0),
        BvTerm::Urem(a, b) => eval_safe(*a, env) && eval_safe(*b, env) && same_width(eval(*a, env), eval(*b, env))
            && (eval(*b, env).value != 0 ==> eval(*b, env).norm() != 0),
        BvTerm::Sdiv(a, b) => eval_safe(*a, env) && eval_safe(*b, env) && same_width(eval(*a, env), eval(*b, env))
            && (eval(*b, env).value != 0 ==> eval(*b, env).signed() != 0 && !(eval(*a, env).signed() == i64::MIN && eval(*b, env).signed() == -1)),
        BvTerm::Srem(a, b) => eval_safe(*a, env) && eval_safe(*b, env) && same_width(eval(*a, env), eval(*b, env))
            && (eval(*b, env).value != 0 ==> eval(*b, env).signed() != 0 && !(eval(*a, env).signed() == i64::MIN && eval(*b, env).signed() == -1)),
        BvTerm::Shl(a, b) => eval_safe(*a, env) && eval_safe(*b, env) && width_ok(eval(*a, env).width as int),
        BvTerm::Lshr(a, b) => eval_safe(*a, env) && eval_safe(*b, env) && width_ok(eval(*a, env).width as int),
        BvTerm::Ashr(a, b) => eval_safe(*a, env) && eval_safe(*b, env) && width_ok(eval(*a, env).width as int),
        BvTerm::Concat(a, b) => eval_safe(*a, env) && eval_safe(*b, env) && width_ok(eval(*a, env).width as int)
            && width_ok(eval(*b, env).width as int) && eval(*a, env).width + eval(*b, env).width <= 64,
        BvTerm::Extract(high, low, a) => eval_safe(*a, env) && width_ok(eval(*a, env).width as int)
            && low <= high < eval(*a, env).width,
        BvTerm::ZeroExtend(extra, a) => eval_safe(*a, env) && width_ok(eval(*a, env).width as int)
            && width_ok(eval(*a, env).width + extra),
        BvTerm::SignExtend(extra, a) => eval_safe(*a, env) && width_ok(eval(*a, env).width as int)
            && width_ok(eval(*a, env).width + extra),
    }
}

/// Whether every variable of `t` is bound in `env`.
pub open spec fn concrete(t: BvTerm, env: Map<u32, BitVec>) -> bool
    decreases t,
{
    match t {
        BvTerm::Const(_) => true,
        BvTerm::Var(id, _) => env.contains_key(id),
        BvTerm::Not(a) => concrete(*a, env),
        BvTerm::And(a, b) => concrete(*a, env) && concrete(*b, env),
        BvTerm::Or(a, b) => concrete(*a, env) && concrete(*b, env),
        BvTerm::Xor(a, b) => concrete(*a, env) && concrete(*b, env),
        BvTerm::Add(a, b) => concrete(*a, env) && concrete(*b, env),
        BvTerm::Sub(a, b) => concrete(*a, env) && concrete(*b, env),
        BvTerm::Mul(a, b) => concrete(*a, env) && concrete(*b, env),
        BvTerm::Udiv(a, b) => concrete(*a, env) && concrete(*b, env),
        BvTerm::Sdiv(a, b) => concrete(*a, env) && concrete(*b, env),
        BvTerm::Urem(a, b) => concrete(*a, env) && concrete(*b, env),
        BvTerm::Srem(a, b) => concrete(*a, env) && concrete(*b, env),
        BvTerm::Shl(a, b) => concrete(*a, env) && concrete(*b, env),
        BvTerm::Lshr(a, b) => concrete(*a, env) && concrete(*b, env),
        BvTerm::Ashr(a, b) => concrete(*a, env) && concrete(*b, env),
        BvTerm::Concat(a, b) => concrete(*a, env) && concrete(*b, env),
        BvTerm::Extract(_, _, a) => concrete(*a, env),
        BvTerm::ZeroExtend(_, a) => concrete(*a, env),
        BvTerm::SignExtend(_, a) => concrete(*a, env),
    }
}

impl BvTerm {
    /// The width of the term.
    pub fn width(&self) -> (w: u32)
        requires
            width_fits(*self),
        ensures
            w == term_width(*self),
        decreases self,
    {
        proof {
            lemma_term_width_range(*self);
        }
        match self {
            BvTerm::Const(bv) => bv.width,
            BvTerm::Var(_, w) => *w,
            BvTerm::Not(t) => t.width(),
            BvTerm::And(a, _) => a.width(),
            BvTerm::Or(a, _) => a.width(),
            BvTerm::Xor(a, _) => a.width(),
            BvTerm::Add(a, _) => a.width(),
            BvTerm::Sub(a, _) => a.width(),
            BvTerm::Mul(a, _) => a.width(),
            BvTerm::Udiv(a, _) => a.width(),
            BvTerm::Sdiv(a, _) => a.width(),
            BvTerm::Urem(a, _) => a.width(),
            BvTerm::Srem(a, _) => a.width(),
            BvTerm::Shl(a, _) => a.width(),
            BvTerm::Lshr(a, _) => a.width(),
            BvTerm::Ashr(a, _) => a.width(),
            BvTerm::Concat(a, b) => a.width() + b.width(),
            BvTerm::Extract(high, low, _) => high - low + 1,
            BvTerm::ZeroExtend(extra, t) => t.width() + extra,
            BvTerm::SignExtend(extra, t) => t.width() + extra,
        }
    }

    /// Evaluate the term under the variable bindings `env` (unbound variables are zero).
    pub fn evaluate(&self, env: &HashMap<BvVarId, BitVec>) -> (r: Option<BitVec>)
        requires
            eval_safe(*self, env@),
        ensures
            r == Some(eval(*self, env@)),
        decreases self,
    {
        broadcast use vstd::std_specs::hash::group_hash_axioms;
        match self {
            BvTerm::Const(bv) => Some(*bv),
            BvTerm::Var(id, w) => {
                match env.get(id) {
                    Some(v) => Some(*v),
                    None => Some(BitVec::zero(*w)),
                }
            },
            BvTerm::Not(t) => {
                let v = t.evaluate(env)?;
                Some(v.not())
            },
            BvTerm::And(a, b) => {
                let va = a.evaluate(env)?;
                let vb = b.evaluate(env)?;
                Some(va.bitand(vb))
            },
            BvTerm::Or(a, b) => {
                let va = a.evaluate(env)?;
                let vb = b.evaluate(env)?;
                Some(va.bitor(vb))
            },
            BvTerm::Xor(a, b) => {
                let va = a.evaluate(env)?;
                let vb = b.evaluate(env)?;
                Some(va.bitxor(vb))
            },
            BvTerm::Add(a, b) => {
                let va = a.evaluate(env)?;
                let vb = b.evaluate(env)?;
                Some(va.add(vb))
            },
            BvTerm::Sub(a, b) => {
                let va = a.evaluate(env)?;
                let vb = b.evaluate(env)?;
                Some(va.sub(vb))
            },
            BvTerm::Mul(a, b) => {
                let va = a.evaluate(env)?;
                let vb = b.evaluate(env)?;
                Some(va.mul(vb))
            },
            BvTerm::Udiv(a, b) => {
                let va = a.evaluate(env)?;
                let vb = b.evaluate(env)?;
                Some(va.udiv(&vb))
            },
            BvTerm::Sdiv(a, b) => {
                let va = a.evaluate(env)?;
                let vb = b.evaluate(env)?;
                Some(va.sdiv(&vb))
            },
            BvTerm::Urem(a, b) => {
                let va = a.evaluate(env)?;
                let vb = b.evaluate(env)?;
                Some(va.urem(&vb))
            },
            BvTerm::Srem(a, b) => {
                let va = a.evaluate(env)?;
                let vb = b.evaluate(env)?;
                Some(va.srem(&vb))
            },
            BvTerm::Shl(a, b) => {
                let va = a.evaluate(env)?;
                let vb = b.evaluate(env)?;
                Some(va.shl_bv(&vb))
            },
            BvTerm::Lshr(a, b) => {
                let va = a.evaluate(env)?;
                let vb = b.evaluate(env)?;
                Some(va.lshr(&vb))
            },
            BvTerm::Ashr(a, b) => {
                let va = a.evaluate(env)?;
                let vb = b.evaluate(env)?;
                Some(va.ashr(&vb))
            },
            BvTerm::Concat(a, b) => {
                let va = a.evaluate(env)?;
                let vb = b.evaluate(env)?;
                Some(va.concat(&vb))
            },
            BvTerm::Extract(high, low, t) => {
                let v = t.evaluate(env)?;
                Some(v.extract(*high, *low))
            },
            BvTerm::ZeroExtend(extra, t) => {
                let v = t.evaluate(env)?;
                Some(v.zero_extend(*extra))
            },
            BvTerm::SignExtend(extra, t) => {
                let v = t.evaluate(env)?;
                Some(v.sign_extend(*extra))
            },
        }
    }
}


/// A bitvector constraint: an equality or a disequality between two terms.
#[derive(Debug)]
pub struct BvConstraint {
    /// Left-hand side.
    pub lhs: BvTerm,
    /// Right-hand side.
    pub rhs: BvTerm,
    /// Equality (`true`) or disequality (`false`).
    pub is_equality: bool,
    /// The literal that asserted the constraint.
    pub literal: Literal,
    /// The decision level of the assertion.
    pub level: u32,
}

impl Clone for BvConstraint {
    fn clone(&self) -> (r: BvConstraint)
        ensures
            r == *self,
    {
        BvConstraint {
            lhs: self.lhs.clone(),
            rhs: self.rhs.clone(),
            is_equality: self.is_equality,
            literal: self.literal,
            level: self.level,
        }
    }
}

/// Both sides of `c` have all their variables bound in `env`.
pub open spec fn constraint_ready(c: BvConstraint, env: Map<u32, BitVec>) -> bool {
    concrete(c.lhs, env) && concrete(c.rhs, env)
}

/// When both sides of `c` are bound, evaluating them is safe.
pub open spec fn constraint_safe(c: BvConstraint, env: Map<u32, BitVec>) -> bool {
    constraint_ready(c, env) ==> eval_safe(c.lhs, env) && eval_safe(c.rhs, env)
}

/// Both sides of `c` are bound and their values contradict `c`.
pub open spec fn violated(c: BvConstraint, env: Map<u32, BitVec>) -> bool {
    &&& constraint_ready(c, env)
    &&& if c.is_equality {
        eval(c.lhs, env) != eval(c.rhs, env)
    } else {
        eval(c.lhs, env) == eval(c.rhs, env)
    }
}

/// The bitvector theory solver: it records constraints and reports the first one
/// whose sides are fully bound and evaluate against it.
pub struct BvSolver {
    constraints: Vec<BvConstraint>,
    assignments: HashMap<BvVarId, BitVec>,
    pending_propagations: Vec<TheoryPropagation>,
    current_level: u32,
}

impl BvSolver {
    /// The recorded constraints, oldest first.
    pub closed spec fn constraint_seq(&self) -> Seq<BvConstraint> {
        self.constraints@
    }

    /// The variable bindings.
    pub closed spec fn bindings(&self) -> Map<u32, BitVec> {
        self.assignments@
    }

    /// The current decision level.
    pub closed spec fn level(&self) -> u32 {
        self.current_level
    }

    /// The propagations not yet handed out.
    pub closed spec fn pending(&self) -> Seq<TheoryPropagation> {
        self.pending_propagations@
    }

    /// Every recorded constraint can be evaluated safely once its sides are bound.
    #[verifier::type_invariant]
    spec fn inv(self) -> bool {
        forall|i: int| 0 <= i < self.constraints@.len() ==> #[trigger] constraint_safe(self.constraints@[i], self.assignments@)
    }

    /// A solver without constraints, bindings or pending propagations, at level 0.
    pub fn new() -> (s: Self)
        ensures
            s.constraint_seq().len() == 0,
            s.bindings() == Map::<u32, BitVec>::empty(),
            s.pending().len() == 0,
            s.level() == 0,
    {
        BvSolver {
            constraints: Vec::new(),
            assignments: HashMap::new(),
            pending_propagations: Vec::new(),
            current_level: 0,
        }
    }

    /// The number of recorded constraints.
    pub fn num_constraints(&self) -> (n: usize)
        ensures
            n == self.constraint_seq().len(),
    {
        self.constraints.len()
    }

    fn push_constraint(&mut self, lhs: BvTerm, rhs: BvTerm, is_equality: bool, literal: Literal, level: u32)
        requires
            constraint_safe(BvConstraint { lhs, rhs, is_equality, literal, level }, old(self).bindings()),
        ensures
            final(self).constraint_seq() == old(self).constraint_seq().push(BvConstraint { lhs, rhs, is_equality, literal, level }),
            final(self).bindings() == old(self).bindings(),
            final(self).pending() == old(self).pending(),
            final(self).level() == level,
    {
        proof {
            use_type_invariant(&*self);
        }
        let ghost added = BvConstraint { lhs, rhs, is_equality, literal, level };
        let ghost before = self.constraints@;
        self.current_level = level;
        let mut cs: Vec<BvConstraint> = Vec::new();
        std::mem::swap(&mut cs, &mut self.constraints);
        cs.push(BvConstraint { lhs, rhs, is_equality, literal, level });
        proof {
            assert forall|i: int| 0 <= i < cs@.len() implies #[trigger] constraint_safe(cs@[i], self.assignments@) by {
                if i < cs@.len() - 1 {
                    assert(cs@[i] == before[i]);
                    assert(constraint_safe(before[i], self.assignments@));
                } else {
                    assert(cs@[i] == added);
                }
            }
        }
        self.constraints = cs;
    }

    /// Record the equality `lhs = rhs`, asserted by `literal` at `level`; never a conflict.
    pub fn assert_equality(&mut self, lhs: BvTerm, rhs: BvTerm, literal: Literal, level: u32) -> (r: Result<(), TheoryConflict>)
        requires
            constraint_safe(BvConstraint { lhs, rhs, is_equality: true, literal, level }, old(self).bindings()),
        ensures
            r is Ok,
            final(self).constraint_seq() == old(self).constraint_seq().push(BvConstraint { lhs, rhs, is_equality: true, literal, level }),
            final(self).bindings() == old(self).bindings(),
            final(self).pending() == old(self).pending(),
            final(self).level() == level,
    {
        self.push_constraint(lhs, rhs, true, literal, level);
        Ok(())
    }

    /// Record the disequality `lhs != rhs`, asserted by `literal` at `level`; never a conflict.
    pub fn assert_disequality(&mut self, lhs: BvTerm, rhs: BvTerm, literal: Literal, level: u32) -> (r: Result<(), TheoryConflict>)
        requires
            constraint_safe(BvConstraint { lhs, rhs, is_equality: false, literal, level }, old(self).bindings()),
        ensures
            r is Ok,
            final(self).constraint_seq() == old(self).constraint_seq().push(BvConstraint { lhs, rhs, is_equality: false, literal, level }),
            final(self).bindings() == old(self).bindings(),
            final(self).pending() == old(self).pending(),
            final(self).level() == level,
    {
        self.push_constraint(lhs, rhs, false, literal, level);
        Ok(())
    }

    /// Whether every variable of `term` is bound.
    fn is_concrete(&self, term: &BvTerm) -> (b: bool)
        ensures
            b == concrete(*term, self.bindings()),
        decreases term,
    {
        broadcast use vstd::std_specs::hash::group_hash_axioms;
        match term {
            BvTerm::Const(_) => true,
            BvTerm::Var(id, _) => self.assignments.contains_key(id),
            BvTerm::Not(t) => self.is_concrete(t),
            BvTerm::And(a, b) => self.is_concrete(a) && self.is_concrete(b),
            BvTerm::Or(a, b) => self.is_concrete(a) && self.is_concrete(b),
            BvTerm::Xor(a, b) => self.is_concrete(a) && self.is_concrete(b),
            BvTerm::Add(a, b) => self.is_concrete(a) && self.is_concrete(b),
            BvTerm::Sub(a, b) => self.is_concrete(a) && self.is_concrete(b),
            BvTerm::Mul(a, b) => self.is_concrete(a) && self.is_concrete(b),
            BvTerm::Udiv(a, b) => self.is_concrete(a) && self.is_concrete(b),
            BvTerm::Sdiv(a, b) => self.is_concrete(a) && self.is_concrete(b),
            BvTerm::Urem(a, b) => self.is_concrete(a) && self.is_concrete(b),
            BvTerm::Srem(a, b) => self.is_concrete(a) && self.is_concrete(b),
            BvTerm::Shl(a, b) => self.is_concrete(a) && self.is_concrete(b),
            BvTerm::Lshr(a, b) => self.is_concrete(a) && self.is_concrete(b),
            BvTerm::Ashr(a, b) => self.is_concrete(a) && self.is_concrete(b),
            BvTerm::Concat(a, b) => self.is_concrete(a) && self.is_concrete(b),
            BvTerm::Extract(_, _, t) => self.is_concrete(t),
            BvTerm::ZeroExtend(_, t) => self.is_concrete(t),
            BvTerm::SignExtend(_, t) => self.is_concrete(t),
        }
    }

    /// The first violated constraint, as a conflict on its literal.
    fn check_consistency(&self) -> (r: Option<TheoryConflict>)
        ensures
            match r {
                None => forall|i: int| 0 <= i < self.constraint_seq().len() ==> !#[trigger] violated(self.constraint_seq()[i], self.bindings()),
                Some(c) => exists|i: int| {
                    &&& 0 <= i < self.constraint_seq().len()
                    &&& #[trigger] violated(self.constraint_seq()[i], self.bindings())
                    &&& (forall|j: int| 0 <= j < i ==> !#[trigger] violated(self.constraint_seq()[j], self.bindings()))
                    &&& c.literals@ == seq![self.constraint_seq()[i].literal]
                },
            },
    {
        proof {
            use_type_invariant(self);
        }
        let n = self.constraints.len();
        let mut i: usize = 0;
        while i < n
            invariant
                forall|j: int| 0 <= j < self.constraints@.len() ==> #[trigger] constraint_safe(self.constraints@[j], self.assignments@),
                n == self.constraint_seq().len(),
                i <= n,
                forall|j: int| 0 <= j < i ==> !#[trigger] violated(self.constraint_seq()[j], self.bindings()),
            decreases n - i,
        {
            let c = &self.constraints[i];
            assert(constraint_safe(self.constraints@[i as int], self.assignments@));
            if self.is_concrete(&c.lhs) && self.is_concrete(&c.rhs) {
                let l = c.lhs.evaluate(&self.assignments);
                let r = c.rhs.evaluate(&self.assignments);
                if let (Some(l), Some(r)) = (l, r) {
                    let bad = if c.is_equality { l != r } else { l == r };
                    if bad {
                        let mut lits: Vec<Literal> = Vec::new();
                        lits.push(c.literal);
                        assert(lits@ == seq![self.constraint_seq()[i as int].literal]);
                        assert(violated(self.constraint_seq()[i as int], self.bindings()));
                        return Some(TheoryConflict::new(lits));
                    }
                }
            }
            i = i + 1;
        }
        None
    }
}

impl Default for BvSolver {
    fn default() -> (s: Self)
        ensures
            s.constraint_seq().len() == 0,
            s.bindings() == Map::<u32, BitVec>::empty(),
            s.pending().len() == 0,
            s.level() == 0,
    {
        Self::new()
    }
}


impl TheorySolver for BvSolver {
    /// The literals of the recorded assertions, with their levels.
    closed spec fn facts(&self) -> Seq<(Literal, u32)> {
        self.constraints@.map_values(|c: BvConstraint| (c.literal, c.level))
    }

    fn name(&self) -> (n: &'static str) {
        "BV"
    }

    /// Only the level is recorded: constraints come through `assert_equality` and
    /// `assert_disequality`.
    fn assert_literal(&mut self, lit: Literal, level: u32) -> (r: Result<(), TheoryConflict>)
        ensures
            r is Ok,
            final(self).constraint_seq() == old(self).constraint_seq(),
            final(self).bindings() == old(self).bindings(),
            final(self).pending() == old(self).pending(),
            final(self).level() == level,
    {
        proof {
            use_type_invariant(&*self);
        }
        self.current_level = level;
        Ok(())
    }

    fn check(&mut self) -> (r: TheoryResult)
        ensures
            *final(self) == *old(self),
            match r {
                TheoryResult::Consistent => forall|i: int| 0 <= i < old(self).constraint_seq().len()
                    ==> !#[trigger] violated(old(self).constraint_seq()[i], old(self).bindings()),
                TheoryResult::Conflict(c) => exists|i: int| {
                    &&& 0 <= i < old(self).constraint_seq().len()
                    &&& #[trigger] violated(old(self).constraint_seq()[i], old(self).bindings())
                    &&& (forall|j: int| 0 <= j < i ==> !#[trigger] violated(old(self).constraint_seq()[j], old(self).bindings()))
                    &&& c.literals@ == seq![old(self).constraint_seq()[i].literal]
                },
            },
    {
        match self.check_consistency() {
            Some(conflict) => TheoryResult::Conflict(conflict),
            None => TheoryResult::Consistent,
        }
    }

    fn propagate(&mut self) -> (r: Vec<TheoryPropagation>)
        ensures
            r@ == old(self).pending(),
            final(self).pending().len() == 0,
            final(self).constraint_seq() == old(self).constraint_seq(),
            final(self).bindings() == old(self).bindings(),
            final(self).level() == old(self).level(),
    {
        proof {
            use_type_invariant(&*self);
        }
        let mut out: Vec<TheoryPropagation> = Vec::new();
        std::mem::swap(&mut out, &mut self.pending_propagations);
        out
    }

    /// No explanation is ever recorded by this solver.
    fn explain(&self, lit: Literal) -> (r: Vec<Literal>)
        ensures
            r@.len() == 0,
    {
        Vec::new()
    }

    fn backtrack(&mut self, level: u32)
        ensures
            final(self).constraint_seq() == old(self).constraint_seq().filter(|c: BvConstraint| c.level <= level),
            final(self).bindings() == old(self).bindings(),
            final(self).pending() == old(self).pending(),
            final(self).level() == level,
    {
        proof {
            use_type_invariant(&*self);
        }
        let mut kept: Vec<BvConstraint> = Vec::new();
        let n = self.constraints.len();
        let ghost cs = self.constraints@;
        let mut k: usize = 0;
        while k < n
            invariant
                cs == self.constraints@,
                n == cs.len(),
                k <= n,
                kept@ == cs.take(k as int).filter(|c: BvConstraint| c.level <= level),
            decreases n - k,
        {
            reveal_with_fuel(Seq::filter, 1);
            assert(cs.take(k + 1).drop_last() =~= cs.take(k as int));
            if self.constraints[k].level <= level {
                kept.push(self.constraints[k].clone());
            }
            k = k + 1;
        }
        assert(cs.take(n as int) =~= cs);
        proof {
            let fs = kept@;
            assert forall|i: int| 0 <= i < fs.len() implies #[trigger] constraint_safe(fs[i], self.assignments@) by {
                assert(fs.contains(fs[i]));
                cs.lemma_filter_contains_rev(|c: BvConstraint| c.level <= level, fs[i]);
                let j = choose|j: int| 0 <= j < cs.len() && cs[j] == fs[i];
                assert(constraint_safe(cs[j], self.assignments@));
            }
        }
        self.constraints = kept;
        self.current_level = level;
        proof {
            lemma_facts_filter(cs, |c: BvConstraint| (c.literal, c.level), |c: BvConstraint| c.level <= level, level);
        }
    }

    fn reset(&mut self)
        ensures
            final(self).constraint_seq().len() == 0,
            final(self).bindings() == Map::<u32, BitVec>::empty(),
            final(self).pending().len() == 0,
            final(self).level() == 0,
    {
        self.constraints = Vec::new();
        self.assignments = HashMap::new();
        self.pending_propagations = Vec::new();
        self.current_level = 0;
    }
}

} // verus!
