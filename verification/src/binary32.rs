//! IEEE 754 binary32 numbers, held as bit patterns and computed with integer
//! operations only.
//!
//! A value is modelled by [`Value`]: not-a-number, an infinity, or a signed
//! finite magnitude counted in units of 2^-149. Every operation states its
//! result as the exact rational result rounded to nearest, ties to even.
use vstd::prelude::*;
use vstd::arithmetic::div_mod::{lemma_basic_div, lemma_small_mod};
use vstd::arithmetic::power2::{
    lemma2_to64, lemma2_to64_rest, lemma_pow2_pos, lemma_pow2_unfold, pow2,
};
use crate::intmath::{
    floor_log2_u64, isqrt_u64, lemma_div_bounds, lemma_div_from_bounds, lemma_pow2_monotone,
    lemma_pow2_split, lemma_square_order, pow2_u64, shl_u64, shr_u64,
};
use crate::rounding::{
    lemma_div_cancel, lemma_round_bracket, lemma_round_exact, lemma_round_mag_scale,
    lemma_round_ratio, lemma_round_sqrt, lemma_sig_mantissa_bounds, overflow_mag, round_mag,
    round_sig, sig_grid, sig_mantissa,
};
use crate::value::{
    clamp_i32, finite_or_inf, lemma_mul_commutes, one, round_value, signed, value_of_int, zero,
    Value,
};

verus! {

/// A binary32 number as its 32 bits: sign, 8 bits of exponent, 23 bits of fraction.
#[derive(Clone, Copy, Debug)]
pub struct F32 {
    pub bits: u32,
}

/// The value that a bit pattern stands for.
pub open spec fn value_of_bits(bits: u32) -> Value {
    let neg = bits >= 0x8000_0000;
    let e = (bits as nat / 0x80_0000) % 256;
    let f = bits as nat % 0x80_0000;
    if e == 255 {
        if f == 0 {
            Value::Inf { neg }
        } else {
            Value::Nan
        }
    } else if e == 0 {
        Value::Fin { neg, mag: f }
    } else {
        Value::Fin { neg, mag: (0x80_0000 + f) * pow2((e - 1) as nat) }
    }
}

impl PartialEq for F32 {
    /// Equality of numbers: false where either is a NaN; the two zeros are equal.
    fn eq(&self, other: &F32) -> (r: bool) {
        F32::eq(*self, *other)
    }
}

impl vstd::std_specs::cmp::PartialEqSpecImpl for F32 {
    open spec fn obeys_eq_spec() -> bool {
        true
    }

    open spec fn eq_spec(&self, other: &F32) -> bool {
        self@.eq(other@)
    }
}

impl View for F32 {
    type V = Value;

    open spec fn view(&self) -> Value {
        value_of_bits(self.bits)
    }
}

/// A bit pattern taken apart: for a finite number the significand `m` and the
/// exponent `s` of its magnitude `m * 2^s` units.
pub enum Parts {
    Nan,
    Inf { neg: bool },
    Fin { neg: bool, m: u64, s: u32 },
}

impl Parts {
    /// The value that the parts stand for.
    pub open spec fn value(self) -> Value {
        match self {
            Parts::Nan => Value::Nan,
            Parts::Inf { neg } => Value::Inf { neg },
            Parts::Fin { neg, m, s } => Value::Fin { neg, mag: m as nat * pow2(s as nat) },
        }
    }

    /// The significand has at most 24 bits, with the leading one set unless
    /// the exponent is the lowest.
    pub open spec fn wf(self) -> bool {
        match self {
            Parts::Fin { neg, m, s } => m < 0x100_0000 && s <= 253 && (s > 0 ==> m >= 0x80_0000),
            _ => true,
        }
    }
}

/// The parts of a bit pattern.
pub open spec fn parts_of_bits(bits: u32) -> Parts {
    let neg = bits >= 0x8000_0000;
    let e = (bits as nat / 0x80_0000) % 256;
    let f = bits as nat % 0x80_0000;
    if e == 255 {
        if f == 0 {
            Parts::Inf { neg }
        } else {
            Parts::Nan
        }
    } else if e == 0 {
        Parts::Fin { neg, m: f as u64, s: 0 }
    } else {
        Parts::Fin { neg, m: (f + 0x80_0000) as u64, s: (e - 1) as u32 }
    }
}

/// The parts of a bit pattern stand for its value.
pub proof fn lemma_parts_of_bits(bits: u32)
    ensures
        parts_of_bits(bits).value() == value_of_bits(bits),
        parts_of_bits(bits).wf(),
{
    lemma2_to64();
    let f: nat = bits as nat % 0x80_0000;
    assert(f * pow2(0) == f);
}

/// The bits of a finite number from its significand `m` and grid exponent `g`.
proof fn lemma_value_of_fields(neg: bool, g: nat, m: nat)
    requires
        g <= 254,
        m <= 0x100_0000,
        g > 0 ==> m >= 0x80_0000,
    ensures
        g * 0x80_0000 + m >= 0x7f80_0000 <==> m * pow2(g) >= overflow_mag(),
        g * 0x80_0000 + m < 0x7f80_0000 ==> value_of_bits(
            ((if neg { 0x8000_0000nat } else { 0nat }) + g * 0x80_0000 + m) as u32,
        ) == (Value::Fin { neg, mag: m * pow2(g) }),
{
    let w: nat = g * 0x80_0000 + m;
    lemma2_to64();
    lemma_pow2_pos(g);
    if w >= 0x7f80_0000 {
        if g == 254 {
            lemma_pow2_split(23, 254);
            assert(m * pow2(g) >= pow2(23) * pow2(254)) by (nonlinear_arith)
                requires
                    m >= pow2(23),
                    g == 254,
            ;
        } else {
            assert(g == 253 && m == 0x100_0000);
            lemma_pow2_split(24, 253);
        }
    } else {
        if g <= 252 {
            lemma_pow2_monotone(g, 252);
            lemma_pow2_split(24, 252);
            lemma_pow2_monotone(276, 277);
            assert(m * pow2(g) <= pow2(24) * pow2(252)) by (nonlinear_arith)
                requires
                    m <= pow2(24),
                    pow2(g) <= pow2(252),
            ;
            lemma_pow2_unfold(277);
        } else {
            assert(g == 253 && m < 0x100_0000);
            lemma_pow2_split(24, 253);
            assert(m * pow2(g) < pow2(24) * pow2(253)) by (nonlinear_arith)
                requires
                    m < pow2(24),
                    g == 253,
                    pow2(253) > 0,
            ;
        }
        let b: u32 = ((if neg { 0x8000_0000nat } else { 0nat }) + w) as u32;
        assert(b == (if neg { 0x8000_0000nat } else { 0nat }) + w);
        assert((b >= 0x8000_0000) == neg);
        if m < 0x80_0000 {
            assert(g == 0);
            assert((b as nat / 0x80_0000) % 256 == 0);
            assert(b as nat % 0x80_0000 == m);
            assert(m * pow2(0) == m);
        } else if m < 0x100_0000 {
            assert((b as nat / 0x80_0000) % 256 == g + 1);
            assert(b as nat % 0x80_0000 == m - 0x80_0000);
        } else {
            assert((b as nat / 0x80_0000) % 256 == g + 2);
            assert(b as nat % 0x80_0000 == 0);
            lemma_pow2_unfold(g + 1);
            assert(0x80_0000 * pow2(g + 1) == m * pow2(g)) by (nonlinear_arith)
                requires
                    pow2(g + 1) == 2 * pow2(g),
                    m == 0x100_0000,
            ;
        }
    }
}

/// A magnitude `m * 2^s` is zero exactly when its significand is.
pub proof fn lemma_mag_zero(m: nat, s: nat)
    ensures
        m * pow2(s) == 0 <==> m == 0,
{
    lemma_pow2_pos(s);
    let ps: nat = pow2(s);
    assert((m * ps == 0) == (m == 0)) by (nonlinear_arith)
        requires
            ps > 0,
    ;
}

/// Finite magnitudes are ordered as their exponents and significands are, and
/// lie below the first magnitude that overflows.
pub proof fn lemma_mag_order(m1: nat, s1: nat, m2: nat, s2: nat)
    requires
        m1 < 0x100_0000,
        s1 > 0 ==> m1 >= 0x80_0000,
        m2 < 0x100_0000,
        s2 > 0 ==> m2 >= 0x80_0000,
        s1 <= 253,
    ensures
        m1 * pow2(s1) < m2 * pow2(s2) <==> s1 * 0x100_0000 + m1 < s2 * 0x100_0000 + m2,
        m1 * pow2(s1) == m2 * pow2(s2) <==> s1 == s2 && m1 == m2,
        m1 * pow2(s1) < overflow_mag(),
{
    let c1: nat = pow2(s1);
    let c2: nat = pow2(s2);
    lemma2_to64();
    lemma_pow2_pos(s1);
    lemma_pow2_pos(s2);
    lemma_pow2_monotone(s1, 253);
    lemma_pow2_split(24, 253);
    assert(m1 * c1 < pow2(24) * pow2(253)) by (nonlinear_arith)
        requires
            m1 < pow2(24),
            0 < c1 <= pow2(253),
    ;
    if s1 == s2 {
        assert((m1 * c1 < m2 * c1) == (m1 < m2) && (m1 * c1 == m2 * c1) == (m1 == m2))
            by (nonlinear_arith)
            requires
                c1 > 0,
        ;
    } else if s1 < s2 {
        lemma_pow2_monotone(s1 + 1, s2);
        lemma_pow2_unfold(s1 + 1);
        assert(m1 * c1 < m2 * c2) by (nonlinear_arith)
            requires
                m1 < 0x100_0000,
                m2 >= 0x80_0000,
                2 * c1 <= c2,
                c1 > 0,
        ;
    } else {
        lemma_pow2_monotone(s2 + 1, s1);
        lemma_pow2_unfold(s2 + 1);
        assert(m2 * c2 < m1 * c1) by (nonlinear_arith)
            requires
                m2 < 0x100_0000,
                m1 >= 0x80_0000,
                2 * c2 <= c1,
                c2 > 0,
        ;
    }
}

impl F32 {
    /// The number with the given bits.
    pub fn from_bits(bits: u32) -> (r: F32)
        ensures
            r.bits == bits,
    {
        F32 { bits }
    }

    /// The bits of the number.
    pub fn to_bits(self) -> (bits: u32)
        ensures
            bits == self.bits,
    {
        self.bits
    }

    /// Zero with the given sign.
    pub fn zero(neg: bool) -> (r: F32)
        ensures
            r@ == (Value::Fin { neg, mag: 0 }),
            r.bits == if neg { 0x8000_0000u32 } else { 0u32 },
    {
        F32 { bits: if neg { 0x8000_0000 } else { 0 } }
    }

    /// The infinity with the given sign.
    pub fn infinity(neg: bool) -> (r: F32)
        ensures
            r@ == (Value::Inf { neg }),
    {
        F32 { bits: if neg { 0xff80_0000 } else { 0x7f80_0000 } }
    }

    /// The number one.
    pub fn one() -> (r: F32)
        ensures
            r@ == (Value::Fin { neg: false, mag: 0x80_0000 * pow2(126) }),
            r.bits == 0x3f80_0000,
    {
        let r = F32 { bits: 0x3f80_0000 };
        assert(r@ == (Value::Fin { neg: false, mag: 0x80_0000 * pow2(126) }));
        r
    }

    /// The not-a-number that this library produces.
    pub fn nan() -> (r: F32)
        ensures
            r@ == Value::Nan,
    {
        F32 { bits: 0x7fc0_0000 }
    }

    /// Takes the bits apart.
    pub fn parts(self) -> (p: Parts)
        ensures
            p == parts_of_bits(self.bits),
            p.value() == self@,
            p.wf(),
    {
        let neg: bool = self.bits >= 0x8000_0000;
        let low: u32 = self.bits % 0x8000_0000;
        let e: u32 = low / 0x80_0000;
        let f: u32 = low % 0x80_0000;
        proof {
            lemma_parts_of_bits(self.bits);
            assert(e == (self.bits as nat / 0x80_0000) % 256);
            assert(f == self.bits as nat % 0x80_0000);
        }
        if e == 255 {
            if f == 0 {
                Parts::Inf { neg }
            } else {
                Parts::Nan
            }
        } else if e == 0 {
            Parts::Fin { neg, m: f as u64, s: 0 }
        } else {
            Parts::Fin { neg, m: f as u64 + 0x80_0000, s: e - 1 }
        }
    }

    /// The number of the given sign whose magnitude is what `round_sig` makes
    /// of a leading part `sig` at the scale `2^exp` and a sticky flag.
    pub fn round_pack(neg: bool, sig: u64, exp: i32, sticky: bool) -> (r: F32)
        requires
            -1000 <= exp <= 1000,
        ensures
            r@ == finite_or_inf(neg, round_sig(sig as nat, exp as int, sticky)),
    {
        if sig == 0 {
            proof {
                lemma_pow2_pos(277);
                assert(round_sig(0, exp as int, sticky) == 0) by (nonlinear_arith)
                    requires
                        round_sig(0, exp as int, sticky) == 0 * pow2(
                            sig_grid(0, exp as int) as nat,
                        ),
                ;
            }
            return F32::zero(neg);
        }
        let l: i32 = floor_log2_u64(sig) as i32;
        let g0: i32 = l + exp - 23;
        let g: i32 = if g0 > 0 { g0 } else { 0 };
        let k: i32 = g - exp;
        let ghost m_spec: nat = sig_mantissa(sig as nat, exp as int, sticky);
        proof {
            lemma2_to64();
            lemma2_to64_rest();
            lemma_sig_mantissa_bounds(sig as nat, exp as int, sticky);
            assert(g == sig_grid(sig as nat, exp as int));
        }
        if g > 254 {
            proof {
                lemma_pow2_monotone(254, g as nat);
                lemma_pow2_split(23, 254);
                assert(m_spec * pow2(g as nat) >= pow2(23) * pow2(254)) by (nonlinear_arith)
                    requires
                        m_spec >= pow2(23),
                        pow2(g as nat) >= pow2(254),
                ;
            }
            return F32::infinity(neg);
        }
        let m: u64;
        if k <= 0 {
            m = shl_u64(sig, (-k) as u32);
        } else if k >= 64 {
            proof {
                lemma_pow2_monotone(64, k as nat);
                if k > 64 {
                    lemma_pow2_monotone(64, (k - 1) as nat);
                }
                lemma_basic_div(sig as int, pow2(k as nat) as int);
                lemma_small_mod(sig as nat, pow2(k as nat));
            }
            if k == 64 && (sig > 0x8000_0000_0000_0000 || (sig == 0x8000_0000_0000_0000
                && sticky)) {
                m = 1;
            } else {
                m = 0;
            }
        } else {
            let fl: u64 = shr_u64(sig, k as u32);
            let rs: u64 = sig % pow2_u64(k as u32);
            let half: u64 = pow2_u64((k - 1) as u32);
            if rs > half || (rs == half && (sticky || fl % 2 == 1)) {
                m = fl + 1;
            } else {
                m = fl;
            }
        }
        assert(m == m_spec);
        let w: u64 = (g as u64) * 0x80_0000 + m;
        proof {
            lemma_value_of_fields(neg, g as nat, m as nat);
        }
        if w >= 0x7f80_0000 {
            return F32::infinity(neg);
        }
        F32 { bits: if neg { 0x8000_0000 + w as u32 } else { w as u32 } }
    }

    /// The number with its sign flipped.
    pub fn neg(self) -> (r: F32)
        ensures
            r@ == self@.neg(),
    {
        if self.bits >= 0x8000_0000 {
            let r = F32 { bits: self.bits - 0x8000_0000 };
            assert(r@ == self@.neg());
            r
        } else {
            let r = F32 { bits: self.bits + 0x8000_0000 };
            assert(r@ == self@.neg());
            r
        }
    }

    /// The product, rounded to nearest.
    pub fn mul(self, rhs: F32) -> (r: F32)
        ensures
            r@ == self@.mul(rhs@),
    {
        match self.parts() {
            Parts::Nan => F32::nan(),
            Parts::Inf { neg: na } => match rhs.parts() {
                Parts::Nan => F32::nan(),
                Parts::Inf { neg: nb } => F32::infinity(na != nb),
                Parts::Fin { neg: nb, m: mb, s: sb } => {
                    proof {
                        lemma_mag_zero(mb as nat, sb as nat);
                    }
                    if mb == 0 {
                        F32::nan()
                    } else {
                        F32::infinity(na != nb)
                    }
                },
            },
            Parts::Fin { neg: na, m: ma, s: sa } => match rhs.parts() {
                Parts::Nan => F32::nan(),
                Parts::Inf { neg: nb } => {
                    proof {
                        lemma_mag_zero(ma as nat, sa as nat);
                    }
                    if ma == 0 {
                        F32::nan()
                    } else {
                        F32::infinity(na != nb)
                    }
                },
                Parts::Fin { neg: nb, m: mb, s: sb } => {
                    assert(ma * mb < 0x1_0000_0000_0000) by (nonlinear_arith)
                        requires
                            ma < 0x100_0000,
                            mb < 0x100_0000,
                    ;
                    let sig: u64 = ma * mb;
                    let exp: i32 = sa as i32 + sb as i32 - 149;
                    proof {
                        let c1: nat = sa as nat + sb as nat;
                        lemma_pow2_split(sa as nat, sb as nat);
                        assert((ma as nat * pow2(sa as nat)) * (mb as nat * pow2(sb as nat)) == sig
                            as nat * pow2(c1)) by (nonlinear_arith)
                            requires
                                pow2(c1) == pow2(sa as nat) * pow2(sb as nat),
                                sig == ma * mb,
                        ;
                        assert(1 * pow2(149) == pow2(149));
                        lemma_round_ratio(sig as nat, 1, c1, 149);
                    }
                    F32::round_pack(na != nb, sig, exp, false)
                },
            },
        }
    }

    /// The sum of two finite numbers given by their parts, the first of them
    /// the larger in magnitude.
    fn add_ordered(n1: bool, m1: u64, s1: u32, n2: bool, m2: u64, s2: u32) -> (r: F32)
        requires
            (Parts::Fin { neg: n1, m: m1, s: s1 }).wf(),
            (Parts::Fin { neg: n2, m: m2, s: s2 }).wf(),
            s1 > s2 || (s1 == s2 && m1 >= m2),
        ensures
            r@ == (Value::Fin { neg: n1, mag: m1 as nat * pow2(s1 as nat) }).add(
                Value::Fin { neg: n2, mag: m2 as nat * pow2(s2 as nat) },
            ),
    {
        let d: u32 = s1 - s2;
        let ghost mag1: nat = m1 as nat * pow2(s1 as nat);
        let ghost mag2: nat = m2 as nat * pow2(s2 as nat);
        let ghost c2: nat = pow2(s2 as nat);
        let ghost sum: int = signed(n1, mag1) + signed(n2, mag2);
        proof {
            lemma2_to64();
            lemma2_to64_rest();
            lemma_pow2_pos(s2 as nat);
            lemma_mag_zero(m1 as nat, s1 as nat);
            lemma_mag_zero(m2 as nat, s2 as nat);
        }
        if d <= 38 {
            proof {
                lemma_pow2_monotone(d as nat, 38);
                assert(m1 * pow2(d as nat) <= 0x100_0000 * 0x40_0000_0000) by (nonlinear_arith)
                    requires
                        m1 <= 0x100_0000,
                        pow2(d as nat) <= 0x40_0000_0000,
                ;
            }
            let big: u64 = shl_u64(m1, d);
            proof {
                lemma_pow2_split(d as nat, s2 as nat);
                assert(mag1 == big as nat * c2) by (nonlinear_arith)
                    requires
                        mag1 == m1 as nat * pow2(s1 as nat),
                        pow2(s1 as nat) == pow2(d as nat) * c2,
                        big == m1 * pow2(d as nat),
                ;
                if d > 0 {
                    lemma_pow2_monotone(1, d as nat);
                    assert(big >= 0x100_0000) by (nonlinear_arith)
                        requires
                            big == m1 * pow2(d as nat),
                            m1 >= 0x80_0000,
                            pow2(d as nat) >= 2,
                    ;
                } else {
                    assert(big == m1) by (nonlinear_arith)
                        requires
                            big == m1 * pow2(d as nat),
                            pow2(d as nat) == 1,
                    ;
                }
            }
            let sig: u64 = if n1 == n2 { big + m2 } else { big - m2 };
            proof {
                assert(sig as nat * c2 == if n1 == n2 {
                    mag1 as int + mag2
                } else {
                    mag1 - mag2
                }) by (nonlinear_arith)
                    requires
                        mag1 == big as nat * c2,
                        mag2 == m2 as nat * c2,
                        sig == if n1 == n2 { big + m2 } else { big - m2 },
                ;
                lemma_mag_zero(sig as nat, s2 as nat);
                assert(1 * pow2(0) == 1);
                lemma_round_ratio(sig as nat, 1, s2 as nat, 0);
                assert(sum == signed(n1, sig as nat * c2));
            }
            if sig == 0 {
                F32::zero(n1 && n2)
            } else {
                F32::round_pack(n1, sig, s2 as i32, false)
            }
        } else if m2 == 0 {
            proof {
                assert(1 * pow2(0) == 1);
                lemma_round_ratio(m1 as nat, 1, s1 as nat, 0);
                assert(sum == signed(n1, mag1) && mag1 > 0);
            }
            F32::round_pack(n1, m1, s1 as i32, false)
        } else {
            let sig: u64 = if n1 == n2 { m1 * 8 } else { m1 * 8 - 1 };
            proof {
                let e: nat = (s1 - 3) as nat;
                let c: nat = pow2(e);
                lemma_pow2_pos(e);
                lemma_pow2_split(3, e);
                lemma_pow2_split(24, s2 as nat);
                lemma_pow2_monotone(24 + s2 as nat, e);
                assert(mag2 < pow2(24) * c2) by (nonlinear_arith)
                    requires
                        mag2 == m2 as nat * c2,
                        m2 < pow2(24),
                        c2 > 0,
                ;
                assert(mag1 == (8 * m1) * c) by (nonlinear_arith)
                    requires
                        mag1 == m1 as nat * pow2(s1 as nat),
                        pow2(s1 as nat) == 8 * c,
                ;
                assert(mag1 >= c) by (nonlinear_arith)
                    requires
                        mag1 == (8 * m1) * c,
                        m1 >= 1,
                ;
                let p: nat = if n1 == n2 { mag1 + mag2 } else { (mag1 - mag2) as nat };
                assert(sig * c <= p < (sig + 1) * c) by (nonlinear_arith)
                    requires
                        mag1 == (8 * m1) * c,
                        0 < mag2 < c,
                        p == if n1 == n2 { mag1 as int + mag2 } else { mag1 - mag2 },
                        sig == if n1 == n2 { m1 * 8 } else { m1 * 8 - 1 },
                        m1 >= 1,
                ;
                lemma_div_from_bounds(p as int, c as int, sig as int);
                assert(p as int - sig * c != 0) by (nonlinear_arith)
                    requires
                        mag1 == (8 * m1) * c,
                        0 < mag2 < c,
                        p == if n1 == n2 { mag1 as int + mag2 } else { mag1 - mag2 },
                        sig == if n1 == n2 { m1 * 8 } else { m1 * 8 - 1 },
                ;
                assert(1 * c == c);
                lemma_round_bracket(p, 1, sig as nat, e as int, true);
                assert(sum == signed(n1, p) && p > 0);
            }
            F32::round_pack(n1, sig, s1 as i32 - 3, true)
        }
    }

    /// The sum, rounded to nearest.
    pub fn add(self, rhs: F32) -> (r: F32)
        ensures
            r@ == self@.add(rhs@),
    {
        match self.parts() {
            Parts::Nan => F32::nan(),
            Parts::Inf { neg: na } => match rhs.parts() {
                Parts::Nan => F32::nan(),
                Parts::Inf { neg: nb } => if na == nb {
                    F32::infinity(na)
                } else {
                    F32::nan()
                },
                Parts::Fin { .. } => F32::infinity(na),
            },
            Parts::Fin { neg: na, m: ma, s: sa } => match rhs.parts() {
                Parts::Nan => F32::nan(),
                Parts::Inf { neg: nb } => F32::infinity(nb),
                Parts::Fin { neg: nb, m: mb, s: sb } => {
                    if sa > sb || (sa == sb && ma >= mb) {
                        F32::add_ordered(na, ma, sa, nb, mb, sb)
                    } else {
                        F32::add_ordered(nb, mb, sb, na, ma, sa)
                    }
                },
            },
        }
    }

    /// The difference, rounded to nearest.
    pub fn sub(self, rhs: F32) -> (r: F32)
        ensures
            r@ == self@.sub(rhs@),
    {
        self.add(rhs.neg())
    }

    /// A non-zero significand shifted up until its leading bit is bit 23,
    /// with the number of places it was shifted by.
    fn normalize(m: u64) -> (r: (u64, u32))
        requires
            0 < m < 0x100_0000,
        ensures
            r.1 <= 23,
            r.0 == m * pow2(r.1 as nat),
            0x80_0000 <= r.0 < 0x100_0000,
    {
        let l: u32 = floor_log2_u64(m);
        proof {
            lemma2_to64();
            if l >= 24 {
                lemma_pow2_monotone(24, l as nat);
            }
            lemma_pow2_split(l as nat, (23 - l) as nat);
            lemma_pow2_split(l as nat + 1, (23 - l) as nat);
            lemma_pow2_pos((23 - l) as nat);
            let c: nat = pow2((23 - l) as nat);
            assert(pow2(l as nat) * c <= m * c < pow2(l as nat + 1) * c) by (nonlinear_arith)
                requires
                    pow2(l as nat) <= m < pow2(l as nat + 1),
                    c > 0,
            ;
        }
        (shl_u64(m, 23 - l), 23 - l)
    }

    /// The quotient, rounded to nearest.
    pub fn div(self, rhs: F32) -> (r: F32)
        ensures
            r@ == self@.div(rhs@),
    {
        match self.parts() {
            Parts::Nan => F32::nan(),
            Parts::Inf { neg: na } => match rhs.parts() {
                Parts::Nan => F32::nan(),
                Parts::Inf { .. } => F32::nan(),
                Parts::Fin { neg: nb, .. } => F32::infinity(na != nb),
            },
            Parts::Fin { neg: na, m: ma, s: sa } => match rhs.parts() {
                Parts::Nan => F32::nan(),
                Parts::Inf { neg: nb } => F32::zero(na != nb),
                Parts::Fin { neg: nb, m: mb, s: sb } => {
                    proof {
                        lemma_mag_zero(ma as nat, sa as nat);
                        lemma_mag_zero(mb as nat, sb as nat);
                        lemma2_to64();
                        lemma2_to64_rest();
                    }
                    if mb == 0 {
                        if ma == 0 {
                            F32::nan()
                        } else {
                            F32::infinity(na != nb)
                        }
                    } else if ma == 0 {
                        proof {
                            lemma_round_ratio(0, mb as nat * pow2(sb as nat), 149, 0);
                            assert(0 * pow2(149) == 0);
                            lemma_basic_div(0, (mb as nat * pow2(sb as nat)) as int);
                            lemma_small_mod(0, mb as nat * pow2(sb as nat));
                            assert(round_sig(0, 149, false) == 0) by (nonlinear_arith)
                                requires
                                    round_sig(0, 149, false) == 0 * pow2(sig_grid(0, 149) as nat),
                            ;
                            lemma_pow2_pos(277);
                        }
                        F32::zero(na != nb)
                    } else {
                        let (mn, n1) = F32::normalize(ma);
                        let big: u64 = shl_u64(mn, 40);
                        let sig: u64 = big / mb;
                        let sticky: bool = big % mb != 0;
                        let exp: i32 = sa as i32 + 109 - n1 as i32 - sb as i32;
                        proof {
                            let c1: nat = (sa + 109 - n1) as nat;
                            lemma_pow2_split(sa as nat, 149);
                            lemma_pow2_split(n1 as nat, 40);
                            lemma_pow2_split(n1 as nat + 40, c1);
                            assert((ma as nat * pow2(sa as nat)) * pow2(149) == big as nat * pow2(
                                c1,
                            )) by (nonlinear_arith)
                                requires
                                    big == (ma * pow2(n1 as nat)) * pow2(40),
                                    pow2(n1 as nat + 40) == pow2(n1 as nat) * pow2(40),
                                    pow2(sa as nat + 149) == pow2(sa as nat) * pow2(149),
                                    pow2(n1 as nat + 40 + c1) == pow2(n1 as nat + 40) * pow2(c1),
                                    n1 as nat + 40 + c1 == sa as nat + 149,
                            ;
                            lemma_div_bounds(big as int, mb as int);
                            assert(sig >= 0x200_0000) by (nonlinear_arith)
                                requires
                                    big < (sig + 1) * mb,
                                    big >= 0x80_0000 * 0x100_0000_0000,
                                    0 < mb < 0x100_0000,
                            ;
                            lemma_round_ratio(big as nat, mb as nat, c1, sb as nat);
                        }
                        F32::round_pack(na != nb, sig, exp, sticky)
                    }
                },
            },
        }
    }

    /// The square root, rounded to nearest: never below zero.
    pub fn sqrt(self) -> (r: F32)
        ensures
            r@ == self@.sqrt(),
            !r@.lt(zero()),
    {
        proof {
            lemma_pow2_pos(277);
        }
        match self.parts() {
            Parts::Nan => F32::nan(),
            Parts::Inf { neg } => if neg {
                F32::nan()
            } else {
                self
            },
            Parts::Fin { neg, m, s } => {
                proof {
                    lemma_mag_zero(m as nat, s as nat);
                    lemma2_to64();
                    lemma2_to64_rest();
                }
                if m == 0 {
                    self
                } else if neg {
                    F32::nan()
                } else {
                    let (mn, n1) = F32::normalize(m);
                    let et: u32 = s + 149 - n1;
                    let t: u32 = if et % 2 == 0 { 40 } else { 39 };
                    assert(mn * pow2(t as nat) < 0x100_0000 * 0x100_0000_0000) by (nonlinear_arith)
                        requires
                            mn < 0x100_0000,
                            pow2(t as nat) <= 0x100_0000_0000,
                    ;
                    let big: u64 = shl_u64(mn, t);
                    let e: u32 = (et - t) / 2;
                    let sig: u64 = isqrt_u64(big);
                    let sticky: bool = sig * sig != big;
                    proof {
                        lemma_pow2_split(s as nat, 149);
                        lemma_pow2_split(n1 as nat, t as nat);
                        lemma_pow2_split(n1 as nat + t as nat, 2 * e as nat);
                        assert((m as nat * pow2(s as nat)) * pow2(149) == big as nat * pow2(
                            2 * e as nat,
                        )) by (nonlinear_arith)
                            requires
                                big == (m * pow2(n1 as nat)) * pow2(t as nat),
                                pow2(n1 as nat + t as nat) == pow2(n1 as nat) * pow2(t as nat),
                                pow2(s as nat + 149) == pow2(s as nat) * pow2(149),
                                pow2(n1 as nat + t as nat + 2 * e as nat) == pow2(
                                    n1 as nat + t as nat,
                                ) * pow2(2 * e as nat),
                                n1 as nat + t as nat + 2 * e as nat == s as nat + 149,
                        ;
                        assert(big >= 0x4000_0000_0000_0000) by (nonlinear_arith)
                            requires
                                big == mn * pow2(t as nat),
                                mn >= 0x80_0000,
                                pow2(t as nat) >= 0x80_0000_0000,
                        ;
                        assert(0x8000_0000nat * 0x8000_0000nat == 0x4000_0000_0000_0000nat);
                        lemma_square_order(0x8000_0000, sig as nat + 1);
                        lemma_round_sqrt(big as nat, e as nat, sig as nat);
                    }
                    F32::round_pack(false, sig, e as i32, sticky)
                }
            },
        }
    }

    /// Whether the number is a NaN.
    pub fn is_nan(self) -> (r: bool)
        ensures
            r == (self@ is Nan),
    {
        self.bits % 0x8000_0000 > 0x7f80_0000
    }

    /// The place of a number that is no NaN in the order of all such numbers:
    /// exponent and significand as one integer, with the sign.
    fn rank(self) -> (r: i64)
        requires
            !(self@ is Nan),
        ensures
            r == self.rank_spec(),
    {
        let r: i64 = match self.parts() {
            Parts::Nan => 0,
            Parts::Inf { neg } => if neg {
                -0xff00_0000
            } else {
                0xff00_0000
            },
            Parts::Fin { neg, m, s } => {
                let a: i64 = (s as i64) * 0x100_0000 + m as i64;
                if neg {
                    -a
                } else {
                    a
                }
            },
        };
        r
    }

    /// Equality of numbers: false where either is a NaN; the two zeros are equal.
    pub fn eq(self, rhs: F32) -> (r: bool)
        ensures
            r == self@.eq(rhs@),
    {
        if self.is_nan() || rhs.is_nan() {
            false
        } else {
            proof {
                lemma_rank_order(self, rhs);
            }
            self.rank() == rhs.rank()
        }
    }

    /// Strictly less; false where either is a NaN.
    pub fn lt(self, rhs: F32) -> (r: bool)
        ensures
            r == self@.lt(rhs@),
    {
        if self.is_nan() || rhs.is_nan() {
            false
        } else {
            proof {
                lemma_rank_order(self, rhs);
            }
            self.rank() < rhs.rank()
        }
    }

    /// Less or equal; false where either is a NaN.
    pub fn le(self, rhs: F32) -> (r: bool)
        ensures
            r == self@.le(rhs@),
    {
        if self.is_nan() || rhs.is_nan() {
            false
        } else {
            proof {
                lemma_rank_order(self, rhs);
            }
            self.rank() <= rhs.rank()
        }
    }

    /// Strictly greater; false where either is a NaN.
    pub fn gt(self, rhs: F32) -> (r: bool)
        ensures
            r == rhs@.lt(self@),
    {
        rhs.lt(self)
    }

    /// Greater or equal; false where either is a NaN.
    pub fn ge(self, rhs: F32) -> (r: bool)
        ensures
            r == rhs@.le(self@),
    {
        rhs.le(self)
    }

    /// The number nearest to an integer.
    pub fn from_i32(n: i32) -> (r: F32)
        ensures
            r@ == value_of_int(n as int),
    {
        let sig: u64 = if n < 0 { (-(n as i64)) as u64 } else { n as u64 };
        proof {
            lemma2_to64();
            assert(1 * pow2(0) == 1);
            lemma_round_ratio(sig as nat, 1, 149, 0);
        }
        F32::round_pack(n < 0, sig, 149, false)
    }
}

impl F32 {
    /// The whole part of the magnitude `m * 2^s` units, cut off at `2^31`, and
    /// whether a fractional part is left over.
    fn whole_and_rest(m: u64, s: u32) -> (r: (u64, bool))
        requires
            (Parts::Fin { neg: false, m, s }).wf(),
        ensures
            r.0 == if (m as nat * pow2(s as nat)) / pow2(149) >= 0x8000_0000 {
                0x8000_0000
            } else {
                (m as nat * pow2(s as nat)) / pow2(149)
            },
            r.1 == ((m as nat * pow2(s as nat)) % pow2(149) != 0),
    {
        let ghost mag: nat = m as nat * pow2(s as nat);
        let ghost unit: nat = pow2(149);
        proof {
            lemma2_to64();
            lemma2_to64_rest();
            lemma_pow2_pos(149);
            lemma_pow2_pos(s as nat);
        }
        if s >= 149 {
            let sh: u32 = s - 149;
            proof {
                lemma_pow2_split(sh as nat, 149);
                let whole: nat = m as nat * pow2(sh as nat);
                assert(mag == whole * unit) by (nonlinear_arith)
                    requires
                        mag == m as nat * pow2(s as nat),
                        pow2(s as nat) == pow2(sh as nat) * unit,
                        whole == m as nat * pow2(sh as nat),
                ;
                assert((whole + 1) * unit == whole * unit + unit) by (nonlinear_arith);
                lemma_div_from_bounds(mag as int, unit as int, whole as int);
                if sh >= 8 {
                    lemma_pow2_monotone(8, sh as nat);
                    assert(whole >= 0x8000_0000) by (nonlinear_arith)
                        requires
                            whole == m as nat * pow2(sh as nat),
                            m >= 0x80_0000,
                            pow2(sh as nat) >= 0x100,
                    ;
                } else {
                    lemma_pow2_monotone(sh as nat, 7);
                    assert(m * pow2(sh as nat) <= 0x100_0000 * 0x80) by (nonlinear_arith)
                        requires
                            m <= 0x100_0000,
                            pow2(sh as nat) <= 0x80,
                    ;
                }
            }
            if sh >= 8 {
                (0x8000_0000, false)
            } else {
                let whole: u64 = shl_u64(m, sh);
                (if whole >= 0x8000_0000 { 0x8000_0000 } else { whole }, false)
            }
        } else {
            let sh: u32 = 149 - s;
            proof {
                lemma_pow2_split(sh as nat, s as nat);
                lemma_pow2_pos(sh as nat);
                lemma_div_cancel(m as nat, pow2(sh as nat), pow2(s as nat));
                let rest: nat = m as nat % pow2(sh as nat);
                let c: nat = pow2(s as nat);
                assert((rest * c != 0) == (rest != 0)) by (nonlinear_arith)
                    requires
                        c > 0,
                ;
                if sh >= 24 {
                    lemma_pow2_monotone(24, sh as nat);
                    lemma_basic_div(m as int, pow2(sh as nat) as int);
                    lemma_small_mod(m as nat, pow2(sh as nat));
                } else {
                    lemma_div_bounds(m as int, pow2(sh as nat) as int);
                }
            }
            if sh >= 24 {
                (0, m != 0)
            } else {
                (shr_u64(m, sh), m % pow2_u64(sh) != 0)
            }
        }
    }

    /// The integer at or next below the number, kept within 32 signed bits;
    /// `0` for a NaN.
    pub fn floor_to_i32(self) -> (r: i32)
        ensures
            r == self@.floor_i32(),
    {
        match self.parts() {
            Parts::Nan => 0,
            Parts::Inf { neg } => if neg {
                i32::MIN
            } else {
                i32::MAX
            },
            Parts::Fin { neg, m, s } => {
                let (whole, rest) = F32::whole_and_rest(m, s);
                proof {
                    let mag: int = (m as nat * pow2(s as nat)) as int;
                    let unit: int = pow2(149) as int;
                    lemma_pow2_pos(149);
                    lemma_div_bounds(mag, unit);
                    let q: int = mag / unit;
                    if neg {
                        let below: int = if rest { -q - 1 } else { -q };
                        assert(below * unit <= -mag < (below + 1) * unit) by (nonlinear_arith)
                            requires
                                mag == q * unit + mag % unit,
                                0 <= mag % unit < unit,
                                rest == (mag % unit != 0),
                                below == if rest { -q - 1 } else { -q },
                        ;
                        lemma_div_from_bounds(-mag, unit, below);
                    }
                }
                if neg {
                    if whole >= 0x8000_0000 {
                        i32::MIN
                    } else if rest {
                        (-(whole as i64) - 1) as i32
                    } else {
                        (-(whole as i64)) as i32
                    }
                } else if whole >= 0x8000_0000 {
                    i32::MAX
                } else {
                    whole as i32
                }
            },
        }
    }

    /// The integer part of the number, kept within 32 signed bits; `0` for a NaN.
    pub fn trunc_to_i32(self) -> (r: i32)
        ensures
            r == self@.trunc_i32(),
    {
        match self.parts() {
            Parts::Nan => 0,
            Parts::Inf { neg } => if neg {
                i32::MIN
            } else {
                i32::MAX
            },
            Parts::Fin { neg, m, s } => {
                let (whole, rest) = F32::whole_and_rest(m, s);
                if neg {
                    if whole >= 0x8000_0000 {
                        i32::MIN
                    } else {
                        (-(whole as i64)) as i32
                    }
                } else if whole >= 0x8000_0000 {
                    i32::MAX
                } else {
                    whole as i32
                }
            },
        }
    }

    /// The rank of a number that is no NaN (see `rank`).
    pub closed spec fn rank_spec(self) -> int {
        match parts_of_bits(self.bits) {
            Parts::Nan => 0,
            Parts::Inf { neg } => signed(neg, 0xff00_0000),
            Parts::Fin { neg, m, s } => signed(neg, s as nat * 0x100_0000 + m as nat),
        }
    }
}

/// What a bit pattern stands for lies within the range of binary32, and
/// on its grid: rounding leaves it as it is.
pub proof fn lemma_view_exact(a: F32)
    ensures
        a@.in_range(),
        a@ is Fin ==> round_mag(a@->mag, 1) == a@->mag,
{
    lemma_parts_of_bits(a.bits);
    match parts_of_bits(a.bits) {
        Parts::Fin { neg, m, s } => {
            lemma_mag_order(m as nat, s as nat, m as nat, s as nat);
            lemma_round_exact(m as nat, s as nat);
        },
        _ => {},
    }
}

/// A sum is exact where it can be: if the exact sum of two finite numbers is
/// a binary32 number other than zero, it is the sum.
pub proof fn lemma_add_exact(a: F32, b: F32, c: F32)
    requires
        a@ is Fin,
        b@ is Fin,
        c@ is Fin,
        c@.key() == a@.key() + b@.key(),
        c@.key() != 0,
    ensures
        a@.add(b@) == c@,
{
    lemma_view_exact(c);
}

/// A product is exact where it can be: if the exact product of two finite
/// numbers is a binary32 number, it is the product.
pub proof fn lemma_mul_exact(a: F32, b: F32, c: F32)
    requires
        a@ is Fin,
        b@ is Fin,
        c@ is Fin,
        a@->mag * b@->mag == c@->mag * pow2(149),
        c@.sign() == (a@.sign() != b@.sign()),
    ensures
        a@.mul(b@) == c@,
{
    lemma_view_exact(c);
    lemma_pow2_pos(149);
    assert(1 * pow2(149) == pow2(149));
    lemma_round_mag_scale(c@->mag, 1, pow2(149));
}

/// Adding a zero of either sign to a number leaves it the same number.
pub proof fn lemma_add_zero(a: F32, z: Value)
    requires
        !(a@ is Nan),
        z is Fin,
        z->mag == 0,
    ensures
        a@.add(z).eq(a@),
{
    lemma_view_exact(a);
    lemma_pow2_pos(277);
}

/// Multiplying a number by one leaves it as it is.
pub proof fn lemma_mul_one(a: F32)
    ensures
        a@.mul(one()) == a@,
        one().mul(a@) == a@,
{
    lemma_view_exact(a);
    lemma_mul_commutes(a@, one());
    lemma_pow2_pos(149);
    lemma_pow2_split(23, 126);
    lemma2_to64();
    match a@ {
        Value::Fin { neg, mag } => {
            assert(mag * (0x80_0000 * pow2(126)) == mag * pow2(149) && 1 * pow2(149) == pow2(149))
                by (nonlinear_arith)
                requires
                    pow2(149) == 0x80_0000 * pow2(126),
            ;
            lemma_round_mag_scale(mag, 1, pow2(149));
        },
        _ => {},
    }
}

/// Ranks are ordered as the numbers are.
proof fn lemma_rank_order(a: F32, b: F32)
    requires
        !(a@ is Nan),
        !(b@ is Nan),
    ensures
        a.rank_spec() < b.rank_spec() <==> a@.key() < b@.key(),
        a.rank_spec() == b.rank_spec() <==> a@.key() == b@.key(),
{
    lemma_parts_of_bits(a.bits);
    lemma_parts_of_bits(b.bits);
    lemma2_to64();
    lemma_pow2_pos(277);
    match parts_of_bits(a.bits) {
        Parts::Fin { neg: na, m: ma, s: sa } => {
            lemma_mag_order(ma as nat, sa as nat, ma as nat, sa as nat);
            lemma_mag_zero(ma as nat, sa as nat);
            match parts_of_bits(b.bits) {
                Parts::Fin { neg: nb, m: mb, s: sb } => {
                    lemma_mag_order(ma as nat, sa as nat, mb as nat, sb as nat);
                    lemma_mag_order(mb as nat, sb as nat, ma as nat, sa as nat);
                    lemma_mag_zero(mb as nat, sb as nat);
                },
                _ => {},
            }
        },
        _ => {
            match parts_of_bits(b.bits) {
                Parts::Fin { neg: nb, m: mb, s: sb } => {
                    lemma_mag_order(mb as nat, sb as nat, mb as nat, sb as nat);
                },
                _ => {},
            }
        },
    }
}

} // verus!
