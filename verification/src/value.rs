//! The numbers that binary32 bit patterns stand for, and the arithmetic on
//! them: each operation is the exact result, rounded to nearest, ties to even.
use vstd::prelude::*;
use vstd::arithmetic::power2::{lemma2_to64, lemma_pow2_pos, lemma_pow2_strictly_increases, pow2};
use crate::intmath::{lemma_div_bounds, lemma_pow2_split};
use crate::rounding::{
    lemma_round_exact, lemma_round_mag_monotone, lemma_round_mag_zero, overflow_mag, round_mag,
    sqrt_round_mag,
};

verus! {

/// What a binary32 bit pattern stands for.
pub enum Value {
    /// Not a number. The payload and the sign of a NaN carry no meaning.
    Nan,
    /// Positive or negative infinity.
    Inf { neg: bool },
    /// A finite number of magnitude `mag * 2^-149`; zero has a sign too.
    Fin { neg: bool, mag: nat },
}

/// A magnitude with its sign as a value: an infinity once the magnitude is
/// beyond the largest finite one.
pub open spec fn finite_or_inf(neg: bool, mag: nat) -> Value {
    if mag >= overflow_mag() {
        Value::Inf { neg }
    } else {
        Value::Fin { neg, mag }
    }
}

/// The rational magnitude `p / q` units, rounded to nearest, ties to even.
pub open spec fn round_value(neg: bool, p: nat, q: nat) -> Value {
    finite_or_inf(neg, round_mag(p, q))
}

/// A magnitude with its sign as an integer.
pub open spec fn signed(neg: bool, mag: nat) -> int {
    if neg {
        -(mag as int)
    } else {
        mag as int
    }
}

/// The value one.
pub open spec fn one() -> Value {
    Value::Fin { neg: false, mag: 0x80_0000 * pow2(126) }
}

/// The value zero, with the positive sign.
pub open spec fn zero() -> Value {
    Value::Fin { neg: false, mag: 0 }
}

/// Whether two values are the same number: equal as numbers, or both not a
/// number.
pub open spec fn same_number(a: Value, b: Value) -> bool {
    (a is Nan && b is Nan) || a.eq(b)
}

/// The nearest integer within 32 signed bits.
pub open spec fn clamp_i32(n: int) -> int {
    if n < i32::MIN {
        i32::MIN as int
    } else if n > i32::MAX {
        i32::MAX as int
    } else {
        n
    }
}

/// The value of an integer, rounded to nearest where it has more than 24 bits.
pub open spec fn value_of_int(n: int) -> Value {
    if n < 0 {
        round_value(true, (-n) as nat * pow2(149), 1)
    } else {
        round_value(false, n as nat * pow2(149), 1)
    }
}

impl Value {
    /// The sum. Infinities of opposite sign add to a NaN. An exact sum of
    /// zero is `+0`, unless both terms are negative.
    pub open spec fn add(self, rhs: Value) -> Value {
        match self {
            Value::Nan => Value::Nan,
            Value::Inf { neg: na } => match rhs {
                Value::Nan => Value::Nan,
                Value::Inf { neg: nb } => if na == nb {
                    Value::Inf { neg: na }
                } else {
                    Value::Nan
                },
                Value::Fin { .. } => Value::Inf { neg: na },
            },
            Value::Fin { neg: na, mag: ma } => match rhs {
                Value::Nan => Value::Nan,
                Value::Inf { neg: nb } => Value::Inf { neg: nb },
                Value::Fin { neg: nb, mag: mb } => {
                    let sum = signed(na, ma) + signed(nb, mb);
                    if sum == 0 {
                        Value::Fin { neg: na && nb, mag: 0 }
                    } else if sum < 0 {
                        round_value(true, (-sum) as nat, 1)
                    } else {
                        round_value(false, sum as nat, 1)
                    }
                },
            },
        }
    }

    /// The difference: the sum with the negated right-hand side.
    pub open spec fn sub(self, rhs: Value) -> Value {
        self.add(rhs.neg())
    }

    /// The quotient. Zero by zero and infinity by infinity are NaNs; any
    /// other division by zero is an infinity.
    pub open spec fn div(self, rhs: Value) -> Value {
        match self {
            Value::Nan => Value::Nan,
            Value::Inf { neg: na } => match rhs {
                Value::Nan => Value::Nan,
                Value::Inf { .. } => Value::Nan,
                Value::Fin { neg: nb, .. } => Value::Inf { neg: na != nb },
            },
            Value::Fin { neg: na, mag: ma } => match rhs {
                Value::Nan => Value::Nan,
                Value::Inf { neg: nb } => Value::Fin { neg: na != nb, mag: 0 },
                Value::Fin { neg: nb, mag: mb } => if mb == 0 {
                    if ma == 0 {
                        Value::Nan
                    } else {
                        Value::Inf { neg: na != nb }
                    }
                } else {
                    round_value(na != nb, ma * pow2(149), mb)
                },
            },
        }
    }

    /// The square root. That of a negative number is a NaN, that of a zero
    /// the same zero.
    pub open spec fn sqrt(self) -> Value {
        match self {
            Value::Nan => Value::Nan,
            Value::Inf { neg } => if neg {
                Value::Nan
            } else {
                self
            },
            Value::Fin { neg, mag } => if mag == 0 {
                self
            } else if neg {
                Value::Nan
            } else {
                finite_or_inf(false, sqrt_round_mag(mag * pow2(149)))
            },
        }
    }

    /// Where a value that is no NaN lies on the number line, in units; the
    /// infinities lie where the first magnitude beyond the finite ones would.
    pub open spec fn key(self) -> int {
        match self {
            Value::Nan => 0,
            Value::Inf { neg } => signed(neg, overflow_mag()),
            Value::Fin { neg, mag } => signed(neg, mag),
        }
    }

    /// Equality of numbers: a NaN equals nothing, and the two zeros are equal.
    pub open spec fn eq(self, rhs: Value) -> bool {
        !(self is Nan) && !(rhs is Nan) && self.key() == rhs.key()
    }

    /// Strictly less; false where either side is a NaN.
    pub open spec fn lt(self, rhs: Value) -> bool {
        !(self is Nan) && !(rhs is Nan) && self.key() < rhs.key()
    }

    /// Less or equal; false where either side is a NaN.
    pub open spec fn le(self, rhs: Value) -> bool {
        !(self is Nan) && !(rhs is Nan) && self.key() <= rhs.key()
    }

    /// The integer at or next below the value, kept within 32 signed bits;
    /// `0` for a NaN.
    pub open spec fn floor_i32(self) -> int {
        match self {
            Value::Nan => 0,
            Value::Inf { neg } => if neg {
                i32::MIN as int
            } else {
                i32::MAX as int
            },
            Value::Fin { neg, mag } => clamp_i32(signed(neg, mag) / (pow2(149) as int)),
        }
    }

    /// The integer part of the value, kept within 32 signed bits; `0` for a NaN.
    pub open spec fn trunc_i32(self) -> int {
        match self {
            Value::Nan => 0,
            Value::Inf { neg } => if neg {
                i32::MIN as int
            } else {
                i32::MAX as int
            },
            Value::Fin { neg, mag } => clamp_i32(signed(neg, mag / pow2(149))),
        }
    }

    /// The value with its sign flipped; a NaN stays a NaN.
    pub open spec fn neg(self) -> Value {
        match self {
            Value::Nan => Value::Nan,
            Value::Inf { neg } => Value::Inf { neg: !neg },
            Value::Fin { neg, mag } => Value::Fin { neg: !neg, mag },
        }
    }

    /// The product. Infinity times zero is a NaN; the sign of any other
    /// product is the exclusive or of the signs.
    pub open spec fn mul(self, rhs: Value) -> Value {
        match self {
            Value::Nan => Value::Nan,
            Value::Inf { neg: na } => match rhs {
                Value::Nan => Value::Nan,
                Value::Inf { neg: nb } => Value::Inf { neg: na != nb },
                Value::Fin { neg: nb, mag: mb } => if mb == 0 {
                    Value::Nan
                } else {
                    Value::Inf { neg: na != nb }
                },
            },
            Value::Fin { neg: na, mag: ma } => match rhs {
                Value::Nan => Value::Nan,
                Value::Inf { neg: nb } => if ma == 0 {
                    Value::Nan
                } else {
                    Value::Inf { neg: na != nb }
                },
                Value::Fin { neg: nb, mag: mb } => round_value(na != nb, ma * mb, pow2(149)),
            },
        }
    }
}

impl Value {
    /// The sign: whether the value is negative or a negative zero; false for
    /// a NaN.
    pub open spec fn sign(self) -> bool {
        match self {
            Value::Nan => false,
            Value::Inf { neg } => neg,
            Value::Fin { neg, .. } => neg,
        }
    }

    /// Whether the value is finite and greater than zero.
    pub open spec fn is_positive_finite(self) -> bool {
        match self {
            Value::Fin { neg, mag } => !neg && mag > 0,
            _ => false,
        }
    }

    /// Whether a finite value lies below the magnitude that overflows, as
    /// every result of an operation does.
    pub open spec fn in_range(self) -> bool {
        self is Fin ==> self->mag < overflow_mag()
    }
}

/// A product does not depend on the order of its factors.
pub proof fn lemma_mul_commutes(a: Value, b: Value)
    ensures
        a.mul(b) == b.mul(a),
{
    match a {
        Value::Fin { neg: na, mag: ma } => match b {
            Value::Fin { neg: nb, mag: mb } => {
                assert(ma * mb == mb * ma) by (nonlinear_arith);
            },
            _ => {},
        },
        _ => {},
    }
}

/// A sum does not depend on the order of its terms.
pub proof fn lemma_add_commutes(a: Value, b: Value)
    ensures
        a.add(b) == b.add(a),
{
}

/// Negating twice gives the value back.
pub proof fn lemma_neg_twice(a: Value)
    ensures
        a.neg().neg() == a,
{
}

/// A difference taken the other way round is the negated difference, up to
/// the sign of a zero.
pub proof fn lemma_sub_reversed(a: Value, b: Value)
    ensures
        same_number(a.sub(b), b.sub(a).neg()),
{
}

/// A product with a finite factor and a zero is a zero.
pub proof fn lemma_mul_zero(a: Value, z: Value)
    requires
        a is Fin,
        z is Fin,
        z->mag == 0,
    ensures
        a.mul(z) is Fin,
        a.mul(z)->mag == 0,
{
    lemma_pow2_pos(149);
    lemma_pow2_pos(277);
    lemma_round_mag_zero(pow2(149));
    assert(a->mag * z->mag == 0) by (nonlinear_arith)
        requires
            z->mag == 0,
    ;
}

/// Scaling by a positive finite factor keeps the order of numbers.
pub proof fn lemma_scale_monotone(k: Value, a: Value, b: Value)
    requires
        k.is_positive_finite(),
        a.in_range(),
        b.in_range(),
        a.le(b),
    ensures
        k.mul(a).le(k.mul(b)),
        k.mul(a).in_range(),
        k.mul(b).in_range(),
{
    let km: nat = k->mag;
    let unit: nat = pow2(149);
    lemma_pow2_pos(149);
    lemma_pow2_pos(277);
    lemma_round_mag_zero(unit);
    match a {
        Value::Fin { neg: na, mag: ma } => match b {
            Value::Fin { neg: nb, mag: mb } => {
                if na == nb {
                    if na {
                        assert((km * mb) * unit <= (km * ma) * unit) by (nonlinear_arith)
                            requires
                                mb <= ma,
                        ;
                        lemma_round_mag_monotone(km * mb, unit, km * ma, unit);
                    } else {
                        assert((km * ma) * unit <= (km * mb) * unit) by (nonlinear_arith)
                            requires
                                ma <= mb,
                        ;
                        lemma_round_mag_monotone(km * ma, unit, km * mb, unit);
                    }
                } else if nb {
                    assert(ma == 0 && mb == 0);
                    assert(km * ma == 0 && km * mb == 0) by (nonlinear_arith)
                        requires
                            ma == 0,
                            mb == 0,
                    ;
                }
            },
            _ => {},
        },
        _ => {},
    }
}

/// Taking the integer at or below keeps the order of numbers.
pub proof fn lemma_floor_monotone(a: Value, b: Value)
    requires
        a.le(b),
        a.in_range(),
        b.in_range(),
    ensures
        a.floor_i32() <= b.floor_i32(),
{
    let unit: int = pow2(149) as int;
    lemma_pow2_pos(149);
    lemma_pow2_pos(277);
    if a is Fin && b is Fin {
        let ka: int = a.key();
        let kb: int = b.key();
        lemma_div_bounds(ka, unit);
        lemma_div_bounds(kb, unit);
        let fa: int = ka / unit;
        let fb: int = kb / unit;
        if fa > fb {
            assert(false) by (nonlinear_arith)
                requires
                    fa * unit <= ka,
                    kb < (fb + 1) * unit,
                    ka <= kb,
                    fa >= fb + 1,
                    unit > 0,
            ;
        }
    }
}

/// The quotient of two whole numbers `0 <= i <= n`, with `n` at least one
/// and below `2^31`, lies between zero and one.
pub proof fn lemma_fraction_in_unit_interval(i: int, n: int)
    requires
        0 <= i <= n,
        1 <= n < 0x8000_0000,
    ensures
        zero().le(value_of_int(i).div(value_of_int(n))),
        value_of_int(i).div(value_of_int(n)).le(one()),
        value_of_int(i).div(value_of_int(n)).in_range(),
{
    let unit: nat = pow2(149);
    lemma_pow2_pos(149);
    lemma_pow2_pos(277);
    lemma2_to64();
    // One and 2^31 are on the grid: the numbers between them stay finite
    // and, from one on, positive.
    lemma_pow2_split(23, 126);
    lemma_pow2_split(23, 157);
    lemma_pow2_split(31, 149);
    lemma_pow2_split(8, 149);
    lemma_round_exact(0x80_0000, 126);
    lemma_round_exact(0x80_0000, 157);
    lemma_pow2_strictly_increases(180, 277);
    lemma_pow2_strictly_increases(149, 277);
    let top: nat = 0x80_0000 * pow2(157);
    assert(top == 0x8000_0000 * unit) by (nonlinear_arith)
        requires
            top == 0x80_0000 * pow2(157),
            pow2(157) == 0x100 * unit,
    ;
    assert(top == pow2(180));
    let pi: nat = i as nat * unit;
    let pn: nat = n as nat * unit;
    assert(pi <= pn && unit <= pn && pn <= top) by (nonlinear_arith)
        requires
            pi == i as nat * unit,
            pn == n as nat * unit,
            0 <= i <= n,
            1 <= n < 0x8000_0000,
            top == 0x8000_0000 * unit,
    ;
    let ma: nat = round_mag(pi, 1);
    let mb: nat = round_mag(pn, 1);
    lemma_round_mag_monotone(pi, 1, pn, 1);
    lemma_round_mag_monotone(unit, 1, pn, 1);
    lemma_round_mag_monotone(pn, 1, top, 1);
    assert(ma <= mb && unit <= mb && mb <= top);
    assert(ma * unit * 1 <= unit * mb) by (nonlinear_arith)
        requires
            ma <= mb,
    ;
    lemma_round_mag_monotone(ma * unit, mb, unit, 1);
}

} // verus!
