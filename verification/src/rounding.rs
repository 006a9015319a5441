//! Rounding to nearest, ties to even, onto the binary32 grid.
//!
//! Magnitudes are counted in units of 2^-149, the smallest positive binary32
//! value, so that every finite binary32 magnitude is a natural number. Below
//! 2^24 units the representable magnitudes are all the naturals; from there on
//! they thin out by a factor of two with every doubling.
use vstd::prelude::*;
use vstd::arithmetic::div_mod::{
    lemma_basic_div, lemma_breakdown, lemma_div_by_multiple, lemma_div_denominator,
    lemma_mod_multiples_basic, lemma_small_mod,
};
use vstd::arithmetic::power2::{lemma2_to64, lemma_pow2_pos, lemma_pow2_unfold, pow2};
use crate::intmath::{
    floor_log2, floor_sqrt, lemma_div_bounds, lemma_div_from_bounds, lemma_floor_log2_bounds,
    lemma_floor_log2_monotone, lemma_floor_log2_unique, lemma_floor_sqrt_bounds,
    lemma_pow2_monotone, lemma_pow2_split, lemma_square_order,
};

verus! {

/// The exponent of the spacing between neighbouring representable magnitudes
/// at `n` units: the spacing there is `2^grid_exp(n)` units.
pub open spec fn grid_exp(n: nat) -> nat {
    if n < 0x100_0000 {
        0
    } else {
        (floor_log2(n) - 23) as nat
    }
}

/// The integer nearest to `p / d`; of two equally near ones the even one.
pub open spec fn div_round_even(p: nat, d: nat) -> nat {
    let q = p / d;
    let r = p % d;
    if 2 * r < d || (2 * r == d && q % 2 == 0) {
        q
    } else {
        q + 1
    }
}

/// The rational `p / q` units rounded to the nearest point of the binary32
/// grid, ties to even, with no bound on the exponent: a result of `2^277`
/// units or more lies beyond the largest finite binary32 value.
pub open spec fn round_mag(p: nat, q: nat) -> nat {
    let g = grid_exp(p / q);
    div_round_even(p, q * pow2(g)) * pow2(g)
}

/// The first magnitude, in units, that is too large to be finite: `2^128` in value.
pub open spec fn overflow_mag() -> nat {
    pow2(277)
}

/// The grid exponent at the magnitude `sig * 2^exp` units, for `sig > 0`.
pub open spec fn sig_grid(sig: nat, exp: int) -> int {
    let g = floor_log2(sig) + exp - 23;
    if g > 0 {
        g
    } else {
        0
    }
}

/// Whether a remainder `rs` of a division by `2 * half` rounds upwards, where
/// `sticky` says that the dividend had a further non-zero part below `rs`, and
/// `odd` that the quotient is odd.
pub open spec fn rounds_up(rs: nat, half: nat, sticky: bool, odd: bool) -> bool {
    rs > half || (rs == half && (sticky || odd))
}

/// The significand, in multiples of the spacing `2^sig_grid(sig, exp)`, to
/// which a magnitude `x` units rounds when `sig == floor(x / 2^exp)` and
/// `sticky` says whether `x / 2^exp` has a fractional part.
pub open spec fn sig_mantissa(sig: nat, exp: int, sticky: bool) -> nat {
    let g = sig_grid(sig, exp);
    if sig == 0 {
        0
    } else if g <= exp {
        sig * pow2((exp - g) as nat)
    } else {
        let k = (g - exp) as nat;
        let fl = sig / pow2(k);
        if rounds_up(sig % pow2(k), pow2((k - 1) as nat), sticky, fl % 2 == 1) {
            fl + 1
        } else {
            fl
        }
    }
}

/// The magnitude to which `x` units rounds, from the leading part `sig` of
/// `x / 2^exp` and the sticky flag (see `sig_mantissa`).
pub open spec fn round_sig(sig: nat, exp: int, sticky: bool) -> nat {
    sig_mantissa(sig, exp, sticky) * pow2(sig_grid(sig, exp) as nat)
}

/// `p` scaled so that `p / q` divided by `2^exp` is a quotient of naturals.
pub open spec fn bracket_num(p: nat, exp: int) -> nat {
    if exp < 0 {
        p * pow2((-exp) as nat)
    } else {
        p
    }
}

/// `q` scaled so that `p / q` divided by `2^exp` is a quotient of naturals.
pub open spec fn bracket_den(q: nat, exp: int) -> nat {
    if exp > 0 {
        q * pow2(exp as nat)
    } else {
        q
    }
}

/// A common factor of dividend and divisor cancels, in quotient and remainder.
pub proof fn lemma_div_cancel(p: nat, d: nat, b: nat)
    requires
        d > 0,
        b > 0,
    ensures
        (p * b) / (d * b) == p / d,
        (p * b) % (d * b) == (p % d) * b,
{
    lemma_div_bounds(p as int, d as int);
    let f: int = p as int / d as int;
    let r: int = p as int % d as int;
    assert(f * (d * b) <= p * b < (f + 1) * (d * b)) by (nonlinear_arith)
        requires
            p == f * d + r,
            0 <= r < d,
            b > 0,
    ;
    assert(d * b > 0) by (nonlinear_arith)
        requires
            d > 0,
            b > 0,
    ;
    lemma_div_from_bounds((p * b) as int, (d * b) as int, f);
    assert(p * b - f * (d * b) == r * b) by (nonlinear_arith)
        requires
            p == f * d + r,
    ;
}

/// Rounding does not depend on how the rational is written.
pub proof fn lemma_round_mag_scale(p: nat, q: nat, b: nat)
    requires
        q > 0,
        b > 0,
    ensures
        round_mag(p * b, q * b) == round_mag(p, q),
{
    lemma_div_cancel(p, q, b);
    let g: nat = grid_exp(p / q);
    lemma_pow2_pos(g);
    let d: nat = q * pow2(g);
    assert(d > 0) by (nonlinear_arith)
        requires
            d == q * pow2(g),
            q > 0,
            pow2(g) > 0,
    ;
    assert((q * b) * pow2(g) == d * b) by (nonlinear_arith)
        requires
            d == q * pow2(g),
    ;
    lemma_div_cancel(p, d, b);
    let r: nat = p % d;
    assert((2 * (r * b) < d * b) == (2 * r < d) && (2 * (r * b) == d * b) == (2 * r == d))
        by (nonlinear_arith)
        requires
            b > 0,
    ;
}

/// The heart of rounding from a leading part: if `p * b == sig * a + t` with
/// `0 <= t < a` says that `sig` is the floor of the scaled magnitude, and the
/// spacing `d` corresponds to `2 * half` steps of that scale, then rounding
/// `p / d` looks only at `sig` and at whether `t` is zero.
proof fn lemma_round_scaled(p: nat, d: nat, b: nat, a: nat, half: nat, sig: nat, t: nat)
    requires
        b > 0,
        a > 0,
        d > 0,
        half > 0,
        d * b == a * (2 * half),
        p * b == sig * a + t,
        t < a,
    ensures
        div_round_even(p, d) == if rounds_up(
            sig % (2 * half),
            half,
            t != 0,
            (sig / (2 * half)) % 2 == 1,
        ) {
            sig / (2 * half) + 1
        } else {
            sig / (2 * half)
        },
{
    let n: nat = p * b;
    let k: nat = 2 * half;
    assert((sig + 1) * a == sig * a + a) by (nonlinear_arith);
    lemma_div_from_bounds(n as int, a as int, sig as int);
    lemma_div_denominator(n as int, a as int, k as int);
    lemma_breakdown(n as int, a as int, k as int);
    lemma_div_cancel(p, d, b);
    let fl: nat = sig / k;
    let rs: nat = sig % k;
    let r: nat = p % d;
    assert(p / d == fl);
    assert(r * b == a * rs + t);
    if rs > half {
        assert(2 * r > d) by (nonlinear_arith)
            requires
                r * b == a * rs + t,
                d * b == a * (2 * half),
                rs > half,
                a > 0,
                b > 0,
        ;
    } else if rs == half {
        assert((2 * r > d) == (t != 0) && (2 * r == d) == (t == 0)) by (nonlinear_arith)
            requires
                r * b == a * rs + t,
                d * b == a * (2 * half),
                rs == half,
                a > 0,
                b > 0,
        ;
    } else {
        assert(2 * r < d) by (nonlinear_arith)
            requires
                r * b == a * rs + t,
                d * b == a * (2 * half),
                rs < half,
                t < a,
                a > 0,
                b > 0,
        ;
    }
}

/// The grid exponent at `p / q` from a leading part taken at a scale `2^e`, `e >= 0`.
proof fn lemma_bracket_floor_up(p: nat, q: nat, sig: nat, e: nat)
    requires
        q > 0,
        sig >= 1,
        sig == p / (q * pow2(e)),
    ensures
        grid_exp(p / q) == sig_grid(sig, e as int),
{
    let f: nat = p / q;
    let l: nat = floor_log2(sig);
    lemma_pow2_pos(e);
    lemma_div_denominator(p as int, q as int, pow2(e) as int);
    assert(f / pow2(e) == sig);
    lemma_div_bounds(f as int, pow2(e) as int);
    lemma_floor_log2_bounds(sig);
    lemma_pow2_split(l, e);
    lemma_pow2_split(l + 1, e);
    assert(pow2(l) * pow2(e) <= sig * pow2(e)) by (nonlinear_arith)
        requires
            pow2(l) <= sig,
            pow2(e) > 0,
    ;
    assert((sig + 1) * pow2(e) <= pow2(l + 1) * pow2(e)) by (nonlinear_arith)
        requires
            sig + 1 <= pow2(l + 1),
            pow2(e) > 0,
    ;
    lemma_floor_log2_unique(f, l + e);
    lemma2_to64();
    if l + e >= 24 {
        lemma_pow2_monotone(24, l + e);
    } else {
        lemma_pow2_monotone(l + e + 1, 24);
    }
}

/// The grid exponent at `p / q` from a leading part taken at a scale `2^-e`, `e > 0`.
proof fn lemma_bracket_floor_down(p: nat, q: nat, sig: nat, e: nat)
    requires
        q > 0,
        e > 0,
        sig >= 1,
        sig == (p * pow2(e)) / q,
    ensures
        grid_exp(p / q) == sig_grid(sig, -(e as int)),
{
    let b: nat = pow2(e);
    let f: nat = p / q;
    let l: nat = floor_log2(sig);
    lemma_pow2_pos(e);
    lemma_div_denominator((p * b) as int, q as int, b as int);
    lemma_div_cancel(p, q, b);
    assert(sig / b == f);
    lemma_div_bounds(sig as int, b as int);
    lemma_floor_log2_bounds(sig);
    lemma2_to64();
    if l >= 24 + e {
        let d: nat = (l - e) as nat;
        lemma_pow2_split(d, e);
        lemma_pow2_split(d + 1, e);
        assert(pow2(d) <= f) by (nonlinear_arith)
            requires
                pow2(d) * b <= sig,
                sig < (f + 1) * b,
                b > 0,
        ;
        assert(f < pow2(d + 1)) by (nonlinear_arith)
            requires
                f * b <= sig,
                sig < pow2(d + 1) * b,
                b > 0,
        ;
        lemma_floor_log2_unique(f, d);
        lemma_pow2_monotone(24, d);
    } else {
        lemma_pow2_monotone(l + 1, 24 + e);
        lemma_pow2_split(24, e);
        assert(f < pow2(24)) by (nonlinear_arith)
            requires
                f * b <= sig,
                sig < pow2(24) * b,
                b > 0,
        ;
    }
}

/// Rounding from a leading part is rounding of the rational itself: where
/// `sig` is the floor of `(p / q) / 2^exp` and `sticky` says whether that
/// quotient has a fractional part, `round_sig` gives what `round_mag` gives.
/// A sticky leading part needs at least 26 bits.
pub proof fn lemma_round_bracket(p: nat, q: nat, sig: nat, exp: int, sticky: bool)
    requires
        q > 0,
        sig == bracket_num(p, exp) / bracket_den(q, exp),
        sticky == (bracket_num(p, exp) % bracket_den(q, exp) != 0),
        sticky ==> sig >= 0x200_0000,
    ensures
        round_mag(p, q) == round_sig(sig, exp, sticky),
{
    let en: nat = if exp < 0 { (-exp) as nat } else { 0 };
    let ep: nat = if exp > 0 { exp as nat } else { 0 };
    let b: nat = pow2(en);
    let n: nat = bracket_num(p, exp);
    let a: nat = bracket_den(q, exp);
    lemma2_to64();
    lemma_pow2_pos(en);
    lemma_pow2_pos(ep);
    assert(n == p * b) by (nonlinear_arith)
        requires
            n == if exp < 0 { p * b } else { p },
            exp >= 0 ==> b == 1,
    ;
    assert(a == q * pow2(ep) && a > 0) by (nonlinear_arith)
        requires
            a == if exp > 0 { q * pow2(ep) } else { q },
            exp <= 0 ==> pow2(ep) == 1,
            pow2(ep) > 0,
            q > 0,
    ;
    lemma_div_bounds(n as int, a as int);
    let t: nat = n % a;
    if sig == 0 {
        assert(p == 0) by (nonlinear_arith)
            requires
                p * b == sig * a + t,
                sig == 0,
                t == 0,
                b > 0,
        ;
        assert(0nat / q == 0 && 0nat % q == 0) by {
            lemma_basic_div(0, q as int);
            lemma_small_mod(0, q);
        }
        assert(q * pow2(0) == q);
        assert(div_round_even(0, q) == 0);
        assert(round_mag(p, q) == 0) by (nonlinear_arith)
            requires
                round_mag(p, q) == 0 * pow2(0),
        ;
        assert(round_sig(sig, exp, sticky) == 0) by (nonlinear_arith)
            requires
                round_sig(sig, exp, sticky) == 0 * pow2(sig_grid(sig, exp) as nat),
        ;
    } else {
        if exp >= 0 {
            lemma_bracket_floor_up(p, q, sig, ep);
        } else {
            lemma_bracket_floor_down(p, q, sig, en);
        }
        let gi: int = sig_grid(sig, exp);
        let g: nat = gi as nat;
        assert(grid_exp(p / q) == g);
        let d: nat = q * pow2(g);
        lemma_pow2_pos(g);
        assert(d > 0) by (nonlinear_arith)
            requires
                d == q * pow2(g),
                q > 0,
                pow2(g) > 0,
        ;
        lemma_floor_log2_bounds(sig);
        if gi <= exp {
            if sticky {
                lemma_floor_log2_unique(0x200_0000, 25);
                lemma_floor_log2_monotone(0x200_0000, sig);
            }
            let j: nat = (exp - gi) as nat;
            lemma_pow2_split(j, g);
            let f: nat = sig * pow2(j);
            assert(p == f * d) by (nonlinear_arith)
                requires
                    p == sig * a,
                    a == q * pow2(ep),
                    pow2(ep) == pow2(j) * pow2(g),
                    d == q * pow2(g),
                    f == sig * pow2(j),
            ;
            assert((f + 1) * d == f * d + d) by (nonlinear_arith);
            lemma_div_from_bounds(p as int, d as int, f as int);
            assert(div_round_even(p, d) == f);
        } else {
            let k: nat = (gi - exp) as nat;
            let half: nat = pow2((k - 1) as nat);
            lemma_pow2_unfold(k);
            lemma_pow2_pos((k - 1) as nat);
            if exp >= 0 {
                lemma_pow2_split(ep, k);
            } else {
                lemma_pow2_split(g, en);
            }
            assert(d * b == a * (2 * half)) by (nonlinear_arith)
                requires
                    d == q * pow2(g),
                    a == q * pow2(ep),
                    pow2(k) == 2 * half,
                    exp >= 0 ==> b == 1 && pow2(g) == pow2(ep) * pow2(k),
                    exp < 0 ==> pow2(ep) == 1 && pow2(k) == pow2(g) * b,
            ;
            lemma_round_scaled(p, d, b, a, half, sig, t);
        }
    }
}

/// A rounded significand has at most 24 bits, or is `2^24` itself; above the
/// lowest grid it has its leading bit set.
pub proof fn lemma_sig_mantissa_bounds(sig: nat, exp: int, sticky: bool)
    requires
        sig >= 1,
    ensures
        sig_mantissa(sig, exp, sticky) <= 0x100_0000,
        sig_grid(sig, exp) > 0 ==> sig_mantissa(sig, exp, sticky) >= 0x80_0000,
{
    let l: nat = floor_log2(sig);
    let g: int = sig_grid(sig, exp);
    lemma_floor_log2_bounds(sig);
    lemma2_to64();
    if g <= exp {
        let j: nat = (exp - g) as nat;
        lemma_pow2_split(l, j);
        lemma_pow2_split(l + 1, j);
        lemma_pow2_monotone(l + 1 + j, 24);
        assert(sig * pow2(j) < pow2(l + 1) * pow2(j)) by (nonlinear_arith)
            requires
                sig < pow2(l + 1),
                pow2(j) > 0,
        ;
        if g > 0 {
            assert(sig * pow2(j) >= pow2(l) * pow2(j)) by (nonlinear_arith)
                requires
                    sig >= pow2(l),
                    pow2(j) > 0,
            ;
        }
    } else {
        let k: nat = (g - exp) as nat;
        let fl: nat = sig / pow2(k);
        lemma_pow2_pos(k);
        lemma_div_bounds(sig as int, pow2(k) as int);
        lemma_pow2_monotone(l + 1, 24 + k);
        lemma_pow2_split(24, k);
        assert(fl < pow2(24)) by (nonlinear_arith)
            requires
                fl * pow2(k) <= sig,
                sig < pow2(24) * pow2(k),
                pow2(k) > 0,
        ;
        if g > 0 {
            lemma_pow2_split(23, k);
            assert(fl >= pow2(23)) by (nonlinear_arith)
                requires
                    sig < (fl + 1) * pow2(k),
                    pow2(23) * pow2(k) <= sig,
                    pow2(k) > 0,
            ;
        }
    }
}

/// Rounding of a quotient scaled by powers of two: `(m * 2^c1) / (d * 2^c2)`
/// rounds as the leading part `m / d` at the scale `2^(c1 - c2)` does, with
/// the remainder as the sticky flag. An inexact quotient needs at least 26 bits.
pub proof fn lemma_round_ratio(m: nat, d: nat, c1: nat, c2: nat)
    requires
        d > 0,
        m % d != 0 ==> m / d >= 0x200_0000,
    ensures
        round_mag(m * pow2(c1), d * pow2(c2)) == round_sig(m / d, c1 - c2, m % d != 0),
{
    let exp: int = c1 - c2;
    lemma_pow2_pos(c1);
    lemma_pow2_pos(c2);
    lemma2_to64();
    if exp >= 0 {
        let e: nat = exp as nat;
        lemma_pow2_split(e, c2);
        let p1: nat = m * pow2(e);
        assert(m * pow2(c1) == p1 * pow2(c2)) by (nonlinear_arith)
            requires
                pow2(c1) == pow2(e) * pow2(c2),
                p1 == m * pow2(e),
        ;
        lemma_round_mag_scale(p1, d, pow2(c2));
        lemma_div_cancel(m, d, pow2(e));
        let r: nat = m % d;
        let pe: nat = pow2(e);
        assert((r * pe != 0) == (r != 0)) by (nonlinear_arith)
            requires
                pe > 0,
        ;
        if exp == 0 {
            assert(p1 == m) by (nonlinear_arith)
                requires
                    p1 == m * pow2(e),
                    pow2(e) == 1,
            ;
        }
        lemma_round_bracket(p1, d, m / d, exp, m % d != 0);
    } else {
        let e: nat = (-exp) as nat;
        lemma_pow2_split(e, c1);
        lemma_pow2_pos(e);
        let q1: nat = d * pow2(e);
        assert(d * pow2(c2) == q1 * pow2(c1) && q1 > 0) by (nonlinear_arith)
            requires
                pow2(c2) == pow2(e) * pow2(c1),
                q1 == d * pow2(e),
                d > 0,
                pow2(e) > 0,
        ;
        lemma_round_mag_scale(m, q1, pow2(c1));
        lemma_div_cancel(m, d, pow2(e));
        let r: nat = m % d;
        let pe: nat = pow2(e);
        assert((r * pe != 0) == (r != 0)) by (nonlinear_arith)
            requires
                pe > 0,
        ;
        lemma_round_bracket(m, q1, m / d, exp, m % d != 0);
    }
}

/// The square root of `n`, where `n` counts squares of units, rounded to the
/// nearest point of the grid, ties to even. Against the midpoint between two
/// neighbouring grid points the root is compared by squaring.
pub open spec fn sqrt_round_mag(n: nat) -> nat {
    let g = grid_exp(floor_sqrt(n));
    let c = floor_sqrt(n) / pow2(g);
    let twice_mid = (2 * c + 1) * pow2(g);
    if twice_mid * twice_mid < 4 * n || (twice_mid * twice_mid == 4 * n && c % 2 == 1) {
        (c + 1) * pow2(g)
    } else {
        c * pow2(g)
    }
}

/// Rounding of a square root from a leading part: with `sig` the integer
/// square root of `m`, of at least 26 bits, the root of `m * 4^e` rounds as
/// `sig` at the scale `2^e` does, sticky unless `m` is a perfect square.
pub proof fn lemma_round_sqrt(m: nat, e: nat, sig: nat)
    requires
        sig == floor_sqrt(m),
        sig >= 0x200_0000,
    ensures
        sqrt_round_mag(m * pow2(2 * e)) == round_sig(sig, e as int, sig * sig != m),
{
    let c: nat = pow2(e);
    let n: nat = m * pow2(2 * e);
    let f: nat = floor_sqrt(n);
    lemma_pow2_pos(e);
    lemma_pow2_split(e, e);
    lemma2_to64();
    lemma_floor_sqrt_bounds(m);
    lemma_floor_sqrt_bounds(n);
    let lo: nat = sig * c;
    let hi: nat = (sig + 1) * c;
    assert(lo * lo <= n && n < hi * hi) by (nonlinear_arith)
        requires
            sig * sig <= m < (sig + 1) * (sig + 1),
            n == m * (c * c),
            lo == sig * c,
            hi == (sig + 1) * c,
            c > 0,
    ;
    lemma_square_order(f, hi);
    lemma_square_order(lo, f + 1);
    lemma_div_from_bounds(f as int, c as int, sig as int);
    let l: nat = floor_log2(sig);
    lemma_floor_log2_bounds(sig);
    lemma_floor_log2_unique(0x200_0000, 25);
    lemma_floor_log2_monotone(0x200_0000, sig);
    lemma_pow2_split(l, e);
    lemma_pow2_split(l + 1, e);
    assert(pow2(l) * c <= lo && hi <= pow2(l + 1) * c) by (nonlinear_arith)
        requires
            pow2(l) <= sig,
            sig + 1 <= pow2(l + 1),
            lo == sig * c,
            hi == (sig + 1) * c,
            c > 0,
    ;
    lemma_floor_log2_unique(f, l + e);
    lemma_pow2_monotone(24, l + e);
    let g: nat = (l + e - 23) as nat;
    assert(grid_exp(f) == g);
    assert(sig_grid(sig, e as int) == g);
    let k: nat = (l - 23) as nat;
    let pk: nat = pow2(k);
    let half: nat = pow2((k - 1) as nat);
    lemma_pow2_split(k, e);
    lemma_pow2_unfold(k);
    lemma_pow2_pos(k);
    lemma_pow2_pos((k - 1) as nat);
    assert(c * pk == pow2(g)) by (nonlinear_arith)
        requires
            pow2(g) == pk * c,
    ;
    lemma_div_denominator(f as int, c as int, pk as int);
    let fl: nat = sig / pk;
    let rs: nat = sig % pk;
    assert(f / pow2(g) == fl);
    lemma_div_bounds(sig as int, pk as int);
    let h: nat = fl * pk + half;
    let twice_mid: nat = (2 * fl + 1) * pow2(g);
    assert(twice_mid == 2 * h * c) by (nonlinear_arith)
        requires
            twice_mid == (2 * fl + 1) * pow2(g),
            pow2(g) == pk * c,
            pk == 2 * half,
            h == fl * pk + half,
    ;
    assert((twice_mid * twice_mid < 4 * n) == (h * h < m) && (twice_mid * twice_mid == 4 * n) == (h
        * h == m)) by (nonlinear_arith)
        requires
            twice_mid == 2 * h * c,
            n == m * (c * c),
            c > 0,
    ;
    assert(sig == fl * pk + rs);
    if rs > half {
        lemma_square_order(h + 1, sig);
        lemma_square_order(h, h + 1);
    } else if rs == half {
        assert(sig == h);
    } else {
        lemma_square_order(sig + 1, h);
    }
}

/// From `2^24` on the leading bit is at position 24 or above.
pub proof fn lemma_grid_exp_positive(n: nat)
    ensures
        n >= 0x100_0000 ==> floor_log2(n) >= 24 && grid_exp(n) >= 1,
        n < 0x100_0000 ==> grid_exp(n) == 0,
{
    lemma2_to64();
    if n >= 0x100_0000 {
        lemma_floor_log2_unique(0x100_0000, 24);
        lemma_floor_log2_monotone(0x100_0000, n);
    }
}

/// Zero rounds to zero.
pub proof fn lemma_round_mag_zero(q: nat)
    requires
        q > 0,
    ensures
        round_mag(0, q) == 0,
{
    lemma2_to64();
    lemma_basic_div(0, q as int);
    lemma_small_mod(0, q);
    assert(q * pow2(0) == q);
    assert(div_round_even(0, q) == 0);
    assert(round_mag(0, q) == 0) by (nonlinear_arith)
        requires
            round_mag(0, q) == 0 * pow2(0),
    ;
}

/// A magnitude that is on the grid rounds to itself: `m * 2^s` with a
/// significand `m` below `2^24` whose leading bit is set unless `s` is zero.
pub proof fn lemma_round_exact(m: nat, s: nat)
    requires
        m < 0x100_0000,
        s > 0 ==> m >= 0x80_0000,
    ensures
        round_mag(m * pow2(s), 1) == m * pow2(s),
{
    lemma2_to64();
    assert(1 * pow2(0) == 1);
    lemma_round_ratio(m, 1, s, 0);
    if m > 0 {
        lemma_floor_log2_bounds(m);
        if floor_log2(m) >= 24 {
            lemma_pow2_monotone(24, floor_log2(m));
        }
        if s > 0 {
            lemma_floor_log2_unique(m, 23);
            assert(sig_grid(m, s as int) == s);
        } else {
            if floor_log2(m) > 23 {
                lemma_pow2_monotone(24, floor_log2(m));
            }
            assert(sig_grid(m, s as int) == 0);
        }
        assert(sig_mantissa(m, s as int, false) == m * pow2(0));
        assert(m * pow2(0) == m);
    } else {
        assert(round_sig(0, s as int, false) == 0) by (nonlinear_arith)
            requires
                round_sig(0, s as int, false) == 0 * pow2(sig_grid(0, s as int) as nat),
        ;
        assert(0 * pow2(s) == 0);
    }
}

/// Of two rationals in order, the floors are in order.
pub proof fn lemma_floor_order(a: nat, b: nat, c: nat, d: nat)
    requires
        b > 0,
        d > 0,
        a * d <= c * b,
    ensures
        a / b <= c / d,
{
    lemma_div_bounds(a as int, b as int);
    lemma_div_bounds(c as int, d as int);
    let f1: int = a as int / b as int;
    let f2: int = c as int / d as int;
    if f1 > f2 {
        assert(false) by (nonlinear_arith)
            requires
                f1 * b <= a,
                c < (f2 + 1) * d,
                f1 >= f2 + 1,
                a * d <= c * b,
                b > 0,
                d > 0,
                f2 >= 0,
        ;
    }
}

/// Rounding a quotient to the nearest integer keeps the order of rationals.
pub proof fn lemma_div_round_even_monotone(a: nat, b: nat, c: nat, d: nat)
    requires
        b > 0,
        d > 0,
        a * d <= c * b,
    ensures
        div_round_even(a, b) <= div_round_even(c, d),
{
    lemma_floor_order(a, b, c, d);
    lemma_div_bounds(a as int, b as int);
    lemma_div_bounds(c as int, d as int);
    let f1: int = a as int / b as int;
    let f2: int = c as int / d as int;
    let r1: int = a as int % b as int;
    let r2: int = c as int % d as int;
    if f1 == f2 {
        assert(r1 * d <= r2 * b) by (nonlinear_arith)
            requires
                a == f1 * b + r1,
                c == f1 * d + r2,
                a * d <= c * b,
        ;
        if 2 * r1 > b {
            assert(2 * r2 > d) by (nonlinear_arith)
                requires
                    r1 * d <= r2 * b,
                    2 * r1 > b,
                    b > 0,
                    d > 0,
            ;
        } else if 2 * r1 == b {
            assert(2 * r2 >= d) by (nonlinear_arith)
                requires
                    r1 * d <= r2 * b,
                    2 * r1 == b,
                    b > 0,
                    d > 0,
            ;
        }
    }
}

/// A rounded magnitude stays within the span of its grid: at most `2^24`
/// steps, and above the lowest grid at least `2^23` steps.
pub proof fn lemma_round_mag_bounds(p: nat, q: nat)
    requires
        q > 0,
    ensures
        round_mag(p, q) <= 0x100_0000 * pow2(grid_exp(p / q)),
        grid_exp(p / q) > 0 ==> round_mag(p, q) >= 0x80_0000 * pow2(grid_exp(p / q)),
{
    let f: nat = p / q;
    let g: nat = grid_exp(f);
    let c: nat = pow2(g);
    lemma_pow2_pos(g);
    lemma2_to64();
    lemma_div_denominator(p as int, q as int, c as int);
    let fl: nat = f / c;
    assert(p / (q * c) == fl);
    lemma_div_bounds(f as int, c as int);
    lemma_grid_exp_positive(f);
    if g == 0 {
        assert(fl == f) by (nonlinear_arith)
            requires
                fl * c <= f < (fl + 1) * c,
                c == 1,
        ;
    } else {
        lemma_floor_log2_bounds(f);
        lemma_pow2_split(23, g);
        lemma_pow2_split(24, g);
        assert(0x80_0000 <= fl < 0x100_0000) by (nonlinear_arith)
            requires
                fl * c <= f < (fl + 1) * c,
                0x80_0000 * c <= f < 0x100_0000 * c,
                c > 0,
        ;
    }
    let m: nat = div_round_even(p, q * c);
    assert(fl <= m <= fl + 1);
    assert(m * c <= 0x100_0000 * c && (g > 0 ==> m * c >= 0x80_0000 * c)) by (nonlinear_arith)
        requires
            m <= 0x100_0000,
            g > 0 ==> m >= 0x80_0000,
            c > 0,
    ;
}

/// Rounding keeps the order of rationals.
pub proof fn lemma_round_mag_monotone(p1: nat, q1: nat, p2: nat, q2: nat)
    requires
        q1 > 0,
        q2 > 0,
        p1 * q2 <= p2 * q1,
    ensures
        round_mag(p1, q1) <= round_mag(p2, q2),
{
    let f1: nat = p1 / q1;
    let f2: nat = p2 / q2;
    let g1: nat = grid_exp(f1);
    let g2: nat = grid_exp(f2);
    lemma_floor_order(p1, q1, p2, q2);
    lemma_floor_log2_monotone(f1, f2);
    lemma_grid_exp_positive(f1);
    lemma_grid_exp_positive(f2);
    lemma2_to64();
    assert(g1 <= g2);
    if g1 == g2 {
        let c: nat = pow2(g1);
        lemma_pow2_pos(g1);
        assert(p1 * (q2 * c) <= p2 * (q1 * c) && q1 * c > 0 && q2 * c > 0) by (nonlinear_arith)
            requires
                p1 * q2 <= p2 * q1,
                c > 0,
                q1 > 0,
                q2 > 0,
        ;
        lemma_div_round_even_monotone(p1, q1 * c, p2, q2 * c);
        let m1: nat = div_round_even(p1, q1 * c);
        let m2: nat = div_round_even(p2, q2 * c);
        assert(m1 * c <= m2 * c) by (nonlinear_arith)
            requires
                m1 <= m2,
                c > 0,
        ;
    } else {
        lemma_round_mag_bounds(p1, q1);
        lemma_round_mag_bounds(p2, q2);
        lemma_pow2_monotone(g1 + 1, g2);
        lemma_pow2_unfold(g1 + 1);
        let c1: nat = pow2(g1);
        let c2: nat = pow2(g2);
        assert(0x100_0000 * c1 <= 0x80_0000 * c2) by (nonlinear_arith)
            requires
                2 * c1 <= c2,
        ;
    }
}

/// What `round_mag` rounds to is a nearest point of the grid: a multiple of
/// the spacing at `p / q` that lies at most half the spacing from `p / q`,
/// and an even multiple where it lies exactly half the spacing away.
pub proof fn lemma_round_mag_nearest(p: nat, q: nat)
    requires
        q > 0,
    ensures
        ({
            let step = pow2(grid_exp(p / q));
            let r = round_mag(p, q);
            &&& r % step == 0
            &&& 2 * (r * q - p) <= step * q
            &&& 2 * (p - r * q) <= step * q
            &&& (2 * (r * q - p) == step * q || 2 * (p - r * q) == step * q) ==> (r / step) % 2
                == 0
        }),
{
    let step: nat = pow2(grid_exp(p / q));
    lemma_pow2_pos(grid_exp(p / q));
    let d: nat = q * step;
    assert(d > 0 && d == step * q) by (nonlinear_arith)
        requires
            d == q * step,
            q > 0,
            step > 0,
    ;
    let m: nat = div_round_even(p, d);
    let r: nat = m * step;
    assert(r == round_mag(p, q));
    lemma_div_bounds(p as int, d as int);
    let fl: nat = p / d;
    let rem: nat = p % d;
    lemma_mod_multiples_basic(m as int, step as int);
    lemma_div_by_multiple(m as int, step as int);
    assert(r * q == m * d) by (nonlinear_arith)
        requires
            r == m * step,
            d == q * step,
    ;
    assert(m * d - p == (m - fl) * d - rem) by (nonlinear_arith)
        requires
            p == fl * d + rem,
    ;
    if m == fl {
        assert((m - fl) * d == 0) by (nonlinear_arith)
            requires
                m == fl,
        ;
    } else {
        assert((m - fl) * d == d) by (nonlinear_arith)
            requires
                m == fl + 1,
        ;
    }
}

/// What `sqrt_round_mag` rounds to is a nearest point of the grid: the root
/// of `n` lies at most half the spacing from it, on either side.
pub proof fn lemma_sqrt_round_mag_nearest(n: nat)
    ensures
        ({
            let step = pow2(grid_exp(floor_sqrt(n)));
            let r = sqrt_round_mag(n);
            &&& r % step == 0
            &&& 4 * n <= (2 * r + step) * (2 * r + step)
            &&& 2 * r <= step || (2 * r - step) * (2 * r - step) <= 4 * n
        }),
{
    let f: nat = floor_sqrt(n);
    let step: nat = pow2(grid_exp(f));
    lemma_pow2_pos(grid_exp(f));
    let c: nat = f / step;
    let r: nat = sqrt_round_mag(n);
    let twice_mid: nat = (2 * c + 1) * step;
    lemma_floor_sqrt_bounds(n);
    lemma_div_bounds(f as int, step as int);
    let lo: nat = c * step;
    let hi: nat = (c + 1) * step;
    lemma_square_order(lo, f);
    lemma_square_order(f + 1, hi);
    lemma_mod_multiples_basic(c as int, step as int);
    lemma_mod_multiples_basic(c as int + 1, step as int);
    if r == hi {
        assert(2 * r - step == twice_mid && (2 * r) * (2 * r) == 4 * (hi * hi) && (2 * r) * (2 * r)
            <= (2 * r + step) * (2 * r + step)) by (nonlinear_arith)
            requires
                r == (c + 1) * step,
                hi == (c + 1) * step,
                twice_mid == (2 * c + 1) * step,
                step > 0,
        ;
    } else {
        assert(r == lo);
        assert(2 * r + step == twice_mid && (2 * r) * (2 * r) == 4 * (lo * lo) && (2 * r <= step
            || (2 * r - step) * (2 * r - step) <= (2 * r) * (2 * r))) by (nonlinear_arith)
            requires
                r == c * step,
                lo == c * step,
                twice_mid == (2 * c + 1) * step,
                step > 0,
        ;
    }
}

} // verus!
