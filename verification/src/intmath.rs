//! Integer groundwork for the binary32 arithmetic: powers of two, the position
//! of the leading bit, and shifts stated as multiplication and division.
use vstd::prelude::*;
use vstd::arithmetic::div_mod::{
    lemma_div_denominator, lemma_fundamental_div_mod, lemma_fundamental_div_mod_converse,
};
use vstd::arithmetic::power2::{
    lemma2_to64, lemma2_to64_rest, lemma_pow2_adds, lemma_pow2_pos,
    lemma_pow2_strictly_increases, lemma_pow2_unfold, pow2,
};
use vstd::bits::{lemma_u64_pow2_no_overflow, lemma_u64_shl_is_mul, lemma_u64_shr_is_div};

verus! {

/// The position of the leading one bit of `n`, that is the largest `k` with
/// `2^k <= n`; `0` for `n == 0`.
pub open spec fn floor_log2(n: nat) -> nat
    decreases n,
{
    if n <= 1 {
        0
    } else {
        1 + floor_log2(n / 2)
    }
}

/// Powers of two grow with their exponent.
pub proof fn lemma_pow2_monotone(a: nat, b: nat)
    requires
        a <= b,
    ensures
        0 < pow2(a) <= pow2(b),
{
    lemma_pow2_pos(a);
    if a < b {
        lemma_pow2_strictly_increases(a, b);
    }
}

/// `2^(a+b) == 2^a * 2^b`, with both factors positive.
pub proof fn lemma_pow2_split(a: nat, b: nat)
    ensures
        pow2(a + b) == pow2(a) * pow2(b),
        pow2(a) > 0,
        pow2(b) > 0,
{
    lemma_pow2_adds(a, b);
    lemma_pow2_pos(a);
    lemma_pow2_pos(b);
}

/// A positive `n` lies between `2^floor_log2(n)` and the next power of two.
pub proof fn lemma_floor_log2_bounds(n: nat)
    requires
        n >= 1,
    ensures
        pow2(floor_log2(n)) <= n < pow2(floor_log2(n) + 1),
    decreases n,
{
    lemma2_to64();
    if n > 1 {
        lemma_floor_log2_bounds(n / 2);
        let l: nat = floor_log2(n / 2);
        lemma_pow2_unfold(l + 1);
        lemma_pow2_unfold(l + 2);
    }
}

/// The only `k` with `2^k <= n < 2^(k+1)` is `floor_log2(n)`.
pub proof fn lemma_floor_log2_unique(n: nat, k: nat)
    requires
        pow2(k) <= n < pow2(k + 1),
    ensures
        floor_log2(n) == k,
    decreases k,
{
    lemma2_to64();
    if k > 0 {
        lemma_pow2_unfold(k);
        lemma_pow2_unfold(k + 1);
        lemma_floor_log2_unique(n / 2, (k - 1) as nat);
    }
}

/// `floor_log2` never decreases.
pub proof fn lemma_floor_log2_monotone(a: nat, b: nat)
    requires
        a <= b,
    ensures
        floor_log2(a) <= floor_log2(b),
{
    if a >= 1 {
        lemma_floor_log2_bounds(a);
        lemma_floor_log2_bounds(b);
        if floor_log2(a) > floor_log2(b) {
            lemma_pow2_monotone(floor_log2(b) + 1, floor_log2(a));
        }
    }
}

/// A quotient is pinned down by the two bounds `q * d <= n < (q + 1) * d`.
pub proof fn lemma_div_from_bounds(n: int, d: int, q: int)
    requires
        d > 0,
        q * d <= n < (q + 1) * d,
    ensures
        n / d == q,
        n % d == n - q * d,
{
    assert(n == q * d + (n - q * d));
    assert((q + 1) * d == q * d + d) by (nonlinear_arith);
    lemma_fundamental_div_mod_converse(n, d, q, n - q * d);
}

/// The two bounds that a quotient satisfies.
pub proof fn lemma_div_bounds(n: int, d: int)
    requires
        d > 0,
    ensures
        (n / d) * d <= n < (n / d + 1) * d,
        n == (n / d) * d + n % d,
        0 <= n % d < d,
{
    lemma_fundamental_div_mod(n, d);
    assert((n / d) * d == d * (n / d)) by (nonlinear_arith);
    assert((n / d + 1) * d == (n / d) * d + d) by (nonlinear_arith);
}

/// `2^k` as a machine integer.
pub fn pow2_u64(k: u32) -> (r: u64)
    requires
        k < 64,
    ensures
        r == pow2(k as nat),
        r > 0,
{
    proof {
        lemma_u64_pow2_no_overflow(k as nat);
        lemma_u64_shl_is_mul(1u64, k as u64);
    }
    1u64 << (k as u64)
}

/// `x` shifted right by `k` bits is the quotient of `x` by `2^k`.
pub fn shr_u64(x: u64, k: u32) -> (r: u64)
    requires
        k < 64,
    ensures
        r == x as nat / pow2(k as nat),
{
    proof {
        lemma_u64_shr_is_div(x, k as u64);
    }
    x >> (k as u64)
}

/// `x` shifted left by `k` bits is `x * 2^k` where that fits.
pub fn shl_u64(x: u64, k: u32) -> (r: u64)
    requires
        k < 64,
        x * pow2(k as nat) <= u64::MAX,
    ensures
        r == x * pow2(k as nat),
{
    proof {
        lemma_u64_shl_is_mul(x, k as u64);
    }
    x << (k as u64)
}

/// One halving step of the search for the leading bit.
proof fn lemma_log_step(x: nat, l: nat, j: nat)
    ensures
        (x / pow2(l)) / pow2(j) == x / pow2(l + j),
{
    lemma_pow2_split(l, j);
    lemma_div_denominator(x as int, pow2(l) as int, pow2(j) as int);
}

/// The position of the leading one bit of a positive `x`.
pub fn floor_log2_u64(x: u64) -> (l: u32)
    requires
        x > 0,
    ensures
        l < 64,
        l == floor_log2(x as nat),
        pow2(l as nat) <= x < pow2(l as nat + 1),
{
    proof {
        lemma2_to64();
        lemma2_to64_rest();
    }
    let mut v: u64 = x;
    let mut l: u32 = 0;
    assert(v == x as nat / pow2(0));
    if v >= 0x1_0000_0000 {
        proof {
            lemma_log_step(x as nat, l as nat, 32);
        }
        v = v / 0x1_0000_0000;
        l = l + 32;
    }
    assert(v == x as nat / pow2(l as nat) && 1 <= v < 0x1_0000_0000);
    if v >= 0x1_0000 {
        proof {
            lemma_log_step(x as nat, l as nat, 16);
        }
        v = v / 0x1_0000;
        l = l + 16;
    }
    assert(v == x as nat / pow2(l as nat) && 1 <= v < 0x1_0000);
    if v >= 0x100 {
        proof {
            lemma_log_step(x as nat, l as nat, 8);
        }
        v = v / 0x100;
        l = l + 8;
    }
    assert(v == x as nat / pow2(l as nat) && 1 <= v < 0x100);
    if v >= 0x10 {
        proof {
            lemma_log_step(x as nat, l as nat, 4);
        }
        v = v / 0x10;
        l = l + 4;
    }
    assert(v == x as nat / pow2(l as nat) && 1 <= v < 0x10);
    if v >= 4 {
        proof {
            lemma_log_step(x as nat, l as nat, 2);
        }
        v = v / 4;
        l = l + 2;
    }
    assert(v == x as nat / pow2(l as nat) && 1 <= v < 4);
    if v >= 2 {
        proof {
            lemma_log_step(x as nat, l as nat, 1);
        }
        v = v / 2;
        l = l + 1;
    }
    proof {
        assert(v == 1 && v == x as nat / pow2(l as nat));
        lemma_pow2_pos(l as nat);
        lemma_div_bounds(x as int, pow2(l as nat) as int);
        lemma_pow2_unfold(l as nat + 1);
        lemma_floor_log2_unique(x as nat, l as nat);
    }
    l
}

/// The largest `r` with `r * r <= n`.
pub open spec fn floor_sqrt(n: nat) -> nat
    decreases n,
{
    if n == 0 {
        0
    } else {
        let r = 2 * floor_sqrt(n / 4);
        if (r + 1) * (r + 1) <= n {
            r + 1
        } else {
            r
        }
    }
}

/// Squaring keeps the order of naturals, in both directions.
pub proof fn lemma_square_order(a: nat, b: nat)
    ensures
        a <= b <==> a * a <= b * b,
        a < b <==> a * a < b * b,
{
    if a <= b {
        assert(a * a <= b * b) by (nonlinear_arith)
            requires
                a <= b,
        ;
    }
    if a < b {
        assert(a * a < b * b) by (nonlinear_arith)
            requires
                a < b,
        ;
    }
    if b <= a {
        assert(b * b <= a * a) by (nonlinear_arith)
            requires
                b <= a,
        ;
    }
    if b < a {
        assert(b * b < a * a) by (nonlinear_arith)
            requires
                b < a,
        ;
    }
}

/// `n` lies between the square of `floor_sqrt(n)` and the next square.
pub proof fn lemma_floor_sqrt_bounds(n: nat)
    ensures
        floor_sqrt(n) * floor_sqrt(n) <= n < (floor_sqrt(n) + 1) * (floor_sqrt(n) + 1),
    decreases n,
{
    let f: nat = floor_sqrt(n);
    if n == 0 {
        assert(f * f == 0 && (f + 1) * (f + 1) == 1) by (nonlinear_arith)
            requires
                f == 0,
        ;
    } else {
        lemma_floor_sqrt_bounds(n / 4);
        let q: nat = n / 4;
        let r0: nat = floor_sqrt(q);
        let r: nat = 2 * r0;
        assert(r * r <= n && n < (r + 2) * (r + 2)) by (nonlinear_arith)
            requires
                r == 2 * r0,
                r0 * r0 <= q,
                q < (r0 + 1) * (r0 + 1),
                4 * q <= n < 4 * q + 4,
        ;
        if (r + 1) * (r + 1) <= n {
            assert(f * f == (r + 1) * (r + 1) && (f + 1) * (f + 1) == (r + 2) * (r + 2))
                by (nonlinear_arith)
                requires
                    f == r + 1,
            ;
        } else {
            assert(f * f == r * r && (f + 1) * (f + 1) == (r + 1) * (r + 1)) by (nonlinear_arith)
                requires
                    f == r,
            ;
        }
    }
}

/// The only `r` with `r * r <= n < (r + 1) * (r + 1)` is `floor_sqrt(n)`.
pub proof fn lemma_floor_sqrt_unique(n: nat, r: nat)
    requires
        r * r <= n < (r + 1) * (r + 1),
    ensures
        floor_sqrt(n) == r,
{
    lemma_floor_sqrt_bounds(n);
    let f: nat = floor_sqrt(n);
    lemma_square_order(f + 1, r);
    lemma_square_order(r + 1, f);
}

/// The integer square root.
pub fn isqrt_u64(x: u64) -> (r: u64)
    ensures
        r == floor_sqrt(x as nat),
        r < 0x1_0000_0000,
        r * r <= x < (r + 1) * (r + 1),
{
    let mut r: u64 = 0;
    let mut i: u32 = 32;
    proof {
        lemma2_to64();
        assert(0x1_0000_0000nat * 0x1_0000_0000nat == 0x1_0000_0000_0000_0000nat);
    }
    while i > 0
        invariant
            i <= 32,
            r + pow2(i as nat) <= 0x1_0000_0000,
            r * r <= x,
            x < (r + pow2(i as nat)) * (r + pow2(i as nat)),
        decreases i,
    {
        i = i - 1;
        let bit: u64 = pow2_u64(i);
        proof {
            lemma_pow2_unfold(i as nat + 1);
        }
        let t: u64 = r + bit;
        assert(t * t < 0x1_0000_0000_0000_0000) by (nonlinear_arith)
            requires
                t < 0x1_0000_0000,
        ;
        if t * t <= x {
            r = t;
        }
    }
    proof {
        lemma2_to64();
        lemma_floor_sqrt_unique(x as nat, r as nat);
    }
    r
}

} // verus!
