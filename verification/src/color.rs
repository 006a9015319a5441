//! Colours, their quantization to 8-bit channels, and the text of one pixel.
use vstd::prelude::*;
use vstd::arithmetic::power2::{lemma2_to64, lemma_pow2_pos, lemma_pow2_strictly_increases, pow2};
use crate::binary32::{lemma_mul_exact, lemma_mul_one, lemma_view_exact, value_of_bits, F32};
use crate::intmath::{lemma_div_from_bounds, lemma_pow2_split};
use crate::value::{
    lemma_floor_monotone, lemma_mul_zero, lemma_scale_monotone, one, zero, Value,
};
use crate::vec3::{Vec3, Vector};

verus! {

/// A colour: red, green and blue, each meant to lie between zero and one.
pub type Color = Vec3;

/// The bits of 255.999, the factor that takes a channel to its 8-bit level.
pub const CHANNEL_SCALE_BITS: u32 = 0x437f_ffbe;

/// The 8-bit level of a channel: the channel times 255.999, rounded as a
/// binary32 product, and of that the integer at or next below it. The channel
/// is not clamped: a value outside zero to one gives a level outside 0 to 255.
pub open spec fn quantize_spec(channel: Value) -> int {
    value_of_bits(CHANNEL_SCALE_BITS).mul(channel).floor_i32()
}

/// The decimal digits of `n` as ASCII, most significant first.
pub open spec fn digits(n: nat) -> Seq<u8>
    decreases n,
{
    if n < 10 {
        seq![(48 + n) as u8]
    } else {
        digits(n / 10).push((48 + n % 10) as u8)
    }
}

/// The decimal text of an integer as ASCII, with a minus sign where negative.
pub open spec fn decimal(n: int) -> Seq<u8> {
    if n < 0 {
        seq![45u8] + digits((-n) as nat)
    } else {
        digits(n as nat)
    }
}

/// The line of one pixel: three decimal integers, a space between them, and a
/// line feed.
pub open spec fn pixel_line(r: int, g: int, b: int) -> Seq<u8> {
    decimal(r) + seq![32u8] + decimal(g) + seq![32u8] + decimal(b) + seq![10u8]
}

/// The line of a colour: that of its three quantized channels.
pub open spec fn color_line(c: Vector) -> Seq<u8> {
    pixel_line(quantize_spec(c.x), quantize_spec(c.y), quantize_spec(c.z))
}

/// The 8-bit level of a channel; between 0 and 255 for a channel between
/// zero and one.
pub fn quantize(channel: F32) -> (level: i32)
    ensures
        level == quantize_spec(channel@),
        zero().le(channel@) && channel@.le(one()) ==> 0 <= level <= 255,
{
    proof {
        if zero().le(channel@) && channel@.le(one()) {
            lemma_quantize_range(channel);
        }
    }
    F32::from_bits(CHANNEL_SCALE_BITS).mul(channel).floor_to_i32()
}

/// Appends the decimal digits of `n`.
fn push_digits(out: &mut Vec<u8>, n: u32)
    ensures
        final(out)@ == old(out)@ + digits(n as nat),
    decreases n,
{
    if n >= 10 {
        push_digits(out, n / 10);
    }
    out.push(48 + (n % 10) as u8);
    assert(final(out)@ =~= old(out)@ + digits(n as nat));
}

/// Appends the decimal text of `n`.
pub fn push_decimal(out: &mut Vec<u8>, n: i32)
    ensures
        final(out)@ == old(out)@ + decimal(n as int),
{
    if n < 0 {
        out.push(45);
        push_digits(out, (-(n as i64)) as u32);
    } else {
        push_digits(out, n as u32);
    }
    assert(final(out)@ =~= old(out)@ + decimal(n as int));
}

/// Appends the line of three channel levels.
pub fn push_pixel(out: &mut Vec<u8>, r: i32, g: i32, b: i32)
    ensures
        final(out)@ == old(out)@ + pixel_line(r as int, g as int, b as int),
{
    push_decimal(out, r);
    out.push(32);
    push_decimal(out, g);
    out.push(32);
    push_decimal(out, b);
    out.push(10);
    assert(final(out)@ =~= old(out)@ + pixel_line(r as int, g as int, b as int));
}

/// Appends the line of a colour to the image text.
pub fn write_color(out: &mut Vec<u8>, pixel_color: Color)
    ensures
        final(out)@ == old(out)@ + color_line(pixel_color@),
{
    let r: i32 = quantize(pixel_color.x());
    let g: i32 = quantize(pixel_color.y());
    let b: i32 = quantize(pixel_color.z());
    push_pixel(out, r, g, b);
}

/// The scale 255.999 is the finite positive number `0xffffbe * 2^-16`.
pub proof fn lemma_channel_scale()
    ensures
        value_of_bits(CHANNEL_SCALE_BITS) == (Value::Fin {
            neg: false,
            mag: 0xff_ffbe * pow2(133),
        }),
        value_of_bits(CHANNEL_SCALE_BITS).is_positive_finite(),
{
    lemma_pow2_pos(133);
    assert((CHANNEL_SCALE_BITS as nat / 0x80_0000) % 256 == 134);
    assert(CHANNEL_SCALE_BITS as nat % 0x80_0000 == 0x7f_ffbe);
    assert(0xff_ffbe * pow2(133) > 0) by (nonlinear_arith)
        requires
            pow2(133) > 0,
    ;
}

/// Quantization never decreases: of two channels in order, the levels are
/// in order.
pub proof fn lemma_quantize_monotone(a: F32, b: F32)
    requires
        a@.le(b@),
    ensures
        quantize_spec(a@) <= quantize_spec(b@),
{
    lemma_view_exact(a);
    lemma_view_exact(b);
    lemma_quantize_values_monotone(a@, b@);
}

/// Quantization never decreases, stated of values within the range of
/// binary32.
pub proof fn lemma_quantize_values_monotone(a: Value, b: Value)
    requires
        a.in_range(),
        b.in_range(),
        a.le(b),
    ensures
        quantize_spec(a) <= quantize_spec(b),
{
    let k: Value = value_of_bits(CHANNEL_SCALE_BITS);
    lemma_channel_scale();
    lemma_scale_monotone(k, a, b);
    lemma_floor_monotone(k.mul(a), k.mul(b));
}

/// A channel of zero has the level 0.
pub proof fn lemma_quantize_zero()
    ensures
        quantize_spec(zero()) == 0,
{
    let k: Value = value_of_bits(CHANNEL_SCALE_BITS);
    lemma_channel_scale();
    lemma_mul_zero(k, zero());
    lemma_pow2_pos(149);
    lemma_div_from_bounds(0, pow2(149) as int, 0);
}

/// A channel of one has the level 255.
pub proof fn lemma_quantize_one()
    ensures
        quantize_spec(one()) == 255,
{
    let k: F32 = F32 { bits: CHANNEL_SCALE_BITS };
    lemma_channel_scale();
    lemma_mul_one(k);
    lemma_pow2_pos(133);
    lemma_pow2_split(16, 133);
    lemma2_to64();
    let c: int = pow2(133) as int;
    assert(255 * (0x1_0000 * c) <= 0xff_ffbe * c < (255 + 1) * (0x1_0000 * c)) by (nonlinear_arith)
        requires
            c > 0,
    ;
    lemma_div_from_bounds(0xff_ffbe * c, pow2(149) as int, 255);
}

/// A channel between zero and one has a level between 0 and 255.
pub proof fn lemma_quantize_range(channel: F32)
    requires
        zero().le(channel@),
        channel@.le(one()),
    ensures
        0 <= quantize_spec(channel@) <= 255,
{
    lemma_view_exact(channel);
    lemma_quantize_values_range(channel@);
}

/// A value between zero and one has a level between 0 and 255.
pub proof fn lemma_quantize_values_range(channel: Value)
    requires
        channel.in_range(),
        zero().le(channel),
        channel.le(one()),
    ensures
        0 <= quantize_spec(channel) <= 255,
{
    lemma_quantize_zero();
    lemma_quantize_one();
    lemma2_to64();
    lemma_pow2_split(23, 126);
    lemma_pow2_strictly_increases(149, 277);
    lemma_quantize_values_monotone(zero(), channel);
    lemma_quantize_values_monotone(channel, one());
}

/// What is no number has the level 0.
pub proof fn lemma_quantize_nan()
    ensures
        quantize_spec(Value::Nan) == 0,
{
    lemma_channel_scale();
}

/// A channel of a quarter has the level 63.
pub proof fn lemma_quantize_quarter()
    ensures
        quantize_spec(value_of_bits(0x3e80_0000)) == 63,
{
    let k: F32 = F32 { bits: CHANNEL_SCALE_BITS };
    let q: F32 = F32 { bits: 0x3e80_0000 };
    let r: F32 = F32 { bits: 0x427f_ffbe };
    lemma_channel_scale();
    lemma2_to64();
    lemma_pow2_pos(124);
    lemma_pow2_pos(131);
    lemma_pow2_split(2, 131);
    lemma_pow2_split(25, 124);
    lemma_pow2_split(18, 131);
    assert((q.bits as nat / 0x80_0000) % 256 == 125);
    assert((r.bits as nat / 0x80_0000) % 256 == 132);
    assert(r.bits as nat % 0x80_0000 == 0x7f_ffbe);
    let c: nat = pow2(131);
    let d: nat = pow2(124);
    assert((0xff_ffbe * pow2(133)) * (0x80_0000 * d) == (0xff_ffbe * c) * pow2(149))
        by (nonlinear_arith)
        requires
            pow2(133) == 4 * c,
            pow2(149) == 0x200_0000 * d,
    ;
    lemma_mul_exact(k, q, r);
    assert(63 * (0x4_0000 * c) <= 0xff_ffbe * c < (63 + 1) * (0x4_0000 * c)) by (nonlinear_arith)
        requires
            c > 0,
    ;
    lemma_div_from_bounds((0xff_ffbe * c) as int, pow2(149) as int, 63);
}

} // verus!
