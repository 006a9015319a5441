//! The image as text: a header, then one line for each pixel, the top row
//! first and each row from left to right.
use vstd::prelude::*;
use vstd::arithmetic::power2::{lemma_pow2_pos, pow2};
use crate::binary32::{value_of_bits, F32};
use crate::camera::{Camera, CameraModel};
use crate::color::{
    color_line, decimal, lemma_quantize_nan, lemma_quantize_quarter, lemma_quantize_values_range,
    push_decimal, quantize_spec, write_color, Color,
};
use crate::rounding::lemma_round_mag_zero;
use crate::shade::{ray_color, ray_color_spec};
use crate::value::{lemma_fraction_in_unit_interval, value_of_int, Value};
use crate::vec3::{DomainError, Vector};

verus! {

/// The bits of 0.25.
pub const QUARTER_BITS: u32 = 0x3e80_0000;

/// How a pixel gets its colour.
#[derive(Clone, Copy, Debug)]
pub enum Shading {
    /// Red grows from left to right, green from bottom to top; blue is 0.25.
    Gradient,
    /// The ray through the pixel is shaded against the sphere and the sky.
    Sphere,
}

/// The header: the format token `P3`, width and height, and the largest
/// channel level 255, each on a line of its own.
pub open spec fn header_text(width: int, height: int) -> Seq<u8> {
    seq![80u8, 51u8, 10u8] + decimal(width) + seq![32u8] + decimal(height) + seq![
        10u8,
        50u8,
        53u8,
        53u8,
        10u8,
    ]
}

/// The colour of the pixel in column `i` of row `j`, rows counted from the
/// bottom; `None` where the shading of its ray fails.
#[verifier::opaque]
pub open spec fn pixel_color_spec(cam: CameraModel, shading: Shading, i: int, j: int) -> Option<
    Vector,
> {
    match shading {
        Shading::Gradient => Some(
            Vector { x: cam.u(i), y: cam.v(j), z: value_of_bits(QUARTER_BITS) },
        ),
        Shading::Sphere => ray_color_spec(cam.pixel_ray(i, j)),
    }
}

/// The lines of the first `n` pixels of row `j`; `None` where one of them
/// has no colour.
pub open spec fn row_prefix_spec(cam: CameraModel, shading: Shading, j: int, n: int) -> Option<
    Seq<u8>,
>
    decreases n,
{
    if n <= 0 {
        Some(Seq::empty())
    } else {
        match row_prefix_spec(cam, shading, j, n - 1) {
            None => None,
            Some(lines) => match pixel_color_spec(cam, shading, n - 1, j) {
                None => None,
                Some(c) => Some(lines + color_line(c)),
            },
        }
    }
}

/// The lines of row `j`.
#[verifier::opaque]
pub open spec fn scanline_spec(cam: CameraModel, shading: Shading, j: int) -> Option<Seq<u8>> {
    row_prefix_spec(cam, shading, j, cam.image_width)
}

/// The lines of the `k` topmost rows, the top row first.
pub open spec fn rows_spec(cam: CameraModel, shading: Shading, k: int) -> Option<Seq<u8>>
    decreases k,
{
    if k <= 0 {
        Some(Seq::empty())
    } else {
        match rows_spec(cam, shading, k - 1) {
            None => None,
            Some(lines) => match scanline_spec(cam, shading, cam.image_height - k) {
                None => None,
                Some(row) => Some(lines + row),
            },
        }
    }
}

/// The whole image: the header and all rows.
pub open spec fn image_spec(cam: CameraModel, shading: Shading) -> Option<Seq<u8>> {
    match rows_spec(cam, shading, cam.image_height) {
        None => None,
        Some(lines) => Some(header_text(cam.image_width, cam.image_height) + lines),
    }
}

/// A row that fails at one pixel fails at every longer prefix.
proof fn lemma_row_fails(cam: CameraModel, shading: Shading, j: int, n: int, m: int)
    requires
        n <= m,
        row_prefix_spec(cam, shading, j, n) is None,
    ensures
        row_prefix_spec(cam, shading, j, m) is None,
    decreases m - n,
{
    if n < m {
        lemma_row_fails(cam, shading, j, n, m - 1);
    }
}

/// An image that fails at one row fails as a whole.
proof fn lemma_rows_fail(cam: CameraModel, shading: Shading, k: int, m: int)
    requires
        k <= m,
        rows_spec(cam, shading, k) is None,
    ensures
        rows_spec(cam, shading, m) is None,
    decreases m - k,
{
    if k < m {
        lemma_rows_fail(cam, shading, k, m - 1);
    }
}

/// The header of an image of the given size.
pub fn header(width: i32, height: i32) -> (text: Vec<u8>)
    ensures
        text@ == header_text(width as int, height as int),
{
    let mut text: Vec<u8> = Vec::new();
    text.push(80);
    text.push(51);
    text.push(10);
    push_decimal(&mut text, width);
    text.push(32);
    push_decimal(&mut text, height);
    text.push(10);
    text.push(50);
    text.push(53);
    text.push(53);
    text.push(10);
    assert(text@ =~= header_text(width as int, height as int));
    text
}

/// The colour of the pixel in column `i` of row `j`, rows counted from the
/// bottom. An error where the shading of its ray meets a vector of length zero.
pub fn pixel_color(cam: &Camera, shading: Shading, i: i32, j: i32) -> (c: Result<
    Color,
    DomainError,
>)
    requires
        0 <= i < cam@.image_width,
        0 <= j < cam@.image_height,
    ensures
        c is Ok <==> pixel_color_spec(cam@, shading, i as int, j as int) is Some,
        c is Ok ==> pixel_color_spec(cam@, shading, i as int, j as int) == Some(c->Ok_0@),
{
    proof {
        reveal(pixel_color_spec);
    }
    match shading {
        Shading::Gradient => Ok(Color::new(cam.u(i), cam.v(j), F32::from_bits(QUARTER_BITS))),
        Shading::Sphere => ray_color(&cam.pixel_ray(i, j)),
    }
}

/// Appends the lines of row `j`, from left to right. On an error the lines
/// of the pixels before the first one without a colour have been appended.
pub fn render_scanline(cam: &Camera, shading: Shading, j: i32, out: &mut Vec<u8>) -> (r: Result<
    (),
    DomainError,
>)
    requires
        0 <= j < cam@.image_height,
    ensures
        r is Ok <==> scanline_spec(cam@, shading, j as int) is Some,
        r is Ok ==> final(out)@ == old(out)@ + scanline_spec(cam@, shading, j as int)->Some_0,
        r is Err ==> exists|n: int|
            0 <= n < cam@.image_width && pixel_color_spec(cam@, shading, n, j as int) is None
                && #[trigger] row_prefix_spec(cam@, shading, j as int, n) is Some && final(out)@
                == old(out)@ + row_prefix_spec(cam@, shading, j as int, n)->Some_0,
{
    let width: i32 = cam.image_width();
    let mut i: i32 = 0;
    while i < width
        invariant
            0 <= i,
            i <= width || (width < 0 && i == 0),
            width == cam@.image_width,
            0 <= j < cam@.image_height,
            row_prefix_spec(cam@, shading, j as int, i as int) is Some,
            out@ == old(out)@ + row_prefix_spec(cam@, shading, j as int, i as int)->Some_0,
        decreases width - i,
    {
        match pixel_color(cam, shading, i, j) {
            Ok(c) => {
                write_color(out, c);
                assert(out@ =~= old(out)@ + row_prefix_spec(
                    cam@,
                    shading,
                    j as int,
                    i as int + 1,
                )->Some_0);
            },
            Err(e) => {
                proof {
                    reveal(scanline_spec);
                    assert(row_prefix_spec(cam@, shading, j as int, i as int + 1) is None);
                    lemma_row_fails(cam@, shading, j as int, i as int + 1, width as int);
                }
                return Err(e);
            },
        }
        i = i + 1;
    }
    proof {
        reveal(scanline_spec);
    }
    Ok(())
}

/// The whole image as text: the header, then the rows from the top one down.
/// An error where some pixel has no colour, which no pixel of the gradient does.
pub fn make_ppm(cam: &Camera, shading: Shading) -> (r: Result<Vec<u8>, DomainError>)
    ensures
        r is Ok <==> image_spec(cam@, shading) is Some,
        r is Ok ==> image_spec(cam@, shading) == Some(r->Ok_0@),
        shading is Gradient ==> r is Ok,
{
    proof {
        lemma_gradient_image(*cam);
    }
    let width: i32 = cam.image_width();
    let height: i32 = cam.image_height();
    let mut out: Vec<u8> = header(width, height);
    let mut k: i32 = 0;
    while k < height
        invariant
            0 <= k,
            k <= height || (height < 0 && k == 0),
            width == cam@.image_width,
            height == cam@.image_height,
            rows_spec(cam@, shading, k as int) is Some,
            out@ == header_text(width as int, height as int) + rows_spec(
                cam@,
                shading,
                k as int,
            )->Some_0,
        decreases height - k,
    {
        match render_scanline(cam, shading, height - 1 - k, &mut out) {
            Ok(()) => {
                assert(out@ =~= header_text(width as int, height as int) + rows_spec(
                    cam@,
                    shading,
                    k as int + 1,
                )->Some_0);
            },
            Err(e) => {
                proof {
                    assert(rows_spec(cam@, shading, k as int + 1) is None);
                    lemma_rows_fail(cam@, shading, k as int + 1, height as int);
                    lemma_gradient_image(*cam);
                }
                return Err(e);
            },
        }
        k = k + 1;
    }
    Ok(out)
}

/// The level of a fraction `i / n` of whole numbers `0 <= i <= n` lies between
/// 0 and 255, also where `n` is zero and the fraction no number.
proof fn lemma_fraction_level(i: int, n: int)
    requires
        0 <= i <= n < 0x8000_0000,
    ensures
        0 <= quantize_spec(value_of_int(i).div(value_of_int(n))) <= 255,
{
    if n == 0 {
        lemma_pow2_pos(149);
        lemma_pow2_pos(277);
        assert(0nat * pow2(149) == 0);
        lemma_round_mag_zero(1);
        assert(value_of_int(0) == (Value::Fin { neg: false, mag: 0 }));
        lemma_quantize_nan();
    } else {
        lemma_fraction_in_unit_interval(i, n);
        lemma_quantize_values_range(value_of_int(i).div(value_of_int(n)));
    }
}

/// Every pixel of the gradient has its levels between 0 and 255: what the
/// image text holds for it is within the range that the header announces.
pub proof fn lemma_gradient_levels(cam: Camera, i: int, j: int)
    requires
        0 <= i < cam@.image_width,
        0 <= j < cam@.image_height,
    ensures
        pixel_color_spec(cam@, Shading::Gradient, i, j) is Some,
        0 <= quantize_spec(pixel_color_spec(cam@, Shading::Gradient, i, j)->Some_0.x) <= 255,
        0 <= quantize_spec(pixel_color_spec(cam@, Shading::Gradient, i, j)->Some_0.y) <= 255,
        quantize_spec(pixel_color_spec(cam@, Shading::Gradient, i, j)->Some_0.z) == 63,
{
    reveal(pixel_color_spec);
    lemma_fraction_level(i, cam@.image_width - 1);
    lemma_fraction_level(j, cam@.image_height - 1);
    lemma_quantize_quarter();
}

/// Every prefix of a row of the gradient has its lines.
proof fn lemma_gradient_row(cam: CameraModel, j: int, n: int)
    ensures
        row_prefix_spec(cam, Shading::Gradient, j, n) is Some,
    decreases n,
{
    reveal(pixel_color_spec);
    if n > 0 {
        lemma_gradient_row(cam, j, n - 1);
    }
}

/// Any number of rows of the gradient have their lines.
proof fn lemma_gradient_rows(cam: CameraModel, k: int)
    ensures
        rows_spec(cam, Shading::Gradient, k) is Some,
    decreases k,
{
    reveal(scanline_spec);
    if k > 0 {
        lemma_gradient_rows(cam, k - 1);
        lemma_gradient_row(cam, cam.image_height - k, cam.image_width);
    }
}

/// The gradient has an image for every camera: none of its pixels is without
/// a colour.
pub proof fn lemma_gradient_image(cam: Camera)
    ensures
        image_spec(cam@, Shading::Gradient) is Some,
{
    lemma_gradient_rows(cam@, cam@.image_height);
}

} // verus!
