use raytracer::binary32::F32;
use raytracer::color::{push_decimal, push_pixel, quantize, Color, CHANNEL_SCALE_BITS};

fn s(x: f32) -> F32 {
    F32::from_bits(x.to_bits())
}

#[test]
fn write_color() {
    let c = Color::new(s(0.1), s(0.2), s(0.3));

    let mut buffer: Vec<u8> = Vec::new();
    raytracer::color::write_color(&mut buffer, c);

    assert_eq!("25 51 76", String::from_utf8_lossy(&buffer[..8]));
    assert_eq!("25 51 76\n", String::from_utf8_lossy(&buffer));
}

#[test]
fn write_color_appends() {
    let mut buffer: Vec<u8> = b"P3\n".to_vec();
    raytracer::color::write_color(&mut buffer, Color::new(s(0.0), s(1.0), s(0.25)));
    raytracer::color::write_color(&mut buffer, Color::new(s(0.5), s(0.7), s(1.0)));
    assert_eq!("P3\n0 255 63\n127 179 255\n", String::from_utf8_lossy(&buffer));
}

#[test]
fn channel_scale_is_255_999() {
    assert_eq!(CHANNEL_SCALE_BITS, 255.999f32.to_bits());
}

#[test]
fn quantize_ends() {
    assert_eq!(quantize(s(0.0)), 0);
    assert_eq!(quantize(s(1.0)), 255);
    assert_eq!(quantize(s(-0.0)), 0);
}

#[test]
fn quantize_values() {
    assert_eq!(quantize(s(0.1)), 25);
    assert_eq!(quantize(s(0.2)), 51);
    assert_eq!(quantize(s(0.3)), 76);
    assert_eq!(quantize(s(0.25)), 63);
    assert_eq!(quantize(s(0.5)), 127);
    assert_eq!(quantize(s(0.999)), 255);
    // The first channel that reaches the level 1.
    assert_eq!(quantize(s(1.0 / 255.999)), (255.999f32 * (1.0f32 / 255.999f32)).floor() as i32);
}

#[test]
fn quantize_does_not_clamp() {
    assert_eq!(quantize(s(2.0)), 511);
    assert_eq!(quantize(s(1.01)), 258);
    assert_eq!(quantize(s(-1.0)), -256);
    // The level is the integer at or below the product, also below zero.
    assert_eq!(quantize(s(-0.001)), -1);
    assert_eq!(quantize(s(-0.5)), -128);
    assert_eq!(quantize(s(1.0e30)), i32::MAX);
    assert_eq!(quantize(s(-1.0e30)), i32::MIN);
    assert_eq!(quantize(s(f32::INFINITY)), i32::MAX);
    assert_eq!(quantize(s(f32::NEG_INFINITY)), i32::MIN);
    assert_eq!(quantize(s(f32::NAN)), 0);
}

#[test]
fn quantize_never_decreases() {
    let mut last = quantize(s(-2.0));
    let mut x = -2.0f32;
    while x <= 3.0 {
        let q = quantize(s(x));
        assert!(q >= last, "{} at {}", q, x);
        assert_eq!(q, (255.999f32 * x).floor() as i32);
        last = q;
        x += 0.000_37;
    }
    // Neighbouring numbers around the steps from one level to the next.
    for level in 1..256 {
        let edge = level as f32 / 255.999f32;
        let mut bits = edge.to_bits() - 4;
        let mut prev = quantize(F32::from_bits(bits));
        for _ in 0..8 {
            bits += 1;
            let q = quantize(F32::from_bits(bits));
            assert!(q >= prev);
            prev = q;
        }
    }
}

#[test]
fn quantize_stays_in_range_on_the_unit_interval() {
    let mut x = 0.0f32;
    while x <= 1.0 {
        let q = quantize(s(x));
        assert!(0 <= q && q <= 255);
        x += 0.001_3;
    }
}

#[test]
fn decimal_text() {
    let cases: [(i32, &str); 9] = [
        (0, "0"),
        (7, "7"),
        (10, "10"),
        (255, "255"),
        (1000, "1000"),
        (-1, "-1"),
        (-256, "-256"),
        (i32::MAX, "2147483647"),
        (i32::MIN, "-2147483648"),
    ];
    for (n, text) in cases.iter() {
        let mut out: Vec<u8> = Vec::new();
        push_decimal(&mut out, *n);
        assert_eq!(String::from_utf8_lossy(&out), *text);
        assert_eq!(String::from_utf8_lossy(&out), format!("{}", n));
    }
}

#[test]
fn pixel_text() {
    let mut out: Vec<u8> = Vec::new();
    push_pixel(&mut out, 25, 51, 76);
    push_pixel(&mut out, -3, 0, 300);
    assert_eq!(String::from_utf8_lossy(&out), "25 51 76\n-3 0 300\n");
}
