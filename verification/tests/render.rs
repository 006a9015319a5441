use raytracer::binary32::F32;
use raytracer::camera::Camera;
use raytracer::render::{header, make_ppm, pixel_color, render_scanline, Shading, QUARTER_BITS};
use raytracer::vec3::Vec3;

fn s(x: f32) -> F32 {
    F32::from_bits(x.to_bits())
}

fn f(x: F32) -> f32 {
    f32::from_bits(x.to_bits())
}

fn v3(x: f32, y: f32, z: f32) -> Vec3 {
    Vec3::new(s(x), s(y), s(z))
}

fn camera(aspect: f32, width: i32) -> Camera {
    Camera::new(s(aspect), width, s(2.0), s(1.0))
}

fn length(v: [f32; 3]) -> f32 {
    (v[0] * v[0] + v[1] * v[1] + v[2] * v[2]).sqrt()
}

fn unit(v: [f32; 3]) -> [f32; 3] {
    let k = 1.0 / length(v);
    [v[0] * k, v[1] * k, v[2] * k]
}

// The colour of a ray with hardware arithmetic.
fn ray_color_native(o: [f32; 3], d: [f32; 3]) -> [f32; 3] {
    let c = [0.0f32, 0.0, -1.0];
    let oc = [o[0] - c[0], o[1] - c[1], o[2] - c[2]];
    let a = d[0] * d[0] + d[1] * d[1] + d[2] * d[2];
    let b = 2.0 * (oc[0] * d[0] + oc[1] * d[1] + oc[2] * d[2]);
    let cc = oc[0] * oc[0] + oc[1] * oc[1] + oc[2] * oc[2] - 0.5f32 * 0.5f32;
    let disc = b * b - 4.0 * a * cc;
    let t = if disc < 0.0 { -1.0 } else { (-b - disc.sqrt()) / (2.0 * a) };
    if t > 0.0 {
        let p = [o[0] + d[0] * t, o[1] + d[1] * t, o[2] + d[2] * t];
        let n = unit([p[0] - c[0], p[1] - c[1], p[2] - c[2]]);
        return [(n[0] + 1.0) * 0.5, (n[1] + 1.0) * 0.5, (n[2] + 1.0) * 0.5];
    }
    let u = unit(d);
    let t = 0.5 * (u[1] + 1.0);
    [
        1.0 * (1.0 - t) + 0.5 * t,
        1.0 * (1.0 - t) + 0.7 * t,
        1.0 * (1.0 - t) + 1.0 * t,
    ]
}

fn line_native(c: [f32; 3]) -> String {
    format!(
        "{} {} {}\n",
        (255.999 * c[0]) as i32,
        (255.999 * c[1]) as i32,
        (255.999 * c[2]) as i32
    )
}

// The whole image with hardware arithmetic.
fn image_native(width: i32, aspect: f32, sphere: bool) -> String {
    let height = (width as f32 / aspect) as i32;
    let viewport_height = 2.0f32;
    let viewport_width = aspect * viewport_height;
    let focal_length = 1.0f32;
    let origin = [0.0f32, 0.0, 0.0];
    let horizontal = [viewport_width, 0.0, 0.0];
    let vertical = [0.0, viewport_height, 0.0];
    let half = 1.0f32 / 2.0;
    let mut llc = [0.0f32; 3];
    for k in 0..3 {
        llc[k] = origin[k] - horizontal[k] * half - vertical[k] * half - [0.0, 0.0, focal_length][k];
    }
    let mut text = format!("P3\n{} {}\n255\n", width, height);
    let mut j = height - 1;
    while j >= 0 {
        for i in 0..width {
            let u = i as f32 / (width - 1) as f32;
            let v = j as f32 / (height - 1) as f32;
            if sphere {
                let mut d = [0.0f32; 3];
                for k in 0..3 {
                    d[k] = llc[k] + horizontal[k] * u + vertical[k] * v - origin[k];
                }
                text.push_str(&line_native(ray_color_native(origin, d)));
            } else {
                text.push_str(&line_native([u, v, 0.25]));
            }
        }
        j -= 1;
    }
    text
}

#[test]
fn header_text() {
    assert_eq!(String::from_utf8_lossy(&header(256, 256)), "P3\n256 256\n255\n");
    assert_eq!(String::from_utf8_lossy(&header(400, 225)), "P3\n400 225\n255\n");
    assert_eq!(String::from_utf8_lossy(&header(1, 0)), "P3\n1 0\n255\n");
}

#[test]
fn quarter_is_a_quarter() {
    assert_eq!(QUARTER_BITS, 0.25f32.to_bits());
}

#[test]
fn camera_of_the_wide_image() {
    let cam = camera(16.0 / 9.0, 400);
    assert_eq!(cam.image_width(), 400);
    assert_eq!(cam.image_height(), 225);
    let w = (16.0f32 / 9.0) * 2.0;
    assert_eq!(cam.origin(), v3(0.0, 0.0, 0.0));
    assert_eq!(cam.horizontal(), v3(w, 0.0, 0.0));
    assert_eq!(cam.vertical(), v3(0.0, 2.0, 0.0));
    assert_eq!(cam.lower_left_corner(), v3(-w * 0.5, -1.0, -1.0));
    assert_eq!(f(cam.horizontal().x()).to_bits(), w.to_bits());
    assert_eq!(f(cam.viewport_width()).to_bits(), w.to_bits());
    assert_eq!(f(cam.viewport_height()).to_bits(), 2.0f32.to_bits());
}

#[test]
fn camera_heights_are_cut_off() {
    assert_eq!(camera(1.0, 256).image_height(), 256);
    assert_eq!(camera(1.5, 100).image_height(), 66);
    assert_eq!(camera(3.0, 100).image_height(), 33);
    assert_eq!(camera(2.0, 1).image_height(), 0);
    assert_eq!(camera(1.0e-30, 100).image_height(), i32::MAX);
    assert_eq!(camera(0.0, 100).image_height(), i32::MAX);
    assert_eq!(camera(0.0, 0).image_height(), 0);
}

#[test]
fn camera_rays_through_the_corners() {
    let cam = camera(16.0 / 9.0, 400);
    let w = (16.0f32 / 9.0) * 2.0;
    let left = -w * 0.5;
    let r = cam.pixel_ray(0, 0);
    assert_eq!(r.origin(), v3(0.0, 0.0, 0.0));
    assert_eq!(r.direction(), v3(left, -1.0, -1.0));
    let r = cam.pixel_ray(399, 224);
    assert_eq!(r.direction(), v3(left + w * 1.0, -1.0 + 2.0 * 1.0, -1.0));
    let r = cam.pixel_ray(100, 50);
    let u = 100.0f32 / 399.0;
    let v = 50.0f32 / 224.0;
    assert_eq!(r.direction(), v3(left + w * u, -1.0 + 2.0 * v, -1.0));
}

#[test]
fn gradient_256() {
    let cam = camera(1.0, 256);
    let text = make_ppm(&cam, Shading::Gradient).unwrap();
    let text = String::from_utf8(text).unwrap();
    assert!(text.starts_with("P3\n256 256\n255\n"));
    let lines: Vec<&str> = text.lines().collect();
    assert_eq!(lines.len(), 3 + 65536);
    // The first pixel line is that of the top left pixel: i = 0, j = 255.
    assert_eq!(lines[3], "0 255 63");
    // The last one that of the bottom right pixel: i = 255, j = 0.
    assert_eq!(lines[3 + 65535], "255 0 63");
    // The top right and the bottom left.
    assert_eq!(lines[3 + 255], "255 255 63");
    assert_eq!(lines[3 + 65536 - 256], "0 0 63");
    assert!(text.ends_with("\n"));
    assert_eq!(text, image_native(256, 1.0, false));
}

#[test]
fn gradient_400_by_225_matches_the_formula() {
    let cam = camera(16.0 / 9.0, 400);
    let text = make_ppm(&cam, Shading::Gradient).unwrap();
    let want = image_native(400, 16.0 / 9.0, false);
    assert_eq!(text.len(), want.len());
    assert!(text == want.as_bytes());
    assert_eq!(want.lines().count(), 3 + 400 * 225);
}

#[test]
fn sphere_400_by_225_matches_hardware_arithmetic() {
    let cam = camera(16.0 / 9.0, 400);
    let text = make_ppm(&cam, Shading::Sphere).unwrap();
    let want = image_native(400, 16.0 / 9.0, true);
    assert_eq!(text.len(), want.len());
    assert!(text == want.as_bytes());
    // The centre of the image shows the sphere head-on, the corner the sky.
    let lines: Vec<&str> = want.lines().collect();
    assert_eq!(lines[3], line_native(ray_color_native([0.0; 3], [-(16.0f32 / 9.0), 1.0, -1.0])).trim_end());
}

#[test]
fn scanlines_come_from_the_top_and_from_the_left() {
    let cam = camera(2.0, 6);
    assert_eq!(cam.image_height(), 3);
    let whole = make_ppm(&cam, Shading::Sphere).unwrap();
    let mut parts: Vec<u8> = header(6, 3);
    for j in [2, 1, 0].iter() {
        render_scanline(&cam, Shading::Sphere, *j, &mut parts).unwrap();
    }
    assert_eq!(whole, parts);
    let mut row: Vec<u8> = Vec::new();
    render_scanline(&cam, Shading::Gradient, 1, &mut row).unwrap();
    assert_eq!(
        String::from_utf8_lossy(&row),
        "0 127 63\n51 127 63\n102 127 63\n153 127 63\n204 127 63\n255 127 63\n"
    );
}

#[test]
fn pixel_colors() {
    let cam = camera(1.0, 256);
    let c = pixel_color(&cam, Shading::Gradient, 0, 255).unwrap();
    assert_eq!(c, v3(0.0, 1.0, 0.25));
    let c = pixel_color(&cam, Shading::Gradient, 51, 204).unwrap();
    assert_eq!(c, v3(51.0 / 255.0, 204.0 / 255.0, 0.25));
    let cam = camera(1.0, 3);
    // The middle pixel of a 3 by 3 image looks straight at the sphere.
    let c = pixel_color(&cam, Shading::Sphere, 1, 1).unwrap();
    assert_eq!(c, v3(0.5, 0.5, 1.0));
}

#[test]
fn empty_images_are_a_header_only() {
    let cam = camera(2.0, 1);
    assert_eq!(String::from_utf8_lossy(&make_ppm(&cam, Shading::Sphere).unwrap()), "P3\n1 0\n255\n");
    let cam = camera(1.0, 0);
    assert_eq!(String::from_utf8_lossy(&make_ppm(&cam, Shading::Gradient).unwrap()), "P3\n0 0\n255\n");
    let cam = camera(1.0, -4);
    assert_eq!(String::from_utf8_lossy(&make_ppm(&cam, Shading::Gradient).unwrap()), "P3\n-4 -4\n255\n");
}

#[test]
fn one_pixel_wide_image_has_no_numbers_for_its_columns() {
    // With a single column i / (width - 1) is zero by zero.
    let cam = camera(0.5, 1);
    assert_eq!(cam.image_height(), 2);
    let text = make_ppm(&cam, Shading::Gradient).unwrap();
    assert_eq!(String::from_utf8_lossy(&text), "P3\n1 2\n255\n0 255 63\n0 0 63\n");
}

#[test]
fn degenerate_camera_is_a_domain_error() {
    // Without a focal length and a viewport every ray has the direction zero.
    let cam = Camera::new(s(1.0), 2, s(0.0), s(0.0));
    assert!(make_ppm(&cam, Shading::Sphere).is_err());
    let mut row: Vec<u8> = Vec::new();
    assert!(render_scanline(&cam, Shading::Sphere, 0, &mut row).is_err());
    assert!(pixel_color(&cam, Shading::Sphere, 0, 0).is_err());
    assert!(make_ppm(&cam, Shading::Gradient).is_ok());
}
