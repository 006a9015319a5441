use raytracer::binary32::F32;
use raytracer::ray::Ray;
use raytracer::shade::{ray_color, HALF_BITS, MINUS_ONE_BITS, SEVEN_TENTHS_BITS};
use raytracer::sphere::{hit_sphere, Hit, FOUR_BITS, TWO_BITS};
use raytracer::vec3::{unit_vector, Vec3};

fn s(x: f32) -> F32 {
    F32::from_bits(x.to_bits())
}

fn f(x: F32) -> f32 {
    f32::from_bits(x.to_bits())
}

fn v3(x: f32, y: f32, z: f32) -> Vec3 {
    Vec3::new(s(x), s(y), s(z))
}

fn hit_t(h: Hit) -> Option<f32> {
    match h {
        Hit::Miss => None,
        Hit::At(t) => Some(f(t)),
    }
}

// The test with hardware arithmetic: `None` for a miss.
fn hit_native(c: [f32; 3], radius: f32, o: [f32; 3], d: [f32; 3]) -> Option<f32> {
    let oc = [o[0] - c[0], o[1] - c[1], o[2] - c[2]];
    let a = d[0] * d[0] + d[1] * d[1] + d[2] * d[2];
    let b = 2.0 * (oc[0] * d[0] + oc[1] * d[1] + oc[2] * d[2]);
    let cc = oc[0] * oc[0] + oc[1] * oc[1] + oc[2] * oc[2] - radius * radius;
    let disc = b * b - 4.0 * a * cc;
    if disc < 0.0 {
        return None;
    }
    Some((-b - disc.sqrt()) / (2.0 * a))
}

#[test]
fn constants_are_what_they_are_named() {
    assert_eq!(TWO_BITS, 2.0f32.to_bits());
    assert_eq!(FOUR_BITS, 4.0f32.to_bits());
    assert_eq!(HALF_BITS, 0.5f32.to_bits());
    assert_eq!(SEVEN_TENTHS_BITS, 0.7f32.to_bits());
    assert_eq!(MINUS_ONE_BITS, (-1.0f32).to_bits());
}

#[test]
fn ray_at_the_center_hits_at_distance_minus_radius() {
    let center = v3(0.0, 0.0, -1.0);
    let r = Ray::new(v3(0.0, 0.0, 0.0), v3(0.0, 0.0, -1.0));
    assert_eq!(hit_t(hit_sphere(&center, s(0.5), &r)), Some(0.5));

    // From other places outside, a unit direction towards the centre.
    let cases: [([f32; 3], [f32; 3], f32); 3] = [
        ([3.0, 4.0, 0.0], [0.0, 0.0, 0.0], 1.0),
        ([1.0, 2.0, 2.0], [-2.0, -4.0, -4.0], 2.5),
        ([10.0, 0.0, 0.0], [0.5, 0.25, -1.0], 0.125),
    ];
    for (o, c, radius) in cases.iter() {
        let to = [c[0] - o[0], c[1] - o[1], c[2] - o[2]];
        let dist = (to[0] * to[0] + to[1] * to[1] + to[2] * to[2]).sqrt();
        let d = [to[0] / dist, to[1] / dist, to[2] / dist];
        let r = Ray::new(v3(o[0], o[1], o[2]), v3(d[0], d[1], d[2]));
        let t = hit_t(hit_sphere(&v3(c[0], c[1], c[2]), s(*radius), &r)).unwrap();
        assert!((t - (dist - radius)).abs() < 1.0e-4 * dist, "{} {}", t, dist - radius);
    }
}

#[test]
fn ray_past_the_sphere_misses() {
    let center = v3(0.0, 0.0, -1.0);
    // Parallel to the axis, offset by more than the radius.
    let r = Ray::new(v3(0.6, 0.0, 0.0), v3(0.0, 0.0, -1.0));
    assert!(matches!(hit_sphere(&center, s(0.5), &r), Hit::Miss));
    let r = Ray::new(v3(0.0, -2.0, 0.0), v3(0.0, 0.0, -1.0));
    assert!(matches!(hit_sphere(&center, s(0.5), &r), Hit::Miss));
    // Straight up.
    let r = Ray::new(v3(0.0, 0.0, 0.0), v3(0.0, 1.0, 0.0));
    assert!(matches!(hit_sphere(&center, s(0.5), &r), Hit::Miss));
    // Just inside the radius it is a hit.
    let r = Ray::new(v3(0.49, 0.0, 0.0), v3(0.0, 0.0, -1.0));
    assert!(matches!(hit_sphere(&center, s(0.5), &r), Hit::At(_)));
}

#[test]
fn sphere_behind_the_origin_gives_a_negative_parameter() {
    let center = v3(0.0, 0.0, 1.0);
    let r = Ray::new(v3(0.0, 0.0, 0.0), v3(0.0, 0.0, -1.0));
    assert_eq!(hit_t(hit_sphere(&center, s(0.5), &r)), Some(-1.5));
    // From inside the sphere the nearer root lies behind as well.
    let r = Ray::new(v3(0.0, 0.0, -1.0), v3(0.0, 0.0, -1.0));
    assert_eq!(hit_t(hit_sphere(&v3(0.0, 0.0, -1.0), s(0.5), &r)), Some(-0.5));
}

#[test]
fn tangent_ray_is_a_hit() {
    // The discriminant is exactly zero: no miss.
    let center = v3(0.0, 0.0, -1.0);
    let r = Ray::new(v3(0.5, 0.0, 0.0), v3(0.0, 0.0, -1.0));
    assert_eq!(hit_t(hit_sphere(&center, s(0.5), &r)), Some(1.0));
}

#[test]
fn hit_sphere_matches_hardware_arithmetic() {
    let mut state: u64 = 7;
    let mut next = move || {
        state = state.wrapping_mul(6364136223846793005).wrapping_add(1442695040888963407);
        ((state >> 40) as f32 / (1u64 << 24) as f32) * 4.0 - 2.0
    };
    let mut hits = 0;
    for _ in 0..20_000 {
        let o = [next(), next(), next()];
        let d = [next(), next(), next()];
        let c = [next(), next(), next()];
        let radius = next().abs();
        let r = Ray::new(v3(o[0], o[1], o[2]), v3(d[0], d[1], d[2]));
        let got = hit_t(hit_sphere(&v3(c[0], c[1], c[2]), s(radius), &r));
        let want = hit_native(c, radius, o, d);
        assert_eq!(got.map(f32::to_bits), want.map(f32::to_bits));
        if got.is_some() {
            hits += 1;
        }
    }
    assert!(hits > 1000 && hits < 19_000);
}

#[test]
fn zero_direction_gives_a_parameter_that_is_no_number() {
    let center = v3(0.0, 0.0, -1.0);
    let r = Ray::new(v3(0.0, 0.0, -1.0), v3(0.0, 0.0, 0.0));
    match hit_sphere(&center, s(0.5), &r) {
        Hit::At(t) => assert!(t.is_nan()),
        Hit::Miss => panic!("a discriminant of zero is no miss"),
    }
}

#[test]
fn ray_towards_the_sphere_is_shaded_by_its_normal() {
    // Hits at t = 0.5, where the normal is (0, 0, 1): the colour is
    // 0.5 * (normal + 1) = (0.5, 0.5, 1).
    let center = v3(0.0, 0.0, -1.0);
    let r = Ray::new(v3(0.0, 0.0, 0.0), v3(0.0, 0.0, -1.0));
    assert_eq!(hit_t(hit_sphere(&center, s(0.5), &r)), Some(0.5));
    let normal = unit_vector(r.at(s(0.5)).sub(center)).unwrap();
    assert_eq!(normal, v3(0.0, 0.0, 1.0));
    let c = ray_color(&r).unwrap();
    assert_eq!(c, v3(0.5, 0.5, 1.0));
}

#[test]
fn normals_along_the_axes() {
    // 0.5 * (n + 1) takes the component 1 to 1, 0 to 0.5 and -1 to 0.
    let r = Ray::new(v3(0.0, 2.0, -1.0), v3(0.0, -1.0, 0.0));
    assert_eq!(ray_color(&r).unwrap(), v3(0.5, 1.0, 0.5));
    let r = Ray::new(v3(-2.0, 0.0, -1.0), v3(1.0, 0.0, 0.0));
    assert_eq!(ray_color(&r).unwrap(), v3(0.0, 0.5, 0.5));
}

#[test]
fn ray_straight_up_is_sky_blue() {
    let r = Ray::new(v3(0.0, 0.0, 0.0), v3(0.0, 1.0, 0.0));
    assert_eq!(ray_color(&r).unwrap(), v3(0.5, 0.7, 1.0));
    // The length of the direction does not matter, nor does the origin.
    let r = Ray::new(v3(5.0, 5.0, 5.0), v3(0.0, 8.0, 0.0));
    assert_eq!(ray_color(&r).unwrap(), v3(0.5, 0.7, 1.0));
}

#[test]
fn ray_straight_down_is_white() {
    let r = Ray::new(v3(0.0, 0.0, 0.0), v3(0.0, -1.0, 0.0));
    assert_eq!(ray_color(&r).unwrap(), v3(1.0, 1.0, 1.0));
}

#[test]
fn horizontal_ray_is_half_way_between() {
    let r = Ray::new(v3(0.0, 0.0, 0.0), v3(1.0, 0.0, 0.0));
    let t = 0.5f32;
    let want = v3(
        (1.0 - t) * 1.0 + t * 0.5,
        (1.0 - t) * 1.0 + t * 0.7,
        (1.0 - t) * 1.0 + t * 1.0,
    );
    assert_eq!(ray_color(&r).unwrap(), want);
}

#[test]
fn sphere_behind_the_ray_does_not_shade_it() {
    // The ray leaves the sphere behind: the parameter is negative, the sky shows.
    let r = Ray::new(v3(0.0, 0.0, -3.0), v3(0.0, 0.0, -1.0));
    let t = 0.5f32 * (0.0 + 1.0);
    let want = v3(
        (1.0 - t) * 1.0 + t * 0.5,
        (1.0 - t) * 1.0 + t * 0.7,
        (1.0 - t) * 1.0 + t * 1.0,
    );
    assert_eq!(ray_color(&r).unwrap(), want);
}

#[test]
fn ray_without_direction_is_a_domain_error() {
    let r = Ray::new(v3(1.0, 2.0, 3.0), v3(0.0, 0.0, 0.0));
    assert!(ray_color(&r).is_err());
    let r = Ray::new(v3(0.0, 0.0, 0.0), v3(0.0, -0.0, 0.0));
    assert!(ray_color(&r).is_err());
}
