use raytracer::binary32::F32;
use raytracer::vec3::{unit_vector, Vec3};

fn s(x: f32) -> F32 {
    F32::from_bits(x.to_bits())
}

fn f(x: F32) -> f32 {
    f32::from_bits(x.to_bits())
}

fn v3(x: f32, y: f32, z: f32) -> Vec3 {
    Vec3::new(s(x), s(y), s(z))
}

#[test]
fn vec3_new() {
    let (x, y, z) = (1.0, 2.0, 3.0);

    let v = v3(x, y, z);
    assert_eq!(s(x), v.x());
    assert_eq!(s(y), v.y());
    assert_eq!(s(z), v.z());
}

#[test]
fn length() {
    let (x1, y1, z1) = (1.0, 2.0, 3.0);
    let v1 = v3(x1, y1, z1);

    let len = v1.length();
    assert_eq!(s(3.7416575), len);
    assert_eq!(3.7416575f32.to_bits(), len.to_bits());
}

#[test]
fn length_squared() {
    let (x1, y1, z1) = (1.0, 2.0, 3.0);
    let v1 = v3(x1, y1, z1);

    let len_squared = v1.length_squared();
    assert_eq!(s(14.0), len_squared);
    assert_eq!(14.0f32.to_bits(), len_squared.to_bits());
}

#[test]
fn index_op() {
    let (x, y, z) = (1.0, 2.0, 3.0);

    let v = v3(x, y, z);
    assert_eq!(s(x), v.index(0).unwrap());
    assert_eq!(s(y), v.index(1).unwrap());
    assert_eq!(s(z), v.index(2).unwrap());
}

#[test]
fn index_out_of_range_is_an_error() {
    let v = v3(1.0, 2.0, 3.0);
    assert_eq!(v.index(3).unwrap_err().index, 3);
    assert_eq!(v.index(4).unwrap_err().index, 4);
    assert_eq!(v.index(usize::MAX).unwrap_err().index, usize::MAX);
}

#[test]
fn negate_op() {
    let (x, y, z) = (1.0, 2.0, 3.0);

    let mut v = v3(x, y, z);
    v = v.neg();

    assert_eq!(s(-x), v.x());
    assert_eq!(s(-y), v.y());
    assert_eq!(s(-z), v.z());
}

#[test]
fn add_assign_op() {
    let (x1, y1, z1) = (1.0, 2.0, 3.0);
    let (x2, y2, z2) = (1.0, 2.0, 3.0);

    let mut v1 = v3(x1, y1, z1);
    let v2 = v3(x2, y2, z2);

    v1.add_assign(v2);

    assert_eq!(s(2.0), v1.x());
    assert_eq!(s(4.0), v1.y());
    assert_eq!(s(6.0), v1.z());
}

#[test]
fn mul_assign_op() {
    let (x1, y1, z1) = (1.0, 2.0, 3.0);
    let t = 3.0;

    let mut v1 = v3(x1, y1, z1);

    v1.mul_assign(s(t));

    assert_eq!(s(3.0), v1.x());
    assert_eq!(s(6.0), v1.y());
    assert_eq!(s(9.0), v1.z());
}

#[test]
fn div_assign_op() {
    let (x1, y1, z1) = (3.0, 6.0, 9.0);
    let t = 3.0;

    let mut v1 = v3(x1, y1, z1);

    v1.div_assign(s(t));

    assert_eq!(s(1.0), v1.x());
    assert_eq!(s(2.0), v1.y());
    assert_eq!(s(3.0), v1.z());
}

#[test]
fn mul_op() {
    let (x1, y1, z1) = (1.0, 2.0, 3.0);
    let (x2, y2, z2) = (1.0, 2.0, 3.0);

    let v1 = v3(x1, y1, z1);
    let v2 = v3(x2, y2, z2);

    // v * v
    let v3 = v1.mul(v2);

    assert_eq!(s(1.0), v3.x());
    assert_eq!(s(4.0), v3.y());
    assert_eq!(s(9.0), v3.z());

    // v * t or t * v
    let v4 = s(2.0).scale(v3).scale(s(1.0));
    assert_eq!(s(2.0), v4.x());
    assert_eq!(s(8.0), v4.y());
    assert_eq!(s(18.0), v4.z());
}

#[test]
fn scaling_from_either_side() {
    let v = v3(0.1, -0.7, 3.0e5);
    for t in [0.3f32, -2.5, 1.0e-20, 0.0].iter() {
        let a = v.scale(s(*t));
        let b = s(*t).scale(v);
        assert_eq!(a.x().to_bits(), b.x().to_bits());
        assert_eq!(a.y().to_bits(), b.y().to_bits());
        assert_eq!(a.z().to_bits(), b.z().to_bits());
        assert_eq!(f(a.x()).to_bits(), (0.1f32 * t).to_bits());
        assert_eq!(f(a.y()).to_bits(), (-0.7f32 * t).to_bits());
        assert_eq!(f(a.z()).to_bits(), (3.0e5f32 * t).to_bits());
    }
}

#[test]
fn eq_op() {
    let v1 = v3(1.0, 2.0, 3.0);
    let v2 = v3(1.0, 2.0, 3.0);
    let v3 = v3(2.0, 3.0, 4.0);

    assert_eq!(v1, v2);
    assert_ne!(v1, v3);
}

#[test]
fn equality_is_that_of_numbers() {
    // The two zeros are equal; a NaN equals nothing, not even itself.
    assert_eq!(v3(0.0, 1.0, 2.0), v3(-0.0, 1.0, 2.0));
    let n = v3(f32::NAN, 1.0, 2.0);
    assert_ne!(n, n);
    assert!(!n.eq(&n));
    // No tolerance: the next number up is a different one.
    assert_ne!(v3(1.0, 1.0, 1.0), v3(f32::from_bits(0x3f80_0001), 1.0, 1.0));
}

#[test]
fn sub_and_add_and_div() {
    let a = v3(1.5, -2.25, 1.0e-3);
    let b = v3(0.1, 0.7, 3.0e5);
    let d = a.sub(b);
    assert_eq!(f(d.x()).to_bits(), (1.5f32 - 0.1f32).to_bits());
    assert_eq!(f(d.y()).to_bits(), (-2.25f32 - 0.7f32).to_bits());
    assert_eq!(f(d.z()).to_bits(), (1.0e-3f32 - 3.0e5f32).to_bits());
    let sum = a.add(b);
    assert_eq!(f(sum.x()).to_bits(), (1.5f32 + 0.1f32).to_bits());
    let q = a.div(s(3.0));
    let inv = 1.0f32 / 3.0f32;
    assert_eq!(f(q.x()).to_bits(), (1.5f32 * inv).to_bits());
    assert_eq!(f(q.y()).to_bits(), (-2.25f32 * inv).to_bits());
    assert_eq!(f(q.z()).to_bits(), (1.0e-3f32 * inv).to_bits());
}

#[test]
fn dot_and_cross_values() {
    let u = v3(1.0, 2.0, 3.0);
    let v = v3(4.0, -5.0, 6.0);
    assert_eq!(Vec3::dot(&u, &v), s(12.0));
    assert_eq!(Vec3::cross(&u, &v), v3(27.0, 6.0, -13.0));
    // x cross y is z: the product is right-handed.
    assert_eq!(
        Vec3::cross(&v3(1.0, 0.0, 0.0), &v3(0.0, 1.0, 0.0)),
        v3(0.0, 0.0, 1.0)
    );
}

#[test]
fn unit_vector_of_zero_is_a_domain_error() {
    assert!(unit_vector(v3(0.0, 0.0, 0.0)).is_err());
    assert!(unit_vector(v3(-0.0, 0.0, -0.0)).is_err());
    // Squares that underflow to zero give a length of zero as well.
    assert!(unit_vector(v3(1.0e-30, 0.0, 0.0)).is_err());
    assert!(unit_vector(v3(3.0, 0.0, 4.0)).is_ok());
}

#[test]
fn unit_vector_is_the_vector_times_the_reciprocal_of_its_length() {
    let v = v3(3.0, 0.0, 4.0);
    let u = unit_vector(v).unwrap();
    let inv = 1.0f32 / 5.0f32;
    assert_eq!(f(u.x()).to_bits(), (3.0f32 * inv).to_bits());
    assert_eq!(f(u.y()).to_bits(), (0.0f32 * inv).to_bits());
    assert_eq!(f(u.z()).to_bits(), (4.0f32 * inv).to_bits());
}

#[test]
fn unit_vector_has_length_one() {
    let vs = [
        v3(1.0, 2.0, 3.0),
        v3(-0.3, 0.001, 12.5),
        v3(1.0e10, -3.0e9, 2.0e8),
        v3(1.0e-10, 2.0e-10, -5.0e-11),
        v3(0.0, -7.0, 0.0),
    ];
    for v in vs.iter() {
        let u = unit_vector(*v).unwrap();
        assert!((f(u.length()) - 1.0).abs() < 1.0e-6);
    }
}
