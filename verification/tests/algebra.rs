use raytracer::binary32::F32;
use raytracer::vec3::Vec3;

fn s(x: f32) -> F32 {
    F32::from_bits(x.to_bits())
}

fn f(x: F32) -> f32 {
    f32::from_bits(x.to_bits())
}

fn v3(x: f32, y: f32, z: f32) -> Vec3 {
    Vec3::new(s(x), s(y), s(z))
}

fn close(a: Vec3, b: Vec3, tol: f32) -> bool {
    let scale = f(a.x()).abs().max(f(a.y()).abs()).max(f(a.z()).abs()).max(1.0);
    (f(a.x()) - f(b.x())).abs() <= tol * scale
        && (f(a.y()) - f(b.y())).abs() <= tol * scale
        && (f(a.z()) - f(b.z())).abs() <= tol * scale
}

fn samples() -> Vec<Vec3> {
    vec![
        v3(1.0, 2.0, 3.0),
        v3(-0.1, 0.7, 1.0e-3),
        v3(12345.678, -0.000123, 42.0),
        v3(0.0, -0.0, 5.5),
        v3(1.0e20, -1.0e-20, 3.0),
        v3(0.3, 0.3, 0.3),
    ]
}

#[test]
fn dot_is_symmetric() {
    for u in samples() {
        for v in samples() {
            assert_eq!(Vec3::dot(&u, &v).to_bits(), Vec3::dot(&v, &u).to_bits());
        }
    }
}

#[test]
fn cross_is_anticommutative() {
    for u in samples() {
        for v in samples() {
            assert_eq!(Vec3::cross(&u, &v), Vec3::cross(&v, &u).neg());
        }
    }
}

#[test]
fn length_squared_is_dot_with_itself() {
    for v in samples() {
        assert_eq!(v.length_squared().to_bits(), Vec3::dot(&v, &v).to_bits());
    }
}

#[test]
fn addition_is_associative_within_tolerance() {
    let vs = [v3(1.0, 2.0, 3.0), v3(-0.1, 0.7, 1.0e-3), v3(0.3, 0.3, 0.3), v3(100.5, -7.25, 0.125)];
    for u in vs.iter() {
        for v in vs.iter() {
            for w in vs.iter() {
                assert!(close(u.add(*v).add(*w), u.add(v.add(*w)), 1.0e-6));
            }
        }
    }
}

#[test]
fn addition_is_not_associative_to_the_bit() {
    let (a, b, c) = (s(1.0), s(1.0e-8), s(1.0e-8 * 5.0));
    let left = a.add(b).add(c);
    let right = a.add(b.add(c));
    assert_eq!(f(left), (1.0f32 + 1.0e-8f32) + 1.0e-8f32 * 5.0);
    assert_eq!(f(right), 1.0f32 + (1.0e-8f32 + 1.0e-8f32 * 5.0));
    assert_ne!(left.to_bits(), right.to_bits());
}

#[test]
fn scaling_distributes_over_addition_within_tolerance() {
    let vs = [v3(1.0, 2.0, 3.0), v3(-0.1, 0.7, 1.0e-3), v3(0.3, 0.3, 0.3), v3(100.5, -7.25, 0.125)];
    for t in [0.5f32, 3.0, -0.1, 1.0e3].iter() {
        for u in vs.iter() {
            for v in vs.iter() {
                let left = u.add(*v).scale(s(*t));
                let right = u.scale(s(*t)).add(v.scale(s(*t)));
                assert!(close(left, right, 1.0e-6));
            }
        }
    }
}

#[test]
fn scaling_does_not_distribute_to_the_bit() {
    let (t, u, v) = (s(0.1), s(0.1), s(0.7));
    let left = t.mul(u.add(v));
    let right = t.mul(u).add(t.mul(v));
    assert_eq!(f(left), 0.1f32 * (0.1f32 + 0.7f32));
    assert_eq!(f(right), 0.1f32 * 0.1f32 + 0.1f32 * 0.7f32);
    assert_ne!(left.to_bits(), right.to_bits());
    assert!((f(left) - f(right)).abs() < 1.0e-7);
}

#[test]
fn one_is_neutral_and_zero_annihilates() {
    for v in samples() {
        assert_eq!(v.scale(F32::one()), v);
        assert_eq!(v.scale(s(0.0)), v3(0.0, 0.0, 0.0));
        assert_eq!(v.add(v3(0.0, 0.0, 0.0)), v);
    }
}
