//! The colour of a ray: the surface normal of the sphere where the ray hits
//! it, a gradient of the sky where it does not.
use vstd::prelude::*;
use crate::binary32::{value_of_bits, F32};
use crate::color::Color;
use crate::ray::{Ray, RayModel};
use crate::sphere::{hit_sphere, hit_sphere_spec, Hit, HitModel};
use crate::value::{one, zero, Value};
use crate::vec3::{unit_vector, DomainError, Point3, Vec3, Vector};

verus! {

/// The bits of 0.5.
pub const HALF_BITS: u32 = 0x3f00_0000;

/// The bits of 0.7.
pub const SEVEN_TENTHS_BITS: u32 = 0x3f33_3333;

/// The bits of -1.
pub const MINUS_ONE_BITS: u32 = 0xbf80_0000;

/// The centre of the sphere: `(0, 0, -1)`.
pub open spec fn sphere_center() -> Vector {
    Vector { x: zero(), y: zero(), z: value_of_bits(MINUS_ONE_BITS) }
}

/// The radius of the sphere: 0.5.
pub open spec fn sphere_radius() -> Value {
    value_of_bits(HALF_BITS)
}

/// White: `(1, 1, 1)`.
pub open spec fn white() -> Vector {
    Vector { x: one(), y: one(), z: one() }
}

/// The blue of the sky: `(0.5, 0.7, 1)`.
pub open spec fn sky_blue() -> Vector {
    Vector { x: value_of_bits(HALF_BITS), y: value_of_bits(SEVEN_TENTHS_BITS), z: one() }
}

/// The colour of a unit normal `n`: `0.5 * (n + 1)`, component by component.
pub open spec fn normal_color(n: Vector) -> Vector {
    (Vector { x: n.x.add(one()), y: n.y.add(one()), z: n.z.add(one()) }).scale(
        value_of_bits(HALF_BITS),
    )
}

/// The colour of the sky in the unit direction `d`: white blended into blue
/// by `t = 0.5 * (d.y + 1)`, as `(1 - t) * white + t * blue`.
pub open spec fn sky_color(d: Vector) -> Vector {
    let t = value_of_bits(HALF_BITS).mul(d.y.add(one()));
    white().scale(one().sub(t)).add(sky_blue().scale(t))
}

/// Whether the ray counts as hitting the sphere: the test gives a parameter
/// that is greater than zero.
pub open spec fn hits_in_front(r: RayModel) -> bool {
    match hit_sphere_spec(sphere_center(), sphere_radius(), r) {
        HitModel::Miss => false,
        HitModel::At(t) => zero().lt(t),
    }
}

/// The vector that is normalized for the ray: from the centre of the sphere
/// to the point hit, or else the ray's direction.
pub open spec fn shading_vector(r: RayModel) -> Vector {
    match hit_sphere_spec(sphere_center(), sphere_radius(), r) {
        HitModel::Miss => r.direction,
        HitModel::At(t) => if zero().lt(t) {
            r.at(t).sub(sphere_center())
        } else {
            r.direction
        },
    }
}

/// The colour of a ray, or `None` where the vector to normalize has length zero.
pub open spec fn ray_color_spec(r: RayModel) -> Option<Vector> {
    let v = shading_vector(r);
    if v.length().eq(zero()) {
        None
    } else if hits_in_front(r) {
        Some(normal_color(v.unit()))
    } else {
        Some(sky_color(v.unit()))
    }
}

/// The colour of a ray. An error where the ray's direction, or the vector
/// from the sphere's centre to the point hit, has length zero.
pub fn ray_color(r: &Ray) -> (c: Result<Color, DomainError>)
    ensures
        c is Ok <==> ray_color_spec(r@) is Some,
        c is Ok ==> ray_color_spec(r@) == Some(c->Ok_0@),
{
    let center: Point3 = Point3::new(
        F32::zero(false),
        F32::zero(false),
        F32::from_bits(MINUS_ONE_BITS),
    );
    let half: F32 = F32::from_bits(HALF_BITS);
    let one: F32 = F32::one();
    match hit_sphere(&center, half, r) {
        Hit::At(t) => {
            if t.gt(F32::zero(false)) {
                let n: Vec3 = match unit_vector(r.at(t).sub(center)) {
                    Ok(n) => n,
                    Err(e) => {
                        return Err(e);
                    },
                };
                return Ok(half.scale(Color::new(n.x().add(one), n.y().add(one), n.z().add(one))));
            }
        },
        Hit::Miss => {},
    }
    let unit_dir: Vec3 = match unit_vector(r.direction()) {
        Ok(d) => d,
        Err(e) => {
            return Err(e);
        },
    };
    let t: F32 = half.mul(unit_dir.y().add(one));
    let c1: Color = Color::new(one, one, one);
    let c2: Color = Color::new(half, F32::from_bits(SEVEN_TENTHS_BITS), one);
    Ok(one.sub(t).scale(c1).add(t.scale(c2)))
}

} // verus!
