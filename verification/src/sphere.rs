//! The intersection of a ray with a sphere.
use vstd::prelude::*;
use crate::binary32::{value_of_bits, F32};
use crate::ray::{Ray, RayModel};
use crate::value::{zero, Value};
use crate::vec3::{Point3, Vec3, Vector};

verus! {

/// The bits of 2.
pub const TWO_BITS: u32 = 0x4000_0000;

/// The bits of 4.
pub const FOUR_BITS: u32 = 0x4080_0000;

/// What a `Hit` stands for.
pub enum HitModel {
    Miss,
    At(Value),
}

/// The outcome of an intersection test: no intersection, or the parameter of
/// the nearer one along the ray. The parameter may be negative, for a sphere
/// behind the origin, and is not a number where the test's arithmetic is not.
#[derive(Clone, Copy, Debug)]
pub enum Hit {
    Miss,
    At(F32),
}

impl View for Hit {
    type V = HitModel;

    open spec fn view(&self) -> HitModel {
        match self {
            Hit::Miss => HitModel::Miss,
            Hit::At(t) => HitModel::At(t@),
        }
    }
}

/// The discriminant `b^2 - 4ac` of the quadratic in the ray's parameter, with
/// `a = dir . dir`, `b = 2 (oc . dir)`, `c = oc . oc - radius^2` and
/// `oc = origin - center`.
pub open spec fn discriminant(center: Vector, radius: Value, r: RayModel) -> Value {
    let oc = r.origin.sub(center);
    let a = r.direction.dot(r.direction);
    let b = value_of_bits(TWO_BITS).mul(oc.dot(r.direction));
    let c = oc.dot(oc).sub(radius.mul(radius));
    b.mul(b).sub(value_of_bits(FOUR_BITS).mul(a).mul(c))
}

/// The smaller root `(-b - sqrt(discriminant)) / (2a)` of that quadratic.
pub open spec fn nearer_root(center: Vector, radius: Value, r: RayModel) -> Value {
    let oc = r.origin.sub(center);
    let a = r.direction.dot(r.direction);
    let b = value_of_bits(TWO_BITS).mul(oc.dot(r.direction));
    b.neg().sub(discriminant(center, radius, r).sqrt()).div(value_of_bits(TWO_BITS).mul(a))
}

/// A miss where the discriminant is negative, else the smaller root, whether
/// or not it lies in front of the ray's origin.
pub open spec fn hit_sphere_spec(center: Vector, radius: Value, r: RayModel) -> HitModel {
    if discriminant(center, radius, r).lt(zero()) {
        HitModel::Miss
    } else {
        HitModel::At(nearer_root(center, radius, r))
    }
}

/// Tests the ray against the sphere around `center` with the given radius.
pub fn hit_sphere(center: &Point3, radius: F32, r: &Ray) -> (hit: Hit)
    ensures
        hit@ == hit_sphere_spec(center@, radius@, r@),
{
    let oc: Vec3 = r.origin().sub(*center);
    let a: F32 = Vec3::dot(&r.direction(), &r.direction());
    let b: F32 = F32::from_bits(TWO_BITS).mul(Vec3::dot(&oc, &r.direction()));
    let c: F32 = Vec3::dot(&oc, &oc).sub(radius.mul(radius));
    let disc: F32 = b.mul(b).sub(F32::from_bits(FOUR_BITS).mul(a).mul(c));
    if disc.lt(F32::zero(false)) {
        return Hit::Miss;
    }
    Hit::At(b.neg().sub(disc.sqrt()).div(F32::from_bits(TWO_BITS).mul(a)))
}

} // verus!
