//! Rays: an origin and a direction, and the points along them.
use vstd::prelude::*;
use crate::binary32::{lemma_add_zero, F32};
use crate::value::{lemma_mul_zero, Value};
use crate::vec3::{Point3, Vec3, Vector};

verus! {

/// What a `Ray` stands for.
pub struct RayModel {
    pub origin: Vector,
    pub direction: Vector,
}

impl RayModel {
    /// The point `origin + t * direction`, each step rounded.
    pub open spec fn at(self, t: Value) -> Vector {
        self.origin.add(self.direction.scale(t))
    }
}

/// A ray. Its direction need not have length one.
#[derive(Clone, Copy, Debug)]
pub struct Ray {
    pub orig: Point3,
    pub dir: Vec3,
}

impl View for Ray {
    type V = RayModel;

    open spec fn view(&self) -> RayModel {
        RayModel { origin: self.orig@, direction: self.dir@ }
    }
}

impl Ray {
    /// The ray from `orig` along `dir`.
    pub fn new(orig: Point3, dir: Vec3) -> (r: Ray)
        ensures
            r == (Ray { orig, dir }),
    {
        Ray { orig, dir }
    }

    /// A copy of the origin.
    pub fn origin(&self) -> (p: Point3)
        ensures
            p == self.orig,
    {
        self.orig
    }

    /// A copy of the direction.
    pub fn direction(&self) -> (d: Vec3)
        ensures
            d == self.dir,
    {
        self.dir
    }

    /// The point at the parameter `t`, which may be negative.
    pub fn at(&self, t: F32) -> (p: Point3)
        ensures
            p@ == self@.at(t@),
    {
        self.orig.add(t.scale(self.dir))
    }
}

/// At a parameter of zero a ray is at its origin: for a finite direction and
/// an origin without a NaN, every component of `at(0)` equals that of the
/// origin as a number.
pub proof fn lemma_at_zero(r: Ray, t: F32)
    requires
        t@ is Fin,
        t@->mag == 0,
        r@.direction.x is Fin,
        r@.direction.y is Fin,
        r@.direction.z is Fin,
        !(r@.origin.x is Nan),
        !(r@.origin.y is Nan),
        !(r@.origin.z is Nan),
    ensures
        r@.at(t@).eq(r@.origin),
{
    lemma_mul_zero(r@.direction.x, t@);
    lemma_mul_zero(r@.direction.y, t@);
    lemma_mul_zero(r@.direction.z, t@);
    lemma_add_zero(r.orig.e0, r@.direction.x.mul(t@));
    lemma_add_zero(r.orig.e1, r@.direction.y.mul(t@));
    lemma_add_zero(r.orig.e2, r@.direction.z.mul(t@));
}

} // verus!
