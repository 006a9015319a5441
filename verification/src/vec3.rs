//! Vectors of three binary32 components, used as directions, points and colours.
use vstd::prelude::*;
use crate::binary32::F32;
use crate::value::{lemma_mul_commutes, lemma_sub_reversed, one, same_number, zero, Value};

verus! {

/// What a `Vec3` stands for: its three components as values.
pub struct Vector {
    pub x: Value,
    pub y: Value,
    pub z: Value,
}

impl Vector {
    /// The sum, component by component.
    pub open spec fn add(self, v: Vector) -> Vector {
        Vector { x: self.x.add(v.x), y: self.y.add(v.y), z: self.z.add(v.z) }
    }

    /// The difference, component by component.
    pub open spec fn sub(self, v: Vector) -> Vector {
        Vector { x: self.x.sub(v.x), y: self.y.sub(v.y), z: self.z.sub(v.z) }
    }

    /// The vector with every component negated.
    pub open spec fn neg(self) -> Vector {
        Vector { x: self.x.neg(), y: self.y.neg(), z: self.z.neg() }
    }

    /// The product, component by component.
    pub open spec fn mul(self, v: Vector) -> Vector {
        Vector { x: self.x.mul(v.x), y: self.y.mul(v.y), z: self.z.mul(v.z) }
    }

    /// Every component times `t`.
    pub open spec fn scale(self, t: Value) -> Vector {
        Vector { x: self.x.mul(t), y: self.y.mul(t), z: self.z.mul(t) }
    }

    /// Every component times the rounded reciprocal of `t`.
    pub open spec fn div(self, t: Value) -> Vector {
        self.scale(one().div(t))
    }

    /// The dot product, summed from the first component on.
    pub open spec fn dot(self, v: Vector) -> Value {
        self.x.mul(v.x).add(self.y.mul(v.y)).add(self.z.mul(v.z))
    }

    /// The right-handed cross product.
    pub open spec fn cross(self, v: Vector) -> Vector {
        Vector {
            x: self.y.mul(v.z).sub(self.z.mul(v.y)),
            y: self.z.mul(v.x).sub(self.x.mul(v.z)),
            z: self.x.mul(v.y).sub(self.y.mul(v.x)),
        }
    }

    /// The dot product of the vector with itself.
    pub open spec fn length_squared(self) -> Value {
        self.dot(self)
    }

    /// The rounded square root of `length_squared`.
    pub open spec fn length(self) -> Value {
        self.length_squared().sqrt()
    }

    /// Equality of all three components as numbers.
    pub open spec fn eq(self, v: Vector) -> bool {
        self.x.eq(v.x) && self.y.eq(v.y) && self.z.eq(v.z)
    }

    /// The vector divided by its length.
    pub open spec fn unit(self) -> Vector {
        self.div(self.length())
    }
}

/// A component index beyond the three components.
#[derive(Clone, Copy, Debug)]
pub struct IndexError {
    pub index: usize,
}

/// A vector of length zero where a direction was needed.
#[derive(Clone, Copy, Debug)]
pub struct DomainError {}

/// Three binary32 components.
#[derive(Clone, Copy, Debug)]
pub struct Vec3 {
    pub e0: F32,
    pub e1: F32,
    pub e2: F32,
}

impl PartialEq for Vec3 {
    /// Whether all three components are equal as numbers.
    fn eq(&self, other: &Vec3) -> (r: bool) {
        self.e0.eq(other.e0) && self.e1.eq(other.e1) && self.e2.eq(other.e2)
    }
}

impl vstd::std_specs::cmp::PartialEqSpecImpl for Vec3 {
    open spec fn obeys_eq_spec() -> bool {
        true
    }

    open spec fn eq_spec(&self, other: &Vec3) -> bool {
        self@.eq(other@)
    }
}

/// A position in space.
pub type Point3 = Vec3;

impl View for Vec3 {
    type V = Vector;

    open spec fn view(&self) -> Vector {
        Vector { x: self.e0@, y: self.e1@, z: self.e2@ }
    }
}

impl Vec3 {
    /// The vector with the given components.
    pub fn new(e0: F32, e1: F32, e2: F32) -> (r: Vec3)
        ensures
            r == (Vec3 { e0, e1, e2 }),
    {
        Vec3 { e0, e1, e2 }
    }

    /// The dot product.
    pub fn dot(u: &Vec3, v: &Vec3) -> (r: F32)
        ensures
            r@ == u@.dot(v@),
    {
        u.e0.mul(v.e0).add(u.e1.mul(v.e1)).add(u.e2.mul(v.e2))
    }

    /// The cross product.
    pub fn cross(u: &Vec3, v: &Vec3) -> (r: Vec3)
        ensures
            r@ == u@.cross(v@),
    {
        let x: F32 = u.e1.mul(v.e2).sub(u.e2.mul(v.e1));
        let y: F32 = u.e2.mul(v.e0).sub(u.e0.mul(v.e2));
        let z: F32 = u.e0.mul(v.e1).sub(u.e1.mul(v.e0));
        Vec3 { e0: x, e1: y, e2: z }
    }

    /// The first component.
    pub fn x(&self) -> (r: F32)
        ensures
            r == self.e0,
    {
        self.e0
    }

    /// The second component.
    pub fn y(&self) -> (r: F32)
        ensures
            r == self.e1,
    {
        self.e1
    }

    /// The third component.
    pub fn z(&self) -> (r: F32)
        ensures
            r == self.e2,
    {
        self.e2
    }

    /// The component at `i`, for `i` in `0..3`.
    pub fn index(&self, i: usize) -> (r: Result<F32, IndexError>)
        ensures
            i == 0 ==> r == Ok::<F32, IndexError>(self.e0),
            i == 1 ==> r == Ok::<F32, IndexError>(self.e1),
            i == 2 ==> r == Ok::<F32, IndexError>(self.e2),
            i >= 3 ==> r == Err::<F32, IndexError>(IndexError { index: i }),
    {
        if i == 0 {
            Ok(self.e0)
        } else if i == 1 {
            Ok(self.e1)
        } else if i == 2 {
            Ok(self.e2)
        } else {
            Err(IndexError { index: i })
        }
    }

    /// The length: never below zero.
    pub fn length(&self) -> (r: F32)
        ensures
            r@ == self@.length(),
            !r@.lt(zero()),
    {
        self.length_squared().sqrt()
    }

    /// The square of the length.
    pub fn length_squared(&self) -> (r: F32)
        ensures
            r@ == self@.length_squared(),
    {
        self.e0.mul(self.e0).add(self.e1.mul(self.e1)).add(self.e2.mul(self.e2))
    }

    /// Whether all three components are equal as numbers.
    pub fn eq(&self, other: &Vec3) -> (r: bool)
        ensures
            r == self@.eq(other@),
    {
        self.e0.eq(other.e0) && self.e1.eq(other.e1) && self.e2.eq(other.e2)
    }

    /// The vector with every component negated.
    pub fn neg(self) -> (r: Vec3)
        ensures
            r@ == self@.neg(),
    {
        Vec3 { e0: self.e0.neg(), e1: self.e1.neg(), e2: self.e2.neg() }
    }

    /// The sum.
    pub fn add(self, v: Vec3) -> (r: Vec3)
        ensures
            r@ == self@.add(v@),
    {
        Vec3 { e0: self.e0.add(v.e0), e1: self.e1.add(v.e1), e2: self.e2.add(v.e2) }
    }

    /// Adds `v` to the vector.
    pub fn add_assign(&mut self, v: Vec3)
        ensures
            final(self)@ == old(self)@.add(v@),
    {
        *self = self.add(v);
    }

    /// The difference.
    pub fn sub(self, v: Vec3) -> (r: Vec3)
        ensures
            r@ == self@.sub(v@),
    {
        Vec3 { e0: self.e0.sub(v.e0), e1: self.e1.sub(v.e1), e2: self.e2.sub(v.e2) }
    }

    /// The product, component by component.
    pub fn mul(self, v: Vec3) -> (r: Vec3)
        ensures
            r@ == self@.mul(v@),
    {
        Vec3 { e0: self.e0.mul(v.e0), e1: self.e1.mul(v.e1), e2: self.e2.mul(v.e2) }
    }

    /// The vector with every component multiplied by `t`.
    pub fn scale(self, t: F32) -> (r: Vec3)
        ensures
            r@ == self@.scale(t@),
    {
        Vec3 { e0: self.e0.mul(t), e1: self.e1.mul(t), e2: self.e2.mul(t) }
    }

    /// Multiplies every component by `t`.
    pub fn mul_assign(&mut self, t: F32)
        ensures
            final(self)@ == old(self)@.scale(t@),
    {
        *self = self.scale(t);
    }

    /// The vector with every component multiplied by the reciprocal of `t`.
    pub fn div(self, t: F32) -> (r: Vec3)
        ensures
            r@ == self@.div(t@),
    {
        F32::one().div(t).scale(self)
    }

    /// Multiplies every component by the reciprocal of `t`.
    pub fn div_assign(&mut self, t: F32)
        ensures
            final(self)@ == old(self)@.div(t@),
    {
        *self = self.div(t);
    }
}

impl F32 {
    /// The vector `v` with every component multiplied by this number: the
    /// same as `v.scale(self)`.
    pub fn scale(self, v: Vec3) -> (r: Vec3)
        ensures
            r@ == v@.scale(self@),
    {
        let x: F32 = v.e0.mul(self);
        let y: F32 = v.e1.mul(self);
        let z: F32 = v.e2.mul(self);
        Vec3 { e0: x, e1: y, e2: z }
    }
}

/// The vector of length one in the direction of `v`; an error where the
/// length of `v` is zero.
pub fn unit_vector(v: Vec3) -> (r: Result<Vec3, DomainError>)
    ensures
        v@.length().eq(zero()) ==> r is Err,
        !v@.length().eq(zero()) ==> r is Ok && r->Ok_0@ == v@.unit(),
{
    let len: F32 = v.length();
    if len.eq(F32::zero(false)) {
        Err(DomainError {})
    } else {
        Ok(v.div(len))
    }
}

impl Vector {
    /// Whether the components are pairwise the same number: equal, or both
    /// not a number.
    pub open spec fn same(self, v: Vector) -> bool {
        same_number(self.x, v.x) && same_number(self.y, v.y) && same_number(self.z, v.z)
    }
}

/// A sum of vectors does not depend on the order of its terms.
pub proof fn lemma_add_commutes(u: Vec3, v: Vec3)
    ensures
        u@.add(v@) == v@.add(u@),
{
}

/// The dot product is symmetric: `u . v` and `v . u` are the same value.
pub proof fn lemma_dot_symmetric(u: Vec3, v: Vec3)
    ensures
        u@.dot(v@) == v@.dot(u@),
{
    lemma_mul_commutes(u@.x, v@.x);
    lemma_mul_commutes(u@.y, v@.y);
    lemma_mul_commutes(u@.z, v@.z);
}

/// The cross product is anti-commutative: each component of `u x v` is the
/// same number as that of `-(v x u)`. Where a component is zero the two may
/// differ in the sign of the zero, which the equality of numbers ignores.
pub proof fn lemma_cross_anticommutative(u: Vec3, v: Vec3)
    ensures
        u@.cross(v@).same(v@.cross(u@).neg()),
        u@.cross(v@).eq(u@.cross(v@)) ==> u@.cross(v@).eq(v@.cross(u@).neg()),
{
    lemma_mul_commutes(u@.y, v@.z);
    lemma_mul_commutes(u@.z, v@.y);
    lemma_mul_commutes(u@.z, v@.x);
    lemma_mul_commutes(u@.x, v@.z);
    lemma_mul_commutes(u@.x, v@.y);
    lemma_mul_commutes(u@.y, v@.x);
    lemma_sub_reversed(u@.y.mul(v@.z), u@.z.mul(v@.y));
    lemma_sub_reversed(u@.z.mul(v@.x), u@.x.mul(v@.z));
    lemma_sub_reversed(u@.x.mul(v@.y), u@.y.mul(v@.x));
}

/// The square of the length is the dot product of the vector with itself.
pub proof fn lemma_length_squared_is_dot(v: Vec3)
    ensures
        v@.length_squared() == v@.dot(v@),
        v@.length() == v@.dot(v@).sqrt(),
{
}

} // verus!
