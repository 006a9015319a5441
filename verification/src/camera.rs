//! The pinhole camera: the size of the image and the viewport through which
//! the rays are cast.
use vstd::prelude::*;
use crate::binary32::{value_of_bits, F32};
use crate::ray::{Ray, RayModel};
use crate::sphere::TWO_BITS;
use crate::value::{value_of_int, zero, Value};
use crate::vec3::{Point3, Vec3, Vector};

verus! {

/// What a `Camera` stands for.
pub struct CameraModel {
    pub image_width: int,
    pub image_height: int,
    pub origin: Vector,
    pub horizontal: Vector,
    pub vertical: Vector,
    pub lower_left_corner: Vector,
}

/// The vector with the given components.
pub open spec fn vector(x: Value, y: Value, z: Value) -> Vector {
    Vector { x, y, z }
}

/// The camera for an aspect ratio, an image width in pixels, a viewport
/// height and a focal length. The image height is the width divided by the
/// aspect ratio, without its fractional part; the viewport is as wide as the
/// aspect ratio times its height; the eye is at the origin, and the lower
/// left corner of the viewport lies half the viewport to the left and below,
/// one focal length in front of it.
pub open spec fn camera_spec(
    aspect_ratio: Value,
    image_width: int,
    viewport_height: Value,
    focal_length: Value,
) -> CameraModel {
    let origin = vector(zero(), zero(), zero());
    let horizontal = vector(aspect_ratio.mul(viewport_height), zero(), zero());
    let vertical = vector(zero(), viewport_height, zero());
    let two = value_of_bits(TWO_BITS);
    CameraModel {
        image_width,
        image_height: value_of_int(image_width).div(aspect_ratio).trunc_i32(),
        origin,
        horizontal,
        vertical,
        lower_left_corner: origin.sub(horizontal.div(two)).sub(vertical.div(two)).sub(
            vector(zero(), zero(), focal_length),
        ),
    }
}

impl CameraModel {
    /// How far across the image the column `i` lies: `i / (width - 1)`.
    pub open spec fn u(self, i: int) -> Value {
        value_of_int(i).div(value_of_int(self.image_width - 1))
    }

    /// How far up the image the row `j` lies: `j / (height - 1)`.
    pub open spec fn v(self, j: int) -> Value {
        value_of_int(j).div(value_of_int(self.image_height - 1))
    }

    /// The ray from the eye through the viewport at `(u, v)`.
    pub open spec fn ray(self, u: Value, v: Value) -> RayModel {
        RayModel {
            origin: self.origin,
            direction: self.lower_left_corner.add(self.horizontal.scale(u)).add(
                self.vertical.scale(v),
            ).sub(self.origin),
        }
    }

    /// The ray through the pixel in column `i` of row `j`, rows counted from
    /// the bottom.
    pub open spec fn pixel_ray(self, i: int, j: int) -> RayModel {
        self.ray(self.u(i), self.v(j))
    }
}

/// A camera with the size of its image.
#[derive(Clone, Copy, Debug)]
pub struct Camera {
    pub image_width: i32,
    pub image_height: i32,
    pub origin: Point3,
    pub horizontal: Vec3,
    pub vertical: Vec3,
    pub lower_left_corner: Point3,
}

impl View for Camera {
    type V = CameraModel;

    open spec fn view(&self) -> CameraModel {
        CameraModel {
            image_width: self.image_width as int,
            image_height: self.image_height as int,
            origin: self.origin@,
            horizontal: self.horizontal@,
            vertical: self.vertical@,
            lower_left_corner: self.lower_left_corner@,
        }
    }
}

impl Camera {
    /// Sets the camera up. No value is refused.
    pub fn new(aspect_ratio: F32, image_width: i32, viewport_height: F32, focal_length: F32) -> (c:
        Camera)
        ensures
            c@ == camera_spec(aspect_ratio@, image_width as int, viewport_height@, focal_length@),
    {
        let zero: F32 = F32::zero(false);
        let two: F32 = F32::from_bits(TWO_BITS);
        let image_height: i32 = F32::from_i32(image_width).div(aspect_ratio).trunc_to_i32();
        let viewport_width: F32 = aspect_ratio.mul(viewport_height);
        let origin: Point3 = Point3::new(zero, zero, zero);
        let horizontal: Vec3 = Vec3::new(viewport_width, zero, zero);
        let vertical: Vec3 = Vec3::new(zero, viewport_height, zero);
        let lower_left_corner: Point3 = origin.sub(horizontal.div(two)).sub(vertical.div(two)).sub(
            Vec3::new(zero, zero, focal_length),
        );
        Camera { image_width, image_height, origin, horizontal, vertical, lower_left_corner }
    }

    /// The width of the image in pixels.
    pub fn image_width(&self) -> (w: i32)
        ensures
            w == self.image_width,
    {
        self.image_width
    }

    /// The height of the image in pixels.
    pub fn image_height(&self) -> (h: i32)
        ensures
            h == self.image_height,
    {
        self.image_height
    }

    /// The width of the viewport: the aspect ratio times its height.
    pub fn viewport_width(&self) -> (w: F32)
        ensures
            w == self.horizontal.e0,
    {
        self.horizontal.x()
    }

    /// The height of the viewport.
    pub fn viewport_height(&self) -> (h: F32)
        ensures
            h == self.vertical.e1,
    {
        self.vertical.y()
    }

    /// The eye.
    pub fn origin(&self) -> (p: Point3)
        ensures
            p == self.origin,
    {
        self.origin
    }

    /// The vector along the lower edge of the viewport.
    pub fn horizontal(&self) -> (v: Vec3)
        ensures
            v == self.horizontal,
    {
        self.horizontal
    }

    /// The vector along the left edge of the viewport.
    pub fn vertical(&self) -> (v: Vec3)
        ensures
            v == self.vertical,
    {
        self.vertical
    }

    /// The lower left corner of the viewport.
    pub fn lower_left_corner(&self) -> (p: Point3)
        ensures
            p == self.lower_left_corner,
    {
        self.lower_left_corner
    }

    /// How far across the image the column `i` lies.
    pub fn u(&self, i: i32) -> (u: F32)
        requires
            0 <= i < self@.image_width,
        ensures
            u@ == self@.u(i as int),
    {
        F32::from_i32(i).div(F32::from_i32(self.image_width - 1))
    }

    /// How far up the image the row `j` lies.
    pub fn v(&self, j: i32) -> (v: F32)
        requires
            0 <= j < self@.image_height,
        ensures
            v@ == self@.v(j as int),
    {
        F32::from_i32(j).div(F32::from_i32(self.image_height - 1))
    }

    /// The ray from the eye through the viewport at `(u, v)`.
    pub fn ray(&self, u: F32, v: F32) -> (r: Ray)
        ensures
            r@ == self@.ray(u@, v@),
    {
        Ray::new(
            self.origin,
            self.lower_left_corner.add(u.scale(self.horizontal)).add(v.scale(self.vertical)).sub(
                self.origin,
            ),
        )
    }

    /// The ray through the pixel in column `i` of row `j`, rows counted from
    /// the bottom.
    pub fn pixel_ray(&self, i: i32, j: i32) -> (r: Ray)
        requires
            0 <= i < self@.image_width,
            0 <= j < self@.image_height,
        ensures
            r@ == self@.pixel_ray(i as int, j as int),
    {
        self.ray(self.u(i), self.v(j))
    }
}

} // verus!
