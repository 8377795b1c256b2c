//! Points of a cloud: a position and the scalar attributes that travel with
//! it.

use vstd::prelude::*;
use vstd::arithmetic::div_mod::lemma_fundamental_div_mod;
use crate::arith::{
    abs, floor_sqrt, lemma_product_bound, lemma_square_of_abs, magnitude, magnitude_wide,
};
use crate::plane3d::{lemma_floor_distance_exists, lemma_floor_distance_unique, Plane};
use crate::vector3d::{lemma_norm2_positive, Vec3};

verus! {

/// The largest magnitude of a coordinate that clouds accept. Within it every
/// quantity that the fitting computes fits a 128-bit integer.
pub const COORD_LIMIT: i32 = 524_288;

/// A sample point. Two points are equal when all eight fields are.
#[derive(Debug, Clone, Copy, PartialEq, Eq, Structural)]
pub struct Point3D {
    pub x: i32,
    pub y: i32,
    pub z: i32,
    pub intensity: i32,
    pub normal_x: i32,
    pub normal_y: i32,
    pub normal_z: i32,
    pub curvature: i32,
}

impl Point3D {
    /// Where the point lies.
    pub open spec fn position(self) -> Vec3 {
        Vec3 { x: self.x as int, y: self.y as int, z: self.z as int }
    }

    /// No coordinate exceeds `COORD_LIMIT` in magnitude.
    pub open spec fn in_range(self) -> bool {
        self.position().within(COORD_LIMIT as int)
    }

    /// The point at a position, with every attribute zero.
    pub open spec fn bare(position: Vec3) -> Point3D {
        Point3D {
            x: position.x as i32,
            y: position.y as i32,
            z: position.z as i32,
            intensity: 0,
            normal_x: 0,
            normal_y: 0,
            normal_z: 0,
            curvature: 0,
        }
    }

    pub fn new(
        x: i32,
        y: i32,
        z: i32,
        intensity: i32,
        normal_x: i32,
        normal_y: i32,
        normal_z: i32,
        curvature: i32,
    ) -> (p: Point3D)
        ensures
            p == (Point3D { x, y, z, intensity, normal_x, normal_y, normal_z, curvature }),
    {
        Point3D { x, y, z, intensity, normal_x, normal_y, normal_z, curvature }
    }

    /// The integer part of the distance from the point to the plane,
    /// `|a*x + b*y + c*z + d| / sqrt(a*a + b*b + c*c)`. A whole threshold
    /// exceeds the distance exactly when it exceeds this integer part.
    ///
    /// A degenerate plane has no distance. The equation's value at the point
    /// must be less than `2^64` in magnitude, as it is for every point and
    /// plane of a cloud.
    pub fn distance_to_plane(&self, plane: &Plane) -> (dist: u64)
        requires
            !plane@.is_degenerate(),
            abs(plane@.evaluate(self.position())) < 0x1_0000_0000_0000_0000,
        ensures
            plane@.floor_distance_is(self.position(), dist as nat),
            dist == plane@.floor_distance(self.position()),
    {
        let ghost e = plane@.evaluate(self.position());
        let ghost n2 = plane@.normal().norm2();
        proof {
            lemma_product_bound(plane.a as int, self.x as int, 0x8000_0000_0000_0000, 0x8000_0000);
            lemma_product_bound(plane.b as int, self.y as int, 0x8000_0000_0000_0000, 0x8000_0000);
            lemma_product_bound(plane.c as int, self.z as int, 0x8000_0000_0000_0000, 0x8000_0000);
        }
        let value: i128 = (plane.a as i128) * (self.x as i128) + (plane.b as i128) * (
        self.y as i128) + (plane.c as i128) * (self.z as i128) + (plane.d as i128);
        let numerator: u128 = magnitude_wide(value);
        assert(numerator * numerator <= u128::MAX) by (nonlinear_arith)
            requires
                numerator < 0x1_0000_0000_0000_0000,
        ;
        let squared: u128 = numerator * numerator;
        let ma: u128 = magnitude(plane.a) as u128;
        let mb: u128 = magnitude(plane.b) as u128;
        let mc: u128 = magnitude(plane.c) as u128;
        proof {
            lemma_product_bound(ma as int, ma as int, 0x8000_0000_0000_0000, 0x8000_0000_0000_0000);
            lemma_product_bound(mb as int, mb as int, 0x8000_0000_0000_0000, 0x8000_0000_0000_0000);
            lemma_product_bound(mc as int, mc as int, 0x8000_0000_0000_0000, 0x8000_0000_0000_0000);
            lemma_square_of_abs(plane.a as int);
            lemma_square_of_abs(plane.b as int);
            lemma_square_of_abs(plane.c as int);
            lemma_square_of_abs(e);
            lemma_norm2_positive(plane@.normal());
        }
        let normal_squared: u128 = ma * ma + mb * mb + mc * mc;
        assert(normal_squared == n2);
        assert(squared == e * e);
        let quotient: u128 = squared / normal_squared;
        let root: u64 = floor_sqrt(quotient);
        proof {
            let r = root as int;
            let q = quotient as int;
            lemma_fundamental_div_mod(squared as int, normal_squared as int);
            assert(r * r * n2 <= e * e) by (nonlinear_arith)
                requires
                    r * r <= q,
                    e * e == n2 * q + (squared as int % normal_squared as int),
                    0 <= (squared as int % normal_squared as int),
                    n2 > 0,
            ;
            assert(e * e < (r + 1) * (r + 1) * n2) by (nonlinear_arith)
                requires
                    q + 1 <= (r + 1) * (r + 1),
                    e * e == n2 * q + (squared as int % normal_squared as int),
                    (squared as int % normal_squared as int) < n2,
                    n2 > 0,
            ;
            lemma_floor_distance_exists(plane@, self.position());
            lemma_floor_distance_unique(
                plane@,
                self.position(),
                root as nat,
                plane@.floor_distance(self.position()),
            );
        }
        root
    }

    /// Whether every coordinate is within `COORD_LIMIT`.
    pub fn is_in_range(&self) -> (b: bool)
        ensures
            b == self.in_range(),
    {
        -COORD_LIMIT <= self.x && self.x <= COORD_LIMIT && -COORD_LIMIT <= self.y && self.y
            <= COORD_LIMIT && -COORD_LIMIT <= self.z && self.z <= COORD_LIMIT
    }
}

} // verus!
