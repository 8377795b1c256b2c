//! Planes `a*x + b*y + c*z + d = 0` with integer coefficients.

use vstd::prelude::*;
use crate::arith::{abs, lemma_product_bound};
use crate::point3d::{Point3D, COORD_LIMIT};
use crate::vector3d::{
    lemma_cross_is_orthogonal, lemma_dot_of_difference, lemma_norm2_positive, Vec3, Vector3D,
};

verus! {

/// A bound on the magnitude of the normal's components of a plane through
/// three points of a cloud: `8 * COORD_LIMIT^2`.
pub const NORMAL_LIMIT: i64 = 2_199_023_255_552;

/// A bound on the magnitude of the fourth coefficient of such a plane:
/// `24 * COORD_LIMIT^3`.
pub const OFFSET_LIMIT: i64 = 3_458_764_513_820_540_928;

/// A display colour, carried along and never read by the geometry.
pub type Color = [u8; 3];

/// The mathematical value of a plane: the four coefficients of its equation.
pub struct PlaneEq {
    pub a: int,
    pub b: int,
    pub c: int,
    pub d: int,
}

impl PlaneEq {
    /// The normal `(a, b, c)`, of whatever length the coefficients give it.
    pub open spec fn normal(self) -> Vec3 {
        Vec3 { x: self.a, y: self.b, z: self.c }
    }

    /// A plane without a normal. No fit returns one.
    pub open spec fn is_degenerate(self) -> bool {
        self.normal().is_zero()
    }

    /// The left side of the equation at `p`: zero on the plane, and
    /// otherwise the distance to it times the length of the normal, signed.
    pub open spec fn evaluate(self, p: Vec3) -> int {
        self.normal().dot(p) + self.d
    }

    /// All four coefficients multiplied by `k`.
    pub open spec fn scaled(self, k: int) -> PlaneEq {
        PlaneEq { a: k * self.a, b: k * self.b, c: k * self.c, d: k * self.d }
    }

    /// The plane through `first` with the normal
    /// `(second - first) x (third - first)`. Where that product is zero the
    /// three points determine no plane, and this one is degenerate.
    pub open spec fn through(first: Vec3, second: Vec3, third: Vec3) -> PlaneEq {
        let n = second.minus(first).cross(third.minus(first));
        PlaneEq { a: n.x, b: n.y, c: n.z, d: -n.dot(first) }
    }

    /// Every coefficient can be held in an `i64`.
    pub open spec fn fits_i64(self) -> bool {
        &&& self.normal().fits_i64()
        &&& i64::MIN <= self.d <= i64::MAX
    }

    /// The coefficients are no larger than those of a plane through three
    /// points of a cloud.
    pub open spec fn in_range(self) -> bool {
        &&& self.normal().within(NORMAL_LIMIT as int)
        &&& -OFFSET_LIMIT <= self.d <= OFFSET_LIMIT
    }

    /// `dist` is the integer part of the distance from `p` to the plane:
    /// `dist <= |a*x + b*y + c*z + d| / sqrt(a*a + b*b + c*c) < dist + 1`,
    /// stated on the squares.
    pub open spec fn floor_distance_is(self, p: Vec3, dist: nat) -> bool {
        &&& dist * dist * self.normal().norm2() <= self.evaluate(p) * self.evaluate(p)
        &&& self.evaluate(p) * self.evaluate(p) < (dist + 1) * (dist + 1) * self.normal().norm2()
    }

    /// The integer part of the distance from `p` to the plane. It has a
    /// meaning for planes that are not degenerate only.
    pub open spec fn floor_distance(self, p: Vec3) -> nat {
        choose|dist: nat| self.floor_distance_is(p, dist)
    }

    /// The distance from `p` to the plane is less than `threshold`.
    pub open spec fn closer_than(self, p: Vec3, threshold: nat) -> bool {
        self.evaluate(p) * self.evaluate(p) < threshold * threshold * self.normal().norm2()
    }
}

/// A plane with `i64` coefficients.
#[derive(Debug, Clone, Copy)]
pub struct Plane {
    pub a: i64,
    pub b: i64,
    pub c: i64,
    pub d: i64,
    pub color: Color,
}

impl View for Plane {
    type V = PlaneEq;

    open spec fn view(&self) -> PlaneEq {
        PlaneEq { a: self.a as int, b: self.b as int, c: self.c as int, d: self.d as int }
    }
}

/// Squares grow with their base, and so do their multiples by a factor that
/// is not negative.
proof fn lemma_square_multiple_monotonic(low: nat, high: nat, factor: int)
    requires
        low <= high,
        0 <= factor,
    ensures
        low * low * factor <= high * high * factor,
{
    assert(low * low <= high * high) by (nonlinear_arith)
        requires
            low <= high,
    ;
    assert(low * low * factor <= high * high * factor) by (nonlinear_arith)
        requires
            low * low <= high * high,
            0 <= factor,
    ;
}

/// At most one number is the integer part of a distance.
pub proof fn lemma_floor_distance_unique(plane: PlaneEq, p: Vec3, first: nat, second: nat)
    requires
        plane.floor_distance_is(p, first),
        plane.floor_distance_is(p, second),
    ensures
        first == second,
{
    lemma_norm2_positive(plane.normal());
    if first < second {
        lemma_square_multiple_monotonic(first + 1, second, plane.normal().norm2());
    } else if second < first {
        lemma_square_multiple_monotonic(second + 1, first, plane.normal().norm2());
    }
}

/// Comparing the integer part of the distance with a whole threshold decides
/// whether the distance itself is below the threshold.
pub proof fn lemma_floor_distance_decides(plane: PlaneEq, p: Vec3, dist: nat, threshold: nat)
    requires
        plane.floor_distance_is(p, dist),
    ensures
        dist < threshold <==> plane.closer_than(p, threshold),
{
    lemma_norm2_positive(plane.normal());
    if dist < threshold {
        lemma_square_multiple_monotonic(dist + 1, threshold, plane.normal().norm2());
    } else {
        lemma_square_multiple_monotonic(threshold, dist, plane.normal().norm2());
    }
}

/// The cross product of two bounded vectors is bounded.
proof fn lemma_cross_bound(u: Vec3, v: Vec3, bound: int)
    requires
        u.within(bound),
        v.within(bound),
    ensures
        u.cross(v).within(2 * (bound * bound)),
{
    lemma_product_bound(u.y, v.z, bound, bound);
    lemma_product_bound(u.z, v.y, bound, bound);
    lemma_product_bound(u.z, v.x, bound, bound);
    lemma_product_bound(u.x, v.z, bound, bound);
    lemma_product_bound(u.x, v.y, bound, bound);
    lemma_product_bound(u.y, v.x, bound, bound);
}

/// The scalar product of two bounded vectors is bounded.
proof fn lemma_dot_bound(u: Vec3, v: Vec3, bound_u: int, bound_v: int)
    requires
        u.within(bound_u),
        v.within(bound_v),
    ensures
        -(3 * (bound_u * bound_v)) <= u.dot(v) <= 3 * (bound_u * bound_v),
{
    lemma_product_bound(u.x, v.x, bound_u, bound_v);
    lemma_product_bound(u.y, v.y, bound_u, bound_v);
    lemma_product_bound(u.z, v.z, bound_u, bound_v);
}

/// A plane through three points of a cloud has coefficients in range, which
/// an `i64` holds.
pub proof fn lemma_through_in_range(first: Vec3, second: Vec3, third: Vec3)
    requires
        first.within(COORD_LIMIT as int),
        second.within(COORD_LIMIT as int),
        third.within(COORD_LIMIT as int),
    ensures
        PlaneEq::through(first, second, third).in_range(),
        PlaneEq::through(first, second, third).fits_i64(),
{
    let u = second.minus(first);
    let v = third.minus(first);
    lemma_cross_bound(u, v, 1_048_576);
    lemma_dot_bound(u.cross(v), first, 2_199_023_255_552, 524_288);
}

/// Where the coefficients of a plane and the coordinates of a point are in
/// range, the plane's equation at the point is less than `2^64` in
/// magnitude.
pub proof fn lemma_evaluate_bound(plane: PlaneEq, p: Vec3)
    requires
        plane.in_range(),
        p.within(COORD_LIMIT as int),
    ensures
        abs(plane.evaluate(p)) <= 2 * OFFSET_LIMIT,
        abs(plane.evaluate(p)) < 0x1_0000_0000_0000_0000,
{
    lemma_dot_bound(plane.normal(), p, 2_199_023_255_552, 524_288);
}

/// Every plane that is not degenerate has a distance to every point.
pub proof fn lemma_floor_distance_exists(plane: PlaneEq, p: Vec3)
    requires
        !plane.is_degenerate(),
    ensures
        plane.floor_distance_is(p, plane.floor_distance(p)),
{
    lemma_norm2_positive(plane.normal());
    let e = plane.evaluate(p);
    let n2 = plane.normal().norm2();
    assert(e * e >= 0 && 0 * 0 * n2 == 0) by (nonlinear_arith);
    lemma_floor_distance_search(plane, p, 0);
}

/// Walks up from a number whose square, times the normal's, does not exceed
/// the squared equation, to the integer part of the distance.
proof fn lemma_floor_distance_search(plane: PlaneEq, p: Vec3, from: nat) -> (dist: nat)
    requires
        plane.normal().norm2() > 0,
        from * from * plane.normal().norm2() <= plane.evaluate(p) * plane.evaluate(p),
    ensures
        plane.floor_distance_is(p, dist),
    decreases plane.evaluate(p) * plane.evaluate(p) - from * from * plane.normal().norm2(),
{
    let n2 = plane.normal().norm2();
    if plane.evaluate(p) * plane.evaluate(p) < (from + 1) * (from + 1) * n2 {
        from
    } else {
        assert(from * from * n2 < (from + 1) * (from + 1) * n2) by (nonlinear_arith)
            requires
                n2 > 0,
                from >= 0,
        ;
        lemma_floor_distance_search(plane, p, from + 1)
    }
}

/// Multiplying the coefficients of a plane by `k` multiplies both sides of
/// every comparison between the squared equation and a multiple of the
/// squared normal by `k * k`, and so keeps its outcome.
proof fn lemma_scaled_comparisons(plane: PlaneEq, p: Vec3, k: int, m: nat)
    requires
        k != 0,
    ensures
        (m * m * plane.scaled(k).normal().norm2() <= plane.scaled(k).evaluate(p) * plane.scaled(
            k,
        ).evaluate(p)) == (m * m * plane.normal().norm2() <= plane.evaluate(p) * plane.evaluate(p)),
        (plane.scaled(k).evaluate(p) * plane.scaled(k).evaluate(p) < m * m * plane.scaled(
            k,
        ).normal().norm2()) == (plane.evaluate(p) * plane.evaluate(p) < m * m
            * plane.normal().norm2()),
        plane.scaled(k).normal().norm2() == (k * k) * plane.normal().norm2(),
{
    let scaled = plane.scaled(k);
    let n2 = plane.normal().norm2();
    let e = plane.evaluate(p);
    let e2 = e * e;
    let (a, b, c, d) = (plane.a, plane.b, plane.c, plane.d);
    let (x, y, z) = (p.x, p.y, p.z);
    assert((k * a) * x == k * (a * x)) by (nonlinear_arith);
    assert((k * b) * y == k * (b * y)) by (nonlinear_arith);
    assert((k * c) * z == k * (c * z)) by (nonlinear_arith);
    let (ax, by, cz) = (a * x, b * y, c * z);
    assert(k * ax + k * by + k * cz + k * d == k * (ax + by + cz + d)) by (nonlinear_arith);
    assert((k * a) * (k * a) == (k * k) * (a * a)) by (nonlinear_arith);
    assert((k * b) * (k * b) == (k * k) * (b * b)) by (nonlinear_arith);
    assert((k * c) * (k * c) == (k * k) * (c * c)) by (nonlinear_arith);
    let (kk, aa, bb, cc) = (k * k, a * a, b * b, c * c);
    assert(kk * aa + kk * bb + kk * cc == kk * (aa + bb + cc)) by (nonlinear_arith);
    let scaled_e = scaled.evaluate(p);
    assert(scaled_e == k * e);
    assert(scaled.normal().norm2() == (k * k) * n2);
    assert(scaled_e * scaled_e == (k * k) * e2) by (nonlinear_arith)
        requires
            scaled_e == k * e,
            e2 == e * e,
    ;
    assert(k * k > 0) by (nonlinear_arith)
        requires
            k != 0,
    ;
    lemma_scaling_keeps_order(k * k, m * m * n2, e2);
    lemma_scaling_keeps_order(k * k, e2, m * m * n2);
    assert(m * m * ((k * k) * n2) == (k * k) * (m * m * n2)) by (nonlinear_arith);
}

/// The distance from a point to a plane does not change when all four
/// coefficients of the plane are multiplied by the same number other than
/// zero.
pub proof fn lemma_distance_scale_invariant(plane: PlaneEq, p: Vec3, k: int)
    requires
        k != 0,
        !plane.is_degenerate(),
    ensures
        !plane.scaled(k).is_degenerate(),
        plane.scaled(k).floor_distance(p) == plane.floor_distance(p),
        forall|threshold: nat|
            #[trigger] plane.scaled(k).closer_than(p, threshold) == plane.closer_than(p, threshold),
{
    let scaled = plane.scaled(k);
    let n2 = plane.normal().norm2();
    lemma_norm2_positive(plane.normal());
    lemma_norm2_positive(scaled.normal());
    lemma_scaled_comparisons(plane, p, k, 0);
    assert(k * k > 0) by (nonlinear_arith)
        requires
            k != 0,
    ;
    assert(scaled.normal().norm2() > 0) by (nonlinear_arith)
        requires
            scaled.normal().norm2() == (k * k) * n2,
            k * k > 0,
            n2 > 0,
    ;
    assert forall|threshold: nat|
        #[trigger] scaled.closer_than(p, threshold) == plane.closer_than(p, threshold) by {
        lemma_scaled_comparisons(plane, p, k, threshold);
    }
    lemma_floor_distance_exists(plane, p);
    lemma_floor_distance_exists(scaled, p);
    let dist = plane.floor_distance(p);
    let other = scaled.floor_distance(p);
    lemma_scaled_comparisons(plane, p, k, other);
    lemma_scaled_comparisons(plane, p, k, other + 1);
    assert(plane.floor_distance_is(p, other));
    lemma_floor_distance_unique(plane, p, dist, other);
}

/// Multiplying both sides by a positive factor keeps an order.
proof fn lemma_scaling_keeps_order(factor: int, left: int, right: int)
    requires
        factor > 0,
    ensures
        (factor * left <= factor * right) == (left <= right),
        (factor * left < factor * right) == (left < right),
{
    assert((factor * left <= factor * right) == (left <= right)) by (nonlinear_arith)
        requires
            factor > 0,
    ;
    assert((factor * left < factor * right) == (left < right)) by (nonlinear_arith)
        requires
            factor > 0,
    ;
}

/// The plane through three points holds all three, and where the points are
/// not collinear their distance to it is zero.
pub proof fn lemma_through_holds_points(first: Vec3, second: Vec3, third: Vec3)
    ensures
        PlaneEq::through(first, second, third).evaluate(first) == 0,
        PlaneEq::through(first, second, third).evaluate(second) == 0,
        PlaneEq::through(first, second, third).evaluate(third) == 0,
        !PlaneEq::through(first, second, third).is_degenerate() ==> {
            &&& PlaneEq::through(first, second, third).floor_distance(first) == 0
            &&& PlaneEq::through(first, second, third).floor_distance(second) == 0
            &&& PlaneEq::through(first, second, third).floor_distance(third) == 0
        },
{
    let plane = PlaneEq::through(first, second, third);
    let u = second.minus(first);
    let v = third.minus(first);
    let n = u.cross(v);
    lemma_cross_is_orthogonal(u, v);
    lemma_dot_of_difference(n, second, first);
    lemma_dot_of_difference(n, third, first);
    if !plane.is_degenerate() {
        lemma_norm2_positive(plane.normal());
        lemma_floor_distance_exists(plane, first);
        lemma_floor_distance_exists(plane, second);
        lemma_floor_distance_exists(plane, third);
        let n2 = plane.normal().norm2();
        assert(0 * 0 * n2 == 0 && (0 + 1) * (0 + 1) * n2 == n2) by (nonlinear_arith);
        assert(forall|e: int| e == 0 ==> #[trigger] (e * e) == 0) by (nonlinear_arith);
        assert(plane.floor_distance_is(first, 0));
        assert(plane.floor_distance_is(second, 0));
        assert(plane.floor_distance_is(third, 0));
        lemma_floor_distance_unique(plane, first, 0, plane.floor_distance(first));
        lemma_floor_distance_unique(plane, second, 0, plane.floor_distance(second));
        lemma_floor_distance_unique(plane, third, 0, plane.floor_distance(third));
    }
}

impl Plane {
    /// The plane with the given coefficients and colour.
    pub fn new(a: i64, b: i64, c: i64, d: i64, color: Color) -> (plane: Plane)
        ensures
            plane@ == (PlaneEq { a: a as int, b: b as int, c: c as int, d: d as int }),
            plane.color == color,
    {
        Plane { a: a, b: b, c: c, d: d, color: color }
    }

    /// The plane with the given coefficients, in black.
    pub fn new_without_color(a: i64, b: i64, c: i64, d: i64) -> (plane: Plane)
        ensures
            plane@ == (PlaneEq { a: a as int, b: b as int, c: c as int, d: d as int }),
            plane.color@ == seq![0u8, 0u8, 0u8],
    {
        Plane { a: a, b: b, c: c, d: d, color: [0, 0, 0] }
    }

    /// The plane through three points, with the normal
    /// `(second - first) x (third - first)` as it comes, of whatever length.
    /// Three collinear points give a degenerate plane: test for it before
    /// use.
    ///
    /// The coefficients must be representable. They are for points within
    /// `COORD_LIMIT`, as `lemma_through_in_range` shows, and the plane is
    /// then in range too.
    pub fn gen_plane_from_points(first: &Point3D, second: &Point3D, third: &Point3D) -> (plane:
        Plane)
        requires
            PlaneEq::through(first.position(), second.position(), third.position()).fits_i64(),
        ensures
            plane@ == PlaneEq::through(first.position(), second.position(), third.position()),
            plane.color@ == seq![0u8, 0u8, 0u8],
    {
        let v1: Vector3D = Vector3D::new(
            second.x as i64 - first.x as i64,
            second.y as i64 - first.y as i64,
            second.z as i64 - first.z as i64,
        );
        let v2: Vector3D = Vector3D::new(
            third.x as i64 - first.x as i64,
            third.y as i64 - first.y as i64,
            third.z as i64 - first.z as i64,
        );
        let normal_vector: Vector3D = v1.cross(&v2);
        let a: i64 = normal_vector.x;
        let b: i64 = normal_vector.y;
        let c: i64 = normal_vector.z;
        proof {
            lemma_product_bound(a as int, first.x as int, 0x8000_0000_0000_0000, 0x8000_0000);
            lemma_product_bound(b as int, first.y as int, 0x8000_0000_0000_0000, 0x8000_0000);
            lemma_product_bound(c as int, first.z as int, 0x8000_0000_0000_0000, 0x8000_0000);
        }
        let moment: i128 = (a as i128) * (first.x as i128) + (b as i128) * (first.y as i128) + (
        c as i128) * (first.z as i128);
        let d: i64 = (-moment) as i64;
        Plane::new_without_color(a, b, c, d)
    }

    /// The direction of the normal, as its primitive vector.
    pub fn get_normal_vector(&self) -> (v: Vector3D)
        ensures
            v@ == self@.normal().primitive(),
    {
        Vector3D::new(self.a, self.b, self.c).normalize()
    }

    /// Whether the plane lacks a normal.
    pub fn is_degenerate(&self) -> (b: bool)
        ensures
            b == self@.is_degenerate(),
    {
        self.a == 0 && self.b == 0 && self.c == 0
    }
}

} // verus!
