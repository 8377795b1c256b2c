//! Vectors of the integer lattice: subtraction, cross product and reduction
//! to the primitive vector of a direction.

use vstd::prelude::*;
use vstd::arithmetic::div_mod::{lemma_fundamental_div_mod, lemma_fundamental_div_mod_converse};
use crate::arith::{abs, gcd, greatest_common_divisor, lemma_gcd_is_greatest, magnitude};

verus! {

/// The mathematical value of a vector: three unbounded integers.
pub struct Vec3 {
    pub x: int,
    pub y: int,
    pub z: int,
}

impl Vec3 {
    pub open spec fn zero() -> Vec3 {
        Vec3 { x: 0, y: 0, z: 0 }
    }

    pub open spec fn is_zero(self) -> bool {
        self.x == 0 && self.y == 0 && self.z == 0
    }

    /// Component-wise sum.
    pub open spec fn plus(self, other: Vec3) -> Vec3 {
        Vec3 { x: self.x + other.x, y: self.y + other.y, z: self.z + other.z }
    }

    /// Component-wise difference.
    pub open spec fn minus(self, other: Vec3) -> Vec3 {
        Vec3 { x: self.x - other.x, y: self.y - other.y, z: self.z - other.z }
    }

    /// Every component multiplied by `k`.
    pub open spec fn scaled(self, k: int) -> Vec3 {
        Vec3 { x: k * self.x, y: k * self.y, z: k * self.z }
    }

    /// Scalar product.
    pub open spec fn dot(self, other: Vec3) -> int {
        self.x * other.x + self.y * other.y + self.z * other.z
    }

    /// Vector product.
    pub open spec fn cross(self, other: Vec3) -> Vec3 {
        Vec3 {
            x: self.y * other.z - self.z * other.y,
            y: self.z * other.x - self.x * other.z,
            z: self.x * other.y - self.y * other.x,
        }
    }

    /// Squared Euclidean length.
    pub open spec fn norm2(self) -> int {
        self.dot(self)
    }

    /// The greatest positive integer that divides all three components, and
    /// 0 for the zero vector.
    pub open spec fn content(self) -> nat {
        gcd(gcd(abs(self.x), abs(self.y)), abs(self.z))
    }

    /// The shortest lattice vector that points the same way: every component
    /// divided by the content. The zero vector is its own primitive vector.
    pub open spec fn primitive(self) -> Vec3 {
        if self.is_zero() {
            Vec3::zero()
        } else {
            Vec3 {
                x: self.x / (self.content() as int),
                y: self.y / (self.content() as int),
                z: self.z / (self.content() as int),
            }
        }
    }

    /// Every component lies in `[-bound, bound]`.
    pub open spec fn within(self, bound: int) -> bool {
        &&& -bound <= self.x <= bound
        &&& -bound <= self.y <= bound
        &&& -bound <= self.z <= bound
    }

    /// Every component can be held in an `i64`.
    pub open spec fn fits_i64(self) -> bool {
        &&& i64::MIN <= self.x <= i64::MAX
        &&& i64::MIN <= self.y <= i64::MAX
        &&& i64::MIN <= self.z <= i64::MAX
    }
}

/// A vector with `i64` components.
#[derive(Debug, Clone, Copy, PartialEq, Eq, Structural)]
pub struct Vector3D {
    pub x: i64,
    pub y: i64,
    pub z: i64,
}

impl View for Vector3D {
    type V = Vec3;

    open spec fn view(&self) -> Vec3 {
        Vec3 { x: self.x as int, y: self.y as int, z: self.z as int }
    }
}

/// `a * b - c * d`, computed without intermediate overflow.
fn difference_of_products(a: i64, b: i64, c: i64, d: i64) -> (r: i64)
    requires
        i64::MIN <= a * b - c * d <= i64::MAX,
    ensures
        r == a * b - c * d,
{
    let a_wide: i128 = a as i128;
    let b_wide: i128 = b as i128;
    let c_wide: i128 = c as i128;
    let d_wide: i128 = d as i128;
    assert(-0x4000_0000_0000_0000_0000_0000_0000_0000 <= a_wide * b_wide
        <= 0x4000_0000_0000_0000_0000_0000_0000_0000) by (nonlinear_arith)
        requires
            -0x8000_0000_0000_0000 <= a_wide <= 0x7fff_ffff_ffff_ffff,
            -0x8000_0000_0000_0000 <= b_wide <= 0x7fff_ffff_ffff_ffff,
    ;
    assert(-0x4000_0000_0000_0000_0000_0000_0000_0000 <= c_wide * d_wide
        <= 0x4000_0000_0000_0000_0000_0000_0000_0000) by (nonlinear_arith)
        requires
            -0x8000_0000_0000_0000 <= c_wide <= 0x7fff_ffff_ffff_ffff,
            -0x8000_0000_0000_0000 <= d_wide <= 0x7fff_ffff_ffff_ffff,
    ;
    let left: i128 = a_wide * b_wide;
    let right: i128 = c_wide * d_wide;
    let wide: i128 = left - right;
    wide as i64
}

/// `x / g` where `g` divides `x`.
fn exact_quotient(x: i64, g: u64) -> (q: i64)
    requires
        g > 0,
        abs(x as int) % (g as nat) == 0,
    ensures
        q == x as int / g as int,
        g * q == x,
{
    let m: u64 = magnitude(x);
    let k: u64 = m / g;
    proof {
        lemma_fundamental_div_mod(m as int, g as int);
        assert(m as int == g as int * (k as int));
        assert(k <= m) by (nonlinear_arith)
            requires
                m as int == g as int * (k as int),
                g > 0,
                k >= 0,
        ;
    }
    if x >= 0 {
        k as i64
    } else {
        assert(k > 0) by (nonlinear_arith)
            requires
                m as int == g as int * (k as int),
                m > 0,
        ;
        let q: i64 = -((k - 1) as i64) - 1;
        proof {
            assert(x as int == (q as int) * (g as int) + 0 && x as int == (g as int) * (q as int))
                by (nonlinear_arith)
                requires
                    -(x as int) == g as int * (k as int),
                    q as int == -(k as int),
            ;
            lemma_fundamental_div_mod_converse(x as int, g as int, q as int, 0);
        }
        q
    }
}

/// The square of a vector's length is positive unless the vector is zero.
pub proof fn lemma_norm2_positive(v: Vec3)
    ensures
        v.norm2() >= 0,
        v.norm2() == 0 <==> v.is_zero(),
{
    assert(v.x * v.x >= 0 && (v.x * v.x == 0 <==> v.x == 0)) by (nonlinear_arith);
    assert(v.y * v.y >= 0 && (v.y * v.y == 0 <==> v.y == 0)) by (nonlinear_arith);
    assert(v.z * v.z >= 0 && (v.z * v.z == 0 <==> v.z == 0)) by (nonlinear_arith);
}

/// The factors of a product of three can change places.
proof fn lemma_product_of_three(a: int, b: int, c: int)
    ensures
        (a * b) * c == (a * c) * b,
        (a * b) * c == (c * b) * a,
{
    assert((a * b) * c == (a * c) * b) by (nonlinear_arith);
    assert((a * b) * c == (c * b) * a) by (nonlinear_arith);
}

/// A difference times a factor is the difference of the products.
proof fn lemma_difference_times(a: int, b: int, c: int)
    ensures
        (a - b) * c == a * c - b * c,
{
    assert((a - b) * c == a * c - b * c) by (nonlinear_arith);
}

/// The vector product of two vectors is orthogonal to both.
pub proof fn lemma_cross_is_orthogonal(u: Vec3, v: Vec3)
    ensures
        u.cross(v).dot(u) == 0,
        u.cross(v).dot(v) == 0,
{
    lemma_difference_times(u.y * v.z, u.z * v.y, u.x);
    lemma_difference_times(u.z * v.x, u.x * v.z, u.y);
    lemma_difference_times(u.x * v.y, u.y * v.x, u.z);
    lemma_product_of_three(u.y, v.z, u.x);
    lemma_product_of_three(u.x, v.z, u.y);
    lemma_product_of_three(u.z, v.y, u.x);
    lemma_product_of_three(u.x, v.y, u.z);
    lemma_product_of_three(u.z, v.x, u.y);
    lemma_product_of_three(u.y, v.x, u.z);
    assert((u.y * v.z) * u.x == (u.x * v.z) * u.y);
    assert((u.z * v.y) * u.x == (u.x * v.y) * u.z);
    assert((u.z * v.x) * u.y == (u.y * v.x) * u.z);
    lemma_difference_times(u.y * v.z, u.z * v.y, v.x);
    lemma_difference_times(u.z * v.x, u.x * v.z, v.y);
    lemma_difference_times(u.x * v.y, u.y * v.x, v.z);
    lemma_product_of_three(u.y, v.z, v.x);
    lemma_product_of_three(u.z, v.y, v.x);
    lemma_product_of_three(u.x, v.z, v.y);
    assert((u.y * v.z) * v.x == (u.y * v.x) * v.z);
    assert((u.z * v.y) * v.x == (u.z * v.x) * v.y);
    assert((u.x * v.z) * v.y == (u.x * v.y) * v.z);
}

/// The scalar product with a difference is the difference of the scalar
/// products.
pub proof fn lemma_dot_of_difference(n: Vec3, p: Vec3, q: Vec3)
    ensures
        n.dot(p.minus(q)) == n.dot(p) - n.dot(q),
{
    assert(n.x * (p.x - q.x) == n.x * p.x - n.x * q.x) by (nonlinear_arith);
    assert(n.y * (p.y - q.y) == n.y * p.y - n.y * q.y) by (nonlinear_arith);
    assert(n.z * (p.z - q.z) == n.z * p.z - n.z * q.z) by (nonlinear_arith);
}

/// The content of a vector is positive unless the vector is zero, divides
/// every component, and is the greatest integer that does.
pub proof fn lemma_content(v: Vec3)
    ensures
        v.content() == 0 <==> v.is_zero(),
        !v.is_zero() ==> {
            &&& abs(v.x) % v.content() == 0
            &&& abs(v.y) % v.content() == 0
            &&& abs(v.z) % v.content() == 0
        },
        forall|d: nat|
            #![trigger abs(v.x) % d]
            d > 0 && abs(v.x) % d == 0 && abs(v.y) % d == 0 && abs(v.z) % d == 0 && !v.is_zero()
                ==> v.content() % d == 0,
{
    let inner = gcd(abs(v.x), abs(v.y));
    lemma_gcd_is_greatest(abs(v.x), abs(v.y));
    lemma_gcd_is_greatest(inner, abs(v.z));
    let g = v.content();
    if !v.is_zero() {
        if inner > 0 {
            // g divides inner, and inner divides x and y
            lemma_fundamental_div_mod(inner as int, g as int);
            let t = inner as int / g as int;
            lemma_fundamental_div_mod(abs(v.x) as int, inner as int);
            lemma_fundamental_div_mod(abs(v.y) as int, inner as int);
            let qx = abs(v.x) as int / inner as int;
            let qy = abs(v.y) as int / inner as int;
            assert(abs(v.x) as int == (qx * t) * g + 0) by (nonlinear_arith)
                requires
                    abs(v.x) as int == inner * qx,
                    inner as int == g * t,
            ;
            assert(abs(v.y) as int == (qy * t) * g + 0) by (nonlinear_arith)
                requires
                    abs(v.y) as int == inner * qy,
                    inner as int == g * t,
            ;
            lemma_fundamental_div_mod_converse(abs(v.x) as int, g as int, qx * t, 0);
            lemma_fundamental_div_mod_converse(abs(v.y) as int, g as int, qy * t, 0);
        }
    }
    assert forall|d: nat|
        #![trigger abs(v.x) % d]
        d > 0 && abs(v.x) % d == 0 && abs(v.y) % d == 0 && abs(v.z) % d == 0
            && !v.is_zero() implies v.content() % d == 0 by {
        if inner > 0 {
            assert(crate::arith::divides(d, inner));
        }
        assert(crate::arith::divides(d, v.content()));
    }
}

impl Vector3D {
    pub fn new(x: i64, y: i64, z: i64) -> (v: Vector3D)
        ensures
            v.x == x,
            v.y == y,
            v.z == z,
    {
        Vector3D { x, y, z }
    }

    /// The vector product. The product must be representable; it is whenever
    /// both operands have components of at most 31 bits.
    pub fn cross(&self, other: &Vector3D) -> (v: Vector3D)
        requires
            self@.cross(other@).fits_i64(),
        ensures
            v@ == self@.cross(other@),
    {
        Vector3D {
            x: difference_of_products(self.y, other.z, self.z, other.y),
            y: difference_of_products(self.z, other.x, self.x, other.z),
            z: difference_of_products(self.x, other.y, self.y, other.x),
        }
    }

    /// The primitive vector of this vector's direction: the components
    /// divided by their greatest common divisor. Few directions have a
    /// vector of length one in the lattice; every direction has this one,
    /// its shortest. The zero vector is returned unchanged, without a
    /// division.
    pub fn normalize(&self) -> (v: Vector3D)
        ensures
            v@ == self@.primitive(),
            self@.is_zero() ==> v@.is_zero(),
            v@.scaled(self@.content() as int) == self@,
    {
        let g_xy: u64 = greatest_common_divisor(magnitude(self.x), magnitude(self.y));
        let g: u64 = greatest_common_divisor(g_xy, magnitude(self.z));
        proof {
            lemma_content(self@);
        }
        if g == 0 {
            Vector3D { x: 0, y: 0, z: 0 }
        } else {
            Vector3D {
                x: exact_quotient(self.x, g),
                y: exact_quotient(self.y, g),
                z: exact_quotient(self.z, g),
            }
        }
    }

    /// The component-wise difference, which must be representable.
    pub fn sub(self, other: Vector3D) -> (v: Vector3D)
        requires
            self@.minus(other@).fits_i64(),
        ensures
            v@ == self@.minus(other@),
    {
        Vector3D { x: self.x - other.x, y: self.y - other.y, z: self.z - other.z }
    }
}

} // verus!
