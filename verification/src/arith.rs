//! Integer arithmetic that the geometry rests on: greatest common divisors
//! and integer square roots.

use vstd::prelude::*;
use vstd::arithmetic::div_mod::{lemma_fundamental_div_mod, lemma_mod_multiples_vanish};

verus! {

/// `d` divides `n`.
pub open spec fn divides(d: nat, n: nat) -> bool {
    d > 0 && n % d == 0
}

/// The greatest common divisor, by Euclid's recurrence; `gcd(0, 0)` is 0.
pub open spec fn gcd(a: nat, b: nat) -> nat
    decreases b,
{
    if b == 0 {
        a
    } else {
        gcd(b, a % b)
    }
}

/// `r` is the integer part of the square root of `n`.
pub open spec fn is_floor_sqrt(r: nat, n: nat) -> bool {
    r * r <= n < (r + 1) * (r + 1)
}

/// The absolute value of an integer.
pub open spec fn abs(i: int) -> nat {
    if i < 0 {
        (-i) as nat
    } else {
        i as nat
    }
}

proof fn lemma_divides_linear(d: nat, a: nat, b: nat)
    requires
        b > 0,
        d > 0,
    ensures
        (divides(d, b) && divides(d, a % b)) ==> divides(d, a),
        (divides(d, a) && divides(d, b)) ==> divides(d, a % b),
{
    lemma_fundamental_div_mod(a as int, b as int);
    let q = a as int / b as int;
    let r = a as int % b as int;
    assert(0 <= q) by (nonlinear_arith)
        requires
            q == a as int / b as int,
            a >= 0,
            b > 0,
    ;
    if divides(d, b) {
        lemma_fundamental_div_mod(b as int, d as int);
        let k = b as int / d as int;
        assert(b as int == d * k);
        if divides(d, r as nat) {
            lemma_fundamental_div_mod(r, d as int);
            let m = r / d as int;
            assert(a as int == d * (k * q) + d * m) by (nonlinear_arith)
                requires
                    a as int == b * q + r,
                    b as int == d * k,
                    r == d * m,
            ;
            assert(a as int == (k * q + m) * d + 0) by (nonlinear_arith)
                requires
                    a as int == d * (k * q) + d * m,
            ;
            lemma_mod_multiples_vanish(k * q + m, 0, d as int);
        }
        if divides(d, a) {
            lemma_fundamental_div_mod(a as int, d as int);
            let n = a as int / d as int;
            assert(r == (n - k * q) * d + 0) by (nonlinear_arith)
                requires
                    a as int == b * q + r,
                    b as int == d * k,
                    a as int == d * n,
            ;
            lemma_mod_multiples_vanish(n - k * q, 0, d as int);
        }
    }
}

/// The greatest common divisor divides both arguments (where it is not 0),
/// and every common divisor divides it.
pub proof fn lemma_gcd_is_greatest(a: nat, b: nat)
    ensures
        gcd(a, b) == 0 <==> (a == 0 && b == 0),
        a > 0 ==> divides(gcd(a, b), a),
        b > 0 ==> divides(gcd(a, b), b),
        gcd(a, b) > 0 ==> a % gcd(a, b) == 0 && b % gcd(a, b) == 0,
        forall|d: nat|
            d > 0 && a % d == 0 && b % d == 0 && gcd(a, b) > 0 ==> #[trigger] divides(d, gcd(a, b)),
    decreases b,
{
    if b == 0 {
        if a > 0 {
            lemma_mod_multiples_vanish(1, 0, a as int);
        }
    } else {
        lemma_gcd_is_greatest(b, a % b);
        let g = gcd(a, b);
        assert(g == gcd(b, a % b));
        assert(g > 0);
        lemma_divides_linear(g, a, b);
        assert forall|d: nat|
            d > 0 && a % d == 0 && b % d == 0 && gcd(a, b) > 0 implies #[trigger] divides(d, gcd(a, b)) by {
            lemma_divides_linear(d, a, b);
        }
    }
}

/// The absolute value of a machine integer.
pub fn magnitude(x: i64) -> (m: u64)
    ensures
        m == abs(x as int),
{
    if x >= 0 {
        x as u64
    } else {
        let shifted: i64 = -(x + 1);
        shifted as u64 + 1
    }
}

/// The absolute value of a wide machine integer.
pub fn magnitude_wide(x: i128) -> (m: u128)
    ensures
        m == abs(x as int),
{
    if x >= 0 {
        x as u128
    } else {
        let shifted: i128 = -(x + 1);
        shifted as u128 + 1
    }
}

/// The square of an integer is the square of its absolute value.
pub proof fn lemma_square_of_abs(i: int)
    ensures
        abs(i) * abs(i) == i * i,
{
    assert((-i) * (-i) == i * i) by (nonlinear_arith);
}

/// The product of two bounded integers is bounded by the product of the
/// bounds.
pub proof fn lemma_product_bound(u: int, v: int, bound_u: int, bound_v: int)
    requires
        -bound_u <= u <= bound_u,
        -bound_v <= v <= bound_v,
    ensures
        -(bound_u * bound_v) <= u * v <= bound_u * bound_v,
{
    assert(-(bound_u * bound_v) <= u * v <= bound_u * bound_v) by (nonlinear_arith)
        requires
            -bound_u <= u <= bound_u,
            -bound_v <= v <= bound_v,
    ;
}

/// The greatest common divisor of two machine integers.
pub fn greatest_common_divisor(a: u64, b: u64) -> (g: u64)
    ensures
        g == gcd(a as nat, b as nat),
{
    let mut x: u64 = a;
    let mut y: u64 = b;
    while y != 0
        invariant
            gcd(x as nat, y as nat) == gcd(a as nat, b as nat),
        decreases y,
    {
        let r: u64 = x % y;
        x = y;
        y = r;
    }
    x
}

/// The integer part of the square root.
pub fn floor_sqrt(n: u128) -> (r: u64)
    ensures
        is_floor_sqrt(r as nat, n as nat),
{
    let mut low: u128 = 0;
    let mut high: u128 = 0x1_0000_0000_0000_0000;
    assert(high * high > n) by (nonlinear_arith)
        requires
            high == 0x1_0000_0000_0000_0000,
            n <= u128::MAX,
    ;
    while high - low > 1
        invariant
            low < high <= 0x1_0000_0000_0000_0000,
            low * low <= n < high * high,
        decreases high - low,
    {
        let mid: u128 = low + (high - low) / 2;
        assert(mid * mid <= u128::MAX) by (nonlinear_arith)
            requires
                mid < 0x1_0000_0000_0000_0000,
        ;
        if mid * mid <= n {
            low = mid;
        } else {
            high = mid;
        }
    }
    low as u64
}

} // verus!
