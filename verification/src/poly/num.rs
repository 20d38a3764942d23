//! Integer arithmetic underlying the monomial algebra: absolute value,
//! divisibility, and the Euclidean greatest common divisor.

use vstd::arithmetic::div_mod::{
    lemma_fundamental_div_mod, lemma_fundamental_div_mod_converse, lemma_mod_multiples_basic,
    lemma_small_mod,
};
use vstd::prelude::*;

verus! {

/// Absolute value of a mathematical integer.
pub open spec fn abs(a: int) -> nat {
    if a >= 0 {
        a as nat
    } else {
        (-a) as nat
    }
}

/// `d` divides `x`; zero divides only zero.
pub open spec fn divides(d: nat, x: nat) -> bool {
    if d == 0 {
        x == 0
    } else {
        x % d == 0
    }
}

/// Greatest common divisor by Euclid's algorithm, with `gcd_nat(0, b) == b`.
pub open spec fn gcd_nat(a: nat, b: nat) -> nat
    decreases a,
{
    if a == 0 {
        b
    } else {
        gcd_nat(b % a, a)
    }
}

/// A divisor of two numbers divides any sum `k * x + y` of their multiples.
proof fn lemma_divides_linear(d: nat, x: nat, y: nat, k: nat)
    requires
        divides(d, x),
        divides(d, y),
    ensures
        divides(d, (k * x + y) as nat),
{
    if d == 0 {
        assert(k * x + y == 0) by (nonlinear_arith)
            requires
                x == 0,
                y == 0,
        ;
    } else {
        lemma_fundamental_div_mod(x as int, d as int);
        lemma_fundamental_div_mod(y as int, d as int);
        let qx = x as int / d as int;
        let qy = y as int / d as int;
        assert(k * x + y == (k * qx + qy) * d) by (nonlinear_arith)
            requires
                x == qx * d,
                y == qy * d,
        ;
        lemma_mod_multiples_basic(k * qx + qy, d as int);
    }
}

/// Every number divides itself.
pub proof fn lemma_divides_refl(x: nat)
    ensures
        divides(x, x),
{
}

/// Divisibility is transitive.
pub proof fn lemma_divides_trans(x: nat, y: nat, z: nat)
    requires
        divides(x, y),
        divides(y, z),
    ensures
        divides(x, z),
{
    if x == 0 || y == 0 {
    } else {
        lemma_fundamental_div_mod(y as int, x as int);
        lemma_fundamental_div_mod(z as int, y as int);
        let ky = y as int / x as int;
        let kz = z as int / y as int;
        assert(z == (kz * ky) * x) by (nonlinear_arith)
            requires
                y == ky * x,
                z == kz * y,
        ;
        lemma_mod_multiples_basic(kz * ky, x as int);
    }
}

/// The greatest common divisor divides both of its arguments.
pub proof fn lemma_gcd_divides(a: nat, b: nat)
    ensures
        divides(gcd_nat(a, b), a),
        divides(gcd_nat(a, b), b),
    decreases a,
{
    if a == 0 {
    } else {
        lemma_gcd_divides(b % a, a);
        let g = gcd_nat(a, b);
        lemma_fundamental_div_mod(b as int, a as int);
        lemma_divides_linear(g, a, b % a, b / a);
        assert(b == (b / a) * a + b % a);
    }
}

/// A nonzero number is at least as large as any of its divisors.
pub proof fn lemma_divides_le(d: nat, x: nat)
    requires
        divides(d, x),
        x > 0,
    ensures
        0 < d <= x,
{
    lemma_fundamental_div_mod(x as int, d as int);
    let q = x as int / d as int;
    assert(x == q * d);
    if q < 1 {
        assert(q * d <= 0) by (nonlinear_arith)
            requires
                q <= 0,
                d >= 0,
        ;
    }
    assert(d <= q * d) by (nonlinear_arith)
        requires
            q >= 1,
            d >= 1,
    ;
}

/// The greatest common divisor is bounded by each nonzero argument.
pub proof fn lemma_gcd_bound(a: nat, b: nat)
    ensures
        a > 0 ==> gcd_nat(a, b) <= a,
        b > 0 ==> gcd_nat(a, b) <= b,
        gcd_nat(a, b) == 0 ==> a == 0 && b == 0,
        a == 0 ==> gcd_nat(a, b) == b,
{
    lemma_gcd_divides(a, b);
    if a > 0 {
        lemma_divides_le(gcd_nat(a, b), a);
    }
    if b > 0 {
        lemma_divides_le(gcd_nat(a, b), b);
    }
}

/// The greatest common divisor does not depend on the order of its arguments.
pub proof fn lemma_gcd_commutes(a: nat, b: nat)
    ensures
        gcd_nat(a, b) == gcd_nat(b, a),
{
    if a == 0 {
        if b != 0 {
            lemma_small_mod(0, b);
            assert(gcd_nat(b, a) == gcd_nat(0, b));
        }
    } else if b == 0 {
        lemma_small_mod(0, a);
        assert(gcd_nat(a, b) == gcd_nat(0, a));
    } else if a == b {
        assert(a % a == 0);
        assert(gcd_nat(a, a) == gcd_nat(0, a));
    } else if a < b {
        lemma_small_mod(a, b);
        assert(gcd_nat(b, a) == gcd_nat(a % b, b));
    } else {
        lemma_small_mod(b, a);
        assert(gcd_nat(a, b) == gcd_nat(b % a, a));
    }
}

/// A number is its own greatest common divisor with itself.
pub proof fn lemma_gcd_self(a: nat)
    ensures
        gcd_nat(a, a) == a,
{
    if a != 0 {
        assert(a % a == 0);
        assert(gcd_nat(a, a) == gcd_nat(0, a));
    }
}

/// Scaling both arguments by a common positive factor scales the
/// greatest common divisor by the same factor.
pub proof fn lemma_gcd_scale(k: nat, a: nat, b: nat)
    requires
        k > 0,
    ensures
        gcd_nat((k * a) as nat, (k * b) as nat) == k * gcd_nat(a, b),
    decreases a,
{
    if a == 0 {
        assert(k * a == 0) by (nonlinear_arith)
            requires
                a == 0,
        ;
    } else {
        assert(k * a > 0) by (nonlinear_arith)
            requires
                k >= 1,
                a >= 1,
        ;
        lemma_fundamental_div_mod(b as int, a as int);
        let q = b as int / a as int;
        let r = b % a;
        assert(k * b == q * (k * a) + k * r) by (nonlinear_arith)
            requires
                b == q * a + r,
        ;
        assert(k * r < k * a) by (nonlinear_arith)
            requires
                r < a,
                k >= 1,
        ;
        lemma_fundamental_div_mod_converse(k * b as int, k * a as int, q, k * r as int);
        assert((k * b) % (k * a) == k * r);
        lemma_gcd_scale(k, r, a);
        assert(gcd_nat((k * a) as nat, (k * b) as nat) == gcd_nat((k * r) as nat, (k * a) as nat));
    }
}

/// Dividing two numbers by their greatest common divisor leaves
/// numbers whose greatest common divisor is one.
pub proof fn lemma_gcd_coprime_quotients(a: nat, b: nat)
    requires
        gcd_nat(a, b) > 0,
    ensures
        gcd_nat(a / gcd_nat(a, b), b / gcd_nat(a, b)) == 1,
{
    let g = gcd_nat(a, b);
    lemma_gcd_divides(a, b);
    lemma_fundamental_div_mod(a as int, g as int);
    lemma_fundamental_div_mod(b as int, g as int);
    assert(a == g * (a / g)) by (nonlinear_arith)
        requires
            a == (a / g) * g + a % g,
            a % g == 0,
    ;
    assert(b == g * (b / g)) by (nonlinear_arith)
        requires
            b == (b / g) * g + b % g,
            b % g == 0,
    ;
    lemma_gcd_scale(g, a / g, b / g);
    assert(g * gcd_nat(a / g, b / g) == g * 1);
    assert(gcd_nat(a / g, b / g) == 1) by (nonlinear_arith)
        requires
            g * gcd_nat(a / g, b / g) == g * 1,
            g > 0,
    ;
}


/// A common divisor of two numbers divides their greatest common
/// divisor.
pub proof fn lemma_gcd_greatest(d: nat, a: nat, b: nat)
    requires
        divides(d, a),
        divides(d, b),
    ensures
        divides(d, gcd_nat(a, b)),
    decreases a,
{
    if a == 0 {
    } else {
        if d == 0 {
            assert(a == 0);
        } else {
            lemma_fundamental_div_mod(b as int, a as int);
            lemma_fundamental_div_mod(a as int, d as int);
            lemma_fundamental_div_mod(b as int, d as int);
            let q = b as int / a as int;
            let ka = a as int / d as int;
            let kb = b as int / d as int;
            assert(b % a == (kb - q * ka) * d) by (nonlinear_arith)
                requires
                    b == q * a + (b % a),
                    a == ka * d,
                    b == kb * d,
            ;
            lemma_mod_multiples_basic(kb - q * ka, d as int);
            assert(divides(d, b % a));
            lemma_gcd_greatest(d, b % a, a);
        }
    }
}

/// One is the greatest common divisor of one and anything.
pub proof fn lemma_gcd_one(b: nat)
    ensures
        gcd_nat(1, b) == 1,
{
    lemma_fundamental_div_mod(b as int, 1);
    assert(b % 1 == 0);
    assert(gcd_nat(1, b) == gcd_nat(0, 1));
}

/// Comparing against a quotient decides whether a multiple of ten
/// stays within a bound.
pub proof fn lemma_div10(v: int, y: int)
    requires
        v >= 0,
        y >= 0,
    ensures
        (v <= y / 10) <==> (10 * v <= y),
{
    lemma_fundamental_div_mod(y, 10);
    if v <= y / 10 {
        assert(10 * v <= 10 * (y / 10)) by (nonlinear_arith)
            requires
                v <= y / 10,
        ;
    }
    if 10 * v <= y {
        vstd::arithmetic::div_mod::lemma_div_is_ordered(10 * v, y, 10);
        vstd::arithmetic::div_mod::lemma_div_multiples_vanish(v, 10);
    }
}

/// Quotient of two integers whose magnitudes divide exactly: the
/// magnitude quotient with the usual rule of signs.
pub open spec fn divq(a: int, d: int) -> int {
    if (a >= 0) == (d >= 0) {
        (abs(a) / abs(d)) as int
    } else {
        -((abs(a) / abs(d)) as int)
    }
}

/// When `d` divides `a` exactly, `divq` is the exact quotient.
pub proof fn lemma_divq_exact(a: int, d: int)
    requires
        d != 0,
        divides(abs(d), abs(a)),
    ensures
        divq(a, d) * d == a,
        abs(divq(a, d)) == abs(a) / abs(d),
{
    let k = (abs(a) / abs(d)) as int;
    lemma_fundamental_div_mod(abs(a) as int, abs(d) as int);
    assert(abs(a) as int == k * abs(d));
    if a >= 0 {
        if d >= 0 {
            assert(k * d == a) by (nonlinear_arith)
                requires
                    a == k * d,
            ;
        } else {
            assert((-k) * d == a) by (nonlinear_arith)
                requires
                    a == k * (-d),
            ;
        }
    } else {
        if d >= 0 {
            assert((-k) * d == a) by (nonlinear_arith)
                requires
                    -a == k * d,
            ;
        } else {
            assert(k * d == a) by (nonlinear_arith)
                requires
                    -a == k * (-d),
            ;
        }
    }
    if k >= 0 {
    } else {
        assert(false);
    }
}

/// The magnitude of an exact quotient never exceeds the dividend's.
pub proof fn lemma_divq_le(a: int, d: int)
    requires
        d != 0,
    ensures
        abs(divq(a, d)) <= abs(a),
{
    vstd::arithmetic::div_mod::lemma_div_nonincreasing(abs(a) as int, abs(d) as int);
}

/// Exact division of two coefficients; the divisor's magnitude must
/// divide the dividend's, and the quotient must fit the result type.
pub fn divide(a: i64, d: i64) -> (r: i64)
    requires
        d != 0,
        divides(abs(d as int), abs(a as int)),
        i64::MIN <= divq(a as int, d as int) <= i64::MAX,
    ensures
        r as int == divq(a as int, d as int),
        r as int * d as int == a as int,
{
    proof {
        lemma_divq_exact(a as int, d as int);
    }
    let aa: u64 = if a == i64::MIN {
        9223372036854775808u64
    } else if a < 0 {
        (-a) as u64
    } else {
        a as u64
    };
    let dd: u64 = if d == i64::MIN {
        9223372036854775808u64
    } else if d < 0 {
        (-d) as u64
    } else {
        d as u64
    };
    let q: u64 = aa / dd;
    if (a < 0) == (d < 0) {
        q as i64
    } else {
        if q == 0 {
            0i64
        } else {
            -((q - 1) as i64) - 1
        }
    }
}

/// Greatest common divisor of two coefficients, computed by Euclid's
/// algorithm on their absolute values; the result is never negative.
pub fn gcd(m: i64, n: i64) -> (r: i64)
    requires
        gcd_nat(abs(m as int), abs(n as int)) <= i64::MAX as nat,
    ensures
        r as nat == gcd_nat(abs(m as int), abs(n as int)),
        r >= 0,
{
    let mut a: u64 = if m == i64::MIN {
        9223372036854775808u64
    } else if m < 0 {
        (-m) as u64
    } else {
        m as u64
    };
    let mut b: u64 = if n == i64::MIN {
        9223372036854775808u64
    } else if n < 0 {
        (-n) as u64
    } else {
        n as u64
    };
    assert(a as nat == abs(m as int));
    assert(b as nat == abs(n as int));
    while a != 0
        invariant
            gcd_nat(a as nat, b as nat) == gcd_nat(abs(m as int), abs(n as int)),
        decreases a,
    {
        let t = b % a;
        b = a;
        a = t;
    }
    b as i64
}

} // verus!
