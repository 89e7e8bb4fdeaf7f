//! The negacyclic ring `Z[X]/(X^n + 1)` and its Galois group.
//!
//! A polynomial is modelled by the function that gives the coefficient of
//! `X^i` for every integer `i`, with `X^(i + n) = -X^i`. In this model the
//! automorphism `X -> X^p` and the rotation by `X^k` are re-indexings.

use vstd::prelude::*;
use vstd::arithmetic::div_mod::*;
use vstd::arithmetic::mul::*;
use vstd::arithmetic::power::*;
use crate::arith::lemma_quotient;
use vstd::arithmetic::power2::*;

verus! {

/// Generator of the cyclic part of the Galois group, `X -> X^5`.
pub const GALOIS_GENERATOR: u64 = 5;

/// A polynomial as its coefficient function over all integer exponents.
pub type Poly = spec_fn(int) -> int;

/// `X^n = -1`: the coefficient function changes sign under a shift by `n`.
pub open spec fn negacyclic(n: int, f: Poly) -> bool {
    forall|i: int| #[trigger] f(i + n) == -f(i)
}

pub open spec fn odd(p: int) -> bool {
    p % 2 == 1
}

/// A representative of the inverse of the unit `p` modulo `m`.
pub open spec fn unit_inverse(p: int, m: int) -> int {
    pow(p, (m - 1) as nat)
}

/// The image of `f` under `X -> X^p`.
pub open spec fn automorphism(n: int, p: int, f: Poly) -> Poly {
    |i: int| f(i * unit_inverse(p, 2 * n))
}

/// `X^k * f`.
pub open spec fn rotate(k: int, f: Poly) -> Poly {
    |i: int| f(i - k)
}

pub open spec fn poly_add(f: Poly, g: Poly) -> Poly {
    |i: int| f(i) + g(i)
}

pub open spec fn poly_zero() -> Poly {
    |i: int| 0int
}

/// `f(lo) + f(lo + 1) + .. + f(hi - 1)`.
pub open spec fn poly_sum(lo: int, hi: int, f: spec_fn(int) -> Poly) -> Poly
    decreases hi - lo,
{
    if lo >= hi {
        poly_zero()
    } else {
        poly_add(poly_sum(lo, hi - 1, f), f(hi - 1))
    }
}

// ---------------------------------------------------------------------------
// Powers of odd numbers modulo powers of two
// ---------------------------------------------------------------------------

pub proof fn lemma_pow2_double(k: nat)
    ensures
        pow2(k + 1) == 2 * pow2(k),
        pow2(k) > 0,
{
    lemma_pow2_unfold(k + 1);
    lemma_pow2_pos(k);
}

/// Every power of an odd number is odd.
pub proof fn lemma_pow_odd(p: int, e: nat)
    requires
        odd(p),
    ensures
        odd(pow(p, e)),
    decreases e,
{
    reveal(pow);
    if e > 0 {
        lemma_pow_odd(p, (e - 1) as nat);
        lemma_odd_product(p, pow(p, (e - 1) as nat));
    }
}

pub proof fn lemma_odd_product(a: int, b: int)
    requires
        odd(a),
        odd(b),
    ensures
        odd(a * b),
{
    lemma_mul_mod_noop(a, b, 2);
}

/// `p^(2^k) = 1 (mod 2^k)` for odd `p`.
pub proof fn lemma_odd_power_one(p: int, k: nat)
    requires
        odd(p),
        k >= 1,
    ensures
        pow(p, pow2(k)) % (pow2(k) as int) == 1,
    decreases k,
{
    lemma_pow2_double(k);
    if k == 1 {
        lemma_pow2_double(0);
        lemma_pow0(2);
        lemma_pow_odd(p, pow2(1));
    } else {
        let j = (k - 1) as nat;
        lemma_odd_power_one(p, j);
        lemma_pow2_double(j);
        let m = pow2(j) as int;
        let x = pow(p, pow2(j));
        lemma_pow_adds(p, pow2(j), pow2(j));
        assert(pow(p, pow2(k)) == x * x);
        lemma_fundamental_div_mod(x, m);
        let c = x / m;
        assert(x == m * c + 1);
        lemma_pow2_double((j - 1) as nat);
        let h = pow2((j - 1) as nat) as int;
        assert(m == 2 * h);
        assert(x * x == (2 * m) * (c + h * c * c) + 1) by (nonlinear_arith)
            requires
                x == m * c + 1,
                m == 2 * h,
        ;
        assert(m >= 2);
        lemma_quotient(x * x, 2 * m, c + h * c * c, 1);
    }
}

/// `m` a power of two, at least two.
pub open spec fn binary_modulus(m: int) -> bool {
    m >= 2 && is_pow2(m)
}

pub proof fn lemma_binary_modulus(m: int) -> (k: nat)
    requires
        binary_modulus(m),
    ensures
        k >= 1,
        pow2(k) == m,
{
    is_pow2_equiv(m);
    let k = choose|i: nat| pow(2, i) == m;
    lemma_pow2_pos(k);
    if k == 0 {
        lemma_pow0(2);
    }
    k
}

/// `2n` is a usable modulus whenever `n` is a power of two.
pub proof fn lemma_double_binary(n: int)
    requires
        n >= 1,
        is_pow2(n),
    ensures
        binary_modulus(2 * n),
{
    reveal_with_fuel(is_pow2, 2);
    assert((2 * n) / 2 == n);
    assert((2 * n) % 2 == 0);
}

/// A power of two divides every larger one.
pub proof fn lemma_powers_divide(a: int, b: int)
    requires
        1 <= a <= b,
        is_pow2(a),
        is_pow2(b),
    ensures
        b % a == 0,
    decreases a,
{
    reveal_with_fuel(is_pow2, 2);
    if a > 1 {
        lemma_powers_divide(a / 2, b / 2);
        let h = a / 2;
        lemma_fundamental_div_mod(b / 2, h);
        let q = (b / 2) / h;
        assert(b == a * q + 0) by (nonlinear_arith)
            requires
                b == 2 * (b / 2),
                a == 2 * h,
                b / 2 == h * q + 0,
        ;
        lemma_quotient(b, a, q, 0);
    } else {
        lemma_quotient(b, 1, b, 0);
    }
}

/// The chosen representative is an inverse of every odd `p`.
pub proof fn lemma_unit_inverse(p: int, m: int)
    requires
        odd(p),
        binary_modulus(m),
    ensures
        (p * unit_inverse(p, m)) % m == 1,
        odd(unit_inverse(p, m)),
{
    let k = lemma_binary_modulus(m);
    lemma_odd_power_one(p, k);
    lemma_pow_adds(p, 1, (m - 1) as nat);
    lemma_pow1(p);
    lemma_pow_odd(p, (m - 1) as nat);
}

/// Congruent exponents give congruent inverses.
pub proof fn lemma_unit_inverse_congruent(p: int, q: int, m: int)
    requires
        m >= 2,
        p % m == q % m,
    ensures
        unit_inverse(p, m) % m == unit_inverse(q, m) % m,
{
    lemma_pow_mod_noop(p, (m - 1) as nat, m);
    lemma_pow_mod_noop(q, (m - 1) as nat, m);
}

// ---------------------------------------------------------------------------
// Galois elements
// ---------------------------------------------------------------------------

pub open spec fn sign(x: int) -> int {
    if x > 0 { 1 } else if x < 0 { -1 } else { 0 }
}

pub open spec fn abs(x: int) -> int {
    if x < 0 { -x } else { x }
}

/// `sign(generator) * 5^|generator| mod order`, and `1` for the generator `0`.
pub open spec fn spec_galois_element(generator: int, order: int) -> int {
    if generator == 0 {
        1
    } else {
        sign(generator) * (pow(GALOIS_GENERATOR as int, abs(generator) as nat) % order)
    }
}

/// `sign(element) * |element|^(order - 1) mod order`.
pub open spec fn spec_galois_element_inv(element: int, order: int) -> int {
    sign(element) * (pow(abs(element), (order - 1) as nat) % order)
}

/// `x^e mod m` by repeated squaring.
fn pow_mod(x: u64, e: u64, m: u64) -> (r: u64)
    requires
        m >= 1,
    ensures
        r == pow(x as int, e as nat) % (m as int),
{
    let wide: u128 = m as u128;
    let mut acc: u128 = 1 % wide;
    let mut base: u128 = (x as u128) % wide;
    let mut exp: u64 = e;
    proof {
        lemma_pow0(base as int);
        lemma_pow_mod_noop(x as int, e as nat, m as int);
        lemma_small_mod(1, m as nat + 1);
        lemma_mul_mod_noop_left(1, pow(base as int, e as nat), m as int);
        if m == 1 {
            assert(forall|z: int| #[trigger] (z % 1) == 0);
        }
    }
    while exp > 0
        invariant
            m >= 1,
            wide == m,
            acc < m,
            base < m,
            (acc * pow(base as int, exp as nat)) % (m as int) == pow(x as int, e as nat) % (m as int),
        decreases exp,
    {
        let ghost before = (acc as int) * pow(base as int, exp as nat);
        let ghost acc0 = acc as int;
        let ghost base0 = base as int;
        let ghost half = (exp / 2) as nat;
        assert(acc * base <= 0xffff_ffff_ffff_ffff * 0xffff_ffff_ffff_ffff) by (nonlinear_arith)
            requires
                acc < m,
                base < m,
                m <= 0xffff_ffff_ffff_ffff,
        ;
        assert(base * base <= 0xffff_ffff_ffff_ffff * 0xffff_ffff_ffff_ffff) by (nonlinear_arith)
            requires
                base < m,
                m <= 0xffff_ffff_ffff_ffff,
        ;
        proof {
            lemma_pow_square_step(base0, exp as nat);
        }
        let odd_step: bool = exp % 2 == 1;
        if odd_step {
            acc = (acc * base) % wide;
        }
        base = (base * base) % wide;
        exp = exp / 2;
        proof {
            let mm = m as int;
            let sq = base0 * base0;
            let tail = pow(sq, half);
            lemma_pow_mod_noop(sq, half, mm);
            lemma_mul_mod_noop_right(acc as int, pow(base as int, half), mm);
            lemma_mul_mod_noop_right(acc as int, tail, mm);
            if odd_step {
                lemma_mul_mod_noop_left(acc0 * base0, tail, mm);
                lemma_mul_is_associative(acc0, base0, tail);
            }
        }
    }
    proof {
        lemma_pow0(base as int);
        lemma_small_mod(acc as nat, m as nat);
    }
    acc as u64
}

/// `b^e` split into an optional factor `b` and a power of `b^2`.
proof fn lemma_pow_square_step(b: int, e: nat)
    ensures
        e % 2 == 1 ==> pow(b, e) == b * pow(b * b, e / 2),
        e % 2 == 0 ==> pow(b, e) == pow(b * b, e / 2),
{
    lemma_pow_multiplies(b, 2, e / 2);
    reveal_with_fuel(pow, 3);
    assert(pow(b, 2) == b * b);
    assert(2 * (e / 2) == e - e % 2);
    if e % 2 == 1 {
        lemma_pow_adds(b, 1, (e - 1) as nat);
        lemma_pow1(b);
    }
}

/// The Galois element of a signed generator exponent.
pub fn galois_element(generator: i64, cyclotomic_order: i64) -> (r: i64)
    requires
        cyclotomic_order > 0,
        is_pow2(cyclotomic_order as int),
    ensures
        r == spec_galois_element(generator as int, cyclotomic_order as int),
{
    if generator == 0 {
        return 1;
    }
    let order: u64 = cyclotomic_order as u64;
    if generator > 0 {
        pow_mod(GALOIS_GENERATOR, generator as u64, order) as i64
    } else {
        let magnitude: u64 = (-(generator + 1)) as u64 + 1;
        let element: i64 = pow_mod(GALOIS_GENERATOR, magnitude, order) as i64;
        -element
    }
}

/// The inverse of a Galois element.
pub fn galois_element_inv(gal_el: i64, cyclotomic_order: i64) -> (r: i64)
    requires
        gal_el != 0,
        cyclotomic_order > 0,
        is_pow2(cyclotomic_order as int),
    ensures
        r == spec_galois_element_inv(gal_el as int, cyclotomic_order as int),
{
    let order: u64 = cyclotomic_order as u64;
    if gal_el > 0 {
        pow_mod(gal_el as u64, order - 1, order) as i64
    } else {
        let magnitude: u64 = (-(gal_el + 1)) as u64 + 1;
        let element: i64 = pow_mod(magnitude, order - 1, order) as i64;
        -element
    }
}

pub proof fn lemma_congruent(a: int, b: int, m: int)
    requires
        m > 0,
    ensures
        a % m == b % m <==> (a - b) % m == 0,
{
    lemma_mod_equivalence(a, b, m);
}

pub proof fn lemma_negate_congruent(a: int, b: int, m: int)
    requires
        m > 0,
        a % m == b % m,
    ensures
        (-a) % m == (-b) % m,
{
    lemma_congruent(a, b, m);
    lemma_congruent(-a, -b, m);
    let d = a - b;
    lemma_fundamental_div_mod(d, m);
    assert(-d == (-(d / m)) * m) by (nonlinear_arith)
        requires
            d == m * (d / m) + d % m,
            d % m == 0,
    ;
    lemma_mod_multiples_basic(-(d / m), m);
}

/// A remainder modulo an even number keeps the parity.
pub proof fn lemma_mod_keeps_parity(a: int, m: int)
    requires
        m >= 2,
        m % 2 == 0,
    ensures
        (a % m) % 2 == a % 2,
{
    lemma_mod_mod(a, 2, m / 2);
    assert(2 * (m / 2) == m);
}

pub proof fn lemma_binary_even(m: int)
    requires
        binary_modulus(m),
    ensures
        m % 2 == 0,
{
    reveal_with_fuel(is_pow2, 1);
}

/// Galois elements are units.
pub proof fn lemma_galois_odd(generator: int, m: int)
    requires
        binary_modulus(m),
    ensures
        odd(spec_galois_element(generator, m)),
{
    lemma_binary_even(m);
    if generator != 0 {
        let e = pow(5, abs(generator) as nat);
        lemma_pow_odd(5, abs(generator) as nat);
        lemma_mod_keeps_parity(e, m);
        let x = e % m;
        assert(odd(-x) && odd(1 * x) && -1 * x == -x);
    }
}

/// Non-negative generators multiply by adding exponents.
pub proof fn lemma_galois_adds(a: int, b: int, m: int)
    requires
        binary_modulus(m),
        a >= 0,
        b >= 0,
    ensures
        (spec_galois_element(a, m) * spec_galois_element(b, m)) % m == spec_galois_element(a + b, m) % m,
{
    let pa = pow(5, a as nat);
    let pb = pow(5, b as nat);
    lemma_pow_adds(5, a as nat, b as nat);
    lemma_pow0(5);
    lemma_mul_mod_noop(pa, pb, m);
    lemma_mod_twice(pa * pb, m);
    lemma_small_mod(1, m as nat);
}

/// The computed inverse agrees with the unit inverse modulo the order.
pub proof fn lemma_galois_inv_congruent(x: int, m: int)
    requires
        binary_modulus(m),
        x != 0,
    ensures
        spec_galois_element_inv(x, m) % m == unit_inverse(x, m) % m,
        odd(x) ==> odd(spec_galois_element_inv(x, m)),
{
    lemma_binary_even(m);
    let e = (m - 1) as nat;
    let y = pow(abs(x), e);
    let r = y % m;
    lemma_mod_twice(y, m);
    if x > 0 {
        assert(sign(x) * r == r);
    } else {
        assert(sign(x) * r == -r) by (nonlinear_arith)
            requires
                sign(x) == -1,
        ;
        lemma_pow_negated(abs(x), e);
        lemma_congruent(-r, -y, m);
        lemma_fundamental_div_mod(y, m);
        assert(y - r == m * (y / m));
        assert((-r) - (-y) == m * (y / m));
        lemma_mod_multiples_basic(y / m, m);
        assert(m * (y / m) == (y / m) * m) by (nonlinear_arith);
    }
    if odd(x) {
        assert(odd(abs(x)));
        lemma_pow_odd(abs(x), e);
        lemma_mod_keeps_parity(y, m);
        assert(odd(r) && odd(-r));
    }
}

/// An odd power changes sign with its base.
pub proof fn lemma_pow_negated(b: int, e: nat)
    ensures
        e % 2 == 1 ==> pow(-b, e) == -pow(b, e),
        e % 2 == 0 ==> pow(-b, e) == pow(b, e),
    decreases e,
{
    reveal(pow);
    if e > 0 {
        lemma_pow_negated(b, (e - 1) as nat);
        let t = pow(b, (e - 1) as nat);
        assert((-b) * (-t) == b * t) by (nonlinear_arith);
        assert((-b) * t == -(b * t)) by (nonlinear_arith);
    }
}

/// `galois_element_inv` inverts: the product of a unit and its inverse is one
/// modulo the cyclotomic order.
pub proof fn law_galois_inverse(x: int, m: int)
    requires
        binary_modulus(m),
        odd(x),
    ensures
        (x * spec_galois_element_inv(x, m)) % m == 1,
{
    lemma_unit_inverse(x, m);
    lemma_galois_inv_congruent(x, m);
    lemma_mul_mod_noop_right(x, spec_galois_element_inv(x, m), m);
    lemma_mul_mod_noop_right(x, unit_inverse(x, m), m);
}

// ---------------------------------------------------------------------------
// Automorphisms
// ---------------------------------------------------------------------------

/// A negacyclic function is periodic with period `2n`.
pub proof fn lemma_periodic(n: int, f: Poly, i: int, k: int)
    requires
        n >= 1,
        negacyclic(n, f),
    ensures
        f(i + 2 * n * k) == f(i),
    decreases abs(k),
{
    if k > 0 {
        lemma_periodic(n, f, i, k - 1);
        let j = i + 2 * n * (k - 1);
        assert(f(j + n) == -f(j));
        assert(f((j + n) + n) == -f(j + n));
        assert((j + n) + n == i + 2 * n * k) by (nonlinear_arith)
            requires
                j == i + 2 * n * (k - 1),
        ;
    } else if k < 0 {
        lemma_periodic(n, f, i, k + 1);
        let j = i + 2 * n * k;
        assert(f(j + n) == -f(j));
        assert(f((j + n) + n) == -f(j + n));
        assert((j + n) + n == i + 2 * n * (k + 1)) by (nonlinear_arith)
            requires
                j == i + 2 * n * k,
        ;
    } else {
        assert(2 * n * k == 0) by (nonlinear_arith)
            requires
                k == 0,
        ;
    }
}

/// Coefficients at congruent exponents agree.
pub proof fn lemma_congruent_coefficients(n: int, f: Poly, i: int, j: int)
    requires
        n >= 1,
        negacyclic(n, f),
        i % (2 * n) == j % (2 * n),
    ensures
        f(i) == f(j),
{
    let m = 2 * n;
    lemma_fundamental_div_mod(i, m);
    lemma_fundamental_div_mod(j, m);
    let k = i / m - j / m;
    assert(i == j + 2 * n * k) by (nonlinear_arith)
        requires
            i == m * (i / m) + i % m,
            j == m * (j / m) + j % m,
            i % m == j % m,
            m == 2 * n,
            k == i / m - j / m,
    ;
    lemma_periodic(n, f, j, k);
}

/// The image of a polynomial under an automorphism is a polynomial.
pub proof fn lemma_automorphism_negacyclic(n: int, p: int, f: Poly)
    requires
        n >= 1,
        is_pow2(n),
        odd(p),
        negacyclic(n, f),
    ensures
        negacyclic(n, automorphism(n, p, f)),
{
    lemma_double_binary(n);
    lemma_unit_inverse(p, 2 * n);
    let u = unit_inverse(p, 2 * n);
    let h = u / 2;
    assert(u == 2 * h + 1);
    let g = automorphism(n, p, f);
    assert forall|i: int| #[trigger] g(i + n) == -g(i) by {
        assert((i + n) * u == (i * u + n) + 2 * n * h) by (nonlinear_arith)
            requires
                u == 2 * h + 1,
        ;
        lemma_periodic(n, f, i * u + n, h);
        assert(f(i * u + n) == -f(i * u));
    }
}

/// Applying `X -> X^q` and then `X -> X^p` is applying `X -> X^(p q)`.
pub proof fn law_automorphism_composes(n: int, p: int, q: int, f: Poly)
    requires
        n >= 1,
    ensures
        automorphism(n, p, automorphism(n, q, f)) =~= automorphism(n, p * q, f),
{
    let e = (2 * n - 1) as nat;
    lemma_pow_distributes(p, q, e);
    let lhs = automorphism(n, p, automorphism(n, q, f));
    let rhs = automorphism(n, p * q, f);
    assert forall|i: int| #[trigger] lhs(i) == rhs(i) by {
        lemma_mul_is_associative(i, pow(p, e), pow(q, e));
    }
}

/// Congruent exponents give the same automorphism.
pub proof fn law_automorphism_congruent(n: int, p: int, q: int, f: Poly)
    requires
        n >= 1,
        negacyclic(n, f),
        p % (2 * n) == q % (2 * n),
    ensures
        automorphism(n, p, f) =~= automorphism(n, q, f),
{
    let m = 2 * n;
    lemma_unit_inverse_congruent(p, q, m);
    let lhs = automorphism(n, p, f);
    let rhs = automorphism(n, q, f);
    assert forall|i: int| #[trigger] lhs(i) == rhs(i) by {
        let u = unit_inverse(p, m);
        let v = unit_inverse(q, m);
        lemma_mul_mod_noop_right(i, u, m);
        lemma_mul_mod_noop_right(i, v, m);
        lemma_congruent_coefficients(n, f, i * u, i * v);
    }
}

/// The exponent one is the identity.
pub proof fn law_automorphism_identity(n: int, p: int, f: Poly)
    requires
        n >= 1,
        negacyclic(n, f),
        p % (2 * n) == 1,
    ensures
        automorphism(n, p, f) =~= f,
{
    lemma_small_mod(1, (2 * n) as nat);
    law_automorphism_congruent(n, p, 1, f);
    lemma1_pow((2 * n - 1) as nat);
}

/// `X -> X^p` sends the coefficient of `X^i` to `X^(i p)`.
pub proof fn law_automorphism_moves_coefficients(n: int, p: int, f: Poly, i: int)
    requires
        n >= 1,
        is_pow2(n),
        odd(p),
        negacyclic(n, f),
    ensures
        automorphism(n, p, f)(i * p) == f(i),
{
    let m = 2 * n;
    lemma_double_binary(n);
    lemma_unit_inverse(p, m);
    let u = unit_inverse(p, m);
    lemma_mul_is_associative(i, p, u);
    lemma_mul_mod_noop_right(i, p * u, m);
    lemma_congruent_coefficients(n, f, i * p * u, i);
}

/// Automorphisms are additive.
pub proof fn law_automorphism_adds(n: int, p: int, f: Poly, g: Poly)
    ensures
        automorphism(n, p, poly_add(f, g)) =~= poly_add(
            automorphism(n, p, f),
            automorphism(n, p, g),
        ),
{
}

pub proof fn lemma_zero_negacyclic(n: int)
    ensures
        negacyclic(n, poly_zero()),
{
    let z = poly_zero();
    assert forall|i: int| #[trigger] z(i + n) == -z(i) by {}
}

pub proof fn lemma_add_negacyclic(n: int, f: Poly, g: Poly)
    requires
        negacyclic(n, f),
        negacyclic(n, g),
    ensures
        negacyclic(n, poly_add(f, g)),
{
    let r = poly_add(f, g);
    assert forall|i: int| #[trigger] r(i + n) == -r(i) by {
        assert(f(i + n) == -f(i));
        assert(g(i + n) == -g(i));
    }
}

pub proof fn lemma_rotate_negacyclic(n: int, k: int, f: Poly)
    requires
        negacyclic(n, f),
    ensures
        negacyclic(n, rotate(k, f)),
{
    let r = rotate(k, f);
    assert forall|i: int| #[trigger] r(i + n) == -r(i) by {
        assert(f((i - k) + n) == -f(i - k));
        assert(i + n - k == (i - k) + n);
    }
}

pub proof fn lemma_sum_negacyclic(n: int, lo: int, hi: int, f: spec_fn(int) -> Poly)
    requires
        forall|i: int| negacyclic(n, #[trigger] f(i)),
    ensures
        negacyclic(n, poly_sum(lo, hi, f)),
    decreases hi - lo,
{
    if lo < hi {
        lemma_sum_negacyclic(n, lo, hi - 1, f);
        lemma_add_negacyclic(n, poly_sum(lo, hi - 1, f), f(hi - 1));
    } else {
        lemma_zero_negacyclic(n);
    }
}

/// A Galois element is a power of five modulo the order, of the exponent's size and with its
/// sign, and that of zero is one.
pub proof fn law_galois_elements_are_powers_of_five(generator: i64, order: i64, r: i64)
    requires
        order > 0,
        call_ensures(galois_element, (generator, order), r),
    ensures
        generator == 0 ==> r == 1,
        generator > 0 ==> 0 <= r < order && (pow(5, generator as nat) - r) % order as int == 0,
        generator < 0 ==> -order < r <= 0 && (pow(5, (-generator) as nat) + r) % order as int == 0,
{
    let m = order as int;
    let x = pow(5, abs(generator as int) as nat);
    lemma_fundamental_div_mod(x, m);
    lemma_mod_bound(x, m);
    lemma_quotient(x - x % m, m, x / m, 0);
}

} // verus!
