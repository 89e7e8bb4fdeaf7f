//! The Galois trace, and why the aggregated masks decrypt.
//!
//! The automorphisms `X -> X^v`, for `v = 5^j` and `v = -5^j` with `j < n / 2`, are
//! the whole Galois group of `X^n + 1`. Summing the images of a polynomial under
//! all of them leaves `n` times its constant coefficient. Packing reads the inner
//! product of an LWE mask with the secret off as such a constant coefficient.

use vstd::prelude::*;
use vstd::arithmetic::div_mod::*;
use vstd::arithmetic::mul::*;
use vstd::arithmetic::power::*;
use crate::arith::lemma_quotient;
use vstd::arithmetic::power2::*;
use crate::packing::collapse::{equivariant_product, lemma_share_range, ring_degree, share_element};
use crate::ring::{
    automorphism, binary_modulus, law_automorphism_congruent, lemma_automorphism_negacyclic,
    lemma_binary_modulus, lemma_congruent_coefficients, lemma_double_binary, lemma_periodic,
    lemma_pow2_double, lemma_pow_odd, lemma_rotate_negacyclic, lemma_sum_negacyclic,
    lemma_unit_inverse, lemma_zero_negacyclic, negacyclic, odd, poly_add, poly_sum, poly_zero,
    rotate, spec_galois_element, unit_inverse, Poly,
};
use crate::sums::{
    int_sum, lemma_int_sum_add, lemma_int_sum_congruent, lemma_int_sum_constant,
    lemma_int_sum_negate, lemma_int_sum_shift, lemma_int_sum_split, lemma_sum_swap,
};

verus! {

pub open spec fn periodic(m: int, f: spec_fn(int) -> int) -> bool {
    forall|x: int| #[trigger] f(x + m) == f(x)
}

/// A periodic function has the same sum over every period.
pub proof fn lemma_period_sum(m: int, f: spec_fn(int) -> int, by: int)
    requires
        m >= 1,
        by >= 0,
        periodic(m, f),
    ensures
        int_sum(by, m + by, f) == int_sum(0, m, f),
    decreases by,
{
    if by > 0 {
        lemma_period_sum(m, f, by - 1);
        let lo = by - 1;
        lemma_int_sum_split(lo, lo + 1, m + lo, f);
        assert(int_sum(lo, lo + 1, f) == f(lo)) by {
            assert(int_sum(lo, lo, f) == 0);
        }
        assert(f(lo + m) == f(lo));
        assert(int_sum(by, m + by, f) == int_sum(by, m + lo, f) + f(m + lo));
    }
}

/// Sum of `f` over the odd residues modulo `2n`.
pub open spec fn odd_sum(n: int, f: spec_fn(int) -> int) -> int {
    int_sum(0, n, |q: int| f(2 * q + 1))
}

/// Sum of `f` over `5^j` and `-5^j`, for `j < count`.
pub open spec fn generator_sum(count: int, f: spec_fn(int) -> int) -> int {
    int_sum(0, count, |j: int| f(pow(5, j as nat)) + f(-pow(5, j as nat)))
}

/// `5^(2^i) = 1 + 2^(i + 2) (mod 2^(i + 3))`.
proof fn lemma_generator_order(i: nat)
    ensures
        pow(5, pow2(i)) % (pow2(i + 3) as int) == 1 + pow2(i + 2),
    decreases i,
{
    lemma_pow2_double(i);
    lemma_pow2_double(i + 1);
    lemma_pow2_double(i + 2);
    if i == 0 {
        lemma_pow0(2);
        lemma_pow1(5);
        assert(pow2(0) == 1);
        assert(5int % 8 == 5);
    } else {
        let k = (i - 1) as nat;
        lemma_generator_order(k);
        lemma_pow2_double(k);
        lemma_pow2_double(k + 1);
        let x = pow(5, pow2(k));
        let m = pow2(k + 3) as int;
        let h = pow2(k + 2) as int;
        lemma_pow_adds(5, pow2(k), pow2(k));
        lemma_fundamental_div_mod(x, m);
        let c = x / m;
        let a = pow2(k) as int;
        assert(x == 1 + h + m * c && h == 4 * a && m == 8 * a);
        let z = a + c * (1 + h) + h * c * c;
        assert(x * x == z * (2 * m) + (1 + m)) by (nonlinear_arith)
            requires
                x == 1 + h + m * c,
                h == 4 * a,
                m == 8 * a,
                z == a + c * (1 + h) + h * c * c,
        ;
        lemma_quotient(x * x, 2 * m, z, 1 + m);
    }
}

/// The powers of five and their negatives run once through the odd residues.
proof fn lemma_generators_cover(k: nat, f: spec_fn(int) -> int)
    requires
        k >= 1,
        periodic(2 * pow2(k) as int, f),
    ensures
        generator_sum(pow2((k - 1) as nat) as int, f) == odd_sum(pow2(k) as int, f),
    decreases k,
{
    lemma_pow2_double((k - 1) as nat);
    let n = pow2(k) as int;
    let half = pow2((k - 1) as nat) as int;
    let gen = |j: int| f(pow(5, j as nat)) + f(-pow(5, j as nat));
    let odds = |q: int| f(2 * q + 1);
    if k == 1 {
        lemma_pow0(2);
        lemma_pow0(5);
        assert(n == 2 && half == 1);
        assert(int_sum(0, 0, gen) == 0);
        assert(int_sum(0, 1, gen) == gen(0));
        assert(gen(0) == f(1) + f(-1));
        assert(f(-1 + 4) == f(-1));
        assert(int_sum(0, 0, odds) == 0);
        assert(int_sum(0, 1, odds) == odds(0));
        assert(int_sum(0, 2, odds) == odds(0) + odds(1));
    } else {
        // fold the period in half
        let g = |x: int| f(x) + f(x + n);
        assert forall|x: int| #[trigger] g(x + n) == g(x) by {
            assert(f(x + 2 * n) == f(x));
            assert(x + n + n == x + 2 * n);
        }
        let kk = (k - 1) as nat;
        assert(periodic(2 * pow2(kk) as int, g));
        lemma_generators_cover(kk, g);
        lemma_pow2_double((kk - 1) as nat);
        let quarter = pow2((kk - 1) as nat) as int;
        // odd residues
        lemma_int_sum_split(0, half, n, odds);
        let upper = |q: int| odds(q + half);
        lemma_int_sum_shift(0, half, half, odds);
        lemma_int_sum_add(0, half, odds, upper);
        let g_odds = |q: int| g(2 * q + 1);
        let both = |i: int| odds(i) + upper(i);
        assert forall|q: int| 0 <= q < half implies #[trigger] both(q) == g_odds(q) by {
            assert(2 * (q + half) + 1 == (2 * q + 1) + n);
        }
        lemma_int_sum_congruent(0, half, both, g_odds);
        assert(half + half == n);
        assert(odd_sum(n, f) == odd_sum(half, g));
        // generators
        lemma_int_sum_split(0, quarter, half, gen);
        let later = |j: int| gen(j + quarter);
        lemma_int_sum_shift(0, quarter, quarter, gen);
        lemma_int_sum_add(0, quarter, gen, later);
        let g_gen = |j: int| g(pow(5, j as nat)) + g(-pow(5, j as nat));
        let both_gen = |i: int| gen(i) + later(i);
        assert forall|j: int| 0 <= j < quarter implies #[trigger] both_gen(j) == g_gen(j) by {
            lemma_generator_half_turn(k, j, f);
        }
        lemma_int_sum_congruent(0, quarter, both_gen, g_gen);
        assert(quarter + quarter == half);
    }
}

/// `f(x)` depends on `x` modulo the period only.
pub proof fn lemma_periodic_congruent(m: int, f: spec_fn(int) -> int, x: int, y: int)
    requires
        m >= 1,
        periodic(m, f),
        x % m == y % m,
    ensures
        f(x) == f(y),
{
    lemma_fundamental_div_mod(x, m);
    lemma_fundamental_div_mod(y, m);
    let c = x / m - y / m;
    assert(x == y + m * c) by (nonlinear_arith)
        requires
            x == m * (x / m) + x % m,
            y == m * (y / m) + y % m,
            x % m == y % m,
            c == x / m - y / m,
    ;
    lemma_periodic_multiple(m, f, y, c);
}

pub proof fn lemma_periodic_multiple(m: int, f: spec_fn(int) -> int, x: int, c: int)
    requires
        periodic(m, f),
    ensures
        f(x + m * c) == f(x),
    decreases crate::ring::abs(c),
{
    if c > 0 {
        lemma_periodic_multiple(m, f, x, c - 1);
        assert(f((x + m * (c - 1)) + m) == f(x + m * (c - 1)));
        assert((x + m * (c - 1)) + m == x + m * c) by (nonlinear_arith);
    } else if c < 0 {
        lemma_periodic_multiple(m, f, x, c + 1);
        assert(f((x + m * c) + m) == f(x + m * c));
        assert((x + m * c) + m == x + m * (c + 1)) by (nonlinear_arith);
    } else {
        assert(m * c == 0) by (nonlinear_arith)
            requires
                c == 0,
        ;
    }
}

/// Half of the generator's order later, the power has moved by `n` modulo `2n`.
pub proof fn lemma_generator_half_turn(k: nat, j: int, f: spec_fn(int) -> int)
    requires
        k >= 2,
        j >= 0,
        periodic(2 * pow2(k) as int, f),
    ensures
        f(pow(5, (j + pow2((k - 2) as nat)) as nat)) == f(pow(5, j as nat) + pow2(k)),
        f(-pow(5, (j + pow2((k - 2) as nat)) as nat)) == f(-pow(5, j as nat) + pow2(k)),
{
    let n = pow2(k) as int;
    let m = 2 * n;
    let quarter = pow2((k - 2) as nat);
    lemma_pow2_pos((k - 2) as nat);
    lemma_pow2_double((k - 2) as nat);
    lemma_pow2_double((k - 1) as nat);
    lemma_pow2_double(k);
    lemma_generator_order((k - 2) as nat);
    let x = pow(5, j as nat);
    let y = pow(5, quarter);
    lemma_pow_adds(5, j as nat, quarter);
    lemma_pow_odd(5, j as nat);
    let z = x * y;
    // z = x (1 + n) = x + n (mod 2n), as x is odd
    assert(y % m == 1 + n);
    lemma_fundamental_div_mod(y, m);
    let c = y / m;
    let h = x / 2;
    assert(x == 2 * h + 1);
    assert(z == (x + n) + m * (x * c + h)) by (nonlinear_arith)
        requires
            z == x * y,
            y == m * c + 1 + n,
            x == 2 * h + 1,
            m == 2 * n,
    ;
    lemma_periodic_multiple(m, f, x + n, x * c + h);
    assert(-z == (-x + n) + m * (-(x * c + h) - 1)) by (nonlinear_arith)
        requires
            z == (x + n) + m * (x * c + h),
            m == 2 * n,
    ;
    lemma_periodic_multiple(m, f, -x + n, -(x * c + h) - 1);
}

/// The coefficient of `X^i` in the constant polynomial `1`, negacyclically extended.
pub open spec fn unit_coefficient(n: int, i: int) -> int {
    if i % (2 * n) == 0 {
        1
    } else if i % (2 * n) == n {
        -1
    } else {
        0
    }
}

/// Over the odd `p`, the coefficients `f(i p)` cancel unless `i` is a multiple of `n`.
proof fn lemma_odd_sum_extracts(n: int, f: Poly, i: int)
    requires
        n >= 1,
        is_pow2(n),
        negacyclic(n, f),
    ensures
        odd_sum(n, |p: int| f(i * p)) == n * f(0) * unit_coefficient(n, i),
{
    let m = 2 * n;
    let g = |p: int| f(i * p);
    let odds = |q: int| g(2 * q + 1);
    let r = i % m;
    lemma_mod_bound(i, m);
    lemma_fundamental_div_mod(i, m);
    if r == 0 || r == n {
        let c = if r == 0 { f(0) } else { -f(0) };
        assert forall|q: int| 0 <= q < n implies #[trigger] odds(q) == (|x: int| c)(q) by {
            let t = i / m;
            let p = 2 * q + 1;
            if r == 0 {
                assert(i * p == 0 + 2 * n * (t * p)) by (nonlinear_arith)
                    requires
                        i == m * t,
                        m == 2 * n,
                ;
                lemma_periodic(n, f, 0, t * p);
            } else {
                assert(i * p == n + 2 * n * (t * p + q)) by (nonlinear_arith)
                    requires
                        i == m * t + n,
                        m == 2 * n,
                        p == 2 * q + 1,
                ;
                lemma_periodic(n, f, n, t * p + q);
                assert(f(0 + n) == -f(0));
            }
        }
        lemma_int_sum_congruent(0, n, odds, |x: int| c);
        lemma_int_sum_constant(0, n, c);
        assert(n * f(0) * unit_coefficient(n, i) == n * c) by (nonlinear_arith)
            requires
                unit_coefficient(n, i) == 1 && c == f(0) || unit_coefficient(n, i) == -1 && c == -f(0),
        ;
    } else {
        // i = w b with b odd and w a proper power-of-two divisor of n
        let (w, b) = lemma_odd_part(n, i);
        let e = n / w / 2;
        // shifting p by 2 e = n / w flips the sign
        let shifted = |q: int| odds(q + e);
        assert forall|q: int| 0 <= q < n implies #[trigger] shifted(q) == (|x: int| -odds(x))(q) by {
            let p = 2 * q + 1;
            let t = b / 2;
            assert(i * (2 * (q + e) + 1) == (i * p + n) + 2 * n * t) by (nonlinear_arith)
                requires
                    i == w * b,
                    b == 2 * t + 1,
                    w * (2 * e) == n,
                    p == 2 * q + 1,
            ;
            lemma_periodic(n, f, i * p + n, t);
            assert(f(i * p + n) == -f(i * p));
        }
        lemma_int_sum_congruent(0, n, shifted, |x: int| -odds(x));
        lemma_int_sum_negate(0, n, odds);
        lemma_int_sum_shift(0, n, e, odds);
        assert forall|q: int| #[trigger] odds(q + n) == odds(q) by {
            assert(i * (2 * (q + n) + 1) == i * (2 * q + 1) + 2 * n * i) by (nonlinear_arith);
            lemma_periodic(n, f, i * (2 * q + 1), i);
        }
        lemma_period_sum(n, odds, e);
        assert(int_sum(0, n, odds) == 0);
        assert(n * f(0) * 0 == 0) by (nonlinear_arith);
    }
}

/// Splits `i`, not a multiple of `n`, into a power of two that properly divides `n`
/// and an odd factor.
proof fn lemma_odd_part(n: int, i: int) -> (r: (int, int))
    requires
        n >= 1,
        is_pow2(n),
        i % (2 * n) != 0,
        i % (2 * n) != n,
    ensures
        i == r.0 * r.1,
        odd(r.1),
        r.0 >= 1,
        r.0 * (2 * (n / r.0 / 2)) == n,
        n / r.0 / 2 >= 1,
    decreases n,
{
    reveal_with_fuel(is_pow2, 1);
    let m = 2 * n;
    lemma_fundamental_div_mod(i, m);
    lemma_mod_bound(i, m);
    if n == 1 {
        assert(i % 2 == 0 || i % 2 == 1);
        assert(false);
        (1, 1)
    } else if i % 2 == 1 {
        lemma_div_by_self(1);
        assert(n / 1 == n);
        assert(1 * i == i);
        (1, i)
    } else {
        let hn = n / 2;
        let hi = i / 2;
        assert(hi % (2 * hn) != 0 && hi % (2 * hn) != hn) by {
            let t = hi / n;
            lemma_fundamental_div_mod(hi, n);
            lemma_mod_bound(hi, n);
            let s = hi % n;
            if s == 0 || s == hn {
                assert(i == (2 * n) * t + 2 * s) by (nonlinear_arith)
                    requires
                        i == 2 * hi,
                        hi == n * t + s,
                ;
                assert((2 * n) * t == t * (2 * n)) by (nonlinear_arith);
                lemma_quotient(i, 2 * n, t, 2 * s);
                assert(false);
            }
        }
        let (w, b) = lemma_odd_part(hn, hi);
        assert(i == (2 * w) * b) by (nonlinear_arith)
            requires
                i == 2 * hi,
                hi == w * b,
        ;
        let e = hn / w / 2;
        assert(n == (2 * e) * (2 * w)) by (nonlinear_arith)
            requires
                n == 2 * hn,
                w * (2 * e) == hn,
        ;
        lemma_quotient(n, 2 * w, 2 * e, 0);
        assert(n / (2 * w) == 2 * e);
        assert((2 * w) * (2 * e) == n) by (nonlinear_arith)
            requires
                n == (2 * e) * (2 * w),
        ;
        (2 * w, b)
    }
}

/// Summing a polynomial over its images under the whole Galois group leaves `n`
/// times its constant coefficient.
pub proof fn law_trace_extracts_constant(n: int, f: Poly, i: int)
    requires
        ring_degree(n),
        negacyclic(n, f),
    ensures
        int_sum(
            0,
            n / 2,
            |j: int|
                automorphism(n, share_element(n, 1, false, j), f)(i) + automorphism(
                    n,
                    share_element(n, 1, true, j),
                    f,
                )(i),
        ) == n * f(0) * unit_coefficient(n, i),
{
    let m = 2 * n;
    lemma_double_binary(n);
    assert(binary_modulus(n));
    let k = lemma_binary_modulus(n);
    lemma_pow2_double((k - 1) as nat);
    // the coefficient function of p, through the inverse of p
    let g = |p: int| f(i * unit_inverse(p, m));
    let images = |j: int|
        automorphism(n, share_element(n, 1, false, j), f)(i) + automorphism(
            n,
            share_element(n, 1, true, j),
            f,
        )(i);
    let gen = |j: int| g(pow(5, j as nat)) + g(-pow(5, j as nat));
    assert forall|j: int| 0 <= j < n / 2 implies #[trigger] images(j) == gen(j) by {
        lemma_share_congruent(n, j);
        law_automorphism_congruent(n, share_element(n, 1, false, j), pow(5, j as nat), f);
        law_automorphism_congruent(n, share_element(n, 1, true, j), -pow(5, j as nat), f);
    }
    lemma_int_sum_congruent(0, n / 2, images, gen);
    assert forall|p: int| #[trigger] g(p + m) == g(p) by {
        lemma_mod_add_multiples_vanish(p, m);
        assert((p + m) % m == p % m) by {
            lemma_mod_multiples_vanish(1, p, m);
        }
        crate::ring::lemma_unit_inverse_congruent(p + m, p, m);
        let u = unit_inverse(p + m, m);
        let v = unit_inverse(p, m);
        lemma_mul_mod_noop_right(i, u, m);
        lemma_mul_mod_noop_right(i, v, m);
        lemma_congruent_coefficients(n, f, i * u, i * v);
    }
    lemma_generators_cover(k, g);
    // inversion permutes the odd residues
    lemma_inverse_reindexes(n, f, i, k);
    lemma_odd_sum_extracts(n, f, i);
}

pub proof fn lemma_share_congruent(n: int, j: int)
    requires
        ring_degree(n),
        j >= 0,
    ensures
        share_element(n, 1, false, j) % (2 * n) == pow(5, j as nat) % (2 * n),
        share_element(n, 1, true, j) % (2 * n) == (-pow(5, j as nat)) % (2 * n),
{
    let m = 2 * n;
    let x = pow(5, j as nat);
    assert(1 * j == j);
    if j == 0 {
        lemma_pow0(5);
    } else {
        lemma_mod_twice(x, m);
        assert(1 * (x % m) == x % m);
    }
    crate::ring::lemma_negate_congruent(spec_galois_element(j, m), x, m);
}

/// Summing over the inverses of the generators is summing over the odd residues.
proof fn lemma_inverse_reindexes(n: int, f: Poly, i: int, k: nat)
    requires
        ring_degree(n),
        n == pow2(k),
        k >= 1,
        negacyclic(n, f),
    ensures
        generator_sum(n / 2, |p: int| f(i * unit_inverse(p, 2 * n))) == odd_sum(
            n,
            |p: int| f(i * p),
        ),
{
    let m = 2 * n;
    lemma_double_binary(n);
    let half = n / 2;
    lemma_pow2_double((k - 1) as nat);
    let g = |p: int| f(i * unit_inverse(p, m));
    let d = |p: int| f(i * p);
    assert forall|p: int| #[trigger] d(p + m) == d(p) by {
        assert(i * (p + m) == i * p + 2 * n * i) by (nonlinear_arith)
            requires
                m == 2 * n,
        ;
        lemma_periodic(n, f, i * p, i);
    }
    lemma_generators_cover(k, d);
    // sum_j g(+-5^j) = sum_j d(+-5^-j) = sum_j d(+-5^(order - j)) = sum_j d(+-5^j)
    let gen_g = |j: int| g(pow(5, j as nat)) + g(-pow(5, j as nat));
    let gen_d = |j: int| d(pow(5, j as nat)) + d(-pow(5, j as nat));
    lemma_five_to_the_half(n, k);
    assert forall|j: int| 0 <= j <= half implies #[trigger] gen_g(j) == gen_d(half - j) by {
        lemma_generator_inverse(n, k, j);
        let x = pow(5, j as nat);
        let y = pow(5, (half - j) as nat);
        let u = unit_inverse(x, m);
        let v = unit_inverse(-x, m);
        lemma_mul_mod_noop_right(i, u, m);
        lemma_mul_mod_noop_right(i, y, m);
        lemma_congruent_coefficients(n, f, i * u, i * y);
        lemma_mul_mod_noop_right(i, v, m);
        lemma_mul_mod_noop_right(i, -y, m);
        lemma_congruent_coefficients(n, f, i * v, i * (-y));
    }
    assert(gen_d(half) == gen_d(0)) by {
        lemma_pow0(5);
        lemma_small_mod(1, m as nat);
        let z = pow(5, half as nat);
        lemma_periodic_congruent(m, d, z, 1);
        crate::ring::lemma_negate_congruent(z, 1, m);
        lemma_periodic_congruent(m, d, -z, -1);
    }
    lemma_reverse_sum(half, gen_g, gen_d);
}

/// `sum_j a(j) = sum_j b(j)` over `0 .. h` when `a(j) = b(h - j)` and `b(h) = b(0)`.
pub proof fn lemma_reverse_sum(h: int, a: spec_fn(int) -> int, b: spec_fn(int) -> int)
    requires
        h >= 1,
        forall|j: int| 0 <= j <= h ==> #[trigger] a(j) == b(h - j),
        b(h) == b(0),
    ensures
        int_sum(0, h, a) == int_sum(0, h, b),
{
    lemma_reverse_prefix(h, h, a, b);
    lemma_int_sum_split(0, 1, h, b);
    assert(int_sum(0, 1, b) == b(0)) by {
        assert(int_sum(0, 0, b) == 0);
    }
    assert(int_sum(1, h + 1, b) == int_sum(1, h, b) + b(h));
}

proof fn lemma_reverse_prefix(h: int, count: int, a: spec_fn(int) -> int, b: spec_fn(int) -> int)
    requires
        0 <= count <= h,
        forall|j: int| 0 <= j <= h ==> #[trigger] a(j) == b(h - j),
    ensures
        int_sum(0, count, a) == int_sum(h + 1 - count, h + 1, b),
    decreases count,
{
    if count > 0 {
        lemma_reverse_prefix(h, count - 1, a, b);
        assert(a(count - 1) == b(h - (count - 1)));
        let lo = h + 1 - count;
        lemma_int_sum_split(lo, lo + 1, h + 1, b);
        assert(int_sum(lo, lo + 1, b) == b(lo)) by {
            assert(int_sum(lo, lo, b) == 0);
        }
    }
}

/// `5^(n / 2) = 1 (mod 2n)`.
pub proof fn lemma_five_to_the_half(n: int, k: nat)
    requires
        k >= 1,
        n == pow2(k),
    ensures
        pow(5, (n / 2) as nat) % (2 * n) == 1,
{
    let m = 2 * n;
    lemma_pow2_double((k - 1) as nat);
    if k == 1 {
        lemma_pow0(2);
        lemma_pow1(5);
        assert(n == 2);
        assert(5int % 4 == 1);
    } else {
        lemma_generator_order((k - 2) as nat);
        lemma_pow2_double((k - 2) as nat);
        let q = pow2((k - 2) as nat);
        let x = pow(5, q);
        lemma_pow_adds(5, q, q);
        lemma_pow2_double(k);
        lemma_fundamental_div_mod(x, m);
        let c = x / m;
        let a = q as int;
        // x = m c + 1 + n with n = 4 a, m = 8 a
        let z = m * c * c + 2 * c * (1 + n) + 1 + 2 * a;
        assert(x * x == z * m + 1) by (nonlinear_arith)
            requires
                x == m * c + 1 + n,
                n == 4 * a,
                m == 8 * a,
                z == m * c * c + 2 * c * (1 + n) + 1 + 2 * a,
        ;
        lemma_pow2_pos(k);
        lemma_quotient(x * x, m, z, 1);
    }
}

/// The inverse of `5^j` is `5^(n / 2 - j)`, and likewise for the negatives.
pub proof fn lemma_generator_inverse(n: int, k: nat, j: int)
    requires
        ring_degree(n),
        k >= 1,
        n == pow2(k),
        0 <= j <= n / 2,
    ensures
        unit_inverse(pow(5, j as nat), 2 * n) % (2 * n) == pow(5, (n / 2 - j) as nat) % (2 * n),
        unit_inverse(-pow(5, j as nat), 2 * n) % (2 * n) == (-pow(5, (n / 2 - j) as nat)) % (2 * n),
{
    let m = 2 * n;
    let x = pow(5, j as nat);
    let y = pow(5, (n / 2 - j) as nat);
    lemma_double_binary(n);
    lemma_five_to_the_half(n, k);
    lemma_pow_adds(5, j as nat, (n / 2 - j) as nat);
    lemma_pow_odd(5, j as nat);
    assert((x * y) % m == 1);
    lemma_inverse_unique(x, y, m);
    assert((-x) * (-y) == x * y) by (nonlinear_arith);
    assert(odd(-x));
    lemma_inverse_unique(-x, -y, m);
}

/// Inverses are unique modulo `m`.
proof fn lemma_inverse_unique(x: int, y: int, m: int)
    requires
        binary_modulus(m),
        odd(x),
        (x * y) % m == 1,
    ensures
        unit_inverse(x, m) % m == y % m,
{
    let u = unit_inverse(x, m);
    lemma_unit_inverse(x, m);
    // u = u (x y) = (u x) y = y
    lemma_mul_mod_noop_right(u, x * y, m);
    lemma_mul_mod_noop_left(x * u, y, m);
    assert(u * (x * y) == (x * u) * y) by (nonlinear_arith);
    assert(u * 1 == u && 1 * y == y);
}

// ---------------------------------------------------------------------------
// Aggregated masks
// ---------------------------------------------------------------------------

/// Row `k` of the masks read backwards: the coefficient of `X^-i` is the `i`-th entry.
pub open spec fn reversed(n: int, row: Poly) -> Poly {
    automorphism(n, -1, row)
}

/// The first `count` rows read backwards, viewed through `v`, and summed, row `k` at `X^k`.
pub open spec fn viewed_rows(n: int, v: int, count: int, rows: spec_fn(int) -> Poly) -> Poly {
    poly_sum(0, count, |k: int| rotate(k, automorphism(n, v, reversed(n, rows(k)))))
}

/// The component of the aggregate that the share of column `j` of a half masks.
pub open spec fn aggregate_component(
    n: int,
    use_tau_h: bool,
    j: int,
    rows: spec_fn(int) -> Poly,
) -> Poly {
    viewed_rows(n, share_element(n, 1, use_tau_h, j), n, rows)
}

/// A product of polynomials that commutes with rotations, too.
pub open spec fn ring_product(n: int, times: spec_fn(Poly, Poly) -> Poly) -> bool {
    &&& equivariant_product(n, times)
    &&& forall|k: int, a: Poly, b: Poly|
        negacyclic(n, a) && negacyclic(n, b) ==> #[trigger] times(rotate(k, a), b) == rotate(
            k,
            times(a, b),
        )
}

pub proof fn lemma_poly_sum_at(lo: int, hi: int, f: spec_fn(int) -> Poly, i: int)
    ensures
        poly_sum(lo, hi, f)(i) == int_sum(lo, hi, |k: int| f(k)(i)),
    decreases hi - lo,
{
    let g = |k: int| f(k)(i);
    if lo < hi {
        lemma_poly_sum_at(lo, hi - 1, f, i);
        assert(g(hi - 1) == f(hi - 1)(i));
    }
}

proof fn lemma_times_zero(n: int, times: spec_fn(Poly, Poly) -> Poly, b: Poly)
    requires
        equivariant_product(n, times),
        negacyclic(n, b),
    ensures
        times(poly_zero(), b) == poly_zero(),
{
    let z = poly_zero();
    lemma_zero_negacyclic(n);
    assert(poly_add(z, z) =~= z);
    let t = times(z, b);
    assert(times(poly_add(z, z), b) == poly_add(t, t));
    assert forall|i: int| #[trigger] t(i) == z(i) by {
        assert(poly_add(t, t)(i) == t(i));
    }
    assert(t =~= z);
}

proof fn lemma_times_sum(
    n: int,
    times: spec_fn(Poly, Poly) -> Poly,
    lo: int,
    hi: int,
    f: spec_fn(int) -> Poly,
    b: Poly,
)
    requires
        equivariant_product(n, times),
        negacyclic(n, b),
        forall|k: int| negacyclic(n, #[trigger] f(k)),
    ensures
        times(poly_sum(lo, hi, f), b) == poly_sum(lo, hi, |k: int| times(f(k), b)),
    decreases hi - lo,
{
    lemma_sum_negacyclic(n, lo, hi - 1, f);
    let g = |k: int| times(f(k), b);
    if lo < hi {
        lemma_times_sum(n, times, lo, hi - 1, f, b);
        assert(g(hi - 1) == times(f(hi - 1), b));
        assert(times(poly_add(poly_sum(lo, hi - 1, f), f(hi - 1)), b) == poly_add(
            times(poly_sum(lo, hi - 1, f), b),
            times(f(hi - 1), b),
        ));
    } else {
        lemma_times_zero(n, times, b);
    }
}

pub proof fn lemma_viewed_rows_negacyclic(
    n: int,
    v: int,
    count: int,
    rows: spec_fn(int) -> Poly,
)
    requires
        ring_degree(n),
        odd(v),
        forall|k: int| negacyclic(n, #[trigger] rows(k)),
    ensures
        negacyclic(n, viewed_rows(n, v, count, rows)),
{
    let parts = |k: int| rotate(k, automorphism(n, v, reversed(n, rows(k))));
    assert forall|k: int| negacyclic(n, #[trigger] parts(k)) by {
        lemma_row_negacyclic(n, v, rows(k), k);
    }
    lemma_sum_negacyclic(n, 0, count, parts);
}

proof fn lemma_row_negacyclic(n: int, v: int, row: Poly, k: int)
    requires
        ring_degree(n),
        odd(v),
        negacyclic(n, row),
    ensures
        negacyclic(n, reversed(n, row)),
        negacyclic(n, automorphism(n, v, reversed(n, row))),
        negacyclic(n, rotate(k, automorphism(n, v, reversed(n, row)))),
{
    lemma_automorphism_negacyclic(n, -1, row);
    lemma_automorphism_negacyclic(n, v, reversed(n, row));
    lemma_rotate_negacyclic(n, k, automorphism(n, v, reversed(n, row)));
}

/// Viewed rows times the viewed secret, at coefficient `i`.
pub proof fn lemma_component_at(
    n: int,
    v: int,
    count: int,
    rows: spec_fn(int) -> Poly,
    times: spec_fn(Poly, Poly) -> Poly,
    s: Poly,
    i: int,
)
    requires
        ring_degree(n),
        odd(v),
        ring_product(n, times),
        negacyclic(n, s),
        forall|k: int| negacyclic(n, #[trigger] rows(k)),
    ensures
        times(viewed_rows(n, v, count, rows), automorphism(n, v, s))(i) == int_sum(
            0,
            count,
            |k: int| automorphism(n, v, times(reversed(n, rows(k)), s))(i - k),
        ),
{
    let share = automorphism(n, v, s);
    let parts = |k: int| rotate(k, automorphism(n, v, reversed(n, rows(k))));
    lemma_automorphism_negacyclic(n, v, s);
    assert forall|k: int| negacyclic(n, #[trigger] parts(k)) by {
        lemma_row_negacyclic(n, v, rows(k), k);
    }
    lemma_times_sum(n, times, 0, count, parts, share);
    let products = |k: int| times(parts(k), share);
    lemma_poly_sum_at(0, count, products, i);
    let at_i = |k: int| products(k)(i);
    let target = |k: int| automorphism(n, v, times(reversed(n, rows(k)), s))(i - k);
    assert forall|k: int| 0 <= k < count implies #[trigger] at_i(k) == target(k) by {
        let a = reversed(n, rows(k));
        lemma_row_negacyclic(n, v, rows(k), k);
        assert(automorphism(n, v, times(a, s)) == times(automorphism(n, v, a), share));
        assert(times(rotate(k, automorphism(n, v, a)), share) == rotate(
            k,
            times(automorphism(n, v, a), share),
        ));
    }
    lemma_int_sum_congruent(0, count, at_i, target);
}

/// The aggregate decrypts: every component times its share, summed, is `n` times
/// the polynomial whose coefficient of `X^k` is the constant coefficient of
/// `reversed(row k) * s` - the inner product of row `k` with the secret.
pub proof fn law_aggregate_decrypts(
    n: int,
    rows: spec_fn(int) -> Poly,
    times: spec_fn(Poly, Poly) -> Poly,
    s: Poly,
    i: int,
)
    requires
        ring_degree(n),
        ring_product(n, times),
        negacyclic(n, s),
        forall|k: int| negacyclic(n, #[trigger] rows(k)),
    ensures
        int_sum(
            0,
            n / 2,
            |j: int|
                times(
                    aggregate_component(n, false, j, rows),
                    automorphism(n, share_element(n, 1, false, j), s),
                )(i) + times(
                    aggregate_component(n, true, j, rows),
                    automorphism(n, share_element(n, 1, true, j), s),
                )(i),
        ) == int_sum(
            0,
            n,
            |k: int| n * times(reversed(n, rows(k)), s)(0) * unit_coefficient(n, i - k),
        ),
{
    let h = n / 2;
    let decrypted = |j: int|
        times(
            aggregate_component(n, false, j, rows),
            automorphism(n, share_element(n, 1, false, j), s),
        )(i) + times(
            aggregate_component(n, true, j, rows),
            automorphism(n, share_element(n, 1, true, j), s),
        )(i);
    let cell = |j: int, k: int|
        automorphism(n, share_element(n, 1, false, j), times(reversed(n, rows(k)), s))(i - k)
            + automorphism(n, share_element(n, 1, true, j), times(reversed(n, rows(k)), s))(i - k);
    let by_rows = |j: int| int_sum(0, n, |k: int| cell(j, k));
    assert forall|j: int| 0 <= j < h implies #[trigger] decrypted(j) == by_rows(j) by {
        lemma_share_range(n, 1, false, j);
        lemma_share_range(n, 1, true, j);
        lemma_component_at(n, share_element(n, 1, false, j), n, rows, times, s, i);
        lemma_component_at(n, share_element(n, 1, true, j), n, rows, times, s, i);
        let a = |k: int|
            automorphism(n, share_element(n, 1, false, j), times(reversed(n, rows(k)), s))(i - k);
        let b = |k: int|
            automorphism(n, share_element(n, 1, true, j), times(reversed(n, rows(k)), s))(i - k);
        lemma_int_sum_add(0, n, a, b);
        let both = |k: int| a(k) + b(k);
        let row = |k: int| cell(j, k);
        assert forall|k: int| 0 <= k < n implies #[trigger] both(k) == row(k) by {}
        lemma_int_sum_congruent(0, n, both, row);
    }
    lemma_int_sum_congruent(0, h, decrypted, by_rows);
    lemma_sum_swap(h, n, cell);
    let by_cols = |k: int| int_sum(0, h, |j: int| cell(j, k));
    let target = |k: int| n * times(reversed(n, rows(k)), s)(0) * unit_coefficient(n, i - k);
    assert forall|k: int| 0 <= k < n implies #[trigger] by_cols(k) == target(k) by {
        let f = times(reversed(n, rows(k)), s);
        assert(negacyclic(n, rows(k)));
        lemma_automorphism_negacyclic(n, -1, rows(k));
        assert(negacyclic(n, f));
        law_trace_extracts_constant(n, f, i - k);
        let col = |j: int| cell(j, k);
        let images = |j: int|
            automorphism(n, share_element(n, 1, false, j), f)(i - k) + automorphism(
                n,
                share_element(n, 1, true, j),
                f,
            )(i - k);
        assert forall|j: int| 0 <= j < h implies #[trigger] col(j) == images(j) by {}
        lemma_int_sum_congruent(0, h, col, images);
    }
    lemma_int_sum_congruent(0, n, by_cols, target);
}

} // verus!
