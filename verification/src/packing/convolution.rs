//! The product of the ring.

use vstd::prelude::*;
use vstd::arithmetic::div_mod::*;
use vstd::arithmetic::power2::*;
use crate::packing::collapse::ring_degree;
use crate::packing::trace::{
    lemma_period_sum, lemma_periodic_congruent, periodic, reversed, ring_product,
};
use crate::ring::{
    automorphism, lemma_binary_modulus, lemma_pow_negated, lemma_pow_odd, negacyclic, odd,
    poly_add, rotate, unit_inverse, Poly,
};
use crate::sums::{
    int_sum, lemma_int_sum_add, lemma_int_sum_congruent, lemma_int_sum_negate,
    lemma_int_sum_shift,
};

verus! {

/// The product in `Z[X]/(X^n + 1)`.
pub open spec fn convolution(n: int) -> spec_fn(Poly, Poly) -> Poly {
    |a: Poly, b: Poly| |i: int| int_sum(0, n, term_at(a, b, i))
}

/// The products of coefficients that meet at `X^i`.
pub open spec fn term_at(a: Poly, b: Poly, i: int) -> spec_fn(int) -> int {
    |j: int| a(j) * b(i - j)
}

proof fn lemma_term_periodic(n: int, a: Poly, b: Poly, i: int)
    requires
        negacyclic(n, a),
        negacyclic(n, b),
    ensures
        periodic(n, term_at(a, b, i)),
{
    let f = term_at(a, b, i);
    assert forall|j: int| #[trigger] f(j + n) == f(j) by {
        assert(a(j + n) == -a(j));
        assert(b((i - (j + n)) + n) == -b(i - (j + n)));
        assert((i - (j + n)) + n == i - j);
        let x = a(j);
        let y = b(i - (j + n));
        assert((-x) * y == x * (-y)) by (nonlinear_arith);
    }
}

/// A periodic function has the same sum over every period, wherever it starts.
proof fn lemma_shifted_period(n: int, f: spec_fn(int) -> int, by: int)
    requires
        n >= 1,
        periodic(n, f),
    ensures
        int_sum(0, n, |j: int| f(j + by)) == int_sum(0, n, f),
{
    let r = by % n;
    lemma_mod_bound(by, n);
    let moved = |j: int| f(j + by);
    let near = |j: int| f(j + r);
    assert forall|j: int| 0 <= j < n implies #[trigger] moved(j) == near(j) by {
        lemma_add_mod_noop_right(j, by, n);
        lemma_periodic_congruent(n, f, j + by, j + r);
    }
    lemma_int_sum_congruent(0, n, moved, near);
    lemma_int_sum_shift(0, n, r, f);
    lemma_period_sum(n, f, r);
}

/// A sum over twice as many terms, taken by pairs.
proof fn lemma_sum_by_pairs(m: int, f: spec_fn(int) -> int)
    requires
        m >= 0,
    ensures
        int_sum(0, 2 * m, f) == int_sum(0, m, |j: int| f(2 * j)) + int_sum(
            0,
            m,
            |j: int| f(2 * j + 1),
        ),
    decreases m,
{
    let e = |j: int| f(2 * j);
    let o = |j: int| f(2 * j + 1);
    if m > 0 {
        lemma_sum_by_pairs(m - 1, f);
        assert(int_sum(0, 2 * m, f) == int_sum(0, 2 * m - 1, f) + f(2 * m - 1));
        assert(int_sum(0, 2 * m - 1, f) == int_sum(0, 2 * m - 2, f) + f(2 * m - 2));
        assert(e(m - 1) == f(2 * m - 2));
        assert(o(m - 1) == f(2 * m - 1));
    }
}

/// Odd multiples run through the same residues modulo a power of two.
proof fn lemma_odd_reindex(k: nat, u: int, f: spec_fn(int) -> int)
    requires
        odd(u),
        periodic(pow2(k) as int, f),
    ensures
        int_sum(0, pow2(k) as int, |j: int| f(j * u)) == int_sum(0, pow2(k) as int, f),
    decreases k,
{
    let n = pow2(k) as int;
    let g = |j: int| f(j * u);
    if k == 0 {
        lemma2_to64();
        assert(int_sum(0, 0, g) == 0);
        assert(int_sum(0, 0, f) == 0);
        assert(int_sum(0, 1, g) == int_sum(0, 0, g) + g(0));
        assert(int_sum(0, 1, f) == int_sum(0, 0, f) + f(0));
        assert(0 * u == 0);
    } else {
        let m = pow2((k - 1) as nat) as int;
        lemma_pow2_unfold(k);
        lemma_pow2_pos((k - 1) as nat);
        assert(n == 2 * m);
        let c = u / 2;
        assert(u == 2 * c + 1);
        let even = |x: int| f(2 * x);
        let uneven = |x: int| f(2 * x + 1);
        let turned = |x: int| uneven(x + c);
        assert forall|x: int| #[trigger] even(x + m) == even(x) by {
            assert(f(2 * x + n) == f(2 * x));
        }
        assert forall|x: int| #[trigger] uneven(x + m) == uneven(x) by {
            assert(f((2 * x + 1) + n) == f(2 * x + 1));
        }
        assert forall|x: int| #[trigger] turned(x + m) == turned(x) by {
            assert(uneven((x + c) + m) == uneven(x + c));
        }
        lemma_sum_by_pairs(m, f);
        lemma_sum_by_pairs(m, g);
        lemma_odd_reindex((k - 1) as nat, u, even);
        lemma_odd_reindex((k - 1) as nat, u, turned);
        lemma_shifted_period(m, uneven, c);
        let g_even = |j: int| g(2 * j);
        let g_uneven = |j: int| g(2 * j + 1);
        let even_u = |j: int| even(j * u);
        let turned_u = |j: int| turned(j * u);
        assert forall|j: int| 0 <= j < m implies #[trigger] g_even(j) == even_u(j) by {
            assert((2 * j) * u == 2 * (j * u)) by (nonlinear_arith);
        }
        assert forall|j: int| 0 <= j < m implies #[trigger] g_uneven(j) == turned_u(j) by {
            assert((2 * j + 1) * u == 2 * (j * u + c) + 1) by (nonlinear_arith)
                requires
                    u == 2 * c + 1,
            ;
        }
        lemma_int_sum_congruent(0, m, g_even, even_u);
        lemma_int_sum_congruent(0, m, g_uneven, turned_u);
    }
}

/// The convolution is the product that packing rests on: additive, and equivariant under
/// automorphisms and rotations.
pub proof fn law_convolution_is_ring_product(n: int)
    requires
        ring_degree(n),
    ensures
        ring_product(n, convolution(n)),
{
    let times = convolution(n);
    assert forall|a: Poly, b: Poly, c: Poly|
        negacyclic(n, a) && negacyclic(n, b) && negacyclic(n, c) implies #[trigger] times(
        poly_add(a, b),
        c,
    ) == poly_add(times(a, c), times(b, c)) by {
        lemma_convolution_adds(n, a, b, c);
    }
    assert forall|p: int, a: Poly, b: Poly|
        odd(p) && negacyclic(n, a) && negacyclic(n, b) implies #[trigger] automorphism(
        n,
        p,
        times(a, b),
    ) == times(automorphism(n, p, a), automorphism(n, p, b)) by {
        lemma_convolution_automorphism(n, p, a, b);
    }
    assert forall|a: Poly, b: Poly| negacyclic(n, a) && negacyclic(n, b) implies negacyclic(
        n,
        #[trigger] times(a, b),
    ) by {
        lemma_convolution_negacyclic(n, a, b);
    }
    assert forall|k: int, a: Poly, b: Poly|
        negacyclic(n, a) && negacyclic(n, b) implies #[trigger] times(rotate(k, a), b) == rotate(
        k,
        times(a, b),
    ) by {
        lemma_convolution_rotates(n, k, a, b);
    }
}

proof fn lemma_convolution_adds(n: int, a: Poly, b: Poly, c: Poly)
    ensures
        convolution(n)(poly_add(a, b), c) == poly_add(convolution(n)(a, c), convolution(n)(b, c)),
{
    let times = convolution(n);
    let l = times(poly_add(a, b), c);
    let r = poly_add(times(a, c), times(b, c));
    assert forall|i: int| #[trigger] l(i) == r(i) by {
        let f = term_at(a, c, i);
        let g = term_at(b, c, i);
        let both = |j: int| f(j) + g(j);
        let all = term_at(poly_add(a, b), c, i);
        lemma_int_sum_add(0, n, f, g);
        assert forall|j: int| 0 <= j < n implies #[trigger] all(j) == both(j) by {
            let x = a(j);
            let y = b(j);
            let z = c(i - j);
            assert((x + y) * z == x * z + y * z) by (nonlinear_arith);
        }
        lemma_int_sum_congruent(0, n, all, both);
    }
    assert(l =~= r);
}

proof fn lemma_convolution_negacyclic(n: int, a: Poly, b: Poly)
    requires
        negacyclic(n, b),
    ensures
        negacyclic(n, convolution(n)(a, b)),
{
    let l = convolution(n)(a, b);
    assert forall|i: int| #[trigger] l(i + n) == -l(i) by {
        let f = term_at(a, b, i);
        let g = term_at(a, b, i + n);
        let minus = |j: int| -f(j);
        lemma_int_sum_negate(0, n, f);
        assert forall|j: int| 0 <= j < n implies #[trigger] g(j) == minus(j) by {
            assert(b((i - j) + n) == -b(i - j));
            assert(i + n - j == (i - j) + n);
            let x = a(j);
            let y = b(i - j);
            assert(x * (-y) == -(x * y)) by (nonlinear_arith);
        }
        lemma_int_sum_congruent(0, n, g, minus);
    }
}

proof fn lemma_convolution_rotates(n: int, k: int, a: Poly, b: Poly)
    requires
        n >= 1,
        negacyclic(n, a),
        negacyclic(n, b),
    ensures
        convolution(n)(rotate(k, a), b) == rotate(k, convolution(n)(a, b)),
{
    let l = convolution(n)(rotate(k, a), b);
    let r = rotate(k, convolution(n)(a, b));
    assert forall|i: int| #[trigger] l(i) == r(i) by {
        let f = term_at(a, b, i - k);
        lemma_term_periodic(n, a, b, i - k);
        lemma_shifted_period(n, f, -k);
        let moved = |j: int| f(j + (-k));
        let g = term_at(rotate(k, a), b, i);
        assert forall|j: int| 0 <= j < n implies #[trigger] g(j) == moved(j) by {
            assert(i - k - (j + (-k)) == i - j);
        }
        lemma_int_sum_congruent(0, n, g, moved);
    }
    assert(l =~= r);
}

proof fn lemma_convolution_automorphism(n: int, p: int, a: Poly, b: Poly)
    requires
        ring_degree(n),
        odd(p),
        negacyclic(n, a),
        negacyclic(n, b),
    ensures
        automorphism(n, p, convolution(n)(a, b)) == convolution(n)(
            automorphism(n, p, a),
            automorphism(n, p, b),
        ),
{
    let u = unit_inverse(p, 2 * n);
    lemma_pow_odd(p, (2 * n - 1) as nat);
    let k = lemma_binary_modulus(n);
    let l = automorphism(n, p, convolution(n)(a, b));
    let r = convolution(n)(automorphism(n, p, a), automorphism(n, p, b));
    assert forall|i: int| #[trigger] l(i) == r(i) by {
        let f = term_at(a, b, i * u);
        lemma_term_periodic(n, a, b, i * u);
        lemma_odd_reindex(k, u, f);
        let turned = |j: int| f(j * u);
        let g = term_at(automorphism(n, p, a), automorphism(n, p, b), i);
        assert forall|j: int| 0 <= j < n implies #[trigger] g(j) == turned(j) by {
            assert((i - j) * u == i * u - j * u) by (nonlinear_arith);
        }
        lemma_int_sum_congruent(0, n, g, turned);
    }
    assert(l =~= r);
}

/// The constant coefficient of a row read backwards times the secret is the inner product
/// of the row with the secret.
pub proof fn law_reversed_row_gives_inner_product(n: int, row: Poly, s: Poly)
    requires
        ring_degree(n),
        negacyclic(n, row),
        negacyclic(n, s),
    ensures
        convolution(n)(reversed(n, row), s)(0) == int_sum(0, n, |j: int| row(j) * s(j)),
{
    let u = unit_inverse(-1, 2 * n);
    lemma_pow_odd(-1, (2 * n - 1) as nat);
    let k = lemma_binary_modulus(n);
    let f = |j: int| row(j) * s(j);
    assert forall|j: int| #[trigger] f(j + n) == f(j) by {
        assert(row(j + n) == -row(j));
        assert(s(j + n) == -s(j));
        let x = row(j);
        let y = s(j);
        assert((-x) * (-y) == x * y) by (nonlinear_arith);
    }
    lemma_odd_reindex(k, u, f);
    let turned = |j: int| f(j * u);
    let g = term_at(reversed(n, row), s, 0);
    lemma_pow_negated(1, (2 * n - 1) as nat);
    vstd::arithmetic::power::lemma1_pow((2 * n - 1) as nat);
    assert(u == -1);
    assert forall|j: int| 0 <= j < n implies #[trigger] g(j) == turned(j) by {
        assert(j * u == -j);
    }
    lemma_int_sum_congruent(0, n, g, turned);
}

} // verus!
