//! Partial packing: `gamma` rows with a single key.
//!
//! The powers of `5^stride`, with `stride = n / 2 / gamma`, are a group of order `gamma`.
//! Summing the images of a polynomial under them leaves `gamma` times its coefficients at
//! the multiples of `gamma`. So the first `gamma` coefficients of a partially packed
//! ciphertext carry the rows, and those above carry nothing of use.

use vstd::prelude::*;
use vstd::arithmetic::div_mod::*;
use vstd::arithmetic::mul::*;
use vstd::arithmetic::power::*;
use vstd::arithmetic::power2::*;
use crate::arith::lemma_quotient;
use crate::encoding::lemma_pow2_small;
use crate::interpolation::{lemma_extend, polys_of};
use crate::packing::aggregate::{
    add_assign, are_centred, are_coefficients, are_residues, automorphed, centred_form, in_range,
    lemma_centred_in_range, lemma_division_fits, lemma_few_levels, lemma_residues_add,
    lemma_same_poly, lemma_same_rows, rotated, torus_poly, tree_levels,
};
use crate::packing::collapse::{lemma_share_range, ring_degree, secret_view, share_element};
use crate::packing::divide::{
    divided_polys, divided_rows, is_rounded, lemma_levels, levels_of, rounded_off, spare,
    spare_bits, ARITHMETIC_BITS,
};
use crate::packing::trace::{
    lemma_component_at, lemma_five_to_the_half, lemma_generator_half_turn,
    lemma_generator_inverse, lemma_reverse_sum, lemma_share_congruent, reversed, ring_product,
    viewed_rows,
};
use crate::packing::wide::{joined_off, lemma_joined_is_rounded, part_polys, part_rows};
use crate::ring::{
    automorphism, law_automorphism_congruent, lemma_automorphism_negacyclic, lemma_binary_modulus,
    lemma_congruent_coefficients, lemma_double_binary, lemma_periodic, lemma_pow2_double,
    negacyclic, odd, poly_sum, poly_zero, rotate, unit_inverse, Poly,
};
use crate::server::product::torus_modulus_i128;
use crate::sums::{
    int_sum, lemma_int_sum_congruent, lemma_int_sum_scale, lemma_int_sum_shift,
    lemma_int_sum_single, lemma_int_sum_split, lemma_sum_swap,
};

verus! {

/// Numbers of rows that can be packed partially.
pub open spec fn partial_rows(n: int, gamma: int) -> bool {
    ring_degree(n) && gamma >= 1 && is_pow2(gamma) && 2 * gamma <= n
}

/// Exponent of the generator of the group of order `gamma`.
pub open spec fn partial_stride(n: int, gamma: int) -> int {
    (n / 2) / gamma
}

/// Coefficient `i` of the sum over the group.
pub open spec fn partial_trace(gamma: int, f: Poly, i: int) -> int {
    if i % gamma == 0 {
        gamma * f(i)
    } else {
        0
    }
}

proof fn lemma_partial_generators(k: nat, b: nat, f: Poly, i: int)
    requires
        b + 1 <= k,
        negacyclic(pow2(k) as int, f),
    ensures
        int_sum(
            0,
            pow2(b) as int,
            |j: int| f(i * pow(5, (pow2((k - 1 - b) as nat) * j) as nat)),
        ) == partial_trace(pow2(b) as int, f, i),
    decreases b,
{
    let n = pow2(k) as int;
    let gamma = pow2(b) as int;
    let stride = pow2((k - 1 - b) as nat) as int;
    lemma_pow2_pos(k);
    lemma_pow2_pos(b);
    lemma_pow2_pos((k - 1 - b) as nat);
    let d = |j: int| f(i * pow(5, (stride * j) as nat));
    if b == 0 {
        lemma2_to64();
        assert(stride * 0 == 0);
        lemma_pow0(5);
        assert(i * 1 == i);
        assert(int_sum(0, 0, d) == 0);
        assert(int_sum(0, 1, d) == int_sum(0, 0, d) + d(0));
        assert(1 * f(i) == f(i));
    } else {
        let h = pow2((b - 1) as nat) as int;
        let half = pow2((k - 1) as nat) as int;
        let quarter = pow2((k - 2) as nat) as int;
        lemma_pow2_double((b - 1) as nat);
        lemma_pow2_double((k - 1) as nat);
        lemma_pow2_pos((b - 1) as nat);
        lemma_pow2_adds((k - 1 - b) as nat, (b - 1) as nat);
        assert(stride * h == quarter);
        let of_unit = |v: int| f(i * v);
        assert forall|v: int| #[trigger] of_unit(v + 2 * n) == of_unit(v) by {
            assert(i * (v + 2 * n) == i * v + 2 * n * i) by (nonlinear_arith);
            lemma_periodic(n, f, i * v, i);
        }
        lemma_int_sum_split(0, h, gamma, d);
        lemma_int_sum_shift(0, h, h, d);
        let later = |j: int| d(j + h);
        // Half of the order later, the unit has moved by `n`.
        assert forall|j: int| 0 <= j < h implies #[trigger] later(j) == f(
            i * pow(5, (stride * j) as nat) + i * n,
        ) by {
            assert(stride * j >= 0) by (nonlinear_arith)
                requires
                    stride >= 0,
                    j >= 0,
            ;
            assert(stride * (j + h) == stride * j + quarter) by (nonlinear_arith)
                requires
                    stride * h == quarter,
            ;
            lemma_generator_half_turn(k, stride * j, of_unit);
            let x = pow(5, (stride * j) as nat);
            assert(i * (x + n) == i * x + i * n) by (nonlinear_arith);
        }
        let c = i / 2;
        if i % 2 == 1 {
            let minus = |j: int| -1 * d(j);
            assert forall|j: int| 0 <= j < h implies #[trigger] later(j) == minus(j) by {
                let y = i * pow(5, (stride * j) as nat);
                assert(i * n == n + 2 * n * c) by (nonlinear_arith)
                    requires
                        i == 2 * c + 1,
                ;
                lemma_periodic(n, f, y + n, c);
                assert(f(y + n) == -f(y));
            }
            lemma_int_sum_congruent(0, h, later, minus);
            lemma_int_sum_scale(0, h, -1, d);
            if i % gamma == 0 {
                lemma_fundamental_div_mod(i, gamma);
                let q = i / gamma;
                assert(i == 2 * (h * q)) by (nonlinear_arith)
                    requires
                        i == gamma * q,
                        gamma == 2 * h,
                ;
                assert(false);
            }
        } else {
            assert(i == 2 * c);
            assert forall|j: int| 0 <= j < h implies #[trigger] later(j) == d(j) by {
                let y = i * pow(5, (stride * j) as nat);
                assert(i * n == 2 * n * c) by (nonlinear_arith)
                    requires
                        i == 2 * c,
                ;
                lemma_periodic(n, f, y, c);
            }
            lemma_int_sum_congruent(0, h, later, d);
            let even = |x: int| f(2 * x);
            assert forall|x: int| #[trigger] even(x + half) == -even(x) by {
                assert(f(2 * x + n) == -f(2 * x));
            }
            lemma_partial_generators((k - 1) as nat, (b - 1) as nat, even, c);
            let below = |j: int| even(c * pow(5, (stride * j) as nat));
            assert forall|j: int| 0 <= j < h implies #[trigger] d(j) == below(j) by {
                let x = pow(5, (stride * j) as nat);
                assert((2 * c) * x == 2 * (c * x)) by (nonlinear_arith);
            }
            lemma_int_sum_congruent(0, h, d, below);
            lemma_fundamental_div_mod(c, h);
            lemma_mod_bound(c, h);
            assert(i == (c / h) * gamma + 2 * (c % h)) by (nonlinear_arith)
                requires
                    i == 2 * c,
                    c == h * (c / h) + c % h,
                    gamma == 2 * h,
            ;
            lemma_quotient(i, gamma, c / h, 2 * (c % h));
            assert(h * f(i) + h * f(i) == gamma * f(i)) by (nonlinear_arith)
                requires
                    gamma == 2 * h,
            ;
        }
    }
}

/// Summing a polynomial over its images under the group of order `gamma` leaves `gamma`
/// times its coefficients at the multiples of `gamma`.
pub proof fn law_partial_trace(n: int, gamma: int, f: Poly, i: int)
    requires
        partial_rows(n, gamma),
        negacyclic(n, f),
    ensures
        int_sum(
            0,
            gamma,
            |j: int|
                automorphism(n, share_element(n, partial_stride(n, gamma), false, j), f)(i),
        ) == partial_trace(gamma, f, i),
{
    let m = 2 * n;
    let (k, b) = lemma_partial_exponents(n, gamma);
    let stride = partial_stride(n, gamma);
    lemma_double_binary(n);
    lemma_pow2_double((k - 1) as nat);
    lemma_pow2_pos((k - 1 - b) as nat);
    let images = |j: int| automorphism(n, share_element(n, stride, false, j), f)(i);
    let g = |j: int| f(i * unit_inverse(pow(5, (stride * j) as nat), m));
    let d = |j: int| f(i * pow(5, (stride * j) as nat));
    assert forall|j: int| 0 <= j < gamma implies #[trigger] images(j) == g(j) by {
        lemma_stride_at(n, gamma, j);
        lemma_share_congruent(n, stride * j);
        assert(1 * (stride * j) == stride * j);
        law_automorphism_congruent(
            n,
            share_element(n, stride, false, j),
            pow(5, (stride * j) as nat),
            f,
        );
    }
    lemma_int_sum_congruent(0, gamma, images, g);
    assert forall|j: int| 0 <= j <= gamma implies #[trigger] g(j) == d(gamma - j) by {
        lemma_stride_at(n, gamma, j);
        lemma_stride_at(n, gamma, gamma - j);
        assert(stride * (gamma - j) == n / 2 - stride * j) by (nonlinear_arith)
            requires
                stride * gamma == n / 2,
        ;
        lemma_generator_inverse(n, k, stride * j);
        let u = unit_inverse(pow(5, (stride * j) as nat), m);
        let y = pow(5, (n / 2 - stride * j) as nat);
        lemma_mul_mod_noop_right(i, u, m);
        lemma_mul_mod_noop_right(i, y, m);
        lemma_congruent_coefficients(n, f, i * u, i * y);
    }
    assert(d(gamma) == d(0)) by {
        lemma_stride_at(n, gamma, gamma);
        lemma_five_to_the_half(n, k);
        lemma_pow0(5);
        assert(stride * 0 == 0);
        let z = pow(5, (n / 2) as nat);
        lemma_small_mod(1, m as nat);
        lemma_mul_mod_noop_right(i, z, m);
        lemma_mul_mod_noop_right(i, 1, m);
        lemma_congruent_coefficients(n, f, i * z, i * 1);
    }
    lemma_reverse_sum(gamma, g, d);
    lemma_partial_generators(k, b, f, i);
}

/// The logarithms of the degree and of the number of rows.
proof fn lemma_partial_exponents(n: int, gamma: int) -> (r: (nat, nat))
    requires
        partial_rows(n, gamma),
    ensures
        n == pow2(r.0),
        gamma == pow2(r.1),
        r.1 + 1 <= r.0,
        partial_stride(n, gamma) == pow2((r.0 - 1 - r.1) as nat),
        partial_stride(n, gamma) * gamma == n / 2,
        n == 2 * (n / 2),
{
    let k = lemma_binary_modulus(n);
    let b: nat = if gamma == 1 {
        0
    } else {
        lemma_binary_modulus(gamma)
    };
    lemma2_to64();
    lemma_pow2_double((k - 1) as nat);
    if b > k - 1 {
        lemma_pow2_strictly_increases((k - 1) as nat, b);
    }
    lemma_pow2_adds((k - 1 - b) as nat, b);
    lemma_pow2_pos(b);
    lemma_quotient(n / 2, gamma, pow2((k - 1 - b) as nat) as int, 0);
    (k, b)
}

/// Multiples of the stride stay below half of the degree.
proof fn lemma_stride_at(n: int, gamma: int, j: int)
    requires
        partial_rows(n, gamma),
        0 <= j <= gamma,
    ensures
        partial_stride(n, gamma) >= 1,
        partial_stride(n, gamma) * gamma == n / 2,
        0 <= partial_stride(n, gamma) * j <= n / 2,
{
    let (k, b) = lemma_partial_exponents(n, gamma);
    let stride = partial_stride(n, gamma);
    lemma_pow2_pos((k - 1 - b) as nat);
    assert(0 <= stride * j <= stride * gamma) by (nonlinear_arith)
        requires
            stride >= 0,
            0 <= j <= gamma,
    ;
}

// ---------------------------------------------------------------------------
// The aggregate
// ---------------------------------------------------------------------------

/// Mask rows of torus elements in range.
pub open spec fn are_rows(rows: Seq<Vec<i64>>, n: int) -> bool {
    forall|k: int| 0 <= k < rows.len() ==> (#[trigger] rows[k])@.len() == n && in_range(rows[k]@)
}

/// Row `k` as it enters the sum of a component.
fn viewed_row(row: &Vec<i64>, n: usize, v: i64, k: usize) -> (r: Vec<i64>)
    requires
        ring_degree(n as int),
        row@.len() == n,
        in_range(row@),
        v != 0,
        odd(v as int),
        k < n,
    ensures
        in_range(r@),
        are_coefficients(
            r@,
            n as int,
            rotate(
                k as int,
                automorphism(
                    n as int,
                    v as int,
                    reversed(n as int, torus_poly(n as int, row@)),
                ),
            ),
        ),
{
    let ghost f = torus_poly(n as int, row@);
    let ghost back_poly = reversed(n as int, f);
    proof {
        assert(odd(-1));
        lemma_extend(n as int, |i: int| row@[i] as int);
        lemma_automorphism_negacyclic(n as int, -1, f);
        lemma_automorphism_negacyclic(n as int, v as int, back_poly);
    }
    let back: Vec<i64> = automorphed(row, n, -1);
    proof {
        lemma_same_poly(n as int, back@, back_poly);
    }
    let image: Vec<i64> = automorphed(&back, n, v);
    proof {
        lemma_same_poly(n as int, image@, automorphism(n as int, v as int, back_poly));
    }
    rotated(&image, n, k)
}

/// The first `count` rows through the share `v`, summed modulo `q`.
fn component(rows: &[Vec<i64>], n: usize, count: usize, v: i64, q: i64) -> (r: Vec<i64>)
    requires
        ring_degree(n as int),
        are_rows(rows@, n as int),
        count <= rows@.len(),
        count <= n,
        v != 0,
        odd(v as int),
        2 <= q <= 0x4000_0000_0000_0000,
    ensures
        are_centred(
            r@,
            n as int,
            q as int,
            viewed_rows(n as int, v as int, count as int, polys_of(n as int, rows@)),
        ),
{
    let ghost polys = polys_of(n as int, rows@);
    let ghost parts = |k: int|
        rotate(k, automorphism(n as int, v as int, reversed(n as int, polys(k))));
    let mut sum: Vec<i64> = vec![0i64; n];
    let mut k: usize = 0;
    proof {
        lemma_small_mod(0, q as nat);
        assert(poly_sum(0, 0, parts) == poly_zero());
        assert(are_residues(sum@, n as int, q as int, poly_sum(0, 0, parts)));
    }
    while k < count
        invariant
            ring_degree(n as int),
            are_rows(rows@, n as int),
            k <= count <= rows@.len(),
            count <= n,
            v != 0,
            odd(v as int),
            2 <= q <= 0x4000_0000_0000_0000,
            polys == polys_of(n as int, rows@),
            parts == (|k: int|
                rotate(k, automorphism(n as int, v as int, reversed(n as int, polys(k))))),
            sum@.len() == n,
            are_residues(sum@, n as int, q as int, poly_sum(0, k as int, parts)),
        decreases count - k,
    {
        let part: Vec<i64> = viewed_row(&rows[k], n, v, k);
        let ghost before = sum@;
        assert(parts(k as int) == rotate(
            k as int,
            automorphism(n as int, v as int, reversed(n as int, torus_poly(n as int, rows@[k as int]@))),
        ));
        assert(are_residues(part@, n as int, q as int, parts(k as int))) by {
            lemma_small_mod(0, q as nat);
        }
        add_assign(&mut sum, &part, q);
        proof {
            lemma_residues_add(
                before,
                part@,
                sum@,
                n as int,
                q as int,
                poly_sum(0, k as int, parts),
                parts(k as int),
            );
        }
        k = k + 1;
    }
    centred_form(&sum, n, q)
}

/// Sums the first `gamma` mask rows into the components that a partial packing collapses,
/// modulo `2^torus_bits`: component `j` is that of the share `5^(stride * j)`. Every row
/// enters once per component.
pub fn aggregate_partial_rows(
    rows: &[Vec<i64>],
    n: usize,
    gamma: usize,
    torus_bits: usize,
) -> (r: Vec<Vec<i64>>)
    requires
        partial_rows(n as int, gamma as int),
        are_rows(rows@, n as int),
        gamma <= rows@.len(),
        1 <= torus_bits <= 62,
    ensures
        r@.len() == gamma,
        forall|j: int|
            0 <= j < gamma ==> are_centred(
                (#[trigger] r@[j])@,
                n as int,
                pow2(torus_bits as nat) as int,
                viewed_rows(
                    n as int,
                    share_element(n as int, partial_stride(n as int, gamma as int), false, j),
                    gamma as int,
                    polys_of(n as int, rows@),
                ),
            ),
{
    proof {
        lemma_pow2_small(torus_bits as nat);
        lemma_pow2_unfold(torus_bits as nat);
        lemma_pow2_pos((torus_bits - 1) as nat);
        lemma_stride_at(n as int, gamma as int, gamma as int);
    }
    let q: i64 = torus_modulus_i128(torus_bits) as i64;
    let stride: usize = n / 2 / gamma;
    let mut out: Vec<Vec<i64>> = Vec::new();
    while out.len() < gamma
        invariant
            partial_rows(n as int, gamma as int),
            are_rows(rows@, n as int),
            gamma <= rows@.len(),
            stride == partial_stride(n as int, gamma as int),
            q == pow2(torus_bits as nat),
            2 <= q <= 0x4000_0000_0000_0000,
            out@.len() <= gamma,
            forall|j: int|
                0 <= j < out@.len() ==> are_centred(
                    (#[trigger] out@[j])@,
                    n as int,
                    q as int,
                    viewed_rows(
                        n as int,
                        share_element(n as int, stride as int, false, j),
                        gamma as int,
                        polys_of(n as int, rows@),
                    ),
                ),
        decreases gamma - out@.len(),
    {
        let j: usize = out.len();
        proof {
            lemma_stride_at(n as int, gamma as int, j as int);
            lemma_share_range(n as int, stride as int, false, j as int);
        }
        let v: i64 = secret_view(n, stride, false, j);
        out.push(component(rows, n, gamma, v, q));
    }
    out
}

/// The components of the first `gamma` rows divided by their number, at `torus_bits` bits.
pub open spec fn are_partial_components(
    n: int,
    gamma: int,
    torus_bits: int,
    rows: Seq<Vec<i64>>,
    r: Seq<Vec<i64>>,
) -> bool {
    let levels = levels_of(gamma) as int;
    let spare = spare_bits(levels, torus_bits);
    let d = pow2((levels - spare) as nat) as int;
    &&& r.len() == gamma
    &&& forall|j: int|
        0 <= j < gamma ==> is_rounded(
            (#[trigger] r[j])@,
            n,
            torus_bits,
            spare,
            viewed_rows(
                n,
                share_element(n, partial_stride(n, gamma), false, j),
                gamma,
                divided_polys(n, rows, d),
            ),
        )
}

/// The components of one part of the first `gamma` rows.
fn aggregate_partial_part(rows: &[Vec<i64>], n: usize, gamma: usize, which: usize) -> (r: Vec<
    Vec<i64>,
>)
    requires
        partial_rows(n as int, gamma as int),
        are_rows(rows@, n as int),
        gamma <= rows@.len(),
        which < 3,
    ensures
        r@.len() == gamma,
        forall|j: int|
            0 <= j < gamma ==> are_centred(
                (#[trigger] r@[j])@,
                n as int,
                pow2(62) as int,
                viewed_rows(
                    n as int,
                    share_element(n as int, partial_stride(n as int, gamma as int), false, j),
                    gamma as int,
                    part_polys(n as int, rows@, which as int),
                ),
            ),
{
    let parts: Vec<Vec<i64>> = part_rows(rows, gamma, n, which);
    let sums: Vec<Vec<i64>> = aggregate_partial_rows(parts.as_slice(), n, gamma, 62);
    proof {
        let polys = part_polys(n as int, rows@, which as int);
        let stride = partial_stride(n as int, gamma as int);
        assert forall|j: int| 0 <= j < gamma implies are_centred(
            (#[trigger] sums@[j])@,
            n as int,
            pow2(62) as int,
            viewed_rows(n as int, share_element(n as int, stride, false, j), gamma as int, polys),
        ) by {
            let v = share_element(n as int, stride, false, j);
            lemma_same_rows(n as int, v, gamma as int, polys_of(n as int, parts@), polys);
        }
    }
    sums
}

/// Aggregates mask rows of more than 60 bits, in parts.
fn wide_partial_preprocessing(rows: &[Vec<i64>], n: usize, gamma: usize, torus_bits: usize) -> (r:
    Vec<Vec<i64>>)
    requires
        partial_rows(n as int, gamma as int),
        are_rows(rows@, n as int),
        gamma <= rows@.len(),
        ARITHMETIC_BITS < torus_bits <= 62,
        gamma * gamma <= usize::MAX,
    ensures
        are_partial_components(n as int, gamma as int, torus_bits as int, rows@, r@),
{
    let levels: usize = tree_levels(gamma);
    let spare: usize = spare(levels, torus_bits);
    proof {
        lemma_levels(gamma as int, levels as nat);
        lemma_few_levels(gamma as int, levels as nat);
        lemma2_to64();
    }
    let lo: Vec<Vec<i64>> = aggregate_partial_part(rows, n, gamma, 0);
    let mid: Vec<Vec<i64>> = aggregate_partial_part(rows, n, gamma, 1);
    let hi: Vec<Vec<i64>> = aggregate_partial_part(rows, n, gamma, 2);
    let ghost stride = partial_stride(n as int, gamma as int);
    let ghost view = |j: int| share_element(n as int, stride, false, j);
    let ghost sums = |j: int, which: int|
        viewed_rows(n as int, view(j), gamma as int, part_polys(n as int, rows@, which));
    let ghost polys = divided_polys(n as int, rows@, 1);
    let mut out: Vec<Vec<i64>> = Vec::new();
    while out.len() < gamma
        invariant
            out@.len() <= gamma,
            1 <= gamma < 0x1_0000_0000,
            n >= 1,
            are_rows(rows@, n as int),
            gamma <= rows@.len(),
            1 <= torus_bits <= 62,
            spare <= 62,
            lo@.len() == gamma,
            mid@.len() == gamma,
            hi@.len() == gamma,
            forall|j: int, which: int| #[trigger]
                sums(j, which) == viewed_rows(
                    n as int,
                    view(j),
                    gamma as int,
                    part_polys(n as int, rows@, which),
                ),
            polys == divided_polys(n as int, rows@, 1),
            forall|j: int|
                0 <= j < gamma ==> are_centred(
                    (#[trigger] lo@[j])@,
                    n as int,
                    pow2(62) as int,
                    sums(j, 0),
                ),
            forall|j: int|
                0 <= j < gamma ==> are_centred(
                    (#[trigger] mid@[j])@,
                    n as int,
                    pow2(62) as int,
                    sums(j, 1),
                ),
            forall|j: int|
                0 <= j < gamma ==> are_centred(
                    (#[trigger] hi@[j])@,
                    n as int,
                    pow2(62) as int,
                    sums(j, 2),
                ),
            forall|j: int|
                0 <= j < out@.len() ==> is_rounded(
                    (#[trigger] out@[j])@,
                    n as int,
                    torus_bits as int,
                    spare as int,
                    viewed_rows(n as int, view(j), gamma as int, polys),
                ),
        decreases gamma - out@.len(),
    {
        let j: usize = out.len();
        proof {
            lemma_joined_is_rounded(
                n as int,
                view(j as int),
                gamma as int,
                rows@,
                torus_bits as int,
                spare as int,
                lo@[j as int]@,
                mid@[j as int]@,
                hi@[j as int]@,
                Seq::empty(),
            );
        }
        let component: Vec<i64> = joined_off(&lo[j], &mid[j], &hi[j], torus_bits, spare);
        proof {
            lemma_joined_is_rounded(
                n as int,
                view(j as int),
                gamma as int,
                rows@,
                torus_bits as int,
                spare as int,
                lo@[j as int]@,
                mid@[j as int]@,
                hi@[j as int]@,
                component@,
            );
        }
        out.push(component);
    }
    proof {
        assert forall|j: int| 0 <= j < gamma implies is_rounded(
            (#[trigger] out@[j])@,
            n as int,
            torus_bits as int,
            spare as int,
            viewed_rows(n as int, share_element(n as int, stride, false, j), gamma as int, polys),
        ) by {
            assert(view(j) == share_element(n as int, stride, false, j));
        }
    }
    out
}

/// Aggregates the first `gamma` mask rows of `torus_bits` bits into the components that a
/// partial packing collapses. Rows are divided by their number, which aggregation
/// multiplies by; halves are rounded up, there and where the components are rounded back to
/// `torus_bits` bits.
pub fn packing_partial_mask_preprocessing(
    rows: &[Vec<i64>],
    n: usize,
    gamma: usize,
    torus_bits: usize,
) -> (r: Vec<Vec<i64>>)
    requires
        partial_rows(n as int, gamma as int),
        are_rows(rows@, n as int),
        gamma <= rows@.len(),
        1 <= torus_bits <= 62,
        torus_bits > ARITHMETIC_BITS ==> gamma * gamma <= usize::MAX,
    ensures
        are_partial_components(n as int, gamma as int, torus_bits as int, rows@, r@),
{
    if torus_bits > ARITHMETIC_BITS {
        return wide_partial_preprocessing(rows, n, gamma, torus_bits);
    }
    let levels: usize = tree_levels(gamma);
    let spare: usize = spare(levels, torus_bits);
    proof {
        lemma_levels(gamma as int, levels as nat);
        lemma_division_fits(gamma as int, levels as int, spare as int, torus_bits as int);
    }
    let d: i64 = torus_modulus_i128(levels - spare) as i64;
    let unit: i64 = torus_modulus_i128(spare) as i64;
    let q: i64 = torus_modulus_i128(torus_bits) as i64;
    let divided: Vec<Vec<i64>> = divided_rows(rows, gamma, n, d);
    let sums: Vec<Vec<i64>> = aggregate_partial_rows(
        divided.as_slice(),
        n,
        gamma,
        torus_bits + spare,
    );
    let ghost polys = divided_polys(n as int, rows@, d as int);
    let ghost big = pow2((torus_bits + spare) as nat) as int;
    let ghost stride = partial_stride(n as int, gamma as int);
    let ghost component = |j: int|
        viewed_rows(n as int, share_element(n as int, stride, false, j), gamma as int, polys);
    proof {
        assert forall|j: int| 0 <= j < gamma implies are_centred(
            (#[trigger] sums@[j])@,
            n as int,
            big,
            component(j),
        ) by {
            lemma_same_rows(
                n as int,
                share_element(n as int, stride, false, j),
                gamma as int,
                polys_of(n as int, divided@),
                polys,
            );
        }
    }
    let mut out: Vec<Vec<i64>> = Vec::new();
    while out.len() < gamma
        invariant
            out@.len() <= gamma,
            sums@.len() == gamma,
            q == pow2(torus_bits as nat),
            unit == pow2(spare as nat),
            big == pow2((torus_bits + spare) as nat),
            2 <= big <= 0x4000_0000_0000_0000,
            q >= 2,
            1 <= unit <= 0x4000_0000_0000_0000,
            forall|j: int|
                0 <= j < gamma ==> are_centred(
                    (#[trigger] sums@[j])@,
                    n as int,
                    big,
                    component(j),
                ),
            forall|j: int|
                0 <= j < out@.len() ==> is_rounded(
                    (#[trigger] out@[j])@,
                    n as int,
                    torus_bits as int,
                    spare as int,
                    component(j),
                ),
        decreases gamma - out@.len(),
    {
        let j: usize = out.len();
        proof {
            lemma_centred_in_range(sums@[j as int]@, n as int, big, component(j as int));
        }
        out.push(rounded_off(&sums[j], unit, q));
    }
    out
}

/// The partial aggregate decrypts: every component times its share, summed, carries at
/// `X^i`, for `i` below `gamma`, `gamma` times the constant coefficient of
/// `reversed(row i) * s` - the inner product of row `i` with the secret.
pub proof fn law_partial_aggregate_decrypts(
    n: int,
    gamma: int,
    rows: spec_fn(int) -> Poly,
    times: spec_fn(Poly, Poly) -> Poly,
    s: Poly,
    i: int,
)
    requires
        partial_rows(n, gamma),
        ring_product(n, times),
        negacyclic(n, s),
        forall|k: int| negacyclic(n, #[trigger] rows(k)),
        0 <= i < gamma,
    ensures
        int_sum(
            0,
            gamma,
            |j: int|
                times(
                    viewed_rows(
                        n,
                        share_element(n, partial_stride(n, gamma), false, j),
                        gamma,
                        rows,
                    ),
                    automorphism(n, share_element(n, partial_stride(n, gamma), false, j), s),
                )(i),
        ) == gamma * times(reversed(n, rows(i)), s)(0),
{
    let stride = partial_stride(n, gamma);
    let decrypted = |j: int|
        times(
            viewed_rows(n, share_element(n, stride, false, j), gamma, rows),
            automorphism(n, share_element(n, stride, false, j), s),
        )(i);
    let cell = |j: int, k: int|
        automorphism(n, share_element(n, stride, false, j), times(reversed(n, rows(k)), s))(i - k);
    let by_rows = |j: int| int_sum(0, gamma, |k: int| cell(j, k));
    assert forall|j: int| 0 <= j < gamma implies #[trigger] decrypted(j) == by_rows(j) by {
        lemma_stride_at(n, gamma, j);
        lemma_share_range(n, stride, false, j);
        lemma_component_at(n, share_element(n, stride, false, j), gamma, rows, times, s, i);
        let target = |k: int|
            automorphism(n, share_element(n, stride, false, j), times(reversed(n, rows(k)), s))(
                i - k,
            );
        let row = |k: int| cell(j, k);
        lemma_int_sum_congruent(0, gamma, target, row);
    }
    lemma_int_sum_congruent(0, gamma, decrypted, by_rows);
    lemma_sum_swap(gamma, gamma, cell);
    let by_cols = |k: int| int_sum(0, gamma, |j: int| cell(j, k));
    let traces = |k: int| partial_trace(gamma, times(reversed(n, rows(k)), s), i - k);
    assert forall|k: int| 0 <= k < gamma implies #[trigger] by_cols(k) == traces(k) by {
        let f = times(reversed(n, rows(k)), s);
        assert(negacyclic(n, rows(k)));
        lemma_automorphism_negacyclic(n, -1, rows(k));
        assert(negacyclic(n, f));
        law_partial_trace(n, gamma, f, i - k);
        let col = |j: int| cell(j, k);
        let images = |j: int| automorphism(n, share_element(n, stride, false, j), f)(i - k);
        lemma_int_sum_congruent(0, gamma, col, images);
    }
    lemma_int_sum_congruent(0, gamma, by_cols, traces);
    assert forall|k: int| 0 <= k < gamma && k != i implies #[trigger] traces(k) == 0 by {
        if k < i {
            lemma_small_mod((i - k) as nat, gamma as nat);
        } else {
            lemma_quotient(i - k, gamma, -1, gamma + i - k);
        }
    }
    lemma_int_sum_single(0, gamma, i, traces);
    lemma_small_mod(0, gamma as nat);
}

} // verus!
