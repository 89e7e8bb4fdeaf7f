//! Aggregation of mask rows, on torus polynomials.
//!
//! A row of `n` torus elements is a polynomial with those coefficients. The rows of a
//! product are sent through automorphisms, rotated, and summed along a binary tree; the
//! sums are the components that packing collapses.

use vstd::prelude::*;
use vstd::arithmetic::div_mod::*;
use vstd::arithmetic::power2::*;
use crate::encoding::{centre_i128, centred_residue, lemma_centred_residue, lemma_pow2_small};
use crate::interpolation::{extend, lemma_extend, polys_of};
use crate::packing::collapse::{lemma_poly_sum_congruent, ring_degree, share_element};
use crate::packing::divide::{
    divided_polys, divided_rows, is_rounded, lemma_levels, levels_of, rounded_off, spare,
    spare_bits, ARITHMETIC_BITS,
};
use crate::packing::mask_preprocessing::{
    first_leaf, is_merge_level, law_columns_aggregate, mask_column_plans, mask_tree_schedule,
    merged_leaf, second_leaf, tree_run, MaskColumnPlan, TreeState,
};
use crate::packing::trace::{aggregate_component, reversed, viewed_rows};
use crate::packing::wide::{joined_off, lemma_joined_is_rounded, part_polys, part_rows};
use crate::ring::{
    automorphism, galois_element_inv, lemma_automorphism_negacyclic, lemma_binary_modulus,
    lemma_congruent_coefficients, lemma_double_binary, lemma_galois_inv_congruent, negacyclic, odd,
    poly_add, poly_zero, rotate, unit_inverse, Poly,
};
use crate::server::product::torus_modulus_i128;
use crate::sums::{lemma_multiple_scales, lemma_multiples_add};

verus! {

/// The polynomial with the given coefficients.
pub open spec fn torus_poly(n: int, v: Seq<i64>) -> Poly {
    extend(n, |i: int| v[i] as int)
}

/// Coefficients of at most 62 bits and a sign.
pub open spec fn in_range(v: Seq<i64>) -> bool {
    forall|i: int|
        0 <= i < v.len() ==> -0x4000_0000_0000_0000 <= #[trigger] v[i] <= 0x4000_0000_0000_0000
}

/// The coefficients are those of `f`, exactly.
pub open spec fn are_coefficients(v: Seq<i64>, n: int, f: Poly) -> bool {
    v.len() == n && forall|x: int| 0 <= x < n ==> #[trigger] v[x] == f(x)
}

/// The coefficients are those of `f`, modulo `q`.
pub open spec fn are_residues(v: Seq<i64>, n: int, q: int, f: Poly) -> bool {
    v.len() == n && forall|x: int| 0 <= x < n ==> (#[trigger] v[x] - f(x)) % q == 0
}

/// The coefficients are the centred residues of those of `f`.
pub open spec fn are_centred(v: Seq<i64>, n: int, q: int, f: Poly) -> bool {
    v.len() == n && forall|x: int| 0 <= x < n ==> #[trigger] v[x] == centred_residue(f(x), q)
}

/// Coefficient `e` of the polynomial, for `e` below `2n`.
fn coefficient_at(v: &Vec<i64>, n: usize, e: usize) -> (r: i64)
    requires
        v@.len() == n,
        in_range(v@),
        e < 2 * n,
    ensures
        r == torus_poly(n as int, v@)(e as int),
        -0x4000_0000_0000_0000 <= r <= 0x4000_0000_0000_0000,
{
    proof {
        crate::arith::lemma_quotient(e as int, 2 * n, 0, e as int);
    }
    if e < n {
        v[e]
    } else {
        -v[e - n]
    }
}

/// The image under `X -> X^p`.
pub fn automorphed(v: &Vec<i64>, n: usize, p: i64) -> (r: Vec<i64>)
    requires
        ring_degree(n as int),
        v@.len() == n,
        in_range(v@),
        p != 0,
        odd(p as int),
    ensures
        in_range(r@),
        are_coefficients(r@, n as int, automorphism(n as int, p as int, torus_poly(n as int, v@))),
{
    proof {
        lemma_double_binary(n as int);
        lemma_binary_modulus(2 * n);
        lemma_extend(n as int, |i: int| v@[i] as int);
        lemma_galois_inv_congruent(p as int, 2 * n);
        let y = vstd::arithmetic::power::pow(
            crate::ring::abs(p as int),
            (2 * n - 1) as nat,
        );
        lemma_mod_bound(y, 2 * n);
    }
    let ghost f = torus_poly(n as int, v@);
    let ghost u = unit_inverse(p as int, 2 * n);
    let order: i64 = (2 * n) as i64;
    let inverse: i64 = galois_element_inv(p, order);
    let mut out: Vec<i64> = Vec::new();
    while out.len() < n
        invariant
            out@.len() <= n,
            ring_degree(n as int),
            v@.len() == n,
            in_range(v@),
            order == 2 * n,
            -2 * n < inverse < 2 * n,
            inverse as int % (2 * n) == u % (2 * n),
            f == torus_poly(n as int, v@),
            negacyclic(n as int, f),
            u == unit_inverse(p as int, 2 * n),
            in_range(out@),
            forall|x: int|
                0 <= x < out@.len() ==> #[trigger] out@[x] == automorphism(
                    n as int,
                    p as int,
                    f,
                )(x),
        decreases n - out@.len(),
    {
        let x: usize = out.len();
        let m: i128 = order as i128;
        proof {
            let bound = 0x1_0000_0000_0000_0000int;
            assert(-(bound * bound) / 4 <= x * inverse <= (bound * bound) / 4) by (nonlinear_arith)
                requires
                    0 <= x < bound / 2,
                    -bound / 2 < inverse < bound / 2,
                    bound == 0x1_0000_0000_0000_0000int,
            ;
            lemma_mod_bound(x * inverse, 2 * n);
            lemma_mul_mod_noop_right(x as int, inverse as int, 2 * n);
            lemma_mul_mod_noop_right(x as int, u, 2 * n);
        }
        let e: i128 = match ((x as i128) * (inverse as i128)).checked_rem_euclid(m) {
            Some(e) => e,
            None => 0,
        };
        proof {
            lemma_small_mod(e as nat, (2 * n) as nat);
            lemma_congruent_coefficients(n as int, f, x * u, e as int);
        }
        out.push(coefficient_at(v, n, e as usize));
    }
    out
}

/// `X^k` times the polynomial, for `k` below `n`.
pub fn rotated(v: &Vec<i64>, n: usize, k: usize) -> (r: Vec<i64>)
    requires
        v@.len() == n,
        in_range(v@),
        k < n,
    ensures
        in_range(r@),
        are_coefficients(r@, n as int, rotate(k as int, torus_poly(n as int, v@))),
{
    let ghost f = torus_poly(n as int, v@);
    proof {
        lemma_extend(n as int, |i: int| v@[i] as int);
    }
    let mut out: Vec<i64> = Vec::new();
    while out.len() < n
        invariant
            out@.len() <= n,
            v@.len() == n,
            in_range(v@),
            k < n,
            f == torus_poly(n as int, v@),
            negacyclic(n as int, f),
            forall|x: int| 0 <= x < n ==> #[trigger] f(x) == v@[x],
            in_range(out@),
            forall|x: int| 0 <= x < out@.len() ==> #[trigger] out@[x] == rotate(k as int, f)(x),
        decreases n - out@.len(),
    {
        let x: usize = out.len();
        if x >= k {
            assert(f(x - k) == v@[x - k]);
            out.push(v[x - k]);
        } else {
            proof {
                let y = x - k;
                assert(f(y + n) == -f(y));
                assert(f(x + n - k) == v@[x + n - k]);
            }
            out.push(-v[n - (k - x)]);
        }
    }
    out
}

/// Polynomials with the same coefficients are the same.
pub proof fn lemma_same_poly(n: int, v: Seq<i64>, f: Poly)
    requires
        n >= 1,
        negacyclic(n, f),
        are_coefficients(v, n, f),
    ensures
        torus_poly(n, v) == f,
{
    let g = torus_poly(n, v);
    lemma_extend(n, |i: int| v[i] as int);
    assert forall|x: int| #[trigger] g(x) == f(x) by {
        let e = x % (2 * n);
        lemma_mod_bound(x, 2 * n);
        lemma_small_mod(e as nat, (2 * n) as nat);
        lemma_congruent_coefficients(n, f, x, e);
        lemma_congruent_coefficients(n, g, x, e);
        if e < n {
            assert(v[e] == f(e));
        } else {
            let r = e - n;
            assert(v[r] == f(r));
            assert(f(r + n) == -f(r));
            assert(g(r + n) == -g(r));
        }
    }
    assert(g =~= f);
}

/// Row `k` as it enters a tree: its image under `X -> X^p`, reversed for a first column,
/// times `X^k`.
pub open spec fn leaf_poly(n: int, p: int, reverse: bool, f: Poly, k: int) -> Poly {
    if reverse {
        rotate(k, automorphism(n, -1, automorphism(n, p, f)))
    } else {
        rotate(k, automorphism(n, p, f))
    }
}

fn leaf(row: &Vec<i64>, n: usize, p: i64, reverse: bool, k: usize) -> (r: Vec<i64>)
    requires
        ring_degree(n as int),
        row@.len() == n,
        in_range(row@),
        p != 0,
        odd(p as int),
        k < n,
    ensures
        in_range(r@),
        are_coefficients(
            r@,
            n as int,
            leaf_poly(n as int, p as int, reverse, torus_poly(n as int, row@), k as int),
        ),
{
    let ghost f = torus_poly(n as int, row@);
    proof {
        lemma_extend(n as int, |i: int| row@[i] as int);
        lemma_automorphism_negacyclic(n as int, p as int, f);
    }
    let image: Vec<i64> = automorphed(row, n, p);
    proof {
        lemma_same_poly(n as int, image@, automorphism(n as int, p as int, f));
    }
    if reverse {
        proof {
            assert(odd(-1));
            lemma_automorphism_negacyclic(n as int, -1, automorphism(n as int, p as int, f));
        }
        let back: Vec<i64> = automorphed(&image, n, -1);
        proof {
            lemma_same_poly(
                n as int,
                back@,
                automorphism(n as int, -1, automorphism(n as int, p as int, f)),
            );
        }
        rotated(&back, n, k)
    } else {
        rotated(&image, n, k)
    }
}

/// `a += b` modulo `q`, in centred form.
pub fn add_assign(a: &mut Vec<i64>, b: &Vec<i64>, q: i64)
    requires
        2 <= q <= 0x4000_0000_0000_0000,
        old(a)@.len() == b@.len(),
    ensures
        final(a)@.len() == old(a)@.len(),
        in_range(final(a)@),
        forall|x: int|
            0 <= x < old(a)@.len() ==> #[trigger] final(a)@[x] == centred_residue(
                old(a)@[x] + b@[x],
                q as int,
            ),
{
    let ghost before = a@;
    let n: usize = a.len();
    let mut x: usize = 0;
    while x < n
        invariant
            x <= n,
            n == before.len(),
            a@.len() == n,
            b@.len() == n,
            2 <= q <= 0x4000_0000_0000_0000,
            forall|i: int|
                0 <= i < x ==> #[trigger] a@[i] == centred_residue(before[i] + b@[i], q as int)
                    && -0x4000_0000_0000_0000 <= a@[i] <= 0x4000_0000_0000_0000,
            forall|i: int| x <= i < n ==> #[trigger] a@[i] == before[i],
        decreases n - x,
    {
        proof {
            lemma_centred_residue(before[x as int] + b@[x as int], q as int);
        }
        a[x] = centre_i128(a[x] as i128 + b[x] as i128, q);
        x = x + 1;
    }
}

/// Sums of residues are residues of the sum.
pub proof fn lemma_residues_add(a: Seq<i64>, b: Seq<i64>, r: Seq<i64>, n: int, q: int, f: Poly, g: Poly)
    requires
        q >= 2,
        are_residues(a, n, q, f),
        are_residues(b, n, q, g),
        r.len() == n,
        forall|x: int| 0 <= x < n ==> #[trigger] r[x] == centred_residue(a[x] + b[x], q),
    ensures
        are_residues(r, n, q, poly_add(f, g)),
{
    assert forall|x: int| 0 <= x < n implies (#[trigger] r[x] - poly_add(f, g)(x)) % q == 0 by {
        let s = a[x] + b[x];
        lemma_centred_residue(s, q);
        lemma_multiple_scales(s - r[x], -1, q);
        lemma_multiples_add(a[x] - f(x), b[x] - g(x), q);
        lemma_multiples_add(r[x] - s, s - (f(x) + g(x)), q);
    }
}

/// The centred residues of the coefficients.
pub fn centred_form(v: &Vec<i64>, n: usize, q: i64) -> (r: Vec<i64>)
    requires
        v@.len() == n,
        q >= 2,
    ensures
        r@.len() == n,
        forall|f: Poly| are_residues(v@, n as int, q as int, f) ==> #[trigger] are_centred(
            r@,
            n as int,
            q as int,
            f,
        ),
{
    let mut out: Vec<i64> = Vec::new();
    while out.len() < n
        invariant
            out@.len() <= n,
            v@.len() == n,
            q >= 2,
            forall|x: int|
                0 <= x < out@.len() ==> #[trigger] out@[x] == centred_residue(
                    v@[x] as int,
                    q as int,
                ),
        decreases n - out@.len(),
    {
        let x: usize = out.len();
        out.push(centre_i128(v[x] as i128, q));
    }
    proof {
        assert forall|f: Poly| are_residues(v@, n as int, q as int, f) implies #[trigger] are_centred(
            out@,
            n as int,
            q as int,
            f,
        ) by {
            assert forall|x: int| 0 <= x < n implies #[trigger] out@[x] == centred_residue(
                f(x),
                q as int,
            ) by {
                assert((v@[x] - f(x)) % q as int == 0);
                lemma_mod_equivalence(v@[x] as int, f(x), q as int);
                lemma_centred_residue(f(x), q as int);
            }
        }
    }
    out
}

/// The leaves of a column.
pub open spec fn leaves_of(n: int, p: int, reverse: bool, rows: spec_fn(int) -> Poly) -> spec_fn(
    int,
) -> Poly {
    |k: int| leaf_poly(n, p, reverse, rows(k), k)
}

/// Streams the leaves of all rows through a binary tree.
fn column(
    rows: &[Vec<i64>],
    n: usize,
    p: i64,
    reverse: bool,
    schedule: &Vec<usize>,
    levels: usize,
    q: i64,
) -> (r: Vec<i64>)
    requires
        ring_degree(n as int),
        rows@.len() == n,
        forall|k: int|
            0 <= k < n ==> (#[trigger] rows@[k])@.len() == n && in_range(rows@[k]@),
        p != 0,
        odd(p as int),
        n == pow2(levels as nat),
        schedule@.len() == n,
        forall|k: int|
            0 <= k < n ==> is_merge_level(k + 1, #[trigger] schedule@[k] as int, levels as int),
        2 <= q <= 0x4000_0000_0000_0000,
    ensures
        tree_run(
            empty_tree(levels as nat),
            schedule@,
            leaves_of(n as int, p as int, reverse, polys_of(n as int, rows@)),
            n as int,
        ).out matches Some(sum) ==> are_residues(r@, n as int, q as int, sum),
        r@.len() == n,
{
    let ghost leaves = leaves_of(n as int, p as int, reverse, polys_of(n as int, rows@));
    let ghost start = empty_tree(levels as nat);
    let mut tree: Vec<Vec<i64>> = Vec::new();
    while tree.len() < levels
        invariant
            tree@.len() <= levels,
            q >= 2,
            forall|j: int|
                0 <= j < tree@.len() ==> are_residues(
                    (#[trigger] tree@[j])@,
                    n as int,
                    q as int,
                    poly_zero(),
                ),
        decreases levels - tree@.len(),
    {
        let zeros: Vec<i64> = vec![0i64; n];
        proof {
            lemma_small_mod(0, q as nat);
        }
        tree.push(zeros);
    }
    let mut out: Vec<i64> = vec![0i64; n];
    let mut k: usize = 0;
    while k < n
        invariant
            k <= n,
            ring_degree(n as int),
            rows@.len() == n,
            forall|i: int|
                0 <= i < n ==> (#[trigger] rows@[i])@.len() == n && in_range(rows@[i]@),
            p != 0,
            odd(p as int),
            schedule@.len() == n,
            forall|i: int|
                0 <= i < n ==> is_merge_level(i + 1, #[trigger] schedule@[i] as int, levels as int),
            2 <= q <= 0x4000_0000_0000_0000,
            leaves == leaves_of(n as int, p as int, reverse, polys_of(n as int, rows@)),
            start == empty_tree(levels as nat),
            tree@.len() == levels,
            out@.len() == n,
            tree_run(start, schedule@, leaves, k as int).tree.len() == levels,
            forall|j: int|
                0 <= j < levels ==> are_residues(
                    (#[trigger] tree@[j])@,
                    n as int,
                    q as int,
                    tree_run(start, schedule@, leaves, k as int).tree[j],
                ),
            tree_run(start, schedule@, leaves, k as int).out matches Some(sum) ==> are_residues(
                out@,
                n as int,
                q as int,
                sum,
            ),
        decreases n - k,
    {
        let ghost state = tree_run(start, schedule@, leaves, k as int);
        let level: usize = schedule[k];
        let mut acc: Vec<i64> = leaf(&rows[k], n, p, reverse, k);
        proof {
            assert(is_merge_level(k + 1, schedule@[k as int] as int, levels as int));
            lemma_small_mod(0, q as nat);
            assert(are_residues(acc@, n as int, q as int, leaves(k as int)));
        }
        let mut j: usize = 0;
        while j < level
            invariant
                j <= level <= levels,
                tree@.len() == levels,
                2 <= q <= 0x4000_0000_0000_0000,
                acc@.len() == n,
                state.tree.len() == levels,
                forall|i: int|
                    0 <= i < levels ==> are_residues(
                        (#[trigger] tree@[i])@,
                        n as int,
                        q as int,
                        state.tree[i],
                    ),
                are_residues(
                    acc@,
                    n as int,
                    q as int,
                    merged_leaf(state.tree, leaves(k as int), j as int),
                ),
            decreases level - j,
        {
            let ghost before = acc@;
            assert(are_residues(tree@[j as int]@, n as int, q as int, state.tree[j as int]));
            add_assign(&mut acc, &tree[j], q);
            proof {
                lemma_residues_add(
                    before,
                    tree@[j as int]@,
                    acc@,
                    n as int,
                    q as int,
                    merged_leaf(state.tree, leaves(k as int), j as int),
                    state.tree[j as int],
                );
            }
            j = j + 1;
        }
        let ghost held = tree@;
        if level < levels {
            tree[level] = acc;
        } else {
            out = acc;
        }
        proof {
            let next = tree_run(start, schedule@, leaves, k + 1);
            assert forall|i: int| 0 <= i < levels implies are_residues(
                (#[trigger] tree@[i])@,
                n as int,
                q as int,
                next.tree[i],
            ) by {
                assert(are_residues(held[i]@, n as int, q as int, state.tree[i]));
            }
        }
        k = k + 1;
    }
    out
}

/// A tree that holds nothing.
pub open spec fn empty_tree(levels: nat) -> TreeState {
    TreeState { tree: Seq::new(levels, |j: int| poly_zero()), out: None }
}

/// Number of levels of a tree with `n` leaves.
pub fn tree_levels(n: usize) -> (r: usize)
    requires
        n >= 1,
        is_pow2(n as int),
    ensures
        pow2(r as nat) == n,
{
    let mut r: usize = 0;
    let mut rest: usize = n;
    let ghost mut done: int = 1;
    proof {
        vstd::arithmetic::power::lemma_pow0(2);
        lemma_pow2(0);
    }
    while rest > 1
        invariant
            rest >= 1,
            is_pow2(rest as int),
            done == pow2(r as nat),
            done * rest == n,
            r + rest <= n,
        decreases rest,
    {
        proof {
            reveal_with_fuel(is_pow2, 2);
            let h = rest as int / 2;
            assert(2 * done * h == done * rest) by (nonlinear_arith)
                requires
                    rest == 2 * h,
            ;
            lemma_pow2_unfold((r + 1) as nat);
            done = 2 * done;
        }
        rest = rest / 2;
        r = r + 1;
    }
    assert(done * 1 == done);
    r
}

/// Mask rows of a product, ready for packing: as many rows as the degree, of torus elements
/// in range.
pub open spec fn are_mask_rows(rows: Seq<Vec<i64>>, n: int) -> bool {
    rows.len() == n && forall|k: int|
        0 <= k < n ==> (#[trigger] rows[k])@.len() == n && in_range(rows[k]@)
}

/// Sums mask rows into the components that packing collapses, modulo `2^torus_bits`:
/// component `j` of the first half is that of the share `5^j`, component `j` of the second
/// half that of `-5^j`. Every row enters once per component.
pub fn aggregate_rows(rows: &[Vec<i64>], n: usize, torus_bits: usize) -> (r: Vec<Vec<i64>>)
    requires
        ring_degree(n as int),
        are_mask_rows(rows@, n as int),
        1 <= torus_bits <= 62,
    ensures
        r@.len() == n,
        forall|j: int|
            0 <= j < n / 2 ==> are_centred(
                (#[trigger] r@[j])@,
                n as int,
                pow2(torus_bits as nat) as int,
                aggregate_component(n as int, false, j, polys_of(n as int, rows@)),
            ),
        forall|j: int|
            n / 2 <= j < n ==> are_centred(
                (#[trigger] r@[j])@,
                n as int,
                pow2(torus_bits as nat) as int,
                aggregate_component(n as int, true, j - n / 2, polys_of(n as int, rows@)),
            ),
{
    let levels: usize = tree_levels(n);
    proof {
        lemma_pow2_small(torus_bits as nat);
        lemma_pow2_unfold(torus_bits as nat);
        lemma_pow2_pos((torus_bits - 1) as nat);
    }
    let q: i64 = torus_modulus_i128(torus_bits) as i64;
    let schedule: Vec<usize> = mask_tree_schedule(levels);
    let plans: Vec<MaskColumnPlan> = mask_column_plans(n);
    let half: usize = n / 2;
    let ghost polys = polys_of(n as int, rows@);
    proof {
        reveal_with_fuel(is_pow2, 2);
        assert(n == 2 * half);
    }
    let mut out: Vec<Vec<i64>> = Vec::new();
    while out.len() < n
        invariant
            out@.len() <= n,
            n == 2 * half,
            ring_degree(n as int),
            are_mask_rows(rows@, n as int),
            polys == polys_of(n as int, rows@),
            n == pow2(levels as nat),
            q == pow2(torus_bits as nat),
            2 <= q <= 0x4000_0000_0000_0000,
            schedule@.len() == n,
            forall|k: int|
                0 <= k < n ==> is_merge_level(k + 1, #[trigger] schedule@[k] as int, levels as int),
            plans@.len() == half,
            forall|j: int|
                0 <= j < half ==> (#[trigger] plans@[j]).automorphism == share_element(
                    n as int,
                    1,
                    false,
                    j,
                ),
            forall|j: int|
                0 <= j < out@.len() && j < half ==> are_centred(
                    (#[trigger] out@[j])@,
                    n as int,
                    q as int,
                    aggregate_component(n as int, false, j, polys),
                ),
            forall|j: int|
                half <= j < out@.len() ==> are_centred(
                    (#[trigger] out@[j])@,
                    n as int,
                    q as int,
                    aggregate_component(n as int, true, j - half, polys),
                ),
        decreases n - out@.len(),
    {
        let at: usize = out.len();
        let first: bool = at < half;
        let j: usize = if first {
            at
        } else {
            at - half
        };
        let plan: MaskColumnPlan = plans[j];
        proof {
            crate::packing::collapse::lemma_share_range(n as int, 1, false, j as int);
            law_columns_aggregate(
                n as int,
                levels as int,
                plan,
                schedule@,
                empty_tree(levels as nat),
                polys,
                j as int,
            );
            let p = plan.automorphism as int;
            assert((|k: int| first_leaf(n as int, plan, polys, k)) =~= leaves_of(
                n as int,
                p,
                true,
                polys,
            ));
            assert((|k: int| second_leaf(n as int, plan, polys, k)) =~= leaves_of(
                n as int,
                p,
                false,
                polys,
            ));
        }
        let component: Vec<i64> = column(
            rows,
            n,
            plan.automorphism,
            first,
            &schedule,
            levels,
            q,
        );
        out.push(centred_form(&component, n, q));
    }
    out
}

/// Half and column of a component.
pub open spec fn component_of(n: int, at: int, rows: spec_fn(int) -> Poly) -> Poly {
    if at < n / 2 {
        aggregate_component(n, false, at, rows)
    } else {
        aggregate_component(n, true, at - n / 2, rows)
    }
}

/// The components of the rows divided by their number, at `torus_bits` bits.
pub open spec fn are_components(
    n: int,
    torus_bits: int,
    rows: Seq<Vec<i64>>,
    r: Seq<Vec<i64>>,
) -> bool {
    let levels = levels_of(n) as int;
    let spare = spare_bits(levels, torus_bits);
    let d = pow2((levels - spare) as nat) as int;
    &&& r.len() == n
    &&& forall|at: int|
        0 <= at < n ==> is_rounded(
            (#[trigger] r[at])@,
            n,
            torus_bits,
            spare,
            component_of(n, at, divided_polys(n, rows, d)),
        )
}

/// Aggregates mask rows of `torus_bits` bits, those that their limbs hold, into the
/// components that packing collapses. Rows are divided by their number, which aggregation
/// multiplies by; halves are rounded up, there and where the components are rounded back to
/// `torus_bits` bits.
pub fn packing_mask_preprocessing(rows: &[Vec<i64>], n: usize, torus_bits: usize) -> (r: Vec<
    Vec<i64>,
>)
    requires
        ring_degree(n as int),
        are_mask_rows(rows@, n as int),
        1 <= torus_bits <= 62,
        torus_bits > ARITHMETIC_BITS ==> n * n <= usize::MAX,
    ensures
        are_components(n as int, torus_bits as int, rows@, r@),
{
    if torus_bits > ARITHMETIC_BITS {
        return wide_mask_preprocessing(rows, n, torus_bits);
    }
    let levels: usize = tree_levels(n);
    let spare: usize = spare(levels, torus_bits);
    proof {
        lemma_levels(n as int, levels as nat);
        lemma_division_fits(n as int, levels as int, spare as int, torus_bits as int);
    }
    let d: i64 = torus_modulus_i128(levels - spare) as i64;
    let unit: i64 = torus_modulus_i128(spare) as i64;
    let q: i64 = torus_modulus_i128(torus_bits) as i64;
    let divided: Vec<Vec<i64>> = divided_rows(rows, n, n, d);
    let sums: Vec<Vec<i64>> = aggregate_rows(divided.as_slice(), n, torus_bits + spare);
    let ghost polys = divided_polys(n as int, rows@, d as int);
    let ghost big = pow2((torus_bits + spare) as nat) as int;
    proof {
        lemma_division_fits(n as int, levels as int, spare as int, torus_bits as int);
        assert forall|at: int| 0 <= at < n implies are_centred(
            (#[trigger] sums@[at])@,
            n as int,
            big,
            component_of(n as int, at, polys),
        ) by {
            let use_tau_h = at >= n / 2;
            let j = if use_tau_h { at - n / 2 } else { at };
            let v = share_element(n as int, 1, use_tau_h, j);
            lemma_same_rows(n as int, v, n as int, polys_of(n as int, divided@), polys);
        }
    }
    let mut out: Vec<Vec<i64>> = Vec::new();
    while out.len() < n
        invariant
            out@.len() <= n,
            sums@.len() == n,
            q == pow2(torus_bits as nat),
            unit == pow2(spare as nat),
            big == pow2((torus_bits + spare) as nat),
            2 <= big <= 0x4000_0000_0000_0000,
            q >= 2,
            1 <= unit <= 0x4000_0000_0000_0000,
            forall|at: int|
                0 <= at < n ==> are_centred(
                    (#[trigger] sums@[at])@,
                    n as int,
                    big,
                    component_of(n as int, at, polys),
                ),
            forall|at: int|
                0 <= at < out@.len() ==> is_rounded(
                    (#[trigger] out@[at])@,
                    n as int,
                    torus_bits as int,
                    spare as int,
                    component_of(n as int, at, polys),
                ),
        decreases n - out@.len(),
    {
        let at: usize = out.len();
        proof {
            lemma_centred_in_range(
                sums@[at as int]@,
                n as int,
                big,
                component_of(n as int, at as int, polys),
            );
        }
        out.push(rounded_off(&sums[at], unit, q));
    }
    out
}

/// A ring whose rows fit the machine has few levels.
pub proof fn lemma_few_levels(n: int, levels: nat)
    requires
        1 <= n,
        n * n <= usize::MAX,
        pow2(levels) == n,
    ensures
        levels < 32,
        n < 0x1_0000_0000,
{
    assert(n < 0x1_0000_0000) by (nonlinear_arith)
        requires
            1 <= n,
            n * n <= usize::MAX,
            usize::MAX <= 0xffff_ffff_ffff_ffff,
    ;
    lemma2_to64();
    if levels > 32 {
        lemma_pow2_strictly_increases(32, levels);
    }
}

/// The components of one part of the rows.
fn aggregate_part(rows: &[Vec<i64>], n: usize, which: usize) -> (r: Vec<Vec<i64>>)
    requires
        ring_degree(n as int),
        are_mask_rows(rows@, n as int),
        which < 3,
    ensures
        r@.len() == n,
        forall|at: int|
            0 <= at < n ==> are_centred(
                (#[trigger] r@[at])@,
                n as int,
                pow2(62) as int,
                component_of(n as int, at, part_polys(n as int, rows@, which as int)),
            ),
{
    let parts: Vec<Vec<i64>> = part_rows(rows, n, n, which);
    let sums: Vec<Vec<i64>> = aggregate_rows(parts.as_slice(), n, 62);
    proof {
        let polys = part_polys(n as int, rows@, which as int);
        assert forall|at: int| 0 <= at < n implies are_centred(
            (#[trigger] sums@[at])@,
            n as int,
            pow2(62) as int,
            component_of(n as int, at, polys),
        ) by {
            let use_tau_h = at >= n / 2;
            let j = if use_tau_h { at - n / 2 } else { at };
            let v = share_element(n as int, 1, use_tau_h, j);
            lemma_same_rows(n as int, v, n as int, polys_of(n as int, parts@), polys);
        }
    }
    sums
}

/// Aggregates mask rows of more than 60 bits, in parts.
fn wide_mask_preprocessing(rows: &[Vec<i64>], n: usize, torus_bits: usize) -> (r: Vec<Vec<i64>>)
    requires
        ring_degree(n as int),
        are_mask_rows(rows@, n as int),
        ARITHMETIC_BITS < torus_bits <= 62,
        n * n <= usize::MAX,
    ensures
        are_components(n as int, torus_bits as int, rows@, r@),
{
    let levels: usize = tree_levels(n);
    let spare: usize = spare(levels, torus_bits);
    proof {
        lemma_levels(n as int, levels as nat);
        lemma_few_levels(n as int, levels as nat);
        lemma2_to64();
    }
    let lo: Vec<Vec<i64>> = aggregate_part(rows, n, 0);
    let mid: Vec<Vec<i64>> = aggregate_part(rows, n, 1);
    let hi: Vec<Vec<i64>> = aggregate_part(rows, n, 2);
    let ghost polys = divided_polys(n as int, rows@, 1);
    let mut out: Vec<Vec<i64>> = Vec::new();
    while out.len() < n
        invariant
            out@.len() <= n,
            2 <= n < 0x1_0000_0000,
            are_mask_rows(rows@, n as int),
            1 <= torus_bits <= 62,
            spare <= 62,
            polys == divided_polys(n as int, rows@, 1),
            lo@.len() == n,
            mid@.len() == n,
            hi@.len() == n,
            forall|at: int|
                0 <= at < n ==> are_centred(
                    (#[trigger] lo@[at])@,
                    n as int,
                    pow2(62) as int,
                    component_of(n as int, at, part_polys(n as int, rows@, 0)),
                ),
            forall|at: int|
                0 <= at < n ==> are_centred(
                    (#[trigger] mid@[at])@,
                    n as int,
                    pow2(62) as int,
                    component_of(n as int, at, part_polys(n as int, rows@, 1)),
                ),
            forall|at: int|
                0 <= at < n ==> are_centred(
                    (#[trigger] hi@[at])@,
                    n as int,
                    pow2(62) as int,
                    component_of(n as int, at, part_polys(n as int, rows@, 2)),
                ),
            forall|at: int|
                0 <= at < out@.len() ==> is_rounded(
                    (#[trigger] out@[at])@,
                    n as int,
                    torus_bits as int,
                    spare as int,
                    component_of(n as int, at, polys),
                ),
        decreases n - out@.len(),
    {
        let at: usize = out.len();
        let ghost use_tau_h = at >= n / 2;
        let ghost j = if use_tau_h { at - n as int / 2 } else { at as int };
        let ghost v = share_element(n as int, 1, use_tau_h, j);
        proof {
            lemma_joined_is_rounded(
                n as int,
                v,
                n as int,
                rows@,
                torus_bits as int,
                spare as int,
                lo@[at as int]@,
                mid@[at as int]@,
                hi@[at as int]@,
                Seq::empty(),
            );
        }
        let component: Vec<i64> = joined_off(&lo[at], &mid[at], &hi[at], torus_bits, spare);
        proof {
            lemma_joined_is_rounded(
                n as int,
                v,
                n as int,
                rows@,
                torus_bits as int,
                spare as int,
                lo@[at as int]@,
                mid@[at as int]@,
                hi@[at as int]@,
                component@,
            );
        }
        out.push(component);
    }
    out
}

/// Centred residues are in range.
pub proof fn lemma_centred_in_range(v: Seq<i64>, n: int, q: int, f: Poly)
    requires
        2 <= q <= 0x4000_0000_0000_0000,
        are_centred(v, n, q, f),
    ensures
        in_range(v),
{
    assert forall|x: int| 0 <= x < v.len() implies -0x4000_0000_0000_0000 <= #[trigger] v[x]
        <= 0x4000_0000_0000_0000 by {
        lemma_centred_residue(f(x), q);
    }
}

/// Divisors and moduli of a division fit a signed word.
pub proof fn lemma_division_fits(n: int, levels: int, spare: int, torus_bits: int)
    requires
        1 <= n <= i64::MAX,
        levels >= 0,
        pow2(levels as nat) == n,
        1 <= torus_bits <= ARITHMETIC_BITS,
        spare == spare_bits(levels, torus_bits),
    ensures
        0 <= spare <= levels,
        levels - spare <= 62,
        torus_bits + spare <= 60,
        1 <= pow2((levels - spare) as nat) <= 0x4000_0000_0000_0000,
        1 <= pow2(spare as nat) <= 0x4000_0000_0000_0000,
        2 <= pow2((torus_bits + spare) as nat) <= 0x4000_0000_0000_0000,
        2 <= pow2(torus_bits as nat) <= 0x4000_0000_0000_0000,
{
    if levels >= 63 {
        lemma2_to64();
        lemma2_to64_rest();
        if levels > 63 {
            lemma_pow2_strictly_increases(63, levels as nat);
        }
        assert(false);
    }
    lemma_pow2_small((levels - spare) as nat);
    lemma_pow2_small(spare as nat);
    lemma_pow2_small((torus_bits + spare) as nat);
    lemma_pow2_small(torus_bits as nat);
    lemma_pow2_pos((levels - spare) as nat);
    lemma_pow2_pos(spare as nat);
    lemma_pow2_unfold((torus_bits + spare) as nat);
    lemma_pow2_pos((torus_bits + spare - 1) as nat);
    lemma_pow2_unfold(torus_bits as nat);
    lemma_pow2_pos((torus_bits - 1) as nat);
}

/// Components depend on the rows that they sum, and on no others.
pub proof fn lemma_same_rows(
    n: int,
    v: int,
    count: int,
    rows: spec_fn(int) -> Poly,
    others: spec_fn(int) -> Poly,
)
    requires
        forall|k: int| 0 <= k < count ==> #[trigger] rows(k) == others(k),
    ensures
        viewed_rows(n, v, count, rows) == viewed_rows(n, v, count, others),
{
    let f = |k: int| rotate(k, automorphism(n, v, reversed(n, rows(k))));
    let g = |k: int| rotate(k, automorphism(n, v, reversed(n, others(k))));
    assert forall|k: int| 0 <= k < count implies #[trigger] f(k) == g(k) by {
        assert(rows(k) == others(k));
    }
    lemma_poly_sum_congruent(0, count, f, g);
}

} // verus!
