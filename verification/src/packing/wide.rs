//! Sums of mask rows of more than 60 bits.
//!
//! Rows that wide are divided by their number without rounding, so that their sums take more
//! than a word. They are cut into three parts of 21 bits, whose sums are exact, and put
//! together again where the components are rounded back.

use vstd::prelude::*;
use vstd::arithmetic::div_mod::*;
use vstd::arithmetic::power2::*;
use crate::arith::lemma_quotient;
use crate::encoding::{
    centre_i128, centred_residue, lemma_centred_congruent, lemma_centred_residue,
};
use crate::interpolation::{extend, polys_of};
use crate::packing::aggregate::{are_centred, in_range};
use crate::packing::divide::{
    divided_polys, is_rounded, law_nearest_is_near, lemma_same_extension, nearest,
};
use crate::packing::trace::{lemma_poly_sum_at, reversed, viewed_rows};
use crate::ring::{automorphism, rotate, unit_inverse, Poly};
use crate::server::product::torus_modulus_i128;
use crate::sums::{
    int_sum, lemma_int_sum_add, lemma_int_sum_bound, lemma_int_sum_congruent, lemma_int_sum_scale,
};

verus! {

/// Part `which` of a value: 21 bits each, and what is above them.
pub open spec fn part(v: int, which: int) -> int {
    if which == 0 {
        v % 0x20_0000
    } else if which == 1 {
        (v / 0x20_0000) % 0x20_0000
    } else {
        v / 0x400_0000_0000
    }
}

proof fn lemma_parts(v: int)
    requires
        -0x4000_0000_0000_0000 <= v <= 0x4000_0000_0000_0000,
    ensures
        v == 0x400_0000_0000 * part(v, 2) + 0x20_0000 * part(v, 1) + part(v, 0),
        0 <= part(v, 0) < 0x20_0000,
        0 <= part(v, 1) < 0x20_0000,
        -0x20_0000 < part(v, 2) < 0x20_0000,
{
    let a: int = v / 0x20_0000;
    let r: int = v % 0x20_0000;
    let b: int = a / 0x20_0000;
    let t: int = a % 0x20_0000;
    assert(v == 0x20_0000 * a + r);
    assert(a == 0x20_0000 * b + t);
    lemma_quotient(v, 0x400_0000_0000, b, 0x20_0000 * t + r);
}

fn part_of(v: i64, which: usize) -> (r: i64)
    requires
        -0x4000_0000_0000_0000 <= v <= 0x4000_0000_0000_0000,
        which < 3,
    ensures
        r == part(v as int, which as int),
        -0x20_0000 < r < 0x20_0000,
{
    proof {
        lemma_parts(v as int);
    }
    let high: i64 = match (v as i128).checked_div_euclid(0x400_0000_0000) {
        Some(y) => y as i64,
        None => 0,
    };
    if which == 2 {
        return high;
    }
    let rest: i64 = v - high * 0x400_0000_0000;
    proof {
        let (m, l) = (part(v as int, 1), part(v as int, 0));
        assert(rest == 0x20_0000 * m + l);
        lemma_quotient(rest as int, 0x20_0000, m, l);
    }
    if which == 1 {
        rest / 0x20_0000
    } else {
        rest % 0x20_0000
    }
}

/// One part of every row.
pub open spec fn part_polys(n: int, rows: Seq<Vec<i64>>, which: int) -> spec_fn(int) -> Poly {
    |k: int| extend(n, |x: int| part(rows[k]@[x] as int, which))
}

/// One part of the first `count` rows.
pub fn part_rows(rows: &[Vec<i64>], count: usize, n: usize, which: usize) -> (r: Vec<Vec<i64>>)
    requires
        n >= 1,
        which < 3,
        count <= rows@.len(),
        forall|k: int| 0 <= k < count ==> (#[trigger] rows@[k])@.len() == n && in_range(rows@[k]@),
    ensures
        r@.len() == count,
        forall|k: int| 0 <= k < count ==> (#[trigger] r@[k])@.len() == n && in_range(r@[k]@),
        forall|k: int|
            0 <= k < count ==> #[trigger] polys_of(n as int, r@)(k) == part_polys(
                n as int,
                rows@,
                which as int,
            )(k),
{
    let mut out: Vec<Vec<i64>> = Vec::new();
    while out.len() < count
        invariant
            out@.len() <= count,
            which < 3,
            count <= rows@.len(),
            forall|k: int|
                0 <= k < count ==> (#[trigger] rows@[k])@.len() == n && in_range(rows@[k]@),
            forall|k: int|
                0 <= k < out@.len() ==> (#[trigger] out@[k])@.len() == n && in_range(out@[k]@),
            forall|k: int, x: int|
                0 <= k < out@.len() && 0 <= x < n ==> #[trigger] out@[k]@[x] == part(
                    rows@[k]@[x] as int,
                    which as int,
                ),
        decreases count - out@.len(),
    {
        let k: usize = out.len();
        assert(in_range(rows@[k as int]@));
        let mut row: Vec<i64> = Vec::new();
        while row.len() < n
            invariant
                row@.len() <= n,
                k < rows@.len(),
                rows@[k as int]@.len() == n,
                in_range(rows@[k as int]@),
                which < 3,
                in_range(row@),
                forall|x: int|
                    0 <= x < row@.len() ==> #[trigger] row@[x] == part(
                        rows@[k as int]@[x] as int,
                        which as int,
                    ),
            decreases n - row@.len(),
        {
            let x: usize = row.len();
            row.push(part_of(rows[k][x], which));
        }
        out.push(row);
    }
    proof {
        assert forall|k: int| 0 <= k < count implies #[trigger] polys_of(n as int, out@)(k)
            == part_polys(n as int, rows@, which as int)(k) by {
            let f = |x: int| out@[k]@[x] as int;
            let g = |x: int| part(rows@[k]@[x] as int, which as int);
            assert forall|x: int| 0 <= x < n implies #[trigger] f(x) == g(x) by {
                assert(out@[k]@[x] == part(rows@[k]@[x] as int, which as int));
            }
            lemma_same_extension(n as int, f, g);
        }
    }
    out
}

/// Coefficient `x` of a sum of viewed rows, as a sum over the rows.
proof fn lemma_viewed_at(n: int, v: int, count: int, rows: spec_fn(int) -> Poly, x: int)
    ensures
        viewed_rows(n, v, count, rows)(x) == int_sum(
            0,
            count,
            |k: int| rows(k)(((x - k) * unit_inverse(v, 2 * n)) * unit_inverse(-1, 2 * n)),
        ),
{
    let f = |k: int| rotate(k, automorphism(n, v, reversed(n, rows(k))));
    lemma_poly_sum_at(0, count, f, x);
    lemma_int_sum_congruent(
        0,
        count,
        |k: int| f(k)(x),
        |k: int| rows(k)(((x - k) * unit_inverse(v, 2 * n)) * unit_inverse(-1, 2 * n)),
    );
}

/// The sums of the parts make up the sums of the rows, and each is small.
proof fn lemma_parts_add_up(n: int, v: int, count: int, rows: Seq<Vec<i64>>, x: int)
    requires
        n >= 1,
        0 <= count,
        forall|k: int| 0 <= k < count ==> (#[trigger] rows[k])@.len() == n && in_range(rows[k]@),
    ensures
        viewed_rows(n, v, count, divided_polys(n, rows, 1))(x) == 0x400_0000_0000 * viewed_rows(
            n,
            v,
            count,
            part_polys(n, rows, 2),
        )(x) + 0x20_0000 * viewed_rows(n, v, count, part_polys(n, rows, 1))(x) + viewed_rows(
            n,
            v,
            count,
            part_polys(n, rows, 0),
        )(x),
        forall|which: int|
            0 <= which < 3 ==> -(count * 0x20_0000) <= (#[trigger] viewed_rows(
                n,
                v,
                count,
                part_polys(n, rows, which),
            ))(x) <= count * 0x20_0000,
{
    let at = |k: int| ((x - k) * unit_inverse(v, 2 * n)) * unit_inverse(-1, 2 * n);
    let whole = |k: int| divided_polys(n, rows, 1)(k)(at(k));
    let lo = |k: int| part_polys(n, rows, 0)(k)(at(k));
    let mid = |k: int| part_polys(n, rows, 1)(k)(at(k));
    let hi = |k: int| part_polys(n, rows, 2)(k)(at(k));
    lemma_viewed_at(n, v, count, divided_polys(n, rows, 1), x);
    lemma_int_sum_congruent(
        0,
        count,
        whole,
        |k: int|
            divided_polys(n, rows, 1)(k)(
                ((x - k) * unit_inverse(v, 2 * n)) * unit_inverse(-1, 2 * n),
            ),
    );
    let (hi_mid, small) = (
        |k: int| 0x400_0000_0000 * hi(k) + 0x20_0000 * mid(k),
        |k: int| 0x20_0000 * mid(k),
    );
    let large = |k: int| 0x400_0000_0000 * hi(k);
    let joined = |k: int| hi_mid(k) + lo(k);
    assert forall|k: int| 0 <= k < count implies {
        &&& #[trigger] whole(k) == joined(k)
        &&& -0x20_0000 <= lo(k) <= 0x20_0000
        &&& -0x20_0000 <= mid(k) <= 0x20_0000
        &&& -0x20_0000 <= hi(k) <= 0x20_0000
    } by {
        let e = at(k) % (2 * n);
        lemma_mod_bound(at(k), 2 * n);
        let y = if e < n { e } else { e - n };
        let row = rows[k]@;
        assert(row.len() == n && in_range(row));
        assert(-0x4000_0000_0000_0000 <= row[y] <= 0x4000_0000_0000_0000);
        lemma_parts(row[y] as int);
        law_nearest_is_near(row[y] as int, 1);
    }
    assert forall|k: int| 0 <= k < count implies -0x20_0000 <= #[trigger] lo(k) <= 0x20_0000 by {
        assert(whole(k) == joined(k));
    }
    assert forall|k: int| 0 <= k < count implies -0x20_0000 <= #[trigger] mid(k) <= 0x20_0000 by {
        assert(whole(k) == joined(k));
    }
    assert forall|k: int| 0 <= k < count implies -0x20_0000 <= #[trigger] hi(k) <= 0x20_0000 by {
        assert(whole(k) == joined(k));
    }
    lemma_int_sum_bound(0, count, 0x20_0000, lo);
    lemma_int_sum_bound(0, count, 0x20_0000, mid);
    lemma_int_sum_bound(0, count, 0x20_0000, hi);
    lemma_int_sum_congruent(0, count, whole, joined);
    lemma_int_sum_add(0, count, hi_mid, lo);
    lemma_int_sum_congruent(0, count, joined, |k: int| hi_mid(k) + lo(k));
    lemma_int_sum_add(0, count, large, small);
    lemma_int_sum_congruent(0, count, hi_mid, |k: int| large(k) + small(k));
    lemma_int_sum_scale(0, count, 0x400_0000_0000, hi);
    lemma_int_sum_congruent(0, count, large, |k: int| 0x400_0000_0000 * hi(k));
    lemma_int_sum_scale(0, count, 0x20_0000, mid);
    lemma_int_sum_congruent(0, count, small, |k: int| 0x20_0000 * mid(k));
    assert forall|which: int| 0 <= which < 3 implies -(count * 0x20_0000) <= (
    #[trigger] viewed_rows(n, v, count, part_polys(n, rows, which)))(x) <= count * 0x20_0000 by {
        lemma_part_at(n, v, count, rows, which, x, if which == 0 {
            lo
        } else if which == 1 {
            mid
        } else {
            hi
        });
    }
    lemma_part_at(n, v, count, rows, 0, x, lo);
    lemma_part_at(n, v, count, rows, 1, x, mid);
    lemma_part_at(n, v, count, rows, 2, x, hi);
}

proof fn lemma_part_at(
    n: int,
    v: int,
    count: int,
    rows: Seq<Vec<i64>>,
    which: int,
    x: int,
    f: spec_fn(int) -> int,
)
    requires
        forall|k: int| #[trigger]
            f(k) == part_polys(n, rows, which)(k)(
                ((x - k) * unit_inverse(v, 2 * n)) * unit_inverse(-1, 2 * n),
            ),
    ensures
        viewed_rows(n, v, count, part_polys(n, rows, which))(x) == int_sum(0, count, f),
{
    lemma_viewed_at(n, v, count, part_polys(n, rows, which), x);
    lemma_int_sum_congruent(
        0,
        count,
        f,
        |k: int|
            part_polys(n, rows, which)(k)(
                ((x - k) * unit_inverse(v, 2 * n)) * unit_inverse(-1, 2 * n),
            ),
    );
}

/// Rounding does not see whole turns of the torus.
proof fn lemma_round_turns(f: int, bits: nat, spare: nat)
    requires
        bits >= 1,
    ensures
        centred_residue(
            nearest(centred_residue(f, pow2(bits + spare) as int), pow2(spare) as int),
            pow2(bits) as int,
        ) == centred_residue(nearest(f, pow2(spare) as int), pow2(bits) as int),
{
    let (big, unit, q) = (pow2(bits + spare) as int, pow2(spare) as int, pow2(bits) as int);
    lemma_pow2_adds(bits, spare);
    lemma_pow2_pos(spare);
    lemma_pow2_unfold(bits);
    lemma_pow2_pos((bits - 1) as nat);
    assert(big == q * unit);
    assert(big >= 2) by (nonlinear_arith)
        requires
            big == q * unit,
            q >= 2,
            unit >= 1,
    ;
    let c = centred_residue(f, big);
    lemma_centred_residue(f, big);
    lemma_fundamental_div_mod(f - c, big);
    let m = (f - c) / big;
    // Both are rounded alike, `m * q` apart.
    lemma_fundamental_div_mod(c + unit / 2, unit);
    lemma_mod_bound(c + unit / 2, unit);
    let a = (c + unit / 2) / unit;
    let r = (c + unit / 2) % unit;
    assert(f + unit / 2 == unit * (a + m * q) + r) by (nonlinear_arith)
        requires
            f - c == big * m + 0,
            big == q * unit,
            c + unit / 2 == unit * a + r,
    ;
    lemma_quotient(f + unit / 2, unit, a + m * q, r);
    lemma_centred_congruent(a, m, q);
}

/// Coefficients of the sums of parts.
pub open spec fn are_part_sums(v: Seq<i64>) -> bool {
    forall|x: int|
        0 <= x < v.len() ==> -0x20_0000_0000_0000 <= #[trigger] v[x] <= 0x20_0000_0000_0000
}

/// The value of a coefficient whose parts sum to these.
pub open spec fn joined(lo: Seq<i64>, mid: Seq<i64>, hi: Seq<i64>, x: int) -> int {
    0x400_0000_0000 * hi[x] + 0x20_0000 * mid[x] + lo[x]
}

/// Puts the sums of the parts together, and rounds them back to `bits` bits.
pub fn joined_off(lo: &Vec<i64>, mid: &Vec<i64>, hi: &Vec<i64>, bits: usize, spare: usize) -> (r:
    Vec<i64>)
    requires
        1 <= bits <= 62,
        spare <= 62,
        mid@.len() == lo@.len(),
        hi@.len() == lo@.len(),
        are_part_sums(lo@),
        are_part_sums(mid@),
        are_part_sums(hi@),
    ensures
        r@.len() == lo@.len(),
        forall|x: int|
            0 <= x < lo@.len() ==> #[trigger] r@[x] == centred_residue(
                nearest(joined(lo@, mid@, hi@, x), pow2(spare as nat) as int),
                pow2(bits as nat) as int,
            ),
{
    let q: i64 = torus_modulus_i128(bits) as i64;
    let unit: i128 = torus_modulus_i128(spare);
    let total: usize = lo.len();
    let mut out: Vec<i64> = Vec::new();
    while out.len() < total
        invariant
            out@.len() <= total,
            total == lo@.len(),
            mid@.len() == lo@.len(),
            hi@.len() == lo@.len(),
            are_part_sums(lo@),
            are_part_sums(mid@),
            are_part_sums(hi@),
            q == pow2(bits as nat),
            q >= 2,
            unit == pow2(spare as nat),
            1 <= unit <= 0x4000_0000_0000_0000,
            forall|x: int|
                0 <= x < out@.len() ==> #[trigger] out@[x] == centred_residue(
                    nearest(joined(lo@, mid@, hi@, x), unit as int),
                    q as int,
                ),
        decreases total - out@.len(),
    {
        let x: usize = out.len();
        let high: i64 = hi[x];
        let middle: i64 = mid[x];
        let low: i64 = lo[x];
        let sum: i128 = 0x400_0000_0000i128 * high as i128 + 0x20_0000i128 * middle as i128
            + low as i128;
        proof {
            assert(sum == joined(lo@, mid@, hi@, x as int));
            let m: int = 0x4000_0000_0000_0000_0000_0000_0000;
            let (near, total, d) = (nearest(sum as int, unit as int), sum as int, unit as int);
            law_nearest_is_near(total, d);
            assert(-m <= near <= m) by (nonlinear_arith)
                requires
                    -d <= 2 * (d * near - total) <= d,
                    d >= 1,
                    d == 1 ==> near == total,
                    -m <= total <= m,
                    m >= 1,
            ;
        }
        let near: i128 = match (sum + unit / 2).checked_div_euclid(unit) {
            Some(y) => y,
            None => 0,
        };
        assert(near == nearest(sum as int, unit as int));
        out.push(centre_i128(near, q));
    }
    out
}

/// Rows of more than 60 bits are rounded once, where the sums of their parts are put
/// together.
pub proof fn lemma_joined_is_rounded(
    n: int,
    v: int,
    count: int,
    rows: Seq<Vec<i64>>,
    bits: int,
    spare: int,
    lo: Seq<i64>,
    mid: Seq<i64>,
    hi: Seq<i64>,
    r: Seq<i64>,
)
    requires
        n >= 1,
        1 <= bits,
        0 <= spare,
        0 <= count <= 0x1_0000_0000,
        forall|k: int| 0 <= k < count ==> (#[trigger] rows[k])@.len() == n && in_range(rows[k]@),
        are_centred(lo, n, pow2(62) as int, viewed_rows(n, v, count, part_polys(n, rows, 0))),
        are_centred(mid, n, pow2(62) as int, viewed_rows(n, v, count, part_polys(n, rows, 1))),
        are_centred(hi, n, pow2(62) as int, viewed_rows(n, v, count, part_polys(n, rows, 2))),
    ensures
        are_part_sums(lo),
        are_part_sums(mid),
        are_part_sums(hi),
        r.len() == n && (forall|x: int|
            0 <= x < n ==> #[trigger] r[x] == centred_residue(
                nearest(joined(lo, mid, hi, x), pow2(spare as nat) as int),
                pow2(bits as nat) as int,
            )) ==> is_rounded(
            r,
            n,
            bits,
            spare,
            viewed_rows(n, v, count, divided_polys(n, rows, 1)),
        ),
{
    let whole = viewed_rows(n, v, count, divided_polys(n, rows, 1));
    let big = pow2(62) as int;
    assert(big == 0x4000_0000_0000_0000) by {
        lemma2_to64_rest();
    }
    assert(count * 0x20_0000 <= 0x20_0000_0000_0000);
    assert forall|x: int| 0 <= x < n implies {
        &&& -0x20_0000_0000_0000 <= #[trigger] lo[x] <= 0x20_0000_0000_0000
        &&& -0x20_0000_0000_0000 <= mid[x] <= 0x20_0000_0000_0000
        &&& -0x20_0000_0000_0000 <= hi[x] <= 0x20_0000_0000_0000
        &&& joined(lo, mid, hi, x) == whole(x)
        &&& centred_residue(
            nearest(
                centred_residue(whole(x), pow2((bits + spare) as nat) as int),
                pow2(spare as nat) as int,
            ),
            pow2(bits as nat) as int,
        ) == centred_residue(nearest(whole(x), pow2(spare as nat) as int), pow2(bits as nat) as int)
    } by {
        lemma_parts_add_up(n, v, count, rows, x);
        let a = viewed_rows(n, v, count, part_polys(n, rows, 0))(x);
        let b = viewed_rows(n, v, count, part_polys(n, rows, 1))(x);
        let c = viewed_rows(n, v, count, part_polys(n, rows, 2))(x);
        lemma_centred_residue(a, big);
        lemma_centred_residue(b, big);
        lemma_centred_residue(c, big);
        assert(lo[x] == centred_residue(a, big));
        assert(mid[x] == centred_residue(b, big));
        assert(hi[x] == centred_residue(c, big));
        lemma_round_turns(whole(x), bits as nat, spare as nat);
    }
    assert forall|x: int| 0 <= x < mid.len() implies -0x20_0000_0000_0000 <= #[trigger] mid[x]
        <= 0x20_0000_0000_0000 by {
        assert(lo[x] <= 0x20_0000_0000_0000);
    }
    assert forall|x: int| 0 <= x < hi.len() implies -0x20_0000_0000_0000 <= #[trigger] hi[x]
        <= 0x20_0000_0000_0000 by {
        assert(lo[x] <= 0x20_0000_0000_0000);
    }
    if r.len() == n && (forall|x: int|
        0 <= x < n ==> #[trigger] r[x] == centred_residue(
            nearest(joined(lo, mid, hi, x), pow2(spare as nat) as int),
            pow2(bits as nat) as int,
        )) {
        assert forall|x: int| 0 <= x < n implies #[trigger] r[x] == centred_residue(
            nearest(
                centred_residue(whole(x), pow2((bits + spare) as nat) as int),
                pow2(spare as nat) as int,
            ),
            pow2(bits as nat) as int,
        ) by {
            assert(lo[x] <= 0x20_0000_0000_0000);
        }
    }
}

} // verus!
