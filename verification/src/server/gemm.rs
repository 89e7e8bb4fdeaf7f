//! Dense products in exact torus arithmetic, divided among workers.
//!
//! Torus elements are residues modulo `2^torus_bits`. However a product is divided, every
//! output is the same sum.

use vstd::prelude::*;
use vstd::arithmetic::div_mod::*;
use vstd::arithmetic::power2::{lemma_pow2_pos, lemma_pow2_unfold, pow2};
use crate::arith::{lemma_div_ceil, lemma_quotient, spec_div_ceil};
use crate::encoding::{
    centre_i128, centred_residue, lemma_centred_congruent, lemma_centred_residue, lemma_pow2_small,
    lemma_rounded, limbs_bounded, limbs_fit, limbs_hold, round_limbs, rounded,
};
use crate::limbs::LimbVec;
use crate::matrix::{lemma_flat_index, lemma_flat_index_injective, CoeffMatrix};
use crate::parallel::{law_even_split, part_start};
use crate::packing::recursion::coefficient_limbs;
use crate::payload::Payload;
use crate::server::product::{
    accumulate, blocks_dot, bodies_of, body_plan, is_even_split, law_tiles_cover_once,
    lemma_mod_sum, lemma_mod_twice, mask_plan, row_dot, spec_band, spec_tile, torus_modulus_i128,
    BodyTile, MaskPlan, MaskSplit,
};
use crate::store::Database;
use crate::sums::int_sum;

verus! {

/// Sum of the first `upto` products of row `row` of `u` with column `c` of a matrix of
/// `width` columns stored row after row.
pub open spec fn col_dot(
    u: CoeffMatrix,
    row: int,
    rhs: Seq<i64>,
    width: int,
    c: int,
    upto: nat,
) -> int
    decreases upto,
{
    if upto == 0 {
        0
    } else {
        col_dot(u, row, rhs, width, c, (upto - 1) as nat) + u.entry(row, upto - 1) * rhs[(upto - 1)
            * width + c]
    }
}

/// A query mask as torus integers, stored row after row.
#[derive(Debug)]
pub struct QueryMask {
    pub rows: usize,
    pub cols: usize,
    pub values: Vec<i64>,
}

impl QueryMask {
    pub open spec fn wf(self) -> bool {
        self.values@.len() == self.rows * self.cols
    }
}

/// Sum over the blocks `lo .. hi` of the products of row `row` with column `c` of their
/// masks.
pub open spec fn range_dot(
    us: Seq<CoeffMatrix>,
    masks: Seq<QueryMask>,
    row: int,
    c: int,
    lo: int,
    hi: int,
) -> int
    decreases hi - lo,
{
    if hi <= lo {
        0
    } else {
        range_dot(us, masks, row, c, lo, hi - 1) + col_dot(
            us[hi - 1],
            row,
            masks[hi - 1].values@,
            masks[hi - 1].cols as int,
            c,
            us[hi - 1].rows_in as nat,
        )
    }
}

proof fn lemma_range_join(
    us: Seq<CoeffMatrix>,
    masks: Seq<QueryMask>,
    row: int,
    c: int,
    lo: int,
    mid: int,
    hi: int,
)
    requires
        lo <= mid <= hi,
    ensures
        range_dot(us, masks, row, c, lo, hi) == range_dot(us, masks, row, c, lo, mid) + range_dot(
            us,
            masks,
            row,
            c,
            mid,
            hi,
        ),
    decreases hi - mid,
{
    if mid < hi {
        lemma_range_join(us, masks, row, c, lo, mid, hi - 1);
    }
}

/// Every entry of `buffer`, a matrix of `width` columns, is the residue that `f` gives.
pub open spec fn holds_residues(
    buffer: Seq<i128>,
    rows: int,
    width: int,
    modulus: int,
    f: spec_fn(int, int) -> int,
) -> bool {
    buffer.len() == rows * width && forall|r: int, c: int|
        0 <= r < rows && 0 <= c < width ==> #[trigger] buffer[r * width + c] == f(r, c) % modulus
}

/// One output of a product: `start` plus row `row` of `u` times column `c` of `rhs`.
fn accumulate_column(
    start: i128,
    u: &CoeffMatrix,
    row: usize,
    rhs: &[i64],
    width: usize,
    c: usize,
    modulus: i128,
) -> (r: i128)
    requires
        u.wf(),
        row < u.rows_out,
        c < width,
        rhs@.len() == u.rows_in * width,
        1 <= modulus <= 0x4000_0000_0000_0000,
        0 <= start < modulus,
    ensures
        r == (start + col_dot(*u, row as int, rhs@, width as int, c as int, u.rows_in as nat)) % (
        modulus as int),
        0 <= r < modulus,
{
    let total: usize = rhs.len();
    let mut acc: i128 = start;
    let mut j: usize = 0;
    proof {
        lemma_small_mod(start as nat, modulus as nat);
    }
    while j < u.rows_in
        invariant
            j <= u.rows_in,
            u.wf(),
            row < u.rows_out,
            c < width,
            total == rhs@.len(),
            rhs@.len() == u.rows_in * width,
            1 <= modulus <= 0x4000_0000_0000_0000,
            0 <= acc < modulus,
            acc == (start + col_dot(*u, row as int, rhs@, width as int, c as int, j as nat)) % (
            modulus as int),
        decreases u.rows_in - j,
    {
        proof {
            lemma_flat_index(j as int, c as int, u.rows_in as int, width as int);
        }
        let x: i16 = u.at(row, j);
        let y: i64 = rhs[j * width + c];
        proof {
            lemma_mod_sum(
                start + col_dot(*u, row as int, rhs@, width as int, c as int, j as nat),
                x * y,
                modulus as int,
            );
        }
        acc = accumulate(acc, x, y, modulus);
        j = j + 1;
    }
    acc
}

/// `dst += u * rhs` modulo `modulus`, for output rows `first .. first + rows` of `u`.
pub fn gemm_add(
    dst: &mut Vec<i128>,
    u: &CoeffMatrix,
    first: usize,
    rows: usize,
    rhs: &[i64],
    width: usize,
    modulus: i128,
)
    requires
        u.wf(),
        first + rows <= u.rows_out,
        rhs@.len() == u.rows_in * width,
        old(dst)@.len() == rows * width,
        1 <= modulus <= 0x4000_0000_0000_0000,
        forall|i: int| 0 <= i < old(dst)@.len() ==> 0 <= #[trigger] old(dst)@[i] < modulus,
    ensures
        final(dst)@.len() == rows * width,
        forall|i: int| 0 <= i < final(dst)@.len() ==> 0 <= #[trigger] final(dst)@[i] < modulus,
        forall|r: int, c: int|
            0 <= r < rows && 0 <= c < width ==> #[trigger] final(dst)@[r * width + c] == (old(
                dst,
            )@[r * width + c] + col_dot(*u, first + r, rhs@, width as int, c, u.rows_in as nat)) % (
            modulus as int),
{
    let ghost before = dst@;
    let total: usize = dst.len();
    let mut i: usize = 0;
    while i < total
        invariant
            i <= total,
            total == rows * width,
            u.wf(),
            first + rows <= u.rows_out,
            rhs@.len() == u.rows_in * width,
            before.len() == total,
            dst@.len() == total,
            1 <= modulus <= 0x4000_0000_0000_0000,
            forall|k: int| 0 <= k < total ==> 0 <= #[trigger] dst@[k] < modulus,
            forall|k: int| i <= k < total ==> #[trigger] dst@[k] == before[k],
            forall|k: int|
                0 <= k < i ==> #[trigger] dst@[k] == (before[k] + col_dot(
                    *u,
                    first + k / width as int,
                    rhs@,
                    width as int,
                    k % width as int,
                    u.rows_in as nat,
                )) % (modulus as int),
        decreases total - i,
    {
        proof {
            assert(width >= 1) by (nonlinear_arith)
                requires
                    0 <= i < rows * width,
                    width >= 0,
            ;
            lemma_parts(i as int, rows as int, width as int);
        }
        let r: usize = i / width;
        let c: usize = i % width;
        let x: i128 = accumulate_column(dst[i], u, first + r, rhs, width, c, modulus);
        dst[i] = x;
        i = i + 1;
    }
    proof {
        assert forall|r: int, c: int| 0 <= r < rows && 0 <= c < width implies #[trigger] dst@[r
            * width + c] == (before[r * width + c] + col_dot(
            *u,
            first + r,
            rhs@,
            width as int,
            c,
            u.rows_in as nat,
        )) % (modulus as int) by {
            lemma_flat_index(r, c, rows as int, width as int);
            lemma_quotient(r * width + c, width as int, r, c);
        }
    }
}

pub proof fn lemma_parts(i: int, rows: int, width: int)
    requires
        0 <= i < rows * width,
        width >= 1,
    ensures
        0 <= i / width < rows,
        0 <= i % width < width,
        i == (i / width) * width + i % width,
{
    lemma_fundamental_div_mod(i, width);
    lemma_mod_pos_bound(i, width);
    lemma_div_pos_is_pos(i, width);
    let q = i / width;
    assert(width * q == q * width) by (nonlinear_arith);
    assert(q < rows) by (nonlinear_arith)
        requires
            i == q * width + i % width,
            i < rows * width,
            i % width >= 0,
            width >= 1,
    ;
}

/// Blocks and masks of a mask product with `rows_out` rows and `lwe_n` columns.
pub open spec fn product_shape(
    us: Seq<CoeffMatrix>,
    masks: Seq<QueryMask>,
    rows_out: int,
    lwe_n: int,
) -> bool {
    &&& us.len() == masks.len()
    &&& us.len() >= 1
    &&& forall|b: int|
        0 <= b < us.len() ==> {
            &&& (#[trigger] us[b]).wf()
            &&& us[b].rows_out == rows_out
            &&& masks[b].wf()
            &&& masks[b].cols == lwe_n
            &&& masks[b].rows == us[b].rows_in
        }
}

fn zeros(len: usize) -> (r: Vec<i128>)
    ensures
        r@.len() == len,
        forall|i: int| 0 <= i < len ==> #[trigger] r@[i] == 0,
{
    vec![0i128; len]
}

/// Adds the products of the blocks `lo .. hi` to a buffer of zeros, in order.
fn accumulate_mask_range(
    us: &[CoeffMatrix],
    masks: &[QueryMask],
    rows_out: usize,
    lwe_n: usize,
    lo: usize,
    hi: usize,
    modulus: i128,
) -> (r: Vec<i128>)
    requires
        product_shape(us@, masks@, rows_out as int, lwe_n as int),
        lo <= hi <= us@.len(),
        rows_out * lwe_n <= usize::MAX,
        1 <= modulus <= 0x4000_0000_0000_0000,
    ensures
        forall|i: int| 0 <= i < r@.len() ==> 0 <= #[trigger] r@[i] < modulus,
        holds_residues(
            r@,
            rows_out as int,
            lwe_n as int,
            modulus as int,
            |row: int, c: int| range_dot(us@, masks@, row, c, lo as int, hi as int),
        ),
{
    let mut acc: Vec<i128> = zeros(rows_out * lwe_n);
    let mut b: usize = lo;
    proof {
        lemma_small_mod(0, modulus as nat);
        assert forall|row: int, c: int|
            0 <= row < rows_out && 0 <= c < lwe_n implies #[trigger] acc@[row * lwe_n + c]
            == range_dot(us@, masks@, row, c, lo as int, lo as int) % (modulus as int) by {
            lemma_flat_index(row, c, rows_out as int, lwe_n as int);
        }
    }
    while b < hi
        invariant
            product_shape(us@, masks@, rows_out as int, lwe_n as int),
            lo <= b <= hi <= us@.len(),
            1 <= modulus <= 0x4000_0000_0000_0000,
            acc@.len() == rows_out * lwe_n,
            forall|i: int| 0 <= i < acc@.len() ==> 0 <= #[trigger] acc@[i] < modulus,
            forall|row: int, c: int|
                0 <= row < rows_out && 0 <= c < lwe_n ==> #[trigger] acc@[row * lwe_n + c]
                    == range_dot(us@, masks@, row, c, lo as int, b as int) % (modulus as int),
        decreases hi - b,
    {
        let ghost before = acc@;
        assert(us@[b as int].wf());
        gemm_add(
            &mut acc,
            &us[b],
            0,
            rows_out,
            masks[b].values.as_slice(),
            lwe_n,
            modulus,
        );
        proof {
            assert forall|row: int, c: int|
                0 <= row < rows_out && 0 <= c < lwe_n implies #[trigger] acc@[row * lwe_n + c]
                == range_dot(us@, masks@, row, c, lo as int, b + 1) % (modulus as int) by {
                let d = col_dot(
                    us@[b as int],
                    row,
                    masks@[b as int].values@,
                    lwe_n as int,
                    c,
                    us@[b as int].rows_in as nat,
                );
                assert(before[row * lwe_n + c] == range_dot(
                    us@,
                    masks@,
                    row,
                    c,
                    lo as int,
                    b as int,
                ) % (modulus as int));
                lemma_mod_sum(
                    range_dot(us@, masks@, row, c, lo as int, b as int),
                    d,
                    modulus as int,
                );
                assert(col_dot(
                    us@[b as int],
                    0 + row,
                    masks@[b as int].values@,
                    lwe_n as int,
                    c,
                    us@[b as int].rows_in as nat,
                ) == d);
            }
        }
        b = b + 1;
    }
    acc
}

/// Columns `start .. start + width` of a mask.
fn mask_strip(mask: &QueryMask, start: usize, width: usize) -> (r: Vec<i64>)
    requires
        mask.wf(),
        start + width <= mask.cols,
        mask.rows * width <= usize::MAX,
    ensures
        r@.len() == mask.rows * width,
        forall|j: int, c: int|
            0 <= j < mask.rows && 0 <= c < width ==> #[trigger] r@[j * width + c]
                == mask.values@[j * mask.cols + start + c],
{
    let total: usize = mask.rows * width;
    let have: usize = mask.values.len();
    let mut out: Vec<i64> = Vec::new();
    while out.len() < total
        invariant
            out@.len() <= total,
            total == mask.rows * width,
            have == mask.values@.len(),
            mask.wf(),
            start + width <= mask.cols,
            forall|i: int|
                0 <= i < out@.len() ==> #[trigger] out@[i] == mask.values@[(i / width as int)
                    * mask.cols + start + i % width as int],
        decreases total - out@.len(),
    {
        let i: usize = out.len();
        proof {
            assert(width >= 1) by (nonlinear_arith)
                requires
                    0 <= i < mask.rows * width,
                    width >= 0,
            ;
            lemma_parts(i as int, mask.rows as int, width as int);
            lemma_flat_index(
                i as int / width as int,
                start + i as int % width as int,
                mask.rows as int,
                mask.cols as int,
            );
        }
        let x: i64 = mask.values[(i / width) * mask.cols + start + i % width];
        out.push(x);
    }
    proof {
        assert forall|j: int, c: int| 0 <= j < mask.rows && 0 <= c < width implies #[trigger] out@[j
            * width + c] == mask.values@[j * mask.cols + start + c] by {
            lemma_flat_index(j, c, mask.rows as int, width as int);
            lemma_quotient(j * width + c, width as int, j, c);
        }
    }
    out
}

/// A strip has the products of the columns that it was cut from.
proof fn lemma_strip_dot(
    u: CoeffMatrix,
    row: int,
    strip: Seq<i64>,
    width: int,
    c: int,
    values: Seq<i64>,
    cols: int,
    start: int,
    upto: nat,
)
    requires
        forall|j: int|
            0 <= j < upto ==> #[trigger] strip[j * width + c] == values[j * cols + start + c],
    ensures
        col_dot(u, row, strip, width, c, upto) == col_dot(u, row, values, cols, start + c, upto),
    decreases upto,
{
    if upto > 0 {
        lemma_strip_dot(u, row, strip, width, c, values, cols, start, (upto - 1) as nat);
        let j = upto - 1;
        assert(strip[j * width + c] == values[j * cols + start + c]);
        assert(j * cols + start + c == j * cols + (start + c));
    }
}

/// Product of one strip of columns, over all blocks in order.
fn strip_product(
    us: &[CoeffMatrix],
    masks: &[QueryMask],
    rows_out: usize,
    lwe_n: usize,
    start: usize,
    width: usize,
    modulus: i128,
) -> (r: Vec<i128>)
    requires
        product_shape(us@, masks@, rows_out as int, lwe_n as int),
        start + width <= lwe_n,
        rows_out * lwe_n <= usize::MAX,
        1 <= modulus <= 0x4000_0000_0000_0000,
    ensures
        forall|i: int| 0 <= i < r@.len() ==> 0 <= #[trigger] r@[i] < modulus,
        holds_residues(
            r@,
            rows_out as int,
            width as int,
            modulus as int,
            |row: int, c: int| range_dot(us@, masks@, row, start + c, 0, us@.len() as int),
        ),
{
    proof {
        assert(rows_out * width <= rows_out * lwe_n) by (nonlinear_arith)
            requires
                width <= lwe_n,
                rows_out >= 0,
        ;
        lemma_small_mod(0, modulus as nat);
    }
    let mut acc: Vec<i128> = zeros(rows_out * width);
    let mut b: usize = 0;
    proof {
        assert forall|row: int, c: int|
            0 <= row < rows_out && 0 <= c < width implies #[trigger] acc@[row * width + c]
            == range_dot(us@, masks@, row, start + c, 0, 0) % (modulus as int) by {
            lemma_flat_index(row, c, rows_out as int, width as int);
        }
    }
    while b < us.len()
        invariant
            product_shape(us@, masks@, rows_out as int, lwe_n as int),
            b <= us@.len(),
            start + width <= lwe_n,
            1 <= modulus <= 0x4000_0000_0000_0000,
            acc@.len() == rows_out * width,
            forall|i: int| 0 <= i < acc@.len() ==> 0 <= #[trigger] acc@[i] < modulus,
            forall|row: int, c: int|
                0 <= row < rows_out && 0 <= c < width ==> #[trigger] acc@[row * width + c]
                    == range_dot(us@, masks@, row, start + c, 0, b as int) % (modulus as int),
        decreases us@.len() - b,
    {
        let ghost before = acc@;
        assert(us@[b as int].wf());
        proof {
            let m = masks@[b as int];
            assert(m.rows * width <= m.rows * m.cols) by (nonlinear_arith)
                requires
                    width <= m.cols,
                    m.rows >= 0,
            ;
        }
        let have: usize = masks[b].values.len();
        let strip: Vec<i64> = mask_strip(&masks[b], start, width);
        gemm_add(&mut acc, &us[b], 0, rows_out, strip.as_slice(), width, modulus);
        proof {
            assert forall|row: int, c: int|
                0 <= row < rows_out && 0 <= c < width implies #[trigger] acc@[row * width + c]
                == range_dot(us@, masks@, row, start + c, 0, b + 1) % (modulus as int) by {
                let u = us@[b as int];
                let v = masks@[b as int].values@;
                lemma_strip_dot(
                    u,
                    row,
                    strip@,
                    width as int,
                    c,
                    v,
                    lwe_n as int,
                    start as int,
                    u.rows_in as nat,
                );
                let d = col_dot(u, row, v, lwe_n as int, start + c, u.rows_in as nat);
                assert(before[row * width + c] == range_dot(
                    us@,
                    masks@,
                    row,
                    start + c,
                    0,
                    b as int,
                ) % (modulus as int));
                lemma_mod_sum(
                    range_dot(us@, masks@, row, start + c, 0, b as int),
                    d,
                    modulus as int,
                );
                assert(col_dot(u, 0 + row, strip@, width as int, c, u.rows_in as nat) == d);
            }
        }
        b = b + 1;
    }
    acc
}

/// Copies a strip into columns `start ..` of a matrix of `lwe_n` columns.
fn store_strip(
    acc: &mut Vec<i128>,
    strip: &Vec<i128>,
    rows_out: usize,
    lwe_n: usize,
    start: usize,
    width: usize,
)
    requires
        old(acc)@.len() == rows_out * lwe_n,
        strip@.len() == rows_out * width,
        start + width <= lwe_n,
    ensures
        final(acc)@.len() == rows_out * lwe_n,
        forall|row: int, c: int|
            0 <= row < rows_out && 0 <= c < lwe_n ==> #[trigger] final(acc)@[row * lwe_n + c] == (
            if start <= c < start + width {
                strip@[row * width + (c - start)]
            } else {
                old(acc)@[row * lwe_n + c]
            }),
{
    let ghost before = acc@;
    let total: usize = strip.len();
    let have: usize = acc.len();
    let mut i: usize = 0;
    while i < total
        invariant
            i <= total,
            total == strip@.len(),
            total == rows_out * width,
            have == acc@.len(),
            have == rows_out * lwe_n,
            start + width <= lwe_n,
            forall|row: int, c: int|
                0 <= row < rows_out && 0 <= c < lwe_n ==> #[trigger] acc@[row * lwe_n + c] == (
                if start <= c < start + width && row * width + (c - start) < i {
                    strip@[row * width + (c - start)]
                } else {
                    before[row * lwe_n + c]
                }),
        decreases total - i,
    {
        proof {
            assert(width >= 1) by (nonlinear_arith)
                requires
                    0 <= i < rows_out * width,
                    width >= 0,
            ;
            lemma_parts(i as int, rows_out as int, width as int);
            lemma_flat_index(
                i as int / width as int,
                start + i as int % width as int,
                rows_out as int,
                lwe_n as int,
            );
        }
        let r: usize = i / width;
        let c: usize = start + i % width;
        let ghost earlier = acc@;
        acc[r * lwe_n + c] = strip[i];
        proof {
            assert forall|row: int, col: int|
                0 <= row < rows_out && 0 <= col < lwe_n implies #[trigger] acc@[row * lwe_n + col]
                == (if start <= col < start + width && row * width + (col - start) < i + 1 {
                strip@[row * width + (col - start)]
            } else {
                before[row * lwe_n + col]
            }) by {
                lemma_flat_index(row, col, rows_out as int, lwe_n as int);
                if row * lwe_n + col == r * lwe_n + c {
                    lemma_flat_index_injective(row, col, r as int, c as int, lwe_n as int);
                }
                if start <= col < start + width && row * width + (col - start) == i {
                    lemma_flat_index_injective(
                        row,
                        col - start,
                        r as int,
                        c - start,
                        width as int,
                    );
                }
                assert(earlier[row * lwe_n + col] == (if start <= col < start + width && row * width
                    + (col - start) < i {
                    strip@[row * width + (col - start)]
                } else {
                    before[row * lwe_n + col]
                }));
            }
        }
        i = i + 1;
    }
    proof {
        assert forall|row: int, c: int|
            0 <= row < rows_out && 0 <= c < lwe_n implies #[trigger] acc@[row * lwe_n + c] == (
        if start <= c < start + width {
            strip@[row * width + (c - start)]
        } else {
            before[row * lwe_n + c]
        }) by {
            if start <= c < start + width {
                lemma_flat_index(row, c - start, rows_out as int, width as int);
            }
        }
    }
}

/// `dst += part` modulo `modulus`.
fn add_residues(dst: &mut Vec<i128>, part: &Vec<i128>, modulus: i128)
    requires
        old(dst)@.len() == part@.len(),
        1 <= modulus <= 0x4000_0000_0000_0000,
        forall|i: int| 0 <= i < part@.len() ==> 0 <= #[trigger] part@[i] < modulus,
        forall|i: int| 0 <= i < part@.len() ==> 0 <= #[trigger] old(dst)@[i] < modulus,
    ensures
        final(dst)@.len() == part@.len(),
        forall|i: int| 0 <= i < part@.len() ==> 0 <= #[trigger] final(dst)@[i] < modulus,
        forall|i: int|
            0 <= i < part@.len() ==> #[trigger] final(dst)@[i] == (old(dst)@[i] + part@[i]) % (
            modulus as int),
{
    let ghost before = dst@;
    let mut i: usize = 0;
    while i < part.len()
        invariant
            i <= part@.len(),
            dst@.len() == part@.len(),
            before.len() == part@.len(),
            1 <= modulus <= 0x4000_0000_0000_0000,
            forall|k: int| 0 <= k < part@.len() ==> 0 <= #[trigger] part@[k] < modulus,
            forall|k: int| 0 <= k < part@.len() ==> 0 <= #[trigger] dst@[k] < modulus,
            forall|k: int| i <= k < part@.len() ==> #[trigger] dst@[k] == before[k],
            forall|k: int|
                0 <= k < i ==> #[trigger] dst@[k] == (before[k] + part@[k]) % (modulus as int),
        decreases part@.len() - i,
    {
        let sum: i128 = dst[i] + part[i];
        proof {
            if sum < modulus {
                lemma_quotient(sum as int, modulus as int, 0, sum as int);
            } else {
                lemma_quotient(sum as int, modulus as int, 1, sum - modulus);
            }
        }
        dst[i] = if sum >= modulus {
            sum - modulus
        } else {
            sum
        };
        i = i + 1;
    }
}

/// The mask product of all blocks: entry `(row, c)` is the sum over all blocks of row
/// `row` times column `c`, modulo `2^torus_bits`, in centred form. How the work is divided
/// does not show in the result.
pub fn mask_product_acc(
    us: &[CoeffMatrix],
    masks: &[QueryMask],
    rows_out: usize,
    lwe_n: usize,
    mask_threads: usize,
    split: MaskSplit,
    torus_bits: usize,
) -> (r: Vec<i64>)
    requires
        product_shape(us@, masks@, rows_out as int, lwe_n as int),
        lwe_n >= 1,
        rows_out * lwe_n <= usize::MAX,
        1 <= torus_bits <= 62,
    ensures
        r@.len() == rows_out * lwe_n,
        forall|row: int, c: int|
            0 <= row < rows_out && 0 <= c < lwe_n ==> #[trigger] r@[row * lwe_n + c]
                == centred_residue(
                range_dot(us@, masks@, row, c, 0, us@.len() as int),
                pow2(torus_bits as nat) as int,
            ),
{
    let modulus: i128 = torus_modulus_i128(torus_bits);
    let blocks: usize = us.len();
    let acc: Vec<i128> = match mask_plan(blocks, lwe_n, mask_threads, split) {
        MaskPlan::Sequential => accumulate_mask_range(
            us,
            masks,
            rows_out,
            lwe_n,
            0,
            blocks,
            modulus,
        ),
        MaskPlan::Cols(runs) => columns_product(us, masks, rows_out, lwe_n, &runs, modulus),
        MaskPlan::Blocks(runs) => blocks_product(us, masks, rows_out, lwe_n, &runs, modulus),
    };
    let mut out: Vec<i64> = Vec::new();
    while out.len() < acc.len()
        invariant
            out@.len() <= acc@.len(),
            2 <= modulus <= 0x4000_0000_0000_0000,
            forall|i: int|
                0 <= i < out@.len() ==> #[trigger] out@[i] == centred_residue(
                    acc@[i] as int,
                    modulus as int,
                ),
        decreases acc@.len() - out@.len(),
    {
        let i: usize = out.len();
        out.push(centre_i128(acc[i], modulus as i64));
    }
    proof {
        assert forall|row: int, c: int|
            0 <= row < rows_out && 0 <= c < lwe_n implies #[trigger] out@[row * lwe_n + c]
            == centred_residue(
            range_dot(us@, masks@, row, c, 0, us@.len() as int),
            modulus as int,
        ) by {
            lemma_flat_index(row, c, rows_out as int, lwe_n as int);
            assert(acc@[row * lwe_n + c] == range_dot(us@, masks@, row, c, 0, us@.len() as int) % (
            modulus as int));
            lemma_mod_twice(
                range_dot(us@, masks@, row, c, 0, us@.len() as int),
                modulus as int,
            );
        }
    }
    out
}

fn columns_product(
    us: &[CoeffMatrix],
    masks: &[QueryMask],
    rows_out: usize,
    lwe_n: usize,
    runs: &Vec<(usize, usize)>,
    modulus: i128,
) -> (r: Vec<i128>)
    requires
        product_shape(us@, masks@, rows_out as int, lwe_n as int),
        runs@.len() >= 1,
        is_even_split(runs@, lwe_n as int, runs@.len() as int),
        rows_out * lwe_n <= usize::MAX,
        1 <= modulus <= 0x4000_0000_0000_0000,
    ensures
        holds_residues(
            r@,
            rows_out as int,
            lwe_n as int,
            modulus as int,
            |row: int, c: int| range_dot(us@, masks@, row, c, 0, us@.len() as int),
        ),
{
    let ghost parts = runs@.len() as int;
    let mut acc: Vec<i128> = zeros(rows_out * lwe_n);
    let mut i: usize = 0;
    proof {
        law_even_split(lwe_n as int, parts, 0);
    }
    while i < runs.len()
        invariant
            product_shape(us@, masks@, rows_out as int, lwe_n as int),
            parts == runs@.len(),
            parts >= 1,
            i <= parts,
            is_even_split(runs@, lwe_n as int, parts),
            rows_out * lwe_n <= usize::MAX,
            1 <= modulus <= 0x4000_0000_0000_0000,
            acc@.len() == rows_out * lwe_n,
            forall|row: int, c: int|
                0 <= row < rows_out && 0 <= c < part_start(lwe_n as int, parts, i as int)
                    ==> #[trigger] acc@[row * lwe_n + c] == range_dot(
                    us@,
                    masks@,
                    row,
                    c,
                    0,
                    us@.len() as int,
                ) % (modulus as int),
        decreases parts - i,
    {
        proof {
            law_even_split(lwe_n as int, parts, i as int);
        }
        let (start, width): (usize, usize) = runs[i];
        let strip: Vec<i128> = strip_product(us, masks, rows_out, lwe_n, start, width, modulus);
        let ghost before = acc@;
        store_strip(&mut acc, &strip, rows_out, lwe_n, start, width);
        proof {
            assert forall|row: int, c: int|
                0 <= row < rows_out && 0 <= c < part_start(
                    lwe_n as int,
                    parts,
                    i + 1,
                ) implies #[trigger] acc@[row * lwe_n + c] == range_dot(
                us@,
                masks@,
                row,
                c,
                0,
                us@.len() as int,
            ) % (modulus as int) by {
                if start <= c {
                    assert(strip@[row * width + (c - start)] == range_dot(
                        us@,
                        masks@,
                        row,
                        start + (c - start),
                        0,
                        us@.len() as int,
                    ) % (modulus as int));
                } else {
                    assert(before[row * lwe_n + c] == range_dot(
                        us@,
                        masks@,
                        row,
                        c,
                        0,
                        us@.len() as int,
                    ) % (modulus as int));
                }
            }
        }
        i = i + 1;
    }
    proof {
        law_even_split(lwe_n as int, parts, parts - 1);
    }
    acc
}

fn blocks_product(
    us: &[CoeffMatrix],
    masks: &[QueryMask],
    rows_out: usize,
    lwe_n: usize,
    runs: &Vec<(usize, usize)>,
    modulus: i128,
) -> (r: Vec<i128>)
    requires
        product_shape(us@, masks@, rows_out as int, lwe_n as int),
        runs@.len() >= 1,
        is_even_split(runs@, us@.len() as int, runs@.len() as int),
        rows_out * lwe_n <= usize::MAX,
        1 <= modulus <= 0x4000_0000_0000_0000,
    ensures
        holds_residues(
            r@,
            rows_out as int,
            lwe_n as int,
            modulus as int,
            |row: int, c: int| range_dot(us@, masks@, row, c, 0, us@.len() as int),
        ),
{
    let ghost parts = runs@.len() as int;
    let count: usize = us.len();
    let ghost total = us@.len() as int;
    let mut acc: Vec<i128> = zeros(rows_out * lwe_n);
    let mut i: usize = 0;
    proof {
        law_even_split(total, parts, 0);
        lemma_small_mod(0, modulus as nat);
        assert forall|row: int, c: int|
            0 <= row < rows_out && 0 <= c < lwe_n implies #[trigger] acc@[row * lwe_n + c]
            == range_dot(us@, masks@, row, c, 0, part_start(total, parts, 0)) % (
        modulus as int) by {
            lemma_flat_index(row, c, rows_out as int, lwe_n as int);
        }
    }
    while i < runs.len()
        invariant
            product_shape(us@, masks@, rows_out as int, lwe_n as int),
            parts == runs@.len(),
            total == us@.len(),
            count == total,
            parts >= 1,
            i <= parts,
            is_even_split(runs@, total, parts),
            rows_out * lwe_n <= usize::MAX,
            1 <= modulus <= 0x4000_0000_0000_0000,
            acc@.len() == rows_out * lwe_n,
            part_start(total, parts, 0) == 0,
            forall|k: int| 0 <= k < acc@.len() ==> 0 <= #[trigger] acc@[k] < modulus,
            forall|row: int, c: int|
                0 <= row < rows_out && 0 <= c < lwe_n ==> #[trigger] acc@[row * lwe_n + c]
                    == range_dot(us@, masks@, row, c, 0, part_start(total, parts, i as int)) % (
                modulus as int),
        decreases parts - i,
    {
        proof {
            law_even_split(total, parts, i as int);
        }
        let (start, len): (usize, usize) = runs[i];
        let part: Vec<i128> = accumulate_mask_range(
            us,
            masks,
            rows_out,
            lwe_n,
            start,
            start + len,
            modulus,
        );
        let ghost before = acc@;
        add_residues(&mut acc, &part, modulus);
        proof {
            assert forall|row: int, c: int|
                0 <= row < rows_out && 0 <= c < lwe_n implies #[trigger] acc@[row * lwe_n + c]
                == range_dot(us@, masks@, row, c, 0, part_start(total, parts, i + 1)) % (
            modulus as int) by {
                lemma_flat_index(row, c, rows_out as int, lwe_n as int);
                let m = modulus as int;
                let a = range_dot(us@, masks@, row, c, 0, start as int);
                let b = range_dot(us@, masks@, row, c, start as int, start + len);
                assert(before[row * lwe_n + c] == a % m);
                assert(part@[row * lwe_n + c] == b % m);
                lemma_mod_sum(a, b % m, m);
                lemma_mod_sum(b, a, m);
                lemma_range_join(us@, masks@, row, c, 0, start as int, start + len);
            }
        }
        i = i + 1;
    }
    proof {
        law_even_split(total, parts, parts - 1);
    }
    acc
}

impl QueryMask {
    /// Torus integers of a mask whose column `c` holds entry `c` of every row: `k` bits of
    /// every coefficient, in centred form.
    pub fn new(mask: &LimbVec, base2k: usize, torus_bits: usize) -> (r: Self)
        requires
            mask.wf(),
            limbs_fit(torus_bits as int, base2k as int, mask.size as int),
            mask.n * mask.cols <= usize::MAX,
            forall|c: int, i: int|
                0 <= c < mask.cols && 0 <= i < mask.n ==> limbs_bounded(
                    #[trigger] coefficient_limbs(*mask, c, i),
                    base2k as nat,
                ),
        ensures
            r.wf(),
            r.rows == mask.n,
            r.cols == mask.cols,
            forall|i: int, c: int|
                0 <= i < mask.n && 0 <= c < mask.cols ==> #[trigger] r.values@[i * mask.cols + c]
                    == centred_residue(
                    rounded(torus_bits as int, coefficient_limbs(*mask, c, i), base2k as int),
                    pow2(torus_bits as nat) as int,
                ),
    {
        let modulus: i128 = torus_modulus_i128(torus_bits);
        let total: usize = mask.n * mask.cols;
        let mut values: Vec<i64> = Vec::new();
        while values.len() < total
            invariant
                values@.len() <= total,
                total == mask.n * mask.cols,
                mask.wf(),
                limbs_fit(torus_bits as int, base2k as int, mask.size as int),
                2 <= modulus <= 0x4000_0000_0000_0000,
                modulus == pow2(torus_bits as nat),
                forall|c: int, i: int|
                    0 <= c < mask.cols && 0 <= i < mask.n ==> limbs_bounded(
                        #[trigger] coefficient_limbs(*mask, c, i),
                        base2k as nat,
                    ),
                forall|k: int|
                    0 <= k < values@.len() ==> #[trigger] values@[k] == centred_residue(
                        rounded(
                            torus_bits as int,
                            coefficient_limbs(*mask, k % mask.cols as int, k / mask.cols as int),
                            base2k as int,
                        ),
                        modulus as int,
                    ),
            decreases total - values@.len(),
        {
            let k: usize = values.len();
            proof {
                assert(mask.cols >= 1) by (nonlinear_arith)
                    requires
                        0 <= k < mask.n * mask.cols,
                        mask.cols >= 0,
                ;
                lemma_parts(k as int, mask.n as int, mask.cols as int);
            }
            let c: usize = k % mask.cols;
            let i: usize = k / mask.cols;
            let x: i128 = round_limbs(torus_bits, mask, base2k, c, i);
            values.push(centre_i128(x, modulus as i64));
        }
        proof {
            assert forall|i: int, c: int|
                0 <= i < mask.n && 0 <= c < mask.cols implies #[trigger] values@[i * mask.cols + c]
                == centred_residue(
                rounded(torus_bits as int, coefficient_limbs(*mask, c, i), base2k as int),
                modulus as int,
            ) by {
                lemma_flat_index(i, c, mask.n as int, mask.cols as int);
                lemma_quotient(i * mask.cols + c, mask.cols as int, i, c);
            }
        }
        QueryMask { rows: mask.n, cols: mask.cols, values }
    }
}

// ---------------------------------------------------------------------------
// Batched body products
// ---------------------------------------------------------------------------

/// Every query has one vector of `n` entries per block.
pub open spec fn batch_shape(queries: Seq<Vec<Vec<i64>>>, blocks: int, n: int) -> bool {
    forall|q: int|
        0 <= q < queries.len() ==> {
            &&& (#[trigger] queries[q])@.len() == blocks
            &&& forall|b: int| 0 <= b < blocks ==> (#[trigger] queries[q]@[b])@.len() == n
        }
}

/// The vectors of all queries for one block, side by side: entry `(j, q)` is entry `j` of
/// query `q`.
fn stack_queries(queries: &[Vec<Vec<i64>>], block: usize, blocks: usize, n: usize) -> (r: Vec<i64>)
    requires
        batch_shape(queries@, blocks as int, n as int),
        block < blocks,
        n * queries@.len() <= usize::MAX,
    ensures
        r@.len() == n * queries@.len(),
        forall|j: int, q: int|
            0 <= j < n && 0 <= q < queries@.len() ==> #[trigger] r@[j * queries@.len() + q]
                == queries@[q]@[block as int]@[j],
{
    let width: usize = queries.len();
    let total: usize = n * width;
    let mut out: Vec<i64> = Vec::new();
    while out.len() < total
        invariant
            out@.len() <= total,
            total == n * width,
            width == queries@.len(),
            batch_shape(queries@, blocks as int, n as int),
            block < blocks,
            forall|i: int|
                0 <= i < out@.len() ==> #[trigger] out@[i] == queries@[i % width as int]@[block as
                    int]@[i / width as int],
        decreases total - out@.len(),
    {
        let i: usize = out.len();
        proof {
            assert(width >= 1) by (nonlinear_arith)
                requires
                    0 <= i < n * width,
                    width >= 0,
            ;
            lemma_parts(i as int, n as int, width as int);
            assert(queries@[i as int % width as int]@[block as int]@.len() == n);
        }
        let x: i64 = queries[i % width][block][i / width];
        out.push(x);
    }
    proof {
        assert forall|j: int, q: int|
            0 <= j < n && 0 <= q < queries@.len() implies #[trigger] out@[j * queries@.len() + q]
            == queries@[q]@[block as int]@[j] by {
            lemma_flat_index(j, q, n as int, width as int);
            lemma_quotient(j * width + q, width as int, j, q);
        }
    }
    out
}

/// A query's column among the stacked ones has the products of the query alone.
proof fn lemma_stacked_dot(
    u: CoeffMatrix,
    row: int,
    rhs: Seq<i64>,
    width: int,
    q: int,
    v: Seq<i64>,
    upto: nat,
)
    requires
        forall|j: int| 0 <= j < upto ==> #[trigger] rhs[j * width + q] == v[j],
    ensures
        col_dot(u, row, rhs, width, q, upto) == row_dot(u, row, v, upto),
    decreases upto,
{
    if upto > 0 {
        lemma_stacked_dot(u, row, rhs, width, q, v, (upto - 1) as nat);
        assert(rhs[(upto - 1) * width + q] == v[upto - 1]);
    }
}

impl<P: Payload<[u8; 32]>> Database<P> {
    /// Product of output rows `first .. first + rows` of one block-row with the stacked
    /// vectors of all queries.
    fn band_product(
        &self,
        row_group: usize,
        first: usize,
        rows: usize,
        queries: &[Vec<Vec<i64>>],
        stacked: &Vec<Vec<i64>>,
        modulus: i128,
    ) -> (r: Vec<i128>)
        requires
            self.wf(),
            row_group < self.spec_physical_rows(),
            first + rows <= self.n,
            self.n * queries@.len() <= usize::MAX,
            stacked@.len() == self.spec_column_blocks(),
            batch_shape(queries@, self.spec_column_blocks(), self.n as int),
            forall|b: int|
                0 <= b < stacked@.len() ==> (#[trigger] stacked@[b])@.len() == self.n
                    * queries@.len(),
            forall|b: int, j: int, q: int|
                0 <= b < stacked@.len() && 0 <= j < self.n && 0 <= q < queries@.len()
                    ==> #[trigger] stacked@[b]@[j * queries@.len() + q] == queries@[q]@[b]@[j],
            1 <= modulus <= 0x4000_0000_0000_0000,
        ensures
            r@.len() == rows * queries@.len(),
            forall|i: int, q: int|
                0 <= i < rows && 0 <= q < queries@.len() ==> #[trigger] r@[i * queries@.len() + q]
                    == blocks_dot(
                    self.block_row(row_group as int),
                    first + i,
                    bodies_of(queries@[q]@),
                    stacked@.len(),
                ) % (modulus as int),
    {
        let width: usize = queries.len();
        let ghost us = self.block_row(row_group as int);
        proof {
            assert(rows * width <= self.n * width) by (nonlinear_arith)
                requires
                    rows <= self.n,
                    width >= 0,
            ;
            lemma_small_mod(0, modulus as nat);
        }
        let mut acc: Vec<i128> = zeros(rows * width);
        let mut b: usize = 0;
        proof {
            assert forall|i: int, q: int|
                0 <= i < rows && 0 <= q < width implies #[trigger] acc@[i * width + q]
                == blocks_dot(us, first + i, bodies_of(queries@[q]@), 0) % (modulus as int) by {
                lemma_flat_index(i, q, rows as int, width as int);
            }
        }
        while b < stacked.len()
            invariant
                b <= stacked@.len(),
                self.wf(),
                row_group < self.spec_physical_rows(),
                first + rows <= self.n,
                width == queries@.len(),
                us == self.block_row(row_group as int),
                stacked@.len() == self.spec_column_blocks(),
                batch_shape(queries@, self.spec_column_blocks(), self.n as int),
                forall|b: int|
                    0 <= b < stacked@.len() ==> (#[trigger] stacked@[b])@.len() == self.n * width,
                forall|b: int, j: int, q: int|
                    0 <= b < stacked@.len() && 0 <= j < self.n && 0 <= q < width
                        ==> #[trigger] stacked@[b]@[j * width + q] == queries@[q]@[b]@[j],
                1 <= modulus <= 0x4000_0000_0000_0000,
                acc@.len() == rows * width,
                forall|k: int| 0 <= k < acc@.len() ==> 0 <= #[trigger] acc@[k] < modulus,
                forall|i: int, q: int|
                    0 <= i < rows && 0 <= q < width ==> #[trigger] acc@[i * width + q]
                        == blocks_dot(us, first + i, bodies_of(queries@[q]@), b as nat) % (
                    modulus as int),
            decreases stacked@.len() - b,
        {
            let u = self.physical_block(row_group, b);
            let ghost before = acc@;
            gemm_add(&mut acc, u, first, rows, stacked[b].as_slice(), width, modulus);
            proof {
                assert(us[b as int] == *u);
                assert forall|i: int, q: int|
                    0 <= i < rows && 0 <= q < width implies #[trigger] acc@[i * width + q]
                    == blocks_dot(us, first + i, bodies_of(queries@[q]@), (b + 1) as nat) % (
                modulus as int) by {
                    let v = queries@[q]@[b as int]@;
                    assert forall|j: int| 0 <= j < u.rows_in implies #[trigger] stacked@[b as
                        int]@[j * width + q] == v[j] by {}
                    lemma_stacked_dot(
                        *u,
                        first + i,
                        stacked@[b as int]@,
                        width as int,
                        q,
                        v,
                        u.rows_in as nat,
                    );
                    assert(queries@[q]@.len() == self.spec_column_blocks());
                    assert(bodies_of(queries@[q]@)[b as int] == v);
                    let a = blocks_dot(us, first + i, bodies_of(queries@[q]@), b as nat);
                    assert(before[i * width + q] == a % (modulus as int));
                    lemma_mod_sum(
                        a,
                        row_dot(*u, first + i, v, u.rows_in as nat),
                        modulus as int,
                    );
                }
            }
            b = b + 1;
        }
        acc
    }

    /// Products of all block-rows with a batch of queries, modulo `2^torus_bits`: entry
    /// `(row, q)` of block-row `g` is row `row` of the product with query `q` alone,
    /// whatever the number of workers.
    pub fn body_product_acc_parallel(
        &self,
        queries: &[Vec<Vec<i64>>],
        torus_bits: usize,
        threads: usize,
    ) -> (r: Vec<Vec<i128>>)
        requires
            self.wf(),
            queries@.len() >= 1,
            self.n * queries@.len() <= usize::MAX,
            self.spec_physical_rows() * self.n <= usize::MAX,
            batch_shape(queries@, self.spec_column_blocks(), self.n as int),
            1 <= torus_bits <= 62,
        ensures
            r@.len() == self.spec_physical_rows(),
            forall|g: int|
                0 <= g < r@.len() ==> (#[trigger] r@[g])@.len() == self.n * queries@.len(),
            forall|g: int, row: int, q: int|
                0 <= g < r@.len() && 0 <= row < self.n && 0 <= q < queries@.len()
                    ==> #[trigger] r@[g]@[row * queries@.len() + q] == blocks_dot(
                    self.block_row(g),
                    row,
                    bodies_of(queries@[q]@),
                    self.spec_column_blocks() as nat,
                ) % pow2(torus_bits as nat) as int,
    {
        let modulus: i128 = torus_modulus_i128(torus_bits);
        let n: usize = self.n;
        let width: usize = queries.len();
        let groups: usize = self.physical_rows();
        let blocks: usize = self.column_blocks();
        proof {
            lemma_div_ceil(self.layout.rows as int, n as int);
            assert(1 <= groups);
        }
        // The stacked vectors are shared by all block-rows.
        let mut stacked: Vec<Vec<i64>> = Vec::new();
        while stacked.len() < blocks
            invariant
                stacked@.len() <= blocks,
                width == queries@.len(),
                n * width <= usize::MAX,
                batch_shape(queries@, blocks as int, n as int),
                forall|b: int| 0 <= b < stacked@.len() ==> (#[trigger] stacked@[b])@.len() == n * width,
                forall|b: int, j: int, q: int|
                    0 <= b < stacked@.len() && 0 <= j < n && 0 <= q < width
                        ==> #[trigger] stacked@[b]@[j * width + q] == queries@[q]@[b]@[j],
            decreases blocks - stacked@.len(),
        {
            let b: usize = stacked.len();
            stacked.push(stack_queries(queries, b, blocks, n));
        }
        let mut out: Vec<Vec<i128>> = Vec::new();
        while out.len() < groups
            invariant
                out@.len() <= groups,
                n * width <= usize::MAX,
                forall|g: int| 0 <= g < out@.len() ==> (#[trigger] out@[g])@.len() == n * width,
            decreases groups - out@.len(),
        {
            out.push(zeros(n * width));
        }
        let plan = body_plan(groups, n, threads);
        let ghost band = spec_band(groups as int, n as int, threads as int);
        let ghost per = spec_div_ceil(n as int, band);
        let mut k: usize = 0;
        while k < plan.tiles.len()
            invariant
                k <= plan.tiles@.len(),
                self.wf(),
                n == self.n,
                width == queries@.len(),
                n * width <= usize::MAX,
                groups == self.spec_physical_rows(),
                blocks == self.spec_column_blocks(),
                batch_shape(queries@, blocks as int, n as int),
                stacked@.len() == blocks,
                forall|b: int| 0 <= b < stacked@.len() ==> (#[trigger] stacked@[b])@.len() == n * width,
                forall|b: int, j: int, q: int|
                    0 <= b < stacked@.len() && 0 <= j < n && 0 <= q < width
                        ==> #[trigger] stacked@[b]@[j * width + q] == queries@[q]@[b]@[j],
                1 <= modulus <= 0x4000_0000_0000_0000,
                band >= 1,
                per == spec_div_ceil(n as int, band),
                plan.tiles@.len() == groups * per,
                forall|g: int, i: int|
                    0 <= g < groups && 0 <= i < per ==> plan.tiles@[g * per + i] == #[trigger]
                    spec_tile(g, i, n as int, band),
                out@.len() == groups,
                forall|g: int| 0 <= g < out@.len() ==> (#[trigger] out@[g])@.len() == n * width,
                forall|g: int, row: int, q: int|
                    0 <= g < groups && 0 <= row < n && 0 <= q < width && g * per + row / band < k
                        ==> #[trigger] out@[g]@[row * width + q] == blocks_dot(
                        self.block_row(g),
                        row,
                        bodies_of(queries@[q]@),
                        blocks as nat,
                    ) % (modulus as int),
            decreases plan.tiles@.len() - k,
        {
            let tile: BodyTile = plan.tiles[k];
            proof {
                lemma_tile_at(plan.tiles@, groups as int, n as int, band, k as int);
            }
            let part: Vec<i128> = self.band_product(
                tile.group,
                tile.start,
                tile.len,
                queries,
                &stacked,
                modulus,
            );
            let ghost before = out@;
            store_band(&mut out, tile.group, tile.start, tile.len, &part, n, width);
            proof {
                assert forall|g: int, row: int, q: int|
                    0 <= g < groups && 0 <= row < n && 0 <= q < width && g * per + row / band < k
                        + 1 implies #[trigger] out@[g]@[row * width + q] == blocks_dot(
                    self.block_row(g),
                    row,
                    bodies_of(queries@[q]@),
                    blocks as nat,
                ) % (modulus as int) by {
                    law_tiles_cover_once(plan.tiles@, groups as int, n as int, band, g, row);
                    assert(plan.tiles@[k as int] == tile);
                    if g == tile.group && tile.start <= row < tile.start + tile.len {
                        let i = row - tile.start;
                        assert(part@[i * width + q] == blocks_dot(
                            self.block_row(g),
                            tile.start + i,
                            bodies_of(queries@[q]@),
                            blocks as nat,
                        ) % (modulus as int));
                    } else {
                        assert(before[g]@[row * width + q] == blocks_dot(
                            self.block_row(g),
                            row,
                            bodies_of(queries@[q]@),
                            blocks as nat,
                        ) % (modulus as int));
                    }
                }
            }
            k = k + 1;
        }
        proof {
            assert forall|g: int, row: int, q: int|
                0 <= g < out@.len() && 0 <= row < self.n && 0 <= q
                    < queries@.len() implies #[trigger] out@[g]@[row * queries@.len() + q]
                == blocks_dot(
                self.block_row(g),
                row,
                bodies_of(queries@[q]@),
                self.spec_column_blocks() as nat,
            ) % pow2(torus_bits as nat) as int by {
                law_tiles_cover_once(plan.tiles@, groups as int, n as int, band, g, row);
            }
        }
        out
    }
}

/// A tile lies in an existing block-row, within its rows.
proof fn lemma_tile_at(tiles: Seq<BodyTile>, groups: int, rows_out: int, band: int, k: int)
    requires
        band >= 1,
        rows_out >= 1,
        rows_out <= usize::MAX,
        groups <= usize::MAX,
        0 <= k < tiles.len(),
        tiles.len() == groups * spec_div_ceil(rows_out, band),
        forall|g: int, i: int|
            0 <= g < groups && 0 <= i < spec_div_ceil(rows_out, band) ==> tiles[g * spec_div_ceil(
                rows_out,
                band,
            ) + i] == #[trigger] spec_tile(g, i, rows_out, band),
    ensures
        tiles[k].group < groups,
        tiles[k].start + tiles[k].len <= rows_out,
{
    let per = spec_div_ceil(rows_out, band);
    lemma_div_ceil(rows_out, band);
    lemma_parts(k, groups, per);
    let g = k / per;
    let i = k % per;
    assert(tiles[g * per + i] == spec_tile(g, i, rows_out, band));
    assert(0 <= i * band && i * band < rows_out) by (nonlinear_arith)
        requires
            0 <= i <= per - 1,
            (per - 1) * band < rows_out,
            band >= 1,
    ;
}

/// Writes a band of rows of one block-row.
fn store_band(
    out: &mut Vec<Vec<i128>>,
    group: usize,
    start: usize,
    rows: usize,
    part: &Vec<i128>,
    n: usize,
    width: usize,
)
    requires
        group < old(out)@.len(),
        start + rows <= n,
        part@.len() == rows * width,
        forall|g: int| 0 <= g < old(out)@.len() ==> (#[trigger] old(out)@[g])@.len() == n * width,
    ensures
        final(out)@.len() == old(out)@.len(),
        forall|g: int| 0 <= g < final(out)@.len() ==> (#[trigger] final(out)@[g])@.len() == n * width,
        forall|g: int, row: int, q: int|
            0 <= g < final(out)@.len() && 0 <= row < n && 0 <= q < width
                ==> #[trigger] final(out)@[g]@[row * width + q] == (if g == group && start <= row
                < start + rows {
                part@[(row - start) * width + q]
            } else {
                old(out)@[g]@[row * width + q]
            }),
{
    let ghost before = out@;
    let total: usize = part.len();
    let have: usize = out[group].len();
    proof {
        assert(start * width + rows * width <= n * width) by (nonlinear_arith)
            requires
                start + rows <= n,
                width >= 0,
        ;
        assert(0 <= start * width) by (nonlinear_arith)
            requires
                start >= 0,
                width >= 0,
        ;
    }
    let base: usize = start * width;
    let mut i: usize = 0;
    while i < total
        invariant
            i <= total,
            total == part@.len(),
            total == rows * width,
            base == start * width,
            base + total <= n * width,
            n * width <= usize::MAX,
            start + rows <= n,
            group < before.len(),
            out@.len() == before.len(),
            forall|g: int| 0 <= g < out@.len() ==> (#[trigger] out@[g])@.len() == n * width,
            forall|g: int| 0 <= g < out@.len() && g != group ==> #[trigger] out@[g] == before[g],
            forall|k: int|
                0 <= k < n * width ==> #[trigger] out@[group as int]@[k] == (if base <= k < base + i {
                    part@[k - base]
                } else {
                    before[group as int]@[k]
                }),
        decreases total - i,
    {
        let x: i128 = part[i];
        out[group][base + i] = x;
        i = i + 1;
    }
    proof {
        assert forall|g: int, row: int, q: int|
            0 <= g < out@.len() && 0 <= row < n && 0 <= q < width implies #[trigger] out@[g]@[row
            * width + q] == (if g == group && start <= row < start + rows {
            part@[(row - start) * width + q]
        } else {
            before[g]@[row * width + q]
        }) by {
            lemma_flat_index(row, q, n as int, width as int);
            if g == group {
                let k = row * width + q;
                assert((row - start) * width == row * width - start * width) by (nonlinear_arith);
                if start <= row < start + rows {
                    lemma_flat_index(row - start, q, rows as int, width as int);
                } else if row < start {
                    assert(k < base) by (nonlinear_arith)
                        requires
                            k == row * width + q,
                            q < width,
                            row + 1 <= start,
                            base == start * width,
                    ;
                } else {
                    assert(k >= base + total) by (nonlinear_arith)
                        requires
                            k == row * width + q,
                            q >= 0,
                            row >= start + rows,
                            width >= 0,
                            base == start * width,
                            total == rows * width,
                    ;
                }
            }
        }
    }
}

// ---------------------------------------------------------------------------
// What the products are
// ---------------------------------------------------------------------------

/// The inner product of a row of the blocks with a column of their masks.
pub open spec fn mask_inner_product(
    us: Seq<CoeffMatrix>,
    masks: Seq<QueryMask>,
    row: int,
    c: int,
) -> int {
    int_sum(
        0,
        us.len() as int,
        |b: int|
            int_sum(
                0,
                us[b].rows_in as int,
                |j: int| us[b].entry(row, j) * masks[b].values@[j * masks[b].cols + c],
            ),
    )
}

proof fn lemma_col_dot_sum(
    u: CoeffMatrix,
    row: int,
    rhs: Seq<i64>,
    width: int,
    c: int,
    upto: nat,
)
    ensures
        col_dot(u, row, rhs, width, c, upto) == int_sum(
            0,
            upto as int,
            |j: int| u.entry(row, j) * rhs[j * width + c],
        ),
    decreases upto,
{
    if upto > 0 {
        lemma_col_dot_sum(u, row, rhs, width, c, (upto - 1) as nat);
    }
}

proof fn lemma_range_dot_sum(
    us: Seq<CoeffMatrix>,
    masks: Seq<QueryMask>,
    row: int,
    c: int,
    hi: int,
)
    requires
        hi >= 0,
    ensures
        range_dot(us, masks, row, c, 0, hi) == int_sum(
            0,
            hi,
            |b: int|
                int_sum(
                    0,
                    us[b].rows_in as int,
                    |j: int| us[b].entry(row, j) * masks[b].values@[j * masks[b].cols + c],
                ),
        ),
    decreases hi,
{
    if hi > 0 {
        lemma_range_dot_sum(us, masks, row, c, hi - 1);
        let u = us[hi - 1];
        let m = masks[hi - 1];
        lemma_col_dot_sum(u, row, m.values@, m.cols as int, c, u.rows_in as nat);
        let f = |j: int| u.entry(row, j) * m.values@[j * (m.cols as int) + c];
        let g = |j: int| us[hi - 1].entry(row, j) * masks[hi - 1].values@[j * masks[hi - 1].cols + c];
        assert(f =~= g);
    }
}

/// The product of the blocks with their masks is the inner product of rows and columns.
pub proof fn law_range_dot_is_inner_product(
    us: Seq<CoeffMatrix>,
    masks: Seq<QueryMask>,
    row: int,
    c: int,
)
    ensures
        range_dot(us, masks, row, c, 0, us.len() as int) == mask_inner_product(us, masks, row, c),
{
    lemma_range_dot_sum(us, masks, row, c, us.len() as int);
}

/// A product with masks holds the inner products of rows and columns, modulo the torus, in
/// centred form, however the work is split.
pub proof fn law_mask_product_is_inner_products(
    us: &[CoeffMatrix],
    masks: &[QueryMask],
    rows_out: usize,
    lwe_n: usize,
    mask_threads: usize,
    split: MaskSplit,
    torus_bits: usize,
    r: Vec<i64>,
    row: int,
    c: int,
)
    requires
        1 <= torus_bits <= 62,
        us@.len() == masks@.len(),
        call_ensures(
            mask_product_acc,
            (us, masks, rows_out, lwe_n, mask_threads, split, torus_bits),
            r,
        ),
        0 <= row < rows_out,
        0 <= c < lwe_n,
    ensures
        r@.len() == rows_out * lwe_n,
        (mask_inner_product(us@, masks@, row, c) - r@[row * lwe_n + c]) % pow2(torus_bits as nat) as int
            == 0,
        -(pow2(torus_bits as nat) as int) <= 2 * r@[row * lwe_n + c] < pow2(torus_bits as nat),
{
    law_range_dot_is_inner_product(us@, masks@, row, c);
    lemma_pow2_small(torus_bits as nat);
    lemma_pow2_unfold(torus_bits as nat);
    lemma_pow2_pos((torus_bits - 1) as nat);
    lemma_centred_residue(
        range_dot(us@, masks@, row, c, 0, us@.len() as int),
        pow2(torus_bits as nat) as int,
    );
}

/// A mask is read as the torus integers that its limbs hold, in centred form, entry `(i, c)`
/// from coefficient `i` of column `c`.
pub proof fn law_mask_holds_torus_integers(
    mask: &LimbVec,
    base2k: usize,
    torus_bits: usize,
    r: QueryMask,
    i: int,
    c: int,
    x: int,
)
    requires
        limbs_fit(torus_bits as int, base2k as int, mask.size as int),
        call_ensures(QueryMask::new, (mask, base2k, torus_bits), r),
        0 <= i < mask.n,
        0 <= c < mask.cols,
        limbs_hold(torus_bits as int, coefficient_limbs(*mask, c, i), base2k as int, x),
    ensures
        r.rows == mask.n && r.cols == mask.cols && r.values@.len() == mask.n * mask.cols,
        (x - r.values@[i * mask.cols + c]) % pow2(torus_bits as nat) as int == 0,
        -(pow2(torus_bits as nat) as int) <= 2 * r.values@[i * mask.cols + c] < pow2(
            torus_bits as nat,
        ),
{
    let q = pow2(torus_bits as nat) as int;
    let turns = lemma_rounded(
        torus_bits as int,
        coefficient_limbs(*mask, c, i),
        base2k as int,
        x,
    );
    lemma_pow2_small(torus_bits as nat);
    lemma_pow2_unfold(torus_bits as nat);
    lemma_pow2_pos((torus_bits - 1) as nat);
    lemma_centred_congruent(x, turns, q);
    lemma_centred_residue(x, q);
}

} // verus!
