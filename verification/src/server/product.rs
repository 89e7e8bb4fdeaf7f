//! Products of the database with query vectors, and how their work is divided.
//!
//! A product is linear in the torus elements of the query, so it needs no secret: output
//! row `r` is the sum of `U[r, j] * b[j]` modulo `2^torus_bits`.

use vstd::prelude::*;
use vstd::arithmetic::div_mod::*;
use vstd::arithmetic::power2::{lemma_pow2_pos, lemma_pow2_unfold, pow2};
use vstd::slice::slice_subrange;
use crate::arith::{clamp, div_ceil, lemma_div_ceil, lemma_quotient, max, min, spec_clamp,
    spec_div_ceil, spec_max, spec_min};
use crate::encoding::{
    centre_i128, centred_residue, lemma_centred_residue, lemma_pow2_small, power_of_two,
};
use crate::limbs::LimbVec;
use crate::matrix::CoeffMatrix;
use crate::parallel::{even_ranges, law_even_split, part_len, part_start};
use crate::payload::Payload;
use crate::store::Database;
use crate::sums::int_sum;

verus! {

// ---------------------------------------------------------------------------
// Exact products
// ---------------------------------------------------------------------------

/// Sum of the first `upto` products of row `row` of `u` with `v`.
pub open spec fn row_dot(u: CoeffMatrix, row: int, v: Seq<i64>, upto: nat) -> int
    decreases upto,
{
    if upto == 0 {
        0
    } else {
        row_dot(u, row, v, (upto - 1) as nat) + u.entry(row, upto - 1) * v[upto - 1]
    }
}

/// Sum of the first `upto` products of row `row` of the blocks with their vectors.
pub open spec fn blocks_dot(
    us: Seq<CoeffMatrix>,
    row: int,
    vs: Seq<Seq<i64>>,
    upto: nat,
) -> int
    decreases upto,
{
    if upto == 0 {
        0
    } else {
        blocks_dot(us, row, vs, (upto - 1) as nat) + row_dot(
            us[upto - 1],
            row,
            vs[upto - 1],
            us[upto - 1].rows_in as nat,
        )
    }
}

/// Reducing early does not change a sum modulo `m`.
pub proof fn lemma_mod_sum(a: int, x: int, m: int)
    requires
        m >= 1,
    ensures
        (a % m + x) % m == (a + x) % m,
{
    lemma_fundamental_div_mod(a, m);
    lemma_mod_bound(a, m);
    lemma_fundamental_div_mod(a % m + x, m);
    lemma_mod_bound(a % m + x, m);
    let q = a / m;
    let p = (a % m + x) / m;
    let r = (a % m + x) % m;
    assert(a + x == m * (q + p) + r) by (nonlinear_arith)
        requires
            a == m * q + a % m,
            a % m + x == m * p + r,
    ;
    lemma_quotient(a + x, m, q + p, r);
}

/// `acc + u * b` modulo `modulus`.
pub fn accumulate(acc: i128, u: i16, b: i64, modulus: i128) -> (r: i128)
    requires
        1 <= modulus <= 0x4000_0000_0000_0000,
        0 <= acc < modulus,
    ensures
        r == (acc + u * b) % (modulus as int),
        0 <= r < modulus,
{
    proof {
        assert(-0x1_0000_0000_0000_0000_0000int <= u * b <= 0x1_0000_0000_0000_0000_0000int)
            by (nonlinear_arith)
            requires
                -0x8000 <= u <= 0x7fff,
                -0x8000_0000_0000_0000 <= b <= 0x7fff_ffff_ffff_ffff,
        ;
        lemma_mod_bound(acc + u * b, modulus as int);
    }
    let sum: i128 = acc + (u as i128) * (b as i128);
    match sum.checked_rem_euclid(modulus) {
        Some(m) => m,
        None => 0,
    }
}

/// One output row of a block product: `start` plus the row's products, modulo `modulus`.
fn accumulate_row(start: i128, u: &CoeffMatrix, row: usize, v: &[i64], modulus: i128) -> (r: i128)
    requires
        u.wf(),
        row < u.rows_out,
        v@.len() == u.rows_in,
        1 <= modulus <= 0x4000_0000_0000_0000,
        0 <= start < modulus,
    ensures
        r == (start + row_dot(*u, row as int, v@, u.rows_in as nat)) % (modulus as int),
        0 <= r < modulus,
{
    let mut acc: i128 = start;
    let mut j: usize = 0;
    proof {
        lemma_small_mod(start as nat, modulus as nat);
    }
    while j < u.rows_in
        invariant
            j <= u.rows_in,
            u.wf(),
            row < u.rows_out,
            v@.len() == u.rows_in,
            1 <= modulus <= 0x4000_0000_0000_0000,
            0 <= acc < modulus,
            acc == (start + row_dot(*u, row as int, v@, j as nat)) % (modulus as int),
        decreases u.rows_in - j,
    {
        let x: i16 = u.at(row, j);
        proof {
            lemma_mod_sum(
                start + row_dot(*u, row as int, v@, j as nat),
                x * v@[j as int],
                modulus as int,
            );
        }
        acc = accumulate(acc, x, v[j], modulus);
        j = j + 1;
    }
    acc
}

/// `U * v` modulo `2^torus_bits`, in centred form.
pub fn matmul(u: &CoeffMatrix, v: &[i64], torus_bits: usize) -> (r: Vec<i64>)
    requires
        u.wf(),
        v@.len() == u.rows_in,
        1 <= torus_bits <= 62,
    ensures
        r@.len() == u.rows_out,
        forall|row: int|
            0 <= row < u.rows_out ==> #[trigger] r@[row] == centred_residue(
                row_dot(*u, row, v@, u.rows_in as nat),
                pow2(torus_bits as nat) as int,
            ),
{
    let modulus: i128 = torus_modulus_i128(torus_bits);
    let mut out: Vec<i64> = Vec::new();
    while out.len() < u.rows_out
        invariant
            out@.len() <= u.rows_out,
            u.wf(),
            v@.len() == u.rows_in,
            2 <= modulus <= 0x4000_0000_0000_0000,
            modulus == pow2(torus_bits as nat),
            forall|row: int|
                0 <= row < out@.len() ==> #[trigger] out@[row] == centred_residue(
                    row_dot(*u, row, v@, u.rows_in as nat),
                    modulus as int,
                ),
        decreases u.rows_out - out@.len(),
    {
        let row: usize = out.len();
        let acc: i128 = accumulate_row(0, u, row, v, modulus);
        proof {
            let d = row_dot(*u, row as int, v@, u.rows_in as nat);
            lemma_mod_twice(d, modulus as int);
        }
        out.push(centre_i128(acc, modulus as i64));
    }
    out
}

/// Blocks and vectors of a product with `rows_out` rows.
pub open spec fn vector_shape(us: Seq<CoeffMatrix>, bodies: Seq<Vec<i64>>, rows_out: int) -> bool {
    &&& us.len() == bodies.len()
    &&& forall|b: int|
        0 <= b < us.len() ==> {
            &&& (#[trigger] us[b]).wf()
            &&& us[b].rows_out == rows_out
            &&& bodies[b]@.len() == us[b].rows_in
        }
}

/// The product of a row of blocks with their vectors, modulo `2^torus_bits`, in centred
/// form.
pub fn blocks_product(
    us: &[CoeffMatrix],
    bodies: &[Vec<i64>],
    rows_out: usize,
    torus_bits: usize,
) -> (r: Vec<i64>)
    requires
        vector_shape(us@, bodies@, rows_out as int),
        1 <= torus_bits <= 62,
    ensures
        r@.len() == rows_out,
        forall|row: int|
            0 <= row < rows_out ==> #[trigger] r@[row] == centred_residue(
                blocks_dot(us@, row, bodies_of(bodies@), bodies@.len()),
                pow2(torus_bits as nat) as int,
            ),
{
    let modulus: i128 = torus_modulus_i128(torus_bits);
    let ghost vs = bodies_of(bodies@);
    let mut out: Vec<i64> = Vec::new();
    while out.len() < rows_out
        invariant
            out@.len() <= rows_out,
            vector_shape(us@, bodies@, rows_out as int),
            2 <= modulus <= 0x4000_0000_0000_0000,
            modulus == pow2(torus_bits as nat),
            vs == bodies_of(bodies@),
            forall|row: int|
                0 <= row < out@.len() ==> #[trigger] out@[row] == centred_residue(
                    blocks_dot(us@, row, vs, bodies@.len()),
                    modulus as int,
                ),
        decreases rows_out - out@.len(),
    {
        let row: usize = out.len();
        let mut acc: i128 = 0;
        let mut b: usize = 0;
        proof {
            lemma_small_mod(0, modulus as nat);
        }
        while b < bodies.len()
            invariant
                b <= bodies@.len(),
                row < rows_out,
                vector_shape(us@, bodies@, rows_out as int),
                2 <= modulus <= 0x4000_0000_0000_0000,
                vs == bodies_of(bodies@),
                0 <= acc < modulus,
                acc == blocks_dot(us@, row as int, vs, b as nat) % (modulus as int),
            decreases bodies@.len() - b,
        {
            proof {
                assert(us@[b as int].wf());
                assert(vs[b as int] == bodies@[b as int]@);
                lemma_mod_sum(
                    blocks_dot(us@, row as int, vs, b as nat),
                    row_dot(
                        us@[b as int],
                        row as int,
                        bodies@[b as int]@,
                        us@[b as int].rows_in as nat,
                    ),
                    modulus as int,
                );
            }
            acc = accumulate_row(acc, &us[b], row, bodies[b].as_slice(), modulus);
            b = b + 1;
        }
        proof {
            lemma_mod_twice(blocks_dot(us@, row as int, vs, bodies@.len()), modulus as int);
        }
        out.push(centre_i128(acc, modulus as i64));
    }
    out
}

/// `2^torus_bits`, for precisions that fit a signed word.
pub fn torus_modulus_i128(torus_bits: usize) -> (r: i128)
    requires
        torus_bits <= 62,
    ensures
        r == pow2(torus_bits as nat),
        1 <= r <= 0x4000_0000_0000_0000,
        torus_bits >= 1 ==> r >= 2,
{
    proof {
        crate::encoding::lemma_pow2_small(torus_bits as nat);
        if torus_bits >= 1 {
            vstd::arithmetic::power2::lemma2_to64();
            if torus_bits > 1 {
                vstd::arithmetic::power2::lemma_pow2_strictly_increases(1, torus_bits as nat);
            }
        }
    }
    power_of_two(torus_bits)
}

pub proof fn lemma_mod_twice(a: int, m: int)
    requires
        m >= 1,
    ensures
        (a % m) % m == a % m,
{
    lemma_mod_bound(a, m);
    lemma_quotient(a % m, m, 0, a % m);
}

pub proof fn lemma_group_range(g: int, groups: int, cb: int)
    requires
        0 <= g < groups,
        cb >= 0,
    ensures
        0 <= g * cb,
        g * cb + cb <= groups * cb,
{
    assert(0 <= g * cb && g * cb + cb <= groups * cb) by (nonlinear_arith)
        requires
            0 <= g,
            g + 1 <= groups,
            cb >= 0,
    ;
}

impl<P: Payload<[u8; 32]>> Database<P> {
    /// Blocks of one block-row.
    pub open spec fn block_row(self, row_group: int) -> Seq<CoeffMatrix> {
        Seq::new(
            self.spec_column_blocks() as nat,
            |b: int| self.blocks@[row_group * self.spec_column_blocks() + b],
        )
    }

    /// Product of one block-row with the vectors of a query, modulo `2^torus_bits`.
    pub fn body_product(&self, row_group: usize, bodies: &[Vec<i64>], torus_bits: usize) -> (r: Vec<
        i64,
    >)
        requires
            self.wf(),
            row_group < self.spec_physical_rows(),
            bodies@.len() == self.spec_column_blocks(),
            forall|b: int| 0 <= b < bodies@.len() ==> (#[trigger] bodies@[b])@.len() == self.n,
            1 <= torus_bits <= 62,
        ensures
            r@.len() == self.n,
            forall|row: int|
                0 <= row < self.n ==> #[trigger] r@[row] == centred_residue(
                    blocks_dot(
                        self.block_row(row_group as int),
                        row,
                        bodies_of(bodies@),
                        bodies@.len(),
                    ),
                    pow2(torus_bits as nat) as int,
                ),
    {
        let cb: usize = self.column_blocks();
        let total: usize = self.blocks.len();
        proof {
            self.lemma_block_row(row_group as int);
            lemma_group_range(row_group as int, self.spec_physical_rows(), cb as int);
        }
        let us = slice_subrange(self.blocks.as_slice(), row_group * cb, row_group * cb + cb);
        proof {
            assert(us@ =~= self.block_row(row_group as int));
        }
        blocks_product(us, bodies, self.n, torus_bits)
    }

    /// A query vector that is `delta` at one column and zero elsewhere selects that
    /// column: output row `row` of block-row `row_group` is `delta` times the digit
    /// stored there.
    pub proof fn law_one_hot_selects(
        self,
        row_group: int,
        row: int,
        column: int,
        delta: int,
        vs: Seq<Seq<i64>>,
    )
        requires
            self.wf(),
            0 <= row < self.n,
            0 <= row_group,
            self.has_cell(row_group * self.n + row, column),
            vs.len() == self.spec_column_blocks(),
            forall|b: int, j: int|
                0 <= b < vs.len() && 0 <= j < self.n ==> #[trigger] vs[b][j] == (if b * self.n + j
                    == column {
                    delta
                } else {
                    0
                }),
        ensures
            blocks_dot(self.block_row(row_group), row, vs, vs.len()) == self.cell(
                row_group * self.n + row,
                column,
            ) * delta,
    {
        let n = self.n as int;
        let us = self.block_row(row_group);
        let hot = column / n;
        let slot = column % n;
        let at = row_group * n + row;
        lemma_quotient(at, n, row_group, row);
        lemma_fundamental_div_mod(column, n);
        lemma_mod_pos_bound(column, n);
        lemma_div_pos_is_pos(column, n);
        crate::store::lemma_block_bound(column, self.layout.cols as int, n);
        crate::store::lemma_block_bound(at, self.layout.rows as int, n);
        assert(n * hot == hot * n) by (nonlinear_arith);
        assert forall|b: int, j: int| 0 <= b < vs.len() && 0 <= j < n implies #[trigger] vs[b][j]
            == (if b == hot && j == slot {
            delta
        } else {
            0
        }) by {
            if b * n + j == column {
                lemma_quotient(column, n, b, j);
            }
        }
        assert forall|b: int| 0 <= b < us.len() implies (#[trigger] us[b]).rows_in == n by {
            crate::matrix::lemma_flat_index(
                row_group,
                b,
                self.spec_physical_rows(),
                self.spec_column_blocks(),
            );
        }
        lemma_blocks_hot(us, row, vs, vs.len(), hot, slot, delta, n);
    }
}

/// Contents of the vectors of a query.
pub open spec fn bodies_of(bodies: Seq<Vec<i64>>) -> Seq<Seq<i64>> {
    Seq::new(bodies.len(), |b: int| bodies[b]@)
}

proof fn lemma_row_hot(
    u: CoeffMatrix,
    row: int,
    v: Seq<i64>,
    upto: nat,
    hot: bool,
    slot: int,
    delta: int,
)
    requires
        forall|j: int|
            0 <= j < upto ==> #[trigger] v[j] == (if hot && j == slot {
                delta
            } else {
                0
            }),
        0 <= slot,
    ensures
        row_dot(u, row, v, upto) == (if hot && slot < upto {
            u.entry(row, slot) * delta
        } else {
            0
        }),
    decreases upto,
{
    if upto > 0 {
        lemma_row_hot(u, row, v, (upto - 1) as nat, hot, slot, delta);
        assert(v[upto - 1] == (if hot && upto - 1 == slot {
            delta
        } else {
            0
        }));
        assert(u.entry(row, upto - 1) * 0 == 0) by (nonlinear_arith);
    }
}

proof fn lemma_blocks_hot(
    us: Seq<CoeffMatrix>,
    row: int,
    vs: Seq<Seq<i64>>,
    upto: nat,
    hot: int,
    slot: int,
    delta: int,
    n: int,
)
    requires
        upto <= vs.len(),
        us.len() == vs.len(),
        0 <= slot < n,
        0 <= hot,
        forall|b: int| 0 <= b < us.len() ==> (#[trigger] us[b]).rows_in == n,
        forall|b: int, j: int|
            0 <= b < vs.len() && 0 <= j < n ==> #[trigger] vs[b][j] == (if b == hot && j == slot {
                delta
            } else {
                0
            }),
    ensures
        blocks_dot(us, row, vs, upto) == (if hot < upto {
            us[hot].entry(row, slot) * delta
        } else {
            0
        }),
    decreases upto,
{
    if upto > 0 {
        let b = upto - 1;
        lemma_blocks_hot(us, row, vs, b as nat, hot, slot, delta, n);
        assert(us[b].rows_in == n);
        lemma_row_hot(us[b], row, vs[b], n as nat, b == hot, slot, delta);
    }
}

// ---------------------------------------------------------------------------
// Division of work
// ---------------------------------------------------------------------------

/// Axis along which a mask product is split.
#[derive(Clone, Copy, Debug, PartialEq, Eq, Structural)]
pub enum MaskSplit {
    /// Contiguous strips of output columns.
    Cols,
    /// Contiguous ranges of blocks, whose partial sums are added up in order.
    Blocks,
}

/// How a mask product is divided among workers.
#[derive(Debug)]
pub enum MaskPlan {
    /// One worker.
    Sequential,
    /// One worker per strip `(first column, width)`.
    Cols(Vec<(usize, usize)>),
    /// One worker per range `(first block, count)`.
    Blocks(Vec<(usize, usize)>),
}

/// Runs that split `total` items evenly into `parts`.
pub open spec fn is_even_split(runs: Seq<(usize, usize)>, total: int, parts: int) -> bool {
    runs.len() == parts && forall|i: int|
        0 <= i < parts ==> (#[trigger] runs[i]).0 == part_start(total, parts, i) && runs[i].1
            == part_len(total, parts, i)
}

/// Divides the product of `blocks` panels with masks of `lwe_n` columns.
pub fn mask_plan(blocks: usize, lwe_n: usize, mask_threads: usize, split: MaskSplit) -> (r:
    MaskPlan)
    requires
        lwe_n >= 1,
    ensures
        ({
            let workers = spec_clamp(mask_threads as int, 1, lwe_n as int);
            if workers <= 1 {
                r is Sequential
            } else if split is Blocks && blocks >= 2 {
                r matches MaskPlan::Blocks(runs) && is_even_split(
                    runs@,
                    blocks as int,
                    spec_min(workers, blocks as int),
                )
            } else {
                r matches MaskPlan::Cols(runs) && is_even_split(runs@, lwe_n as int, workers)
            }
        }),
{
    let workers: usize = clamp(mask_threads, 1, lwe_n);
    if workers <= 1 {
        return MaskPlan::Sequential;
    }
    match split {
        MaskSplit::Blocks => if blocks >= 2 {
            MaskPlan::Blocks(even_ranges(blocks, min(workers, blocks)))
        } else {
            MaskPlan::Cols(even_ranges(lwe_n, workers))
        },
        MaskSplit::Cols => MaskPlan::Cols(even_ranges(lwe_n, workers)),
    }
}

/// Every item belongs to exactly one run of an even split, and no run is empty when there
/// are at least as many items as runs.
pub proof fn law_split_covers_once(runs: Seq<(usize, usize)>, total: int, parts: int, item: int)
    requires
        parts >= 1,
        is_even_split(runs, total, parts),
        0 <= item < total,
    ensures
        exists|i: int|
            0 <= i < parts && (#[trigger] runs[i]).0 <= item < runs[i].0 + runs[i].1,
        forall|i: int, j: int|
            0 <= i < parts && 0 <= j < parts && (#[trigger] runs[i]).0 <= item < runs[i].0
                + runs[i].1 && (#[trigger] runs[j]).0 <= item < runs[j].0 + runs[j].1 ==> i == j,
        total >= parts ==> forall|i: int| 0 <= i < parts ==> (#[trigger] runs[i]).1 >= 1,
{
    law_even_split(total, parts, 0);
    lemma_some_run(total, parts, item, parts);
    let w = choose|w: int|
        0 <= w < parts && part_start(total, parts, w) <= item < part_start(total, parts, w)
            + #[trigger] part_len(total, parts, w);
    assert(runs[w].0 == part_start(total, parts, w));
    assert forall|i: int, j: int|
        0 <= i < parts && 0 <= j < parts && (#[trigger] runs[i]).0 <= item < runs[i].0 + runs[i].1
            && (#[trigger] runs[j]).0 <= item < runs[j].0 + runs[j].1 implies i == j by {
        if i < j {
            lemma_runs_ordered(total, parts, i, j);
        } else if j < i {
            lemma_runs_ordered(total, parts, j, i);
        }
    }
    assert forall|i: int| total >= parts && 0 <= i < parts implies (#[trigger] runs[i]).1 >= 1 by {
        law_even_split(total, parts, i);
    }
}

proof fn lemma_runs_ordered(total: int, parts: int, i: int, j: int)
    requires
        total >= 0,
        parts >= 1,
        0 <= i < j < parts,
    ensures
        part_start(total, parts, i) + part_len(total, parts, i) <= part_start(total, parts, j),
    decreases j - i,
{
    law_even_split(total, parts, i);
    if i + 1 < j {
        law_even_split(total, parts, i + 1);
        lemma_runs_ordered(total, parts, i + 1, j);
    }
}

proof fn lemma_some_run(total: int, parts: int, item: int, upto: int)
    requires
        total >= 0,
        parts >= 1,
        0 <= item < part_start(total, parts, upto),
        0 <= upto <= parts,
        part_start(total, parts, 0) == 0,
    ensures
        exists|w: int|
            0 <= w < upto && part_start(total, parts, w) <= item < part_start(total, parts, w)
                + #[trigger] part_len(total, parts, w),
    decreases upto,
{
    if upto > 0 {
        law_even_split(total, parts, upto - 1);
        if item < part_start(total, parts, upto - 1) {
            lemma_some_run(total, parts, item, upto - 1);
            let w = choose|w: int|
                0 <= w < upto - 1 && part_start(total, parts, w) <= item < part_start(
                    total,
                    parts,
                    w,
                ) + #[trigger] part_len(total, parts, w);
            assert(part_start(total, parts, w) <= item < part_start(total, parts, w) + part_len(
                total,
                parts,
                w,
            ));
        } else {
            assert(part_start(total, parts, upto - 1) <= item < part_start(total, parts, upto - 1)
                + part_len(total, parts, upto - 1));
        }
    }
}

/// Output rows `start .. start + len` of one block-row.
#[derive(Clone, Copy, Debug, PartialEq, Eq, Structural)]
pub struct BodyTile {
    pub group: usize,
    pub start: usize,
    pub len: usize,
}

/// Rows of one tile of a body product.
pub open spec fn spec_band(physical_rows: int, rows_out: int, threads: int) -> int {
    spec_max(
        spec_div_ceil(rows_out, spec_max(spec_div_ceil(threads, physical_rows), 1)),
        1,
    )
}

/// The `i`-th tile of a block-row.
pub open spec fn spec_tile(group: int, i: int, rows_out: int, band: int) -> BodyTile {
    BodyTile {
        group: group as usize,
        start: (i * band) as usize,
        len: spec_min(band, rows_out - i * band) as usize,
    }
}

/// The tiles of all block-rows, and how many of them one worker takes.
#[derive(Debug)]
pub struct BodyPlan {
    pub tiles: Vec<BodyTile>,
    pub chunk: usize,
}

/// Divides the body product over `physical_rows` block-rows of `rows_out` rows: every
/// block-row is cut into bands, so that the tiles reach the number of workers.
pub fn body_plan(physical_rows: usize, rows_out: usize, threads: usize) -> (r: BodyPlan)
    requires
        physical_rows >= 1,
        physical_rows * rows_out <= usize::MAX,
    ensures
        ({
            let band = spec_band(physical_rows as int, rows_out as int, threads as int);
            let per = spec_div_ceil(rows_out as int, band);
            &&& band >= 1
            &&& r.tiles@.len() == physical_rows * per
            &&& forall|g: int, i: int|
                0 <= g < physical_rows && 0 <= i < per ==> r.tiles@[g * per + i] == #[trigger]
                spec_tile(g, i, rows_out as int, band)
            &&& r.chunk == spec_max(
                spec_div_ceil(r.tiles@.len() as int, spec_max(threads as int, 1)),
                1,
            )
        }),
{
    let tiles_per_group: usize = max(div_ceil(threads, physical_rows), 1);
    let band: usize = max(div_ceil(rows_out, tiles_per_group), 1);
    let ghost per = spec_div_ceil(rows_out as int, band as int);
    proof {
        lemma_div_ceil(rows_out as int, band as int);
        assert(0 * per == 0) by (nonlinear_arith);
    }
    let mut tiles: Vec<BodyTile> = Vec::new();
    let mut group: usize = 0;
    while group < physical_rows
        invariant
            group <= physical_rows,
            physical_rows >= 1,
            physical_rows * rows_out <= usize::MAX,
            band >= 1,
            per == spec_div_ceil(rows_out as int, band as int),
            0 <= per <= rows_out,
            per * band >= rows_out,
            rows_out > 0 ==> (per - 1) * band < rows_out,
            rows_out == 0 ==> per == 0,
            tiles@.len() == group * per,
            forall|g: int, i: int|
                0 <= g < group && 0 <= i < per ==> tiles@[g * per + i] == #[trigger] spec_tile(
                    g,
                    i,
                    rows_out as int,
                    band as int,
                ),
        decreases physical_rows - group,
    {
        let mut start: usize = 0;
        let ghost mut i: int = 0;
        proof {
            assert(0 * band == 0) by (nonlinear_arith);
        }
        while start < rows_out
            invariant
                group < physical_rows,
                physical_rows * rows_out <= usize::MAX,
                band >= 1,
                start <= rows_out,
                0 <= i <= per,
                per <= rows_out,
                per * band >= rows_out,
                (per - 1) * band < rows_out || rows_out == 0,
                rows_out == 0 ==> per == 0,
                start == spec_min(i * band, rows_out as int),
                i < per ==> i * band < rows_out,
                start < rows_out ==> start == i * band,
                tiles@.len() == group * per + i,
                forall|g: int, j: int|
                    0 <= g < group && 0 <= j < per ==> tiles@[g * per + j] == #[trigger] spec_tile(
                        g,
                        j,
                        rows_out as int,
                        band as int,
                    ),
                forall|j: int|
                    0 <= j < i ==> tiles@[group * per + j] == #[trigger] spec_tile(
                        group as int,
                        j,
                        rows_out as int,
                        band as int,
                    ),
            decreases rows_out - start,
        {
            let len: usize = min(band, rows_out - start);
            let ghost old_tiles = tiles@;
            proof {
                assert(i < per) by (nonlinear_arith)
                    requires
                        i * band < rows_out,
                        per * band >= rows_out,
                        band >= 1,
                ;
                assert((i + 1) * band == i * band + band) by (nonlinear_arith);
                if i + 1 < per {
                    assert((i + 1) * band <= (per - 1) * band) by (nonlinear_arith)
                        requires
                            i + 1 <= per - 1,
                            band >= 1,
                    ;
                }
            }
            tiles.push(BodyTile { group, start, len });
            start = start + len;
            proof {
                assert forall|g: int, j: int|
                    0 <= g < group && 0 <= j < per implies tiles@[g * per + j] == #[trigger]
                spec_tile(g, j, rows_out as int, band as int) by {
                    assert(0 <= g * per + j < group * per) by (nonlinear_arith)
                        requires
                            0 <= g,
                            g + 1 <= group,
                            0 <= j < per,
                    ;
                    assert(old_tiles[g * per + j] == spec_tile(
                        g,
                        j,
                        rows_out as int,
                        band as int,
                    ));
                }
                assert(group * per >= 0) by (nonlinear_arith)
                    requires
                        group >= 0,
                        per >= 0,
                ;
                i = i + 1;
            }
        }
        proof {
            assert(i == per) by {
                if i < per {
                    assert(false);
                }
            }
            assert((group + 1) * per == group * per + per) by (nonlinear_arith);
            assert forall|g: int, j: int|
                0 <= g < group + 1 && 0 <= j < per implies tiles@[g * per + j] == #[trigger]
            spec_tile(g, j, rows_out as int, band as int) by {
                if g == group {
                    assert(group * per + j == g * per + j);
                }
            }
        }
        group = group + 1;
    }
    let chunk: usize = max(div_ceil(tiles.len(), max(threads, 1)), 1);
    BodyPlan { tiles, chunk }
}

/// Every output row of every block-row lies in exactly one tile.
pub proof fn law_tiles_cover_once(
    tiles: Seq<BodyTile>,
    physical_rows: int,
    rows_out: int,
    band: int,
    group: int,
    row: int,
)
    requires
        band >= 1,
        rows_out <= usize::MAX,
        physical_rows <= usize::MAX,
        0 <= group < physical_rows,
        0 <= row < rows_out,
        tiles.len() == physical_rows * spec_div_ceil(rows_out, band),
        forall|g: int, i: int|
            0 <= g < physical_rows && 0 <= i < spec_div_ceil(rows_out, band) ==> tiles[g
                * spec_div_ceil(rows_out, band) + i] == #[trigger] spec_tile(g, i, rows_out, band),
    ensures
        ({
            let at = group * spec_div_ceil(rows_out, band) + row / band;
            &&& 0 <= at < tiles.len()
            &&& forall|k: int|
                0 <= k < tiles.len() ==> ((#[trigger] tiles[k]).group == group && tiles[k].start
                    <= row < tiles[k].start + tiles[k].len <==> k == at)
        }),
{
    let per = spec_div_ceil(rows_out, band);
    lemma_div_ceil(rows_out, band);
    lemma_fundamental_div_mod(row, band);
    lemma_mod_pos_bound(row, band);
    lemma_div_pos_is_pos(row, band);
    let w = row / band;
    assert(band * w == w * band) by (nonlinear_arith);
    crate::store::lemma_block_bound(row, rows_out, band);
    crate::matrix::lemma_flat_index(group, w, physical_rows, per);
    let at = group * per + w;
    assert forall|k: int| 0 <= k < tiles.len() implies ((#[trigger] tiles[k]).group == group
        && tiles[k].start <= row < tiles[k].start + tiles[k].len <==> k == at) by {
        let g = k / per;
        let i = k % per;
        lemma_fundamental_div_mod(k, per);
        lemma_mod_pos_bound(k, per);
        lemma_div_pos_is_pos(k, per);
        assert(per * g == g * per) by (nonlinear_arith);
        assert(g < physical_rows) by (nonlinear_arith)
            requires
                k == g * per + i,
                k < physical_rows * per,
                i >= 0,
                per >= 1,
        ;
        assert(tiles[g * per + i] == spec_tile(g, i, rows_out, band));
        assert(0 <= i * band && i * band < rows_out) by (nonlinear_arith)
            requires
                0 <= i <= per - 1,
                (per - 1) * band < rows_out,
                band >= 1,
        ;
        if tiles[k].group == group && tiles[k].start <= row < tiles[k].start + tiles[k].len {
            lemma_quotient(row, band, i, row - i * band);
        }
        if k == at {
            lemma_quotient(k, per, group, w);
        }
    }
}

// ---------------------------------------------------------------------------
// Row copies
// ---------------------------------------------------------------------------

/// Copies `rows` coefficients of every limb from `src`, starting at `src_start`, to
/// `dst`, starting at `dst_start`.
pub fn copy_vec_znx_rows(
    dst: &mut LimbVec,
    dst_start: usize,
    src: &LimbVec,
    src_start: usize,
    rows: usize,
)
    requires
        old(dst).wf(),
        src.wf(),
        old(dst).cols == src.cols,
        old(dst).size == src.size,
        dst_start + rows <= old(dst).n,
        src_start + rows <= src.n,
    ensures
        final(dst).wf(),
        final(dst).same_shape(old(dst)),
        forall|col: int, limb: int, i: int|
            old(dst).contains(col, limb, i) ==> #[trigger] final(dst).coeff(col, limb, i) == (
            if dst_start <= i < dst_start + rows {
                src.coeff(col, limb, src_start + i - dst_start)
            } else {
                old(dst).coeff(col, limb, i)
            }),
{
    let ghost before = *dst;
    let mut col: usize = 0;
    while col < dst.cols
        invariant
            col <= dst.cols,
            dst.wf(),
            dst.same_shape(&before),
            src.wf(),
            before.cols == src.cols,
            before.size == src.size,
            dst_start + rows <= before.n,
            src_start + rows <= src.n,
            forall|c: int, l: int, i: int|
                before.contains(c, l, i) ==> #[trigger] dst.coeff(c, l, i) == (if c < col
                    && dst_start <= i < dst_start + rows {
                    src.coeff(c, l, src_start + i - dst_start)
                } else {
                    before.coeff(c, l, i)
                }),
        decreases dst.cols - col,
    {
        let mut limb: usize = 0;
        while limb < dst.size
            invariant
                col < dst.cols,
                limb <= dst.size,
                dst.wf(),
                dst.same_shape(&before),
                src.wf(),
                before.cols == src.cols,
                before.size == src.size,
                dst_start + rows <= before.n,
                src_start + rows <= src.n,
                forall|c: int, l: int, i: int|
                    before.contains(c, l, i) ==> #[trigger] dst.coeff(c, l, i) == (if (c < col || c
                        == col && l < limb) && dst_start <= i < dst_start + rows {
                        src.coeff(c, l, src_start + i - dst_start)
                    } else {
                        before.coeff(c, l, i)
                    }),
            decreases dst.size - limb,
        {
            let mut row: usize = 0;
            while row < rows
                invariant
                    col < dst.cols,
                    limb < dst.size,
                    row <= rows,
                    dst.wf(),
                    dst.same_shape(&before),
                    src.wf(),
                    before.cols == src.cols,
                    before.size == src.size,
                    dst_start + rows <= before.n,
                    src_start + rows <= src.n,
                    forall|c: int, l: int, i: int|
                        before.contains(c, l, i) ==> #[trigger] dst.coeff(c, l, i) == (if (c < col
                            || c == col && l < limb) && dst_start <= i < dst_start + rows || c
                            == col && l == limb && dst_start <= i < dst_start + row {
                            src.coeff(c, l, src_start + i - dst_start)
                        } else {
                            before.coeff(c, l, i)
                        }),
                decreases rows - row,
            {
                let x: i64 = src.get(col, limb, src_start + row);
                dst.set(col, limb, dst_start + row, x);
                row = row + 1;
            }
            limb = limb + 1;
        }
        col = col + 1;
    }
}

// ---------------------------------------------------------------------------
// What the products are
// ---------------------------------------------------------------------------

/// The inner product of a row of the blocks with their vectors, block by block and column
/// by column.
pub open spec fn inner_product(us: Seq<CoeffMatrix>, row: int, vs: Seq<Seq<i64>>) -> int {
    int_sum(
        0,
        us.len() as int,
        |b: int| int_sum(0, us[b].rows_in as int, |j: int| us[b].entry(row, j) * vs[b][j]),
    )
}

proof fn lemma_row_dot_sum(u: CoeffMatrix, row: int, v: Seq<i64>, upto: nat)
    ensures
        row_dot(u, row, v, upto) == int_sum(0, upto as int, |j: int| u.entry(row, j) * v[j]),
    decreases upto,
{
    if upto > 0 {
        lemma_row_dot_sum(u, row, v, (upto - 1) as nat);
    }
}

/// The product of the blocks is the inner product of their rows.
pub proof fn law_blocks_dot_is_inner_product(us: Seq<CoeffMatrix>, row: int, vs: Seq<Seq<i64>>)
    ensures
        blocks_dot(us, row, vs, us.len()) == inner_product(us, row, vs),
{
    lemma_blocks_dot_sum(us, row, vs, us.len());
}

proof fn lemma_blocks_dot_sum(us: Seq<CoeffMatrix>, row: int, vs: Seq<Seq<i64>>, upto: nat)
    ensures
        blocks_dot(us, row, vs, upto) == int_sum(
            0,
            upto as int,
            |b: int| int_sum(0, us[b].rows_in as int, |j: int| us[b].entry(row, j) * vs[b][j]),
        ),
    decreases upto,
{
    if upto > 0 {
        lemma_blocks_dot_sum(us, row, vs, (upto - 1) as nat);
        let u = us[upto - 1];
        lemma_row_dot_sum(u, row, vs[upto - 1], u.rows_in as nat);
    }
}

/// A matrix times a vector holds the inner products of its rows, modulo the torus, in
/// centred form.
pub proof fn law_matrix_product_is_inner_products(
    u: &CoeffMatrix,
    v: &[i64],
    torus_bits: usize,
    r: Vec<i64>,
    row: int,
)
    requires
        1 <= torus_bits <= 62,
        call_ensures(matmul, (u, v, torus_bits), r),
        0 <= row < u.rows_out,
    ensures
        r@.len() == u.rows_out,
        (int_sum(0, u.rows_in as int, |j: int| u.entry(row, j) * v@[j]) - r@[row]) % pow2(
            torus_bits as nat,
        ) as int == 0,
        -(pow2(torus_bits as nat) as int) <= 2 * r@[row] < pow2(torus_bits as nat),
{
    lemma_row_dot_sum(*u, row, v@, u.rows_in as nat);
    lemma_pow2_small(torus_bits as nat);
    lemma_pow2_unfold(torus_bits as nat);
    lemma_pow2_pos((torus_bits - 1) as nat);
    lemma_centred_residue(
        row_dot(*u, row, v@, u.rows_in as nat),
        pow2(torus_bits as nat) as int,
    );
}

/// A block-row times the vectors of a query holds the inner products of its rows, modulo
/// the torus, in centred form.
pub proof fn law_body_product_is_inner_products<P: Payload<[u8; 32]>>(
    db: &Database<P>,
    row_group: usize,
    bodies: &[Vec<i64>],
    torus_bits: usize,
    r: Vec<i64>,
    row: int,
)
    requires
        db.wf(),
        row_group < db.spec_physical_rows(),
        bodies@.len() == db.spec_column_blocks(),
        1 <= torus_bits <= 62,
        call_ensures(Database::<P>::body_product, (db, row_group, bodies, torus_bits), r),
        0 <= row < db.n,
    ensures
        r@.len() == db.n,
        (inner_product(db.block_row(row_group as int), row, bodies_of(bodies@)) - r@[row]) % pow2(
            torus_bits as nat,
        ) as int == 0,
        -(pow2(torus_bits as nat) as int) <= 2 * r@[row] < pow2(torus_bits as nat),
        forall|b: int|
            0 <= b < db.spec_column_blocks() ==> #[trigger] db.block_row(row_group as int)[b]
                == db.blocks@[row_group * db.spec_column_blocks() + b],
        db.block_row(row_group as int).len() == db.spec_column_blocks(),
{
    let us = db.block_row(row_group as int);
    let vs = bodies_of(bodies@);
    lemma_div_ceil(db.layout.cols as int, db.n as int);
    assert(us.len() == db.spec_column_blocks());
    law_blocks_dot_is_inner_product(us, row, vs);
    lemma_pow2_small(torus_bits as nat);
    lemma_pow2_unfold(torus_bits as nat);
    lemma_pow2_pos((torus_bits - 1) as nat);
    lemma_centred_residue(blocks_dot(us, row, vs, us.len()), pow2(torus_bits as nat) as int);
}

/// Copying rows moves `rows` coefficients of every column and limb, and leaves all others.
pub proof fn law_rows_are_copied(
    dst: &mut LimbVec,
    dst_row: usize,
    src: &LimbVec,
    src_row: usize,
    rows: usize,
    col: int,
    limb: int,
    i: int,
)
    requires
        call_ensures(copy_vec_znx_rows, (dst, dst_row, src, src_row, rows), ()),
        old(dst).contains(col, limb, i),
    ensures
        final(dst).n == old(dst).n && final(dst).cols == old(dst).cols && final(dst).size == old(
            dst,
        ).size,
        dst_row <= i < dst_row + rows ==> final(dst).coeff(col, limb, i) == src.coeff(
            col,
            limb,
            src_row + (i - dst_row),
        ),
        !(dst_row <= i < dst_row + rows) ==> final(dst).coeff(col, limb, i) == old(dst).coeff(
            col,
            limb,
            i,
        ),
{
}

} // verus!
