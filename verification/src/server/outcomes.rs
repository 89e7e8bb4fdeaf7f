//! What the server's calls come to, call by call.

use vstd::prelude::*;
use vstd::arithmetic::div_mod::*;
use vstd::arithmetic::power2::{is_pow2, lemma_pow2_pos, lemma_pow2_unfold, pow2};
use crate::arith::{
    just_enough, lemma_div_ceil, lemma_just_enough, lemma_quotient, spec_div_ceil,
};
use crate::config::{Collapse, Config};
use crate::database::{
    law_second_dimension_holds_block_rows, lemma_next_power_unique, DatabaseLayout, PayloadAddress,
};
use crate::encoding::{centred_residue, lemma_centred_residue, lemma_pow2_small};
use crate::error::{CollapseKind, PirError};
use crate::matrix::CoeffMatrix;
use crate::messages::Query;
use crate::parallel::num_threads;
use crate::parameters::Parameters;
use crate::payload::Payload;
use crate::server::answer::query_body;
use crate::server::gemm::{
    law_range_dot_is_inner_product, mask_inner_product, range_dot, QueryMask,
};
use crate::server::interpolation::transpose;
use crate::server::offline::{QueryMasks, ServerPrecomputation};
use crate::server::plan::{missing_arenas, Threads};
use crate::server::product::{
    blocks_dot, bodies_of, inner_product, law_blocks_dot_is_inner_product, MaskSplit,
};
use crate::server::recursion::{inner_threads, key_stride};
use crate::server::{batch_mode, scratch_bytes, BatchMode, RecursionOfflineShape, Server};
use crate::store::Database;

verus! {

// ---------------------------------------------------------------------------
// Setup
// ---------------------------------------------------------------------------

/// A server serves exactly the layouts of its construction: for interpolation whole blocks
/// in both dimensions, with a root of unity for every block-row, and for recursion whole
/// batches; of valid configurations, and within what the machine can count.
pub proof fn law_supported_layouts<P: Payload<[u8; 32]>>(
    config: &Config<P>,
    layout: &DatabaseLayout<P>,
    params: Result<Parameters<P>, PirError>,
    blocks: usize,
    physical: usize,
    r: bool,
)
    requires
        call_ensures(Config::<P>::try_new, (*config,), params),
        config.n >= 1,
        just_enough(physical as int, config.n as int, layout.rows as int),
        just_enough(blocks as int, config.n as int, layout.cols as int),
        call_ensures(Server::<P>::supports, (config, layout), r),
    ensures
        r <==> {
            &&& params is Ok
            &&& layout.rows >= 1
            &&& layout.cols >= 1
            &&& layout.rows * layout.cols <= usize::MAX
            &&& config.n * config.n <= usize::MAX
            &&& physical * blocks <= usize::MAX
            &&& match config.collapse {
                Collapse::Interpolation => {
                    &&& layout.rows as int % config.n as int == 0
                    &&& layout.cols as int % config.n as int == 0
                    &&& layout.rows as int / config.n as int <= 2 * config.n
                },
                Collapse::Recursion { gamma0, .. } => layout.rows as int % gamma0 as int == 0,
            }
        },
        r ==> call_requires(Server::<P>::new, (*config, *layout)),
{
    let n = config.n as int;
    lemma_just_enough(physical as int, n, layout.rows as int);
    lemma_just_enough(blocks as int, n, layout.cols as int);
    P::law_shape();
    if params is Ok {
        match config.collapse {
            Collapse::Interpolation => {
                layout.lemma_second_dimension_fits(n);
            },
            Collapse::Recursion { gamma0, .. } => {
                lemma_fundamental_div_mod(layout.rows as int, gamma0 as int);
                lemma_div_pos_is_pos(layout.rows as int, gamma0 as int);
                let q = layout.rows as int / gamma0 as int;
                if layout.rows as int % gamma0 as int == 0 && layout.rows >= 1 {
                    assert(q >= 1) by (nonlinear_arith)
                        requires
                            layout.rows == gamma0 * q,
                            layout.rows >= 1,
                            gamma0 >= 1,
                            q >= 0,
                    ;
                }
            },
        }
    }
}

/// A query of the server's construction is answered, and one of the other is rejected.
pub proof fn law_server_answers_its_construction<P: Payload<[u8; 32]>>(
    server: &Server<P>,
    query: &Query,
    r: Result<CollapseKind, PirError>,
)
    requires
        call_ensures(Server::<P>::try_respond, (server, query), r),
    ensures
        r == match (server.params.params.collapse, *query) {
            (Collapse::Interpolation, Query::Interpolation(_)) => Ok::<CollapseKind, PirError>(
                CollapseKind::Interpolation,
            ),
            (Collapse::Recursion { .. }, Query::Recursion(_)) => Ok(CollapseKind::Recursion),
            (Collapse::Interpolation, Query::Recursion(_)) => Err(
                PirError::WrongQueryVariant {
                    expected: CollapseKind::Interpolation,
                    found: CollapseKind::Recursion,
                },
            ),
            (Collapse::Recursion { .. }, Query::Interpolation(_)) => Err(
                PirError::WrongQueryVariant {
                    expected: CollapseKind::Recursion,
                    found: CollapseKind::Interpolation,
                },
            ),
        },
{
}

/// A batch is answered in one pass exactly where all of its queries belong to the same
/// construction, and one by one exactly where they do not.
pub proof fn law_batches_of_one_construction_share_a_pass(queries: &[Query], r: BatchMode)
    requires
        call_ensures(batch_mode, (queries,), r),
    ensures
        r == BatchMode::Empty <==> queries@.len() == 0,
        r == BatchMode::Interpolation <==> queries@.len() > 0 && forall|i: int|
            0 <= i < queries@.len() ==> #[trigger] queries@[i] is Interpolation,
        r == BatchMode::Recursion <==> queries@.len() > 0 && forall|i: int|
            0 <= i < queries@.len() ==> #[trigger] queries@[i] is Recursion,
        r == BatchMode::OneByOne <==> exists|i: int, j: int|
            0 <= i < queries@.len() && 0 <= j < queries@.len() && #[trigger] queries@[i] is Interpolation
                && #[trigger] queries@[j] is Recursion,
{
    if queries@.len() > 0 {
        assert(queries@[0] is Interpolation || queries@[0] is Recursion);
        if r == BatchMode::Interpolation {
            assert forall|i: int| 0 <= i < queries@.len() implies #[trigger] queries@[i] is Interpolation by {
                assert(queries@[i].spec_kind() == CollapseKind::Interpolation);
            }
        }
        if r == BatchMode::Recursion {
            assert forall|i: int| 0 <= i < queries@.len() implies #[trigger] queries@[i] is Recursion by {
                assert(queries@[i].spec_kind() == CollapseKind::Recursion);
            }
        }
        if r == BatchMode::OneByOne {
            let i = choose|i: int|
                0 <= i < queries@.len() && (#[trigger] queries@[i]).spec_kind()
                    != CollapseKind::Interpolation;
            let j = choose|j: int|
                0 <= j < queries@.len() && (#[trigger] queries@[j]).spec_kind()
                    != CollapseKind::Recursion;
            assert(queries@[j] is Interpolation && queries@[i] is Recursion);
        }
    }
}

// ---------------------------------------------------------------------------
// The database
// ---------------------------------------------------------------------------

/// The digits of a payload stand in its column one below the other, from the row of its
/// address on, and every digit in the matrix of its block.
pub proof fn law_payload_lies_at_its_address<P: Payload<[u8; 32]>>(
    db: &Database<P>,
    index: usize,
    address: PayloadAddress,
    k: int,
)
    requires
        db.wf(),
        index < db.spec_capacity(),
        call_ensures(
            DatabaseLayout::<P>::address,
            (&db.layout, index, db.n, db.height),
            address,
        ),
        0 <= k < P::EXPONENT,
    ensures
        db.digits_at(index as int).len() == P::EXPONENT,
        db.digits_at(index as int)[k] == db.cell(
            address.matrix * db.height + address.row_offset + k,
            address.column as int,
        ),
        db.has_cell(
            address.matrix * db.height + address.row_offset + k,
            address.column as int,
        ),
        forall|row: int, col: int| #[trigger]
            db.owns(index as int, row, col) <==> col == address.column && address.matrix * db.height
                + address.row_offset <= row < address.matrix * db.height + address.row_offset
                + P::EXPONENT,
{
    db.lemma_payload_in_grid(index as int);
}

/// A digit of the grid is an entry of the matrix that covers its place.
pub proof fn law_cells_lie_in_matrices<P: Payload<[u8; 32]>>(
    db: &Database<P>,
    row_group: usize,
    block: usize,
    matrix: &CoeffMatrix,
    i: usize,
    j: usize,
    entry: i16,
)
    requires
        db.wf(),
        i < db.n,
        j < db.n,
        db.has_cell(row_group * db.n + i, block * db.n + j),
        call_ensures(Database::<P>::physical_block, (db, row_group, block), matrix),
        call_ensures(CoeffMatrix::at, (matrix, i, j), entry),
    ensures
        entry == db.cell(row_group * db.n + i, block * db.n + j),
{
    lemma_quotient(row_group * db.n + i, db.n as int, row_group as int, i as int);
    lemma_quotient(block * db.n + j, db.n as int, block as int, j as int);
}

/// A server gives back what it stores.
pub proof fn law_server_gets_what_it_stores<P: Payload<[u8; 32]>>(
    server: &Server<P>,
    index: usize,
    value: [u8; 32],
    r: [u8; 32],
)
    requires
        server.database.digits_at(index as int) == P::digits_of(value),
        call_ensures(Server::<P>::get, (server, index), r),
    ensures
        r == value,
{
    P::law_roundtrip(value, r);
}

/// The counts of a database: payloads, batches, and the matrices that hold them.
pub proof fn law_database_counts<P: Payload<[u8; 32]>>(
    db: &Database<P>,
    capacity: usize,
    payloads: usize,
    t: usize,
    blocks: usize,
    physical: usize,
    per_group: usize,
)
    requires
        db.wf(),
        call_ensures(Database::<P>::payload_capacity, (db,), capacity),
        call_ensures(DatabaseLayout::<P>::num_payloads, (&db.layout, db.height), payloads),
        call_ensures(Database::<P>::t, (db,), t),
        call_ensures(Database::<P>::column_blocks, (db,), blocks),
        call_ensures(Database::<P>::physical_rows, (db,), physical),
        call_ensures(Database::<P>::rows_per_physical_group, (db,), per_group),
    ensures
        capacity == payloads,
        t * db.height <= db.layout.rows < (t + 1) * db.height,
        just_enough(blocks as int, db.n as int, db.layout.cols as int),
        just_enough(physical as int, db.n as int, db.layout.rows as int),
        per_group * db.height <= db.n < (per_group + 1) * db.height,
{
    let h = db.height as int;
    lemma_just_enough(blocks as int, db.n as int, db.layout.cols as int);
    lemma_just_enough(physical as int, db.n as int, db.layout.rows as int);
    lemma_fundamental_div_mod(db.layout.rows as int, h);
    lemma_mod_pos_bound(db.layout.rows as int, h);
    lemma_fundamental_div_mod(db.n as int, h);
    lemma_mod_pos_bound(db.n as int, h);
    assert(t * h <= db.layout.rows < (t + 1) * h) by (nonlinear_arith)
        requires
            db.layout.rows == h * t + db.layout.rows as int % h,
            0 <= db.layout.rows as int % h < h,
    ;
    assert(per_group * h <= db.n < (per_group + 1) * h) by (nonlinear_arith)
        requires
            db.n == h * per_group + db.n as int % h,
            0 <= db.n as int % h < h,
    ;
}

// ---------------------------------------------------------------------------
// Answers
// ---------------------------------------------------------------------------

/// The blocks of a query are `delta` in the slot of `column`, and zero elsewhere.
pub open spec fn picks_column(
    query: Seq<Vec<i64>>,
    n: int,
    cols: int,
    column: int,
    delta: int,
) -> bool {
    &&& just_enough(query.len() as int, n, cols)
    &&& forall|b: int, j: int|
        0 <= b < query.len() && 0 <= j < n ==> #[trigger] query[b]@[j] == (if b * n + j == column {
            delta
        } else {
            0
        })
}

proof fn lemma_picked_entry<P: Payload<[u8; 32]>>(
    db: Database<P>,
    query: Seq<Vec<i64>>,
    column: int,
    delta: int,
    row: int,
)
    requires
        db.wf(),
        db.has_cell(row, column),
        picks_column(query, db.n as int, db.layout.cols as int, column, delta),
    ensures
        blocks_dot(
            db.block_row(row / db.n as int),
            row % db.n as int,
            bodies_of(query),
            db.spec_column_blocks() as nat,
        ) == db.cell(row, column) * delta,
{
    let n = db.n as int;
    let vs = bodies_of(query);
    lemma_just_enough(query.len() as int, n, db.layout.cols as int);
    lemma_fundamental_div_mod(row, n);
    lemma_mod_pos_bound(row, n);
    lemma_div_pos_is_pos(row, n);
    assert(n * (row / n) == (row / n) * n) by (nonlinear_arith);
    assert forall|b: int, j: int| 0 <= b < vs.len() && 0 <= j < n implies #[trigger] vs[b][j] == (if b
        * n + j == column {
        delta
    } else {
        0
    }) by {
        assert(query[b]@[j] == (if b * n + j == column {
            delta
        } else {
            0
        }));
    }
    db.law_one_hot_selects(row / n, row % n, column, delta, vs);
}

/// A recursion server packs, for every query of a batch, one body per batch of its
/// database, and leaves none out. For a query that picks a column, body `b` holds the rows of
/// batch `b` in that column, and zeros behind them.
pub proof fn law_every_batch_is_answered<P: Payload<[u8; 32]>>(
    server: &Server<P>,
    queries: &[Vec<Vec<i64>>],
    threads: usize,
    r: Vec<Vec<Vec<i64>>>,
    gamma0: usize,
    q: int,
    column: int,
    delta: int,
    b: int,
    x: int,
)
    requires
        server.wf(),
        server.prepared(),
        server.params.params.collapse matches Collapse::Recursion { gamma0: g, .. } && g == gamma0,
        call_ensures(Server::<P>::batch_bodies, (server, queries, threads), r),
        0 <= q < queries@.len(),
        0 <= column < server.layout.cols,
        picks_column(
            queries@[q]@,
            server.params.params.n as int,
            server.layout.cols as int,
            column,
            delta,
        ),
        0 <= b,
        (b + 1) * gamma0 <= server.layout.rows,
        0 <= x < server.params.params.n,
    ensures
        r@.len() == queries@.len(),
        r@[q]@.len() * gamma0 == server.layout.rows,
        b < r@[q]@.len(),
        r@[q]@[b]@.len() == server.params.params.n,
        r@[q]@[b]@[x] == (if x < gamma0 {
            (server.database.cell(b * gamma0 + x, column) * delta) % pow2(
                server.params.params.k as nat,
            ) as int
        } else {
            0
        }),
{
    P::law_shape();
    let db = server.database;
    let rows = server.layout.rows as int;
    let h = gamma0 as int;
    let t = rows / h;
    lemma_fundamental_div_mod(rows, h);
    assert(t * h == h * t) by (nonlinear_arith);
    assert(b < t) by (nonlinear_arith)
        requires
            (b + 1) * h <= rows,
            rows == h * t,
            h >= 1,
    ;
    assert(server.are_query_bodies(queries@[q]@, r@[q]@));
    assert((b + 1) * h == b * h + h && 0 <= b * h) by (nonlinear_arith)
        requires
            b >= 0,
            h >= 1,
    ;
    if x < gamma0 {
        assert(r@[q]@[b]@[x] == server.product_entry(queries@[q]@, b * h + x));
        lemma_picked_entry(db, queries@[q]@, column, delta, b * h + x);
    }
}

/// An interpolation server packs, for every query of a batch, one body per panel, and as
/// many panels as the second dimension has. For a query that picks a column, body `i` holds
/// that column of panel `i`.
pub proof fn law_every_panel_is_answered<P: Payload<[u8; 32]>>(
    server: &Server<P>,
    queries: &[Vec<Vec<i64>>],
    threads: usize,
    r: Vec<Vec<Vec<i64>>>,
    panels: usize,
    matrix: Database<P>,
    q: int,
    column: int,
    delta: int,
    i: int,
    x: int,
)
    requires
        server.wf(),
        server.current(),
        server.params.params.collapse is Interpolation,
        server.precomputation matches Some(ServerPrecomputation::Interpolation(pre))
            && pre.matrix == matrix,
        call_ensures(Server::<P>::interpolation_panels, (server,), panels),
        call_ensures(Server::<P>::batch_bodies, (server, queries, threads), r),
        0 <= q < queries@.len(),
        picks_column(
            queries@[q]@,
            server.params.params.n as int,
            matrix.layout.cols as int,
            column,
            delta,
        ),
        0 <= i < panels,
        0 <= x < server.params.params.n,
        matrix.has_cell(i * server.params.params.n + x, column),
    ensures
        r@.len() == queries@.len(),
        r@[q]@.len() == panels,
        r@[q]@[i]@.len() == server.params.params.n,
        r@[q]@[i]@[x] == (matrix.cell(i * server.params.params.n + x, column) * delta) % pow2(
            server.params.params.k as nat,
        ) as int,
{
    let n = server.params.params.n as int;
    assert(server.are_query_bodies(queries@[q]@, r@[q]@));
    lemma_next_power_unique(
        server.layout.spec_block_rows(n),
        panels as int,
        matrix.spec_physical_rows(),
    );
    assert(r@[q]@[i]@[x] == server.product_entry(queries@[q]@, i * n + x));
    lemma_picked_entry(matrix, queries@[q]@, column, delta, i * n + x);
}

/// The panels of an interpolation server are the second dimension of its layout.
pub proof fn law_panels_are_the_second_dimension<P: Payload<[u8; 32]>>(
    server: &Server<P>,
    panels: usize,
    t: Option<usize>,
)
    requires
        server.wf(),
        server.params.params.collapse is Interpolation,
        call_ensures(Server::<P>::interpolation_panels, (server,), panels),
        call_ensures(
            DatabaseLayout::<P>::try_interpolation_t,
            (&server.layout, server.params.params.n),
            t,
        ),
    ensures
        t == Some(panels),
        is_pow2(panels as int),
        server.layout.rows as int / server.params.params.n as int <= panels <= 2
            * server.params.params.n,
{
    let n = server.params.params.n as int;
    law_second_dimension_holds_block_rows(&server.layout, server.params.params.n, t);
    match t {
        Some(found) => {
            lemma_next_power_unique(
                server.layout.spec_block_rows(n),
                panels as int,
                found as int,
            );
        },
        None => {},
    }
}

/// The dimensions of the recursion's offline work are those of the configuration and of the
/// layout: as many batches as the rows hold, and limbs that are just enough.
pub proof fn law_offline_shape<P: Payload<[u8; 32]>>(
    server: &Server<P>,
    r: Option<RecursionOfflineShape>,
)
    requires
        server.wf(),
        call_ensures(Server::<P>::recursion_offline_shape, (server,), r),
    ensures
        r is Some <==> server.params.params.collapse is Recursion,
        r matches Some(shape) ==> {
            &&& server.params.params.collapse matches Collapse::Recursion { gamma0, gamma1, .. }
                && shape.gamma0 == gamma0 && shape.gamma1 == gamma1
            &&& shape.n == server.params.params.n
            &&& shape.base2k == server.params.params.base2k
            &&& just_enough(
                shape.size as int,
                shape.base2k as int,
                server.params.params.k as int,
            )
            &&& shape.t * shape.gamma0 == server.layout.rows
            &&& shape.baby_size == 8
            &&& shape.tau == 2
        },
{
    match server.params.params.collapse {
        Collapse::Interpolation => {},
        Collapse::Recursion { gamma0, .. } => {
            let k = server.params.params.k as int;
            let b = server.params.params.base2k as int;
            lemma_div_ceil(k, b);
            lemma_just_enough(spec_div_ceil(k, b), b, k);
            lemma_fundamental_div_mod(server.layout.rows as int, gamma0 as int);
            lemma_div_pos_is_pos(server.layout.rows as int, gamma0 as int);
            let t = server.layout.rows as int / gamma0 as int;
            assert(t * gamma0 == gamma0 * t) by (nonlinear_arith);
            assert(t <= server.layout.rows) by (nonlinear_arith)
                requires
                    server.layout.rows == gamma0 * t,
                    gamma0 >= 1,
                    t >= 0,
            ;
        },
    }
}

/// A layout is accepted exactly where it has rows and columns.
pub proof fn law_layouts_have_rows_and_columns<P: Payload<[u8; 32]>>(
    rows: usize,
    cols: usize,
    r: Result<DatabaseLayout<P>, PirError>,
)
    requires
        call_ensures(DatabaseLayout::<P>::try_new, (rows, cols), r),
    ensures
        rows >= 1 && cols >= 1 ==> (r matches Ok(layout) && layout.rows == rows && layout.cols
            == cols),
        rows == 0 || cols == 0 ==> r == Err::<DatabaseLayout<P>, PirError>(
            PirError::InvalidLayout { rows, cols },
        ),
{
}

/// A column has as many rows as the ring has coefficients, or as a batch of the recursion.
pub proof fn law_column_height<P: Payload<[u8; 32]>>(
    config: &Config<P>,
    params: &Parameters<P>,
    height: usize,
    of_params: usize,
)
    requires
        params.params == *config,
        call_ensures(Config::<P>::column_height, (config,), height),
        call_ensures(Parameters::<P>::column_height, (params,), of_params),
    ensures
        of_params == height,
        config.collapse is Interpolation ==> height == config.n,
        config.collapse matches Collapse::Recursion { gamma0, .. } ==> height == gamma0,
{
}

/// One buffer serves all operations: it is as large as the largest of them needs.
pub proof fn law_scratch_serves_all(bytes: &[usize], r: usize, i: int)
    requires
        call_ensures(scratch_bytes, (bytes,), r),
        0 <= i < bytes@.len(),
    ensures
        bytes@[i] <= r,
        exists|j: int| 0 <= j < bytes@.len() && #[trigger] bytes@[j] == r,
{
    assert(bytes@.contains(r));
}

/// Workers that idle units leave are shared out, and none is used twice; every unit has one.
pub proof fn law_inner_workers_fit(total: usize, units: usize, r: usize, x: int)
    requires
        units >= 1,
        call_ensures(inner_threads, (total, units), r),
        x >= 1,
    ensures
        r >= 1,
        units <= total ==> units * r <= total,
        units * x <= total ==> x <= r,
{
    let q = total as int / units as int;
    lemma_fundamental_div_mod(total as int, units as int);
    lemma_mod_pos_bound(total as int, units as int);
    if units * x <= total {
        assert(x <= q) by (nonlinear_arith)
            requires
                units * x <= total,
                total == units * q + total as int % units as int,
                total as int % (units as int) < units,
                units >= 1,
        ;
    }
}

/// Workers are counted as they are asked for or found, within the work that there is, and
/// arenas are made for those that have none.
pub proof fn law_workers_are_counted(
    threads: &Threads,
    cap: usize,
    direct: usize,
    counted: usize,
    pool: usize,
    missing: usize,
)
    requires
        call_ensures(num_threads, (cap, threads.requested, threads.detected), direct),
        call_ensures(Threads::count, (threads, cap), counted),
        call_ensures(missing_arenas, (pool, counted), missing),
    ensures
        counted == direct,
        pool + missing >= counted,
        missing >= 1 ==> pool + missing == counted,
{
}

/// The key of a partial pack steps through a subgroup with one element per row: strides of
/// `n / (2 * gamma)`.
pub proof fn law_key_stride_spans_rows(n: usize, gamma: usize, r: usize)
    requires
        gamma >= 1,
        n as int % (2 * gamma) == 0,
        call_ensures(key_stride, (n, gamma), r),
    ensures
        r * (2 * gamma) == n,
{
    let g = gamma as int;
    lemma_fundamental_div_mod(n as int, 2 * g);
    let q = n as int / (2 * g);
    assert(n == 2 * (g * q) && n == q * (2 * g)) by (nonlinear_arith)
        requires
            n == (2 * g) * q,
    ;
    lemma_quotient(n as int, 2, g * q, 0);
    lemma_quotient(g * q, g, q, 0);
}

/// The products of a batch: one per block-row of what is served, with entry `(row, q)` the
/// inner product of that row with query `q`, modulo the torus.
pub proof fn law_products_of_a_batch<P: Payload<[u8; 32]>>(
    server: &Server<P>,
    queries: &[Vec<Vec<i64>>],
    threads: usize,
    r: Vec<Vec<i128>>,
    g: int,
    row: int,
    q: int,
)
    requires
        server.wf(),
        server.prepared(),
        call_ensures(Server::<P>::respond_bodies, (server, queries, threads), r),
        0 <= g < r@.len(),
        0 <= row < server.params.params.n,
        0 <= q < queries@.len(),
    ensures
        r@.len() == server.product_source().spec_physical_rows(),
        r@[g]@.len() == server.params.params.n * queries@.len(),
        0 <= r@[g]@[row * queries@.len() + q] < pow2(server.params.params.k as nat),
        (inner_product(
            server.product_source().block_row(g),
            row,
            bodies_of(queries@[q]@),
        ) - r@[g]@[row * queries@.len() + q]) % pow2(server.params.params.k as nat) as int == 0,
{
    let torus = pow2(server.params.params.k as nat) as int;
    lemma_pow2_pos(server.params.params.k as nat);
    let us = server.product_source().block_row(g);
    let vs = bodies_of(queries@[q]@);
    lemma_div_ceil(server.layout.cols as int, server.params.params.n as int);
    assert(us.len() == server.database.spec_column_blocks());
    law_blocks_dot_is_inner_product(us, row, vs);
    let x = blocks_dot(us, row, vs, us.len());
    assert(r@[g]@[row * queries@.len() + q] == x % torus);
    lemma_fundamental_div_mod(x, torus);
    lemma_mod_bound(x, torus);
    lemma_quotient(x - x % torus, torus, x / torus, 0);
}

/// The mask side of a database: one product per block-row, with entry `(row, c)` the inner
/// product of that row with column `c` of the masks, modulo the torus and centred.
pub proof fn law_mask_products_of_a_database<P: Payload<[u8; 32]>>(
    db: &Database<P>,
    masks: &[QueryMask],
    torus_bits: usize,
    mask_threads: usize,
    split: MaskSplit,
    r: Vec<Vec<i64>>,
    g: int,
    row: int,
    c: int,
)
    requires
        db.wf(),
        1 <= torus_bits <= 62,
        call_ensures(
            Database::<P>::mask_products,
            (db, masks, torus_bits, mask_threads, split),
            r,
        ),
        0 <= g < r@.len(),
        0 <= row < db.n,
        0 <= c < db.n,
    ensures
        just_enough(r@.len() as int, db.n as int, db.layout.rows as int),
        r@[g]@.len() == db.n * db.n,
        (mask_inner_product(db.block_row(g), masks@, row, c) - r@[g]@[row * db.n + c]) % pow2(
            torus_bits as nat,
        ) as int == 0,
        -(pow2(torus_bits as nat) as int) <= 2 * r@[g]@[row * db.n + c] < pow2(torus_bits as nat),
{
    let us = db.block_row(g);
    lemma_div_ceil(db.layout.cols as int, db.n as int);
    assert(us.len() == db.spec_column_blocks());
    lemma_just_enough(r@.len() as int, db.n as int, db.layout.rows as int);
    law_range_dot_is_inner_product(us, masks@, row, c);
    lemma_pow2_small(torus_bits as nat);
    lemma_pow2_unfold(torus_bits as nat);
    lemma_pow2_pos((torus_bits - 1) as nat);
    let x = range_dot(us, masks@, row, c, 0, us.len() as int);
    lemma_centred_residue(x, pow2(torus_bits as nat) as int);
    assert(r@[g]@[row * db.n + c] == centred_residue(x, pow2(torus_bits as nat) as int));
}

/// Answers that come panel by panel are handed out query by query.
pub proof fn law_answers_are_handed_out<T>(
    panels: Vec<Vec<T>>,
    queries: usize,
    r: Vec<Vec<T>>,
    q: int,
    p: int,
)
    requires
        call_ensures(transpose::<T>, (panels, queries), r),
        0 <= q < queries,
        0 <= p < panels@.len(),
    ensures
        r@.len() == queries,
        r@[q]@.len() == panels@.len(),
        r@[q]@[p] == panels@[p]@[q],
{
}

/// What is packed for a query is cut out of its products: `rows` of them from `top` on, and
/// zeros up to the degree.
pub proof fn law_bodies_are_cut_out(
    product: &[i128],
    queries: usize,
    q: usize,
    top: usize,
    rows: usize,
    n: usize,
    r: Vec<i64>,
    i: int,
)
    requires
        rows <= n,
        call_ensures(query_body, (product, queries, q, top, rows, n), r),
        0 <= i < n,
    ensures
        r@.len() == n,
        i < rows ==> r@[i] == product@[(top + i) * queries + q],
        i >= rows ==> r@[i] == 0,
{
}

/// A server stores what it is given, payload by payload, within its capacity, and keeps all
/// other payloads, its masks and its mask side; what reaches past the capacity is rejected,
/// and changes nothing.
pub proof fn law_server_stores_what_it_is_given<P: Payload<[u8; 32]>>(
    server: &mut Server<P>,
    start: usize,
    values: &[[u8; 32]],
    capacity: usize,
    r: Result<(), PirError>,
    index: int,
)
    requires
        old(server).wf(),
        call_ensures(
            DatabaseLayout::<P>::num_payloads,
            (&old(server).layout, old(server).database.height),
            capacity,
        ),
        call_ensures(Server::<P>::try_update_shard, (server, start, values), r),
        0 <= index < capacity,
    ensures
        r is Ok <==> start + values@.len() <= capacity,
        r is Err ==> final(server).database == old(server).database,
        r is Ok && start <= index < start + values@.len() ==> final(server).database.digits_at(
            index,
        ) == P::digits_of(values@[index - start]),
        r is Ok && !(start <= index < start + values@.len()) ==> final(server).database.digits_at(
            index,
        ) == old(server).database.digits_at(index),
        final(server).masks == old(server).masks,
        final(server).precomputation == old(server).precomputation,
        final(server).layout == old(server).layout,
{
    if r is Ok && start <= index < start + values@.len() {
        let i = index - start;
        assert(final(server).database.stores(start as int, values@));
        assert(final(server).database.digits_at(start as int + i) == P::digits_of(values@[i]));
    }
}

/// Overwriting payloads, one or many, stores them and keeps all others.
pub proof fn law_updates_keep_other_payloads<P: Payload<[u8; 32]>>(
    one: &mut Server<P>,
    at: usize,
    value: [u8; 32],
    many: &mut Server<P>,
    start: usize,
    values: &[[u8; 32]],
    index: int,
)
    requires
        old(one).wf(),
        old(many).wf(),
        call_ensures(Server::<P>::update, (one, at, value), ()),
        call_ensures(Server::<P>::update_shard, (many, start, values), ()),
        0 <= index < old(one).database.spec_capacity(),
        0 <= index < old(many).database.spec_capacity(),
    ensures
        final(one).database.digits_at(index) == (if index == at {
            P::digits_of(value)
        } else {
            old(one).database.digits_at(index)
        }),
        final(many).database.digits_at(index) == (if start <= index < start + values@.len() {
            P::digits_of(values@[index - start])
        } else {
            old(many).database.digits_at(index)
        }),
{
    if start <= index < start + values@.len() {
        let i = index - start;
        assert(final(many).database.stores(start as int, values@));
        assert(final(many).database.digits_at(start as int + i) == P::digits_of(values@[i]));
    }
}

/// Offline work makes the mask side that of the database, and changes nothing else. Masks
/// are set up as they are given.
pub proof fn law_offline_makes_the_server_current<P: Payload<[u8; 32]>>(
    server: &mut Server<P>,
    threads: &Threads,
    split: MaskSplit,
    other: &mut Server<P>,
    masks: QueryMasks,
)
    requires
        call_ensures(Server::<P>::offline, (server, threads, split), ()),
        call_ensures(Server::<P>::generate_query_mask, (other, masks), ()),
    ensures
        final(server).current(),
        final(server).database == old(server).database,
        final(server).masks == old(server).masks,
        final(server).params == old(server).params,
        final(other).masks matches Some(shared) && *shared == masks,
        final(other).database == old(other).database,
        final(other).precomputation == old(other).precomputation,
{
}

/// Installing a database swaps it with the one that was served, together with its mask
/// side.
pub proof fn law_install_swaps_databases<P: Payload<[u8; 32]>>(
    server: &mut Server<P>,
    database: &mut Database<P>,
    pre: ServerPrecomputation<P>,
)
    requires
        call_ensures(Server::<P>::install, (server, database, pre), ()),
    ensures
        final(server).database == *old(database),
        *final(database) == old(server).database,
        final(server).precomputation == Some(pre),
        final(server).masks == old(server).masks,
        final(server).params == old(server).params,
        final(server).layout == old(server).layout,
{
}

} // verus!
