//! The server's offline work: its query masks, and the mask side of a database.
//!
//! Products with masks do not depend on a query. They are computed once per database, and
//! belong to it: answers made with the mask side of another database are wrong.

use std::sync::Arc;
use vstd::prelude::*;
use vstd::arithmetic::div_mod::*;
use vstd::arithmetic::power2::pow2;
use vstd::slice::slice_subrange;
use crate::arith::{lemma_quotient, spec_div_ceil};
use crate::config::Collapse;
use crate::database::{is_next_power_of_two, DatabaseLayout};
use crate::encoding::{centred_residue, lemma_centred_residue};
use crate::interpolation::Interpolation;
use crate::matrix::lemma_flat_index;
use crate::parameters::Parameters;
use crate::payload::Payload;
use crate::retrieval::{is_product_row, product_mask};
use crate::server::gemm::{batch_shape, mask_product_acc, range_dot, QueryMask};
use crate::ring::{lemma_double_binary, lemma_powers_divide};
use crate::server::plan::Threads;
use crate::server::product::{blocks_dot, lemma_group_range, MaskSplit};
use crate::server::recursion::inner_threads;
use crate::server::Server;
use crate::store::Database;
use crate::sums::lemma_multiple_scales;

verus! {

/// The fixed query masks: those of the columns, and for recursion those of the batches.
#[derive(Debug)]
pub struct QueryMasks {
    pub first: Vec<QueryMask>,
    pub second: Vec<QueryMask>,
}

/// `count` masks of `n` rows and `n` columns.
pub open spec fn are_masks(masks: Seq<QueryMask>, count: int, n: int) -> bool {
    masks.len() == count && forall|b: int|
        0 <= b < count ==> {
            &&& (#[trigger] masks[b]).wf()
            &&& masks[b].rows == n
            &&& masks[b].cols == n
        }
}

/// Mask side of a database for interpolation: the interpolated matrices and their products
/// with the masks, panel after panel.
#[derive(Debug)]
pub struct InterpolationPrecomputation<P> {
    pub interpolation: Interpolation,
    pub matrix: Database<P>,
    pub products: Vec<Vec<i64>>,
}

/// Mask side of a database for recursion: its products with the masks of the first level,
/// block-row after block-row.
#[derive(Debug)]
pub struct RecursionPrecomputation {
    pub products: Vec<Vec<i64>>,
}

/// Query-independent state that belongs to one database.
#[derive(Debug)]
pub enum ServerPrecomputation<P> {
    Interpolation(InterpolationPrecomputation<P>),
    Recursion(RecursionPrecomputation),
}

impl<P: Payload<[u8; 32]>> Database<P> {
    /// The products of every block-row with the masks, modulo `2^torus_bits`.
    pub open spec fn has_mask_products(
        self,
        masks: Seq<QueryMask>,
        torus_bits: int,
        products: Seq<Vec<i64>>,
    ) -> bool {
        let n = self.n as int;
        &&& products.len() == self.spec_physical_rows()
        &&& forall|g: int| 0 <= g < products.len() ==> (#[trigger] products[g])@.len() == n * n
        &&& forall|g: int, row: int, c: int|
            0 <= g < products.len() && 0 <= row < n && 0 <= c < n ==> #[trigger] products[g]@[row
                * n + c] == centred_residue(
                range_dot(self.block_row(g), masks, row, c, 0, self.spec_column_blocks()),
                pow2(torus_bits as nat) as int,
            )
    }

    /// The products of every block-row with the masks.
    pub fn mask_products(
        &self,
        masks: &[QueryMask],
        torus_bits: usize,
        mask_threads: usize,
        split: MaskSplit,
    ) -> (r: Vec<Vec<i64>>)
        requires
            self.wf(),
            are_masks(masks@, self.spec_column_blocks(), self.n as int),
            self.n * self.n <= usize::MAX,
            1 <= torus_bits <= 62,
        ensures
            self.has_mask_products(masks@, torus_bits as int, r@),
    {
        let n: usize = self.n;
        let groups: usize = self.physical_rows();
        let cb: usize = self.column_blocks();
        let total: usize = self.blocks.len();
        let mut out: Vec<Vec<i64>> = Vec::new();
        while out.len() < groups
            invariant
                out@.len() <= groups,
                n == self.n,
                groups == self.spec_physical_rows(),
                cb == self.spec_column_blocks(),
                total == self.blocks@.len(),
                self.wf(),
                are_masks(masks@, cb as int, n as int),
                n * n <= usize::MAX,
                1 <= torus_bits <= 62,
                forall|g: int| 0 <= g < out@.len() ==> (#[trigger] out@[g])@.len() == n * n,
                forall|g: int, row: int, c: int|
                    0 <= g < out@.len() && 0 <= row < n && 0 <= c < n ==> #[trigger] out@[g]@[row
                        * n + c] == centred_residue(
                        range_dot(self.block_row(g), masks@, row, c, 0, cb as int),
                        pow2(torus_bits as nat) as int,
                    ),
            decreases groups - out@.len(),
        {
            let g: usize = out.len();
            proof {
                self.lemma_block_row(g as int);
                lemma_group_range(g as int, groups as int, cb as int);
            }
            let us = slice_subrange(self.blocks.as_slice(), g * cb, g * cb + cb);
            proof {
                assert(us@ =~= self.block_row(g as int));
            }
            out.push(mask_product_acc(us, masks, n, n, mask_threads, split, torus_bits));
        }
        out
    }

    pub proof fn lemma_block_row(self, g: int)
        requires
            self.wf(),
            0 <= g < self.spec_physical_rows(),
        ensures
            self.block_row(g).len() == self.spec_column_blocks(),
            self.spec_column_blocks() >= 1,
            forall|b: int|
                0 <= b < self.spec_column_blocks() ==> {
                    &&& (#[trigger] self.block_row(g)[b]).wf()
                    &&& self.block_row(g)[b].rows_out == self.n
                    &&& self.block_row(g)[b].rows_in == self.n
                },
    {
        let cb = self.spec_column_blocks();
        crate::arith::lemma_div_ceil(self.layout.cols as int, self.n as int);
        assert forall|b: int| 0 <= b < cb implies {
            &&& (#[trigger] self.block_row(g)[b]).wf()
            &&& self.block_row(g)[b].rows_out == self.n
            &&& self.block_row(g)[b].rows_in == self.n
        } by {
            lemma_flat_index(g, b, self.spec_physical_rows(), cb);
        }
    }
}

/// `pre` is the mask side of `db`.
pub open spec fn is_mask_side<P: Payload<[u8; 32]>>(
    params: Parameters<P>,
    masks: Seq<QueryMask>,
    db: Database<P>,
    pre: ServerPrecomputation<P>,
) -> bool {
    match (params.params.collapse, pre) {
        (Collapse::Interpolation, ServerPrecomputation::Interpolation(p)) => {
            &&& p.interpolation.covers(db)
            &&& p.interpolation.p == P::BASIS
            &&& is_next_power_of_two(
                db.layout.spec_block_rows(db.n as int),
                p.interpolation.panels as int,
            )
            &&& p.matrix.wf()
            &&& p.matrix.n == db.n
            &&& p.matrix.spec_physical_rows() == p.interpolation.panels
            &&& p.matrix.spec_column_blocks() == db.spec_column_blocks()
            &&& p.interpolation.are_panels(db, p.matrix.blocks@)
            &&& p.matrix.has_mask_products(masks, params.params.k as int, p.products@)
        },
        (Collapse::Recursion { .. }, ServerPrecomputation::Recursion(p)) => db.has_mask_products(
            masks,
            params.params.k as int,
            p.products@,
        ),
        _ => false,
    }
}

/// Databases whose mask side the machine can hold: torus elements of at most 62 bits, and
/// for interpolation an odd radix, so that the number of panels has an inverse.
pub open spec fn can_precompute<P: Payload<[u8; 32]>>(
    params: Parameters<P>,
    layout: DatabaseLayout<P>,
) -> bool {
    let n = params.params.n as int;
    &&& Server::<P>::serves(params.params, layout)
    &&& 1 <= params.params.k <= 62
    &&& params.params.collapse is Interpolation ==> forall|t: int|
        #[trigger] is_next_power_of_two(layout.spec_block_rows(n), t) ==> {
            &&& t == 1 || P::BASIS % 2 == 1
            &&& n * t * layout.cols <= usize::MAX
        }
}

/// The mask side of a database.
pub fn precompute<P: Payload<[u8; 32]>>(
    params: &Parameters<P>,
    masks: &[QueryMask],
    db: &Database<P>,
    threads: &Threads,
    split: MaskSplit,
) -> (r: ServerPrecomputation<P>)
    requires
        can_precompute(*params, db.layout),
        db.wf(),
        db.n == params.params.n,
        are_masks(masks@, db.spec_column_blocks(), db.n as int),
    ensures
        is_mask_side(*params, masks@, *db, r),
{
    let n: usize = params.n();
    let bits: usize = params.k();
    match params.collapse() {
        Collapse::Recursion { .. } => {
            let inner: usize = inner_threads(
                threads.count(usize::MAX),
                threads.count(db.physical_rows()),
            );
            let products = db.mask_products(masks, bits, inner, split);
            ServerPrecomputation::Recursion(RecursionPrecomputation { products })
        },
        Collapse::Interpolation => {
            let panels: usize = db.layout.interpolation_t(n);
            proof {
                lemma_double_binary(n as int);
                lemma_powers_divide(panels as int, 2 * n);
                lemma_whole_blocks(db.layout.rows as int, n as int);
                lemma_whole_blocks(db.layout.cols as int, n as int);
                let b = db.layout.spec_block_rows(n as int);
                let cb = db.spec_column_blocks();
                assert(panels * cb <= n * panels * db.layout.cols) by (nonlinear_arith)
                    requires
                        cb <= db.layout.cols,
                        cb >= 0,
                        panels >= 0,
                        n >= 1,
                ;
                P::law_shape();
                assert(2 * n <= n * n) by (nonlinear_arith)
                    requires
                        n >= 2,
                ;
            }
            let interpolation = Interpolation::new(n, panels, P::BASIS as i64);
            let blocks = interpolation.interpolate(db);
            proof {
                let rows = n * panels;
                let cols = db.layout.cols as int;
                assert(rows <= rows * cols) by (nonlinear_arith)
                    requires
                        rows >= 0,
                        cols >= 1,
                ;
                assert(rows >= 1) by (nonlinear_arith)
                    requires
                        rows == n * panels,
                        n >= 1,
                        panels >= 1,
                ;
                assert(n * panels == panels * n) by (nonlinear_arith);
                lemma_quotient(rows + n - 1, n as int, panels as int, n - 1);
            }
            let layout = DatabaseLayout::new(n * panels, db.layout.cols());
            let matrix = Database { layout, n, height: n, blocks };
            let inner: usize = inner_threads(threads.count(usize::MAX), threads.count(panels));
            let products = matrix.mask_products(masks, bits, inner, split);
            ServerPrecomputation::Interpolation(
                InterpolationPrecomputation { interpolation, matrix, products },
            )
        },
    }
}

impl<P: Payload<[u8; 32]>> Server<P> {
    /// Sets up the fixed query masks. They depend on the public seed and the shape of the
    /// database alone, so they outlast its updates.
    pub fn generate_query_mask(&mut self, masks: QueryMasks)
        requires
            old(self).wf(),
            old(self).fits_masks(masks),
        ensures
            final(self).wf(),
            final(self).params == old(self).params,
            final(self).layout == old(self).layout,
            final(self).server_seed == old(self).server_seed,
            final(self).database == old(self).database,
            final(self).precomputation == old(self).precomputation,
            final(self).masks matches Some(shared) && *shared == masks,
    {
        self.masks = Some(Arc::new(masks));
    }

    /// Computes the mask side of the database, to be run again after every update of it.
    /// The masks must have been set up.
    pub fn offline(&mut self, threads: &Threads, split: MaskSplit)
        requires
            old(self).wf(),
            old(self).masks is Some,
            can_precompute(old(self).params, old(self).layout),
        ensures
            final(self).wf(),
            final(self).current(),
            final(self).prepared(),
            final(self).params == old(self).params,
            final(self).layout == old(self).layout,
            final(self).server_seed == old(self).server_seed,
            final(self).database == old(self).database,
            final(self).masks == old(self).masks,
    {
        if let Some(masks) = &self.masks {
            let pre = precompute(
                &self.params,
                masks.first.as_slice(),
                &self.database,
                threads,
                split,
            );
            self.precomputation = Some(pre);
        }
    }

    /// A worker that computes mask sides of other databases while this server answers. It
    /// shares the masks and borrows nothing. Only recursion has one, and the masks must
    /// have been set up.
    pub fn precomp_context(&self) -> (r: PrecompContext<P>)
        requires
            self.wf(),
            self.params.params.collapse is Recursion,
            self.masks is Some,
        ensures
            r.serves_for(*self),
    {
        let params = Parameters { params: self.params.params };
        let masks: Arc<QueryMasks> = match &self.masks {
            Some(masks) => Arc::clone(masks),
            None => Arc::new(QueryMasks { first: Vec::new(), second: Vec::new() }),
        };
        PrecompContext { params, layout: self.layout, masks }
    }

    /// What the products of this server's answers are made of: the interpolated matrices,
    /// or the database itself.
    pub open spec fn product_source(self) -> Database<P> {
        match self.precomputation {
            Some(ServerPrecomputation::Interpolation(p)) => p.matrix,
            _ => self.database,
        }
    }

    /// [`Self::offline`] has run: the precomputation is one for this construction and the
    /// shape of the database, if perhaps not for what the database holds by now.
    pub open spec fn prepared(self) -> bool {
        match (self.params.params.collapse, self.precomputation) {
            (Collapse::Interpolation, Some(ServerPrecomputation::Interpolation(p))) => {
                &&& p.matrix.wf()
                &&& p.matrix.n == self.params.params.n
                &&& p.matrix.spec_column_blocks() == self.database.spec_column_blocks()
            },
            (Collapse::Recursion { .. }, Some(ServerPrecomputation::Recursion(_))) => true,
            _ => false,
        }
    }

    /// Products of the answers to a batch of queries: entry `(row, q)` of block-row `g` is
    /// the product with query `q`. Interpolation multiplies the matrices of the last
    /// [`Self::offline`], recursion the database as it is.
    pub fn respond_bodies(&self, queries: &[Vec<Vec<i64>>], threads: usize) -> (r: Vec<Vec<i128>>)
        requires
            self.wf(),
            self.prepared(),
            1 <= self.params.params.k <= 62,
            queries@.len() >= 1,
            self.params.params.n * queries@.len() <= usize::MAX,
            self.product_source().spec_physical_rows() * self.params.params.n <= usize::MAX,
            batch_shape(
                queries@,
                self.database.spec_column_blocks(),
                self.params.params.n as int,
            ),
        ensures
            self.are_answers(queries@, r@),
    {
        let bits: usize = self.params.k();
        match &self.precomputation {
            Some(ServerPrecomputation::Interpolation(p)) => p.matrix.body_product_acc_parallel(
                queries,
                bits,
                threads,
            ),
            _ => self.database.body_product_acc_parallel(queries, bits, threads),
        }
    }
}

/// A worker that runs the offline work of a server on databases that the server does not
/// serve.
#[derive(Debug)]
pub struct PrecompContext<P> {
    pub params: Parameters<P>,
    pub layout: DatabaseLayout<P>,
    pub masks: Arc<QueryMasks>,
}

impl<P: Payload<[u8; 32]>> PrecompContext<P> {
    /// The worker has the parameters, layout and masks of the server.
    pub open spec fn serves_for(self, server: Server<P>) -> bool {
        &&& self.params.params == server.params.params
        &&& self.layout == server.layout
        &&& server.masks == Some(self.masks)
    }

    /// A database of the server's shape.
    pub open spec fn holds(self, db: Database<P>) -> bool {
        &&& db.wf()
        &&& db.layout == self.layout
        &&& db.n == self.params.params.n
        &&& db.height == self.params.params.spec_column_height()
    }

    /// An empty database of the server's shape.
    pub fn new_database(&self) -> (r: Database<P>)
        requires
            Server::<P>::serves(self.params.params, self.layout),
        ensures
            self.holds(r),
            forall|row: int, col: int| r.has_cell(row, col) ==> #[trigger] r.cell(row, col) == 0,
    {
        proof {
            P::law_shape();
        }
        Database::instantiate(self.layout, self.params.n(), self.params.column_height())
    }

    /// The mask side of `db`, which stays as it is.
    pub fn offline_for(&self, db: &Database<P>, threads: &Threads, split: MaskSplit) -> (r:
        ServerPrecomputation<P>)
        requires
            can_precompute(self.params, self.layout),
            self.holds(*db),
            are_masks(self.masks.first@, db.spec_column_blocks(), db.n as int),
        ensures
            is_mask_side(self.params, self.masks.first@, *db, r),
    {
        precompute(&self.params, self.masks.first.as_slice(), db, threads, split)
    }
}

/// Installing a database with the mask side that a worker of the server computed for it
/// leaves the server current.
pub proof fn law_installed_pair_is_current<P: Payload<[u8; 32]>>(
    before: Server<P>,
    worker: PrecompContext<P>,
    after: Server<P>,
    database: Database<P>,
    pre: ServerPrecomputation<P>,
)
    requires
        worker.serves_for(before),
        is_mask_side(worker.params, worker.masks.first@, database, pre),
        after.params == before.params,
        after.masks == before.masks,
        after.database == database,
        after.precomputation == Some(pre),
    ensures
        after.current(),
{
}

/// A current server is prepared.
pub proof fn law_current_is_prepared<P: Payload<[u8; 32]>>(server: Server<P>)
    requires
        server.wf(),
        server.current(),
    ensures
        server.prepared(),
{
}

/// Updates of the database reach interpolation answers after the next
/// [`Server::offline`]: until then the server stays prepared, multiplies the same matrices,
/// and answers every batch as before.
pub proof fn law_updates_wait_for_offline<P: Payload<[u8; 32]>>(
    before: Server<P>,
    after: Server<P>,
    queries: Seq<Vec<Vec<i64>>>,
    products: Seq<Vec<i128>>,
)
    requires
        before.wf(),
        before.prepared(),
        before.params.params.collapse is Interpolation,
        after.wf(),
        after.params == before.params,
        after.layout == before.layout,
        after.precomputation == before.precomputation,
    ensures
        after.prepared(),
        after.product_source() == before.product_source(),
        after.are_answers(queries, products) <==> before.are_answers(queries, products),
{
}

/// A recursion server answers from the database as it is: after an update, and before the
/// next [`Server::offline`], it multiplies the updated database.
pub proof fn law_recursion_reads_updates<P: Payload<[u8; 32]>>(before: Server<P>, after: Server<P>)
    requires
        before.prepared(),
        before.params.params.collapse is Recursion,
        after.params == before.params,
        after.precomputation == before.precomputation,
    ensures
        after.prepared(),
        after.product_source() == after.database,
{
}

/// A current server's mask side and the products of its answers belong together: they are
/// the two sides of the rows of one product, so they decrypt.
pub proof fn law_answers_match_mask_side<P: Payload<[u8; 32]>>(
    server: Server<P>,
    masks: Arc<QueryMasks>,
    vs: Seq<Seq<i64>>,
    products: Seq<Vec<i64>>,
    g: int,
    row: int,
    body: int,
)
    requires
        server.wf(),
        server.current(),
        server.masks == Some(masks),
        1 <= server.params.params.k <= 62,
        server.precomputation matches Some(pre) && products == (match pre {
            ServerPrecomputation::Interpolation(p) => p.products@,
            ServerPrecomputation::Recursion(p) => p.products@,
        }),
        0 <= g < server.product_source().spec_physical_rows(),
        0 <= row < server.params.params.n,
        vs.len() == server.database.spec_column_blocks(),
        body == blocks_dot(
            server.product_source().block_row(g),
            row,
            vs,
            server.database.spec_column_blocks() as nat,
        ) % pow2(server.params.params.k as nat) as int,
    ensures
        is_product_row(
            server.product_source().block_row(g),
            masks.first@,
            vs,
            pow2(server.params.params.k as nat) as int,
            server.params.params.n as int,
            row,
            body,
            |c: int| products[g]@[row * server.params.params.n + c] as int,
        ),
{
    let source = server.product_source();
    let us = source.block_row(g);
    let n = server.params.params.n as int;
    let q = pow2(server.params.params.k as nat) as int;
    let cb = server.database.spec_column_blocks();
    crate::encoding::lemma_pow2_small(server.params.params.k as nat);
    vstd::arithmetic::power2::lemma_pow2_unfold(server.params.params.k as nat);
    vstd::arithmetic::power2::lemma_pow2_pos((server.params.params.k - 1) as nat);
    source.lemma_block_row(g);
    let dot = blocks_dot(us, row, vs, us.len());
    lemma_fundamental_div_mod(dot, q);
    let d = dot / q;
    assert(body - dot == q * (-d) + 0) by (nonlinear_arith)
        requires
            dot == q * d + body,
    ;
    lemma_quotient(body - dot, q, -d, 0);
    let mask = |c: int| products[g]@[row * n + c] as int;
    assert forall|c: int| 0 <= c < n implies (#[trigger] mask(c) - product_mask(
        us,
        masks.first@,
        row,
    )(c)) % q == 0 by {
        let x = range_dot(us, masks.first@, row, c, 0, cb);
        assert(products[g]@[row * n + c] == centred_residue(x, q));
        lemma_centred_residue(x, q);
        lemma_multiple_scales(x - centred_residue(x, q), -1, q);
    }
}

/// A dimension of whole blocks has as many blocks as it holds.
proof fn lemma_whole_blocks(x: int, n: int)
    requires
        n >= 1,
        x >= 1,
        x % n == 0,
    ensures
        spec_div_ceil(x, n) == x / n,
        1 <= x / n <= x,
{
    lemma_fundamental_div_mod(x, n);
    let q = x / n;
    assert(1 <= q <= x) by (nonlinear_arith)
        requires
            x == n * q + 0,
            x >= 1,
            n >= 1,
    ;
    lemma_quotient(x + n - 1, n, q, n - 1);
}

} // verus!
