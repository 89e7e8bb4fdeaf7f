//! Answers: what is packed for each query of a batch, and what its client reads.

use std::sync::Arc;
use vstd::prelude::*;
use vstd::arithmetic::div_mod::*;
use vstd::arithmetic::power2::*;
use crate::arith::lemma_quotient;
use crate::client::{
    selects, Client, InterpolationPlan, QueryPlan, QueryState, RecursionPlan,
};
use crate::encoding::{lemma_pow2_small, limbs_fit, limbs_hold, padding, rounded, ModPEncoder};
use crate::config::Collapse;
use crate::interpolation::value_at;
use crate::limbs::LimbVec;
use crate::matrix::lemma_flat_index;
use crate::packing::recursion::{centred16, coefficient_limbs};
use crate::packing::switch::{key_weight, law_switch_keeps_phase};
use crate::payload::Payload;
use crate::retrieval::{
    block_sum, centred_noise, encrypts, holds_digits, is_product_row, law_interpolation_retrieves,
    law_recursion_retrieves, law_selected_entry_decrypts, lemma_centred_noise, lemma_column_bound,
    lemma_plan_is_one_hot, lemma_row_in_matrix, limb_phase, one_hot, packed_phase, panel_row, phase,
    planned_selector, query_phase,
};
use crate::ring::{abs, lemma_powers_divide, negacyclic, Poly};
use crate::server::gemm::batch_shape;
use crate::server::offline::{law_answers_match_mask_side, QueryMasks, ServerPrecomputation};
use crate::server::product::{blocks_dot, bodies_of};
use crate::server::Server;
use crate::store::{lemma_block_bound, Database};

verus! {

/// Entries `top` to `top + rows` of query `q` in a product with `queries` queries, and
/// zeros up to `n`.
pub open spec fn is_query_body(
    product: Seq<i128>,
    queries: int,
    q: int,
    top: int,
    rows: int,
    n: int,
    body: Seq<i64>,
) -> bool {
    &&& body.len() == n
    &&& forall|i: int| 0 <= i < rows ==> #[trigger] body[i] == product[(top + i) * queries + q]
    &&& forall|i: int| rows <= i < n ==> #[trigger] body[i] == 0
}

/// The body of `n` coefficients that is packed for query `q` of a batch: `rows` entries of
/// its product from `top` on, and zeros.
pub fn query_body(
    product: &[i128],
    queries: usize,
    q: usize,
    top: usize,
    rows: usize,
    n: usize,
) -> (r: Vec<i64>)
    requires
        q < queries,
        rows <= n,
        top + rows <= usize::MAX,
        (top + rows) * queries <= product@.len(),
        forall|i: int| 0 <= i < product@.len() ==> i64::MIN <= #[trigger] product@[i] <= i64::MAX,
    ensures
        is_query_body(
            product@,
            queries as int,
            q as int,
            top as int,
            rows as int,
            n as int,
            r@,
        ),
{
    let total: usize = product.len();
    let mut out: Vec<i64> = Vec::new();
    while out.len() < n
        invariant
            out@.len() <= n,
            q < queries,
            rows <= n,
            top + rows <= usize::MAX,
            total == product@.len(),
            (top + rows) * queries <= total,
            forall|i: int|
                0 <= i < product@.len() ==> i64::MIN <= #[trigger] product@[i] <= i64::MAX,
            forall|i: int|
                0 <= i < rows && i < out@.len() ==> #[trigger] out@[i] == product@[(top + i)
                    * queries + q],
            forall|i: int| rows <= i < out@.len() ==> #[trigger] out@[i] == 0,
        decreases n - out@.len(),
    {
        let i: usize = out.len();
        if i < rows {
            proof {
                lemma_flat_index(top + i, q as int, top + rows, queries as int);
            }
            let x: i128 = product[(top + i) * queries + q];
            out.push(x as i64);
        } else {
            out.push(0);
        }
    }
    out
}

impl<P: Payload<[u8; 32]>> Server<P> {
    /// The products of the answers to a batch of queries: entry `(row, q)` of block-row `g`
    /// is the product of that row with query `q`.
    pub open spec fn are_answers(
        self,
        queries: Seq<Vec<Vec<i64>>>,
        products: Seq<Vec<i128>>,
    ) -> bool {
        let n = self.params.params.n as int;
        &&& products.len() == self.product_source().spec_physical_rows()
        &&& forall|g: int|
            0 <= g < products.len() ==> (#[trigger] products[g])@.len() == n * queries.len()
        &&& forall|g: int, row: int, q: int|
            0 <= g < products.len() && 0 <= row < n && 0 <= q < queries.len()
                ==> #[trigger] products[g]@[row * queries.len() + q] == blocks_dot(
                self.product_source().block_row(g),
                row,
                bodies_of(queries[q]@),
                self.database.spec_column_blocks() as nat,
            ) % pow2(self.params.params.k as nat) as int
    }
}

impl<P: Payload<[u8; 32]>> Server<P> {
    /// Packings of an answer: one per panel for interpolation, one per batch for recursion.
    pub open spec fn packings(self) -> int {
        match self.params.params.collapse {
            Collapse::Interpolation => self.product_source().spec_physical_rows(),
            Collapse::Recursion { .. } => self.layout.spec_block_rows(self.database.height as int),
        }
    }

    /// Row `row` of the product with a query.
    pub open spec fn product_entry(self, query: Seq<Vec<i64>>, row: int) -> int {
        let n = self.params.params.n as int;
        blocks_dot(
            self.product_source().block_row(row / n),
            row % n,
            bodies_of(query),
            self.database.spec_column_blocks() as nat,
        ) % pow2(self.params.params.k as nat) as int
    }

    /// What is packed to answer a query: packing `i` takes the rows of panel or batch `i`,
    /// and zeros up to the degree.
    pub open spec fn are_query_bodies(self, query: Seq<Vec<i64>>, bodies: Seq<Vec<i64>>) -> bool {
        let height = self.database.height as int;
        &&& bodies.len() == self.packings()
        &&& forall|i: int|
            0 <= i < bodies.len() ==> (#[trigger] bodies[i])@.len() == self.params.params.n
        &&& forall|i: int, x: int|
            0 <= i < bodies.len() && 0 <= x < height ==> #[trigger] bodies[i]@[x]
                == self.product_entry(query, i * height + x)
        &&& forall|i: int, x: int|
            0 <= i < bodies.len() && height <= x < self.params.params.n
                ==> #[trigger] bodies[i]@[x] == 0
    }

    /// What is packed to answer a batch of queries, query by query and in order. The
    /// products are taken in one pass over all queries.
    pub fn batch_bodies(&self, queries: &[Vec<Vec<i64>>], threads: usize) -> (r: Vec<
        Vec<Vec<i64>>,
    >)
        requires
            self.wf(),
            self.prepared(),
            1 <= self.params.params.k <= 62,
            self.params.params.n * queries@.len() <= usize::MAX,
            self.product_source().spec_physical_rows() * self.params.params.n <= usize::MAX,
            batch_shape(
                queries@,
                self.database.spec_column_blocks(),
                self.params.params.n as int,
            ),
        ensures
            r@.len() == queries@.len(),
            forall|q: int|
                0 <= q < r@.len() ==> self.are_query_bodies(queries@[q]@, (#[trigger] r@[q])@),
    {
        let mut out: Vec<Vec<Vec<i64>>> = Vec::new();
        if queries.len() == 0 {
            return out;
        }
        let n: usize = self.params.n();
        let nq: usize = queries.len();
        let height: usize = self.params.column_height();
        let products: Vec<Vec<i128>> = self.respond_bodies(queries, threads);
        let packings: usize = match self.params.collapse() {
            Collapse::Interpolation => products.len(),
            Collapse::Recursion { .. } => self.database.t(),
        };
        while out.len() < nq
            invariant
                out@.len() <= nq,
                nq == queries@.len(),
                nq >= 1,
                self.wf(),
                self.prepared(),
                1 <= self.params.params.k <= 62,
                n == self.params.params.n,
                height == self.database.height,
                packings == self.packings(),
                n * nq <= usize::MAX,
                self.product_source().spec_physical_rows() * n <= usize::MAX,
                self.are_answers(queries@, products@),
                forall|q: int|
                    0 <= q < out@.len() ==> self.are_query_bodies(
                        queries@[q]@,
                        (#[trigger] out@[q])@,
                    ),
            decreases nq - out@.len(),
        {
            let q: usize = out.len();
            let mut bodies: Vec<Vec<i64>> = Vec::new();
            while bodies.len() < packings
                invariant
                    bodies@.len() <= packings,
                    q < nq,
                    nq == queries@.len(),
                    self.wf(),
                    self.prepared(),
                    1 <= self.params.params.k <= 62,
                    n == self.params.params.n,
                    height == self.database.height,
                    packings == self.packings(),
                    n * nq <= usize::MAX,
                    self.product_source().spec_physical_rows() * n <= usize::MAX,
                    self.are_answers(queries@, products@),
                    forall|i: int|
                        0 <= i < bodies@.len() ==> (#[trigger] bodies@[i])@.len() == n,
                    forall|i: int, x: int|
                        0 <= i < bodies@.len() && 0 <= x < height ==> #[trigger] bodies@[i]@[x]
                            == self.product_entry(queries@[q as int]@, i * height + x),
                    forall|i: int, x: int|
                        0 <= i < bodies@.len() && height <= x < n ==> #[trigger] bodies@[i]@[x]
                            == 0,
                decreases packings - bodies@.len(),
            {
                let i: usize = bodies.len();
                proof {
                    self.lemma_packing(i as int);
                }
                let first: usize = i * height;
                let group: usize = first / n;
                let top: usize = first % n;
                proof {
                    self.lemma_products_fit(queries@, products@, group as int);
                    assert((top + height) * nq <= n * nq) by (nonlinear_arith)
                        requires
                            top + height <= n,
                            nq >= 0,
                    ;
                }
                let body: Vec<i64> = query_body(
                    products[group].as_slice(),
                    nq,
                    q,
                    top,
                    height,
                    n,
                );
                proof {
                    assert forall|x: int| 0 <= x < height implies #[trigger] body@[x]
                        == self.product_entry(queries@[q as int]@, i * height + x) by {
                        let row = i * height + x;
                        lemma_fundamental_div_mod(first as int, n as int);
                        lemma_quotient(row, n as int, group as int, top + x);
                        assert(products@[group as int]@[(top + x) * nq + q] == blocks_dot(
                            self.product_source().block_row(group as int),
                            top + x,
                            bodies_of(queries@[q as int]@),
                            self.database.spec_column_blocks() as nat,
                        ) % pow2(self.params.params.k as nat) as int);
                    }
                }
                bodies.push(body);
            }
            out.push(bodies);
        }
        out
    }

    /// The rows of a packing lie in one block-row.
    proof fn lemma_packing(self, i: int)
        requires
            self.wf(),
            self.prepared(),
            self.product_source().spec_physical_rows() * self.params.params.n <= usize::MAX,
            0 <= i < self.packings(),
        ensures
            0 <= i * self.database.height <= usize::MAX,
            0 <= (i * self.database.height) / (self.params.params.n as int)
                < self.product_source().spec_physical_rows(),
            (i * self.database.height) % (self.params.params.n as int) + self.database.height
                <= self.params.params.n,
            1 <= self.database.height <= self.params.params.n,
    {
        let n = self.params.params.n as int;
        let height = self.database.height as int;
        let first = i * height;
        P::law_shape();
        match self.params.params.collapse {
            Collapse::Interpolation => {
                assert(height == n);
                lemma_quotient(first, n, i, 0);
                let rows = self.product_source().spec_physical_rows();
                assert(0 <= i * n <= rows * n) by (nonlinear_arith)
                    requires
                        0 <= i < rows,
                        n >= 1,
                ;
            },
            Collapse::Recursion { gamma0, .. } => {
                assert(height == gamma0);
                let rows = self.layout.rows as int;
                lemma_fundamental_div_mod(rows, height);
                lemma_mod_bound(rows, height);
                assert(0 <= first < rows) by (nonlinear_arith)
                    requires
                        0 <= i < rows / height,
                        rows == height * (rows / height) + rows % height,
                        rows % height >= 0,
                        height >= 1,
                        first == i * height,
                ;
                lemma_block_bound(first, rows, n);
                lemma_div_pos_is_pos(first, n);
                lemma_powers_divide(height, n);
                lemma_aligned(i, height, n);
            },
        }
    }

    /// Products of answers are torus integers.
    proof fn lemma_products_fit(
        self,
        queries: Seq<Vec<Vec<i64>>>,
        products: Seq<Vec<i128>>,
        g: int,
    )
        requires
            1 <= self.params.params.k <= 62,
            self.params.params.n >= 1,
            queries.len() >= 1,
            self.are_answers(queries, products),
            0 <= g < products.len(),
        ensures
            forall|i: int|
                0 <= i < products[g]@.len() ==> i64::MIN <= #[trigger] products[g]@[i] <= i64::MAX,
    {
        let nq = queries.len() as int;
        let n = self.params.params.n as int;
        let torus = pow2(self.params.params.k as nat) as int;
        lemma_pow2_small(self.params.params.k as nat);
        assert forall|i: int| 0 <= i < products[g]@.len() implies i64::MIN
            <= #[trigger] products[g]@[i] <= i64::MAX by {
            let (row, q) = (i / nq, i % nq);
            lemma_fundamental_div_mod(i, nq);
            lemma_mod_bound(i, nq);
            lemma_div_pos_is_pos(i, nq);
            assert(row < n) by (nonlinear_arith)
                requires
                    i == nq * row + q,
                    i < n * nq,
                    q >= 0,
                    nq >= 1,
            ;
            assert(nq * row == row * nq) by (nonlinear_arith);
            let dot = blocks_dot(
                self.product_source().block_row(g),
                row,
                bodies_of(queries[q]@),
                self.database.spec_column_blocks() as nat,
            );
            assert(products[g]@[row * queries.len() + q] == dot % torus);
            lemma_mod_bound(dot, torus);
        }
    }
}

/// Runs of `height` items do not cross a boundary of `n` items that `height` divides.
proof fn lemma_aligned(i: int, height: int, n: int)
    requires
        i >= 0,
        height >= 1,
        n >= 1,
        n % height == 0,
    ensures
        (i * height) % n + height <= n,
{
    let per = n / height;
    lemma_fundamental_div_mod(n, height);
    assert(per >= 1) by (nonlinear_arith)
        requires
            n == height * per + 0,
            n >= 1,
            height >= 1,
    ;
    let (q, r) = (i / per, i % per);
    lemma_fundamental_div_mod(i, per);
    lemma_mod_bound(i, per);
    assert(i * height == n * q + r * height) by (nonlinear_arith)
        requires
            i == per * q + r,
            n == height * per + 0,
    ;
    assert(0 <= r * height && r * height + height <= n) by (nonlinear_arith)
        requires
            0 <= r < per,
            n == height * per + 0,
            height >= 1,
    ;
    lemma_quotient(i * height, n, q, r * height);
}

/// A batch is answered query by query, in order: it has an answer per query, and what is
/// packed for query `q` of a batch is what is packed for that query when it is alone.
pub proof fn law_batch_bodies_as_alone<P: Payload<[u8; 32]>>(
    server: Server<P>,
    query: Seq<Vec<i64>>,
    other: Seq<Vec<i64>>,
    in_batch: Seq<Vec<i64>>,
    alone: Seq<Vec<i64>>,
    i: int,
)
    requires
        server.are_query_bodies(query, in_batch),
        server.are_query_bodies(other, alone),
        bodies_of(query) == bodies_of(other),
        0 <= i < in_batch.len(),
    ensures
        in_batch.len() == alone.len(),
        in_batch[i]@ == alone[i]@,
{
    let height = server.database.height as int;
    let n = server.params.params.n as int;
    assert(alone[i]@.len() == n);
    assert forall|x: int| 0 <= x < n implies #[trigger] in_batch[i]@[x] == alone[i]@[x] by {
        if x < height {
            assert(in_batch[i]@[x] == server.product_entry(query, i * height + x));
            assert(alone[i]@[x] == server.product_entry(other, i * height + x));
        }
    }
    assert(in_batch[i]@ =~= alone[i]@);
}

impl<P: Payload<[u8; 32]>> Database<P> {
    /// The payloads from `start` on are the given values.
    pub open spec fn stores(self, start: int, values: Seq<[u8; 32]>) -> bool {
        forall|i: int|
            0 <= i < values.len() ==> #[trigger] self.digits_at(start + i) == P::digits_of(
                values[i],
            )
    }
}

/// A batch is answered query by query, in order: what is packed for query `q` of a batch is
/// what is packed for that query when it is alone.
pub proof fn law_batch_answers_as_alone<P: Payload<[u8; 32]>>(
    server: Server<P>,
    queries: Seq<Vec<Vec<i64>>>,
    products: Seq<Vec<i128>>,
    q: int,
    alone: Seq<Vec<Vec<i64>>>,
    single: Seq<Vec<i128>>,
    g: int,
    top: int,
    rows: int,
    batch_body: Seq<i64>,
    single_body: Seq<i64>,
)
    requires
        server.are_answers(queries, products),
        server.are_answers(alone, single),
        0 <= q < queries.len(),
        alone.len() == 1,
        bodies_of(alone[0]@) == bodies_of(queries[q]@),
        0 <= g < products.len(),
        0 <= top,
        0 <= rows,
        top + rows <= server.params.params.n,
        is_query_body(
            products[g]@,
            queries.len() as int,
            q,
            top,
            rows,
            server.params.params.n as int,
            batch_body,
        ),
        is_query_body(
            single[g]@,
            1,
            0,
            top,
            rows,
            server.params.params.n as int,
            single_body,
        ),
    ensures
        batch_body == single_body,
{
    let n = server.params.params.n as int;
    assert forall|i: int| 0 <= i < n implies batch_body[i] == single_body[i] by {
        if i < rows {
            let row = top + i;
            assert(products[g]@[row * queries.len() + q] == blocks_dot(
                server.product_source().block_row(g),
                row,
                bodies_of(queries[q]@),
                server.database.spec_column_blocks() as nat,
            ) % pow2(server.params.params.k as nat) as int);
            assert(single[g]@[row * alone.len() + 0] == blocks_dot(
                server.product_source().block_row(g),
                row,
                bodies_of(alone[0]@),
                server.database.spec_column_blocks() as nat,
            ) % pow2(server.params.params.k as nat) as int);
        }
    }
    assert(batch_body =~= single_body);
}

/// An interpolation server answers with what it stores: once the payloads from `start` on
/// are `values` and the mask side is current, every query of every batch that asks for one
/// of them, whatever the secret, leads its client to that value, which is also what the
/// server itself reads. The query encrypts what the client's plan selects, with noise that
/// the rows of the products carry up to `row_bound`; `phases` are what the packed products
/// decrypt to, with noise up to `pack_bound`; `column` is decoded from their value at the
/// query's root, with noise up to `extra_bound`; and all of it is small enough to be decoded.
pub proof fn law_interpolation_server_answers<P: Payload<[u8; 32]>>(
    server: Server<P>,
    client: Client<P>,
    masks: Arc<QueryMasks>,
    sides: Seq<Vec<i64>>,
    panels: int,
    start: int,
    values: Seq<[u8; 32]>,
    index: int,
    plan: InterpolationPlan,
    state: QueryState,
    encoder: ModPEncoder,
    queries: Seq<Vec<Vec<i64>>>,
    q: int,
    products: Seq<Vec<i128>>,
    s: spec_fn(int) -> int,
    noise: spec_fn(int, int) -> int,
    row_bound: int,
    phases: spec_fn(int) -> Poly,
    pack_noise: spec_fn(int, int) -> int,
    pack_bound: int,
    extra: spec_fn(int) -> int,
    extra_bound: int,
    column: Seq<i64>,
    block: [u8; 32],
    stored: [u8; 32],
)
    requires
        server.wf(),
        server.current(),
        server.masks == Some(masks),
        server.precomputation matches Some(ServerPrecomputation::Interpolation(pre)) && sides
            == pre.products@ && panels == pre.interpolation.panels,
        1 <= server.params.params.k <= 62,
        client.wf(),
        client.params.params == server.params.params,
        client.layout == server.layout,
        server.database.stores(start, values),
        0 <= start <= index < start + values.len(),
        index < client.spec_capacity(),
        P::stands_for(server.database.digits_at(index), stored),
        // The query.
        client.asks_for(state, index),
        client.plan_selects(QueryPlan::Interpolation(plan), state),
        encoder.wf(),
        encoder.p == P::BASIS,
        encoder.k == server.params.params.k,
        0 <= q < queries.len(),
        queries[q]@.len() == server.database.spec_column_blocks(),
        encrypts(
            bodies_of(queries[q]@),
            masks.first@,
            s,
            server.params.params.n as int,
            pow2(encoder.k as nat) as int,
            server.params.params.n as int,
            planned_selector(plan.blocks@, encoder.spec_encode(1)),
            noise,
        ),
        // The products and their packing.
        server.are_answers(queries, products),
        row_bound >= 0,
        forall|j: int, r: int|
            0 <= j < panels && 0 <= r < server.params.params.n ==> abs(
                #[trigger] block_sum(server.product_source().block_row(j), r, noise),
            ) <= row_bound,
        forall|j: int| negacyclic(server.params.params.n as int, #[trigger] phases(j)),
        forall|j: int, r: int|
            0 <= j < panels && 0 <= r < server.params.params.n ==> (phases(j)(r) - (phase(
                products[j]@[r * queries.len() + q] as int,
                |c: int| sides[j]@[r * server.params.params.n + c] as int,
                s,
                server.params.params.n as int,
            ) + #[trigger] pack_noise(j, r))) % pow2(encoder.k as nat) as int == 0,
        pack_bound >= 0,
        forall|j: int, r: int|
            0 <= j < panels && 0 <= r < server.params.params.n ==> -pack_bound
                <= #[trigger] pack_noise(j, r) <= pack_bound,
        // The answer.
        forall|x: int|
            0 <= x < server.params.params.n ==> -extra_bound <= #[trigger] extra(x) <= extra_bound,
        extra_bound >= 0,
        encoder.tolerates(
            panels * 32768,
            panels * (row_bound + pack_bound) + extra_bound,
        ),
        column.len() == server.params.params.n,
        forall|x: int|
            0 <= x < server.params.params.n ==> #[trigger] column[x] == encoder.spec_decode(
                value_at(phases, panels, plan.root.exponent(server.params.params.n as int), x)
                    + extra(x),
            ),
        P::stands_for(Client::<P>::spec_digits(state, column), block),
    ensures
        Client::<P>::readable(state, column),
        block == values[index - start],
        stored == values[index - start],
{
    let db = server.database;
    let n = server.params.params.n as int;
    let nq = queries.len() as int;
    let vs = bodies_of(queries[q]@);
    let value = values[index - start];
    let pre = server.precomputation->Some_0->Interpolation_0;
    let blocks = pre.matrix.blocks@;
    let cb = db.spec_column_blocks();
    assert(db.digits_at(start + (index - start)) == P::digits_of(value));
    P::law_roundtrip(value, stored);
    let bodies = |j: int, r: int| products[j]@[r * nq + q] as int;
    let mask_rows = |j: int, r: int| |c: int| sides[j]@[r * n + c] as int;
    assert forall|j: int, r: int| 0 <= j < panels && 0 <= r < n implies is_product_row(
        panel_row(blocks, cb, j),
        masks.first@,
        vs,
        pow2(encoder.k as nat) as int,
        n,
        r,
        #[trigger] bodies(j, r),
        mask_rows(j, r),
    ) by {
        assert(panel_row(blocks, cb, j) =~= server.product_source().block_row(j));
        law_answers_match_mask_side(server, masks, vs, sides, j, r, bodies(j, r));
    }
    assert forall|j: int, r: int| 0 <= j < panels && 0 <= r < n implies (phases(j)(r) - (phase(
        bodies(j, r),
        mask_rows(j, r),
        s,
        n,
    ) + #[trigger] pack_noise(j, r))) % pow2(encoder.k as nat) as int == 0 by {
        assert(mask_rows(j, r) =~= |c: int| sides[j]@[r * n + c] as int);
    }
    assert forall|j: int, r: int| 0 <= j < panels && 0 <= r < n implies abs(
        #[trigger] block_sum(panel_row(blocks, cb, j), r, noise),
    ) <= row_bound by {
        assert(panel_row(blocks, cb, j) =~= server.product_source().block_row(j));
    }
    law_interpolation_retrieves(
        client,
        db,
        index,
        value,
        plan,
        state,
        pre.interpolation,
        blocks,
        encoder,
        masks.first@,
        vs,
        s,
        n,
        noise,
        row_bound,
        bodies,
        mask_rows,
        phases,
        pack_noise,
        pack_bound,
        extra,
        extra_bound,
        column,
        block,
    );
}

// ---------------------------------------------------------------------------
// Recursion
// ---------------------------------------------------------------------------

/// What row `row` of the products of the first level decrypts to, for query `q` of a batch.
pub open spec fn first_level_phase<P>(
    server: Server<P>,
    sides: Seq<Vec<i64>>,
    products: Seq<Vec<i128>>,
    queries: int,
    q: int,
    s: spec_fn(int) -> int,
    row: int,
) -> int {
    let n = server.params.params.n as int;
    phase(
        products[row / n]@[(row % n) * queries + q] as int,
        |c: int| sides[row / n]@[(row % n) * n + c] as int,
        s,
        n,
    )
}

/// The first level selects digits: every row of the product with a query for the plan's
/// column decrypts to the unit times the database's digit of that row and column, and the
/// product of that row with the noise of the query.
pub proof fn lemma_first_level_selects<P: Payload<[u8; 32]>>(
    server: Server<P>,
    masks: Arc<QueryMasks>,
    sides: Seq<Vec<i64>>,
    blocks: Seq<Option<usize>>,
    column: int,
    encoder: ModPEncoder,
    queries: Seq<Vec<Vec<i64>>>,
    q: int,
    products: Seq<Vec<i128>>,
    s: spec_fn(int) -> int,
    noise: spec_fn(int, int) -> int,
    row: int,
)
    requires
        server.wf(),
        server.current(),
        server.masks == Some(masks),
        server.precomputation matches Some(ServerPrecomputation::Recursion(pre)) && sides
            == pre.products@,
        1 <= server.params.params.k <= 62,
        server.database.has_cell(row, column),
        selects(
            blocks,
            column,
            server.params.params.n as int,
            server.database.spec_column_blocks(),
        ),
        encoder.k == server.params.params.k,
        0 <= q < queries.len(),
        queries[q]@.len() == server.database.spec_column_blocks(),
        encrypts(
            bodies_of(queries[q]@),
            masks.first@,
            s,
            server.params.params.n as int,
            pow2(encoder.k as nat) as int,
            server.params.params.n as int,
            planned_selector(blocks, encoder.spec_encode(1)),
            noise,
        ),
        server.are_answers(queries, products),
    ensures
        (first_level_phase(server, sides, products, queries.len() as int, q, s, row) - (
        server.database.cell(row, column) * encoder.spec_encode(1) + server.database.row_noise(
            row,
            noise,
        ))) % pow2(encoder.k as nat) as int == 0,
{
    let db = server.database;
    let n = server.params.params.n as int;
    let nq = queries.len() as int;
    let torus = pow2(encoder.k as nat) as int;
    let cb = db.spec_column_blocks();
    let vs = bodies_of(queries[q]@);
    let unit = encoder.spec_encode(1);
    let (g, local) = (row / n, row % n);
    let us = db.block_row(g);
    lemma_pow2_pos(encoder.k as nat);
    lemma_block_bound(row, db.layout.rows as int, n);
    lemma_block_bound(column, db.layout.cols as int, n);
    lemma_div_pos_is_pos(row, n);
    lemma_div_pos_is_pos(column, n);
    lemma_mod_bound(row, n);
    db.lemma_block_row(g);
    lemma_column_bound(column, cb, n);
    let selector = planned_selector(blocks, unit);
    let hot = one_hot(n, column, unit);
    assert forall|b: int, j: int| 0 <= b < vs.len() && 0 <= j < n implies (query_phase(
        vs,
        masks.first@,
        s,
        n,
    )(b, j) - (hot(b, j) + #[trigger] noise(b, j))) % torus == 0 by {
        lemma_plan_is_one_hot(blocks, column, n, cb, unit, b, j);
        assert((query_phase(vs, masks.first@, s, n)(b, j) - (selector(b, j) + noise(b, j))) % torus
            == 0);
    }
    assert(encrypts(vs, masks.first@, s, n, torus, n, hot, noise));
    let body = products[g]@[local * nq + q] as int;
    let mask = |c: int| sides[g]@[local * n + c] as int;
    assert(server.product_source() == db);
    law_answers_match_mask_side(server, masks, vs, sides, g, local, body);
    law_selected_entry_decrypts(
        us,
        n,
        masks.first@,
        vs,
        s,
        n,
        torus,
        local,
        column,
        unit,
        noise,
        body,
        mask,
    );
}

/// Noise of a row after it is packed, scaled up and switched to a smaller modulus.
proof fn lemma_switched_noise(
    scale: int,
    pad: int,
    zoom: int,
    torus: int,
    wide: int,
    narrow: int,
    switched: int,
    packed: int,
    row: int,
    cell: int,
    unit: int,
    small_unit: int,
    e: int,
    pack: int,
    delta: int,
    row_bound: int,
    pack_bound: int,
    weight: int,
    bound: int,
) -> (r: int)
    requires
        scale >= 1,
        pad >= 1,
        zoom >= 1,
        torus >= 1,
        narrow >= 1,
        wide == zoom * torus,
        scale * narrow == pad * wide,
        (scale * switched - pad * (packed + delta)) % (pad * wide) == 0,
        (packed - (zoom * row + pack)) % wide == 0,
        (row - (cell * unit + e)) % torus == 0,
        abs(cell) <= 32768,
        abs(e) <= row_bound,
        abs(pack) <= pack_bound,
        2 * abs(delta) <= scale * (1 + weight),
        switch_tolerates(
            scale,
            pad,
            zoom * row_bound + pack_bound,
            weight,
            pad * zoom * unit - scale * small_unit,
            bound,
        ),
    ensures
        abs(r) <= bound,
        (switched - (cell * small_unit + r)) % narrow == 0,
{
    assert(wide >= 1) by (nonlinear_arith)
        requires
            wide == zoom * torus,
            zoom >= 1,
            torus >= 1,
    ;
    let big = pad * wide;
    assert(big >= 1) by (nonlinear_arith)
        requires
            big == pad * wide,
            pad >= 1,
            wide >= 1,
    ;
    lemma_fundamental_div_mod(scale * switched - pad * (packed + delta), big);
    lemma_fundamental_div_mod(packed - (zoom * row + pack), wide);
    lemma_fundamental_div_mod(row - (cell * unit + e), torus);
    let m1 = (scale * switched - pad * (packed + delta)) / big;
    let m2 = (packed - (zoom * row + pack)) / wide;
    let m3 = (row - (cell * unit + e)) / torus;
    assert(packed == zoom * (cell * unit) + zoom * e + pack + wide * (m2 + m3))
        by (nonlinear_arith)
        requires
            packed - (zoom * row + pack) == wide * m2 + 0,
            row - (cell * unit + e) == torus * m3 + 0,
            wide == zoom * torus,
    ;
    let m = m1 + m2 + m3;
    let x = zoom * e + pack + delta;
    let gap = pad * zoom * unit - scale * small_unit;
    let r = switched - cell * small_unit - narrow * m;
    assert(scale * switched == pad * (zoom * (cell * unit)) + pad * x + big * m)
        by (nonlinear_arith)
        requires
            scale * switched - pad * (packed + delta) == big * m1 + 0,
            packed == zoom * (cell * unit) + zoom * e + pack + wide * (m2 + m3),
            x == zoom * e + pack + delta,
            big == pad * wide,
            m == m1 + m2 + m3,
    ;
    assert(scale * r == scale * switched - scale * (cell * small_unit) - scale * (narrow * m))
        by (nonlinear_arith)
        requires
            r == switched - cell * small_unit - narrow * m,
    ;
    assert(scale * (narrow * m) == big * m) by (nonlinear_arith)
        requires
            scale * narrow == big,
    ;
    let (large, small) = (pad * zoom * unit, scale * small_unit);
    assert(cell * gap == cell * large - cell * small) by (nonlinear_arith)
        requires
            gap == large - small,
    ;
    assert(cell * (pad * zoom * unit) == pad * (zoom * (cell * unit))) by (nonlinear_arith);
    assert(cell * (scale * small_unit) == scale * (cell * small_unit)) by (nonlinear_arith);
    assert(scale * r == pad * x + cell * gap);
    assert(abs(zoom * e) <= zoom * row_bound) by (nonlinear_arith)
        requires
            abs(e) <= row_bound,
            zoom >= 1,
    ;
    let most = 2 * (zoom * row_bound + pack_bound) + scale * (1 + weight);
    assert(2 * abs(x) <= most);
    assert(2 * abs(pad * x) <= pad * most) by (nonlinear_arith)
        requires
            2 * abs(x) <= most,
            pad >= 1,
    ;
    assert(abs(cell * gap) <= 32768 * abs(gap)) by (nonlinear_arith)
        requires
            abs(cell) <= 32768,
    ;
    assert(2 * abs(scale * r) <= 2 * (scale * bound));
    assert(abs(r) <= bound) by (nonlinear_arith)
        requires
            2 * abs(scale * r) <= 2 * (scale * bound),
            scale >= 1,
    ;
    assert(switched - (cell * small_unit + r) == narrow * m + 0);
    lemma_quotient(switched - (cell * small_unit + r), narrow, m, 0);
    r
}

/// Noise up to `noise` in a packed answer stays within `bound` after the modulus switch:
/// with what rounding adds under a key of the given weight, and what the units of the two
/// moduli differ by.
pub open spec fn switch_tolerates(
    scale: int,
    pad: int,
    noise: int,
    weight: int,
    gap: int,
    bound: int,
) -> bool {
    pad * (2 * noise + scale * (1 + weight)) + 2 * (32768 * abs(gap)) <= 2 * (scale * bound)
}

/// A recursion server answers with what it stores: once the payloads from `start` on are
/// `values` and the mask side is current, every query of every batch that asks for one of
/// them, whatever the secrets, leads its client to that value, which is also what the
/// server itself reads. The query encrypts what the client's plan selects, with noise
/// that the rows of the products carry up to `row_bound`; `packed` is the packed answer of
/// the payload's batch, with noise up to `pack_bound`; `switched` is that answer as digits,
/// whose rounding the key weighs by at most `weight`; `mask` and `body` are decoded from what
/// the second level selects of these digits, with noise up to `second_bound`; `column` is
/// decoded from the recomposed answer; and all of it is small enough to be decoded.
pub proof fn law_recursion_server_answers<P: Payload<[u8; 32]>>(
    server: Server<P>,
    client: Client<P>,
    masks: Arc<QueryMasks>,
    sides: Seq<Vec<i64>>,
    start: int,
    values: Seq<[u8; 32]>,
    index: int,
    plan: RecursionPlan,
    state: QueryState,
    encoder: ModPEncoder,
    queries: Seq<Vec<Vec<i64>>>,
    q: int,
    products: Seq<Vec<i128>>,
    s: spec_fn(int) -> int,
    noise: spec_fn(int, int) -> int,
    row_bound: int,
    packed: LimbVec,
    base2k: int,
    key: spec_fn(int, int) -> int,
    weight: int,
    pack_noise: spec_fn(int) -> int,
    pack_bound: int,
    bits: int,
    switched: LimbVec,
    first: ModPEncoder,
    first_bound: int,
    mask_digits: Seq<Vec<i16>>,
    body_digits: Seq<Vec<i16>>,
    second: ModPEncoder,
    mask_phases: spec_fn(int) -> int,
    mask_noise: spec_fn(int) -> int,
    body_phases: spec_fn(int) -> int,
    body_noise: spec_fn(int) -> int,
    second_bound: int,
    mask: Seq<i64>,
    body: Seq<i64>,
    recomposed: LimbVec,
    column: Seq<i64>,
    block: [u8; 32],
    stored: [u8; 32],
)
    requires
        server.wf(),
        server.current(),
        server.masks == Some(masks),
        server.precomputation matches Some(ServerPrecomputation::Recursion(pre)) && sides
            == pre.products@,
        1 <= server.params.params.k <= 62,
        client.wf(),
        client.params.params == server.params.params,
        client.layout == server.layout,
        server.database.stores(start, values),
        0 <= start <= index < start + values.len(),
        index < client.spec_capacity(),
        P::stands_for(server.database.digits_at(index), stored),
        // The query.
        client.asks_for(state, index),
        client.plan_selects(QueryPlan::Recursion(plan), state),
        encoder.wf(),
        encoder.k == server.params.params.k,
        0 <= q < queries.len(),
        queries[q]@.len() == server.database.spec_column_blocks(),
        encrypts(
            bodies_of(queries[q]@),
            masks.first@,
            s,
            server.params.params.n as int,
            pow2(encoder.k as nat) as int,
            server.params.params.n as int,
            planned_selector(plan.src0@, encoder.spec_encode(1)),
            noise,
        ),
        // The products of the first level and their packing.
        server.are_answers(queries, products),
        forall|j: int|
            0 <= j < server.database.height ==> abs(
                #[trigger] server.database.row_noise(
                    state.address.matrix * server.database.height + j,
                    noise,
                ),
            ) <= row_bound,
        packed.n == server.params.params.n,
        packed.cols == 2,
        limbs_fit(bits, base2k, packed.size as int),
        server.params.params.k <= base2k * packed.size,
        forall|j: int|
            0 <= j < server.database.height ==> {
                &&& (limb_phase(packed, base2k as nat, key, j) - (pow2(
                    padding(server.params.params.k as int, base2k, packed.size as int),
                ) * first_level_phase(
                    server,
                    sides,
                    products,
                    queries.len() as int,
                    q,
                    s,
                    state.address.matrix * server.database.height + j,
                ) + #[trigger] pack_noise(j))) % pow2((base2k * packed.size) as nat) as int == 0
                &&& abs(pack_noise(j)) <= pack_bound
                &&& key_weight(key, j, packed.n as int) <= weight
            },
        // The modulus switch.
        switched.n == packed.n,
        switched.cols == 2,
        bits <= 16 * switched.size,
        forall|col: int, i: int|
            0 <= col < packed.cols && 0 <= i < packed.n ==> limbs_hold(
                bits,
                #[trigger] coefficient_limbs(switched, col, i),
                16,
                rounded(bits, coefficient_limbs(packed, col, i), base2k),
            ),
        forall|col: int, l: int, c: int|
            switched.contains(col, l, c) ==> -32768 <= #[trigger] switched.coeff(col, l, c) < 32768,
        first.wf(),
        first.p == P::BASIS,
        first.k == 16 * switched.size,
        first_bound >= 0,
        first.tolerates(32768, first_bound),
        switch_tolerates(
            pow2(padding(bits, base2k, packed.size as int)) as int,
            pow2(padding(bits, 16, switched.size as int)) as int,
            pow2(padding(server.params.params.k as int, base2k, packed.size as int)) * row_bound
                + pack_bound,
            weight,
            pow2(padding(bits, 16, switched.size as int)) * pow2(
                padding(server.params.params.k as int, base2k, packed.size as int),
            ) * encoder.spec_encode(1) - pow2(padding(bits, base2k, packed.size as int))
                * first.spec_encode(1),
            first_bound,
        ),
        // Its digits.
        mask_digits.len() == server.params.params.n * switched.size,
        body_digits.len() == server.database.height * switched.size,
        forall|c: int, l: int|
            0 <= c < server.params.params.n && 0 <= l < switched.size ==> mask_digits[c
                * switched.size + l]@[state.address.matrix as int] == centred16(
                #[trigger] switched.coeff(1, l, c) as int,
            ),
        forall|c: int, l: int|
            0 <= c < server.database.height && 0 <= l < switched.size ==> body_digits[c
                * switched.size + l]@[state.address.matrix as int] == centred16(
                #[trigger] switched.coeff(0, l, c) as int,
            ),
        // The second level.
        second.wf(),
        second.p == 65536,
        second_bound >= 0,
        second.tolerates(32768, second_bound),
        holds_digits(
            second,
            mask_phases,
            mask_noise,
            second_bound,
            mask_digits,
            state.address.matrix as int,
        ),
        holds_digits(
            second,
            body_phases,
            body_noise,
            second_bound,
            body_digits,
            state.address.matrix as int,
        ),
        mask.len() == mask_digits.len(),
        body.len() == body_digits.len(),
        forall|i: int|
            0 <= i < mask.len() ==> #[trigger] mask[i] == second.spec_decode(mask_phases(i)),
        forall|i: int|
            0 <= i < body.len() ==> #[trigger] body[i] == second.spec_decode(body_phases(i)),
        // The answer.
        recomposed.n == server.params.params.n,
        recomposed.size == switched.size,
        forall|l: int, c: int|
            0 <= l < switched.size && 0 <= c < server.params.params.n
                ==> #[trigger] recomposed.coeff(1, l, c) == mask[c * switched.size + l],
        forall|l: int, c: int|
            0 <= l < switched.size && 0 <= c < server.database.height
                ==> #[trigger] recomposed.coeff(0, l, c) == body[c * switched.size + l],
        column.len() == server.database.height,
        forall|j: int|
            0 <= j < server.database.height ==> #[trigger] column[j] == first.spec_decode(
                packed_phase(recomposed, key, j),
            ),
        P::stands_for(Client::<P>::spec_digits(state, column), block),
    ensures
        Client::<P>::readable(state, column),
        block == values[index - start],
        stored == values[index - start],
{
    let db = server.database;
    let value = values[index - start];
    let height = db.height as int;
    let matrix = state.address.matrix as int;
    let selected = state.address.column as int;
    let unit = first.spec_encode(1);
    let narrow = pow2(first.k as nat) as int;
    assert(db.digits_at(start + (index - start)) == P::digits_of(value));
    P::law_roundtrip(value, stored);
    let first_noise = |j: int|
        centred_noise(
            packed_phase(switched, key, j),
            db.cell(matrix * height + j, selected) * unit,
            first_bound,
            narrow,
        );
    client.layout.lemma_address(index, db.n as int, height);
    assert forall|j: int| 0 <= j < height implies {
        &&& (packed_phase(switched, key, j) - (db.cell(matrix * height + j, selected) * unit
            + #[trigger] first_noise(j))) % narrow == 0
        &&& -first_bound <= first_noise(j) <= first_bound
    } by {
        let row = matrix * height + j;
        lemma_row_in_matrix(client.layout.rows as int, height, matrix, j);
        let e = db.row_noise(row, noise);
        lemma_first_level_selects(
            server,
            masks,
            sides,
            plan.src0@,
            selected,
            encoder,
            queries,
            q,
            products,
            s,
            noise,
            row,
        );
        let delta = law_switch_keeps_phase(packed, base2k, bits, switched, key, j);
        let noisy = lemma_row_after_switch(
            server.params.params.k as int,
            bits,
            base2k,
            packed.size as int,
            switched.size as int,
            packed_phase(switched, key, j),
            limb_phase(packed, base2k as nat, key, j),
            first_level_phase(server, sides, products, queries.len() as int, q, s, row),
            db.cell(row, selected) as int,
            encoder.spec_encode(1),
            unit,
            e,
            pack_noise(j),
            delta,
            row_bound,
            pack_bound,
            key_weight(key, j, packed.n as int),
            weight,
            first_bound,
        );
        lemma_centred_noise(
            packed_phase(switched, key, j),
            db.cell(row, selected) * unit,
            noisy,
            first_bound,
            narrow,
        );
    }
    law_recursion_retrieves(
        client,
        db,
        index,
        value,
        state,
        switched,
        key,
        first,
        first_noise,
        first_bound,
        mask_digits,
        body_digits,
        second,
        mask_phases,
        mask_noise,
        body_phases,
        body_noise,
        second_bound,
        mask,
        body,
        recomposed,
        switched.size as int,
        column,
        block,
    );
}

/// [`lemma_switched_noise`] for moduli that are powers of two.
pub proof fn lemma_row_after_switch(
    k: int,
    bits: int,
    base2k: int,
    size: int,
    tau: int,
    switched: int,
    packed: int,
    row: int,
    cell: int,
    unit: int,
    small_unit: int,
    e: int,
    pack: int,
    delta: int,
    row_bound: int,
    pack_bound: int,
    key_weight: int,
    weight: int,
    bound: int,
) -> (r: int)
    requires
        limbs_fit(bits, base2k, size),
        1 <= k <= base2k * size,
        bits <= 16 * tau,
        (pow2(padding(bits, base2k, size)) * switched - pow2(padding(bits, 16, tau)) * (packed
            + delta)) % (pow2(padding(bits, 16, tau)) * pow2((base2k * size) as nat)) as int == 0,
        (packed - (pow2(padding(k, base2k, size)) * row + pack)) % pow2(
            (base2k * size) as nat,
        ) as int == 0,
        (row - (cell * unit + e)) % pow2(k as nat) as int == 0,
        abs(cell) <= 32768,
        abs(e) <= row_bound,
        abs(pack) <= pack_bound,
        2 * abs(delta) <= pow2(padding(bits, base2k, size)) * (1 + key_weight),
        key_weight <= weight,
        switch_tolerates(
            pow2(padding(bits, base2k, size)) as int,
            pow2(padding(bits, 16, tau)) as int,
            pow2(padding(k, base2k, size)) * row_bound + pack_bound,
            weight,
            pow2(padding(bits, 16, tau)) * pow2(padding(k, base2k, size)) * unit - pow2(
                padding(bits, base2k, size),
            ) * small_unit,
            bound,
        ),
    ensures
        abs(r) <= bound,
        (switched - (cell * small_unit + r)) % pow2((16 * tau) as nat) as int == 0,
{
    let down = padding(bits, base2k, size);
    let up = padding(bits, 16, tau);
    let zoomed = padding(k, base2k, size);
    let wide = (base2k * size) as nat;
    let narrow = (16 * tau) as nat;
    lemma_pow2_pos(down);
    lemma_pow2_pos(up);
    lemma_pow2_pos(zoomed);
    lemma_pow2_pos(k as nat);
    lemma_pow2_pos(narrow);
    lemma_pow2_adds(zoomed, k as nat);
    lemma_pow2_adds(down, narrow);
    lemma_pow2_adds(up, wide);
    assert(zoomed + k == wide);
    assert(down + narrow == up + wide);
    let scale = pow2(down) as int;
    assert(scale * (1 + key_weight) <= scale * (1 + weight)) by (nonlinear_arith)
        requires
            key_weight <= weight,
            scale >= 1,
    ;
    lemma_switched_noise(
        scale,
        pow2(up) as int,
        pow2(zoomed) as int,
        pow2(k as nat) as int,
        pow2(wide) as int,
        pow2(narrow) as int,
        switched,
        packed,
        row,
        cell,
        unit,
        small_unit,
        e,
        pack,
        delta,
        row_bound,
        pack_bound,
        weight,
        bound,
    )
}

} // verus!
