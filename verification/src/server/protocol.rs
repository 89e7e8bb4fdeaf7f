//! The protocol from end to end: what a client reads is what the server stores.
//!
//! The laws here start from what a backend gives, products that switch keys up to some
//! noise, and end at the record.

use std::sync::Arc;
use vstd::prelude::*;
use vstd::arithmetic::div_mod::*;
use vstd::arithmetic::power2::*;
use crate::arith::{lemma_div_ceil, lemma_quotient, spec_div_ceil};
use crate::client::{
    selects, Client, InterpolationPlan, QueryPlan, QueryState, RecursionPlan,
};
use crate::encoding::{
    centred_residue, limb_value, limbs_fit, limbs_hold, padding, rounded, ModPEncoder,
};
use crate::interpolation::{lemma_extend, value_at};
use crate::limbs::LimbVec;
use crate::packing::aggregate::torus_poly;
use crate::packing::convolution::{convolution, term_at};
use crate::packing::packed::{
    decrypted, law_partial_pass_decrypts, law_pass_decrypts, FullPacking, PartialPacking,
};
use crate::packing::recursion::{centred16, coefficient_limbs};
use crate::packing::run::PackRun;
use crate::packing::switch::{key_weight, law_switch_keeps_phase};
use crate::payload::Payload;
use crate::retrieval::{
    block_sum, centred_noise, encrypts, holds_digits, law_recursion_retrieves, lemma_centred_noise,
    lemma_plan_is_one_hot, lemma_row_in_matrix, limb_phase, one_hot, packed_phase, phase,
    planned_selector, query_phase,
};
use crate::ring::{abs, lemma_add_negacyclic, negacyclic, Poly};
use crate::server::answer::{
    first_level_phase, is_query_body, law_interpolation_server_answers, lemma_first_level_selects,
    lemma_row_after_switch, switch_tolerates,
};
use crate::server::digits::{law_group_selects_digits, DigitBatch};
use crate::server::gemm::QueryMask;
use crate::server::offline::{QueryMasks, ServerPrecomputation};
use crate::server::product::{blocks_dot, bodies_of};
use crate::server::Server;
use crate::sums::{
    int_sum, lemma_int_sum_bound, lemma_int_sum_congruent, lemma_int_sum_mod, lemma_int_sum_scale,
    lemma_multiple_scales, lemma_multiples_add,
};

verus! {

/// A decrypted ciphertext is a polynomial of the ring.
proof fn lemma_decrypted_negacyclic(n: int, body: Seq<i64>, mask: Seq<i64>, s: Poly)
    requires
        n >= 1,
        negacyclic(n, s),
    ensures
        negacyclic(n, decrypted(n, body, mask, s)),
{
    let a = torus_poly(n, mask);
    let c = convolution(n)(a, s);
    lemma_extend(n, |j: int| body[j] as int);
    assert forall|i: int| #[trigger] c(i + n) == -c(i) by {
        let f = term_at(a, s, i + n);
        let g = term_at(a, s, i);
        let h = |j: int| -1 * g(j);
        assert forall|j: int| 0 <= j < n implies #[trigger] f(j) == h(j) by {
            assert(s((i - j) + n) == -s(i - j));
            assert(i + n - j == (i - j) + n);
            assert(a(j) * (-s(i - j)) == -1 * (a(j) * s(i - j))) by (nonlinear_arith);
        }
        lemma_int_sum_congruent(0, n, f, h);
        lemma_int_sum_scale(0, n, -1, g);
        lemma_int_sum_congruent(0, n, h, |j: int| -1 * g(j));
    }
    lemma_add_negacyclic(n, torus_poly(n, body), c);
}

/// One exchange with an interpolation server, from query `q` of a batch to what its client
/// reads.
///
/// The query encrypts what the client's plan selects, with noise that the rows of the
/// products carry up to `row_bound`. Of every panel, `packs` preprocesses the mask side and
/// packs the body of the query with keys that switch to the secret, with noise up to
/// `switch_bound` after all switches. `column` is decoded from the value of the packed panels
/// at the query's root, with noise up to `extra_bound`. All of it is small enough to be
/// decoded.
pub struct InterpolationExchange {
    pub masks: Arc<QueryMasks>,
    pub sides: Seq<Vec<i64>>,
    pub panels: int,
    pub plan: InterpolationPlan,
    pub state: QueryState,
    pub encoder: ModPEncoder,
    pub queries: Seq<Vec<Vec<i64>>>,
    pub q: int,
    pub products: Seq<Vec<i128>>,
    pub s: Poly,
    pub noise: spec_fn(int, int) -> int,
    pub row_bound: int,
    pub packs: spec_fn(int) -> FullPacking,
    pub bodies: spec_fn(int) -> Seq<i64>,
    pub runs: spec_fn(int) -> PackRun,
    pub packed_masks: spec_fn(int) -> Seq<i64>,
    pub switch_noise: spec_fn(int, int) -> int,
    pub switch_bound: int,
    pub rounding: int,
    pub extra: spec_fn(int) -> int,
    pub extra_bound: int,
    pub column: Seq<i64>,
    pub block: [u8; 32],
}

impl InterpolationExchange {
    /// The client asked for payload `index`, and read `block`.
    pub open spec fn wf<P: Payload<[u8; 32]>>(
        self,
        server: Server<P>,
        client: Client<P>,
        index: int,
    ) -> bool {
        &&& server.masks == Some(self.masks)
        &&& server.precomputation matches Some(ServerPrecomputation::Interpolation(pre))
            && self.sides == pre.products@ && self.panels == pre.interpolation.panels
        // The query.
        &&& client.asks_for(self.state, index)
        &&& client.plan_selects(QueryPlan::Interpolation(self.plan), self.state)
        &&& self.encoder.wf()
        &&& self.encoder.p == P::BASIS
        &&& self.encoder.k == server.params.params.k
        &&& 0 <= self.q < self.queries.len()
        &&& self.queries[self.q]@.len() == server.database.spec_column_blocks()
        &&& negacyclic(server.params.params.n as int, self.s)
        &&& encrypts(
            bodies_of(self.queries[self.q]@),
            self.masks.first@,
            self.s,
            server.params.params.n as int,
            pow2(self.encoder.k as nat) as int,
            server.params.params.n as int,
            planned_selector(self.plan.blocks@, self.encoder.spec_encode(1)),
            self.noise,
        )
        // The products and their packing.
        &&& server.are_answers(self.queries, self.products)
        &&& self.row_bound >= 0
        &&& forall|j: int, r: int|
            0 <= j < self.panels && 0 <= r < server.params.params.n ==> abs(
                #[trigger] block_sum(server.product_source().block_row(j), r, self.noise),
            ) <= self.row_bound
        &&& forall|j: int|
            0 <= j < self.panels ==> {
                let pack = #[trigger] (self.packs)(j);
                &&& pack.wf()
                &&& pack.n == server.params.params.n
                &&& pack.bits == server.params.params.k
                &&& pack.s == self.s
                &&& pack.rounding() <= self.rounding
                &&& is_query_body(
                    self.products[j]@,
                    self.queries.len() as int,
                    self.q,
                    0,
                    pack.n,
                    pack.n,
                    (self.bodies)(j),
                )
                &&& pack.packs((self.bodies)(j), (self.runs)(j), (self.packed_masks)(j))
            }
        &&& forall|j: int, r: int, c: int|
            0 <= j < self.panels && 0 <= r < server.params.params.n && 0 <= c
                < server.params.params.n ==> #[trigger] (self.packs)(j).rows[r]@[c]
                == self.sides[j]@[r * server.params.params.n + c]
        &&& forall|j: int, r: int|
            0 <= j < self.panels && 0 <= r < server.params.params.n ==> {
                &&& ((self.packs)(j).noise()(r) - #[trigger] (self.switch_noise)(j, r)) % pow2(
                    self.encoder.k as nat,
                ) as int == 0
                &&& abs((self.switch_noise)(j, r)) <= self.switch_bound
            }
        &&& self.switch_bound >= 0
        &&& self.rounding >= 0
        // The answer.
        &&& forall|x: int|
            0 <= x < server.params.params.n ==> -self.extra_bound <= #[trigger] (self.extra)(x)
                <= self.extra_bound
        &&& self.extra_bound >= 0
        &&& self.encoder.tolerates(
            self.panels * 32768,
            self.panels * (self.row_bound + (self.switch_bound + self.rounding / 2))
                + self.extra_bound,
        )
        &&& self.column.len() == server.params.params.n
        &&& forall|x: int|
            0 <= x < server.params.params.n ==> #[trigger] self.column[x]
                == self.encoder.spec_decode(
                value_at(
                    |j: int|
                        decrypted(
                            server.params.params.n as int,
                            (self.runs)(j).body@,
                            (self.packed_masks)(j),
                            self.s,
                        ),
                    self.panels,
                    self.plan.root.exponent(server.params.params.n as int),
                    x,
                ) + (self.extra)(x),
            )
        &&& P::stands_for(Client::<P>::spec_digits(self.state, self.column), self.block)
    }
}

/// An interpolation server answers with what it stores, from end to end: once the payloads
/// from `start` on are `values` and the mask side is current, every query of every batch
/// that asks for one of them, whatever the secret, leads its client to that value, which is
/// also what the server itself reads.
pub proof fn law_interpolation_protocol<P: Payload<[u8; 32]>>(
    server: Server<P>,
    client: Client<P>,
    start: int,
    values: Seq<[u8; 32]>,
    index: int,
    x: InterpolationExchange,
    stored: [u8; 32],
)
    requires
        server.wf(),
        server.current(),
        1 <= server.params.params.k <= 62,
        client.wf(),
        client.params.params == server.params.params,
        client.layout == server.layout,
        server.database.stores(start, values),
        0 <= start <= index < start + values.len(),
        index < client.spec_capacity(),
        P::stands_for(server.database.digits_at(index), stored),
        x.wf(server, client, index),
    ensures
        Client::<P>::readable(x.state, x.column),
        x.block == values[index - start],
        stored == values[index - start],
{
    let masks = x.masks;
    let sides = x.sides;
    let panels = x.panels;
    let plan = x.plan;
    let state = x.state;
    let encoder = x.encoder;
    let queries = x.queries;
    let q = x.q;
    let products = x.products;
    let s = x.s;
    let noise = x.noise;
    let row_bound = x.row_bound;
    let packs = x.packs;
    let bodies = x.bodies;
    let runs = x.runs;
    let packed_masks = x.packed_masks;
    let switch_noise = x.switch_noise;
    let switch_bound = x.switch_bound;
    let rounding = x.rounding;
    let extra = x.extra;
    let extra_bound = x.extra_bound;
    let column = x.column;
    let block = x.block;
    let n = server.params.params.n as int;
    let nq = queries.len() as int;
    let torus = pow2(encoder.k as nat) as int;
    let pack_bound = switch_bound + rounding / 2;
    let phases = |j: int| decrypted(n, runs(j).body@, packed_masks(j), s);
    let row_phase = |j: int, r: int|
        phase(
            products[j]@[r * nq + q] as int,
            |c: int| sides[j]@[r * n + c] as int,
            s,
            n,
        );
    let pack_noise = |j: int, r: int|
        centred_noise(phases(j)(r), row_phase(j, r), pack_bound, torus);
    lemma_pow2_pos(encoder.k as nat);
    assert forall|j: int| negacyclic(n, #[trigger] phases(j)) by {
        lemma_decrypted_negacyclic(n, runs(j).body@, packed_masks(j), s);
    }
    assert forall|j: int, r: int| 0 <= j < panels && 0 <= r < n implies {
        &&& (phases(j)(r) - (row_phase(j, r) + #[trigger] pack_noise(j, r))) % torus == 0
        &&& -pack_bound <= pack_noise(j, r) <= pack_bound
    } by {
        let pack = packs(j);
        let e = law_pass_decrypts(pack, bodies(j), runs(j), packed_masks(j), r);
        let f = |c: int| pack.rows[r]@[c] * s(c);
        let g = |c: int| (|c: int| sides[j]@[r * n + c] as int)(c) * s(c);
        assert forall|c: int| 0 <= c < n implies #[trigger] f(c) == g(c) by {
            assert(packs(j).rows[r]@[c] == sides[j]@[r * n + c]);
        }
        lemma_int_sum_congruent(0, n, f, g);
        lemma_int_sum_congruent(0, n, f, |c: int| pack.rows[r]@[c] * (pack.s)(c));
        assert(bodies(j)[r] == products[j]@[(0 + r) * nq + q]);
        assert(bodies(j)[r] + pack.row_key(r) == row_phase(j, r));
        lemma_multiples_add(
            phases(j)(r) - (row_phase(j, r) + pack.noise()(r) + e),
            pack.noise()(r) - switch_noise(j, r),
            torus,
        );
        lemma_centred_noise(
            phases(j)(r),
            row_phase(j, r),
            switch_noise(j, r) + e,
            pack_bound,
            torus,
        );
    }
    assert forall|j: int, r: int| 0 <= j < panels && 0 <= r < n implies -pack_bound
        <= #[trigger] pack_noise(j, r) <= pack_bound by {
        assert((phases(j)(r) - (row_phase(j, r) + pack_noise(j, r))) % torus == 0);
    }
    law_interpolation_server_answers(
        server,
        client,
        masks,
        sides,
        panels,
        start,
        values,
        index,
        plan,
        state,
        encoder,
        queries,
        q,
        products,
        s,
        noise,
        row_bound,
        phases,
        pack_noise,
        pack_bound,
        extra,
        extra_bound,
        column,
        block,
        stored,
    );
}

/// A batch is answered as its queries are alone: two exchanges that ask for the same
/// payload, in whatever batches, with whatever secrets and after whatever other queries, read
/// the same value.
pub proof fn law_interpolation_exchanges_agree<P: Payload<[u8; 32]>>(
    server: Server<P>,
    client: Client<P>,
    other: Client<P>,
    start: int,
    values: Seq<[u8; 32]>,
    index: int,
    x: InterpolationExchange,
    y: InterpolationExchange,
)
    requires
        server.wf(),
        server.current(),
        1 <= server.params.params.k <= 62,
        client.wf(),
        client.params.params == server.params.params,
        client.layout == server.layout,
        other.wf(),
        other.params.params == server.params.params,
        other.layout == server.layout,
        server.database.stores(start, values),
        0 <= start <= index < start + values.len(),
        index < client.spec_capacity(),
        x.wf(server, client, index),
        y.wf(server, other, index),
    ensures
        x.block == y.block,
{
    let value = values[index - start];
    assert(server.database.digits_at(start + (index - start)) == P::digits_of(value));
    P::law_roundtrip(value, value);
    law_interpolation_protocol(server, client, start, values, index, x, value);
    law_interpolation_protocol(server, other, start, values, index, y, value);
}

// ---------------------------------------------------------------------------
// Packed answers as digits
// ---------------------------------------------------------------------------

/// The key of a secret, row by row: coefficient `j` of a product with the secret is the
/// other factor times row `j`.
pub open spec fn secret_rows(s: Poly) -> spec_fn(int, int) -> int {
    |j: int, i: int| s(j - i)
}

/// What the packed answers of a recursion server have in common: the ring, the torus, the
/// limbs before and after the modulus switch, the secret with a bound of its coefficients,
/// and a bound of the noise of all key switches of a packing.
pub struct Transport {
    pub n: int,
    pub bits: int,
    pub base2k: int,
    pub size: int,
    pub qbits: int,
    pub tau: int,
    pub s: Poly,
    pub most: int,
    pub switch_bound: int,
}

impl Transport {
    pub open spec fn wf(self) -> bool {
        &&& self.n >= 1
        &&& limbs_fit(self.qbits, self.base2k, self.size)
        &&& 1 <= self.bits <= self.base2k * self.size
        &&& self.qbits <= 16 * self.tau
        &&& self.most >= 0
        &&& self.switch_bound >= 0
    }

    /// Units of the limbs per unit of the torus.
    pub open spec fn zoom(self) -> int {
        pow2(padding(self.bits, self.base2k, self.size)) as int
    }

    /// Units of the limbs per unit of the switched modulus.
    pub open spec fn scale(self) -> int {
        pow2(padding(self.qbits, self.base2k, self.size)) as int
    }

    /// Units of the digits per unit of the switched modulus.
    pub open spec fn pad(self) -> int {
        pow2(padding(self.qbits, 16, self.tau)) as int
    }

    /// A row of `unit` units and noise up to `row_bound`, packed with `rounding` and
    /// switched, is one of `small` units and noise up to `bound`.
    pub open spec fn tolerates(
        self,
        row_bound: int,
        rounding: int,
        unit: int,
        small: int,
        bound: int,
    ) -> bool {
        switch_tolerates(
            self.scale(),
            self.pad(),
            self.zoom() * row_bound + self.zoom() * (self.switch_bound + rounding / 2),
            self.n * self.most,
            self.pad() * self.zoom() * unit - self.scale() * small,
            bound,
        )
    }
}

/// A partially packed answer on its way out: packed, written in limbs, and rounded to
/// digits.
pub struct SwitchedAnswer {
    pub pack: PartialPacking,
    pub bodies: Seq<i64>,
    pub run: PackRun,
    pub mask: Seq<i64>,
    pub packed: LimbVec,
    pub switched: LimbVec,
    /// The noise of all key switches, modulo the torus.
    pub noise: spec_fn(int) -> int,
}

impl SwitchedAnswer {
    pub open spec fn wf(self, shape: Transport) -> bool {
        &&& self.pack.wf()
        &&& self.pack.n == shape.n
        &&& self.pack.bits == shape.bits
        &&& self.pack.s == shape.s
        &&& self.pack.most == shape.most
        &&& self.pack.packs(self.bodies, self.run, self.mask)
        &&& forall|j: int|
            0 <= j < self.pack.gamma ==> {
                &&& (self.pack.noise()(j) - #[trigger] (self.noise)(j)) % pow2(
                    shape.bits as nat,
                ) as int == 0
                &&& abs((self.noise)(j)) <= shape.switch_bound
            }
        &&& self.packed.n == shape.n
        &&& self.packed.cols == 2
        &&& self.packed.size == shape.size
        &&& forall|c: int|
            0 <= c < shape.n ==> limbs_hold(
                shape.bits,
                #[trigger] coefficient_limbs(self.packed, 0, c),
                shape.base2k,
                self.run.body@[c] as int,
            )
        &&& forall|c: int|
            0 <= c < shape.n ==> limbs_hold(
                shape.bits,
                #[trigger] coefficient_limbs(self.packed, 1, c),
                shape.base2k,
                self.mask[c] as int,
            )
        &&& self.switched.n == shape.n
        &&& self.switched.cols == 2
        &&& self.switched.size == shape.tau
        &&& forall|col: int, i: int|
            0 <= col < 2 && 0 <= i < shape.n ==> limbs_hold(
                shape.qbits,
                #[trigger] coefficient_limbs(self.switched, col, i),
                16,
                rounded(shape.qbits, coefficient_limbs(self.packed, col, i), shape.base2k),
            )
    }

    /// What row `j` carries before it is packed.
    pub open spec fn row_phase(self, j: int) -> int {
        self.bodies[j] + self.pack.row_key(j)
    }

    /// What the client decrypts coefficient `j` to.
    pub open spec fn phase(self, j: int) -> int {
        packed_phase(self.switched, secret_rows(self.pack.s), j)
    }
}

proof fn lemma_limb_scaled(
    bits: int,
    base2k: int,
    limbs: Seq<int>,
    value: int,
    key: int,
)
    requires
        limbs_hold(bits, limbs, base2k, value),
    ensures
        (limb_value(limbs, base2k as nat) * key - pow2(
            padding(bits, base2k, limbs.len() as int),
        ) * (value * key)) % pow2((base2k * limbs.len()) as nat) as int == 0,
{
    let zoom = pow2(padding(bits, base2k, limbs.len() as int)) as int;
    let wide = pow2((base2k * limbs.len()) as nat) as int;
    let v = limb_value(limbs, base2k as nat);
    lemma_pow2_pos((base2k * limbs.len()) as nat);
    lemma_multiple_scales(v - value * zoom, key, wide);
    assert(key * (v - value * zoom) == v * key - zoom * (value * key)) by (nonlinear_arith);
}

/// The limbs of a packed answer carry what it decrypts to.
proof fn lemma_limbs_carry(ans: SwitchedAnswer, shape: Transport, j: int)
    requires
        shape.wf(),
        ans.wf(shape),
        0 <= j < shape.n,
    ensures
        (limb_phase(ans.packed, shape.base2k as nat, secret_rows(shape.s), j) - shape.zoom()
            * decrypted(shape.n, ans.run.body@, ans.mask, shape.s)(j)) % pow2(
            (shape.base2k * shape.size) as nat,
        ) as int == 0,
{
    let n = shape.n;
    let b = shape.base2k as nat;
    let zoom = shape.zoom();
    let wide = pow2((shape.base2k * shape.size) as nat) as int;
    let s = shape.s;
    lemma_pow2_pos((shape.base2k * shape.size) as nat);
    let body = coefficient_limbs(ans.packed, 0, j);
    assert(body.len() == shape.size);
    lemma_limb_scaled(shape.bits, shape.base2k, body, ans.run.body@[j] as int, 1);
    lemma_extend(n, |i: int| ans.run.body@[i] as int);
    lemma_extend(n, |i: int| ans.mask[i] as int);
    let a = torus_poly(n, ans.mask);
    let limb = |i: int| limb_value(coefficient_limbs(ans.packed, 1, i), b);
    let row = |i: int| secret_rows(s)(j, i);
    let x = |i: int| limb(i) * row(i);
    let y = |i: int| zoom * term_at(a, s, j)(i);
    assert forall|i: int| 0 <= i < n implies (#[trigger] x(i) - y(i)) % wide == 0 by {
        let limbs = coefficient_limbs(ans.packed, 1, i);
        assert(limbs.len() == shape.size);
        lemma_limb_scaled(shape.bits, shape.base2k, limbs, ans.mask[i] as int, s(j - i));
        assert(a(i) == ans.mask[i]);
    }
    lemma_int_sum_mod(0, n, wide, x, y);
    lemma_int_sum_scale(0, n, zoom, term_at(a, s, j));
    lemma_int_sum_congruent(0, n, y, |i: int| zoom * term_at(a, s, j)(i));
    let key_part = int_sum(0, n, x);
    let exact = convolution(n)(a, s)(j);
    assert(limb_phase(ans.packed, b, secret_rows(s), j) == limb_value(body, b) + key_part) by {
        let z = |i: int|
            (|i: int| limb_value(coefficient_limbs(ans.packed, 1, i), b))(i) * (|i: int|
                secret_rows(s)(j, i))(i);
        lemma_int_sum_congruent(0, n, x, z);
    }
    let v = limb_value(body, b);
    let plain = ans.run.body@[j] as int;
    assert(v * 1 == v && zoom * (plain * 1) == zoom * plain) by (nonlinear_arith);
    lemma_multiples_add(v - zoom * plain, key_part - zoom * exact, wide);
    assert(zoom * (plain + exact) == zoom * plain + zoom * exact) by (nonlinear_arith);
}

/// A packed answer carries its rows: in the units of its limbs, coefficient `j` decrypts to
/// row `j`, up to the noise of the key switches and of rounding.
pub proof fn law_packed_answer_carries_rows(ans: SwitchedAnswer, shape: Transport, j: int) -> (pn:
    int)
    requires
        shape.wf(),
        ans.wf(shape),
        0 <= j < ans.pack.gamma,
    ensures
        abs(pn) <= shape.zoom() * (shape.switch_bound + ans.pack.rounding() / 2),
        (limb_phase(ans.packed, shape.base2k as nat, secret_rows(shape.s), j) - (shape.zoom()
            * ans.row_phase(j) + pn)) % pow2((shape.base2k * shape.size) as nat) as int == 0,
{
    let q = pow2(shape.bits as nat) as int;
    let zoomed = padding(shape.bits, shape.base2k, shape.size);
    let zoom = shape.zoom();
    let wide = pow2((shape.base2k * shape.size) as nat) as int;
    let total = decrypted(shape.n, ans.run.body@, ans.mask, shape.s)(j);
    lemma_pow2_pos(shape.bits as nat);
    lemma_pow2_pos(zoomed);
    lemma_pow2_pos((shape.base2k * shape.size) as nat);
    lemma_pow2_adds(zoomed, shape.bits as nat);
    assert(zoomed + shape.bits == shape.base2k * shape.size);
    let e = law_partial_pass_decrypts(ans.pack, ans.bodies, ans.run, ans.mask, j);
    lemma_multiples_add(
        total - (ans.row_phase(j) + ans.pack.noise()(j) + e),
        ans.pack.noise()(j) - (ans.noise)(j),
        q,
    );
    let small = (ans.noise)(j) + e;
    let gap = total - (ans.row_phase(j) + small);
    assert(gap % q == 0);
    lemma_fundamental_div_mod(gap, q);
    let m = gap / q;
    let pn = zoom * small;
    assert(zoom * total - (zoom * ans.row_phase(j) + pn) == wide * m + 0) by (nonlinear_arith)
        requires
            gap == total - (ans.row_phase(j) + small),
            gap == q * m + 0,
            pn == zoom * small,
            wide == zoom * q,
    ;
    lemma_quotient(zoom * total - (zoom * ans.row_phase(j) + pn), wide, m, 0);
    lemma_limbs_carry(ans, shape, j);
    let limbs = limb_phase(ans.packed, shape.base2k as nat, secret_rows(shape.s), j);
    lemma_multiples_add(
        limbs - zoom * total,
        zoom * total - (zoom * ans.row_phase(j) + pn),
        wide,
    );
    let limit = shape.switch_bound + ans.pack.rounding() / 2;
    assert(abs(small) <= limit);
    assert(abs(zoom * small) <= zoom * limit) by (nonlinear_arith)
        requires
            abs(small) <= limit,
            zoom >= 1,
    ;
    pn
}

proof fn lemma_secret_weight(s: Poly, most: int, j: int, n: int)
    requires
        n >= 0,
        forall|x: int| abs(#[trigger] s(x)) <= most,
    ensures
        key_weight(secret_rows(s), j, n) <= n * most,
{
    let f = |i: int| abs(secret_rows(s)(j, i));
    assert forall|i: int| 0 <= i < n implies -most <= #[trigger] f(i) <= most by {
        assert(abs(s(j - i)) <= most);
    }
    lemma_int_sum_bound(0, n, most, f);
}

/// A row that carries `cell` units leaves the server as digits that decrypt to `cell`
/// smaller units, up to noise within `bound`.
pub proof fn law_switched_answer_carries_cell(
    ans: SwitchedAnswer,
    shape: Transport,
    j: int,
    cell: int,
    unit: int,
    small: int,
    e: int,
    row_bound: int,
    bound: int,
) -> (r: int)
    requires
        shape.wf(),
        ans.wf(shape),
        0 <= j < ans.pack.gamma,
        abs(cell) <= 32768,
        (ans.row_phase(j) - (cell * unit + e)) % pow2(shape.bits as nat) as int == 0,
        abs(e) <= row_bound,
        shape.tolerates(row_bound, ans.pack.rounding(), unit, small, bound),
    ensures
        abs(r) <= bound,
        (ans.phase(j) - (cell * small + r)) % pow2((16 * shape.tau) as nat) as int == 0,
{
    let key = secret_rows(shape.s);
    let pn = law_packed_answer_carries_rows(ans, shape, j);
    let delta = law_switch_keeps_phase(ans.packed, shape.base2k, shape.qbits, ans.switched, key, j);
    lemma_secret_weight(shape.s, shape.most, j, shape.n);
    lemma_row_after_switch(
        shape.bits,
        shape.qbits,
        shape.base2k,
        shape.size,
        shape.tau,
        packed_phase(ans.switched, key, j),
        limb_phase(ans.packed, shape.base2k as nat, key, j),
        ans.row_phase(j),
        cell,
        unit,
        small,
        e,
        pn,
        delta,
        row_bound,
        shape.zoom() * (shape.switch_bound + ans.pack.rounding() / 2),
        key_weight(key, j, shape.n),
        shape.n * shape.most,
        bound,
    )
}

// ---------------------------------------------------------------------------
// The second level
// ---------------------------------------------------------------------------

/// The second level on one digit database: its rows in groups of `gamma`, multiplied with
/// the masks and with the query `src`, and packed.
pub struct SecondLevel {
    pub gamma: int,
    pub digits: Seq<Vec<i16>>,
    pub groups: spec_fn(int) -> DigitBatch,
    pub answers: spec_fn(int) -> SwitchedAnswer,
    /// Bound of twice what rounding adds to a packing.
    pub rounding: int,
}

impl SecondLevel {
    /// Group `g` holds its rows of the digits, and its packed answer is that of its
    /// products.
    pub open spec fn answers_group(
        self,
        shape: Transport,
        t: int,
        masks: Seq<QueryMask>,
        src: Seq<Vec<i64>>,
        g: int,
    ) -> bool {
        let group = (self.groups)(g);
        let ans = (self.answers)(g);
        &&& group.wf()
        &&& group.gamma == self.gamma
        &&& group.n == shape.n
        &&& group.matrices@.len() == masks.len()
        &&& group.holds(self.digits, t, g)
        &&& group.multiplied(masks, shape.bits)
        &&& ans.wf(shape)
        &&& ans.pack.gamma == self.gamma
        &&& ans.pack.rounding() == self.rounding
        &&& forall|r: int, c: int|
            0 <= r < self.gamma && 0 <= c < shape.n ==> #[trigger] ans.pack.rows[r]@[c]
                == group.products@[r * shape.n + c]
        &&& forall|r: int|
            0 <= r < self.gamma ==> #[trigger] ans.bodies[r] == centred_residue(
                blocks_dot(group.matrices@, r, bodies_of(src), src.len()),
                pow2(shape.bits as nat) as int,
            )
    }

    pub open spec fn wf(
        self,
        shape: Transport,
        t: int,
        masks: Seq<QueryMask>,
        src: Seq<Vec<i64>>,
    ) -> bool {
        &&& self.gamma >= 1
        &&& forall|g: int|
            0 <= g && g * self.gamma < self.digits.len() ==> #[trigger] self.answers_group(
                shape,
                t,
                masks,
                src,
                g,
            )
    }

    /// What row `i` of the products carries of the noise of a query.
    pub open spec fn row_noise(self, i: int, noise: spec_fn(int, int) -> int) -> int {
        block_sum((self.groups)(i / self.gamma).matrices@, i % self.gamma, noise)
    }

    /// What the client decrypts digit `i` to.
    pub open spec fn phases(self) -> spec_fn(int) -> int {
        |i: int| (self.answers)(i / self.gamma).phase(i % self.gamma)
    }

    /// The noise in digit `i` of batch `k`.
    pub open spec fn noise(self, unit: int, bound: int, q: int, k: int) -> spec_fn(int) -> int {
        |i: int| centred_noise(self.phases()(i), self.digits[i]@[k] * unit, bound, q)
    }
}

/// The second level selects the digits of one batch: packed and switched, row `i` decrypts
/// to the digit of that row and batch, up to noise that is small enough to be decoded.
pub proof fn law_second_level_holds_digits(
    level: SecondLevel,
    shape: Transport,
    t: int,
    masks: Seq<QueryMask>,
    src: Seq<Vec<i64>>,
    k: int,
    encoder: ModPEncoder,
    noise: spec_fn(int, int) -> int,
    row_bound: int,
    second: ModPEncoder,
    second_bound: int,
)
    requires
        shape.wf(),
        shape.bits <= 62,
        level.wf(shape, t, masks, src),
        src.len() == masks.len(),
        0 <= k < t,
        t <= masks.len() * shape.n,
        encrypts(
            bodies_of(src),
            masks,
            shape.s,
            shape.n,
            pow2(shape.bits as nat) as int,
            shape.n,
            one_hot(shape.n, k, encoder.spec_encode(1)),
            noise,
        ),
        forall|i: int|
            0 <= i < level.digits.len() ==> abs(#[trigger] level.row_noise(i, noise)) <= row_bound,
        second.k == 16 * shape.tau,
        shape.tolerates(
            row_bound,
            level.rounding,
            encoder.spec_encode(1),
            second.spec_encode(1),
            second_bound,
        ),
    ensures
        holds_digits(
            second,
            level.phases(),
            level.noise(second.spec_encode(1), second_bound, pow2(second.k as nat) as int, k),
            second_bound,
            level.digits,
            k,
        ),
{
    let gamma = level.gamma;
    let n = shape.n;
    let unit = encoder.spec_encode(1);
    let small = second.spec_encode(1);
    let narrow = pow2(second.k as nat) as int;
    let phases = level.phases();
    let noises = level.noise(small, second_bound, narrow, k);
    assert forall|i: int| 0 <= i < level.digits.len() implies {
        &&& (#[trigger] phases(i) - (level.digits[i]@[k] * small + noises(i))) % narrow == 0
        &&& -second_bound <= noises(i) <= second_bound
    } by {
        let (g, r) = (i / gamma, i % gamma);
        lemma_fundamental_div_mod(i, gamma);
        lemma_mod_bound(i, gamma);
        lemma_div_pos_is_pos(i, gamma);
        assert(g * gamma == gamma * g) by (nonlinear_arith);
        assert(level.answers_group(shape, t, masks, src, g));
        let group = (level.groups)(g);
        let ans = (level.answers)(g);
        let e = level.row_noise(i, noise);
        law_group_selects_digits(
            group,
            level.digits,
            t,
            g,
            masks,
            src,
            ans.bodies,
            shape.bits,
            shape.s,
            r,
            k,
            unit,
            noise,
        );
        lemma_row_phase(ans, shape, group.products@, r);
        let left = law_switched_answer_carries_cell(
            ans,
            shape,
            r,
            level.digits[i]@[k] as int,
            unit,
            small,
            e,
            row_bound,
            second_bound,
        );
        lemma_centred_noise(phases(i), level.digits[i]@[k] * small, left, second_bound, narrow);
    }
}

/// What a row carries, with its mask row taken out of a product.
proof fn lemma_row_phase(ans: SwitchedAnswer, shape: Transport, products: Seq<i64>, r: int)
    requires
        ans.wf(shape),
        forall|c: int|
            0 <= c < shape.n ==> #[trigger] ans.pack.rows[r]@[c] == products[r * shape.n + c],
    ensures
        ans.row_phase(r) == phase(
            ans.bodies[r] as int,
            |c: int| products[r * shape.n + c] as int,
            shape.s,
            shape.n,
        ),
{
    let f = |c: int| ans.pack.rows[r]@[c] * (ans.pack.s)(c);
    let g = |c: int| (|c: int| products[r * shape.n + c] as int)(c) * (shape.s)(c);
    assert forall|c: int| 0 <= c < shape.n implies #[trigger] f(c) == g(c) by {
        assert(ans.pack.rows[r]@[c] == products[r * shape.n + c]);
    }
    lemma_int_sum_congruent(0, shape.n, f, g);
}

/// Row `j` of the packing is row `row` of the first level, for query `q` of a batch: its
/// entry of the products, and its row of the mask side.
pub open spec fn packs_row(
    answer: SwitchedAnswer,
    sides: Seq<Vec<i64>>,
    products: Seq<Vec<i128>>,
    queries: int,
    q: int,
    j: int,
    row: int,
) -> bool {
    let n = answer.pack.n;
    &&& answer.bodies[j] == products[row / n]@[(row % n) * queries + q]
    &&& forall|c: int|
        0 <= c < n ==> #[trigger] answer.pack.rows[j]@[c] == sides[row / n]@[(row % n) * n + c]
}

proof fn lemma_first_level_row<P>(
    answer: SwitchedAnswer,
    shape: Transport,
    server: Server<P>,
    sides: Seq<Vec<i64>>,
    products: Seq<Vec<i128>>,
    queries: int,
    q: int,
    j: int,
    row: int,
)
    requires
        answer.wf(shape),
        shape.n == server.params.params.n,
        packs_row(answer, sides, products, queries, q, j, row),
    ensures
        answer.row_phase(j) == first_level_phase(server, sides, products, queries, q, shape.s, row),
{
    let n = shape.n;
    let f = |c: int| answer.pack.rows[j]@[c] * (answer.pack.s)(c);
    let g = |c: int| (|c: int| sides[row / n]@[(row % n) * n + c] as int)(c) * (shape.s)(c);
    assert forall|c: int| 0 <= c < n implies #[trigger] f(c) == g(c) by {
        assert(answer.pack.rows[j]@[c] == sides[row / n]@[(row % n) * n + c]);
    }
    lemma_int_sum_congruent(0, n, f, g);
}

/// One exchange with a recursion server, from query `q` of a batch to what its client reads.
///
/// Both parts of the query encrypt what the client's plan selects, with noise that the rows
/// of the products carry up to `row_bound0` on the first level and `row_bound1` on the second.
/// `answer` packs the rows of the payload's batch and is rounded to digits; `masks_level` and
/// `bodies_level` select the digits of that batch and are packed and rounded in turn; all
/// with keys that switch to the secret, with noise up to the bound of `shape` after all
/// switches of a packing. `mask`, `body` and `column` are what the client decodes. All of it
/// is small enough to be decoded.
pub struct RecursionExchange {
    pub masks: Arc<QueryMasks>,
    pub sides: Seq<Vec<i64>>,
    pub plan: RecursionPlan,
    pub state: QueryState,
    pub encoder: ModPEncoder,
    pub queries: Seq<Vec<Vec<i64>>>,
    pub q: int,
    pub src1: Seq<Vec<i64>>,
    pub products: Seq<Vec<i128>>,
    pub shape: Transport,
    pub noise0: spec_fn(int, int) -> int,
    pub noise1: spec_fn(int, int) -> int,
    pub row_bound0: int,
    pub row_bound1: int,
    pub answer: SwitchedAnswer,
    pub first: ModPEncoder,
    pub first_bound: int,
    pub masks_level: SecondLevel,
    pub bodies_level: SecondLevel,
    pub second: ModPEncoder,
    pub second_bound: int,
    pub mask: Seq<i64>,
    pub body: Seq<i64>,
    pub recomposed: LimbVec,
    pub column: Seq<i64>,
    pub block: [u8; 32],
}

impl RecursionExchange {
    /// The client asked for payload `index`, and read `block`.
    pub open spec fn wf<P: Payload<[u8; 32]>>(
        self,
        server: Server<P>,
        client: Client<P>,
        index: int,
    ) -> bool {
        &&& server.masks == Some(self.masks)
        &&& server.precomputation matches Some(ServerPrecomputation::Recursion(pre)) && self.sides
            == pre.products@
        // The query.
        &&& client.asks_for(self.state, index)
        &&& client.plan_selects(QueryPlan::Recursion(self.plan), self.state)
        &&& self.encoder.wf()
        &&& self.encoder.k == server.params.params.k
        &&& self.shape.wf()
        &&& self.shape.n == server.params.params.n
        &&& self.shape.bits == server.params.params.k
        &&& 0 <= self.q < self.queries.len()
        &&& self.queries[self.q]@.len() == server.database.spec_column_blocks()
        &&& encrypts(
            bodies_of(self.queries[self.q]@),
            self.masks.first@,
            self.shape.s,
            self.shape.n,
            pow2(self.encoder.k as nat) as int,
            self.shape.n,
            planned_selector(self.plan.src0@, self.encoder.spec_encode(1)),
            self.noise0,
        )
        &&& self.src1.len() == self.masks.second@.len()
        &&& encrypts(
            bodies_of(self.src1),
            self.masks.second@,
            self.shape.s,
            self.shape.n,
            pow2(self.encoder.k as nat) as int,
            self.shape.n,
            planned_selector(self.plan.src1@, self.encoder.spec_encode(1)),
            self.noise1,
        )
        // The first level.
        &&& server.are_answers(self.queries, self.products)
        &&& forall|j: int|
            0 <= j < server.database.height ==> abs(
                #[trigger] server.database.row_noise(
                    self.state.address.matrix * server.database.height + j,
                    self.noise0,
                ),
            ) <= self.row_bound0
        &&& self.answer.wf(self.shape)
        &&& self.answer.pack.gamma == server.database.height
        &&& forall|j: int|
            0 <= j < server.database.height ==> #[trigger] packs_row(
                self.answer,
                self.sides,
                self.products,
                self.queries.len() as int,
                self.q,
                j,
                self.state.address.matrix * server.database.height + j,
            )
        &&& forall|col: int, l: int, c: int|
            self.answer.switched.contains(col, l, c) ==> -32768
                <= #[trigger] self.answer.switched.coeff(col, l, c) < 32768
        &&& self.first.wf()
        &&& self.first.p == P::BASIS
        &&& self.first.k == 16 * self.shape.tau
        &&& self.first_bound >= 0
        &&& self.first.tolerates(32768, self.first_bound)
        &&& self.shape.tolerates(
            self.row_bound0,
            self.answer.pack.rounding(),
            self.encoder.spec_encode(1),
            self.first.spec_encode(1),
            self.first_bound,
        )
        // Its digits.
        &&& self.masks_level.digits.len() == self.shape.n * self.shape.tau
        &&& self.bodies_level.digits.len() == server.database.height * self.shape.tau
        &&& forall|c: int, l: int|
            0 <= c < self.shape.n && 0 <= l < self.shape.tau ==> self.masks_level.digits[c
                * self.shape.tau
                + l]@[self.state.address.matrix as int] == centred16(
                #[trigger] self.answer.switched.coeff(1, l, c) as int,
            )
        &&& forall|c: int, l: int|
            0 <= c < server.database.height && 0 <= l < self.shape.tau
                ==> self.bodies_level.digits[c
                * self.shape.tau + l]@[self.state.address.matrix as int] == centred16(
                #[trigger] self.answer.switched.coeff(0, l, c) as int,
            )
        // The second level.
        &&& self.masks_level.wf(
            self.shape,
            client.layout.spec_block_rows(client.spec_height()),
            self.masks.second@,
            self.src1,
        )
        &&& self.bodies_level.wf(
            self.shape,
            client.layout.spec_block_rows(client.spec_height()),
            self.masks.second@,
            self.src1,
        )
        &&& forall|i: int|
            0 <= i < self.masks_level.digits.len() ==> abs(
                #[trigger] self.masks_level.row_noise(i, self.noise1),
            )
                <= self.row_bound1
        &&& forall|i: int|
            0 <= i < self.bodies_level.digits.len() ==> abs(
                #[trigger] self.bodies_level.row_noise(i, self.noise1),
            ) <= self.row_bound1
        &&& self.second.wf()
        &&& self.second.p == 65536
        &&& self.second.k == 16 * self.shape.tau
        &&& self.second_bound >= 0
        &&& self.second.tolerates(32768, self.second_bound)
        &&& self.shape.tolerates(
            self.row_bound1,
            self.masks_level.rounding,
            self.encoder.spec_encode(1),
            self.second.spec_encode(1),
            self.second_bound,
        )
        &&& self.shape.tolerates(
            self.row_bound1,
            self.bodies_level.rounding,
            self.encoder.spec_encode(1),
            self.second.spec_encode(1),
            self.second_bound,
        )
        &&& self.mask.len() == self.masks_level.digits.len()
        &&& self.body.len() == self.bodies_level.digits.len()
        &&& forall|i: int|
            0 <= i < self.mask.len() ==> #[trigger] self.mask[i] == self.second.spec_decode(
                self.masks_level.phases()(i),
            )
        &&& forall|i: int|
            0 <= i < self.body.len() ==> #[trigger] self.body[i] == self.second.spec_decode(
                self.bodies_level.phases()(i),
            )
        // The answer.
        &&& self.recomposed.n == self.shape.n
        &&& self.recomposed.size == self.shape.tau
        &&& forall|l: int, c: int|
            0 <= l < self.shape.tau && 0 <= c < self.shape.n
                ==> #[trigger] self.recomposed.coeff(1, l, c)
                == self.mask[c * self.shape.tau + l]
        &&& forall|l: int, c: int|
            0 <= l < self.shape.tau && 0 <= c < server.database.height
                ==> #[trigger] self.recomposed.coeff(0, l, c) == self.body[c * self.shape.tau + l]
        &&& self.column.len() == server.database.height
        &&& forall|j: int|
            0 <= j < server.database.height ==> #[trigger] self.column[j] == self.first.spec_decode(
                packed_phase(self.recomposed, secret_rows(self.shape.s), j),
            )
        &&& P::stands_for(Client::<P>::spec_digits(self.state, self.column), self.block)
    }
}

/// A recursion server answers with what it stores, from end to end: once the payloads from
/// `start` on are `values` and the mask side is current, every query of every batch that
/// asks for one of them, whatever the secret, leads its client to that value, which is also
/// what the server itself reads.
pub proof fn law_recursion_protocol<P: Payload<[u8; 32]>>(
    server: Server<P>,
    client: Client<P>,
    start: int,
    values: Seq<[u8; 32]>,
    index: int,
    x: RecursionExchange,
    stored: [u8; 32],
)
    requires
        server.wf(),
        server.current(),
        1 <= server.params.params.k <= 62,
        client.wf(),
        client.params.params == server.params.params,
        client.layout == server.layout,
        server.database.stores(start, values),
        0 <= start <= index < start + values.len(),
        index < client.spec_capacity(),
        P::stands_for(server.database.digits_at(index), stored),
        x.wf(server, client, index),
    ensures
        Client::<P>::readable(x.state, x.column),
        x.block == values[index - start],
        stored == values[index - start],
{
    let masks = x.masks;
    let sides = x.sides;
    let plan = x.plan;
    let state = x.state;
    let encoder = x.encoder;
    let queries = x.queries;
    let q = x.q;
    let src1 = x.src1;
    let products = x.products;
    let shape = x.shape;
    let noise0 = x.noise0;
    let noise1 = x.noise1;
    let row_bound0 = x.row_bound0;
    let row_bound1 = x.row_bound1;
    let answer = x.answer;
    let first = x.first;
    let first_bound = x.first_bound;
    let masks_level = x.masks_level;
    let bodies_level = x.bodies_level;
    let second = x.second;
    let second_bound = x.second_bound;
    let mask = x.mask;
    let body = x.body;
    let recomposed = x.recomposed;
    let column = x.column;
    let block = x.block;
    let db = server.database;
    let n = shape.n;
    let height = db.height as int;
    let k = state.address.matrix as int;
    let selected = state.address.column as int;
    let t = client.layout.spec_block_rows(height);
    let value = values[index - start];
    let unit = encoder.spec_encode(1);
    let key = secret_rows(shape.s);
    let narrow = pow2(first.k as nat) as int;
    assert(db.digits_at(start + (index - start)) == P::digits_of(value));
    P::law_roundtrip(value, stored);
    client.layout.lemma_address(index, n, height);
    // The first level.
    let first_noise = |j: int|
        centred_noise(
            packed_phase(answer.switched, key, j),
            db.cell(k * height + j, selected) * first.spec_encode(1),
            first_bound,
            narrow,
        );
    assert forall|j: int| 0 <= j < height implies {
        &&& (packed_phase(answer.switched, key, j) - (db.cell(k * height + j, selected)
            * first.spec_encode(1) + #[trigger] first_noise(j))) % narrow == 0
        &&& -first_bound <= first_noise(j) <= first_bound
    } by {
        let row = k * height + j;
        lemma_row_in_matrix(client.layout.rows as int, height, k, j);
        let e = db.row_noise(row, noise0);
        lemma_first_level_selects(
            server,
            masks,
            sides,
            plan.src0@,
            selected,
            encoder,
            queries,
            q,
            products,
            shape.s,
            noise0,
            row,
        );
        assert(packs_row(answer, sides, products, queries.len() as int, q, j, row));
        let nq = queries.len() as int;
        lemma_first_level_row(answer, shape, server, sides, products, nq, q, j, row);
        let left = law_switched_answer_carries_cell(
            answer,
            shape,
            j,
            db.cell(row, selected) as int,
            unit,
            first.spec_encode(1),
            e,
            row_bound0,
            first_bound,
        );
        lemma_centred_noise(
            packed_phase(answer.switched, key, j),
            db.cell(row, selected) * first.spec_encode(1),
            left,
            first_bound,
            narrow,
        );
    }
    // The second level.
    lemma_second_query(plan.src1@, k, t, n, masks.second@, src1, shape, encoder, noise1);
    law_second_level_holds_digits(
        masks_level,
        shape,
        t,
        masks.second@,
        src1,
        k,
        encoder,
        noise1,
        row_bound1,
        second,
        second_bound,
    );
    law_second_level_holds_digits(
        bodies_level,
        shape,
        t,
        masks.second@,
        src1,
        k,
        encoder,
        noise1,
        row_bound1,
        second,
        second_bound,
    );
    let small = second.spec_encode(1);
    let second_torus = pow2(second.k as nat) as int;
    law_recursion_retrieves(
        client,
        db,
        index,
        value,
        state,
        answer.switched,
        key,
        first,
        first_noise,
        first_bound,
        masks_level.digits,
        bodies_level.digits,
        second,
        masks_level.phases(),
        masks_level.noise(small, second_bound, second_torus, k),
        bodies_level.phases(),
        bodies_level.noise(small, second_bound, second_torus, k),
        second_bound,
        mask,
        body,
        recomposed,
        shape.tau,
        column,
        block,
    );
}

/// A batch is answered as its queries are alone: two exchanges that ask for the same
/// payload, in whatever batches, with whatever secrets and after whatever other queries, read
/// the same value.
pub proof fn law_recursion_exchanges_agree<P: Payload<[u8; 32]>>(
    server: Server<P>,
    client: Client<P>,
    other: Client<P>,
    start: int,
    values: Seq<[u8; 32]>,
    index: int,
    x: RecursionExchange,
    y: RecursionExchange,
)
    requires
        server.wf(),
        server.current(),
        1 <= server.params.params.k <= 62,
        client.wf(),
        client.params.params == server.params.params,
        client.layout == server.layout,
        other.wf(),
        other.params.params == server.params.params,
        other.layout == server.layout,
        server.database.stores(start, values),
        0 <= start <= index < start + values.len(),
        index < client.spec_capacity(),
        x.wf(server, client, index),
        y.wf(server, other, index),
    ensures
        x.block == y.block,
{
    let value = values[index - start];
    assert(server.database.digits_at(start + (index - start)) == P::digits_of(value));
    P::law_roundtrip(value, value);
    law_recursion_protocol(server, client, start, values, index, x, value);
    law_recursion_protocol(server, other, start, values, index, y, value);
}

/// The second part of a query selects the batch.
proof fn lemma_second_query(
    blocks: Seq<Option<usize>>,
    k: int,
    t: int,
    n: int,
    masks: Seq<QueryMask>,
    src: Seq<Vec<i64>>,
    shape: Transport,
    encoder: ModPEncoder,
    noise: spec_fn(int, int) -> int,
)
    requires
        1 <= n <= usize::MAX,
        n == shape.n,
        0 <= k < t,
        masks.len() == spec_div_ceil(t, n),
        src.len() == masks.len(),
        selects(blocks, k, n, spec_div_ceil(t, n)),
        encrypts(
            bodies_of(src),
            masks,
            shape.s,
            n,
            pow2(encoder.k as nat) as int,
            n,
            planned_selector(blocks, encoder.spec_encode(1)),
            noise,
        ),
    ensures
        t <= masks.len() * n,
        encrypts(
            bodies_of(src),
            masks,
            shape.s,
            n,
            pow2(encoder.k as nat) as int,
            n,
            one_hot(n, k, encoder.spec_encode(1)),
            noise,
        ),
{
    let q = pow2(encoder.k as nat) as int;
    let unit = encoder.spec_encode(1);
    let vs = bodies_of(src);
    let selector = planned_selector(blocks, unit);
    let hot = one_hot(n, k, unit);
    lemma_div_ceil(t, n);
    assert forall|b: int, j: int| 0 <= b < vs.len() && 0 <= j < n implies (query_phase(
        vs,
        masks,
        shape.s,
        n,
    )(b, j) - (hot(b, j) + #[trigger] noise(b, j))) % q == 0 by {
        lemma_plan_is_one_hot(blocks, k, n, masks.len() as int, unit, b, j);
        assert((query_phase(vs, masks, shape.s, n)(b, j) - (selector(b, j) + noise(b, j))) % q
            == 0);
    }
}

} // verus!
