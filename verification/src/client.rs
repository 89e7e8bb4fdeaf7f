//! The client: what to ask for a payload, and how to read it from the answer.

use vstd::prelude::*;
use vstd::arithmetic::div_mod::*;
use vstd::arithmetic::power2::is_pow2;
use crate::arith::{div_ceil, just_enough, lemma_just_enough, lemma_quotient, spec_div_ceil};
use crate::config::{Collapse, Config};
use crate::database::{is_next_power_of_two, DatabaseLayout, PayloadAddress};
use crate::encoding::centred_residue;
use crate::error::{CollapseKind, PirError};
use crate::parameters::Parameters;
use crate::payload::Payload;
use crate::query::{
    law_roots_are_distinct, one_hot_blocks, root_exponent, root_monomial, spec_hot_slot, Monomial,
};
use crate::ring::lemma_powers_divide;
use crate::server::product::blocks_dot;
use crate::store::Database;
pub use crate::messages::{InterpolationResponse, RecursionResponse, Response};

verus! {

/// What an interpolation query encrypts: the hot slot of every column block, and the root
/// of unity of the matrix.
#[derive(Debug)]
pub struct InterpolationPlan {
    pub blocks: Vec<Option<usize>>,
    pub root: Monomial,
}

/// What a recursion query encrypts: the hot slots of the column and of the batch.
#[derive(Debug)]
pub struct RecursionPlan {
    pub src0: Vec<Option<usize>>,
    pub src1: Vec<Option<usize>>,
}

/// What a query encrypts.
#[derive(Debug)]
pub enum QueryPlan {
    Interpolation(InterpolationPlan),
    Recursion(RecursionPlan),
}

/// What the client keeps of a query: where its payload lives.
#[derive(Clone, Copy, Debug, PartialEq, Eq, Structural)]
pub struct QueryState {
    pub address: PayloadAddress,
}

impl QueryState {
    /// Where the payload lives.
    pub fn address(&self) -> (r: PayloadAddress)
        ensures
            r == self.address,
    {
        self.address
    }
}

/// The client of one configuration and database layout.
#[derive(Debug)]
pub struct Client<P> {
    pub params: Parameters<P>,
    pub layout: DatabaseLayout<P>,
}

/// Hot slots of all blocks for `index`.
pub open spec fn selects(blocks: Seq<Option<usize>>, index: int, n: int, count: int) -> bool {
    blocks.len() == count && forall|b: int|
        0 <= b < count ==> #[trigger] blocks[b] == spec_hot_slot(index, n, b)
}

impl<P: Payload<[u8; 32]>> Client<P> {
    /// Valid parameters and a layout whose second dimension the ring can address.
    pub open spec fn wf(self) -> bool {
        &&& self.params.wf()
        &&& self.layout.wf()
        &&& 2 * self.params.params.n * self.layout.rows <= usize::MAX
        &&& self.params.params.collapse is Interpolation ==> self.layout.second_dimension_fits(
            self.params.params.n as int,
        )
    }

    pub open spec fn spec_height(self) -> int {
        self.params.params.spec_column_height() as int
    }

    /// Number of payloads that can be asked for.
    pub open spec fn spec_capacity(self) -> int {
        self.layout.spec_num_payloads(self.spec_height())
    }

    /// The state's address is that of payload `index`.
    pub open spec fn asks_for(self, state: QueryState, index: int) -> bool {
        let n = self.params.params.n as int;
        let a = state.address;
        &&& (a.matrix as int, a.column as int, a.row_offset as int) == self.layout.spec_address(
            index,
            n,
            self.spec_height(),
        )
        &&& a.block == a.column as int / n
        &&& a.column_in_block == a.column as int % n
    }

    /// The plan selects the state's column and matrix.
    pub open spec fn plan_selects(self, plan: QueryPlan, state: QueryState) -> bool {
        let n = self.params.params.n as int;
        let a = state.address;
        match plan {
            QueryPlan::Interpolation(p) => {
                &&& self.params.params.collapse is Interpolation
                &&& selects(
                    p.blocks@,
                    a.column as int,
                    n,
                    spec_div_ceil(self.layout.cols as int, n),
                )
                &&& p.root.degree < n
                &&& forall|t: int|
                    #[trigger] is_next_power_of_two(self.layout.spec_block_rows(n), t)
                        ==> p.root.exponent(n) == ((2 * n * a.matrix) / t) % (2 * n)
            },
            QueryPlan::Recursion(p) => {
                &&& self.params.params.collapse is Recursion
                &&& selects(
                    p.src0@,
                    a.column as int,
                    n,
                    spec_div_ceil(self.layout.cols as int, n),
                )
                &&& selects(
                    p.src1@,
                    a.matrix as int,
                    n,
                    spec_div_ceil(self.layout.spec_block_rows(self.spec_height()), n),
                )
            },
        }
    }

    /// A client for valid parameters.
    pub fn new(config: Config<P>, layout: DatabaseLayout<P>) -> (r: Self)
        requires
            config.valid(),
        ensures
            r.params.params == config,
            r.layout == layout,
    {
        Client { params: config.new(), layout }
    }

    pub fn params(&self) -> (r: &Parameters<P>)
        ensures
            *r == self.params,
    {
        &self.params
    }

    /// What to encrypt in order to ask for payload `index`, or an error when there is no
    /// such payload.
    pub fn try_query(&self, index: usize) -> (r: Result<(QueryPlan, QueryState), PirError>)
        requires
            self.wf(),
        ensures
            match r {
                Ok((plan, state)) => index < self.spec_capacity() && self.asks_for(
                    state,
                    index as int,
                ) && self.plan_selects(plan, state),
                Err(e) => index >= self.spec_capacity() && e == (PirError::PayloadOutOfBounds {
                    index,
                    capacity: self.spec_capacity() as usize,
                }),
            },
    {
        let n: usize = self.params.n();
        let height: usize = self.params.column_height();
        proof {
            P::law_shape();
        }
        let address = match self.layout.try_address(index, n, height) {
            Err(e) => {
                return Err(e);
            },
            Ok(a) => a,
        };
        let state = QueryState { address };
        Ok((self.plan(&state, index), state))
    }

    /// What to encrypt in order to select the state's column and matrix.
    fn plan(&self, state: &QueryState, index: usize) -> (r: QueryPlan)
        requires
            self.wf(),
            index < self.spec_capacity(),
            self.asks_for(*state, index as int),
        ensures
            self.plan_selects(r, *state),
    {
        let n: usize = self.params.n();
        let height: usize = self.params.column_height();
        let address = state.address;
        proof {
            P::law_shape();
            self.layout.lemma_address(index as int, n as int, height as int);
            self.layout.lemma_capacity(height as int);
        }
        let column_blocks: usize = self.layout.column_blocks(n);
        let blocks: Vec<Option<usize>> = one_hot_blocks(address.column, n, column_blocks);
        match self.params.collapse() {
            Collapse::Interpolation => {
                let t: usize = self.layout.interpolation_t(n);
                proof {
                    self.lemma_matrix_bound(address.matrix as int, n as int);
                    assert forall|u: int|
                        #[trigger] is_next_power_of_two(
                            self.layout.spec_block_rows(n as int),
                            u,
                        ) implies u == t by {
                        crate::database::lemma_next_power_unique(
                            self.layout.spec_block_rows(n as int),
                            t as int,
                            u,
                        );
                    }
                }
                let exponent: usize = root_exponent(n, address.matrix, t);
                let root = root_monomial(n, exponent);
                QueryPlan::Interpolation(InterpolationPlan { blocks, root })
            },
            Collapse::Recursion { gamma0, .. } => {
                let batches: usize = self.layout.grid_rows_for(gamma0);
                let src1: Vec<Option<usize>> = one_hot_blocks(
                    address.matrix,
                    n,
                    div_ceil(batches, n),
                );
                QueryPlan::Recursion(RecursionPlan { src0: blocks, src1 })
            },
        }
    }

    proof fn lemma_matrix_bound(self, matrix: int, n: int)
        requires
            self.wf(),
            n == self.params.params.n,
            0 <= matrix < self.layout.spec_block_rows(n),
            n >= 1,
        ensures
            2 * n * matrix <= usize::MAX,
            2 * n <= usize::MAX,
    {
        lemma_fundamental_div_mod(self.layout.rows as int, n);
        lemma_mod_pos_bound(self.layout.rows as int, n);
        let b = self.layout.spec_block_rows(n);
        let rows = self.layout.rows as int;
        assert(matrix <= rows) by (nonlinear_arith)
            requires
                rows == n * b + rows % n,
                rows % n >= 0,
                0 <= matrix < b,
                n >= 1,
        ;
        assert(2 * n * matrix <= 2 * n * rows) by (nonlinear_arith)
            requires
                0 <= matrix <= rows,
                n >= 1,
        ;
        assert(2 * n <= 2 * n * rows) by (nonlinear_arith)
            requires
                rows >= 1,
                n >= 1,
        ;
    }

    /// [`Self::try_query`] for a payload that exists.
    pub fn query(&self, index: usize) -> (r: (QueryPlan, QueryState))
        requires
            self.wf(),
            index < self.spec_capacity(),
        ensures
            self.asks_for(r.1, index as int),
            self.plan_selects(r.0, r.1),
    {
        proof {
            P::law_shape();
        }
        let n: usize = self.params.n();
        let address = self.layout.address(index, n, self.params.column_height());
        let state = QueryState { address };
        (self.plan(&state, index), state)
    }

    /// The payload's digits in a decrypted column.
    pub open spec fn spec_digits(state: QueryState, column: Seq<i64>) -> Seq<i16> {
        Seq::new(
            P::EXPONENT as nat,
            |k: int| column[state.address.row_offset + k] as i16,
        )
    }

    /// Columns that hold a decodable payload where the state says.
    pub open spec fn readable(state: QueryState, column: Seq<i64>) -> bool {
        &&& state.address.row_offset + P::EXPONENT <= column.len()
        &&& forall|k: int|
            0 <= k < P::EXPONENT ==> -32768 <= #[trigger] column[state.address.row_offset + k]
                <= 32767
        &&& P::decodable(Self::spec_digits(state, column))
    }

    /// Reads the payload from the decrypted column of a response, or rejects a response
    /// of the other construction.
    pub fn try_decode(&self, response: &Response, state: &QueryState, column: &[i64]) -> (r: Result<
        [u8; 32],
        PirError,
    >)
        requires
            response.spec_kind() == self.params.params.collapse.spec_kind() ==> Self::readable(
                *state,
                column@,
            ),
        ensures
            match r {
                Ok(block) => response.spec_kind() == self.params.params.collapse.spec_kind()
                    && P::stands_for(Self::spec_digits(*state, column@), block),
                Err(e) => response.spec_kind() != self.params.params.collapse.spec_kind() && e
                    == (PirError::WrongResponseVariant {
                    expected: self.params.params.collapse.spec_kind(),
                    found: response.spec_kind(),
                }),
            },
    {
        let expected = self.params.collapse().kind();
        let found = response.kind();
        if expected != found {
            return Err(PirError::WrongResponseVariant { expected, found });
        }
        let total: usize = column.len();
        let mut digits: Vec<i16> = Vec::new();
        while digits.len() < P::EXPONENT
            invariant
                digits@.len() <= P::EXPONENT,
                total == column@.len(),
                Self::readable(*state, column@),
                forall|k: int|
                    0 <= k < digits@.len() ==> #[trigger] digits@[k] == Self::spec_digits(
                        *state,
                        column@,
                    )[k],
            decreases P::EXPONENT - digits@.len(),
        {
            let k: usize = digits.len();
            let d: i64 = column[state.address.row_offset + k];
            digits.push(d as i16);
        }
        assert(digits@ =~= Self::spec_digits(*state, column@));
        let mut block: [u8; 32] = [0u8; 32];
        P::decode(&mut block, digits.as_slice());
        Ok(block)
    }

    /// The selectors of a query pick the payload out of the database: the product of the
    /// block-row of its digit `k` with the query's vectors is `delta` times that digit.
    pub proof fn law_query_selects_payload(
        self,
        db: Database<P>,
        state: QueryState,
        blocks: Seq<Option<usize>>,
        index: int,
        k: int,
        delta: int,
        vs: Seq<Seq<i64>>,
    )
        requires
            self.wf(),
            db.wf(),
            db.layout == self.layout,
            db.n == self.params.params.n,
            db.height == self.params.params.spec_column_height(),
            0 <= index < self.spec_capacity(),
            self.asks_for(state, index),
            selects(
                blocks,
                state.address.column as int,
                db.n as int,
                spec_div_ceil(self.layout.cols as int, db.n as int),
            ),
            0 <= k < P::EXPONENT,
            vs.len() == blocks.len(),
            forall|b: int, j: int|
                0 <= b < vs.len() && 0 <= j < db.n ==> #[trigger] vs[b][j] == (if blocks[b] == Some(
                    j as usize,
                ) {
                    delta
                } else {
                    0
                }),
        ensures
            ({
                let row = db.payload_row(index) + k;
                blocks_dot(db.block_row(row / db.n as int), row % db.n as int, vs, vs.len())
                    == db.digits_at(index)[k] * delta
            }),
    {
        let n = db.n as int;
        let row = db.payload_row(index) + k;
        let column = state.address.column as int;
        db.lemma_payload_in_grid(index);
        lemma_fundamental_div_mod(row, n);
        lemma_mod_pos_bound(row, n);
        lemma_div_pos_is_pos(row, n);
        lemma_fundamental_div_mod(column, n);
        lemma_mod_pos_bound(column, n);
        let g = row / n;
        assert(n * g == g * n) by (nonlinear_arith);
        assert forall|b: int, j: int|
            0 <= b < vs.len() && 0 <= j < db.n implies #[trigger] vs[b][j] == (if b * n + j
            == column {
            delta
        } else {
            0
        }) by {
            assert(blocks[b] == spec_hot_slot(column, n, b));
            if b * n + j == column {
                lemma_quotient(column, n, b, j);
            }
            if blocks[b] == Some(j as usize) {
                assert(n * b == b * n) by (nonlinear_arith);
            }
        }
        db.law_one_hot_selects(g, row % n, column, delta, vs);
    }

    /// A payload written to the database is read from the column that its query selects,
    /// decoded modulo the radix.
    pub proof fn law_selected_column_decodes(
        self,
        db: Database<P>,
        state: QueryState,
        index: int,
        column: Seq<i64>,
        value: [u8; 32],
        block: [u8; 32],
    )
        requires
            self.wf(),
            db.wf(),
            db.layout == self.layout,
            db.n == self.params.params.n,
            db.height == self.params.params.spec_column_height(),
            0 <= index < self.spec_capacity(),
            self.asks_for(state, index),
            db.digits_at(index) == P::digits_of(value),
            column.len() == db.height,
            forall|j: int|
                0 <= j < column.len() ==> #[trigger] column[j] == centred_residue(
                    db.cell(
                        state.address.matrix * db.height + j,
                        state.address.column as int,
                    ) as int,
                    P::BASIS as int,
                ),
            P::stands_for(Self::spec_digits(state, column), block),
        ensures
            Self::readable(state, column),
            block == value,
    {
        self.layout.lemma_address(index, db.n as int, db.height as int);
        P::law_roundtrip(value, block);
        let digits = Self::spec_digits(state, column);
        assert forall|k: int| 0 <= k < P::EXPONENT implies #[trigger] digits[k] == db.digits_at(
            index,
        )[k] && -32768 <= column[state.address.row_offset + k] <= 32767 by {
            P::law_digits_are_centred(value, k);
            assert(column[state.address.row_offset + k] == centred_residue(
                db.cell(
                    state.address.matrix * db.height + (state.address.row_offset + k),
                    state.address.column as int,
                ) as int,
                P::BASIS as int,
            ));
        }
        assert(digits =~= db.digits_at(index));
        assert forall|k: int| 0 <= k < P::EXPONENT implies -32768
            <= #[trigger] column[state.address.row_offset + k] <= 32767 by {
            assert(digits[k] == db.digits_at(index)[k]);
        }
    }
}

// ---------------------------------------------------------------------------
// What a client asks and reads
// ---------------------------------------------------------------------------

/// Blocks of `n` slots, just enough for `slots` slots, of which slot `index` is hot and no
/// other.
pub open spec fn is_one_hot(blocks: Seq<Option<usize>>, index: int, n: int, slots: int) -> bool {
    &&& just_enough(blocks.len() as int, n, slots)
    &&& forall|b: int, j: int|
        0 <= b < blocks.len() && 0 <= j < n ==> (#[trigger] hot_at(blocks, b, j) <==> b * n + j
            == index)
    &&& forall|b: int|
        0 <= b < blocks.len() ==> ((#[trigger] blocks[b]) matches Some(slot) ==> slot < n)
}

/// Slot `j` of block `b` is hot.
pub open spec fn hot_at(blocks: Seq<Option<usize>>, b: int, j: int) -> bool {
    blocks[b] matches Some(slot) && slot == j
}

/// Rows of the columns that payloads are stored in.
pub open spec fn rows_of_column<P>(config: Config<P>) -> usize {
    match config.collapse {
        Collapse::Interpolation => config.n,
        Collapse::Recursion { gamma0, .. } => gamma0,
    }
}

proof fn lemma_one_hot(blocks: Seq<Option<usize>>, index: int, n: int, slots: int)
    requires
        n >= 1,
        n <= usize::MAX,
        0 <= index,
        slots >= 0,
        selects(blocks, index, n, spec_div_ceil(slots, n)),
    ensures
        is_one_hot(blocks, index, n, slots),
{
    lemma_just_enough(blocks.len() as int, n, slots);
    lemma_fundamental_div_mod(index, n);
    lemma_mod_pos_bound(index, n);
    assert forall|b: int, j: int| 0 <= b < blocks.len() && 0 <= j < n implies (
    #[trigger] hot_at(blocks, b, j) <==> b * n + j == index) by {
        assert(blocks[b] == spec_hot_slot(index, n, b));
        if b * n + j == index {
            lemma_quotient(index, n, b, j);
        }
        if hot_at(blocks, b, j) {
            assert(n * b == b * n) by (nonlinear_arith);
        }
    }
    assert forall|b: int| 0 <= b < blocks.len() implies ((#[trigger] blocks[b]) matches Some(
        slot,
    ) ==> slot < n) by {
        assert(blocks[b] == spec_hot_slot(index, n, b));
    }
}

/// A client asks for every payload of the database, and for nothing else: the state says
/// where payload `index` lies, and the plan makes hot the slot of its column, and the slot of
/// its batch or the root of unity of its matrix.
pub proof fn law_query_asks_for_its_payload<P: Payload<[u8; 32]>>(
    client: &Client<P>,
    index: usize,
    capacity: usize,
    address: PayloadAddress,
    t: usize,
    r: Result<(QueryPlan, QueryState), PirError>,
)
    requires
        client.wf(),
        call_ensures(
            DatabaseLayout::<P>::num_payloads,
            (&client.layout, rows_of_column(client.params.params)),
            capacity,
        ),
        index < capacity ==> call_ensures(
            DatabaseLayout::<P>::address,
            (&client.layout, index, client.params.params.n, rows_of_column(client.params.params)),
            address,
        ),
        client.params.params.collapse is Interpolation ==> call_ensures(
            DatabaseLayout::<P>::interpolation_t,
            (&client.layout, client.params.params.n),
            t,
        ),
        call_ensures(Client::<P>::try_query, (client, index), r),
    ensures
        index >= capacity ==> r == Err::<(QueryPlan, QueryState), PirError>(
            PirError::PayloadOutOfBounds { index, capacity },
        ),
        index < capacity ==> (r matches Ok((plan, state)) && {
            let n = client.params.params.n as int;
            &&& state.address == address
            &&& match (plan, client.params.params.collapse) {
                (QueryPlan::Interpolation(p), Collapse::Interpolation) => {
                    &&& is_one_hot(
                        p.blocks@,
                        address.column as int,
                        n,
                        client.layout.cols as int,
                    )
                    &&& p.root.degree < n
                    &&& (p.root.degree + (if p.root.negative { n } else { 0 })) * t == 2 * n
                        * address.matrix
                },
                (QueryPlan::Recursion(p), Collapse::Recursion { gamma0, .. }) => {
                    &&& is_one_hot(p.src0@, address.column as int, n, client.layout.cols as int)
                    &&& is_one_hot(
                        p.src1@,
                        address.matrix as int,
                        n,
                        client.layout.rows as int / gamma0 as int,
                    )
                },
                _ => false,
            }
        }),
{
    P::law_shape();
    let n = client.params.params.n as int;
    let height = client.params.params.spec_column_height() as int;
    if index < capacity {
        client.layout.lemma_address(index as int, n, height);
        match r {
            Ok((plan, state)) => {
                assert(state.address == address);
                match plan {
                    QueryPlan::Interpolation(p) => {
                        lemma_one_hot(
                            p.blocks@,
                            address.column as int,
                            n,
                            client.layout.cols as int,
                        );
                        let m = address.matrix as int;
                        assert(is_next_power_of_two(client.layout.spec_block_rows(n), t as int));
                        reveal_with_fuel(is_pow2, 2);
                        assert((2 * n) / 2 == n && (2 * n) % 2 == 0);
                        lemma_powers_divide(t as int, 2 * n);
                        law_roots_are_distinct(n, t as int, m, m);
                        let s = (2 * n) / t as int;
                        lemma_fundamental_div_mod(2 * n, t as int);
                        assert((m * s) * t == 2 * n * m) by (nonlinear_arith)
                            requires
                                2 * n == t * s,
                        ;
                        lemma_small_mod((m * s) as nat, (2 * n) as nat);
                        assert(p.root.exponent(n) == m * s);
                    },
                    QueryPlan::Recursion(p) => {
                        lemma_one_hot(
                            p.src0@,
                            address.column as int,
                            n,
                            client.layout.cols as int,
                        );
                        lemma_div_pos_is_pos(client.layout.rows as int, height);
                        lemma_one_hot(
                            p.src1@,
                            address.matrix as int,
                            n,
                            client.layout.rows as int / height,
                        );
                    },
                }
            },
            Err(_) => {},
        }
    }
}

/// The two ways to ask for a payload that exists ask the same.
pub proof fn law_queries_agree<P: Payload<[u8; 32]>>(
    client: &Client<P>,
    index: usize,
    direct: (QueryPlan, QueryState),
    tried: (QueryPlan, QueryState),
)
    requires
        client.wf(),
        index < client.spec_capacity(),
        call_ensures(Client::<P>::query, (client, index), direct),
        call_ensures(
            Client::<P>::try_query,
            (client, index),
            Ok::<(QueryPlan, QueryState), PirError>(tried),
        ),
    ensures
        direct.1 == tried.1,
        match (direct.0, tried.0) {
            (QueryPlan::Interpolation(p), QueryPlan::Interpolation(q)) => p.blocks@ == q.blocks@
                && p.root == q.root,
            (QueryPlan::Recursion(p), QueryPlan::Recursion(q)) => p.src0@ == q.src0@ && p.src1@
                == q.src1@,
            _ => false,
        },
{
    P::law_shape();
    let n = client.params.params.n as int;
    let height = client.params.params.spec_column_height() as int;
    client.layout.lemma_address(index as int, n, height);
    match (direct.0, tried.0) {
        (QueryPlan::Interpolation(p), QueryPlan::Interpolation(q)) => {
            assert(p.blocks@ =~= q.blocks@);
            let t = client.layout.lemma_second_dimension(n);
            assert(p.root.exponent(n) == q.root.exponent(n));
        },
        (QueryPlan::Recursion(p), QueryPlan::Recursion(q)) => {
            assert(p.src0@ =~= q.src0@);
            assert(p.src1@ =~= q.src1@);
        },
        _ => {},
    }
}

/// A client reads the block whose digits stand in the column where its state says, from
/// every response of its construction, and rejects one of the other construction.
pub proof fn law_client_reads_block<P: Payload<[u8; 32]>>(
    client: &Client<P>,
    response: &Response,
    state: &QueryState,
    column: &[i64],
    value: [u8; 32],
    r: Result<[u8; 32], PirError>,
)
    requires
        state.address.row_offset + P::EXPONENT <= column@.len(),
        forall|k: int|
            0 <= k < P::EXPONENT ==> #[trigger] column@[state.address.row_offset + k]
                == P::digits_of(value)[k],
        call_ensures(Client::<P>::try_decode, (client, response, state, column), r),
    ensures
        (response is Interpolation <==> client.params.params.collapse is Interpolation) ==> r == Ok::<
            [u8; 32],
            PirError,
        >(value),
        response is Interpolation && client.params.params.collapse is Recursion ==> r == Err::<
            [u8; 32],
            PirError,
        >(
            PirError::WrongResponseVariant {
                expected: CollapseKind::Recursion,
                found: CollapseKind::Interpolation,
            },
        ),
        response is Recursion && client.params.params.collapse is Interpolation ==> r == Err::<
            [u8; 32],
            PirError,
        >(
            PirError::WrongResponseVariant {
                expected: CollapseKind::Interpolation,
                found: CollapseKind::Recursion,
            },
        ),
{
    let digits = Client::<P>::spec_digits(*state, column@);
    P::law_roundtrip(value, value);
    assert forall|k: int| 0 <= k < P::EXPONENT implies #[trigger] digits[k] == P::digits_of(
        value,
    )[k] by {
        assert(column@[state.address.row_offset + k] == P::digits_of(value)[k]);
    }
    assert(digits =~= P::digits_of(value));
    match r {
        Ok(block) => {
            P::law_roundtrip(value, block);
        },
        Err(_) => {},
    }
}

} // verus!
