//! The server: its database, which queries it answers, and the plans of its offline and
//! online work.

pub mod answer;
pub mod digits;
pub mod gemm;
pub mod interpolation;
pub mod offline;
pub mod outcomes;
pub mod plan;
pub mod product;
pub mod protocol;
pub mod recursion;
pub mod timings;

use std::sync::Arc;
use vstd::prelude::*;
use vstd::arithmetic::div_mod::*;
use crate::arith::{div_ceil, max, spec_div_ceil, spec_max};
use crate::config::{Collapse, Config};
use crate::database::DatabaseLayout;
use crate::error::{CollapseKind, PirError};
use crate::parameters::Parameters;
use crate::payload::Payload;
use crate::query::ServerSeed;
use crate::server::offline::{are_masks, is_mask_side};
use crate::store::Database;
pub use crate::messages::Query;
pub use crate::server::offline::{
    InterpolationPrecomputation, PrecompContext, QueryMasks, RecursionPrecomputation,
    ServerPrecomputation,
};
pub use crate::server::timings::{
    Duration, OfflinePhaseTiming, OfflineTimings, OnlinePhaseTiming, OnlineTimings,
};

verus! {

/// Selects the dense matrix kernels of the x86 GEMM library.
#[derive(Clone, Copy, Debug, PartialEq, Eq, Structural)]
pub struct PrivateGemmX86;

/// Byte counts of the server's large allocations.
#[derive(Clone, Copy, Debug, PartialEq, Eq, Structural)]
pub struct ServerMemory {
    /// The encoded database.
    pub database: usize,
    /// The precomputation that belongs to it.
    pub precomputation: usize,
    /// Scratch of the online workers.
    pub online_scratch_pool: usize,
}

impl Default for ServerMemory {
    /// Nothing is allocated.
    fn default() -> (r: Self)
        ensures
            r.database == 0,
            r.precomputation == 0,
            r.online_scratch_pool == 0,
    {
        ServerMemory { database: 0, precomputation: 0, online_scratch_pool: 0 }
    }
}

impl ServerMemory {
    pub fn total(&self) -> (r: usize)
        requires
            self.database + self.precomputation + self.online_scratch_pool <= usize::MAX,
        ensures
            r == self.database + self.precomputation + self.online_scratch_pool,
    {
        self.database + self.precomputation + self.online_scratch_pool
    }
}

/// The largest of the byte counts, so that one buffer serves every operation.
pub open spec fn spec_max_of(bytes: Seq<usize>) -> int
    decreases bytes.len(),
{
    if bytes.len() == 0 {
        0
    } else {
        spec_max(spec_max_of(bytes.drop_last()), bytes.last() as int)
    }
}

/// Scratch that is large enough for each of the operations.
pub fn scratch_bytes(bytes: &[usize]) -> (r: usize)
    ensures
        r == spec_max_of(bytes@),
        forall|i: int| 0 <= i < bytes@.len() ==> #[trigger] bytes@[i] <= r,
        bytes@.len() > 0 ==> bytes@.contains(r),
{
    let mut r: usize = 0;
    let mut i: usize = 0;
    assert(bytes@.take(0) =~= Seq::<usize>::empty());
    while i < bytes.len()
        invariant
            i <= bytes@.len(),
            r == spec_max_of(bytes@.take(i as int)),
            forall|j: int| 0 <= j < i ==> #[trigger] bytes@[j] <= r,
            i > 0 ==> exists|j: int| 0 <= j < i && #[trigger] bytes@[j] == r,
            i == 0 ==> r == 0,
        decreases bytes@.len() - i,
    {
        assert(bytes@.take(i + 1).drop_last() =~= bytes@.take(i as int));
        let ghost before = r;
        r = max(r, bytes[i]);
        proof {
            if i > 0 && r == before {
                let j = choose|j: int| 0 <= j < i && #[trigger] bytes@[j] == before;
                assert(bytes@[j] == r);
            } else {
                assert(bytes@[i as int] == r);
            }
        }
        i = i + 1;
    }
    assert(bytes@.take(bytes@.len() as int) =~= bytes@);
    r
}

/// How a batch of queries is answered.
#[derive(Clone, Copy, Debug, PartialEq, Eq, Structural)]
pub enum BatchMode {
    /// There is nothing to answer.
    Empty,
    /// All queries in one pass over the interpolated database.
    Interpolation,
    /// All queries in passes over the plaintext database.
    Recursion,
    /// One query after the other.
    OneByOne,
}

/// All queries belong to the construction.
pub open spec fn all_of_kind(queries: Seq<Query>, kind: CollapseKind) -> bool {
    forall|i: int| 0 <= i < queries.len() ==> (#[trigger] queries[i]).spec_kind() == kind
}

/// Chooses how to answer a batch of queries.
pub fn batch_mode(queries: &[Query]) -> (r: BatchMode)
    ensures
        r == (if queries@.len() == 0 {
            BatchMode::Empty
        } else if all_of_kind(queries@, CollapseKind::Interpolation) {
            BatchMode::Interpolation
        } else if all_of_kind(queries@, CollapseKind::Recursion) {
            BatchMode::Recursion
        } else {
            BatchMode::OneByOne
        }),
{
    if queries.len() == 0 {
        return BatchMode::Empty;
    }
    let first = queries[0].kind();
    let mut i: usize = 0;
    while i < queries.len()
        invariant
            i <= queries@.len(),
            queries@.len() > 0,
            first == queries@[0].spec_kind(),
            forall|j: int| 0 <= j < i ==> (#[trigger] queries@[j]).spec_kind() == first,
        decreases queries@.len() - i,
    {
        if queries[i].kind() != first {
            proof {
                assert(queries@[i as int].spec_kind() != queries@[0].spec_kind());
            }
            return BatchMode::OneByOne;
        }
        i = i + 1;
    }
    match first {
        CollapseKind::Interpolation => BatchMode::Interpolation,
        CollapseKind::Recursion => {
            proof {
                assert(queries@[0].spec_kind() != CollapseKind::Interpolation);
            }
            BatchMode::Recursion
        },
    }
}

/// Dimensions of the recursion construction's offline work.
#[derive(Clone, Copy, Debug, PartialEq, Eq, Structural)]
pub struct RecursionOfflineShape {
    pub n: usize,
    pub size: usize,
    pub t: usize,
    pub gamma0: usize,
    pub gamma1: usize,
    pub base2k: usize,
    pub baby_size: usize,
    pub tau: usize,
}

/// The server of one configuration and database layout.
#[derive(Debug)]
pub struct Server<P> {
    pub params: Parameters<P>,
    pub layout: DatabaseLayout<P>,
    /// The public seed of the query masks.
    pub server_seed: ServerSeed,
    pub database: Database<P>,
    /// The fixed query masks, once they are set up.
    pub masks: Option<Arc<QueryMasks>>,
    /// The mask side of the database, once it is computed.
    pub precomputation: Option<ServerPrecomputation<P>>,
}

impl<P: Payload<[u8; 32]>> Server<P> {
    /// Layouts that the configured construction can serve: whole blocks in both
    /// dimensions for interpolation, and at most `2n` of them in the second; whole
    /// batches for recursion.
    pub open spec fn serves(config: Config<P>, layout: DatabaseLayout<P>) -> bool {
        &&& config.valid()
        &&& layout.wf()
        &&& config.n * config.n <= usize::MAX
        &&& spec_div_ceil(layout.rows as int, config.n as int) * spec_div_ceil(
            layout.cols as int,
            config.n as int,
        ) <= usize::MAX
        &&& match config.collapse {
            Collapse::Interpolation => {
                &&& layout.rows as int % config.n as int == 0
                &&& layout.cols as int % config.n as int == 0
                &&& layout.second_dimension_fits(config.n as int)
            },
            Collapse::Recursion { gamma0, .. } => {
                &&& layout.rows as int % gamma0 as int == 0
                &&& layout.spec_block_rows(gamma0 as int) >= 1
            },
        }
    }

    /// Shapes of parameters, layout and database agree.
    pub open spec fn wf(self) -> bool {
        &&& Self::serves(self.params.params, self.layout)
        &&& self.holds(self.database)
        &&& self.masks matches Some(masks) ==> self.fits_masks(*masks)
    }

    /// Masks for every column block, and for recursion for every block of batches.
    pub open spec fn fits_masks(self, masks: QueryMasks) -> bool {
        let n = self.params.params.n as int;
        &&& are_masks(masks.first@, spec_div_ceil(self.layout.cols as int, n), n)
        &&& are_masks(
            masks.second@,
            match self.params.params.collapse {
                Collapse::Interpolation => 0,
                Collapse::Recursion { gamma0, .. } => spec_div_ceil(
                    self.layout.spec_block_rows(gamma0 as int),
                    n,
                ),
            },
            n,
        )
    }

    /// The precomputation is the mask side of the database that is served.
    pub open spec fn current(self) -> bool {
        match (self.masks, self.precomputation) {
            (Some(masks), Some(pre)) => is_mask_side(
                self.params,
                masks.first@,
                self.database,
                pre,
            ),
            _ => false,
        }
    }

    /// A database of this server's shape.
    pub open spec fn holds(self, db: Database<P>) -> bool {
        &&& db.wf()
        &&& db.layout == self.layout
        &&& db.n == self.params.params.n
        &&& db.height == self.params.params.spec_column_height()
    }

    /// Whether the configured construction can serve the layout.
    pub fn supports(config: &Config<P>, layout: &DatabaseLayout<P>) -> (r: bool)
        requires
            2 * config.n <= usize::MAX,
        ensures
            r == Self::serves(*config, *layout),
    {
        if config.try_new().is_err() || layout.rows == 0 || layout.cols == 0 {
            return false;
        }
        proof {
            P::law_shape();
            lemma_div_pos_is_pos(layout.rows as int, config.spec_column_height() as int);
        }
        if layout.rows.checked_mul(layout.cols).is_none() || config.n.checked_mul(
            config.n,
        ).is_none() {
            return false;
        }
        let block_rows: usize = div_ceil(layout.rows, config.n);
        if block_rows.checked_mul(div_ceil(layout.cols, config.n)).is_none() {
            return false;
        }
        match config.collapse {
            Collapse::Interpolation => layout.rows % config.n == 0 && layout.cols % config.n == 0
                && layout.try_interpolation_t(config.n).is_some(),
            Collapse::Recursion { gamma0, .. } => layout.rows % gamma0 == 0 && layout.grid_rows_for(
                gamma0,
            ) >= 1,
        }
    }

    /// A server with an empty database.
    pub fn new(config: Config<P>, layout: DatabaseLayout<P>) -> (r: Self)
        requires
            Self::serves(config, layout),
        ensures
            r.wf(),
            r.params.params == config,
            r.layout == layout,
            forall|i: int| 0 <= i < 32 ==> #[trigger] r.server_seed.root@[i] == 0,
            r.masks is None,
            r.precomputation is None,
            forall|row: int, col: int|
                r.database.has_cell(row, col) ==> #[trigger] r.database.cell(row, col) == 0,
    {
        Self::from_params(config.new(), layout)
    }

    /// A server with an empty database, from instantiated parameters.
    pub fn from_params(params: Parameters<P>, layout: DatabaseLayout<P>) -> (r: Self)
        requires
            Self::serves(params.params, layout),
        ensures
            r.wf(),
            r.params == params,
            r.layout == layout,
            forall|i: int| 0 <= i < 32 ==> #[trigger] r.server_seed.root@[i] == 0,
            r.masks is None,
            r.precomputation is None,
            forall|row: int, col: int|
                r.database.has_cell(row, col) ==> #[trigger] r.database.cell(row, col) == 0,
    {
        proof {
            P::law_shape();
        }
        let database = Database::instantiate(layout, params.n(), params.column_height());
        let server_seed = ServerSeed::default();
        Server { params, layout, server_seed, database, masks: None, precomputation: None }
    }

    /// [`Self::new`], for callers that name the interpolation construction. Which one the
    /// server hosts, the configuration says.
    pub fn interpolation(config: Config<P>, layout: DatabaseLayout<P>) -> (r: Self)
        requires
            Self::serves(config, layout),
        ensures
            r.wf(),
            r.params.params == config,
            r.layout == layout,
            forall|i: int| 0 <= i < 32 ==> #[trigger] r.server_seed.root@[i] == 0,
            r.masks is None,
            r.precomputation is None,
            forall|row: int, col: int|
                r.database.has_cell(row, col) ==> #[trigger] r.database.cell(row, col) == 0,
    {
        Self::new(config, layout)
    }

    /// [`Self::new`], for callers that name the recursion construction.
    pub fn recursion(config: Config<P>, layout: DatabaseLayout<P>) -> (r: Self)
        requires
            Self::serves(config, layout),
        ensures
            r.wf(),
            r.params.params == config,
            r.layout == layout,
            forall|i: int| 0 <= i < 32 ==> #[trigger] r.server_seed.root@[i] == 0,
            r.masks is None,
            r.precomputation is None,
            forall|row: int, col: int|
                r.database.has_cell(row, col) ==> #[trigger] r.database.cell(row, col) == 0,
    {
        Self::new(config, layout)
    }

    pub fn params(&self) -> (r: &Parameters<P>)
        ensures
            *r == self.params,
    {
        &self.params
    }

    pub fn layout(&self) -> (r: DatabaseLayout<P>)
        ensures
            r == self.layout,
    {
        self.layout
    }

    /// The public seed, from which a client expands the same masks.
    pub fn server_seed(&self) -> (r: ServerSeed)
        ensures
            r == self.server_seed,
    {
        self.server_seed
    }

    /// The server with another public seed. Masks that are set up stay as they are.
    pub fn with_server_seed(self, server_seed: ServerSeed) -> (r: Self)
        ensures
            r.server_seed == server_seed,
            r.params == self.params,
            r.layout == self.layout,
            r.database == self.database,
            r.masks == self.masks,
            r.precomputation == self.precomputation,
    {
        Server { server_seed, ..self }
    }

    /// The database, to be written to. Whoever writes keeps its shape; the mask side is
    /// that of the database before, until [`Self::offline`] runs again.
    pub fn database_mut(&mut self) -> (r: &mut Database<P>)
        ensures
            *r == old(self).database,
            final(self).database == *final(r),
            final(self).params == old(self).params,
            final(self).layout == old(self).layout,
            final(self).server_seed == old(self).server_seed,
            final(self).masks == old(self).masks,
            final(self).precomputation == old(self).precomputation,
    {
        &mut self.database
    }

    /// Overwrites one payload. The mask side is that of the database before, until
    /// [`Self::offline`] runs again.
    pub fn update(&mut self, index: usize, value: [u8; 32])
        requires
            old(self).wf(),
            index < old(self).database.spec_capacity(),
        ensures
            final(self).wf(),
            final(self).params == old(self).params,
            final(self).layout == old(self).layout,
            final(self).server_seed == old(self).server_seed,
            final(self).masks == old(self).masks,
            final(self).precomputation == old(self).precomputation,
            final(self).database.digits_at(index as int) == P::digits_of(value),
            final(self).database.keeps_others(old(self).database, index as int, 1),
            forall|r: int, c: int|
                old(self).database.has_cell(r, c) && !old(self).database.owns(index as int, r, c)
                    ==> #[trigger] final(self).database.cell(r, c) == old(self).database.cell(r, c),
    {
        let values = [value];
        let ghost before = *self;
        self.update_shard(index, values.as_slice());
        proof {
            assert(values@[0] == value);
            assert(self.database.digits_at(index + 0) == P::digits_of(values@[0]));
            assert forall|r: int, c: int|
                before.database.has_cell(r, c) && !before.database.owns(
                    index as int,
                    r,
                    c,
                ) implies #[trigger] self.database.cell(r, c) == before.database.cell(r, c) by {
                assert forall|i: int| 0 <= i < values@.len() implies !#[trigger] before.database.owns(
                    index + i,
                    r,
                    c,
                ) by {}
            }
        }
    }

    pub fn database(&self) -> (r: &Database<P>)
        ensures
            *r == self.database,
    {
        &self.database
    }

    /// An empty database of this server's shape, to be filled while the server answers.
    pub fn new_database(&self) -> (r: Database<P>)
        requires
            self.wf(),
        ensures
            self.holds(r),
            forall|row: int, col: int| r.has_cell(row, col) ==> #[trigger] r.cell(row, col) == 0,
    {
        proof {
            P::law_shape();
        }
        Database::instantiate(self.layout, self.params.n(), self.params.column_height())
    }

    /// Serves `database` with its mask side from now on, and hands back the database
    /// served so far. The two belong together: with the mask side of another database,
    /// answers are wrong.
    pub fn install(&mut self, database: &mut Database<P>, precomputation: ServerPrecomputation<P>)
        requires
            old(self).wf(),
            old(self).holds(*old(database)),
        ensures
            final(self).wf(),
            final(self).params == old(self).params,
            final(self).layout == old(self).layout,
            final(self).server_seed == old(self).server_seed,
            final(self).masks == old(self).masks,
            final(self).database == *old(database),
            final(self).precomputation == Some(precomputation),
            *final(database) == old(self).database,
    {
        self.precomputation = Some(precomputation);
        core::mem::swap(&mut self.database, database);
    }

    /// Writes raw records to the database. The mask side is that of the database before,
    /// until [`Self::offline`] runs again.
    pub fn encode(&mut self, records: &[Vec<i64>])
        requires
            old(self).wf(),
            records@.len() <= old(self).layout.spec_block_rows(old(self).database.height as int)
                * old(self).layout.cols,
            forall|i: int|
                0 <= i < records@.len() ==> (#[trigger] records@[i])@.len()
                    == old(self).database.height,
        ensures
            final(self).wf(),
            final(self).params == old(self).params,
            final(self).layout == old(self).layout,
            final(self).server_seed == old(self).server_seed,
            final(self).masks == old(self).masks,
            final(self).precomputation == old(self).precomputation,
            forall|i: int, j: int|
                0 <= i < records@.len() && 0 <= j < old(self).database.height
                    ==> final(self).database.cell(
                    (i / old(self).layout.cols as int) * old(self).database.height + j,
                    i % old(self).layout.cols as int,
                ) == crate::encoding::centred_residue(
                    #[trigger] records@[i]@[j] as int,
                    P::BASIS as int,
                ),
            forall|r: int, c: int|
                old(self).database.has_cell(r, c) && (r / old(self).database.height as int)
                    * old(self).layout.cols + c >= records@.len()
                    ==> #[trigger] final(self).database.cell(r, c) == old(self).database.cell(r, c),
    {
        self.database.encode(records);
    }

    /// Writes payloads from index `start` on, or rejects a write past the capacity. The
    /// mask side is that of the database before, until [`Self::offline`] runs again.
    pub fn try_update_shard(&mut self, start: usize, values: &[[u8; 32]]) -> (r: Result<
        (),
        PirError,
    >)
        requires
            old(self).wf(),
        ensures
            final(self).wf(),
            final(self).params == old(self).params,
            final(self).layout == old(self).layout,
            final(self).server_seed == old(self).server_seed,
            final(self).masks == old(self).masks,
            final(self).precomputation == old(self).precomputation,
            match r {
                Ok(_) => {
                    &&& start + values@.len() <= old(self).database.spec_capacity()
                    &&& forall|i: int|
                        0 <= i < values@.len() ==> #[trigger] final(self).database.digits_at(
                            start + i,
                        ) == P::digits_of(values@[i])
                    &&& final(self).database.stores(start as int, values@)
                    &&& final(self).database.keeps_others(
                        old(self).database,
                        start as int,
                        values@.len() as int,
                    )
                    &&& forall|r: int, c: int|
                        old(self).database.has_cell(r, c) && (forall|i: int|
                            0 <= i < values@.len() ==> !#[trigger] old(self).database.owns(
                                start + i,
                                r,
                                c,
                            )) ==> #[trigger] final(self).database.cell(r, c)
                            == old(self).database.cell(r, c)
                },
                Err(e) => {
                    &&& start + values@.len() > old(self).database.spec_capacity()
                    &&& final(self).database == old(self).database
                    &&& e == (PirError::ShardOutOfBounds {
                        start,
                        len: values@.len() as usize,
                        capacity: old(self).database.spec_capacity() as usize,
                    })
                },
            },
    {
        self.database.try_update_shard(start, values)
    }

    /// Writes payloads from index `start` on.
    pub fn update_shard(&mut self, start: usize, values: &[[u8; 32]])
        requires
            old(self).wf(),
            start + values@.len() <= old(self).database.spec_capacity(),
        ensures
            final(self).wf(),
            final(self).params == old(self).params,
            final(self).layout == old(self).layout,
            final(self).server_seed == old(self).server_seed,
            final(self).masks == old(self).masks,
            final(self).precomputation == old(self).precomputation,
            final(self).database.stores(start as int, values@),
            final(self).database.keeps_others(
                old(self).database,
                start as int,
                values@.len() as int,
            ),
            forall|r: int, c: int|
                old(self).database.has_cell(r, c) && (forall|i: int|
                    0 <= i < values@.len() ==> !#[trigger] old(self).database.owns(start + i, r, c))
                    ==> #[trigger] final(self).database.cell(r, c) == old(self).database.cell(r, c),
    {
        self.database.encode_shard(start, values);
    }

    /// Payload `index` of the database.
    pub fn get(&self, index: usize) -> (r: [u8; 32])
        requires
            self.wf(),
            index < self.database.spec_capacity(),
            P::decodable(self.database.digits_at(index as int)),
        ensures
            P::stands_for(self.database.digits_at(index as int), r),
    {
        self.database.payload(index)
    }

    /// The construction that answers the query, or an error for a query of the other one.
    pub fn try_respond(&self, query: &Query) -> (r: Result<CollapseKind, PirError>)
        ensures
            match r {
                Ok(kind) => kind == self.params.params.collapse.spec_kind() && query.spec_kind()
                    == kind,
                Err(e) => query.spec_kind() != self.params.params.collapse.spec_kind() && e
                    == (PirError::WrongQueryVariant {
                    expected: self.params.params.collapse.spec_kind(),
                    found: query.spec_kind(),
                }),
            },
    {
        let expected = self.params.collapse().kind();
        let found = query.kind();
        if expected == found {
            Ok(expected)
        } else {
            Err(PirError::WrongQueryVariant { expected, found })
        }
    }

    /// Panels of the interpolated database: one per coefficient of the polynomial.
    pub fn interpolation_panels(&self) -> (r: usize)
        requires
            self.wf(),
            self.params.params.collapse is Interpolation,
        ensures
            crate::database::is_next_power_of_two(
                self.layout.spec_block_rows(self.params.params.n as int),
                r as int,
            ),
            r <= 2 * self.params.params.n,
    {
        self.layout.interpolation_t(self.params.n())
    }

    /// Dimensions of the offline work of the recursion construction, if it is configured.
    pub fn recursion_offline_shape(&self) -> (r: Option<RecursionOfflineShape>)
        requires
            self.wf(),
        ensures
            match self.params.params.collapse {
                Collapse::Interpolation => r is None,
                Collapse::Recursion { gamma0, gamma1, .. } => r == Some(
                    RecursionOfflineShape {
                        n: self.params.params.n,
                        size: spec_div_ceil(
                            self.params.params.k as int,
                            self.params.params.base2k as int,
                        ) as usize,
                        t: self.layout.spec_block_rows(gamma0 as int) as usize,
                        gamma0,
                        gamma1,
                        base2k: self.params.params.base2k,
                        baby_size: 8,
                        tau: 2,
                    },
                ),
            },
    {
        match self.params.collapse() {
            Collapse::Interpolation => None,
            Collapse::Recursion { gamma0, gamma1, .. } => Some(
                RecursionOfflineShape {
                    n: self.params.n(),
                    size: self.params.size_at(self.params.base2k()),
                    t: self.database.t(),
                    gamma0,
                    gamma1,
                    base2k: self.params.base2k(),
                    baby_size: self.params.baby_size(),
                    tau: self.params.tau(),
                },
            ),
        }
    }
}

} // verus!
