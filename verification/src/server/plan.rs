//! Plans of the server's passes: which work there is, who does it, and with how many
//! workers inside each unit.

use vstd::prelude::*;
use vstd::arithmetic::div_mod::*;
use crate::arith::{
    clamp, just_enough, lemma_div_ceil, lemma_just_enough, lemma_quotient, max, min, spec_clamp,
    spec_div_ceil, spec_max, spec_min,
};
use crate::database::{is_next_power_of_two, lemma_next_power_unique};
use crate::parallel::{
    assign_panels, flatten, groups_view, law_panels_cover_blocks, num_threads, panel_groups,
    sequential, BlockWork,
};
use crate::payload::Payload;
use crate::server::recursion::{
    body_chunk, digit_batches, inner_threads, resp2_schedule, spec_outer_cap, spec_requested,
};
use crate::server::timings::Duration;
use crate::server::Server;
use crate::store::Database;

verus! {

/// Worker threads: as many as were asked for, else as many as the machine has.
#[derive(Clone, Copy, Debug, PartialEq, Eq, Structural)]
pub struct Threads {
    pub requested: Option<usize>,
    pub detected: usize,
}

impl Threads {
    /// Workers for `cap` units of work.
    pub open spec fn spec_count(self, cap: int) -> int {
        if cap <= 1 {
            1
        } else {
            spec_clamp(
                match self.requested {
                    Some(t) => if t >= 1 {
                        t as int
                    } else {
                        self.detected as int
                    },
                    None => self.detected as int,
                },
                1,
                cap,
            )
        }
    }

    pub fn count(&self, cap: usize) -> (r: usize)
        ensures
            r == self.spec_count(cap as int),
            1 <= r,
            cap >= 1 ==> r <= cap,
    {
        num_threads(cap, self.requested, self.detected)
    }
}

/// Passes over independent units, one group of units per worker.
#[derive(Debug)]
pub struct UnitPlan {
    /// Number of units.
    pub units: usize,
    /// Workers that each unit may use inside.
    pub inner: usize,
    /// Units of each worker.
    pub work: Vec<Vec<BlockWork>>,
}

impl UnitPlan {
    /// Units spread over `outer` workers, in order, with the given blocks per unit.
    pub open spec fn spreads(self, units: int, blocks: usize, outer: int) -> bool {
        self.units == units && groups_view(self.work@) == panel_groups(units, blocks, outer)
    }
}

/// Scratch arenas that are missing for the given number of workers.
pub fn missing_arenas(pool: usize, workers: usize) -> (r: usize)
    ensures
        r == spec_max(workers - pool, 0),
{
    if workers > pool {
        workers - pool
    } else {
        0
    }
}

impl<P: Payload<[u8; 32]>> Server<P> {
    /// Online pass of the interpolation construction: one unit per panel.
    pub fn interpolation_online_plan(&self, threads: &Threads) -> (r: UnitPlan)
        requires
            self.wf(),
            self.params.params.collapse is Interpolation,
        ensures
            is_next_power_of_two(
                self.layout.spec_block_rows(self.params.params.n as int),
                r.units as int,
            ),
            r.spreads(
                r.units as int,
                (self.layout.cols as int / self.params.params.n as int) as usize,
                threads.spec_count(r.units as int),
            ),
            r.inner == 1,
    {
        let panels: usize = self.interpolation_panels();
        let blocks: usize = self.layout.block_cols(self.params.n());
        let outer: usize = threads.count(panels);
        UnitPlan { units: panels, inner: 1, work: assign_panels(panels, blocks, outer) }
    }

    /// Offline pass of the interpolation construction: one unit per panel, and the
    /// workers that panels leave idle help inside them.
    pub fn interpolation_offline_plan(&self, threads: &Threads) -> (r: UnitPlan)
        requires
            self.wf(),
            self.params.params.collapse is Interpolation,
        ensures
            is_next_power_of_two(
                self.layout.spec_block_rows(self.params.params.n as int),
                r.units as int,
            ),
            r.spreads(
                r.units as int,
                (self.layout.cols as int / self.params.params.n as int) as usize,
                threads.spec_count(r.units as int),
            ),
            r.inner == spec_max(
                threads.spec_count(usize::MAX as int) / threads.spec_count(r.units as int),
                1,
            ),
    {
        let panels: usize = self.interpolation_panels();
        let blocks: usize = self.layout.block_cols(self.params.n());
        let outer: usize = threads.count(panels);
        let inner: usize = inner_threads(threads.count(usize::MAX), outer);
        UnitPlan { units: panels, inner, work: assign_panels(panels, blocks, outer) }
    }

    /// First-level pass of the recursion construction: one unit per block-row of the
    /// database.
    pub fn recursion_l1_plan(&self, threads: &Threads) -> (r: UnitPlan)
        requires
            self.wf(),
        ensures
            r.spreads(
                self.database.spec_physical_rows(),
                1,
                threads.spec_count(self.database.spec_physical_rows()),
            ),
            r.inner == spec_max(
                threads.spec_count(usize::MAX as int) / threads.spec_count(
                    self.database.spec_physical_rows(),
                ),
                1,
            ),
    {
        let groups: usize = self.database.physical_rows();
        let outer: usize = threads.count(groups);
        let inner: usize = inner_threads(threads.count(usize::MAX), outer);
        UnitPlan { units: groups, inner, work: assign_panels(groups, 1, outer) }
    }

    /// Passes over the database that answer `queries` recursion queries: runs
    /// `(first query, count)`.
    pub fn recursion_passes(&self, queries: usize) -> (r: Vec<(usize, usize)>)
        requires
            self.wf(),
            queries >= 1,
        ensures
            ({
                let chunk = body_chunk_of(
                    queries as int,
                    self.layout.spec_block_rows(self.database.height as int),
                    self.params.params.n as int,
                    spec_div_ceil(self.params.params.k as int, self.params.params.base2k as int),
                );
                are_chunks(r@, queries as int, chunk)
            }),
    {
        let n: usize = self.params.n();
        let size: usize = self.params.size_at(self.params.base2k());
        let chunk: usize = body_chunk(queries, self.database.t(), n, size);
        chunk_runs(queries, chunk)
    }
}

/// Queries per pass over the database.
pub open spec fn body_chunk_of(queries: int, t: int, n: int, size: int) -> int {
    spec_clamp(
        2147483648int / spec_max(
            crate::server::recursion::spec_saturating(
                t,
                crate::server::recursion::spec_saturating(
                    crate::server::recursion::spec_saturating(n, size),
                    8,
                ),
            ),
            1,
        ),
        1,
        queries,
    )
}

/// Runs of `chunk` items that cover `total` items in order; the last one may be shorter.
pub open spec fn are_chunks(runs: Seq<(usize, usize)>, total: int, chunk: int) -> bool {
    &&& runs.len() == spec_div_ceil(total, chunk)
    &&& forall|i: int|
        0 <= i < runs.len() ==> (#[trigger] runs[i]).0 == i * chunk && runs[i].1 == spec_min(
            chunk,
            total - i * chunk,
        )
}

/// Cuts `total` items into runs of `chunk`.
pub fn chunk_runs(total: usize, chunk: usize) -> (r: Vec<(usize, usize)>)
    requires
        chunk >= 1,
    ensures
        are_chunks(r@, total as int, chunk as int),
{
    let mut out: Vec<(usize, usize)> = Vec::new();
    let mut start: usize = 0;
    proof {
        lemma_div_ceil(total as int, chunk as int);
        assert(0 * chunk == 0) by (nonlinear_arith);
    }
    let ghost per = spec_div_ceil(total as int, chunk as int);
    while start < total
        invariant
            chunk >= 1,
            start <= total,
            per == spec_div_ceil(total as int, chunk as int),
            per * chunk >= total,
            total > 0 ==> (per - 1) * chunk < total,
            total == 0 ==> per == 0,
            out@.len() <= per,
            start == spec_min(out@.len() * chunk, total as int),
            start < total ==> start == out@.len() * chunk,
            out@.len() < per ==> out@.len() * chunk < total,
            forall|i: int|
                0 <= i < out@.len() ==> (#[trigger] out@[i]).0 == i * chunk && out@[i].1 == spec_min(
                    chunk as int,
                    total - i * chunk,
                ),
        decreases total - start,
    {
        let len: usize = min(chunk, total - start);
        proof {
            let i = out@.len() as int;
            assert(i < per) by (nonlinear_arith)
                requires
                    i * chunk < total,
                    per * chunk >= total,
                    chunk >= 1,
            ;
            assert((i + 1) * chunk == i * chunk + chunk) by (nonlinear_arith);
            if i + 1 < per {
                assert((i + 1) * chunk <= (per - 1) * chunk) by (nonlinear_arith)
                    requires
                        i + 1 <= per - 1,
                        chunk >= 1,
                ;
            }
        }
        out.push((start, len));
        start = start + len;
    }
    proof {
        if out@.len() < per {
            assert(false);
        }
    }
    out
}

/// Every item lies in the run of its quotient, and in no other.
pub proof fn law_chunks_cover_once(runs: Seq<(usize, usize)>, total: int, chunk: int, item: int)
    requires
        chunk >= 1,
        are_chunks(runs, total, chunk),
        0 <= item < total,
    ensures
        0 <= item / chunk < runs.len(),
        forall|i: int|
            0 <= i < runs.len() ==> ((#[trigger] runs[i]).0 <= item < runs[i].0 + runs[i].1 <==> i
                == item / chunk),
{
    lemma_fundamental_div_mod(item, chunk);
    lemma_mod_pos_bound(item, chunk);
    lemma_div_pos_is_pos(item, chunk);
    crate::store::lemma_block_bound(item, total, chunk);
    let w = item / chunk;
    assert(chunk * w == w * chunk) by (nonlinear_arith);
    assert forall|i: int| 0 <= i < runs.len() implies ((#[trigger] runs[i]).0 <= item < runs[i].0
        + runs[i].1 <==> i == w) by {
        if runs[i].0 <= item < runs[i].0 + runs[i].1 {
            lemma_quotient(item, chunk, i, item - i * chunk);
        }
    }
}

/// How the offline pass of a digit database is scheduled: batches at a time, and workers
/// per batch.
pub open spec fn spec_offline_schedule(nbatches: int, available: int, max_threads: int) -> (
    int,
    int,
) {
    let budget = spec_max(max_threads, 1);
    let outer = spec_min(spec_clamp(available, 1, spec_max(nbatches, 1)), budget);
    (outer, spec_max(budget / outer, 1))
}

/// Scratch that the online second level may use.
#[derive(Clone, Copy, Debug, PartialEq, Eq, Structural)]
pub struct PoolInfo {
    /// Arenas in the pool.
    pub len: usize,
    /// Whether batches take their scratch from the pool.
    pub pooled: bool,
    /// Requested batches at a time.
    pub outer_request: Option<usize>,
    /// Requested workers per batch.
    pub inner_request: Option<usize>,
}

/// Plans the mask side of a digit database of `total` rows packed `gamma` at a time.
/// Without a pool the pass is offline, with one it is online.
pub fn pack_mask_plan(
    total: usize,
    gamma: usize,
    max_threads: usize,
    available: usize,
    pool: Option<PoolInfo>,
) -> (r: UnitPlan)
    requires
        gamma >= 1,
        total >= 1,
        pool matches Some(p) ==> (p.pooled ==> p.len >= 1),
    ensures
        ({
            let nbatches = spec_div_ceil(total as int, gamma as int);
            let outer = match pool {
                None => spec_offline_schedule(nbatches, available as int, max_threads as int).0,
                Some(p) => spec_requested(
                    p.outer_request,
                    spec_outer_cap(nbatches, max_threads as int, p.len as int, p.pooled),
                ),
            };
            &&& r.spreads(nbatches, 1, outer)
            &&& r.inner == match pool {
                None => spec_offline_schedule(nbatches, available as int, max_threads as int).1,
                Some(p) => spec_requested(
                    p.inner_request,
                    spec_max(spec_max(max_threads as int, 1) / outer, 1),
                ),
            }
            &&& 1 <= outer
            &&& outer * r.inner <= spec_max(max_threads as int, 1)
        }),
{
    proof {
        lemma_div_ceil(total as int, gamma as int);
    }
    let nbatches: usize = digit_batches(total, gamma);
    let budget: usize = max(max_threads, 1);
    let (outer, inner): (usize, usize) = match pool {
        None => {
            let outer: usize = min(clamp(available, 1, nbatches), budget);
            (outer, inner_threads(budget, outer))
        },
        Some(p) => resp2_schedule(
            nbatches,
            max_threads,
            p.len,
            p.pooled,
            p.outer_request,
            p.inner_request,
        ),
    };
    UnitPlan { units: nbatches, inner, work: assign_panels(nbatches, 1, outer) }
}

/// The longest of the durations.
pub open spec fn spec_longest(durations: Seq<Duration>) -> int
    decreases durations.len(),
{
    if durations.len() == 0 {
        0
    } else {
        spec_max(spec_longest(durations.drop_last()), durations.last().nanos as int)
    }
}

/// Time of a phase whose units ran at the same time: the longest of them.
pub fn longest(durations: &[Duration]) -> (r: Duration)
    ensures
        r.nanos == spec_longest(durations@),
{
    let mut r: u128 = 0;
    let mut i: usize = 0;
    assert(durations@.take(0) =~= Seq::<Duration>::empty());
    while i < durations.len()
        invariant
            i <= durations@.len(),
            r == spec_longest(durations@.take(i as int)),
        decreases durations@.len() - i,
    {
        assert(durations@.take(i + 1).drop_last() =~= durations@.take(i as int));
        if durations[i].nanos > r {
            r = durations[i].nanos;
        }
        i = i + 1;
    }
    assert(durations@.take(durations@.len() as int) =~= durations@);
    Duration { nanos: r }
}

/// All durations together.
pub open spec fn spec_together(durations: Seq<Duration>) -> int
    decreases durations.len(),
{
    if durations.len() == 0 {
        0
    } else {
        spec_together(durations.drop_last()) + durations.last().nanos
    }
}

proof fn lemma_together_prefix(durations: Seq<Duration>, i: int)
    requires
        0 <= i <= durations.len(),
    ensures
        0 <= spec_together(durations.take(i)) <= spec_together(durations),
    decreases durations.len(),
{
    if i == durations.len() {
        assert(durations.take(i) =~= durations);
        if i > 0 {
            lemma_together_prefix(durations.drop_last(), i - 1);
        }
    } else {
        lemma_together_prefix(durations.drop_last(), i);
        assert(durations.drop_last().take(i) =~= durations.take(i));
    }
}

/// Work of a phase: the time of all its units.
pub fn together(durations: &[Duration]) -> (r: Duration)
    requires
        spec_together(durations@) <= u128::MAX,
    ensures
        r.nanos == spec_together(durations@),
{
    let mut r: u128 = 0;
    let mut i: usize = 0;
    assert(durations@.take(0) =~= Seq::<Duration>::empty());
    while i < durations.len()
        invariant
            i <= durations@.len(),
            r == spec_together(durations@.take(i as int)),
            spec_together(durations@) <= u128::MAX,
        decreases durations@.len() - i,
    {
        proof {
            lemma_together_prefix(durations@, i + 1);
            assert(durations@.take(i + 1).drop_last() =~= durations@.take(i as int));
        }
        r = r + durations[i].nanos;
        i = i + 1;
    }
    assert(durations@.take(durations@.len() as int) =~= durations@);
    Duration { nanos: r }
}

// ---------------------------------------------------------------------------
// What the plans keep
// ---------------------------------------------------------------------------

/// The passes over a database answer every query once, in order, and no pass is empty.
pub proof fn law_passes_answer_every_query_once<P: Payload<[u8; 32]>>(
    server: &Server<P>,
    queries: usize,
    runs: Vec<(usize, usize)>,
    i: int,
)
    requires
        server.wf(),
        queries >= 1,
        call_ensures(Server::<P>::recursion_passes, (server, queries), runs),
        0 <= i < runs@.len(),
    ensures
        runs@.len() >= 1,
        runs@[0].0 == 0,
        runs@[i].1 >= 1,
        i + 1 < runs@.len() ==> runs@[i + 1].0 == runs@[i].0 + runs@[i].1,
        i + 1 == runs@.len() ==> runs@[i].0 + runs@[i].1 == queries,
        // All passes but the last are of the same length.
        i + 1 < runs@.len() ==> runs@[i].1 == runs@[0].1,
        runs@[i].1 <= runs@[0].1,
{
    let chunk = body_chunk_of(
        queries as int,
        server.layout.spec_block_rows(server.database.height as int),
        server.params.params.n as int,
        spec_div_ceil(server.params.params.k as int, server.params.params.base2k as int),
    );
    lemma_div_ceil(queries as int, chunk);
    let per = spec_div_ceil(queries as int, chunk);
    assert(0 * chunk == 0) by (nonlinear_arith);
    assert((i + 1) * chunk == i * chunk + chunk) by (nonlinear_arith);
    assert(i * chunk <= (per - 1) * chunk) by (nonlinear_arith)
        requires
            i <= per - 1,
            chunk >= 1,
    ;
    if i + 1 < per {
        assert((i + 1) * chunk <= (per - 1) * chunk) by (nonlinear_arith)
            requires
                i + 1 <= per - 1,
                chunk >= 1,
        ;
        assert(runs@[i + 1].0 == (i + 1) * chunk);
    }
    assert(runs@[0].0 == 0 * chunk);
}

/// Cutting a number of items into runs gives whole runs, end to end, with the rest in the
/// last one.
pub proof fn law_runs_are_whole(total: usize, chunk: usize, runs: Vec<(usize, usize)>, i: int)
    requires
        chunk >= 1,
        call_ensures(chunk_runs, (total, chunk), runs),
        0 <= i < runs@.len(),
    ensures
        runs@[0].0 == 0,
        i + 1 < runs@.len() ==> runs@[i].1 == chunk && runs@[i + 1].0 == runs@[i].0 + chunk,
        i + 1 == runs@.len() ==> 1 <= runs@[i].1 <= chunk && runs@[i].0 + runs@[i].1 == total,
{
    let c = chunk as int;
    lemma_div_ceil(total as int, c);
    let per = spec_div_ceil(total as int, c);
    assert(0 * c == 0) by (nonlinear_arith);
    assert((i + 1) * c == i * c + c && (per - 1) * c == per * c - c) by (nonlinear_arith);
    if i + 1 < per {
        assert((i + 1) * c <= (per - 1) * c) by (nonlinear_arith)
            requires
                i + 1 <= per - 1,
                c >= 1,
        ;
        assert(runs@[i + 1].0 == (i + 1) * c);
    }
    assert(runs@[0].0 == 0 * c);
}

/// The mask side of a digit database is worked off in just enough packings for its rows,
/// each handed out once and in order, by no more workers than the budget has.
pub proof fn law_digit_rows_are_all_packed(
    total: usize,
    gamma: usize,
    max_threads: usize,
    available: usize,
    pool: Option<PoolInfo>,
    plan: UnitPlan,
)
    requires
        gamma >= 1,
        total >= 1,
        pool matches Some(p) ==> (p.pooled ==> p.len >= 1),
        call_ensures(pack_mask_plan, (total, gamma, max_threads, available, pool), plan),
    ensures
        just_enough(plan.units as int, gamma as int, total as int),
        flatten(groups_view(plan.work@)) == sequential(plan.units as int, 1),
        1 <= plan.work@.len() <= plan.units,
        plan.inner >= 1,
        plan.work@.len() * plan.inner <= (if max_threads >= 1 { max_threads as int } else { 1 }),
        plan.work@.len() < plan.units && pool is None && available <= max_threads && available >= 1
            ==> plan.work@.len() == available,
{
    lemma_just_enough(plan.units as int, gamma as int, total as int);
    lemma_div_ceil(total as int, gamma as int);
    let nbatches = spec_div_ceil(total as int, gamma as int);
    let outer = match pool {
        None => spec_offline_schedule(nbatches, available as int, max_threads as int).0,
        Some(p) => spec_requested(
            p.outer_request,
            spec_outer_cap(nbatches, max_threads as int, p.len as int, p.pooled),
        ),
    };
    law_panels_cover_blocks(nbatches, 1, outer);
    assert(groups_view(plan.work@).len() == plan.work@.len());
    let workers = plan.work@.len() as int;
    assert(workers * plan.inner <= outer * plan.inner) by (nonlinear_arith)
        requires
            workers <= outer,
            plan.inner >= 0,
    ;
}

/// The passes of either construction work on every unit once, in order.
pub proof fn law_units_are_all_worked_on<P: Payload<[u8; 32]>>(
    server: &Server<P>,
    threads: &Threads,
    online: UnitPlan,
    offline: UnitPlan,
    first: UnitPlan,
    panels: usize,
    physical: usize,
)
    requires
        server.wf(),
        call_ensures(Server::<P>::recursion_l1_plan, (server, threads), first),
        call_ensures(Database::<P>::physical_rows, (&server.database,), physical),
        server.params.params.collapse is Interpolation ==> {
            &&& call_ensures(Server::<P>::interpolation_panels, (server,), panels)
            &&& call_ensures(Server::<P>::interpolation_online_plan, (server, threads), online)
            &&& call_ensures(Server::<P>::interpolation_offline_plan, (server, threads), offline)
        },
    ensures
        first.units == physical,
        flatten(groups_view(first.work@)) == sequential(physical as int, 1),
        server.params.params.collapse is Interpolation ==> {
            let blocks = server.layout.cols as int / server.params.params.n as int;
            &&& online.units == panels
            &&& offline.units == panels
            &&& online.inner == 1
            &&& offline.inner >= 1
            &&& flatten(groups_view(online.work@)) == sequential(panels as int, blocks)
            &&& flatten(groups_view(offline.work@)) == sequential(panels as int, blocks)
        },
{
    law_panels_cover_blocks(physical as int, 1, threads.spec_count(physical as int));
    if server.params.params.collapse is Interpolation {
        let n = server.params.params.n as int;
        let b = server.layout.spec_block_rows(n);
        lemma_next_power_unique(b, panels as int, online.units as int);
        lemma_next_power_unique(b, panels as int, offline.units as int);
        lemma_div_pos_is_pos(server.layout.cols as int, n);
        lemma_div_is_ordered_by_denominator(
            server.layout.cols as int,
            1,
            n,
        );
        let blocks = (server.layout.cols as int / n) as usize;
        law_panels_cover_blocks(panels as int, blocks, threads.spec_count(panels as int));
    }
}

/// The time of units that ran at once is that of one of them, and no unit took longer.
pub proof fn law_longest_is_a_duration(durations: &[Duration], r: Duration, i: int)
    requires
        call_ensures(longest, (durations,), r),
        0 <= i < durations@.len(),
    ensures
        durations@[i].nanos <= r.nanos,
        exists|j: int| 0 <= j < durations@.len() && (#[trigger] durations@[j]).nanos == r.nanos,
{
    lemma_longest(durations@, i);
}

proof fn lemma_longest(durations: Seq<Duration>, i: int)
    requires
        0 <= i < durations.len(),
    ensures
        durations[i].nanos <= spec_longest(durations),
        exists|j: int|
            0 <= j < durations.len() && (#[trigger] durations[j]).nanos == spec_longest(durations),
    decreases durations.len(),
{
    let last = durations.len() - 1;
    let rest = durations.drop_last();
    if rest.len() == 0 {
        assert(spec_longest(rest) == 0);
    }
    if rest.len() > 0 {
        lemma_longest(rest, if i < last { i } else { 0 });
        let j = choose|j: int|
            0 <= j < rest.len() && (#[trigger] rest[j]).nanos == spec_longest(rest);
        assert(durations[j].nanos == spec_longest(rest));
        assert(i < last ==> rest[i] == durations[i]);
    }
    assert(durations[last] == durations.last());
    assert(spec_longest(durations) == durations[last].nanos || rest.len() > 0 && spec_longest(
        durations,
    ) == spec_longest(rest));
}

/// The work of units adds up, wherever they are parted.
pub proof fn law_work_adds_up(
    all: &[Duration],
    front: &[Duration],
    back: &[Duration],
    of_all: Duration,
    of_front: Duration,
    of_back: Duration,
)
    requires
        all@ == front@ + back@,
        call_ensures(together, (all,), of_all),
        call_ensures(together, (front,), of_front),
        call_ensures(together, (back,), of_back),
    ensures
        of_all.nanos == of_front.nanos + of_back.nanos,
        all@.len() == 1 ==> of_all.nanos == all@[0].nanos,
        all@.len() == 0 ==> of_all.nanos == 0,
{
    lemma_together_splits(front@, back@);
    reveal_with_fuel(spec_together, 2);
}

proof fn lemma_together_splits(a: Seq<Duration>, b: Seq<Duration>)
    ensures
        spec_together(a + b) == spec_together(a) + spec_together(b),
    decreases b.len(),
{
    if b.len() == 0 {
        assert(a + b =~= a);
    } else {
        assert((a + b).drop_last() =~= a + b.drop_last());
        lemma_together_splits(a, b.drop_last());
    }
}

} // verus!
