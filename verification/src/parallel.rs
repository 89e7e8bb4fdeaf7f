//! Work partitioning for the server's block loops.
//!
//! The database is a `P x K` grid of blocks: `P` panels of `K` contraction blocks. A
//! worker is assigned tiles, each a run of blocks of one panel. Both strategies keep
//! the panel-major order of the blocks and cut it into contiguous runs:
//!
//! - [`assign_panels`] hands out whole panels;
//! - [`assign_blocks`] balances single blocks, so a panel may be split.

use vstd::prelude::*;
use vstd::arithmetic::div_mod::*;
use crate::arith::{clamp, lemma_quotient, min, spec_clamp, spec_min};

verus! {

/// A run `col_start .. col_start + col_len` of the blocks of one panel.
#[derive(Clone, Copy, Debug, PartialEq, Eq, Structural)]
pub struct BlockWork {
    pub panel: usize,
    pub col_start: usize,
    pub col_len: usize,
}

/// Worker count for a region with at most `cap` independent work items: the
/// requested count if it is positive, else the detected one, within `1 ..= cap`.
pub fn num_threads(cap: usize, requested: Option<usize>, detected: usize) -> (r: usize)
    ensures
        cap <= 1 ==> r == 1,
        cap > 1 ==> r == spec_clamp(
            match requested {
                Some(t) => if t >= 1 { t as int } else { detected as int },
                None => detected as int,
            },
            1,
            cap as int,
        ),
        1 <= r,
        cap >= 1 ==> r <= cap,
{
    if cap <= 1 {
        return 1;
    }
    let wanted: usize = match requested {
        Some(t) => if t >= 1 { t } else { detected },
        None => detected,
    };
    clamp(wanted, 1, cap)
}

// ---------------------------------------------------------------------------
// Even splits
// ---------------------------------------------------------------------------

/// Length of part `i` when `total` items are split into `parts` runs.
pub open spec fn part_len(total: int, parts: int, i: int) -> int {
    total / parts + (if i < total % parts { 1int } else { 0int })
}

/// First item of part `i`.
pub open spec fn part_start(total: int, parts: int, i: int) -> int {
    i * (total / parts) + spec_min(i, total % parts)
}

/// The parts of an even split follow one another, start at zero and end at `total`;
/// their lengths differ by at most one, and none is empty when there are at least
/// as many items as parts.
pub proof fn law_even_split(total: int, parts: int, i: int)
    requires
        total >= 0,
        parts >= 1,
        0 <= i < parts,
    ensures
        part_start(total, parts, 0) == 0,
        part_start(total, parts, parts) == total,
        part_start(total, parts, i + 1) == part_start(total, parts, i) + part_len(total, parts, i),
        part_start(total, parts, i) >= 0,
        part_len(total, parts, i) >= 0,
        part_start(total, parts, i) + part_len(total, parts, i) <= total,
        total >= parts ==> part_len(total, parts, i) >= 1,
        total / parts <= part_len(total, parts, i) <= total / parts + 1,
{
    let b = total / parts;
    let r = total % parts;
    lemma_fundamental_div_mod(total, parts);
    lemma_mod_pos_bound(total, parts);
    lemma_div_pos_is_pos(total, parts);
    assert(0 * b == 0 && parts * b == b * parts && (i + 1) * b == i * b + b) by (nonlinear_arith);
    assert(i * b >= 0 && (i + 1) * b <= parts * b) by (nonlinear_arith)
        requires
            b >= 0,
            0 <= i,
            i + 1 <= parts,
    ;
    if total >= parts {
        assert(b >= 1) by (nonlinear_arith)
            requires
                total == parts * b + r,
                total >= parts,
                r < parts,
                parts >= 1,
                b >= 0,
        ;
    }
}

/// The runs `(start, len)` of an even split.
pub fn even_ranges(total: usize, parts: usize) -> (ranges: Vec<(usize, usize)>)
    requires
        parts >= 1,
    ensures
        ranges.len() == parts,
        forall|i: int|
            0 <= i < parts ==> {
                &&& (#[trigger] ranges@[i]).0 == part_start(total as int, parts as int, i)
                &&& ranges@[i].1 == part_len(total as int, parts as int, i)
            },
{
    let base: usize = total / parts;
    let rem: usize = total % parts;
    let mut ranges: Vec<(usize, usize)> = Vec::new();
    let mut start: usize = 0;
    let mut i: usize = 0;
    proof {
        law_even_split(total as int, parts as int, 0);
    }
    while i < parts
        invariant
            parts >= 1,
            base == total / parts,
            rem == total % parts,
            i <= parts,
            start == part_start(total as int, parts as int, i as int),
            ranges.len() == i,
            forall|j: int|
                0 <= j < i ==> {
                    &&& (#[trigger] ranges@[j]).0 == part_start(total as int, parts as int, j)
                    &&& ranges@[j].1 == part_len(total as int, parts as int, j)
                },
        decreases parts - i,
    {
        proof {
            law_even_split(total as int, parts as int, i as int);
        }
        let len: usize = if i < rem { base + 1 } else { base };
        ranges.push((start, len));
        start = start + len;
        i = i + 1;
    }
    ranges
}

// ---------------------------------------------------------------------------
// Assignments
// ---------------------------------------------------------------------------

/// Number of groups for `items` work items on `threads` workers.
pub open spec fn group_count(items: int, threads: int) -> int {
    if items == 0 { 0 } else { spec_clamp(threads, 1, items) }
}

/// Groups as a sequence of sequences.
pub open spec fn groups_view(groups: Seq<Vec<BlockWork>>) -> Seq<Seq<BlockWork>> {
    Seq::new(groups.len(), |i: int| groups[i]@)
}

/// The tile that holds the whole of a panel.
pub open spec fn full_panel(panel: int, k: usize) -> BlockWork {
    BlockWork { panel: panel as usize, col_start: 0, col_len: k }
}

/// The panel-major assignment: group `i` holds the panels of part `i`.
pub open spec fn panel_groups(p: int, k: usize, threads: int) -> Seq<Seq<BlockWork>> {
    let t = group_count(p, threads);
    Seq::new(
        t as nat,
        |i: int|
            Seq::new(part_len(p, t, i) as nat, |j: int| full_panel(part_start(p, t, i) + j, k)),
    )
}

/// Distributes `p` panels over `threads` workers, as evenly as possible.
pub fn assign_panels(p: usize, k: usize, threads: usize) -> (out: Vec<Vec<BlockWork>>)
    ensures
        groups_view(out@) == panel_groups(p as int, k, threads as int),
{
    let mut out: Vec<Vec<BlockWork>> = Vec::new();
    if p == 0 {
        assert(groups_view(out@) =~= panel_groups(p as int, k, threads as int));
        return out;
    }
    let t: usize = clamp(threads, 1, p);
    let ranges: Vec<(usize, usize)> = even_ranges(p, t);
    let mut i: usize = 0;
    while i < t
        invariant
            1 <= t <= p,
            t == group_count(p as int, threads as int),
            ranges.len() == t,
            forall|j: int|
                0 <= j < t ==> {
                    &&& (#[trigger] ranges@[j]).0 == part_start(p as int, t as int, j)
                    &&& ranges@[j].1 == part_len(p as int, t as int, j)
                },
            i <= t,
            out.len() == i,
            forall|j: int|
                0 <= j < i ==> #[trigger] groups_view(out@)[j] == panel_groups(
                    p as int,
                    k,
                    threads as int,
                )[j],
        decreases t - i,
    {
        let (start, len) = ranges[i];
        let mut group: Vec<BlockWork> = Vec::new();
        let mut j: usize = 0;
        proof {
            law_even_split(p as int, t as int, i as int);
        }
        while j < len
            invariant
                start + len <= p,
                j <= len,
                group@ == Seq::new(j as nat, |x: int| full_panel(start + x, k)),
            decreases len - j,
        {
            let ghost before = group@;
            group.push(BlockWork { panel: start + j, col_start: 0, col_len: k });
            j = j + 1;
            assert(group@ =~= Seq::new(j as nat, |x: int| full_panel(start + x, k)));
        }
        let ghost before = out@;
        out.push(group);
        proof {
            assert forall|x: int| 0 <= x < i + 1 implies #[trigger] groups_view(out@)[x]
                == panel_groups(p as int, k, threads as int)[x] by {
                if x < i {
                    assert(groups_view(out@)[x] == groups_view(before)[x]);
                } else {
                    assert(groups_view(out@)[x] =~= panel_groups(p as int, k, threads as int)[x]);
                }
            }
        }
        i = i + 1;
    }
    assert(groups_view(out@) =~= panel_groups(p as int, k, threads as int));
    out
}

/// Tiles of the run of `len` blocks from block `start` on, cut at panel boundaries.
pub open spec fn run_tiles(k: int, start: int, len: int) -> Seq<BlockWork>
    decreases len,
{
    if len <= 0 || k <= 0 || start < 0 {
        Seq::empty()
    } else {
        let take = spec_min(len, k - start % k);
        if take <= 0 {
            Seq::empty()
        } else {
            seq![
                BlockWork {
                    panel: (start / k) as usize,
                    col_start: (start % k) as usize,
                    col_len: take as usize,
                },
            ] + run_tiles(k, start + take, len - take)
        }
    }
}

/// The block-tiled assignment: group `i` holds the blocks of part `i`.
pub open spec fn block_groups(p: int, k: int, threads: int) -> Seq<Seq<BlockWork>> {
    let t = group_count(p * k, threads);
    Seq::new(t as nat, |i: int| run_tiles(k, part_start(p * k, t, i), part_len(p * k, t, i)))
}

/// Tiles of one run of blocks.
fn tiles_of_run(k: usize, start: usize, len: usize) -> (group: Vec<BlockWork>)
    requires
        k >= 1,
        start + len <= usize::MAX,
    ensures
        group@ == run_tiles(k as int, start as int, len as int),
{
    let mut group: Vec<BlockWork> = Vec::new();
    let mut global: usize = start;
    let mut remaining: usize = len;
    while remaining > 0
        invariant
            k >= 1,
            start + len <= usize::MAX,
            global + remaining == start + len,
            group@ + run_tiles(k as int, global as int, remaining as int) == run_tiles(
                k as int,
                start as int,
                len as int,
            ),
        decreases remaining,
    {
        proof {
            lemma_mod_bound(global as int, k as int);
        }
        let panel: usize = global / k;
        let col: usize = global % k;
        let take: usize = min(remaining, k - col);
        let ghost before = group@;
        group.push(BlockWork { panel, col_start: col, col_len: take });
        proof {
            let rest = run_tiles(k as int, global + take, remaining - take);
            assert(before + run_tiles(k as int, global as int, remaining as int) =~= group@ + rest);
        }
        global = global + take;
        remaining = remaining - take;
    }
    proof {
        assert(group@ + run_tiles(k as int, global as int, 0) =~= group@);
    }
    group
}

/// Cuts the `p x k` grid, in panel-major order, into runs of almost equal length.
pub fn assign_blocks(p: usize, k: usize, threads: usize) -> (out: Vec<Vec<BlockWork>>)
    requires
        p * k <= usize::MAX,
    ensures
        groups_view(out@) == block_groups(p as int, k as int, threads as int),
{
    let mut out: Vec<Vec<BlockWork>> = Vec::new();
    assert(p * k >= 0) by (nonlinear_arith)
        requires
            p >= 0,
            k >= 0,
    ;
    let total: usize = p * k;
    if total == 0 {
        assert(groups_view(out@) =~= block_groups(p as int, k as int, threads as int));
        return out;
    }
    assert(k >= 1) by (nonlinear_arith)
        requires
            p * k > 0,
            k >= 0,
    ;
    let t: usize = clamp(threads, 1, total);
    let ranges: Vec<(usize, usize)> = even_ranges(total, t);
    let mut i: usize = 0;
    while i < t
        invariant
            k >= 1,
            total == p * k,
            1 <= t <= total,
            t == group_count(p * k, threads as int),
            ranges.len() == t,
            forall|j: int|
                0 <= j < t ==> {
                    &&& (#[trigger] ranges@[j]).0 == part_start(total as int, t as int, j)
                    &&& ranges@[j].1 == part_len(total as int, t as int, j)
                },
            i <= t,
            out.len() == i,
            forall|j: int|
                0 <= j < i ==> #[trigger] groups_view(out@)[j] == block_groups(
                    p as int,
                    k as int,
                    threads as int,
                )[j],
        decreases t - i,
    {
        let (start, len) = ranges[i];
        proof {
            law_even_split(total as int, t as int, i as int);
        }
        let ghost before = out@;
        out.push(tiles_of_run(k, start, len));
        proof {
            assert forall|x: int| 0 <= x < i + 1 implies #[trigger] groups_view(out@)[x]
                == block_groups(p as int, k as int, threads as int)[x] by {
                if x < i {
                    assert(groups_view(out@)[x] == groups_view(before)[x]);
                }
            }
        }
        i = i + 1;
    }
    assert(groups_view(out@) =~= block_groups(p as int, k as int, threads as int));
    out
}

// ---------------------------------------------------------------------------
// Laws
// ---------------------------------------------------------------------------

/// The blocks of a tile.
pub open spec fn tile_blocks(w: BlockWork) -> Seq<(int, int)> {
    Seq::new(w.col_len as nat, |c: int| (w.panel as int, w.col_start + c))
}

/// The blocks of a list of tiles, in order.
pub open spec fn flatten_tiles(tiles: Seq<BlockWork>) -> Seq<(int, int)>
    decreases tiles.len(),
{
    if tiles.len() == 0 {
        Seq::empty()
    } else {
        tile_blocks(tiles[0]) + flatten_tiles(tiles.drop_first())
    }
}

/// The blocks of a list of groups, in order.
pub open spec fn flatten(groups: Seq<Seq<BlockWork>>) -> Seq<(int, int)>
    decreases groups.len(),
{
    if groups.len() == 0 {
        Seq::empty()
    } else {
        flatten(groups.drop_last()) + flatten_tiles(groups.last())
    }
}

/// The blocks `start .. start + len` in panel-major order.
pub open spec fn sequential_run(k: int, start: int, len: int) -> Seq<(int, int)> {
    Seq::new(len as nat, |g: int| ((start + g) / k, (start + g) % k))
}

/// Every block of the grid, in panel-major order.
pub open spec fn sequential(p: int, k: int) -> Seq<(int, int)> {
    sequential_run(k, 0, p * k)
}

proof fn lemma_run_concat(k: int, start: int, a: int, b: int)
    requires
        a >= 0,
        b >= 0,
    ensures
        sequential_run(k, start, a) + sequential_run(k, start + a, b) == sequential_run(
            k,
            start,
            a + b,
        ),
{
    assert(sequential_run(k, start, a) + sequential_run(k, start + a, b) =~= sequential_run(
        k,
        start,
        a + b,
    ));
}

/// The blocks `panel * k + col ..` that stay within their panel.
proof fn lemma_tile_is_run(k: int, w: BlockWork)
    requires
        k >= 1,
        w.col_start + w.col_len <= k,
    ensures
        tile_blocks(w) == sequential_run(k, w.panel * k + w.col_start, w.col_len as int),
{
    let start = w.panel * k + w.col_start;
    assert forall|c: int| 0 <= c < w.col_len implies #[trigger] tile_blocks(w)[c] == sequential_run(
        k,
        start,
        w.col_len as int,
    )[c] by {
        lemma_quotient(start + c, k, w.panel as int, w.col_start + c);
    }
    assert(tile_blocks(w) =~= sequential_run(k, start, w.col_len as int));
}

/// The tiles of a run are its blocks, and stay within their panels.
proof fn lemma_run_tiles(k: int, start: int, len: int)
    requires
        1 <= k <= usize::MAX,
        start >= 0,
        len >= 0,
        start + len <= usize::MAX,
    ensures
        flatten_tiles(run_tiles(k, start, len)) == sequential_run(k, start, len),
        forall|i: int|
            0 <= i < run_tiles(k, start, len).len() ==> {
                let w = #[trigger] run_tiles(k, start, len)[i];
                &&& w.col_len >= 1
                &&& w.col_start + w.col_len <= k
                &&& w.panel == start / k + i
            },
    decreases len,
{
    if len == 0 {
        assert(sequential_run(k, start, 0) =~= Seq::<(int, int)>::empty());
    } else {
        lemma_fundamental_div_mod(start, k);
        lemma_mod_pos_bound(start, k);
        lemma_div_pos_is_pos(start, k);
        assert(start / k <= start) by (nonlinear_arith)
            requires
                start == k * (start / k) + start % k,
                start % k >= 0,
                k >= 1,
                start / k >= 0,
        ;
        let take = spec_min(len, k - start % k);
        let w = BlockWork {
            panel: (start / k) as usize,
            col_start: (start % k) as usize,
            col_len: take as usize,
        };
        lemma_run_tiles(k, start + take, len - take);
        lemma_tile_is_run(k, w);
        assert(w.panel * k + w.col_start == start) by (nonlinear_arith)
            requires
                w.panel == start / k,
                w.col_start == start % k,
                start == k * (start / k) + start % k,
        ;
        lemma_run_concat(k, start, take, len - take);
        let all = run_tiles(k, start, len);
        let rest = run_tiles(k, start + take, len - take);
        assert(all =~= seq![w] + rest);
        assert(all.drop_first() =~= rest);
        if rest.len() > 0 {
            // The next tile begins a panel.
            let q = start / k;
            assert(len > take);
            assert(start + take == k * (q + 1) + 0) by (nonlinear_arith)
                requires
                    start == k * q + start % k,
                    take == k - start % k,
            ;
            lemma_quotient(start + take, k, q + 1, 0);
        }
        assert forall|i: int| 0 <= i < all.len() implies ({
            let x = #[trigger] all[i];
            &&& x.col_len >= 1
            &&& x.col_start + x.col_len <= k
            &&& x.panel == start / k + i
        }) by {
            if i > 0 {
                assert(all[i] == rest[i - 1]);
            }
        }
    }
}

/// The runs of the groups of an even split concatenate to all blocks.
proof fn lemma_groups_flatten(
    groups: Seq<Seq<BlockWork>>,
    k: int,
    total: int,
    t: int,
    unit: int,
    count: int,
)
    requires
        total >= 0,
        t >= 1,
        unit >= 0,
        0 <= count <= t,
        groups.len() == t,
        forall|i: int|
            0 <= i < t ==> flatten_tiles(#[trigger] groups[i]) == sequential_run(
                k,
                part_start(total, t, i) * unit,
                part_len(total, t, i) * unit,
            ),
    ensures
        flatten(groups.subrange(0, count)) == sequential_run(k, 0, part_start(total, t, count) * unit),
    decreases count,
{
    let part = groups.subrange(0, count);
    law_even_split(total, t, 0);
    if count == 0 {
        assert(0 * unit == 0) by (nonlinear_arith);
        assert(sequential_run(k, 0, 0) =~= Seq::<(int, int)>::empty());
    } else {
        lemma_groups_flatten(groups, k, total, t, unit, count - 1);
        law_even_split(total, t, count - 1);
        assert(part.drop_last() =~= groups.subrange(0, count - 1));
        assert(part.last() == groups[count - 1]);
        let a = part_start(total, t, count - 1);
        let b = part_len(total, t, count - 1);
        assert(a * unit + b * unit == (a + b) * unit && a * unit >= 0 && b * unit >= 0)
            by (nonlinear_arith)
            requires
                a >= 0,
                b >= 0,
                unit >= 0,
        ;
        lemma_run_concat(k, 0, a * unit, b * unit);
    }
}

/// The panel-major assignment covers every block exactly once, in sequential order;
/// no group is empty, every tile is a whole panel, and the panel counts of any two
/// groups differ by at most one.
pub proof fn law_panels_cover_blocks(p: int, k: usize, threads: int)
    requires
        0 <= p <= usize::MAX,
        threads >= 0,
    ensures
        flatten(panel_groups(p, k, threads)) == sequential(p, k as int),
        forall|i: int|
            0 <= i < panel_groups(p, k, threads).len() ==> #[trigger] panel_groups(p, k, threads)[i].len()
                >= 1,
        forall|i: int, j: int|
            0 <= i < panel_groups(p, k, threads).len() && 0 <= j < panel_groups(p, k, threads).len()
                ==> #[trigger] panel_groups(p, k, threads)[i].len() <= #[trigger] panel_groups(
                p,
                k,
                threads,
            )[j].len() + 1,
        panel_groups(p, k, threads).len() <= p,
        threads >= 1 ==> panel_groups(p, k, threads).len() <= threads,
{
    let groups = panel_groups(p, k, threads);
    let t = group_count(p, threads);
    if p == 0 {
        assert(0 * k == 0) by (nonlinear_arith);
        assert(flatten(groups) =~= sequential(p, k as int));
    } else {
        assert forall|i: int| 0 <= i < t implies flatten_tiles(#[trigger] groups[i])
            == sequential_run(k as int, part_start(p, t, i) * k, part_len(p, t, i) * k) by {
            law_even_split(p, t, i);
            lemma_panel_group(p, k, part_start(p, t, i), part_len(p, t, i));
        }
        lemma_groups_flatten(groups, k as int, p, t, k as int, t);
        law_even_split(p, t, 0);
        assert(groups.subrange(0, t) =~= groups);
        assert forall|i: int| 0 <= i < groups.len() implies #[trigger] groups[i].len() >= 1 by {
            law_even_split(p, t, i);
        }
        assert forall|i: int, j: int|
            0 <= i < groups.len() && 0 <= j < groups.len() implies #[trigger] groups[i].len()
            <= #[trigger] groups[j].len() + 1 by {
            law_even_split(p, t, i);
            law_even_split(p, t, j);
        }
    }
}

/// The blocks of consecutive whole panels.
proof fn lemma_panel_group(p: int, k: usize, start: int, len: int)
    requires
        0 <= start,
        0 <= len,
        start + len <= p,
        p <= usize::MAX,
    ensures
        flatten_tiles(Seq::new(len as nat, |j: int| full_panel(start + j, k))) == sequential_run(
            k as int,
            start * k,
            len * k,
        ),
    decreases len,
{
    let tiles = Seq::new(len as nat, |j: int| full_panel(start + j, k));
    if len == 0 {
        assert(0 * k == 0) by (nonlinear_arith);
        assert(sequential_run(k as int, start * k, 0) =~= Seq::<(int, int)>::empty());
    } else {
        let rest = Seq::new((len - 1) as nat, |j: int| full_panel((start + 1) + j, k));
        assert(tiles.drop_first() =~= rest);
        lemma_panel_group(p, k, start + 1, len - 1);
        assert((start + 1) * k == start * k + k && k + (len - 1) * k == len * k && (len - 1) * k >= 0)
            by (nonlinear_arith)
            requires
                len >= 1,
                k >= 0,
        ;
        if k >= 1 {
            lemma_tile_is_run(k as int, full_panel(start, k));
        } else {
            assert(tile_blocks(full_panel(start, k)) =~= sequential_run(0, start * k + 0, 0));
        }
        lemma_run_concat(k as int, start * k, k as int, (len - 1) * k);
    }
}

/// Number of blocks of a group.
pub open spec fn block_count(tiles: Seq<BlockWork>) -> int {
    flatten_tiles(tiles).len() as int
}

/// The block-tiled assignment covers every block exactly once, in sequential order;
/// no tile is empty or straddles a panel boundary, the panels within a group are distinct,
/// and the block counts of any two groups differ by at most one.
pub proof fn law_blocks_cover_blocks(p: int, k: int, threads: int)
    requires
        0 <= p,
        0 <= k <= usize::MAX,
        threads >= 0,
        p * k <= usize::MAX,
    ensures
        flatten(block_groups(p, k, threads)) == sequential(p, k),
        forall|i: int, j: int|
            0 <= i < block_groups(p, k, threads).len() && 0 <= j < block_groups(p, k, threads)[i].len()
                ==> (#[trigger] block_groups(p, k, threads)[i][j]).col_start + block_groups(
                p,
                k,
                threads,
            )[i][j].col_len <= k,
        forall|i: int, j: int|
            0 <= i < block_groups(p, k, threads).len() && 0 <= j < block_groups(p, k, threads)[i].len()
                ==> (#[trigger] block_groups(p, k, threads)[i][j]).col_len >= 1,
        forall|i: int, j: int, l: int|
            0 <= i < block_groups(p, k, threads).len() && 0 <= j < l < block_groups(
                p,
                k,
                threads,
            )[i].len() ==> (#[trigger] block_groups(p, k, threads)[i][j]).panel < (
            #[trigger] block_groups(p, k, threads)[i][l]).panel,
        forall|i: int, j: int|
            0 <= i < block_groups(p, k, threads).len() && 0 <= j < block_groups(p, k, threads).len()
                ==> block_count(#[trigger] block_groups(p, k, threads)[i]) <= block_count(
                #[trigger] block_groups(p, k, threads)[j],
            ) + 1,
{
    let groups = block_groups(p, k, threads);
    let total = p * k;
    let t = group_count(total, threads);
    assert(total >= 0) by (nonlinear_arith)
        requires
            total == p * k,
            p >= 0,
            k >= 0,
    ;
    if total == 0 {
        assert(flatten(groups) =~= sequential(p, k));
    } else {
        assert(k >= 1) by (nonlinear_arith)
            requires
                p * k > 0,
                k >= 0,
        ;
        assert forall|i: int| 0 <= i < t implies flatten_tiles(#[trigger] groups[i])
            == sequential_run(k, part_start(total, t, i) * 1, part_len(total, t, i) * 1) by {
            law_even_split(total, t, i);
            lemma_run_tiles(k, part_start(total, t, i), part_len(total, t, i));
        }
        lemma_groups_flatten(groups, k, total, t, 1, t);
        law_even_split(total, t, 0);
        assert(groups.subrange(0, t) =~= groups);
        assert forall|i: int, j: int|
            0 <= i < groups.len() && 0 <= j < groups[i].len() implies (#[trigger] groups[i][j]).col_start
            + groups[i][j].col_len <= k && groups[i][j].col_len >= 1 by {
            law_even_split(total, t, i);
            lemma_run_tiles(k, part_start(total, t, i), part_len(total, t, i));
        }
        assert forall|i: int, j: int, l: int|
            0 <= i < groups.len() && 0 <= j < l < groups[i].len() implies (
        #[trigger] groups[i][j]).panel < (#[trigger] groups[i][l]).panel by {
            law_even_split(total, t, i);
            lemma_run_tiles(k, part_start(total, t, i), part_len(total, t, i));
        }
        assert forall|i: int, j: int|
            0 <= i < groups.len() && 0 <= j < groups.len() implies block_count(#[trigger] groups[i])
            <= block_count(#[trigger] groups[j]) + 1 by {
            law_even_split(total, t, i);
            law_even_split(total, t, j);
            lemma_run_tiles(k, part_start(total, t, i), part_len(total, t, i));
            lemma_run_tiles(k, part_start(total, t, j), part_len(total, t, j));
        }
    }
}

/// Whole panels are cut into one tile each.
proof fn lemma_whole_panels(k: usize, first: int, count: int)
    requires
        k >= 1,
        0 <= first,
        0 <= count,
        (first + count) * k <= usize::MAX,
    ensures
        run_tiles(k as int, first * k, count * k) == Seq::new(
            count as nat,
            |j: int| full_panel(first + j, k),
        ),
    decreases count,
{
    let tiles = run_tiles(k as int, first * k, count * k);
    let panels = Seq::new(count as nat, |j: int| full_panel(first + j, k));
    if count == 0 {
        assert(0 * k == 0) by (nonlinear_arith);
        assert(tiles =~= panels);
    } else {
        assert(count * k >= k && (count - 1) * k == count * k - k && (first + 1) * k == first * k + k
            && first * k >= 0) by (nonlinear_arith)
            requires
                count >= 1,
                k >= 1,
                first >= 0,
        ;
        assert((first + 1 + (count - 1)) * k == (first + count) * k);
        lemma_quotient(first * k, k as int, first, 0);
        lemma_whole_panels(k, first + 1, count - 1);
        let rest = Seq::new((count - 1) as nat, |j: int| full_panel(first + 1 + j, k));
        assert(tiles =~= seq![full_panel(first, k)] + rest);
        assert(tiles =~= panels);
    }
}

/// With one worker, both assignments are the same: a single group in sequential order.
pub proof fn law_single_thread_is_sequential(p: int, k: usize)
    requires
        1 <= p <= usize::MAX,
        k >= 1,
        p * k <= usize::MAX,
    ensures
        panel_groups(p, k, 1) == block_groups(p, k as int, 1),
        panel_groups(p, k, 1).len() == 1,
        flatten_tiles(panel_groups(p, k, 1)[0]) == sequential(p, k as int),
{
    law_panels_cover_blocks(p, k, 1);
    law_blocks_cover_blocks(p, k as int, 1);
    assert(p * k >= 1) by (nonlinear_arith)
        requires
            p >= 1,
            k >= 1,
    ;
    lemma_flatten_single(panel_groups(p, k, 1));
    assert(0 * k == 0) by (nonlinear_arith);
    lemma_whole_panels(k, 0, p);
    law_even_split(p, 1, 0);
    law_even_split(p * k, 1, 0);
    assert(panel_groups(p, k, 1)[0] =~= block_groups(p, k as int, 1)[0]);
    assert(panel_groups(p, k, 1) =~= block_groups(p, k as int, 1));
}

proof fn lemma_flatten_single(groups: Seq<Seq<BlockWork>>)
    requires
        groups.len() == 1,
    ensures
        flatten(groups) == flatten_tiles(groups[0]),
{
    assert(groups.drop_last() =~= Seq::<Seq<BlockWork>>::empty());
    assert(flatten(groups.drop_last()) == Seq::<(int, int)>::empty());
    assert(flatten(groups) =~= flatten_tiles(groups[0]));
}

/// A positive request is honoured up to the number of work items, and the machine's number
/// of workers is used where there is none. There is always a worker.
pub proof fn law_requests_are_honoured(
    cap: usize,
    requested: Option<usize>,
    detected: usize,
    r: usize,
)
    requires
        call_ensures(num_threads, (cap, requested, detected), r),
    ensures
        1 <= r,
        cap >= 1 ==> r <= cap,
        requested matches Some(t) ==> (1 <= t <= cap ==> r == t),
        requested matches Some(t) ==> (1 <= cap <= t ==> r == cap),
        (requested is None || requested == Some(0usize)) ==> {
            &&& 1 <= detected <= cap ==> r == detected
            &&& 1 <= cap <= detected ==> r == cap
        },
{
}

/// Ranges of an even split lie end to end from zero to the total, and none is longer than
/// another by more than one.
pub proof fn law_ranges_split_evenly(
    total: usize,
    parts: usize,
    ranges: Vec<(usize, usize)>,
    i: int,
    j: int,
)
    requires
        parts >= 1,
        call_ensures(even_ranges, (total, parts), ranges),
        0 <= i < parts,
        0 <= j < parts,
    ensures
        ranges@.len() == parts,
        ranges@[0].0 == 0,
        i + 1 < parts ==> ranges@[i + 1].0 == ranges@[i].0 + ranges@[i].1,
        i + 1 == parts ==> ranges@[i].0 + ranges@[i].1 == total,
        ranges@[i].1 <= ranges@[j].1 + 1,
        i <= j ==> ranges@[i].1 >= ranges@[j].1,
{
    law_even_split(total as int, parts as int, i);
    law_even_split(total as int, parts as int, j);
    law_even_split(total as int, parts as int, 0);
}

/// Every worker gets work, as long as there is enough of it: panels go to as many groups as
/// there are workers, or panels where these are fewer, and blocks likewise. Group after
/// group, the panels follow one another.
pub proof fn law_workers_get_work(
    p: usize,
    k: usize,
    threads: usize,
    panels: Vec<Vec<BlockWork>>,
    blocks: Vec<Vec<BlockWork>>,
)
    requires
        p >= 1,
        k >= 1,
        threads >= 1,
        p * k <= usize::MAX,
        call_ensures(assign_panels, (p, k, threads), panels),
        call_ensures(assign_blocks, (p, k, threads), blocks),
    ensures
        panels@.len() == (if threads <= p { threads } else { p }),
        blocks@.len() == (if threads <= p * k { threads as int } else { p * k }),
        panels@[0]@.len() >= 1 && panels@[0]@[0] == (BlockWork { panel: 0, col_start: 0, col_len: k }),
        forall|i: int, j: int|
            0 <= i < panels@.len() && 0 <= j < panels@[i]@.len() ==> {
                &&& (#[trigger] panels@[i]@[j]).col_start == 0
                &&& panels@[i]@[j].col_len == k
                &&& j + 1 < panels@[i]@.len() ==> panels@[i]@[j + 1].panel == panels@[i]@[j].panel + 1
                &&& j + 1 == panels@[i]@.len() && i + 1 < panels@.len() ==> panels@[i + 1]@.len()
                    >= 1 && panels@[i + 1]@[0].panel == panels@[i]@[j].panel + 1
                &&& j + 1 == panels@[i]@.len() && i + 1 == panels@.len() ==> panels@[i]@[j].panel
                    == p - 1
            },
{
    assert(p * k >= 1) by (nonlinear_arith)
        requires
            p >= 1,
            k >= 1,
    ;
    assert(groups_view(panels@).len() == panels@.len());
    assert(groups_view(blocks@).len() == blocks@.len());
    let t = group_count(p as int, threads as int);
    let groups = panel_groups(p as int, k, threads as int);
    law_even_split(p as int, t, 0);
    assert(groups_view(panels@)[0] == panels@[0]@);
    assert(panels@[0]@[0] == groups[0][0]);
    assert forall|i: int, j: int| 0 <= i < panels@.len() && 0 <= j < panels@[i]@.len() implies {
        &&& (#[trigger] panels@[i]@[j]).col_start == 0
        &&& panels@[i]@[j].col_len == k
        &&& j + 1 < panels@[i]@.len() ==> panels@[i]@[j + 1].panel == panels@[i]@[j].panel + 1
        &&& j + 1 == panels@[i]@.len() && i + 1 < panels@.len() ==> panels@[i + 1]@.len() >= 1
            && panels@[i + 1]@[0].panel == panels@[i]@[j].panel + 1
        &&& j + 1 == panels@[i]@.len() && i + 1 == panels@.len() ==> panels@[i]@[j].panel == p - 1
    } by {
        law_even_split(p as int, t, i);
        assert(groups_view(panels@)[i] == panels@[i]@);
        assert(panels@[i]@[j] == groups[i][j]);
        if j + 1 < panels@[i]@.len() {
            assert(panels@[i]@[j + 1] == groups[i][j + 1]);
        }
        if i + 1 < panels@.len() {
            law_even_split(p as int, t, i + 1);
            assert(groups_view(panels@)[i + 1] == panels@[i + 1]@);
            assert(panels@[i + 1]@[0] == groups[i + 1][0]);
        }
    }
}

} // verus!
