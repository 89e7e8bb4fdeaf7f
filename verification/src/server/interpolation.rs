//! The interpolation construction: shapes and the order of its outputs.

use vstd::prelude::*;
use crate::matrix::lemma_flat_index;

verus! {

/// Position of block `bc` of panel `panel` among the interpolated matrices.
pub fn panel_block(panel: usize, block_cols: usize, bc: usize, panels: usize) -> (r: usize)
    requires
        panel < panels,
        bc < block_cols,
        panels * block_cols <= usize::MAX,
    ensures
        r == panel * block_cols + bc,
        r < panels * block_cols,
{
    proof {
        lemma_flat_index(panel as int, bc as int, panels as int, block_cols as int);
    }
    panel * block_cols + bc
}

/// Turns outputs by panel into outputs by query: entry `p` of query `q` is entry `q` of
/// panel `p`.
pub fn transpose<T>(panels: Vec<Vec<T>>, queries: usize) -> (r: Vec<Vec<T>>)
    requires
        forall|p: int| 0 <= p < panels@.len() ==> (#[trigger] panels@[p])@.len() == queries,
    ensures
        r@.len() == queries,
        forall|q: int| 0 <= q < queries ==> (#[trigger] r@[q])@.len() == panels@.len(),
        forall|q: int, p: int|
            0 <= q < queries && 0 <= p < panels@.len() ==> #[trigger] r@[q]@[p] == panels@[p]@[q],
{
    let ghost all = panels@;
    let mut rest: Vec<Vec<T>> = panels;
    let mut out: Vec<Vec<T>> = Vec::new();
    while out.len() < queries
        invariant
            out@.len() <= queries,
            forall|q: int| 0 <= q < out@.len() ==> (#[trigger] out@[q])@.len() == 0,
        decreases queries - out@.len(),
    {
        out.push(Vec::new());
    }
    let mut left: usize = rest.len();
    while left > 0
        invariant
            left <= all.len(),
            rest@ == all.take(left as int),
            forall|p: int| 0 <= p < all.len() ==> (#[trigger] all[p])@.len() == queries,
            out@.len() == queries,
            forall|q: int| 0 <= q < queries ==> (#[trigger] out@[q])@.len() == all.len() - left,
            forall|q: int, i: int|
                0 <= q < queries && 0 <= i < all.len() - left ==> #[trigger] out@[q]@[i]
                    == all[left + i]@[q],
        decreases left,
    {
        left = left - 1;
        let ghost whole = all[left as int]@;
        let mut panel: Vec<T> = match rest.pop() {
            Some(x) => x,
            None => Vec::new(),
        };
        proof {
            assert(rest@ =~= all.take(left as int));
            assert(panel@ == whole);
        }
        let ghost before = out@;
        let mut q: usize = queries;
        while q > 0
            invariant
                q <= queries,
                left < all.len(),
                whole == all[left as int]@,
                whole.len() == queries,
                panel@ == whole.take(q as int),
                before.len() == queries,
                out@.len() == queries,
                forall|a: int| 0 <= a < q ==> #[trigger] out@[a] == before[a],
                forall|a: int|
                    q <= a < queries ==> (#[trigger] out@[a])@ == before[a]@.insert(0, whole[a]),
            decreases q,
        {
            q = q - 1;
            if let Some(x) = panel.pop() {
                let ghost row = out@[q as int]@;
                out[q].insert(0, x);
                proof {
                    assert(panel@ =~= whole.take(q as int));
                    assert(out@[q as int]@ == row.insert(0, whole[q as int]));
                }
            }
        }
        proof {
            assert forall|q: int, i: int|
                0 <= q < queries && 0 <= i < all.len() - left implies #[trigger] out@[q]@[i]
                == all[left + i]@[q] by {
                assert(out@[q]@ == before[q]@.insert(0, whole[q]));
                if i > 0 {
                    assert(before[q]@[i - 1] == all[left + 1 + (i - 1)]@[q]);
                }
            }
            assert forall|q: int| 0 <= q < queries implies (#[trigger] out@[q])@.len() == all.len()
                - left by {
                assert(out@[q]@ == before[q]@.insert(0, whole[q]));
            }
        }
    }
    out
}

} // verus!
