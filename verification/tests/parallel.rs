use poulpy_pir::parallel::{assign_blocks, assign_panels, even_ranges, num_threads, BlockWork};

/// Flattens groups to the sequence of `(panel, col)` blocks they cover.
fn flatten(groups: &[Vec<BlockWork>]) -> Vec<(usize, usize)> {
    let mut v = Vec::new();
    for g in groups {
        for w in g {
            for c in w.col_start..w.col_start + w.col_len {
                v.push((w.panel, c));
            }
        }
    }
    v
}

/// The canonical panel-major sequential order of every block.
fn sequential(p: usize, k: usize) -> Vec<(usize, usize)> {
    (0..p)
        .flat_map(|panel| (0..k).map(move |c| (panel, c)))
        .collect()
}

#[test]
fn num_threads_caps_and_floors() {
    for detected in [1, 3, 8, 128] {
        assert_eq!(num_threads(0, None, detected), 1);
        assert_eq!(num_threads(1, None, detected), 1);
        for cap in [2, 4, 16, 64] {
            let t = num_threads(cap, None, detected);
            assert!((1..=cap).contains(&t), "cap={cap} -> {t}");
        }
    }
    assert_eq!(num_threads(16, Some(3), 8), 3);
    assert_eq!(num_threads(16, Some(0), 8), 8);
    assert_eq!(num_threads(4, Some(9), 8), 4);
    assert_eq!(num_threads(4, None, 0), 1);
}

#[test]
fn assign_panels_covers_each_block_once() {
    for &(p, k) in &[(1, 1), (16, 32), (16, 1), (3, 5), (7, 4)] {
        for threads in 1..=2 * p {
            let g = assign_panels(p, k, threads);
            // No empty groups; at most `p` (or `threads`) groups.
            assert!(g.len() <= p.min(threads.max(1)).max(1));
            assert!(g.iter().all(|grp| !grp.is_empty()));
            // Each tile is a full panel.
            assert!(g
                .iter()
                .flatten()
                .all(|w| w.col_start == 0 && w.col_len == k));
            // Exact cover, panel-major order preserved.
            assert_eq!(flatten(&g), sequential(p, k), "p={p} k={k} t={threads}");
            // Panel-count balance within 1.
            let counts: Vec<usize> = g.iter().map(|grp| grp.len()).collect();
            let (mn, mx) = (counts.iter().min().unwrap(), counts.iter().max().unwrap());
            assert!(
                mx - mn <= 1,
                "unbalanced panels p={p} t={threads}: {counts:?}"
            );
        }
    }
}

#[test]
fn assign_blocks_covers_each_block_once_and_balances() {
    for &(p, k) in &[(1, 1), (16, 32), (16, 1), (3, 5), (7, 4), (2, 9)] {
        let total = p * k;
        for threads in 1..=2 * total {
            let g = assign_blocks(p, k, threads);
            // Exact cover, panel-major order preserved.
            assert_eq!(flatten(&g), sequential(p, k), "p={p} k={k} t={threads}");
            // Tiles never straddle a panel boundary.
            assert!(g.iter().flatten().all(|w| w.col_start + w.col_len <= k));
            // Block-count balance within 1 across non-empty groups.
            let counts: Vec<usize> = g
                .iter()
                .map(|grp| grp.iter().map(|w| w.col_len).sum::<usize>())
                .filter(|&n| n > 0)
                .collect();
            let (mn, mx) = (counts.iter().min().unwrap(), counts.iter().max().unwrap());
            assert!(
                mx - mn <= 1,
                "unbalanced blocks p={p} k={k} t={threads}: {counts:?}"
            );
        }
    }
}

#[test]
fn single_thread_is_sequential_order() {
    let (p, k) = (16, 32);
    let panels = assign_panels(p, k, 1);
    let blocks = assign_blocks(p, k, 1);
    assert_eq!(panels.len(), 1);
    assert_eq!(blocks.len(), 1);
    assert_eq!(flatten(&panels), sequential(p, k));
    assert_eq!(flatten(&blocks), sequential(p, k));
}

#[test]
fn even_ranges_of_ten_in_four() {
    assert_eq!(even_ranges(10, 4), vec![(0, 3), (3, 3), (6, 2), (8, 2)]);
    assert_eq!(even_ranges(2, 3), vec![(0, 1), (1, 1), (2, 0)]);
    assert_eq!(even_ranges(0, 2), vec![(0, 0), (0, 0)]);
}
