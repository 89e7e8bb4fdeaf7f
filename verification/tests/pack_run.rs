use poulpy_pir::packing::aggregate::{
    aggregate_rows, automorphed, packing_mask_preprocessing, rotated,
};
use poulpy_pir::packing::bsgs_pack::{baby_automorphism, mask_column_automorphisms, PackOp};
use poulpy_pir::packing::collapse::{collapse_plan, secret_view, CollapseStep};
use poulpy_pir::packing::keys::key_g_rotation;
use poulpy_pir::packing::partial::{
    aggregate_partial_rows, packing_partial_mask_preprocessing,
};
use poulpy_pir::packing::run::{CollapseRun, PackRun};
use poulpy_pir::packing::PackingPrecomputeInfos;
use poulpy_pir::ring::galois_element_inv;
use poulpy_pir::server::recursion::key_stride;

/// Bits of a torus element.
const BITS: usize = 36;
/// Bits of a message.
const PLAIN_BITS: usize = 16;

fn centred(x: i128) -> i64 {
    let q = 1i128 << BITS;
    let r = x.rem_euclid(q);
    (if 2 * r >= q { r - q } else { r }) as i64
}

fn sum(a: &[i64], b: &[i64]) -> Vec<i64> {
    a.iter()
        .zip(b)
        .map(|(x, y)| centred(*x as i128 + *y as i128))
        .collect()
}

fn difference(a: &[i64], b: &[i64]) -> Vec<i64> {
    a.iter()
        .zip(b)
        .map(|(x, y)| centred(*x as i128 - *y as i128))
        .collect()
}

fn product(a: &[i64], b: &[i64]) -> Vec<i64> {
    let n = a.len();
    let mut out = vec![0i128; n];
    for i in 0..n {
        for j in 0..n {
            let c = a[i] as i128 * b[j] as i128;
            if i + j < n {
                out[i + j] += c;
            } else {
                out[i + j - n] -= c;
            }
        }
    }
    out.into_iter().map(centred).collect()
}

fn noise(n: usize, seed: u64) -> Vec<i64> {
    let mut x = seed.wrapping_mul(0x9E37_79B9_7F4A_7C15) | 1;
    (0..n)
        .map(|_| {
            x ^= x << 13;
            x ^= x >> 7;
            x ^= x << 17;
            centred(x as i128)
        })
        .collect()
}

fn secret_of(n: usize) -> Vec<i64> {
    noise(n, 7).into_iter().map(|x| x.rem_euclid(3) - 1).collect()
}

#[test]
fn automorphisms_and_rotations_of_degree_four() {
    let v = vec![1i64, 2, 3, 4];
    // 1 + 2X + 3X^2 + 4X^3 at X^3: X^6 = -X^2 and X^9 = X.
    assert_eq!(automorphed(&v, 4, 3), vec![1, 4, -3, 2]);
    // X -> X^5: X^5 = -X, X^10 = X^2, X^15 = -X^3.
    assert_eq!(automorphed(&v, 4, 5), vec![1, -2, 3, -4]);
    assert_eq!(automorphed(&v, 4, -1), vec![1, -4, -3, -2]);
    assert_eq!(automorphed(&v, 4, 1), v);
    assert_eq!(rotated(&v, 4, 0), v);
    assert_eq!(rotated(&v, 4, 1), vec![-4, 1, 2, 3]);
    assert_eq!(rotated(&v, 4, 3), vec![-2, -3, -4, 1]);
}

/// Every component times its share, summed, is `n` times the inner products of the rows
/// with the secret.
#[test]
fn components_decrypt_to_inner_products() {
    for n in [4usize, 8, 16, 32] {
        let rows: Vec<Vec<i64>> = (0..n).map(|k| noise(n, 100 + k as u64)).collect();
        let secret = secret_of(n);
        let components = aggregate_rows(&rows, n, BITS);
        assert_eq!(components.len(), n);
        let mut total = vec![0i64; n];
        for (c, f) in components.iter().enumerate() {
            let view = secret_view(n, 1, c >= n / 2, c % (n / 2));
            total = sum(&total, &product(f, &automorphed(&secret, n, view)));
        }
        for k in 0..n {
            let inner: i128 = rows[k]
                .iter()
                .zip(&secret)
                .map(|(a, s)| *a as i128 * *s as i128)
                .sum();
            assert_eq!(total[k], centred(n as i128 * inner), "n = {n}, coefficient {k}");
        }
    }
}

fn collapse(
    n: usize,
    steps: Vec<CollapseStep>,
    components: &[Vec<i64>],
    key_mask: &[i64],
    terms: &mut Vec<Vec<i64>>,
) -> Vec<i64> {
    let mut run = CollapseRun::new(n, BITS, steps, components.to_vec());
    while let Some(term) = run.next_term() {
        run.take_product(&product(&term, key_mask));
        assert_eq!(run.terms.last(), Some(&term));
    }
    terms.extend(run.terms.iter().cloned());
    run.first().clone()
}

/// Aggregation, collapse and online pass together: the packed ciphertext decrypts to the
/// messages of the rows, whatever the chunk size.
#[test]
fn packing_decrypts_to_the_messages() {
    for (n, baby_size) in [(4usize, 1usize), (8, 2), (16, 3), (32, 8), (32, 40)] {
        let secret = secret_of(n);
        let rows: Vec<Vec<i64>> = (0..n).map(|k| noise(n, 200 + k as u64)).collect();
        let messages = noise(n, 11);
        // Keys without noise: from the shares of `5` and `-1` to the secret.
        let (mask_g, mask_h) = (noise(n, 21), noise(n, 22));
        let body_g = difference(&automorphed(&secret, n, 5), &product(&mask_g, &secret));
        let body_h = difference(&automorphed(&secret, n, -1), &product(&mask_h, &secret));
        let bodies: Vec<i64> = (0..n)
            .map(|k| {
                let inner: i128 = rows[k]
                    .iter()
                    .zip(&secret)
                    .map(|(a, s)| *a as i128 * *s as i128)
                    .sum();
                centred(messages[k] as i128 - n as i128 * inner)
            })
            .collect();

        let infos = PackingPrecomputeInfos::new(n - 1, 3, 18, baby_size);
        let components = aggregate_rows(&rows, n, BITS);
        let plan = collapse_plan(n, infos);
        let (first, second) = components.split_at(plan.second_half_offset);
        let mut terms = Vec::new();
        let head = collapse(n, plan.first_half, first, &mask_g, &mut terms);
        let last = collapse(n, plan.second_half, second, &mask_g, &mut terms);
        assert_eq!(plan.key_h_step, Some(terms.len()));
        let mask = sum(&head, &product(&last, &mask_h));
        terms.push(last);
        let views = mask_column_automorphisms(n, infos);
        let stored: Vec<Vec<i64>> = terms
            .iter()
            .zip(&views)
            .map(|(term, &p)| automorphed(term, n, p))
            .collect();

        for chunk in [1usize, 2, 5] {
            let mut run = PackRun::new(n, BITS, infos, chunk, bodies.clone());
            while let Some(op) = run.pending() {
                let given = match op {
                    PackOp::Product { step, baby, .. } => {
                        let view = baby_automorphism(n, 1, baby);
                        product(&stored[step], &automorphed(&body_g, n, view))
                    }
                    PackOp::FinalProduct { step } => product(&stored[step], &body_h),
                    _ => vec![0i64; n],
                };
                run.advance(given);
            }
            let phase = sum(&run.body, &product(&mask, &secret));
            assert_eq!(phase, messages, "n = {n}, chunk = {chunk}");
        }
    }
}

fn dot(a: &[i64], b: &[i64]) -> i128 {
    a.iter().zip(b).map(|(x, y)| *x as i128 * *y as i128).sum()
}

fn encode(data: &[i64]) -> Vec<i64> {
    data.iter().map(|d| d << (BITS - PLAIN_BITS)).collect()
}

fn decode(phase: &[i64]) -> Vec<i64> {
    let unit = 1i64 << (BITS - PLAIN_BITS);
    phase
        .iter()
        .map(|x| {
            let d = (x + unit / 2).div_euclid(unit).rem_euclid(1 << PLAIN_BITS);
            if d >= 1 << (PLAIN_BITS - 1) {
                d - (1 << PLAIN_BITS)
            } else {
                d
            }
        })
        .collect()
}

fn message(n: usize) -> Vec<i64> {
    (0..n).map(|i| (i as i64 % 7) - 3).collect()
}

/// Row `k` takes the inner product with the secret that is coefficient `k` of `a * s`.
fn expand(a: &[i64], k: usize) -> Vec<i64> {
    let n = a.len();
    (0..n)
        .map(|j| if j <= k { a[k - j] } else { -a[n + k - j] })
        .collect()
}

/// An encryption of `data`, expanded: its mask rows and its bodies.
fn expanded_query(n: usize, secret: &[i64], data: &[i64]) -> (Vec<Vec<i64>>, Vec<i64>) {
    let mask = noise(n, 17);
    let rows: Vec<Vec<i64>> = (0..n).map(|k| expand(&mask, k)).collect();
    let bodies = (0..n)
        .map(|k| {
            let plain = encode(data)[k] as i128 + (k as i128 % 5 - 2);
            centred(plain - dot(&rows[k], secret))
        })
        .collect();
    (rows, bodies)
}

/// Row `i` becomes row `i + 1`.
fn shifted<T: Clone>(rows: &[T]) -> Vec<T> {
    let n = rows.len();
    (0..n).map(|i| rows[(i + 1) % n].clone()).collect()
}

/// Packs rows, and decrypts.
fn pack_and_decrypt(
    infos: PackingPrecomputeInfos,
    components: &[Vec<i64>],
    bodies: Vec<i64>,
    secret: &[i64],
    chunk: usize,
) -> Vec<i64> {
    let n = secret.len();
    let stride = infos.stride();
    let (mask_g, mask_h) = (noise(n, 21), noise(n, 22));
    let share = automorphed(&secret.to_vec(), n, key_g_rotation(n, stride));
    let body_g = difference(&share, &product(&mask_g, secret));
    let share = automorphed(&secret.to_vec(), n, -1);
    let body_h = difference(&share, &product(&mask_h, secret));
    let plan = collapse_plan(n, infos);
    let (first, second) = components.split_at(plan.second_half_offset);
    let mut terms = Vec::new();
    let mut mask = collapse(n, plan.first_half, first, &mask_g, &mut terms);
    if let Some(step) = plan.key_h_step {
        let last = collapse(n, plan.second_half, second, &mask_g, &mut terms);
        assert_eq!(terms.len(), step);
        mask = sum(&mask, &product(&last, &mask_h));
        terms.push(last);
    }
    let stored: Vec<Vec<i64>> = terms
        .iter()
        .zip(mask_column_automorphisms(n, infos))
        .map(|(term, p)| automorphed(term, n, p))
        .collect();
    let mut run = PackRun::new(n, BITS, infos, chunk, bodies);
    while let Some(op) = run.pending() {
        let given = match op {
            PackOp::Product { step, baby, .. } => {
                let view = baby_automorphism(n, stride, baby);
                product(&stored[step], &automorphed(&body_g, n, view))
            }
            PackOp::FinalProduct { step } => product(&stored[step], &body_h),
            _ => vec![0i64; n],
        };
        run.advance(given);
    }
    decode(&sum(&run.body, &product(&mask, secret)))
}

#[test]
fn bsgs_dft_hot_collapse_decrypts() {
    let n = 64usize;
    let secret = secret_of(n);
    let data = message(n);
    let (rows, bodies) = expanded_query(n, &secret, &data);
    let components = packing_mask_preprocessing(&rows, n, BITS);
    let infos = PackingPrecomputeInfos::new(n - 1, 2, 18, 8);
    assert_eq!(pack_and_decrypt(infos, &components, bodies, &secret, 1), data);
}

#[test]
fn pack_u_times_expanded_query_decrypts() {
    let n = 64usize;
    let secret = secret_of(n);
    let data = message(n);
    let (rows, bodies) = expanded_query(n, &secret, &data);
    let components = packing_mask_preprocessing(&shifted(&rows), n, BITS);
    let infos = PackingPrecomputeInfos::new(n - 1, 2, 18, 8);
    let decoded = pack_and_decrypt(infos, &components, shifted(&bodies), &secret, 1);
    assert_eq!(decoded, shifted(&data));
}

/// Rows that are no expansion pin the direction of the shares.
#[test]
fn aggregate_decrypts_general_lwe_matrix() {
    let n = 64usize;
    let secret = secret_of(n);
    let data = message(n);
    let (rows, bodies) = expanded_query(n, &secret, &data);
    let reference = shifted(&data);
    let components = packing_mask_preprocessing(&shifted(&rows), n, BITS);
    let decrypt = |inverse: bool| {
        let mut phase = shifted(&bodies);
        for (col, component) in components.iter().enumerate() {
            let view = secret_view(n, 1, col >= n / 2, col % (n / 2));
            let view = if inverse {
                galois_element_inv(view, 2 * n as i64)
            } else {
                view
            };
            phase = sum(&phase, &product(component, &automorphed(&secret, n, view)));
        }
        decode(&phase)
    };
    assert_eq!(decrypt(false), reference);
    assert_ne!(decrypt(true), reference);
}

#[test]
fn partial_pack_recovers_first_gamma_coeffs() {
    let n = 64usize;
    let secret = secret_of(n);
    let data = message(n);
    for gamma in [2usize, 4, 8, 16, 32] {
        let (rows, bodies) = expanded_query(n, &secret, &data);
        let components = packing_partial_mask_preprocessing(&rows, n, gamma, BITS);
        assert_eq!(components.len(), gamma);
        let mut body = vec![0i64; n];
        body[..gamma].copy_from_slice(&bodies[..gamma]);
        let stride = key_stride(n, gamma);
        let infos = PackingPrecomputeInfos::new_partial(gamma - 1, 2, 18, 8, stride);
        let decoded = pack_and_decrypt(infos, &components, body, &secret, 1);
        assert_eq!(decoded[..gamma], data[..gamma], "gamma = {gamma}");
    }
}

/// Rows are divided by their number, to the nearest, and components rounded back.
#[test]
fn rows_are_divided_by_their_number() {
    // Two rows of degree two, at 60 bits: nothing is kept below the precision.
    let rows = vec![vec![5i64, -3], vec![1, 0]];
    // 5/2 and 1/2 are rounded up to 3 and 1, -3/2 to -1.
    assert_eq!(
        packing_mask_preprocessing(&rows, 2, 60),
        aggregate_rows(&[vec![3, -1], vec![1, 0]], 2, 60)
    );
    // With room for one more bit the sums are exact, and rounded afterwards.
    let exact = aggregate_rows(&rows, 2, 60);
    let rounded: Vec<Vec<i64>> = exact
        .iter()
        .map(|c| c.iter().map(|x| (x + 1).div_euclid(2)).collect())
        .collect();
    assert_eq!(packing_mask_preprocessing(&rows, 2, 59), rounded);
    // The same rows divided exactly.
    let n = 16usize;
    let small: Vec<Vec<i64>> = (0..n)
        .map(|k| noise(n, 40 + k as u64).iter().map(|x| x >> 8).collect())
        .collect();
    let large: Vec<Vec<i64>> = small
        .iter()
        .map(|row| row.iter().map(|x| x * 16).collect())
        .collect();
    assert_eq!(
        packing_mask_preprocessing(&large, n, BITS),
        aggregate_rows(&small, n, BITS)
    );
    let gamma = 4usize;
    let large: Vec<Vec<i64>> = small
        .iter()
        .map(|row| row.iter().map(|x| x * 4).collect())
        .collect();
    assert_eq!(
        packing_partial_mask_preprocessing(&large, n, gamma, BITS),
        aggregate_partial_rows(&small, n, gamma, BITS)
    );
}

/// The aggregate depends on every mask entry.
#[test]
fn packing_mask_aggregate_uses_lwe_matrix_mask_rows() {
    let n = 64usize;
    let mut rows: Vec<Vec<i64>> = (0..n)
        .map(|row| {
            (0..n)
                .map(|col| {
                    let limb = |l: i64| 512 * ((l + 1) * 100 + (row as i64 + 1) * 10 + col as i64 + 1);
                    (limb(0) << 18) + limb(1)
                })
                .collect()
        })
        .collect();
    let lhs = packing_mask_preprocessing(&rows, n, BITS);
    let rhs = packing_mask_preprocessing(&rows, n, BITS);
    rows[1][2] += 4096;
    let changed = packing_mask_preprocessing(&rows, n, BITS);
    assert_eq!(lhs.len(), n);
    assert!(lhs.iter().all(|c| c.len() == n));
    assert_eq!(lhs, rhs);
    assert_ne!(lhs, changed);
}

/// Rows of more than 60 bits are summed exactly, and rounded once.
#[test]
fn wide_rows_are_rounded_once() {
    for bits in [61usize, 62] {
        let q = 1i128 << bits;
        let reduced = |x: i128| {
            let r = x.rem_euclid(q);
            (if 2 * r >= q { r - q } else { r }) as i64
        };
        let n = 8usize;
        let mut state = 5u64;
        let rows: Vec<Vec<i64>> = (0..n)
            .map(|_| {
                (0..n)
                    .map(|_| {
                        state = state
                            .wrapping_mul(6364136223846793005)
                            .wrapping_add(1442695040888963407);
                        reduced((state >> 1) as i128)
                    })
                    .collect()
            })
            .collect();
        // Sums of both halves of the bits, which are exact.
        let half = |high: bool| -> Vec<Vec<i64>> {
            rows.iter()
                .map(|row| {
                    row.iter()
                        .map(|x| {
                            if high {
                                x.div_euclid(1 << 31)
                            } else {
                                x.rem_euclid(1 << 31)
                            }
                        })
                        .collect()
                })
                .collect()
        };
        let joined = |high: &[Vec<i64>], low: &[Vec<i64>], count: i128| -> Vec<Vec<i64>> {
            high.iter()
                .zip(low)
                .map(|(h, l)| {
                    h.iter()
                        .zip(l)
                        .map(|(h, l)| {
                            let sum = ((*h as i128) << 31) + *l as i128;
                            reduced((sum + count / 2).div_euclid(count))
                        })
                        .collect()
                })
                .collect()
        };
        let high = aggregate_rows(&half(true), n, 62);
        let low = aggregate_rows(&half(false), n, 62);
        assert_eq!(
            packing_mask_preprocessing(&rows, n, bits),
            joined(&high, &low, n as i128)
        );
        let gamma = 2usize;
        let high = aggregate_partial_rows(&half(true), n, gamma, 62);
        let low = aggregate_partial_rows(&half(false), n, gamma, 62);
        assert_eq!(
            packing_partial_mask_preprocessing(&rows, n, gamma, bits),
            joined(&high, &low, gamma as i128)
        );
    }
}
