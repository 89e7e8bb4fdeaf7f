//! What a query encrypts: one-hot selectors and the root of unity of a matrix.

use vstd::prelude::*;
use vstd::arithmetic::div_mod::*;
use crate::arith::{lemma_quotient, max, spec_max};
use crate::ring::{rotate, Poly};

verus! {

/// Tagged common reference seed.
#[derive(Clone, Copy, Debug, PartialEq, Eq)]
pub struct CRS(pub [u8; 32]);

impl CRS {
    pub fn as_bytes(&self) -> (r: &[u8; 32])
        ensures
            *r == self.0,
    {
        &self.0
    }
}

// ---------------------------------------------------------------------------
// System entropy
// ---------------------------------------------------------------------------

/// The error of the system's random number source.
#[verifier::external_type_specification]
#[verifier::external_body]
pub struct ExEntropyError(getrandom::Error);

/// `getrandom::fill` overwrites the slice with bytes of the system's random number
/// source, or fails. Nothing is claimed of the bytes; their number stays the same.
pub assume_specification[ getrandom::fill ](dest: &mut [u8]) -> (r: Result<(), getrandom::Error>)
    ensures
        final(dest)@.len() == old(dest)@.len(),
;

/// The system has no random bytes to give.
#[derive(Clone, Copy, Debug, PartialEq, Eq, Structural)]
pub struct NoEntropy;

/// The server's public seed, from which query masks and key masks are expanded.
#[derive(Clone, Copy, Debug, PartialEq, Eq)]
pub struct ServerSeed {
    pub root: [u8; 32],
}

/// Servers and clients that agree on no other seed use this one.
impl Default for ServerSeed {
    fn default() -> (r: Self)
        ensures
            forall|i: int| 0 <= i < 32 ==> #[trigger] r.root@[i] == 0,
    {
        ServerSeed { root: [0u8; 32] }
    }
}

impl ServerSeed {
    pub fn new(root: [u8; 32]) -> (r: Self)
        ensures
            r.root == root,
    {
        ServerSeed { root }
    }

    /// The seed with the given 32 bytes.
    pub fn from_slice(bytes: &[u8]) -> (r: Self)
        requires
            bytes@.len() == 32,
        ensures
            r.root@ == bytes@,
    {
        let mut root: [u8; 32] = [0u8; 32];
        let mut i: usize = 0;
        while i < 32
            invariant
                i <= 32,
                bytes@.len() == 32,
                root@.len() == 32,
                forall|j: int| 0 <= j < i ==> #[trigger] root@[j] == bytes@[j],
            decreases 32 - i,
        {
            root[i] = bytes[i];
            i = i + 1;
        }
        assert(root@ =~= bytes@);
        ServerSeed { root }
    }

    /// The seed of bytes that the system was asked for: the bytes themselves if it gave
    /// them, and no seed if it failed.
    pub fn from_fill(outcome: Result<(), getrandom::Error>, bytes: &[u8]) -> (r: Result<
        Self,
        NoEntropy,
    >)
        requires
            bytes@.len() == 32,
        ensures
            match r {
                Ok(seed) => outcome is Ok && seed.root@ == bytes@,
                Err(_) => outcome is Err,
            },
    {
        match outcome {
            Ok(_) => Ok(ServerSeed::from_slice(bytes)),
            Err(_) => Err(NoEntropy),
        }
    }

    /// A seed of the system's random bytes. Which bytes they are, and whether there are
    /// any, is the system's doing; what becomes of them, [`Self::from_fill`] says.
    pub fn random() -> (r: Result<Self, NoEntropy>)
        ensures
            r matches Ok(seed) ==> seed.root@.len() == 32,
    {
        let mut root: Vec<u8> = vec![0u8; 32];
        let outcome = getrandom::fill(root.as_mut_slice());
        ServerSeed::from_fill(outcome, root.as_slice())
    }
}

// ---------------------------------------------------------------------------
// One-hot selectors
// ---------------------------------------------------------------------------

/// Slot of block `block` that is hot for `index`, if any.
pub open spec fn spec_hot_slot(index: int, n: int, block: int) -> Option<usize> {
    if block == index / n {
        Some((index % n) as usize)
    } else {
        None
    }
}

/// Hot slots of `blocks` blocks of `n` slots, of which slot `index` is hot.
pub fn one_hot_blocks(index: usize, n: usize, blocks: usize) -> (r: Vec<Option<usize>>)
    requires
        n >= 1,
    ensures
        r@.len() == blocks,
        forall|b: int|
            0 <= b < blocks ==> #[trigger] r@[b] == spec_hot_slot(index as int, n as int, b),
{
    let hot: usize = index / n;
    let slot: usize = index % n;
    let mut out: Vec<Option<usize>> = Vec::new();
    while out.len() < blocks
        invariant
            out@.len() <= blocks,
            hot == index as int / n as int,
            slot == index as int % n as int,
            forall|b: int|
                0 <= b < out@.len() ==> #[trigger] out@[b] == spec_hot_slot(
                    index as int,
                    n as int,
                    b,
                ),
        decreases blocks - out@.len(),
    {
        if out.len() == hot {
            out.push(Some(slot));
        } else {
            out.push(None);
        }
    }
    out
}

/// Coefficients of one block's selector: `delta` at its hot slot, zero elsewhere.
pub fn selector_coefficients(hot: Option<usize>, n: usize, delta: i64) -> (r: Vec<i64>)
    requires
        hot matches Some(slot) ==> slot < n,
    ensures
        r@.len() == n,
        forall|j: int|
            0 <= j < n ==> #[trigger] r@[j] == (if hot == Some(j as usize) {
                delta as int
            } else {
                0
            }),
{
    let mut out: Vec<i64> = vec![0i64; n];
    if let Some(slot) = hot {
        out[slot] = delta;
    }
    out
}

// ---------------------------------------------------------------------------
// Roots of unity
// ---------------------------------------------------------------------------

/// A signed monomial `+X^degree` or `-X^degree`.
#[derive(Clone, Copy, Debug, PartialEq, Eq, Structural)]
pub struct Monomial {
    pub degree: usize,
    pub negative: bool,
}

impl Monomial {
    /// The exponent modulo `2n`, where `X^n = -1`.
    pub open spec fn exponent(self, n: int) -> int {
        if self.negative {
            self.degree + n
        } else {
            self.degree as int
        }
    }
}

/// Exponent of the root of unity that stands for matrix `matrix` among `t`.
pub fn root_exponent(n: usize, matrix: usize, t: usize) -> (r: usize)
    requires
        2 * n * matrix <= usize::MAX,
        2 * n <= usize::MAX,
    ensures
        r == (2 * n * matrix) / spec_max(t as int, 1),
{
    (2 * n * matrix) / max(t, 1)
}

/// `X^exponent` in the ring where `X^n = -1`.
pub fn root_monomial(n: usize, exponent: usize) -> (r: Monomial)
    requires
        n >= 1,
        2 * n <= usize::MAX,
    ensures
        r.degree < n,
        r.exponent(n as int) == exponent as int % (2 * n) as int,
{
    let e: usize = exponent % (2 * n);
    if e < n {
        Monomial { degree: e, negative: false }
    } else {
        Monomial { degree: e - n, negative: true }
    }
}

/// Multiplying by the monomial rotates by its exponent.
pub proof fn law_monomial_rotates(n: int, exponent: int, m: Monomial, f: Poly, i: int)
    requires
        n >= 1,
        crate::ring::negacyclic(n, f),
        m.exponent(n) == exponent % (2 * n),
        exponent >= 0,
    ensures
        rotate(exponent, f)(i) == (if m.negative {
            -f(i - m.degree)
        } else {
            f(i - m.degree)
        }),
{
    let e = exponent % (2 * n);
    let q = exponent / (2 * n);
    lemma_fundamental_div_mod(exponent, 2 * n);
    lemma_div_pos_is_pos(exponent, 2 * n);
    lemma_period(n, f, i - exponent, q);
    assert((2 * n) * q == q * (2 * n)) by (nonlinear_arith);
    assert(i - exponent + q * (2 * n) == i - e);
    if m.negative {
        assert(f(i - e + n) == -f(i - e));
        assert(i - e + n == i - m.degree);
    }
}

/// A negacyclic polynomial repeats after `2n` steps.
proof fn lemma_period(n: int, f: Poly, i: int, turns: int)
    requires
        crate::ring::negacyclic(n, f),
        turns >= 0,
    ensures
        f(i + turns * (2 * n)) == f(i),
    decreases turns,
{
    if turns > 0 {
        lemma_period(n, f, i, turns - 1);
        let j = i + (turns - 1) * (2 * n);
        assert(f(j + n) == -f(j));
        assert(f((j + n) + n) == -f(j + n));
        assert(j + n + n == i + turns * (2 * n)) by (nonlinear_arith)
            requires
                j == i + (turns - 1) * (2 * n),
        ;
    } else {
        assert(0 * (2 * n) == 0) by (nonlinear_arith);
    }
}

/// The matrices stand for distinct roots, equally spaced: with `t` dividing `2n`, matrix
/// `m` has the exponent `m * (2n / t)`, below `2n`.
pub proof fn law_roots_are_distinct(n: int, t: int, a: int, b: int)
    requires
        n >= 1,
        t >= 1,
        (2 * n) % t == 0,
        0 <= a < t,
        0 <= b < t,
    ensures
        (2 * n * a) / t == a * ((2 * n) / t),
        0 <= (2 * n * a) / t < 2 * n,
        a != b ==> (2 * n * a) / t != (2 * n * b) / t,
{
    let s = (2 * n) / t;
    lemma_fundamental_div_mod(2 * n, t);
    assert(s >= 1) by (nonlinear_arith)
        requires
            2 * n == t * s,
            n >= 1,
            t >= 1,
    ;
    assert(2 * n * a == t * (a * s)) by (nonlinear_arith)
        requires
            2 * n == t * s,
    ;
    assert(2 * n * b == t * (b * s)) by (nonlinear_arith)
        requires
            2 * n == t * s,
    ;
    lemma_quotient(2 * n * a, t, a * s, 0);
    lemma_quotient(2 * n * b, t, b * s, 0);
    assert(0 <= a * s && a * s < t * s) by (nonlinear_arith)
        requires
            0 <= a < t,
            s >= 1,
    ;
    if a != b {
        assert(a * s != b * s) by (nonlinear_arith)
            requires
                a != b,
                s >= 1,
        ;
    }
}

/// Exactly the slot of the index is hot, in the block that covers it.
pub proof fn law_one_slot_is_hot(
    index: usize,
    n: usize,
    blocks: usize,
    r: Vec<Option<usize>>,
    b: int,
    j: usize,
)
    requires
        n >= 1,
        call_ensures(one_hot_blocks, (index, n, blocks), r),
        0 <= b < blocks,
        j < n,
    ensures
        r@.len() == blocks,
        r@[b] == Some(j) <==> b * n + j == index,
        r@[b] matches Some(slot) ==> slot < n,
{
    lemma_fundamental_div_mod(index as int, n as int);
    lemma_mod_pos_bound(index as int, n as int);
    assert(r@[b] == spec_hot_slot(index as int, n as int, b));
    if b * n + j == index {
        lemma_quotient(index as int, n as int, b, j as int);
    }
    if r@[b] == Some(j) {
        assert(n * b == b * n) by (nonlinear_arith);
    }
}

/// The coefficients of a selector are `delta` in the hot slot and zero in all others.
pub proof fn law_selector_holds_delta(
    hot: Option<usize>,
    n: usize,
    delta: i64,
    r: Vec<i64>,
    j: int,
)
    requires
        hot matches Some(slot) ==> slot < n,
        call_ensures(selector_coefficients, (hot, n, delta), r),
        0 <= j < n,
    ensures
        r@.len() == n,
        hot is None ==> r@[j] == 0,
        hot matches Some(slot) ==> r@[slot as int] == delta && (j != slot ==> r@[j] == 0),
{
    if let Some(slot) = hot {
        assert(hot == Some(slot as int as usize));
        assert(j != slot ==> hot != Some(j as usize));
    }
}

/// The root of a matrix has order `t`: the exponent of matrix `m` is `m` steps of `2n / t`,
/// and its monomial is that power, with the sign that it takes beyond the degree.
pub proof fn law_root_is_the_matrix_power(
    n: usize,
    matrix: usize,
    t: usize,
    exponent: usize,
    root: Monomial,
)
    requires
        n >= 1,
        2 * n <= usize::MAX,
        t >= 1,
        (2 * n) % t as int == 0,
        matrix < t,
        2 * n * matrix <= usize::MAX,
        call_ensures(root_exponent, (n, matrix, t), exponent),
        call_ensures(root_monomial, (n, exponent), root),
    ensures
        exponent * t == 2 * n * matrix,
        root.degree < n,
        root.negative <==> exponent >= n,
        exponent == (if root.negative { root.degree + n } else { root.degree as int }),
{
    law_roots_are_distinct(n as int, t as int, matrix as int, matrix as int);
    let s = (2 * n) / t as int;
    lemma_fundamental_div_mod(2 * n as int, t as int);
    assert((matrix * s) * t == 2 * n * matrix) by (nonlinear_arith)
        requires
            2 * n == t * s,
    ;
    lemma_small_mod(exponent as nat, (2 * n) as nat);
}

/// A seed is the bytes that it was made of, and there is none where the system gave none.
pub proof fn law_seeds_are_their_bytes(
    bytes: &[u8],
    outcome: Result<(), getrandom::Error>,
    sliced: ServerSeed,
    filled: Result<ServerSeed, NoEntropy>,
)
    requires
        call_ensures(ServerSeed::from_slice, (bytes,), sliced),
        call_ensures(ServerSeed::from_fill, (outcome, bytes), filled),
    ensures
        sliced.root@ == bytes@,
        filled is Ok <==> outcome is Ok,
        filled matches Ok(seed) ==> seed.root@ == bytes@,
{
}

} // verus!
