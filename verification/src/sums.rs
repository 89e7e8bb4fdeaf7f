//! Finite sums of integers.

use vstd::prelude::*;
use vstd::arithmetic::div_mod::*;
use crate::arith::lemma_quotient;

verus! {

/// `f(lo) + .. + f(hi - 1)` of integers.
pub open spec fn int_sum(lo: int, hi: int, f: spec_fn(int) -> int) -> int
    decreases hi - lo,
{
    if lo >= hi {
        0
    } else {
        int_sum(lo, hi - 1, f) + f(hi - 1)
    }
}

pub proof fn lemma_int_sum_congruent(lo: int, hi: int, f: spec_fn(int) -> int, g: spec_fn(int) -> int)
    requires
        forall|i: int| lo <= i < hi ==> #[trigger] f(i) == g(i),
    ensures
        int_sum(lo, hi, f) == int_sum(lo, hi, g),
    decreases hi - lo,
{
    if lo < hi {
        lemma_int_sum_congruent(lo, hi - 1, f, g);
        assert(f(hi - 1) == g(hi - 1));
    }
}

pub proof fn lemma_int_sum_add(
    lo: int,
    hi: int,
    f: spec_fn(int) -> int,
    g: spec_fn(int) -> int,
)
    ensures
        int_sum(lo, hi, f) + int_sum(lo, hi, g) == int_sum(lo, hi, |i: int| f(i) + g(i)),
    decreases hi - lo,
{
    let h = |i: int| f(i) + g(i);
    if lo < hi {
        lemma_int_sum_add(lo, hi - 1, f, g);
        assert(h(hi - 1) == f(hi - 1) + g(hi - 1));
    }
}

pub proof fn lemma_int_sum_split(lo: int, mid: int, hi: int, f: spec_fn(int) -> int)
    requires
        lo <= mid <= hi,
    ensures
        int_sum(lo, hi, f) == int_sum(lo, mid, f) + int_sum(mid, hi, f),
    decreases hi - mid,
{
    if mid < hi {
        lemma_int_sum_split(lo, mid, hi - 1, f);
    }
}

pub proof fn lemma_int_sum_shift(lo: int, hi: int, by: int, f: spec_fn(int) -> int)
    ensures
        int_sum(lo, hi, |i: int| f(i + by)) == int_sum(lo + by, hi + by, f),
    decreases hi - lo,
{
    let g = |i: int| f(i + by);
    if lo < hi {
        lemma_int_sum_shift(lo, hi - 1, by, f);
        assert(g(hi - 1) == f(hi + by - 1));
    }
}

pub proof fn lemma_int_sum_negate(lo: int, hi: int, f: spec_fn(int) -> int)
    ensures
        int_sum(lo, hi, |i: int| -f(i)) == -int_sum(lo, hi, f),
    decreases hi - lo,
{
    let g = |i: int| -f(i);
    if lo < hi {
        lemma_int_sum_negate(lo, hi - 1, f);
        assert(g(hi - 1) == -f(hi - 1));
    }
}

pub proof fn lemma_int_sum_constant(lo: int, hi: int, c: int)
    requires
        lo <= hi,
    ensures
        int_sum(lo, hi, |i: int| c) == (hi - lo) * c,
    decreases hi - lo,
{
    let g = |i: int| c;
    if lo < hi {
        lemma_int_sum_constant(lo, hi - 1, c);
        assert(g(hi - 1) == c);
        assert((hi - lo) * c == (hi - 1 - lo) * c + c) by (nonlinear_arith);
    } else {
        assert((hi - lo) * c == 0) by (nonlinear_arith)
            requires
                hi == lo,
        ;
    }
}

/// `int_sum` of a family of sums does not depend on the order of summation.
pub proof fn lemma_sum_swap(h: int, n: int, f: spec_fn(int, int) -> int)
    requires
        n >= 0,
    ensures
        int_sum(0, h, |j: int| int_sum(0, n, |k: int| f(j, k))) == int_sum(
            0,
            n,
            |k: int| int_sum(0, h, |j: int| f(j, k)),
        ),
    decreases n,
{
    let rows = |j: int| int_sum(0, n, |k: int| f(j, k));
    let cols = |k: int| int_sum(0, h, |j: int| f(j, k));
    if n > 0 {
        lemma_sum_swap(h, n - 1, f);
        let fewer = |j: int| int_sum(0, n - 1, |k: int| f(j, k));
        let last = |j: int| f(j, n - 1);
        lemma_int_sum_add(0, h, fewer, last);
        let both = |j: int| fewer(j) + last(j);
        assert forall|j: int| 0 <= j < h implies #[trigger] both(j) == rows(j) by {
            let row = |k: int| f(j, k);
            assert(int_sum(0, n, row) == int_sum(0, n - 1, row) + row(n - 1));
        }
        lemma_int_sum_congruent(0, h, both, rows);
        assert(cols(n - 1) == int_sum(0, h, last));
    } else {
        assert forall|j: int| 0 <= j < h implies #[trigger] rows(j) == (|x: int| 0int)(j) by {}
        lemma_int_sum_congruent(0, h, rows, |x: int| 0int);
        if h >= 0 {
            lemma_int_sum_constant(0, h, 0);
        }
        assert((h - 0) * 0 == 0) by (nonlinear_arith);
    }
}

pub proof fn lemma_int_sum_scale(lo: int, hi: int, c: int, f: spec_fn(int) -> int)
    ensures
        int_sum(lo, hi, |i: int| c * f(i)) == c * int_sum(lo, hi, f),
    decreases hi - lo,
{
    let g = |i: int| c * f(i);
    if lo < hi {
        lemma_int_sum_scale(lo, hi - 1, c, f);
        assert(g(hi - 1) == c * f(hi - 1));
        assert(c * (int_sum(lo, hi - 1, f) + f(hi - 1)) == c * int_sum(lo, hi - 1, f) + c * f(
            hi - 1,
        )) by (nonlinear_arith);
    } else {
        assert(c * 0 == 0) by (nonlinear_arith);
    }
}

/// A sum of which only the term `at` differs from zero.
pub proof fn lemma_int_sum_single(lo: int, hi: int, at: int, f: spec_fn(int) -> int)
    requires
        lo <= at < hi,
        forall|i: int| lo <= i < hi && i != at ==> #[trigger] f(i) == 0,
    ensures
        int_sum(lo, hi, f) == f(at),
    decreases hi - lo,
{
    if at == hi - 1 {
        lemma_int_sum_congruent(lo, hi - 1, f, |i: int| 0int);
        lemma_int_sum_constant(lo, hi - 1, 0);
        assert((hi - 1 - lo) * 0 == 0) by (nonlinear_arith);
    } else {
        lemma_int_sum_single(lo, hi - 1, at, f);
        assert(f(hi - 1) == 0);
    }
}

/// Terms that are congruent one by one have congruent sums.
pub proof fn lemma_int_sum_mod(
    lo: int,
    hi: int,
    m: int,
    f: spec_fn(int) -> int,
    g: spec_fn(int) -> int,
)
    requires
        m >= 1,
        forall|i: int| lo <= i < hi ==> (#[trigger] f(i) - g(i)) % m == 0,
    ensures
        (int_sum(lo, hi, f) - int_sum(lo, hi, g)) % m == 0,
    decreases hi - lo,
{
    if lo < hi {
        lemma_int_sum_mod(lo, hi - 1, m, f, g);
        lemma_multiples_add(
            int_sum(lo, hi - 1, f) - int_sum(lo, hi - 1, g),
            f(hi - 1) - g(hi - 1),
            m,
        );
    } else {
        lemma_quotient(0, m, 0, 0);
    }
}

/// The sum of two multiples of `m` is a multiple of `m`.
pub proof fn lemma_multiples_add(a: int, b: int, m: int)
    requires
        m >= 1,
        a % m == 0,
        b % m == 0,
    ensures
        (a + b) % m == 0,
        (a - b) % m == 0,
{
    lemma_fundamental_div_mod(a, m);
    lemma_fundamental_div_mod(b, m);
    let x = a / m;
    let y = b / m;
    assert(a + b == m * (x + y) + 0) by (nonlinear_arith)
        requires
            a == m * x + 0,
            b == m * y + 0,
    ;
    assert(a - b == m * (x - y) + 0) by (nonlinear_arith)
        requires
            a == m * x + 0,
            b == m * y + 0,
    ;
    lemma_quotient(a + b, m, x + y, 0);
    lemma_quotient(a - b, m, x - y, 0);
}

/// A multiple of a multiple of `m` is a multiple of `m`.
pub proof fn lemma_multiple_scales(a: int, c: int, m: int)
    requires
        m >= 1,
        a % m == 0,
    ensures
        (c * a) % m == 0,
{
    lemma_fundamental_div_mod(a, m);
    let x = a / m;
    assert(c * a == m * (c * x) + 0) by (nonlinear_arith)
        requires
            a == m * x + 0,
    ;
    lemma_quotient(c * a, m, c * x, 0);
}

/// Terms of size at most `bound` have a sum of at most that size each.
pub proof fn lemma_int_sum_bound(lo: int, hi: int, bound: int, f: spec_fn(int) -> int)
    requires
        lo <= hi,
        forall|i: int| lo <= i < hi ==> -bound <= #[trigger] f(i) <= bound,
    ensures
        -((hi - lo) * bound) <= int_sum(lo, hi, f) <= (hi - lo) * bound,
    decreases hi - lo,
{
    if lo < hi {
        lemma_int_sum_bound(lo, hi - 1, bound, f);
        assert(-bound <= f(hi - 1) <= bound);
        assert((hi - lo) * bound == (hi - 1 - lo) * bound + bound) by (nonlinear_arith);
    } else {
        assert((hi - lo) * bound == 0) by (nonlinear_arith)
            requires
                hi == lo,
        ;
    }
}

} // verus!
