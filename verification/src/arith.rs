//! Integer helpers shared by the layout, wire and scheduling code.

use vstd::prelude::*;
use vstd::arithmetic::div_mod::*;
use vstd::arithmetic::mul::*;
use vstd::arithmetic::power2::is_pow2;

verus! {

/// The least integer `q` with `q * d >= x`.
pub open spec fn spec_div_ceil(x: int, d: int) -> int {
    (x + d - 1) / d
}

/// The least multiple of `d` that is at least `x`.
pub open spec fn spec_next_multiple(x: int, d: int) -> int {
    spec_div_ceil(x, d) * d
}

pub open spec fn spec_max(a: int, b: int) -> int {
    if a >= b { a } else { b }
}

pub open spec fn spec_min(a: int, b: int) -> int {
    if a <= b { a } else { b }
}

/// `x` moved into `[lo, hi]`.
pub open spec fn spec_clamp(x: int, lo: int, hi: int) -> int {
    if x < lo { lo } else if x > hi { hi } else { x }
}

pub fn max(a: usize, b: usize) -> (r: usize)
    ensures
        r == spec_max(a as int, b as int),
{
    if a >= b { a } else { b }
}

pub fn min(a: usize, b: usize) -> (r: usize)
    ensures
        r == spec_min(a as int, b as int),
{
    if a <= b { a } else { b }
}

pub fn clamp(x: usize, lo: usize, hi: usize) -> (r: usize)
    requires
        lo <= hi,
    ensures
        r == spec_clamp(x as int, lo as int, hi as int),
        lo <= r <= hi,
{
    if x < lo { lo } else if x > hi { hi } else { x }
}

/// Quotient and remainder are determined by `x = d q + r` with `0 <= r < d`.
pub proof fn lemma_quotient(x: int, d: int, q: int, r: int)
    requires
        d > 0,
        0 <= r < d,
        x == d * q + r || x == q * d + r,
    ensures
        x / d == q,
        x % d == r,
{
    assert(d * q == q * d) by (nonlinear_arith);
    lemma_fundamental_div_mod_converse(x, d, q, r);
}

/// Bounds that characterise the rounded-up quotient.
pub proof fn lemma_div_ceil(x: int, d: int)
    requires
        x >= 0,
        d > 0,
    ensures
        spec_div_ceil(x, d) >= 0,
        spec_div_ceil(x, d) * d >= x,
        x > 0 ==> spec_div_ceil(x, d) >= 1,
        x > 0 ==> (spec_div_ceil(x, d) - 1) * d < x,
        x == 0 ==> spec_div_ceil(x, d) == 0,
        spec_div_ceil(x, d) <= x,
        spec_div_ceil(x, d) == x / d + (if x % d == 0 { 0int } else { 1int }),
{
    let q = x / d;
    let r = x % d;
    lemma_fundamental_div_mod(x, d);
    lemma_mod_pos_bound(x, d);
    lemma_div_pos_is_pos(x, d);
    assert(q * d == d * q) by (nonlinear_arith);
    if r == 0 {
        lemma_quotient(x + d - 1, d, q, d - 1);
        assert((q - 1) * d == q * d - d) by (nonlinear_arith);
        assert(q <= x) by (nonlinear_arith)
            requires
                q * d == x,
                d > 0,
                q >= 0,
        ;
        if x > 0 {
            assert(q >= 1) by (nonlinear_arith)
                requires
                    q * d == x,
                    d > 0,
                    x > 0,
            ;
        } else {
            assert(q == 0) by (nonlinear_arith)
                requires
                    q * d == x,
                    d > 0,
                    x == 0,
            ;
        }
    } else {
        assert((q + 1) * d == q * d + d) by (nonlinear_arith);
        assert(d * (q + 1) == (q + 1) * d) by (nonlinear_arith);
        lemma_quotient(x + d - 1, d, q + 1, r - 1);
        assert(q + 1 <= x) by (nonlinear_arith)
            requires
                q * d + r == x,
                d > 0,
                q >= 0,
                r >= 1,
        ;
    }
}

/// `count` blocks of `width` slots are just enough for `slots` slots.
pub open spec fn just_enough(count: int, width: int, slots: int) -> bool {
    width * (count - 1) < slots <= width * count
}

/// The rounded-up quotient is the only number of blocks that is just enough.
pub proof fn lemma_just_enough(count: int, width: int, slots: int)
    requires
        width >= 1,
        slots >= 0,
    ensures
        just_enough(count, width, slots) <==> count == spec_div_ceil(slots, width),
{
    lemma_div_ceil(slots, width);
    let c = spec_div_ceil(slots, width);
    assert(c * width == width * c && (c - 1) * width == width * (c - 1)) by (nonlinear_arith);
    if just_enough(count, width, slots) {
        assert(count == c) by (nonlinear_arith)
            requires
                width * (count - 1) < slots <= width * count,
                width * c >= slots,
                slots > 0 ==> width * (c - 1) < slots,
                slots == 0 ==> c == 0,
                slots >= 0,
                width >= 1,
        ;
    }
    if slots == 0 {
        assert(width * (0 - 1) < 0 <= width * 0) by (nonlinear_arith)
            requires
                width >= 1,
        ;
    }
}

/// A quotient that is rounded up is just enough, and no other number is.
pub proof fn law_div_ceil_is_just_enough(x: usize, d: usize, q: usize)
    requires
        d > 0,
        call_ensures(div_ceil, (x, d), q),
    ensures
        forall|count: int| #[trigger]
            just_enough(count, d as int, x as int) <==> count == q,
{
    assert forall|count: int| #[trigger] just_enough(count, d as int, x as int) <==> count == q by {
        lemma_just_enough(count, d as int, x as int);
    }
}

/// The next multiple is a multiple, and there is none between it and the number.
pub proof fn law_next_multiple_is_next(x: usize, d: usize, r: usize)
    requires
        d > 0,
        call_ensures(next_multiple_of, (x, d), r),
    ensures
        r as int % d as int == 0,
        x <= r < x + d,
{
    lemma_mod_multiples_basic(spec_div_ceil(x as int, d as int), d as int);
}

/// Bounds are kept, and nothing within them is moved.
pub proof fn law_clamp_moves_into_bounds(x: usize, lo: usize, hi: usize, r: usize)
    requires
        lo <= hi,
        call_ensures(clamp, (x, lo, hi), r),
    ensures
        lo <= r <= hi,
        lo <= x <= hi ==> r == x,
        x < lo ==> r == lo,
        x > hi ==> r == hi,
{
}

/// The larger and the smaller of two numbers.
pub proof fn law_max_and_min(a: usize, b: usize, high: usize, low: usize)
    requires
        call_ensures(max, (a, b), high),
        call_ensures(min, (a, b), low),
    ensures
        low <= a <= high,
        low <= b <= high,
        low + high == a + b,
{
}

/// Quotient of `x` by `d`, rounded up.
pub fn div_ceil(x: usize, d: usize) -> (r: usize)
    requires
        d > 0,
    ensures
        r == spec_div_ceil(x as int, d as int),
        r <= x,
{
    proof {
        lemma_div_ceil(x as int, d as int);
    }
    let q: usize = x / d;
    if x % d == 0 {
        q
    } else {
        q + 1
    }
}

/// Smallest multiple of `d` not below `x`.
pub fn next_multiple_of(x: usize, d: usize) -> (r: usize)
    requires
        d > 0,
        x + d - 1 <= usize::MAX,
    ensures
        r == spec_next_multiple(x as int, d as int),
        r >= x,
        r < x + d,
{
    proof {
        lemma_div_ceil(x as int, d as int);
        let c = spec_div_ceil(x as int, d as int);
        assert(c * d < x + d) by (nonlinear_arith)
            requires
                d > 0,
                x > 0 ==> (c - 1) * d < x,
                x == 0 ==> c == 0,
                x >= 0,
        ;
    }
    let q: usize = div_ceil(x, d);
    q * d
}

/// Whether `x` is a power of two.
pub fn is_power_of_two(x: usize) -> (r: bool)
    ensures
        r == is_pow2(x as int),
{
    let mut y: usize = x;
    proof {
        reveal_with_fuel(is_pow2, 1);
    }
    if y == 0 {
        return false;
    }
    while y % 2 == 0
        invariant
            y >= 1,
            is_pow2(x as int) == is_pow2(y as int),
        decreases y,
    {
        proof {
            reveal_with_fuel(is_pow2, 1);
        }
        y = y / 2;
    }
    proof {
        reveal_with_fuel(is_pow2, 1);
    }
    y == 1
}

} // verus!
