//! Base-`2^16` digits of a modulus-switched ciphertext.

use vstd::prelude::*;
use vstd::arithmetic::div_mod::*;
use vstd::arithmetic::power::*;
use vstd::arithmetic::power2::{lemma2_to64, lemma_pow2_pos, pow2};
use crate::arith::{
    div_ceil, just_enough, lemma_div_ceil, lemma_just_enough, lemma_quotient, spec_div_ceil,
};
use crate::encoding::{
    limb_value, limbs_balanced, limbs_bounded, limbs_fit, limbs_hold, relimb, rounded,
};
use crate::limbs::LimbVec;
use crate::parameters::GlweLayout;

verus! {

/// Number of base-`2^16` decomposition digits for a `qtilde`-modulus plaintext.
pub fn decompose_digits(qtilde_bits: usize) -> (r: usize)
    ensures
        r == spec_div_ceil(qtilde_bits as int, 16),
{
    div_ceil(qtilde_bits, 16)
}

/// The representative of `x` modulo `2^16` in `[-2^15, 2^15)`.
pub open spec fn centred16(x: int) -> int {
    (x + 32768) % 65536 - 32768
}

/// What `x` exceeds its centred representative by, in units of `2^16`.
pub open spec fn carry16(x: int) -> int {
    (x + 32768) / 65536
}

pub proof fn lemma_centred16(x: int)
    ensures
        x == centred16(x) + 65536 * carry16(x),
        -32768 <= centred16(x) < 32768,
        -32768 <= x < 32768 ==> centred16(x) == x && carry16(x) == 0,
{
    lemma_fundamental_div_mod(x + 32768, 65536);
    lemma_mod_bound(x + 32768, 65536);
    if -32768 <= x < 32768 {
        lemma_quotient(x + 32768, 65536, 0, x + 32768);
    }
}

/// The low 16 bits of `x`, read as a signed digit.
pub fn limb_to_digit(x: i64) -> (r: i16)
    ensures
        r == centred16(x as int),
{
    let shifted: u128 = (x as i128 + 0x1_0000_0000_0000_8000i128) as u128;
    let low: u128 = shifted % 65536;
    proof {
        let y = x as int + 32768;
        lemma_fundamental_div_mod(y, 65536);
        lemma_mod_bound(y, 65536);
        lemma_quotient(
            y + 0x1_0000_0000_0000_0000,
            65536,
            y / 65536 + 0x1_0000_0000_0000,
            y % 65536,
        );
    }
    (low as i32 - 32768) as i16
}

/// `(x + 2^15) / 2^16`, rounded down.
fn carry_of(x: i64) -> (r: i64)
    ensures
        r == carry16(x as int),
        -0x8000_0000_0000 <= r <= 0x8000_0000_0000,
{
    let shifted: u128 = (x as i128 + 0x1_0000_0000_0000_8000i128) as u128;
    let quotient: u128 = shifted / 65536;
    proof {
        let y = x as int + 32768;
        lemma_fundamental_div_mod(y, 65536);
        lemma_mod_bound(y, 65536);
        lemma_quotient(
            y + 0x1_0000_0000_0000_0000,
            65536,
            y / 65536 + 0x1_0000_0000_0000,
            y % 65536,
        );
        lemma_centred16(x as int);
    }
    (quotient as i128 - 0x1_0000_0000_0000i128) as i64
}

/// Carry that enters limb `limb` from the limbs below it, most significant first.
pub open spec fn carry_into(limbs: Seq<int>, limb: int) -> int
    decreases limbs.len() - limb,
{
    if limb < 0 || limb + 1 >= limbs.len() {
        0
    } else {
        carry16(limbs[limb + 1] + carry_into(limbs, limb + 1))
    }
}

/// Limb `limb` after the carry pass: the signed 16-bit digit of the limb and its carry.
/// What the top limb carries is a whole turn of the torus, and is dropped.
pub open spec fn balanced_limb(limbs: Seq<int>, limb: int) -> int {
    centred16(limbs[limb] + carry_into(limbs, limb))
}

pub open spec fn balanced(limbs: Seq<int>) -> Seq<int> {
    Seq::new(limbs.len(), |l: int| balanced_limb(limbs, l))
}

/// The limbs of one coefficient, most significant first.
pub open spec fn coefficient_limbs(v: LimbVec, col: int, i: int) -> Seq<int> {
    Seq::new(v.size as nat, |l: int| v.coeff(col, l, i) as int)
}

/// Every limb plus its carry fits the machine word.
pub open spec fn balance_fits(limbs: Seq<int>) -> bool {
    forall|l: int|
        0 <= l < limbs.len() ==> i64::MIN <= limbs[l] + #[trigger] carry_into(limbs, l) <= i64::MAX
}

/// Limbs of at most 62 bits always fit.
pub proof fn law_small_limbs_fit(limbs: Seq<int>)
    requires
        forall|l: int|
            0 <= l < limbs.len() ==> -0x4000_0000_0000_0000 <= #[trigger] limbs[l] <= 0x4000_0000_0000_0000,
    ensures
        balance_fits(limbs),
{
    assert forall|l: int| 0 <= l < limbs.len() implies ({
        let v = limbs[l] + #[trigger] carry_into(limbs, l);
        -0x4800_0000_0000_0000 <= v <= 0x4800_0000_0000_0000
    }) by {
        lemma_carry_small(limbs, l);
    }
}

proof fn lemma_carry_small(limbs: Seq<int>, limb: int)
    requires
        0 <= limb < limbs.len(),
        forall|l: int|
            0 <= l < limbs.len() ==> -0x4000_0000_0000_0000 <= #[trigger] limbs[l] <= 0x4000_0000_0000_0000,
    ensures
        -0x1_0000_0000_0000 <= carry_into(limbs, limb) <= 0x1_0000_0000_0000,
    decreases limbs.len() - limb,
{
    if limb + 1 < limbs.len() {
        lemma_carry_small(limbs, limb + 1);
        lemma_centred16(limbs[limb + 1] + carry_into(limbs, limb + 1));
    }
}

/// Centred-digit carry pass over base-`2^16` limbs, from the least significant limb up.
/// Every limb ends as a signed 16-bit digit.
pub fn balance_base2k16_data(data: &mut LimbVec)
    requires
        old(data).wf(),
        forall|col: int, i: int|
            0 <= col < old(data).cols && 0 <= i < old(data).n ==> balance_fits(
                #[trigger] coefficient_limbs(*old(data), col, i),
            ),
    ensures
        final(data).wf(),
        final(data).same_shape(old(data)),
        forall|col: int, i: int|
            0 <= col < old(data).cols && 0 <= i < old(data).n ==> #[trigger] coefficient_limbs(
                *final(data),
                col,
                i,
            ) == balanced(coefficient_limbs(*old(data), col, i)),
        forall|col: int, limb: int, i: int|
            final(data).contains(col, limb, i) ==> -32768 <= #[trigger] final(data).coeff(
                col,
                limb,
                i,
            ) < 32768,
{
    let ghost start = *data;
    let cols: usize = data.cols;
    let n: usize = data.n;
    let mut col: usize = 0;
    while col < cols
        invariant
            data.wf(),
            data.same_shape(&start),
            cols == start.cols,
            n == start.n,
            col <= cols,
            forall|c: int, i: int|
                0 <= c < cols && 0 <= i < n ==> balance_fits(#[trigger] coefficient_limbs(start, c, i)),
            forall|c: int, l: int, i: int|
                col <= c < cols && start.contains(c, l, i) ==> #[trigger] data.coeff(c, l, i)
                    == start.coeff(c, l, i),
            forall|c: int, i: int|
                0 <= c < col && 0 <= i < n ==> #[trigger] coefficient_limbs(*data, c, i) == balanced(
                    coefficient_limbs(start, c, i),
                ),
        decreases cols - col,
    {
        let ghost before_col = *data;
        let mut i: usize = 0;
        while i < n
            invariant
                data.wf(),
                data.same_shape(&start),
                cols == start.cols,
                n == start.n,
                col < cols,
                i <= n,
                balance_column_ok(start, col as int),
                before_col.same_shape(&start),
                forall|c: int, l: int, j: int|
                    start.contains(c, l, j) && c != col ==> #[trigger] data.coeff(c, l, j)
                        == before_col.coeff(c, l, j),
                forall|l: int, j: int|
                    i <= j && start.contains(col as int, l, j) ==> #[trigger] data.coeff(
                        col as int,
                        l,
                        j,
                    ) == start.coeff(col as int, l, j),
                forall|j: int|
                    0 <= j < i ==> #[trigger] coefficient_limbs(*data, col as int, j) == balanced(
                        coefficient_limbs(start, col as int, j),
                    ),
            decreases n - i,
        {
            let ghost before = *data;
            proof {
                assert(coefficient_limbs(before, col as int, i as int) =~= coefficient_limbs(
                    start,
                    col as int,
                    i as int,
                ));
            }
            balance_coefficient(data, col, i);
            proof {
                assert forall|j: int| 0 <= j < i + 1 implies #[trigger] coefficient_limbs(
                    *data,
                    col as int,
                    j,
                ) == balanced(coefficient_limbs(start, col as int, j)) by {
                    if j != i {
                        assert(coefficient_limbs(*data, col as int, j) =~= coefficient_limbs(
                            before,
                            col as int,
                            j,
                        ));
                    }
                }
            }
            i = i + 1;
        }
        proof {
            assert forall|c: int, j: int|
                0 <= c < col + 1 && 0 <= j < n implies #[trigger] coefficient_limbs(*data, c, j)
                == balanced(coefficient_limbs(start, c, j)) by {
                if c != col {
                    assert(coefficient_limbs(*data, c, j) =~= coefficient_limbs(before_col, c, j));
                }
            }
        }
        col = col + 1;
    }
    proof {
        assert forall|c: int, limb: int, i: int| data.contains(c, limb, i) implies -32768
            <= #[trigger] data.coeff(c, limb, i) < 32768 by {
            let limbs = coefficient_limbs(start, c, i);
            assert(coefficient_limbs(*data, c, i) == balanced(limbs));
            assert(coefficient_limbs(*data, c, i)[limb] == data.coeff(c, limb, i));
            law_balanced_digits_in_range(limbs, limb);
        }
    }
}

/// Every coefficient of a column fits the carry pass.
pub open spec fn balance_column_ok(v: LimbVec, col: int) -> bool {
    forall|i: int| 0 <= i < v.n ==> balance_fits(#[trigger] coefficient_limbs(v, col, i))
}

/// The carry pass of one coefficient.
fn balance_coefficient(data: &mut LimbVec, col: usize, i: usize)
    requires
        old(data).wf(),
        col < old(data).cols,
        i < old(data).n,
        balance_fits(coefficient_limbs(*old(data), col as int, i as int)),
    ensures
        final(data).wf(),
        final(data).same_shape(old(data)),
        coefficient_limbs(*final(data), col as int, i as int) == balanced(
            coefficient_limbs(*old(data), col as int, i as int),
        ),
        forall|c: int, l: int, j: int|
            old(data).contains(c, l, j) && !(c == col && j == i) ==> #[trigger] final(data).coeff(
                c,
                l,
                j,
            ) == old(data).coeff(c, l, j),
{
    let ghost start = *data;
    let ghost limbs = coefficient_limbs(*data, col as int, i as int);
    let size: usize = data.size;
    let mut limb: usize = size;
    let mut carry: i64 = 0;
    while limb > 0
        invariant
            data.wf(),
            data.same_shape(&start),
            size == start.size,
            col < start.cols,
            i < start.n,
            limb <= size,
            limbs == coefficient_limbs(start, col as int, i as int),
            balance_fits(limbs),
            limb > 0 ==> carry == carry_into(limbs, limb - 1),
            forall|l: int|
                limb <= l < size ==> #[trigger] data.coeff(col as int, l, i as int) == balanced_limb(
                    limbs,
                    l,
                ),
            forall|l: int|
                0 <= l < limb ==> #[trigger] data.coeff(col as int, l, i as int) == limbs[l],
            forall|c: int, l: int, j: int|
                start.contains(c, l, j) && !(c == col && j == i) ==> #[trigger] data.coeff(c, l, j)
                    == start.coeff(c, l, j),
        decreases limb,
    {
        let at: usize = limb - 1;
        assert(data.coeff(col as int, at as int, i as int) == limbs[at as int]);
        let v: i64 = data.get(col, at, i) + carry;
        data.set(col, at, i, limb_to_digit(v) as i64);
        carry = carry_of(v);
        limb = at;
    }
    proof {
        assert(coefficient_limbs(*data, col as int, i as int) =~= balanced(limbs));
    }
}

/// The integer that the limbs stand for, most significant first.
pub open spec fn limbs_value(limbs: Seq<int>) -> int
    decreases limbs.len(),
{
    if limbs.len() == 0 {
        0
    } else {
        limbs_value(limbs.drop_last()) * 65536 + limbs.last()
    }
}

/// Adding to the last limb adds to the value.
proof fn lemma_value_last(limbs: Seq<int>, x: int)
    requires
        limbs.len() >= 1,
    ensures
        limbs_value(limbs.update(limbs.len() - 1, limbs.last() + x)) == limbs_value(limbs) + x,
{
    let up = limbs.update(limbs.len() - 1, limbs.last() + x);
    assert(up.drop_last() =~= limbs.drop_last());
}

/// Carries depend only on the limbs below.
proof fn lemma_carry_prefix(limbs: Seq<int>, limb: int)
    requires
        limbs.len() >= 2,
        0 <= limb < limbs.len() - 1,
    ensures
        ({
            let c = carry16(limbs.last());
            let shorter = limbs.drop_last();
            let top = shorter.update(shorter.len() - 1, shorter.last() + c);
            limb < top.len() - 1 ==> carry_into(limbs, limb) == carry_into(top, limb)
        }),
    decreases limbs.len() - limb,
{
    let c = carry16(limbs.last());
    let shorter = limbs.drop_last();
    let top = shorter.update(shorter.len() - 1, shorter.last() + c);
    if limb < top.len() - 1 {
        lemma_carry_prefix(limbs, limb + 1);
        if limb + 1 == top.len() - 1 {
            assert(carry_into(limbs, limb + 1) == carry16(limbs[limb + 2] + carry_into(limbs, limb + 2)));
            assert(carry_into(limbs, limb + 2) == 0);
            assert(carry_into(top, limb + 1) == 0);
        }
    }
}

/// The limbs and what the top one carries stand for the same value.
proof fn lemma_balance_value(limbs: Seq<int>)
    requires
        limbs.len() >= 1,
    ensures
        limbs_value(limbs) == limbs_value(balanced(limbs)) + carry16(
            limbs[0] + carry_into(limbs, 0),
        ) * pow(65536, limbs.len()),
    decreases limbs.len(),
{
    lemma_pow1(65536);
    if limbs.len() == 1 {
        lemma_centred16(limbs[0]);
        assert(carry_into(limbs, 0) == 0);
        let b = balanced(limbs);
        assert(b.drop_last() =~= Seq::<int>::empty());
        assert(limbs.drop_last() =~= Seq::<int>::empty());
        assert(b.last() == centred16(limbs[0]));
        assert(limbs_value(b) == limbs_value(b.drop_last()) * 65536 + b.last());
        assert(limbs_value(limbs) == limbs_value(limbs.drop_last()) * 65536 + limbs.last());
        assert(limbs_value(limbs) == limbs[0]);
    } else {
        let last = limbs.last();
        let c = carry16(last);
        let shorter = limbs.drop_last();
        let top = shorter.update(shorter.len() - 1, shorter.last() + c);
        lemma_balance_value(top);
        lemma_value_last(shorter, c);
        assert(carry_into(limbs, limbs.len() - 1) == 0);
        lemma_centred16(last);
        assert forall|l: int| 0 <= l < top.len() implies limbs[l] + carry_into(limbs, l) == top[l]
            + #[trigger] carry_into(top, l) by {
            if l < top.len() - 1 {
                lemma_carry_prefix(limbs, l);
                assert(top[l] == limbs[l]);
            } else {
                assert(carry_into(limbs, l) == c) by {
                    assert(carry_into(limbs, l + 1) == 0);
                }
                assert(carry_into(top, l) == 0);
                assert(top[l] == limbs[l] + c);
            }
        }
        let out = carry16(top[0] + carry_into(top, 0));
        assert(out == carry16(limbs[0] + carry_into(limbs, 0)));
        assert forall|l: int| 0 <= l < top.len() implies balanced(limbs)[l]
            == #[trigger] balanced(top)[l] by {
            assert(limbs[l] + carry_into(limbs, l) == top[l] + carry_into(top, l));
        }
        assert(balanced(limbs).drop_last() =~= balanced(top));
        assert(balanced(limbs).last() == centred16(last));
        let p = pow(65536, top.len());
        lemma_pow_adds(65536, top.len(), 1);
        assert(pow(65536, limbs.len()) == p * 65536);
        assert((out * p) * 65536 == out * (p * 65536)) by (nonlinear_arith);
    }
}

/// The carry pass keeps the torus element that the limbs stand for: the value stays the
/// same modulo `65536^size`.
pub proof fn law_balance_preserves_value(limbs: Seq<int>)
    ensures
        (limbs_value(balanced(limbs)) - limbs_value(limbs)) % pow(65536, limbs.len()) == 0,
{
    let m = pow(65536, limbs.len());
    lemma_pow_positive(65536, limbs.len());
    if limbs.len() == 0 {
        assert(balanced(limbs) =~= limbs);
        lemma_quotient(0, m, 0, 0);
    } else {
        lemma_balance_value(limbs);
        let out = carry16(limbs[0] + carry_into(limbs, 0));
        let d = limbs_value(balanced(limbs)) - limbs_value(limbs);
        assert(d == (-out) * m) by (nonlinear_arith)
            requires
                d == -(out * m),
        ;
        lemma_quotient(d, m, -out, 0);
    }
}

/// After the carry pass every limb is a signed 16-bit digit.
pub proof fn law_balanced_digits_in_range(limbs: Seq<int>, limb: int)
    requires
        0 <= limb < limbs.len(),
    ensures
        -32768 <= balanced(limbs)[limb] < 32768,
{
    lemma_centred16(limbs[limb] + carry_into(limbs, limb));
}

/// Limbs that are already digits carry nothing.
proof fn lemma_no_carry(limbs: Seq<int>, limb: int)
    requires
        0 <= limb < limbs.len(),
        forall|l: int| 0 < l < limbs.len() ==> -32768 <= #[trigger] limbs[l] < 32768,
    ensures
        carry_into(limbs, limb) == 0,
    decreases limbs.len() - limb,
{
    if limb + 1 < limbs.len() {
        lemma_no_carry(limbs, limb + 1);
        lemma_centred16(limbs[limb + 1]);
    }
}

/// The carry pass is idempotent.
pub proof fn law_balance_idempotent(limbs: Seq<int>)
    ensures
        balanced(balanced(limbs)) == balanced(limbs),
{
    let b = balanced(limbs);
    assert forall|l: int| 0 <= l < b.len() implies -32768 <= #[trigger] b[l] < 32768 by {
        law_balanced_digits_in_range(limbs, l);
    }
    assert forall|l: int| 0 <= l < b.len() implies #[trigger] balanced(b)[l] == b[l] by {
        lemma_no_carry(b, l);
        lemma_centred16(b[l]);
    }
    assert(balanced(b) =~= b);
}

// ---------------------------------------------------------------------------
// Modulus switch
// ---------------------------------------------------------------------------

/// Shape of a packed ciphertext after the modulus switch: 16-bit limbs, one per digit.
pub fn qtilde_glwe_layout(n: usize, qtilde_bits: usize) -> (r: GlweLayout)
    requires
        16 * spec_div_ceil(qtilde_bits as int, 16) <= usize::MAX,
    ensures
        r == (GlweLayout {
            n,
            base2k: 16,
            k: (16 * spec_div_ceil(qtilde_bits as int, 16)) as usize,
            rank: 1,
        }),
{
    let tau: usize = decompose_digits(qtilde_bits);
    GlweLayout { n, base2k: 16, k: 16 * tau, rank: 1 }
}

/// Rounds every coefficient to `qtilde_bits` bits and splits it into 16-bit digits.
pub fn modulus_switch_to_digits(src: &LimbVec, base2k: usize, qtilde_bits: usize) -> (r: LimbVec)
    requires
        src.wf(),
        limbs_fit(qtilde_bits as int, base2k as int, src.size as int),
        src.n * src.cols * spec_div_ceil(qtilde_bits as int, 16) <= usize::MAX,
        src.n * src.cols <= usize::MAX,
        forall|col: int, i: int|
            0 <= col < src.cols && 0 <= i < src.n ==> limbs_bounded(
                #[trigger] coefficient_limbs(*src, col, i),
                base2k as nat,
            ),
    ensures
        r.wf(),
        r.n == src.n,
        r.cols == src.cols,
        r.size == spec_div_ceil(qtilde_bits as int, 16),
        forall|col: int, i: int|
            0 <= col < src.cols && 0 <= i < src.n ==> limbs_hold(
                qtilde_bits as int,
                #[trigger] coefficient_limbs(r, col, i),
                16,
                rounded(qtilde_bits as int, coefficient_limbs(*src, col, i), base2k as int),
            ),
        forall|col: int, l: int, i: int|
            r.contains(col, l, i) ==> -32768 <= #[trigger] r.coeff(col, l, i) < 32768,
{
    let tau: usize = decompose_digits(qtilde_bits);
    proof {
        lemma_div_ceil(qtilde_bits as int, 16);
        lemma2_to64();
    }
    let r = relimb(qtilde_bits, src, base2k, 16, tau);
    proof {
        assert forall|col: int, l: int, i: int| r.contains(col, l, i) implies -32768
            <= #[trigger] r.coeff(col, l, i) < 32768 by {
            let limbs = coefficient_limbs(r, col, i);
            assert(limbs_balanced(limbs, 16));
            assert(limbs[l] == r.coeff(col, l, i));
        }
    }
    r
}

/// The modulus switch rounds every coefficient to the nearest of `qtilde_bits` bits, and
/// holds it in just enough signed digits of 16 bits.
pub proof fn law_switch_rounds_to_nearest(
    src: &LimbVec,
    base2k: usize,
    qtilde_bits: usize,
    r: LimbVec,
    col: int,
    i: int,
    l: int,
) -> (w: int)
    requires
        limbs_fit(qtilde_bits as int, base2k as int, src.size as int),
        call_ensures(modulus_switch_to_digits, (src, base2k, qtilde_bits), r),
        0 <= col < src.cols,
        0 <= i < src.n,
        0 <= l < r.size,
    ensures
        r.n == src.n && r.cols == src.cols,
        just_enough(r.size as int, 16, qtilde_bits as int),
        limbs_hold(qtilde_bits as int, coefficient_limbs(r, col, i), 16, w),
        -32768 <= r.coeff(col, l, i) < 32768,
        ({
            let unit = pow2((base2k * src.size - qtilde_bits) as nat) as int;
            let v = limb_value(coefficient_limbs(*src, col, i), base2k as nat);
            -unit <= 2 * (v - w * unit) <= unit
        }),
{
    let limbs = coefficient_limbs(*src, col, i);
    let unit = pow2((base2k * src.size - qtilde_bits) as nat) as int;
    let v = limb_value(limbs, base2k as nat);
    let w = rounded(qtilde_bits as int, limbs, base2k as int);
    lemma_pow2_pos((base2k * src.size - qtilde_bits) as nat);
    lemma_just_enough(r.size as int, 16, qtilde_bits as int);
    assert(limbs.len() == src.size);
    lemma_fundamental_div_mod(v + unit / 2, unit);
    lemma_mod_bound(v + unit / 2, unit);
    assert(unit * w == w * unit) by (nonlinear_arith);
    w
}

/// The carry pass keeps what the limbs of a coefficient stand for, modulo all of them.
pub proof fn law_carry_pass_keeps_coefficients(data: &mut LimbVec, col: int, i: int, l: int)
    requires
        call_ensures(balance_base2k16_data, (data,), ()),
        old(data).contains(col, l, i),
    ensures
        (limbs_value(coefficient_limbs(*final(data), col, i)) - limbs_value(
            coefficient_limbs(*old(data), col, i),
        )) % pow(65536, old(data).size as nat) == 0,
        -32768 <= final(data).coeff(col, l, i) < 32768,
        final(data).n == old(data).n && final(data).cols == old(data).cols && final(data).size
            == old(data).size,
{
    let limbs = coefficient_limbs(*old(data), col, i);
    assert(limbs.len() == old(data).size);
    law_balance_preserves_value(limbs);
}

} // verus!
