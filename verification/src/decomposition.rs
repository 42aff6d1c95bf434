//! The signed decomposition of a torus scalar in base `B = 2^base_log`.
//!
//! A scalar of `W` bits is first rounded to its `base_log * level_count`
//! most significant bits. The rounded number is then written with
//! `level_count` digits of `[-B/2, B/2)`: the digit of level `l` has the
//! weight `2^(W - l * base_log)`, so that level 1 is the most significant
//! one. The digits are taken from the least significant level upwards; a
//! digit of `B/2` or more is lowered by `B`, and one is carried into the
//! next level.

use crate::entities::filled;
use crate::torus::{
    lemma_modulus, lemma_reduce_of, modulus, power_of_two_u128, reduce, zero, UnsignedTorus,
};
use vstd::arithmetic::div_mod::{
    lemma_div_is_ordered_by_denominator, lemma_fundamental_div_mod,
    lemma_fundamental_div_mod_converse, lemma_mod_bound, lemma_small_mod,
};
use vstd::arithmetic::power2::{
    lemma2_to64, lemma_pow2_adds, lemma_pow2_pos, lemma_pow2_strictly_increases, lemma_pow2_unfold,
    pow2,
};
use vstd::prelude::*;

verus! {

/// The base of a decomposition, as the logarithm of `B`.
#[derive(Clone, Copy, Debug, PartialEq, Eq)]
pub struct DecompositionBaseLog(pub usize);

/// The number of levels of a decomposition.
#[derive(Clone, Copy, Debug, PartialEq, Eq)]
pub struct DecompositionLevelCount(pub usize);

/// A decomposition of scalars of the torus `T` has at least one level of
/// at least one bit, and leaves at least one bit of the scalar out.
pub open spec fn decomposition_fits<T: UnsignedTorus>(base_log: nat, level_count: nat) -> bool {
    &&& base_log >= 1
    &&& level_count >= 1
    &&& base_log * level_count < T::bits()
}

/// Whether a decomposition fits the torus `T`.
pub fn decomposition_fits_torus<T: UnsignedTorus>(
    base_log: DecompositionBaseLog,
    level_count: DecompositionLevelCount,
) -> (fits: bool)
    ensures
        fits == decomposition_fits::<T>(base_log.0 as nat, level_count.0 as nat),
{
    if base_log.0 < 1 || level_count.0 < 1 {
        return false;
    }
    proof {
        T::lemma_bits();
    }
    let bits: usize = T::bit_width() as usize;
    match base_log.0.checked_mul(level_count.0) {
        Some(kept) => kept < bits,
        None => false,
    }
}

/// `x` without its `r` least significant bits, rounded to the nearest: the
/// bits that stay, plus the most significant of the bits that go.
pub open spec fn rounded_state(x: int, r: nat) -> int {
    x / (pow2(r) as int) + (x / (pow2((r - 1) as nat) as int)) % 2
}

/// The least significant digit of `state`, in `[-B/2, B/2)`.
pub open spec fn low_digit(state: int, base_log: nat) -> int {
    let res = state % (pow2(base_log) as int);
    if 2 * res >= pow2(base_log) {
        res - pow2(base_log)
    } else {
        res
    }
}

/// What is left of `state` once its least significant digit is taken.
pub open spec fn next_state(state: int, base_log: nat) -> int {
    (state - low_digit(state, base_log)) / (pow2(base_log) as int)
}

/// What is left of `state` once its `taken` least significant digits are
/// taken.
pub open spec fn state_after(state: int, base_log: nat, taken: nat) -> int
    decreases taken,
{
    if taken == 0 {
        state
    } else {
        next_state(state_after(state, base_log, (taken - 1) as nat), base_log)
    }
}

/// The digit of level `level` of the scalar of residue `x`, for levels
/// from 1, the most significant, to `level_count`.
pub open spec fn decomposition_digit<T: UnsignedTorus>(
    x: int,
    base_log: nat,
    level_count: nat,
    level: nat,
) -> int {
    low_digit(
        state_after(
            rounded_state(x, (T::bits() - base_log * level_count) as nat),
            base_log,
            (level_count - level) as nat,
        ),
        base_log,
    )
}

/// The number that the digits of the levels `level_count - taken + 1` to
/// `level_count` stand for, in units of the least significant level.
pub open spec fn digits_value(state: int, base_log: nat, taken: nat) -> int
    decreases taken,
{
    if taken == 0 {
        0
    } else {
        digits_value(state, base_log, (taken - 1) as nat) + low_digit(
            state_after(state, base_log, (taken - 1) as nat),
            base_log,
        ) * pow2(base_log * (taken - 1) as nat)
    }
}

/// A state is its least significant digit plus `B` times what is left.
pub proof fn lemma_next_state(state: int, base_log: nat)
    requires
        base_log >= 1,
    ensures
        state == low_digit(state, base_log) + pow2(base_log) * next_state(state, base_log),
        2 * low_digit(state, base_log) < pow2(base_log),
        -pow2(base_log) <= 2 * low_digit(state, base_log),
        next_state(state, base_log) == state / (pow2(base_log) as int) + if 2 * (state % (pow2(
            base_log,
        ) as int)) >= pow2(base_log) {
            1int
        } else {
            0int
        },
{
    let b = pow2(base_log) as int;
    lemma_pow2_pos(base_log);
    lemma_fundamental_div_mod(state, b);
    lemma_mod_bound(state, b);
    let carry = if 2 * (state % b) >= b {
        1int
    } else {
        0int
    };
    let rest = state / b + carry;
    assert(state - low_digit(state, base_log) == b * rest) by (nonlinear_arith)
        requires
            state == b * (state / b) + state % b,
            low_digit(state, base_log) == state % b - carry * b,
            rest == state / b + carry,
    ;
    lemma_fundamental_div_mod_converse(state - low_digit(state, base_log), b, rest, 0);
}

/// The digits that were taken and what is left make up the state: the
/// state is the value of its `taken` lowest digits plus `B^taken` times
/// what is left after them.
pub proof fn lemma_digits_recompose(state: int, base_log: nat, taken: nat)
    requires
        base_log >= 1,
    ensures
        state == digits_value(state, base_log, taken) + pow2(base_log * taken) * state_after(
            state,
            base_log,
            taken,
        ),
    decreases taken,
{
    if taken == 0 {
        lemma2_to64();
        assert(base_log * 0 == 0);
    } else {
        let before = (taken - 1) as nat;
        lemma_digits_recompose(state, base_log, before);
        let s = state_after(state, base_log, before);
        lemma_next_state(s, base_log);
        assert(base_log * taken == base_log * before + base_log) by (nonlinear_arith)
            requires
                taken == before + 1,
        ;
        lemma_pow2_adds(base_log * before, base_log);
        let w = pow2(base_log * before) as int;
        let b = pow2(base_log) as int;
        let d = low_digit(s, base_log);
        let rest = next_state(s, base_log);
        assert(w * s == d * w + (w * b) * rest) by (nonlinear_arith)
            requires
                s == d + b * rest,
        ;
    }
}

/// The digits of the `level_count` levels of `input`, the most significant
/// level first.
pub fn signed_decomposition<T: UnsignedTorus>(
    input: T,
    base_log: DecompositionBaseLog,
    level_count: DecompositionLevelCount,
) -> (digits: Vec<T>)
    requires
        decomposition_fits::<T>(base_log.0 as nat, level_count.0 as nat),
    ensures
        digits@.len() == level_count.0,
        forall|i: int|
            0 <= i < level_count.0 ==> #[trigger] digits@[i] == reduce::<T>(
                decomposition_digit::<T>(
                    input.value(),
                    base_log.0 as nat,
                    level_count.0 as nat,
                    (i + 1) as nat,
                ),
            ),
{
    let ghost beta = base_log.0 as nat;
    let ghost levels = level_count.0 as nat;
    proof {
        T::lemma_bits();
        lemma_modulus::<T>();
        input.lemma_value();
        assert(beta <= beta * levels) by (nonlinear_arith)
            requires
                levels >= 1,
        ;
        assert(levels <= beta * levels) by (nonlinear_arith)
            requires
                beta >= 1,
        ;
    }
    let bits: usize = T::bit_width() as usize;
    let kept: usize = base_log.0 * level_count.0;
    let dropped: usize = bits - kept;
    let x: u128 = input.to_u128();
    let unit: u128 = power_of_two_u128(dropped as u32);
    let half_unit: u128 = power_of_two_u128((dropped - 1) as u32);
    let base: u128 = power_of_two_u128(base_log.0 as u32);
    let half_base: u128 = power_of_two_u128((base_log.0 - 1) as u32);
    proof {
        lemma_pow2_unfold(dropped as nat);
        lemma_pow2_unfold(beta);
        lemma_pow2_pos((dropped - 1) as nat);
        lemma_pow2_pos((beta - 1) as nat);
        lemma_pow2_strictly_increases(beta, T::bits());
        lemma_div_is_ordered_by_denominator(x as int, 2, unit as int);
    }
    let mut state: u128 = x / unit + (x / half_unit) % 2;
    let ghost start = state as int;
    let mut digits: Vec<T> = filled(zero::<T>(), level_count.0);
    let mut taken: usize = 0;
    while taken < level_count.0
        invariant
            taken <= level_count.0,
            beta == base_log.0,
            levels == level_count.0,
            beta >= 1,
            base == pow2(beta),
            base >= 2,
            2 * half_base == base,
            base < modulus::<T>(),
            digits@.len() == levels,
            state == state_after(start, beta, taken as nat),
            forall|i: int|
                levels - taken <= i < levels ==> #[trigger] digits@[i] == reduce::<T>(
                    low_digit(state_after(start, beta, (levels - 1 - i) as nat), beta),
                ),
        decreases level_count.0 - taken,
    {
        proof {
            lemma_next_state(state as int, beta);
            lemma_div_is_ordered_by_denominator(state as int, 2, base as int);
            lemma_mod_bound(state as int, base as int);
        }
        let res: u128 = state % base;
        let digit: T = if res >= half_base {
            let lowered = zero::<T>().wrapping_sub(T::from_u128(base - res));
            proof {
                lemma_reduce_of(lowered, res - base);
            }
            state = state / base + 1;
            lowered
        } else {
            let kept_digit = T::from_u128(res);
            proof {
                lemma_small_mod(res as nat, modulus::<T>() as nat);
                lemma_reduce_of(kept_digit, res as int);
            }
            state = state / base;
            kept_digit
        };
        digits[level_count.0 - taken - 1] = digit;
        taken += 1;
    }
    digits
}

/// The scalar of residue `x` rounded to the bits that a decomposition
/// keeps, as an integer that is yet to be reduced modulo `q`: the number
/// that the digits of `x` stand for.
pub open spec fn closest_representable_value<T: UnsignedTorus>(
    x: int,
    base_log: nat,
    level_count: nat,
) -> int {
    pow2((T::bits() - base_log * level_count) as nat) * rounded_state(
        x,
        (T::bits() - base_log * level_count) as nat,
    )
}

/// `input` rounded to the nearest scalar that a decomposition can write:
/// to its `base_log * level_count` most significant bits.
pub fn closest_representable<T: UnsignedTorus>(
    input: T,
    base_log: DecompositionBaseLog,
    level_count: DecompositionLevelCount,
) -> (rounded: T)
    requires
        decomposition_fits::<T>(base_log.0 as nat, level_count.0 as nat),
    ensures
        rounded == reduce::<T>(
            closest_representable_value::<T>(
                input.value(),
                base_log.0 as nat,
                level_count.0 as nat,
            ),
        ),
{
    let ghost beta = base_log.0 as nat;
    let ghost levels = level_count.0 as nat;
    proof {
        T::lemma_bits();
        lemma_modulus::<T>();
        input.lemma_value();
        assert(1 <= beta * levels) by (nonlinear_arith)
            requires
                beta >= 1,
                levels >= 1,
        ;
    }
    let bits: usize = T::bit_width() as usize;
    let kept: usize = base_log.0 * level_count.0;
    let dropped: usize = bits - kept;
    let x: u128 = input.to_u128();
    let unit: u128 = power_of_two_u128(dropped as u32);
    let half_unit: u128 = power_of_two_u128((dropped - 1) as u32);
    let span: u128 = power_of_two_u128(kept as u32);
    proof {
        lemma_pow2_unfold(dropped as nat);
        lemma_pow2_pos((dropped - 1) as nat);
        lemma_pow2_adds(dropped as nat, kept as nat);
        lemma_div_is_ordered_by_denominator(x as int, 2, unit as int);
        lemma_fundamental_div_mod(x as int, unit as int);
        lemma_mod_bound(x as int, unit as int);
        assert(x / unit < span) by (nonlinear_arith)
            requires
                x == unit * (x / unit) + x % unit,
                0 <= x % unit,
                x < unit * span,
                unit > 0,
        ;
    }
    let state: u128 = x / unit + (x / half_unit) % 2;
    if state == span {
        proof {
            assert(unit * state - 0 == modulus::<T>()) by (nonlinear_arith)
                requires
                    state == span,
                    unit * span == modulus::<T>(),
            ;
            vstd::arithmetic::div_mod::lemma_mod_self_0(modulus::<T>());
            crate::torus::lemma_reduce_congruent::<T>(unit * state, 0);
        }
        zero::<T>()
    } else {
        proof {
            assert(state * unit < unit * span && state * unit == unit * state)
                by (nonlinear_arith)
                requires
                    state < span,
                    unit > 0,
            ;
            crate::torus::lemma_pow2_128();
            if T::bits() < 128 {
                lemma_pow2_strictly_increases(T::bits(), 128);
            }
            lemma_small_mod((unit * state) as nat, modulus::<T>() as nat);
        }
        let rounded = T::from_u128(state * unit);
        proof {
            lemma_reduce_of(rounded, unit * state);
        }
        rounded
    }
}

/// Rounding takes a small error away: a scalar that stands for a multiple
/// `p` of the least significant bit that is kept, plus an error of less
/// than half of that bit, rounds to the scalar of `p`.
pub proof fn lemma_rounding_recovers<T: UnsignedTorus>(
    x: T,
    base_log: nat,
    level_count: nat,
    p: int,
    error: int,
)
    requires
        decomposition_fits::<T>(base_log, level_count),
        0 <= p < modulus::<T>(),
        p % (pow2((T::bits() - base_log * level_count) as nat) as int) == 0,
        crate::torus::congruent::<T>(x.value(), p + error),
        -pow2((T::bits() - base_log * level_count) as nat) <= 2 * error < pow2(
            (T::bits() - base_log * level_count) as nat,
        ),
    ensures
        reduce::<T>(closest_representable_value::<T>(x.value(), base_log, level_count))
            == reduce::<T>(p),
{
    let r = (T::bits() - base_log * level_count) as nat;
    let unit = pow2(r) as int;
    let half = pow2((r - 1) as nat) as int;
    let q = modulus::<T>();
    let kept = pow2(base_log * level_count) as int;
    lemma_modulus::<T>();
    x.lemma_value();
    lemma_pow2_pos(r);
    lemma_pow2_pos((r - 1) as nat);
    lemma_pow2_unfold(r);
    lemma_pow2_adds(r, base_log * level_count);
    lemma_pow2_pos(base_log * level_count);
    lemma_fundamental_div_mod(p, unit);
    let h = p / unit;
    let v = x.value();
    assert(p + unit <= q) by (nonlinear_arith)
        requires
            p == unit * h,
            p < q,
            q == unit * kept,
            unit > 0,
    ;
    if error >= 0 {
        let k = crate::torus::lemma_congruent_witness::<T>(v, p + error);
        assert(k == 0) by (nonlinear_arith)
            requires
                v - (p + error) == q * k,
                0 <= v < q,
                0 <= p + error < q,
        ;
        assert(v == (2 * h) * half + error && v == h * unit + error) by (nonlinear_arith)
            requires
                v == p + error,
                p == unit * h,
                unit == 2 * half,
        ;
        lemma_fundamental_div_mod_converse(v, unit, h, error);
        lemma_fundamental_div_mod_converse(v, half, 2 * h, error);
    } else if p >= unit {
        let k = crate::torus::lemma_congruent_witness::<T>(v, p + error);
        assert(k == 0) by (nonlinear_arith)
            requires
                v - (p + error) == q * k,
                0 <= v < q,
                0 <= p + error < q,
        ;
        assert(v == (h - 1) * unit + (unit + error) && v == (2 * (h - 1) + 1) * half + (half
            + error)) by (nonlinear_arith)
            requires
                v == p + error,
                p == unit * h,
                unit == 2 * half,
        ;
        lemma_fundamental_div_mod_converse(v, unit, h - 1, unit + error);
        lemma_fundamental_div_mod_converse(v, half, 2 * (h - 1) + 1, half + error);
    } else {
        assert(h == 0 && p == 0) by (nonlinear_arith)
            requires
                p == unit * h,
                0 <= p < unit,
        ;
        assert(2 * half <= q) by (nonlinear_arith)
            requires
                q == unit * kept,
                unit == 2 * half,
                kept >= 1,
                unit > 0,
        ;
        let k = crate::torus::lemma_congruent_witness::<T>(v, p + error);
        assert(k == 1) by (nonlinear_arith)
            requires
                v - (p + error) == q * k,
                0 <= v < q,
                -q < p + error < 0,
        ;
        assert(v == q + error);
        assert(v == (kept - 1) * unit + (unit + error) && v == (2 * (kept - 1) + 1) * half + (half
            + error)) by (nonlinear_arith)
            requires
                v == q + error,
                q == unit * kept,
                unit == 2 * half,
        ;
        lemma_fundamental_div_mod_converse(v, unit, kept - 1, unit + error);
        lemma_fundamental_div_mod_converse(v, half, 2 * (kept - 1) + 1, half + error);
        assert(unit * (kept - 1 + 1) - 0 == q * 1) by (nonlinear_arith)
            requires
                q == unit * kept,
        ;
        crate::torus::lemma_congruent_by::<T>(unit * (kept - 1 + 1), 0, 1);
        crate::torus::lemma_reduce_congruent::<T>(unit * (kept - 1 + 1), 0);
    }
}

} // verus!
