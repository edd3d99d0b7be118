//! The generator visits every state before it returns to one.
//!
//! The recurrence multiplies by a number that leaves the remainder 1 when
//! divided by 4 and adds an odd number, modulo a power of two. Such a
//! recurrence runs through all states in one cycle. It follows that a
//! rejection sample never uses up its draws: it ends with an unbiased draw.

use vstd::prelude::*;
use vstd::arithmetic::div_mod::{
    lemma_fundamental_div_mod,
    lemma_mod_mod,
    lemma_mod_multiples_vanish,
    lemma_small_mod,
};
use vstd::arithmetic::power2::{lemma2_to64, lemma_pow2_adds, lemma_pow2_pos, pow2};
use vstd::set_lib::{lemma_int_range, lemma_map_size, lemma_subset_equality, set_int_range};
use crate::my_rng::{
    lcg_step,
    rejection_sample,
    top_bits,
    unbiased,
    DRAW_LIMIT,
    INCREMENT,
    MODULUS,
    MULTIPLIER,
};

verus! {

/// The state after `n` steps from `state`.
pub open spec fn iterate(state: u64, n: nat) -> u64
    decreases n,
{
    if n == 0 {
        state
    } else {
        lcg_step(iterate(state, (n - 1) as nat))
    }
}

/// `i` steps and then `j` steps are `i + j` steps.
pub proof fn lemma_iterate_adds(state: u64, i: nat, j: nat)
    ensures
        iterate(state, i + j) == iterate(iterate(state, i), j),
    decreases j,
{
    if j > 0 {
        lemma_iterate_adds(state, i, (j - 1) as nat);
        assert(i + j - 1 == i + (j - 1));
    }
}

/// Every state but the first is below the modulus.
pub proof fn lemma_iterate_in_range(state: u64, n: nat)
    requires
        state < MODULUS,
    ensures
        iterate(state, n) < MODULUS,
    decreases n,
{
    if n > 0 {
        lemma_iterate_in_range(state, (n - 1) as nat);
    }
}

/// The value of `a * x + c` modulo the modulus of the recurrence.
pub open spec fn affine(a: int, c: int, x: int) -> int {
    (a * x + c) % (MODULUS as int)
}

/// One map of this form after another is a map of this form.
proof fn lemma_affine_composes(a1: int, c1: int, a2: int, c2: int, x: int)
    ensures
        affine(a2, c2, affine(a1, c1, x)) == affine(
            (a2 * a1) % (MODULUS as int),
            (a2 * c1 + c2) % (MODULUS as int),
            x,
        ),
{
    let m = MODULUS as int;
    let inner = a1 * x + c1;
    let q = inner / m;
    lemma_fundamental_div_mod(inner, m);
    let y = inner % m;
    let full = a2 * a1 * x + a2 * c1 + c2;
    // The left side is `full` less a multiple of the modulus.
    assert(a2 * y == a2 * (a1 * x) + a2 * c1 - a2 * (m * q)) by (nonlinear_arith)
        requires
            y == a1 * x + c1 - m * q,
    ;
    assert(a2 * (a1 * x) == a2 * a1 * x) by (nonlinear_arith);
    assert(a2 * (m * q) == m * (a2 * q)) by (nonlinear_arith);
    assert(m * (-(a2 * q)) == -(m * (a2 * q))) by (nonlinear_arith);
    assert(a2 * y + c2 == m * (-(a2 * q)) + full);
    lemma_mod_multiples_vanish(-(a2 * q), full, m);
    // So is the right side.
    let r = (a2 * a1) / m;
    let t = (a2 * c1 + c2) / m;
    lemma_fundamental_div_mod(a2 * a1, m);
    lemma_fundamental_div_mod(a2 * c1 + c2, m);
    let a3 = (a2 * a1) % m;
    let c3 = (a2 * c1 + c2) % m;
    assert(a2 * a1 * x == m * (r * x) + a3 * x) by (nonlinear_arith)
        requires
            a2 * a1 == m * r + a3,
    ;
    assert(m * (-(r * x + t)) == -(m * (r * x)) - m * t) by (nonlinear_arith);
    assert(a3 * x + c3 == m * (-(r * x + t)) + full);
    lemma_mod_multiples_vanish(-(r * x + t), full, m);
}

/// The factor of the map that `2^k` steps make.
pub open spec fn doubled_factor(k: nat) -> int
    decreases k,
{
    if k == 0 {
        MULTIPLIER as int
    } else {
        (doubled_factor((k - 1) as nat) * doubled_factor((k - 1) as nat)) % (MODULUS as int)
    }
}

/// The summand of the map that `2^k` steps make.
pub open spec fn doubled_summand(k: nat) -> int
    decreases k,
{
    if k == 0 {
        INCREMENT as int
    } else {
        (doubled_factor((k - 1) as nat) * doubled_summand((k - 1) as nat) + doubled_summand(
            (k - 1) as nat,
        )) % (MODULUS as int)
    }
}

/// `2^k` steps multiply the state by a factor and add a summand.
proof fn lemma_doubled_steps(state: u64, k: nat)
    ensures
        iterate(state, pow2(k)) == affine(doubled_factor(k), doubled_summand(k), state as int),
    decreases k,
{
    lemma2_to64();
    if k == 0 {
        assert(iterate(state, 1) == lcg_step(iterate(state, 0)));
        assert(state * MULTIPLIER == MULTIPLIER * state) by (nonlinear_arith);
    } else {
        let j = (k - 1) as nat;
        let half = pow2(j);
        lemma_pow2_adds(j, 1);
        assert(pow2(k) == half + half);
        lemma_iterate_adds(state, half, half);
        let mid = iterate(state, half);
        lemma_doubled_steps(state, j);
        lemma_doubled_steps(mid, j);
        lemma_affine_composes(
            doubled_factor(j),
            doubled_summand(j),
            doubled_factor(j),
            doubled_summand(j),
            state as int,
        );
    }
}

/// The modulus is the 48th power of two, and so the product of any two
/// powers of two whose exponents add up to 48.
proof fn lemma_modulus_splits(low: nat)
    requires
        low <= 48,
    ensures
        pow2(48) == MODULUS,
        pow2(low) * pow2((48 - low) as nat) == MODULUS,
        pow2(low) > 0,
        pow2((48 - low) as nat) > 0,
        pow2(low) <= MODULUS,
{
    lemma2_to64();
    lemma_pow2_adds(16, 32);
    lemma_pow2_adds(low, (48 - low) as nat);
    lemma_pow2_pos(low);
    lemma_pow2_pos((48 - low) as nat);
    assert(pow2(low) <= pow2(low) * pow2((48 - low) as nat)) by (nonlinear_arith)
        requires
            pow2(low) > 0,
            pow2((48 - low) as nat) > 0,
    ;
}

/// A remainder by the modulus has the remainder of the number itself by any
/// power of two up to the modulus.
proof fn lemma_remainder_of_remainder(x: int, low: nat)
    requires
        low <= 48,
    ensures
        (x % (MODULUS as int)) % (pow2(low) as int) == x % (pow2(low) as int),
{
    lemma_modulus_splits(low);
    lemma_mod_mod(x, pow2(low) as int, pow2((48 - low) as nat) as int);
}

/// The exponent of the power of two modulo which the factor of `2^k` steps
/// is 1.
pub open spec fn factor_exponent(k: nat) -> nat {
    if k + 2 <= 48 {
        k + 2
    } else {
        48
    }
}

/// The factor of `2^k` steps is 1 modulo `2^(k + 2)`, and their summand is
/// `2^k` modulo `2^(k + 1)`.
proof fn lemma_doubled_coefficients(k: nat)
    requires
        k <= 47,
    ensures
        0 <= doubled_factor(k) < MODULUS,
        0 <= doubled_summand(k) < MODULUS,
        doubled_factor(k) % (pow2(factor_exponent(k)) as int) == 1,
        doubled_summand(k) % (pow2(k + 1) as int) == pow2(k),
    decreases k,
{
    lemma2_to64();
    let m = MODULUS as int;
    if k == 0 {
        assert(pow2(factor_exponent(0)) == 4);
        assert(doubled_summand(0) % (pow2(1) as int) == 1);
    } else {
        let j = (k - 1) as nat;
        lemma_doubled_coefficients(j);
        assert(doubled_factor(k) == (doubled_factor(j) * doubled_factor(j)) % m);
        assert(doubled_summand(k) == (doubled_factor(j) * doubled_summand(j) + doubled_summand(j))
            % m);
        let a = doubled_factor(j);
        let c = doubled_summand(j);
        let q = pow2(j) as int;
        let h = pow2(j + 1) as int;
        let p = pow2(factor_exponent(j)) as int;
        lemma_pow2_adds(j, 1);
        lemma_pow2_adds(j + 1, 1);
        lemma_pow2_pos(j);
        lemma_modulus_splits(factor_exponent(j));
        lemma_modulus_splits(factor_exponent(k));
        lemma_modulus_splits(k + 1);
        assert(h == 2 * q);
        let u = a / p;
        lemma_fundamental_div_mod(a, p);
        assert(a == p * u + 1);
        // The summand.
        let i = c / h;
        lemma_fundamental_div_mod(c, h);
        assert(c == h * i + q);
        let next = pow2(k + 1) as int;
        assert(next == 2 * h);
        if j + 2 <= 48 {
            assert(p == 2 * h);
            assert(a * c + c == next * (i + u * c) + h) by (nonlinear_arith)
                requires
                    a == p * u + 1,
                    c == h * i + q,
                    h == 2 * q,
                    p == 2 * h,
                    next == 2 * h,
            ;
        } else {
            assert(a == 1) by {
                lemma_small_mod(a as nat, p as nat);
            }
            assert(a * c + c == next * i + h) by (nonlinear_arith)
                requires
                    a == 1,
                    c == h * i + q,
                    h == 2 * q,
                    next == 2 * h,
            ;
        }
        let moved = if j + 2 <= 48 {
            i + u * c
        } else {
            i
        };
        lemma_mod_multiples_vanish(moved, h, next);
        lemma_small_mod(h as nat, next as nat);
        assert((a * c + c) % next == h);
        lemma_remainder_of_remainder(a * c + c, k + 1);
        // The factor.
        let wide = pow2(factor_exponent(k)) as int;
        if j + 3 <= 48 {
            lemma_pow2_adds(j + 2, 1);
            assert(wide == 2 * p);
            assert(a * a == wide * (u + h * u * u) + 1) by (nonlinear_arith)
                requires
                    a == p * u + 1,
                    p == 2 * h,
                    wide == 2 * p,
            ;
            lemma_mod_multiples_vanish(u + h * u * u, 1, wide);
            lemma_small_mod(1, wide as nat);
        } else {
            assert(p == MODULUS);
            lemma_small_mod(a as nat, p as nat);
            assert(a * a == 1) by (nonlinear_arith)
                requires
                    a == 1,
            ;
            lemma_small_mod(1, wide as nat);
        }
        assert((a * a) % wide == 1);
        lemma_remainder_of_remainder(a * a, factor_exponent(k));
    }
}

/// `2^k` steps move the state by `2^k`, as far as its lowest `k + 1` bits
/// show.
proof fn lemma_doubled_steps_shift(state: u64, k: nat)
    requires
        k <= 47,
    ensures
        iterate(state, pow2(k)) as int % (pow2(k + 1) as int) == (state + pow2(k)) % (pow2(k + 1) as int),
{
    let a = doubled_factor(k);
    let c = doubled_summand(k);
    let x = state as int;
    let q = pow2(k) as int;
    let h = pow2(k + 1) as int;
    let e = factor_exponent(k);
    let p = pow2(e) as int;
    lemma_doubled_steps(state, k);
    lemma_doubled_coefficients(k);
    lemma_modulus_splits(k + 1);
    lemma_modulus_splits(e);
    lemma_pow2_adds(k + 1, (e - (k + 1)) as nat);
    let t = pow2((e - (k + 1)) as nat) as int;
    assert(p == h * t);
    let u = a / p;
    lemma_fundamental_div_mod(a, p);
    let i = c / h;
    lemma_fundamental_div_mod(c, h);
    assert(a * x == p * u * x + x) by (nonlinear_arith)
        requires
            a == p * u + 1,
    ;
    assert(p * u * x == h * (t * u * x)) by (nonlinear_arith)
        requires
            p == h * t,
    ;
    assert(h * (t * u * x + i) == h * (t * u * x) + h * i) by (nonlinear_arith);
    assert(a * x + c == h * (t * u * x + i) + (x + q));
    lemma_mod_multiples_vanish(t * u * x + i, x + q, h);
    lemma_remainder_of_remainder(a * x + c, k + 1);
}

/// `t` times `2^k` steps move the state by `t` times `2^k`, as far as its
/// lowest `k + 1` bits show.
proof fn lemma_many_doubled_steps_shift(state: u64, k: nat, t: nat)
    requires
        k <= 47,
    ensures
        iterate(state, t * pow2(k)) as int % (pow2(k + 1) as int) == (state + t * pow2(k)) % (pow2(
            k + 1,
        ) as int),
    decreases t,
{
    let q = pow2(k);
    let h = pow2(k + 1) as int;
    lemma_modulus_splits(k + 1);
    if t == 0 {
        assert(0 * q == 0);
    } else {
        let before = ((t - 1) as nat) * q;
        assert(t * q == before + q) by (nonlinear_arith)
            requires
                t >= 1,
                before == (t - 1) * q,
        ;
        lemma_many_doubled_steps_shift(state, k, (t - 1) as nat);
        lemma_iterate_adds(state, before, q);
        let mid = iterate(state, before);
        lemma_doubled_steps_shift(mid, k);
        // `mid` and `state + before` agree modulo `h`, and so do both plus `q`.
        let d1 = mid as int / h;
        let d2 = (state + before) / h;
        lemma_fundamental_div_mod(mid as int, h);
        lemma_fundamental_div_mod(state + before, h);
        assert(mid + q == h * (d1 - d2) + (state + before + q)) by (nonlinear_arith)
            requires
                mid == h * d1 + mid as int % h,
                state + before == h * d2 + (state + before) % h,
                mid as int % h == (state + before) % h,
        ;
        lemma_mod_multiples_vanish(d1 - d2, state + before + q, h);
    }
}

/// A state returns to itself, as far as its lowest `k` bits show, only after
/// a multiple of `2^k` steps.
proof fn lemma_return_takes_multiple(state: u64, n: nat, k: nat)
    requires
        k <= 48,
        iterate(state, n) as int % (pow2(k) as int) == state as int % (pow2(k) as int),
    ensures
        n % pow2(k) == 0,
    decreases k,
{
    lemma2_to64();
    if k > 0 {
        let j = (k - 1) as nat;
        let q = pow2(j) as int;
        let h = pow2(k) as int;
        lemma_pow2_adds(j, 1);
        lemma_pow2_pos(j);
        assert(h == q * 2);
        let end = iterate(state, n) as int;
        // The lowest `j` bits return as well.
        lemma_mod_mod(end, q, 2);
        lemma_mod_mod(state as int, q, 2);
        lemma_return_takes_multiple(state, n, j);
        let t = n / (q as nat);
        lemma_fundamental_div_mod(n as int, q);
        assert(n == t * pow2(j)) by (nonlinear_arith)
            requires
                n == q * (n as int / q) + n as int % q,
                n as int % q == 0,
                t == n as int / q,
                q == pow2(j),
                q > 0,
        ;
        lemma_many_doubled_steps_shift(state, j, t);
        assert((state + n) % h == state as int % h);
        // So `t * q` is a multiple of `h`, and `t` is even.
        let d1 = (state + n) / h;
        let d2 = state as int / h;
        lemma_fundamental_div_mod(state + n, h);
        lemma_fundamental_div_mod(state as int, h);
        let s = d1 - d2;
        assert(n == h * s) by (nonlinear_arith)
            requires
                state + n == h * d1 + (state + n) % h,
                state as int == h * d2 + state as int % h,
                (state + n) % h == state as int % h,
                s == d1 - d2,
        ;
        lemma_mod_multiples_vanish(s, 0, h);
    }
}

/// A state below the modulus does not return before `2^48` steps.
pub proof fn lemma_no_early_return(state: u64, n: nat)
    requires
        state < MODULUS,
        0 < n < MODULUS,
    ensures
        iterate(state, n) != state,
{
    if iterate(state, n) == state {
        lemma_modulus_splits(48);
        lemma_return_takes_multiple(state, n, 48);
        lemma_small_mod(n, MODULUS as nat);
    }
}

/// The multiplier's inverse modulo the modulus.
pub const MULTIPLIER_INVERSE: u64 = 0xDFE0_5BCB_1365;

/// Two states below the modulus with the same next state are the same.
pub proof fn lemma_step_is_injective(one: u64, other: u64)
    requires
        one < MODULUS,
        other < MODULUS,
        lcg_step(one) == lcg_step(other),
    ensures
        one == other,
{
    let m = MODULUS as int;
    let a = MULTIPLIER as int;
    let inv = MULTIPLIER_INVERSE as int;
    let w: int = 22050866921;
    assert(inv * a == 1 + m * w);
    let q1 = (one * a + INCREMENT) / m;
    let q2 = (other * a + INCREMENT) / m;
    lemma_fundamental_div_mod(one * a + INCREMENT, m);
    lemma_fundamental_div_mod(other * a + INCREMENT, m);
    let d = one - other;
    assert(a * d == m * (q1 - q2));
    assert(d == m * (inv * (q1 - q2) - w * d)) by (nonlinear_arith)
        requires
            a * d == m * (q1 - q2),
            inv * a == 1 + m * w,
    ;
    let z = inv * (q1 - q2) - w * d;
    assert(z == 0) by (nonlinear_arith)
        requires
            d == m * z,
            -m < d < m,
            m > 0,
    ;
}

/// A state below the modulus is not met twice within `2^48` steps.
pub proof fn lemma_orbit_is_injective(state: u64, i: nat, j: nat)
    requires
        state < MODULUS,
        i < j < MODULUS,
    ensures
        iterate(state, i) != iterate(state, j),
    decreases i,
{
    if iterate(state, i) == iterate(state, j) {
        if i == 0 {
            lemma_no_early_return(state, j);
        } else {
            lemma_iterate_in_range(state, (i - 1) as nat);
            lemma_iterate_in_range(state, (j - 1) as nat);
            lemma_step_is_injective(iterate(state, (i - 1) as nat), iterate(state, (j - 1) as nat));
            lemma_orbit_is_injective(state, (i - 1) as nat, (j - 1) as nat);
        }
    }
}

/// From any state below the modulus every state below the modulus is met
/// within `2^48` steps: the recurrence has one cycle, of full length.
pub proof fn lemma_full_period(state: u64, target: u64)
    requires
        state < MODULUS,
        target < MODULUS,
    ensures
        exists|n: nat| n < MODULUS && iterate(state, n) == target,
{
    let m = MODULUS as int;
    let steps = set_int_range(0, m);
    let met = |n: int| iterate(state, n as nat) as int;
    let states = steps.map(met);
    lemma_int_range(0, m);
    assert forall|i: int, j: int|
        steps.contains(i) && steps.contains(j) && #[trigger] met(i) == #[trigger] met(
            j,
        ) implies i == j by {
        if i < j {
            lemma_orbit_is_injective(state, i as nat, j as nat);
        } else if j < i {
            lemma_orbit_is_injective(state, j as nat, i as nat);
        }
    }
    lemma_map_size(steps, states, met);
    assert forall|x: int| states.contains(x) implies steps.contains(x) by {
        let n = choose|n: int| steps.contains(n) && x == met(n);
        lemma_iterate_in_range(state, n as nat);
    }
    lemma_subset_equality(states, steps);
    assert(steps.contains(target as int));
    assert(states.contains(target as int));
    let n = choose|n: int| steps.contains(n) && target as int == met(n);
    assert((n as nat) < MODULUS && iterate(state, n as nat) == target);
}

/// A rejection sample that meets an unbiased draw within the draws it may
/// make ends with an unbiased draw.
proof fn lemma_sample_ends_unbiased(state: u64, max: u32, retries: nat, n: nat)
    requires
        max > 0,
        1 <= n <= retries + 1,
        unbiased(top_bits(iterate(state, n), 31), max),
    ensures
        unbiased(top_bits(rejection_sample(state, max, retries).0, 31), max),
    decreases retries,
{
    let next = lcg_step(state);
    assert(iterate(state, 1) == lcg_step(iterate(state, 0)));
    if retries == 0 || unbiased(top_bits(next, 31), max) {
    } else {
        lemma_iterate_adds(state, 1, (n - 1) as nat);
        lemma_sample_ends_unbiased(next, max, (retries - 1) as nat, (n - 1) as nat);
    }
}

/// A rejection sample below a bound that 31 bits can hold never uses up its
/// draws: the draw that it ends with is unbiased.
pub proof fn lemma_rejection_ends_unbiased(state: u64, max: u32)
    requires
        0 < max < 0x8000_0000,
    ensures
        unbiased(top_bits(rejection_sample(state, max, DRAW_LIMIT as nat).0, 31), max),
{
    let first = lcg_step(state);
    lemma_full_period(first, 0);
    let n = choose|n: nat| n < MODULUS && iterate(first, n) == 0;
    assert(iterate(state, 1) == lcg_step(iterate(state, 0)));
    lemma_iterate_adds(state, 1, n);
    lemma2_to64();
    assert(top_bits(0, 31) == 0) by {
        lemma_pow2_pos(17);
    }
    lemma_sample_ends_unbiased(state, max, DRAW_LIMIT as nat, 1 + n);
}

} // verus!
