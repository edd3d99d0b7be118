//! A linear congruential generator with a 48-bit state.
//!
//! The generator is fast and of modest quality. Every draw is a function of
//! the state alone, so the contracts below give each result exactly.

use vstd::prelude::*;
use vstd::arithmetic::power2::*;
use std::time::{Duration, SystemTime, SystemTimeError};
use crate::period::lemma_rejection_ends_unbiased;

verus! {

/// The multiplier of the recurrence.
pub const MULTIPLIER: u64 = 0x5DEECE66D;

/// The increment of the recurrence.
pub const INCREMENT: u64 = 0xB;

/// The modulus of the recurrence, `2^48`.
pub const MODULUS: u64 = 0x1_0000_0000_0000;

/// The state that follows `state`.
pub open spec fn lcg_step(state: u64) -> u64 {
    ((state * MULTIPLIER + INCREMENT) % (MODULUS as int)) as u64
}

/// The `bits` highest bits of a 48-bit state, as a number.
pub open spec fn top_bits(state: u64, bits: u8) -> int {
    state as int / pow2((48 - bits) as nat) as int
}

/// After this many rejected draws a rejection sample takes the next draw as
/// it comes. It is the period of the recurrence: a sample that has made so
/// many draws has seen every state. Below a bound that 31 bits can hold some
/// state gives an unbiased draw, so the limit is never reached there. Above
/// such a bound no draw is unbiased, and the limit is what ends the sample.
pub const DRAW_LIMIT: u64 = 0x1_0000_0000_0000;

/// A 31-bit draw scaled down to `[0, max)`, for `max` a power of two.
pub open spec fn scaled(bits: int, max: u32) -> int {
    (max * bits) / 0x8000_0000
}

/// Whether a 31-bit draw lies below the largest multiple of `max` that 31
/// bits can hold, so that its remainder by `max` favours no value.
pub open spec fn unbiased(bits: int, max: u32) -> bool {
    bits - bits % (max as int) + max <= 0x7FFF_FFFF
}

/// The state and the value that rejection sampling below `max` ends with,
/// when it may reject `retries` draws.
pub open spec fn rejection_sample(state: u64, max: u32, retries: nat) -> (u64, u32)
    decreases retries,
{
    let next = lcg_step(state);
    let bits = top_bits(next, 31);
    if retries == 0 || unbiased(bits, max) {
        (next, (bits % (max as int)) as u32)
    } else {
        rejection_sample(next, max, (retries - 1) as nat)
    }
}

/// The state and the value that a draw below `max` ends with.
pub open spec fn draw_below(state: u64, max: u32) -> (u64, u32) {
    if max == 0 || is_pow2(max as int) {
        let next = lcg_step(state);
        (next, scaled(top_bits(next, 31), max) as u32)
    } else {
        rejection_sample(state, max, DRAW_LIMIT as nat)
    }
}

#[verifier::external_type_specification]
#[verifier::external_body]
pub struct ExSystemTime(SystemTime);

#[verifier::external_type_specification]
#[verifier::external_body]
pub struct ExSystemTimeError(SystemTimeError);

/// `SystemTime::now` reads the system clock. Nothing is claimed of the
/// reading: two calls may give any two values.
pub assume_specification[ SystemTime::now ]() -> (now: SystemTime)
;

/// `SystemTime::duration_since`, asked for the time from the Unix epoch to
/// `time`. It gives an error where `time` lies before the epoch. Which of the
/// two comes back, and what the duration is, is left open.
#[verifier::external_body]
fn since_epoch(time: &SystemTime) -> (elapsed: Result<Duration, SystemTimeError>) {
    time.duration_since(std::time::UNIX_EPOCH)
}

/// `Duration::as_nanos` gives a duration in whole nanoseconds. Nothing is
/// claimed of the number.
pub assume_specification[ Duration::as_nanos ](elapsed: &Duration) -> (nanos: u128)
;

/// The generator. Its view is its state: any number at first, and a number
/// below the modulus after the first step.
pub struct Rng {
    seed: u64,
}

impl View for Rng {
    type V = u64;

    closed spec fn view(&self) -> u64 {
        self.seed
    }
}

proof fn lemma_mask_is_remainder(w: u64)
    by (bit_vector)
    ensures
        w & 0xFFFF_FFFF_FFFFu64 == w % 0x1_0000_0000_0000u64,
{
}

/// The `bits` highest bits of a 48-bit state fit in `bits` bits.
proof fn lemma_top_bits_bound(state: u64, bits: u8)
    requires
        state < MODULUS,
        1 <= bits <= 48,
    ensures
        0 <= top_bits(state, bits) < pow2(bits as nat),
{
    let low = (48 - bits) as nat;
    lemma_pow2_adds(low, bits as nat);
    lemma_pow2_adds(16, 32);
    lemma2_to64();
    lemma_pow2_pos(low);
    assert(state as int / pow2(low) as int >= 0) by (nonlinear_arith)
        requires
            state >= 0,
            pow2(low) > 0,
    ;
    assert((state as int) / (pow2(low) as int) < pow2(bits as nat)) by (nonlinear_arith)
        requires
            state < pow2(low) * pow2(bits as nat),
            pow2(low) > 0,
    ;
}

/// Multiplying and adding with wrap-around and keeping the low 48 bits gives
/// the recurrence's next state.
proof fn lemma_wrapped_step(state: u64, product: u64, sum: u64)
    requires
        product == (state as nat * MULTIPLIER as nat) % 0x1_0000_0000_0000_0000,
        sum == if product + INCREMENT > u64::MAX {
            product + INCREMENT - 0x1_0000_0000_0000_0000
        } else {
            product + INCREMENT
        },
    ensures
        sum % MODULUS == lcg_step(state),
{
    let exact: int = state as int * MULTIPLIER as int;
    let q: int = exact / 0x1_0000_0000_0000_0000;
    vstd::arithmetic::div_mod::lemma_fundamental_div_mod(exact, 0x1_0000_0000_0000_0000);
    let carry: int = if product + INCREMENT > u64::MAX { 1 } else { 0 };
    let a: int = (q + carry) * 0x1_0000;
    assert(exact + INCREMENT == 0x1_0000_0000_0000 * a + sum);
    vstd::arithmetic::div_mod::lemma_mod_multiples_vanish(a, sum as int, 0x1_0000_0000_0000);
}

proof fn lemma_halving_keeps_single_bit(n: u32)
    by (bit_vector)
    requires
        n > 1,
    ensures
        (n & ((n - 1) as u32) == 0) <==> (n % 2 == 0 && (n / 2) & ((n / 2 - 1) as u32) == 0),
{
}

/// A positive number shares no bit with its predecessor exactly when it is a
/// power of two.
proof fn lemma_single_bit_is_pow2(n: u32)
    requires
        n > 0,
    ensures
        (n & ((n - 1) as u32) == 0) <==> is_pow2(n as int),
    decreases n,
{
    reveal_with_fuel(is_pow2, 2);
    if n == 1 {
        assert(1u32 & 0u32 == 0) by (bit_vector);
    } else {
        lemma_halving_keeps_single_bit(n);
        lemma_single_bit_is_pow2(n / 2);
    }
}

/// A scaled draw is below `max`.
pub proof fn lemma_scaled_in_range(bits: int, max: u32)
    requires
        0 <= bits < 0x8000_0000,
    ensures
        0 <= scaled(bits, max),
        max > 0 ==> scaled(bits, max) < max,
        max == 0 ==> scaled(bits, max) == 0,
{
    assert(0 <= max * bits <= max * 0x7FFF_FFFF) by (nonlinear_arith)
        requires
            0 <= bits <= 0x7FFF_FFFF,
            0 <= max,
    ;
}

/// The unbiased draws are those below the last multiple of `max` that 31 bits
/// can hold, less one: below it every remainder by `max` comes equally often.
pub proof fn lemma_unbiased_is_below_last_multiple(bits: int, max: u32)
    requires
        0 <= bits < 0x8000_0000,
        max > 0,
    ensures
        unbiased(bits, max) <==> bits < (0x7FFF_FFFFint / (max as int)) * max,
{
    let m = max as int;
    let q = bits / m;
    let k = 0x7FFF_FFFFint / m;
    vstd::arithmetic::div_mod::lemma_fundamental_div_mod(bits, m);
    vstd::arithmetic::div_mod::lemma_fundamental_div_mod(0x7FFF_FFFF, m);
    assert(0 <= bits % m < m && 0 <= 0x7FFF_FFFFint % m < m) by (nonlinear_arith)
        requires
            m > 0,
    ;
    if q < k {
        assert(m * q + m <= m * k) by (nonlinear_arith)
            requires
                q + 1 <= k,
                m > 0,
        ;
        assert(bits < k * m) by (nonlinear_arith)
            requires
                bits == m * q + bits % m,
                bits % m < m,
                m * q + m <= m * k,
        ;
    } else {
        assert(m * q >= m * k) by (nonlinear_arith)
            requires
                q >= k,
                m > 0,
        ;
    }
}

/// A draw below a positive `max` is below `max`, and a draw below zero is zero.
pub proof fn lemma_draw_below_in_range(state: u64, max: u32)
    ensures
        max > 0 ==> draw_below(state, max).1 < max,
        max == 0 ==> draw_below(state, max).1 == 0,
        draw_below(state, max).0 < MODULUS,
{
    if max == 0 || is_pow2(max as int) {
        lemma_top_bits_bound(lcg_step(state), 31);
        lemma2_to64();
        lemma_scaled_in_range(top_bits(lcg_step(state), 31), max);
    } else {
        lemma_rejection_sample_in_range(state, max, DRAW_LIMIT as nat);
    }
}

/// Rejection sampling below a positive `max` ends with a value below `max`.
pub proof fn lemma_rejection_sample_in_range(state: u64, max: u32, retries: nat)
    requires
        max > 0,
    ensures
        rejection_sample(state, max, retries).1 < max,
        rejection_sample(state, max, retries).0 < MODULUS,
    decreases retries,
{
    let next = lcg_step(state);
    let bits = top_bits(next, 31);
    lemma_top_bits_bound(next, 31);
    lemma2_to64();
    if retries == 0 || unbiased(bits, max) {
    } else {
        lemma_rejection_sample_in_range(next, max, (retries - 1) as nat);
    }
}

/// The low 32 bits of a length: the bound with which a position below the
/// length is drawn.
pub open spec fn draw_bound(len: nat) -> u32 {
    (len % 0x1_0000_0000) as u32
}

/// The low 32 bits of `n`.
pub fn low_u32(n: usize) -> (low: u32)
    ensures
        low == draw_bound(n as nat),
{
    let wide: u64 = n as u64;
    assert(wide & 0xFFFF_FFFFu64 == wide % 0x1_0000_0000u64) by (bit_vector);
    (wide & 0xFFFF_FFFF) as u32
}

/// A position drawn with the bound of a positive length lies below the
/// length.
pub proof fn lemma_drawn_position_in_range(state: u64, len: nat)
    requires
        len > 0,
    ensures
        draw_below(state, draw_bound(len)).1 < len,
{
    lemma_draw_below_in_range(state, draw_bound(len));
}

/// Whether `n` is zero or a power of two.
pub fn is_pow_of_two_or_zero(n: u32) -> (r: bool)
    ensures
        r == (n == 0 || is_pow2(n as int)),
{
    if n == 0 {
        true
    } else {
        proof {
            lemma_single_bit_is_pow2(n);
        }
        n & (n - 1) == 0
    }
}

impl Rng {
    /// A generator that starts from `seed`.
    pub fn with_seed(seed: u64) -> (rng: Rng)
        ensures
            rng@ == seed,
    {
        Rng { seed }
    }

    /// A generator that starts from the system clock: from the nanoseconds
    /// since the Unix epoch, cut to 64 bits, or from zero where the clock
    /// stands before the epoch.
    pub fn seeded() -> (rng: Rng) {
        let now = SystemTime::now();
        let reading: Option<u128> = match since_epoch(&now) {
            Ok(elapsed) => Some(elapsed.as_nanos()),
            Err(_) => None,
        };
        Rng::from_reading(reading)
    }

    /// A generator that starts from the low 64 bits of `nanos`.
    pub fn from_nanos(nanos: u128) -> (rng: Rng)
        ensures
            rng@ == nanos % 0x1_0000_0000_0000_0000,
    {
        assert(nanos & 0xFFFF_FFFF_FFFF_FFFFu128 == nanos % 0x1_0000_0000_0000_0000u128) by (bit_vector);
        Rng::with_seed((nanos & 0xFFFF_FFFF_FFFF_FFFF) as u64)
    }

    /// The state that a reading of the clock seeds: the low 64 bits of the
    /// nanoseconds since the Unix epoch, and zero where the clock stands
    /// before the epoch and so gives no such number.
    pub open spec fn clock_seed(reading: Option<u128>) -> u64 {
        match reading {
            Some(nanos) => (nanos % 0x1_0000_0000_0000_0000) as u64,
            None => 0,
        }
    }

    /// A generator that starts from a reading of the clock, whatever the
    /// reading is.
    pub fn from_reading(reading: Option<u128>) -> (rng: Rng)
        ensures
            rng@ == Self::clock_seed(reading),
    {
        match reading {
            Some(nanos) => Rng::from_nanos(nanos),
            None => Rng::with_seed(0),
        }
    }

    /// Advances the state once and returns its `bits` highest bits.
    pub fn next(&mut self, bits: u8) -> (r: u32)
        requires
            1 <= bits <= 32,
        ensures
            final(self)@ == lcg_step(old(self)@),
            r == top_bits(final(self)@, bits),
            r < pow2(bits as nat),
    {
        let product: u64 = self.seed.wrapping_mul(MULTIPLIER);
        let sum: u64 = product.wrapping_add(INCREMENT);
        let stepped: u64 = sum & (MODULUS - 1);
        let shift: u8 = 48 - bits;
        let top: u64 = stepped >> shift;
        proof {
            lemma_mask_is_remainder(sum);
            lemma_wrapped_step(self.seed, product, sum);
            vstd::bits::lemma_u64_shr_is_div(stepped, shift as u64);
            lemma_top_bits_bound(stepped, bits);
            lemma_pow2_strictly_increases(bits as nat, 33);
            lemma_pow2_adds(1, 32);
            lemma2_to64();
        }
        self.seed = stepped;
        top as u32
    }

    /// Draws a number below `max`: by scaling one 31-bit draw where `max` is
    /// zero or a power of two, and else by rejection sampling, which draws
    /// again while the draw is biased. Below a bound that 31 bits can hold
    /// the sample ends with an unbiased draw.
    pub fn next_u32_n(&mut self, max: u32) -> (r: u32)
        ensures
            (final(self)@, r) == draw_below(old(self)@, max),
            max > 0 ==> r < max,
            max == 0 ==> r == 0,
            0 < max < 0x8000_0000 && !is_pow2(max as int) ==> unbiased(
                top_bits(final(self)@, 31),
                max,
            ),
    {
        let ghost goal = draw_below(self@, max);
        proof {
            lemma_draw_below_in_range(self@, max);
            lemma2_to64();
            if 0 < max < 0x8000_0000 {
                lemma_rejection_ends_unbiased(self@, max);
            }
        }
        if is_pow_of_two_or_zero(max) {
            let bits: u32 = self.next(31);
            assert(max * bits <= 0xFFFF_FFFF * 0x7FFF_FFFF) by (nonlinear_arith)
                requires
                    0 <= max <= 0xFFFF_FFFF,
                    0 <= bits <= 0x7FFF_FFFF,
            ;
            let product: u64 = (max as u64) * (bits as u64);
            proof {
                vstd::bits::lemma_u64_shr_is_div(product, 31);
                lemma_scaled_in_range(bits as int, max);
            }
            return (product >> 31u64) as u32;
        }
        let mut retries: u64 = DRAW_LIMIT;
        loop
            invariant
                max > 0,
                goal == draw_below(old(self)@, max),
                rejection_sample(self@, max, retries as nat) == goal,
                goal.1 < max,
                0 < max < 0x8000_0000 && !is_pow2(max as int) ==> unbiased(
                    top_bits(goal.0, 31),
                    max,
                ),
            decreases retries,
        {
            let bits: u32 = self.next(31);
            let val: u32 = bits % max;
            assert(val <= bits) by (nonlinear_arith)
                requires
                    val == bits % max,
                    max > 0,
            ;
            let spread: u64 = (bits as u64) - (val as u64) + (max as u64);
            if retries == 0 || spread <= 0x7FFF_FFFF {
                return val;
            }
            retries = retries - 1;
        }
    }
}

} // verus!
