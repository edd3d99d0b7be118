//! What a cell holds, and how a colour drifts from a cell to the cell that
//! grows out of it.

use vstd::prelude::*;
use crate::my_rng::{draw_below, Rng};

verus! {

/// A cell is empty, or filled with a colour.
#[derive(Clone, Copy, Debug, PartialEq, Eq, Structural)]
pub enum State {
    Empty,
    Filled { r: u8, g: u8, b: u8 },
}

/// A colour for display: red, green, blue and opacity.
#[derive(Clone, Copy, Debug, PartialEq, Eq, Structural)]
pub struct Color {
    pub r: u8,
    pub g: u8,
    pub b: u8,
    pub a: u8,
}

/// The lowest value of a channel of a fresh colour.
pub const FRESH_FLOOR: u8 = 50;

/// The number of values that a channel of a fresh colour can take.
pub const FRESH_WIDTH: u32 = 150;

/// `v` brought into the range of a channel.
pub open spec fn clamp_channel(v: int) -> u8 {
    if v < 0 {
        0
    } else if v > 255 {
        255
    } else {
        v as u8
    }
}

/// The generator state and the channel that a drift of at most `step` from
/// `value` ends with: one draw from `[0, 2 * step]`, less `step`, is added.
pub open spec fn drifted_channel(state: u64, step: i32, value: u8) -> (u64, u8) {
    let (next, draw) = draw_below(state, (2 * step + 1) as u32);
    (next, clamp_channel(value + draw - step))
}

/// The generator state and the colour that a drift of at most `step` in each
/// channel of `(r, g, b)` ends with. Red is drawn first, then green, then blue.
pub open spec fn drifted_colour(state: u64, step: i32, r: u8, g: u8, b: u8) -> (u64, State) {
    let (after_r, new_r) = drifted_channel(state, step, r);
    let (after_g, new_g) = drifted_channel(after_r, step, g);
    let (after_b, new_b) = drifted_channel(after_g, step, b);
    (after_b, State::Filled { r: new_r, g: new_g, b: new_b })
}

/// The generator state and the cell that grows out of `parent`: a cell with
/// the parent's colour after a drift of at most `step` in each channel. An
/// empty parent has no colour to pass on.
pub open spec fn drifted_state(state: u64, step: i32, parent: State) -> (u64, State) {
    match parent {
        State::Empty => (state, State::Empty),
        State::Filled { r, g, b } => drifted_colour(state, step, r, g, b),
    }
}

/// The generator state and the channel that a fresh colour's draw ends with.
pub open spec fn fresh_channel(state: u64) -> (u64, u8) {
    let (next, draw) = draw_below(state, FRESH_WIDTH);
    (next, (FRESH_FLOOR + draw) as u8)
}

/// The generator state and the fresh colour that three draws end with. Red
/// is drawn first, then green, then blue.
pub open spec fn fresh_colour(state: u64) -> (u64, State) {
    let (after_r, r) = fresh_channel(state);
    let (after_g, g) = fresh_channel(after_r);
    let (after_b, b) = fresh_channel(after_g);
    (after_b, State::Filled { r, g, b })
}

impl State {
    /// Whether the cell is empty.
    pub open spec fn is_empty(self) -> bool {
        self == State::Empty
    }

    /// Whether the cell is filled.
    pub open spec fn is_filled(self) -> bool {
        self != State::Empty
    }

    fn fresh_single(rng: &mut Rng) -> (channel: u8)
        ensures
            (final(rng)@, channel) == fresh_channel(old(rng)@),
            FRESH_FLOOR <= channel < FRESH_FLOOR + FRESH_WIDTH,
    {
        let draw: u32 = rng.next_u32_n(FRESH_WIDTH);
        FRESH_FLOOR + (draw as u8)
    }

    /// A filled cell of a fresh colour, each channel drawn from `[50, 200)`
    /// so that no colour is dark.
    pub fn random_filled(rng: &mut Rng) -> (state: State)
        ensures
            (final(rng)@, state) == fresh_colour(old(rng)@),
            state matches State::Filled { r, g, b } && 50 <= r < 200 && 50 <= g < 200 && 50 <= b
                < 200,
    {
        let r: u8 = Self::fresh_single(rng);
        let g: u8 = Self::fresh_single(rng);
        let b: u8 = Self::fresh_single(rng);
        State::Filled { r, g, b }
    }

    /// Moves one channel by a random amount of at most `color_step` up or
    /// down, and keeps it in range.
    pub fn rand_step_single(rng: &mut Rng, color_step: i32, val: u8) -> (channel: u8)
        requires
            color_step >= 0,
        ensures
            (final(rng)@, channel) == drifted_channel(old(rng)@, color_step, val),
            0 <= channel <= 255,
            val - color_step <= channel <= val + color_step,
    {
        let width: u32 = 2 * (color_step as u32) + 1;
        let draw: u32 = rng.next_u32_n(width);
        let moved: i64 = (val as i64) + (draw as i64) - (color_step as i64);
        if moved < 0 {
            0
        } else if moved > 255 {
            255
        } else {
            moved as u8
        }
    }

    /// The colour of a cell that grows out of this one: each channel moved by
    /// a random amount of at most `color_step`.
    pub fn rand_step(self, rng: &mut Rng, color_step: i32) -> (state: State)
        requires
            self.is_filled(),
            color_step >= 0,
        ensures
            (final(rng)@, state) == drifted_state(old(rng)@, color_step, self),
            state.is_filled(),
    {
        match self {
            State::Empty => State::Empty,
            State::Filled { r, g, b } => {
                let new_r: u8 = Self::rand_step_single(rng, color_step, r);
                let new_g: u8 = Self::rand_step_single(rng, color_step, g);
                let new_b: u8 = Self::rand_step_single(rng, color_step, b);
                State::Filled { r: new_r, g: new_g, b: new_b }
            },
        }
    }

    /// The colour to show for the cell: black where it is empty, its own
    /// colour where it is filled, opaque in both cases.
    pub fn to_color(self) -> (color: Color)
        ensures
            color == match self {
                State::Empty => (Color { r: 0, g: 0, b: 0, a: 255 }),
                State::Filled { r, g, b } => (Color { r, g, b, a: 255 }),
            },
    {
        match self {
            State::Empty => Color { r: 0, g: 0, b: 0, a: 255 },
            State::Filled { r, g, b } => Color { r, g, b, a: 255 },
        }
    }
}

} // verus!
