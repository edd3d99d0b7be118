//! The grid and its border as values: what a write does to a grid, which
//! cells are on its border, and what one attempt to grow ends with.
//!
//! A cell is on the border where it is filled and has an empty cell among its
//! four neighbours. The frontier holds the cells of the border under keys, in
//! an order that the changes of the frontier decide.

use vstd::prelude::*;
use crate::bijective_finite_sequence::{inserted, removed};
use crate::my_rng::{draw_below, draw_bound, lcg_step, top_bits};
use crate::state::{drifted_state, fresh_colour, State};

verus! {

/// The factor by which a row enters the key of a cell.
pub const KEY_STRIDE: u128 = 0x1_0000_0000_0000_0000;

/// The key under which the frontier holds the cell at `(row, col)`.
pub open spec fn cell_key(row: int, col: int) -> int {
    row * 0x1_0000_0000_0000_0000 + col
}

/// The row of the cell with the key `key`.
pub open spec fn key_row(key: u128) -> int {
    key as int / 0x1_0000_0000_0000_0000
}

/// The column of the cell with the key `key`.
pub open spec fn key_col(key: u128) -> int {
    key as int % 0x1_0000_0000_0000_0000
}

/// The neighbour of `(row, col)` in one of the four directions: 0 is one
/// column on, 1 one row on, 2 one column back, 3 one row back.
pub open spec fn neighbour(row: int, col: int, direction: int) -> (int, int) {
    if direction == 0 {
        (row, col + 1)
    } else if direction == 1 {
        (row + 1, col)
    } else if direction == 2 {
        (row, col - 1)
    } else {
        (row - 1, col)
    }
}

/// A grid of `size` rows and columns with every cell empty.
pub open spec fn blank(size: nat) -> Seq<Seq<State>> {
    Seq::new(size, |row: int| Seq::new(size, |col: int| State::Empty))
}

/// The grid with `state` written to the cell at `(row, col)`.
pub open spec fn planted(grid: Seq<Seq<State>>, row: int, col: int, state: State) -> Seq<
    Seq<State>,
> {
    grid.update(row, grid[row].update(col, state))
}

/// Whether `grid` has as many columns in each row as it has rows.
pub open spec fn is_square(grid: Seq<Seq<State>>) -> bool {
    forall|row: int| 0 <= row < grid.len() ==> (#[trigger] grid[row]).len() == grid.len()
}

/// Whether `(row, col)` is a cell of `grid`.
pub open spec fn in_grid(grid: Seq<Seq<State>>, row: int, col: int) -> bool {
    0 <= row < grid.len() && 0 <= col < grid.len()
}

/// Whether `(row, col)` is a cell of `grid` and empty.
pub open spec fn empty_at(grid: Seq<Seq<State>>, row: int, col: int) -> bool {
    in_grid(grid, row, col) && grid[row][col].is_empty()
}

/// Whether `(row, col)` is a cell of `grid` that is filled and has an empty
/// cell among its four neighbours. A neighbour outside the grid is no cell,
/// and so not an empty one.
pub open spec fn on_border_at(grid: Seq<Seq<State>>, row: int, col: int) -> bool {
    &&& in_grid(grid, row, col)
    &&& grid[row][col].is_filled()
    &&& (empty_at(grid, row, col + 1) || empty_at(grid, row + 1, col) || empty_at(
        grid,
        row,
        col - 1,
    ) || empty_at(grid, row - 1, col))
}

/// Whether each key is that of a cell of `grid`.
pub open spec fn keys_in_grid(keys: Seq<u128>, grid: Seq<Seq<State>>) -> bool {
    forall|k: int|
        0 <= k < keys.len() ==> in_grid(grid, key_row(#[trigger] keys[k]), key_col(keys[k]))
}

/// Whether the key of `(row, col)` is among the keys exactly when the cell
/// is on the border of `grid`.
pub open spec fn settled(keys: Seq<u128>, grid: Seq<Seq<State>>, row: int, col: int) -> bool {
    keys.contains(cell_key(row, col) as u128) <==> on_border_at(grid, row, col)
}

/// Whether the key of `(row, col)` is among the keys if the cell is on the
/// border of `grid`. It may be among them without that.
pub open spec fn covered(keys: Seq<u128>, grid: Seq<Seq<State>>, row: int, col: int) -> bool {
    on_border_at(grid, row, col) ==> keys.contains(cell_key(row, col) as u128)
}

/// Whether the keys are those of the cells of `grid` that are on its border:
/// each key is that of a cell, and a cell's key is among them exactly when the
/// cell is on the border.
pub open spec fn marks_border(keys: Seq<u128>, grid: Seq<Seq<State>>) -> bool {
    &&& keys_in_grid(keys, grid)
    &&& forall|row: int, col: int|
        in_grid(grid, row, col) ==> #[trigger] settled(keys, grid, row, col)
}

/// The cells that the keys stand for, in the keys' order.
pub open spec fn cells_of(keys: Seq<u128>) -> Seq<(int, int)> {
    Seq::new(keys.len(), |k: int| (key_row(keys[k]), key_col(keys[k])))
}

/// The keys after a look at `(row, col)`: where that is a cell of the grid,
/// its key joins if the cell is on the border and leaves if it is not.
pub open spec fn settle_keys(keys: Seq<u128>, grid: Seq<Seq<State>>, row: int, col: int) -> Seq<
    u128,
> {
    if !in_grid(grid, row, col) {
        keys
    } else if on_border_at(grid, row, col) {
        inserted(keys, cell_key(row, col) as u128)
    } else {
        removed(keys, cell_key(row, col) as u128)
    }
}

/// The keys after a write to `(row, col)` that gave the grid `grid`: the
/// cell is looked at first, then its neighbours one column on, one row on,
/// one column back and one row back.
pub open spec fn seed_keys(keys: Seq<u128>, grid: Seq<Seq<State>>, row: int, col: int) -> Seq<
    u128,
> {
    let own = settle_keys(keys, grid, row, col);
    let first = settle_keys(own, grid, row, col + 1);
    let second = settle_keys(first, grid, row + 1, col);
    let third = settle_keys(second, grid, row, col - 1);
    settle_keys(third, grid, row - 1, col)
}

/// The keys after a look at a neighbour of a cell that was just filled:
/// where the neighbour is a cell of the grid and not on the border, its key
/// leaves.
pub open spec fn release_keys(keys: Seq<u128>, grid: Seq<Seq<State>>, row: int, col: int) -> Seq<
    u128,
> {
    if in_grid(grid, row, col) && !on_border_at(grid, row, col) {
        removed(keys, cell_key(row, col) as u128)
    } else {
        keys
    }
}

/// The keys after the empty cell at `(row, col)` was filled, which gave the
/// grid `grid`: its four neighbours are looked at in the order of the
/// directions, and then its own key joins where it is on the border.
pub open spec fn fill_keys(keys: Seq<u128>, grid: Seq<Seq<State>>, row: int, col: int) -> Seq<
    u128,
> {
    let first = release_keys(keys, grid, row, col + 1);
    let second = release_keys(first, grid, row + 1, col);
    let third = release_keys(second, grid, row, col - 1);
    let fourth = release_keys(third, grid, row - 1, col);
    if on_border_at(grid, row, col) {
        inserted(fourth, cell_key(row, col) as u128)
    } else {
        fourth
    }
}

/// The keys of `(row, col)` and of its four neighbours.
pub open spec fn is_near_key(x: u128, row: int, col: int) -> bool {
    ||| x == cell_key(row, col)
    ||| x == cell_key(row, col + 1)
    ||| x == cell_key(row + 1, col)
    ||| x == cell_key(row, col - 1)
    ||| x == cell_key(row - 1, col)
}

/// Writing to a cell changes the place on the border of that cell and of its
/// four neighbours at most.
pub proof fn lemma_border_is_local(
    grid: Seq<Seq<State>>,
    row: int,
    col: int,
    state: State,
    r: int,
    c: int,
)
    requires
        is_square(grid),
        in_grid(grid, row, col),
        in_grid(grid, r, c),
        !is_near_key(cell_key(r, c) as u128, row, col),
        grid.len() <= usize::MAX,
    ensures
        on_border_at(planted(grid, row, col, state), r, c) == on_border_at(grid, r, c),
{
    let after = planted(grid, row, col, state);
    assert(forall|i: int, j: int|
        in_grid(grid, i, j) && !(i == row && j == col) ==> after[i][j] == grid[i][j]);
}

/// After a write to `(row, col)`, keys that hold that cell and its four
/// neighbours as the new grid asks, and every other cell as before, are the
/// keys of the new grid's border.
pub proof fn lemma_settled_near_is_settled(
    old_keys: Seq<u128>,
    keys: Seq<u128>,
    old_grid: Seq<Seq<State>>,
    row: int,
    col: int,
    state: State,
)
    requires
        is_square(old_grid),
        old_grid.len() <= usize::MAX,
        in_grid(old_grid, row, col),
        marks_border(old_keys, old_grid),
        forall|x: u128|
            !is_near_key(x, row, col) ==> (#[trigger] keys.contains(x) <==> old_keys.contains(x)),
        forall|r: int, c: int|
            in_grid(old_grid, r, c) && is_near_key(cell_key(r, c) as u128, row, col)
                ==> #[trigger] settled(keys, planted(old_grid, row, col, state), r, c),
    ensures
        forall|r: int, c: int|
            in_grid(old_grid, r, c) ==> #[trigger] settled(
                keys,
                planted(old_grid, row, col, state),
                r,
                c,
            ),
{
    let grid = planted(old_grid, row, col, state);
    assert forall|r: int, c: int| in_grid(old_grid, r, c) implies #[trigger] settled(
        keys,
        grid,
        r,
        c,
    ) by {
        if !is_near_key(cell_key(r, c) as u128, row, col) {
            lemma_border_is_local(old_grid, row, col, state, r, c);
            assert(settled(old_keys, old_grid, r, c));
        }
    }
}

/// Filling an empty cell puts no other cell on the border.
pub proof fn lemma_filling_shrinks_border(
    grid: Seq<Seq<State>>,
    row: int,
    col: int,
    colour: State,
    r: int,
    c: int,
)
    requires
        is_square(grid),
        empty_at(grid, row, col),
        colour.is_filled(),
        in_grid(grid, r, c),
        !(r == row && c == col),
    ensures
        on_border_at(planted(grid, row, col, colour), r, c) ==> on_border_at(grid, r, c),
{
    let after = planted(grid, row, col, colour);
    assert(forall|i: int, j: int|
        in_grid(grid, i, j) && !(i == row && j == col) ==> after[i][j] == grid[i][j]);
}

/// After an empty cell was filled, the keys of the old border still hold
/// every other cell that is on the new border, and do not hold the cell that
/// was filled.
pub proof fn lemma_filling_keeps_covered(
    keys: Seq<u128>,
    grid: Seq<Seq<State>>,
    row: int,
    col: int,
    colour: State,
)
    requires
        is_square(grid),
        grid.len() <= usize::MAX,
        empty_at(grid, row, col),
        colour.is_filled(),
        marks_border(keys, grid),
    ensures
        !keys.contains(cell_key(row, col) as u128),
        forall|r: int, c: int|
            in_grid(grid, r, c) && !(r == row && c == col) ==> #[trigger] covered(
                keys,
                planted(grid, row, col, colour),
                r,
                c,
            ),
{
    assert(settled(keys, grid, row, col));
    assert forall|r: int, c: int| in_grid(grid, r, c) && !(r == row && c == col) implies #[trigger] covered(
        keys,
        planted(grid, row, col, colour),
        r,
        c,
    ) by {
        lemma_filling_shrinks_border(grid, row, col, colour, r, c);
        assert(settled(keys, grid, r, c));
    }
}

/// Whether no cell of `grid` is on its border.
pub open spec fn is_enclosed(grid: Seq<Seq<State>>) -> bool {
    forall|row: int, col: int| in_grid(grid, row, col) ==> !#[trigger] on_border_at(grid, row, col)
}

/// Keys that mark the border of a grid are none exactly when no cell is on
/// the border.
pub proof fn lemma_no_keys_is_enclosed(keys: Seq<u128>, grid: Seq<Seq<State>>)
    requires
        marks_border(keys, grid),
        grid.len() <= usize::MAX,
    ensures
        keys.len() == 0 <==> is_enclosed(grid),
{
    if keys.len() == 0 {
        assert forall|row: int, col: int| in_grid(grid, row, col) implies !#[trigger] on_border_at(
            grid,
            row,
            col,
        ) by {
            assert(settled(keys, grid, row, col));
        }
    } else {
        let key = keys[0];
        assert(settled(keys, grid, key_row(key), key_col(key)));
    }
}

/// A grid with a filled cell and no cell on its border is full: growth that
/// has come to its end from a seed has filled every cell.
pub proof fn lemma_enclosed_grid_is_full(
    grid: Seq<Seq<State>>,
    seed_row: int,
    seed_col: int,
    row: int,
    col: int,
)
    requires
        is_square(grid),
        is_enclosed(grid),
        in_grid(grid, seed_row, seed_col),
        grid[seed_row][seed_col].is_filled(),
        in_grid(grid, row, col),
    ensures
        grid[row][col].is_filled(),
    decreases vstd::math::abs(row - seed_row) + vstd::math::abs(col - seed_col),
{
    if row != seed_row {
        let nearer = if row < seed_row {
            row + 1
        } else {
            row - 1
        };
        lemma_enclosed_grid_is_full(grid, seed_row, seed_col, nearer, col);
        assert(!on_border_at(grid, nearer, col));
    } else if col != seed_col {
        let nearer = if col < seed_col {
            col + 1
        } else {
            col - 1
        };
        lemma_enclosed_grid_is_full(grid, seed_row, seed_col, row, nearer);
        assert(!on_border_at(grid, row, nearer));
    }
}

/// The generator state, the cell of the frontier and the neighbour of that
/// cell that an attempt to grow draws: first the cell, by its position on the
/// frontier, then one of the four directions.
pub open spec fn aimed(frontier: Seq<(int, int)>, state: u64) -> (u64, (int, int), (int, int)) {
    let (drawn, position) = draw_below(state, draw_bound(frontier.len()));
    let (row, col) = frontier[position as int];
    let turned = lcg_step(drawn);
    (turned, (row, col), neighbour(row, col, top_bits(turned, 2)))
}

/// The grid, the keys of the frontier, the generator state and the answer
/// that one attempt to grow ends with. Where the neighbour that the attempt
/// draws is an empty cell of the grid, it is filled with the colour that
/// drifts from that of the cell drawn, the frontier is brought up to date, and
/// the answer is yes. Otherwise grid and frontier stay as they are. An empty
/// frontier allows no attempt and leaves the generator alone.
pub open spec fn grown(grid: Seq<Seq<State>>, keys: Seq<u128>, state: u64, color_step: i32) -> (
    Seq<Seq<State>>,
    Seq<u128>,
    u64,
    bool,
) {
    if keys.len() == 0 {
        (grid, keys, state, false)
    } else {
        let (turned, parent, target) = aimed(cells_of(keys), state);
        if empty_at(grid, target.0, target.1) {
            let (after, colour) = drifted_state(turned, color_step, grid[parent.0][parent.1]);
            let filled = planted(grid, target.0, target.1, colour);
            (filled, fill_keys(keys, filled, target.0, target.1), after, true)
        } else {
            (grid, keys, turned, false)
        }
    }
}

/// An attempt to grow leaves the grid's size and every filled cell as they
/// are: a cell that was filled is never emptied or filled anew.
pub proof fn lemma_growth_keeps_filled_cells(
    grid: Seq<Seq<State>>,
    keys: Seq<u128>,
    state: u64,
    color_step: i32,
)
    requires
        is_square(grid),
    ensures
        grown(grid, keys, state, color_step).0.len() == grid.len(),
        is_square(grown(grid, keys, state, color_step).0),
        forall|row: int, col: int|
            in_grid(grid, row, col) && (#[trigger] grid[row][col]).is_filled() ==> grown(
                grid,
                keys,
                state,
                color_step,
            ).0[row][col] == grid[row][col],
{
}

/// With an empty frontier an attempt to grow changes nothing and fails: a
/// grid that is done stays done.
pub proof fn lemma_done_stays_done(grid: Seq<Seq<State>>, state: u64, color_step: i32)
    ensures
        grown(grid, Seq::<u128>::empty(), state, color_step) == (
            grid,
            Seq::<u128>::empty(),
            state,
            false,
        ),
{
}

/// The grid, the keys of the frontier and the generator state after `count`
/// seeds have been planted in an empty grid of `size` rows and columns, one
/// after the other. Each seed draws its row, then its column, both below
/// `size`, and then its colour.
pub open spec fn sown(state: u64, size: nat, count: nat) -> (Seq<Seq<State>>, Seq<u128>, u64)
    decreases count,
{
    if count == 0 {
        (blank(size), Seq::<u128>::empty(), state)
    } else {
        let (before, keys, s0) = sown(state, size, (count - 1) as nat);
        let (s1, row) = draw_below(s0, draw_bound(size));
        let (s2, col) = draw_below(s1, draw_bound(size));
        let (s3, colour) = fresh_colour(s2);
        let grid = planted(before, row as int, col as int, colour);
        (grid, seed_keys(keys, grid, row as int, col as int), s3)
    }
}

/// The colour that the picture shows for the cell at `(row, col)`: white
/// where the frontier is to be shown and the cell is on the border, and else
/// the cell's own colour, black for an empty cell.
pub open spec fn pixel(grid: Seq<Seq<State>>, row: int, col: int, highlight_border: bool) -> (
    u8,
    u8,
    u8,
) {
    if highlight_border && on_border_at(grid, row, col) {
        (255u8, 255u8, 255u8)
    } else {
        match grid[row][col] {
            State::Empty => (0u8, 0u8, 0u8),
            State::Filled { r, g, b } => (r, g, b),
        }
    }
}

} // verus!
