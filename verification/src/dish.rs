//! The grid of cells and its frontier: the filled cells that touch an empty
//! one.
//!
//! The frontier is kept in a set from which a member can be drawn at random
//! in constant time. Every change of a cell is followed by a look at the few
//! cells whose place on the frontier it can have changed, so that the set is
//! at all times what a scan of the whole grid would find.

use vstd::prelude::*;
use crate::bijective_finite_sequence::{
    inserted,
    lemma_inserted_members,
    lemma_removed_members,
    removed,
    BijectiveFiniteSequence,
};
use crate::grid::{
    aimed,
    blank,
    cell_key,
    cells_of,
    covered,
    empty_at,
    fill_keys,
    grown,
    in_grid,
    is_enclosed,
    is_near_key,
    is_square,
    key_col,
    key_row,
    keys_in_grid,
    lemma_filling_keeps_covered,
    lemma_no_keys_is_enclosed,
    lemma_settled_near_is_settled,
    marks_border,
    on_border_at,
    pixel,
    planted,
    release_keys,
    seed_keys,
    settle_keys,
    settled,
    sown,
    KEY_STRIDE,
};
use crate::my_rng::{lemma_drawn_position_in_range, low_u32, Rng};
use crate::state::State;

verus! {

broadcast use vstd::std_specs::hash::group_hash_axioms;

/// A square grid of cells with its frontier.
///
/// Its view is the grid, row by row. The frontier holds each of its cells
/// under a key, [`cell_key`], so that the set that holds it hashes integers.
#[derive(Clone, Debug)]
pub struct Dish {
    states: Vec<Vec<State>>,
    /// The keys of the filled cells that have an empty neighbour.
    border: BijectiveFiniteSequence<u128>,
}

impl View for Dish {
    type V = Seq<Seq<State>>;

    /// The cells, row by row.
    closed spec fn view(&self) -> Seq<Seq<State>> {
        Seq::new(self.states@.len(), |row: int| self.states@[row]@)
    }
}

fn key_of(row: usize, col: usize) -> (key: u128)
    ensures
        key == cell_key(row as int, col as int),
        key_row(key) == row,
        key_col(key) == col,
{
    (row as u128) * KEY_STRIDE + (col as u128)
}

impl Dish {
    /// The keys of the frontier, in the order in which the set holds them.
    pub closed spec fn keys(&self) -> Seq<u128> {
        self.border@
    }

    /// The cells of the frontier, in the order in which the set holds them.
    pub open spec fn frontier(&self) -> Seq<(int, int)> {
        cells_of(self.keys())
    }

    /// Whether the set that holds the frontier is sound in itself.
    pub closed spec fn border_wf(&self) -> bool {
        self.border.wf()
    }

    /// The number of rows, which is the number of columns.
    pub open spec fn size(&self) -> nat {
        self@.len()
    }

    /// The grid is square, and the frontier holds exactly the filled cells
    /// that have an empty neighbour.
    pub open spec fn wf(&self) -> bool {
        &&& is_square(self@)
        &&& self.border_wf()
        &&& marks_border(self.keys(), self@)
    }

    /// The side of the grid fits in a machine word.
    pub proof fn lemma_size_fits(&self)
        ensures
            self.size() <= usize::MAX,
    {
        assert(self.states.len() == self.states@.len());
    }

    /// A cell is on the frontier exactly when it is a cell of the grid, is
    /// filled, and has an empty cell of the grid among its four neighbours.
    pub proof fn lemma_frontier_is_border(&self, row: int, col: int)
        requires
            self.wf(),
        ensures
            self.frontier().contains((row, col)) <==> on_border_at(self@, row, col),
    {
        self.lemma_size_fits();
        let keys = self.keys();
        let cells = self.frontier();
        if cells.contains((row, col)) {
            let k = cells.index_of((row, col));
            assert(in_grid(self@, key_row(keys[k]), key_col(keys[k])));
            assert(keys[k] == cell_key(row, col) as u128);
            assert(keys.contains(cell_key(row, col) as u128));
            assert(settled(keys, self@, row, col));
        }
        if on_border_at(self@, row, col) {
            assert(settled(keys, self@, row, col));
            let k = keys.index_of(cell_key(row, col) as u128);
            assert(cells[k] == (row, col));
        }
    }

    /// The frontier is empty exactly when no filled cell has an empty
    /// neighbour.
    pub proof fn lemma_done_is_enclosed(&self)
        requires
            self.wf(),
        ensures
            self.keys().len() == 0 <==> is_enclosed(self@),
    {
        self.lemma_size_fits();
        lemma_no_keys_is_enclosed(self.keys(), self@);
    }

    /// A grid of `size` rows and columns with every cell empty.
    pub fn new(size: usize) -> (dish: Dish)
        ensures
            dish.wf(),
            dish@ == blank(size as nat),
            dish.keys().len() == 0,
    {
        let mut states: Vec<Vec<State>> = Vec::new();
        let mut row: usize = 0;
        while row < size
            invariant
                row <= size,
                states@.len() == row,
                forall|r: int| 0 <= r < row ==> (#[trigger] states@[r])@ == Seq::new(
                    size as nat,
                    |col: int| State::Empty,
                ),
            decreases size - row,
        {
            let mut line: Vec<State> = Vec::new();
            let mut col: usize = 0;
            while col < size
                invariant
                    col <= size,
                    line@ == Seq::new(col as nat, |c: int| State::Empty),
                decreases size - col,
            {
                line.push(State::Empty);
                col = col + 1;
            }
            states.push(line);
            row = row + 1;
        }
        let dish = Dish { states, border: BijectiveFiniteSequence::new() };
        dish
    }

    /// A grid of `size` rows and columns in which `seed_count` seeds were
    /// planted at random. Two seeds may fall on one cell: the later one then
    /// gives the cell its colour.
    pub fn from_seed_count(rng: &mut Rng, size: usize, seed_count: usize) -> (dish: Dish)
        requires
            size > 0 || seed_count == 0,
        ensures
            dish.wf(),
            dish.size() == size,
            (dish@, dish.keys(), final(rng)@) == sown(old(rng)@, size as nat, seed_count as nat),
    {
        let mut dish: Dish = Dish::new(size);
        let mut planted_count: usize = 0;
        while planted_count < seed_count
            invariant
                planted_count <= seed_count,
                size > 0 || seed_count == 0,
                dish.wf(),
                dish.size() == size,
                (dish@, dish.keys(), rng@) == sown(old(rng)@, size as nat, planted_count as nat),
            decreases seed_count - planted_count,
        {
            proof {
                lemma_drawn_position_in_range(rng@, size as nat);
            }
            let row: usize = rng.next_u32_n(low_u32(size)) as usize;
            proof {
                lemma_drawn_position_in_range(rng@, size as nat);
            }
            let col: usize = rng.next_u32_n(low_u32(size)) as usize;
            let colour: State = State::random_filled(rng);
            dish.insert_seed(row, col, colour);
            planted_count = planted_count + 1;
        }
        dish
    }

    /// The number of rows, which is the number of columns.
    pub fn side(&self) -> (n: usize)
        ensures
            n == self.size(),
    {
        self.states.len()
    }

    /// What the cell at `(row, col)` holds.
    pub fn get(&self, row: usize, col: usize) -> (state: State)
        requires
            is_square(self@),
            row < self.size(),
            col < self.size(),
        ensures
            state == self@[row as int][col as int],
    {
        self.states[row][col]
    }

    /// Whether the frontier is empty, so that nothing can grow any more.
    pub fn is_done(&self) -> (done: bool)
        ensures
            done == (self.keys().len() == 0),
    {
        self.border.is_empty()
    }

    /// The number of cells on the frontier: a measure of the length of the
    /// filled region's boundary.
    pub fn perimeter(&self) -> (n: usize)
        ensures
            n == self.keys().len(),
    {
        self.border.len()
    }

    fn is_empty_cell(&self, row: usize, col: usize) -> (empty: bool)
        requires
            is_square(self@),
        ensures
            empty == empty_at(self@, row as int, col as int),
    {
        if row < self.states.len() {
            assert(self@[row as int] == self.states@[row as int]@);
            if col < self.states[row].len() {
                match self.states[row][col] {
                    State::Empty => true,
                    State::Filled { .. } => false,
                }
            } else {
                false
            }
        } else {
            false
        }
    }

    fn write(&mut self, row: usize, col: usize, state: State)
        requires
            is_square(old(self)@),
            row < old(self).size(),
            col < old(self).size(),
        ensures
            final(self)@ == planted(old(self)@, row as int, col as int, state),
            is_square(final(self)@),
            final(self).keys() == old(self).keys(),
            final(self).border_wf() == old(self).border_wf(),
    {
        assert(self@[row as int] == self.states@[row as int]@);
        self.states[row][col] = state;
    }

    fn mark(&mut self, row: usize, col: usize)
        requires
            old(self).border_wf(),
            keys_in_grid(old(self).keys(), old(self)@),
            in_grid(old(self)@, row as int, col as int),
        ensures
            final(self)@ == old(self)@,
            final(self).border_wf(),
            final(self).keys() == inserted(old(self).keys(), cell_key(row as int, col as int) as u128),
            keys_in_grid(final(self).keys(), final(self)@),
            forall|x: u128| #[trigger]
                final(self).keys().contains(x) <==> (old(self).keys().contains(x) || x == cell_key(
                    row as int,
                    col as int,
                )),
            forall|r: int, c: int|
                in_grid(old(self)@, r, c) && !(r == row && c == col) && settled(
                    old(self).keys(),
                    old(self)@,
                    r,
                    c,
                ) ==> #[trigger] settled(final(self).keys(), final(self)@, r, c),
    {
        proof {
            self.lemma_size_fits();
        }
        let key: u128 = key_of(row, col);
        proof {
            lemma_inserted_members(self.keys(), key);
        }
        self.border.insert(key);
    }

    fn unmark(&mut self, row: usize, col: usize)
        requires
            old(self).border_wf(),
            keys_in_grid(old(self).keys(), old(self)@),
        ensures
            final(self)@ == old(self)@,
            final(self).border_wf(),
            final(self).keys() == removed(old(self).keys(), cell_key(row as int, col as int) as u128),
            keys_in_grid(final(self).keys(), final(self)@),
            forall|x: u128| #[trigger]
                final(self).keys().contains(x) <==> (old(self).keys().contains(x) && x != cell_key(
                    row as int,
                    col as int,
                )),
    {
        let key: u128 = key_of(row, col);
        proof {
            lemma_removed_members(self.keys(), key);
        }
        self.border.remove(&key);
        proof {
            let before = old(self).keys();
            let after = self.keys();
            assert forall|k: int| 0 <= k < after.len() implies in_grid(
                self@,
                key_row(#[trigger] after[k]),
                key_col(after[k]),
            ) by {
                assert(after.contains(after[k]));
                assert(before.contains(after[k]));
                let j = before.index_of(after[k]);
                assert(in_grid(self@, key_row(before[j]), key_col(before[j])));
            }
        }
    }

    /// Puts the cell at `(row, col)` on the frontier where it is on the
    /// border, and takes it off where it is not.
    fn settle(&mut self, row: usize, col: usize)
        requires
            is_square(old(self)@),
            old(self).border_wf(),
            keys_in_grid(old(self).keys(), old(self)@),
            in_grid(old(self)@, row as int, col as int),
        ensures
            final(self)@ == old(self)@,
            final(self).border_wf(),
            keys_in_grid(final(self).keys(), final(self)@),
            final(self).keys() == settle_keys(old(self).keys(), old(self)@, row as int, col as int),
            settled(final(self).keys(), final(self)@, row as int, col as int),
            forall|x: u128|
                x != cell_key(row as int, col as int) ==> (#[trigger] final(self).keys().contains(x)
                    <==> old(self).keys().contains(x)),
            forall|r: int, c: int|
                in_grid(old(self)@, r, c) && !(r == row && c == col) && settled(
                    old(self).keys(),
                    old(self)@,
                    r,
                    c,
                ) ==> #[trigger] settled(final(self).keys(), final(self)@, r, c),
    {
        proof {
            self.lemma_size_fits();
        }
        if self.on_border(row, col) {
            self.mark(row, col);
        } else {
            self.unmark(row, col);
        }
    }

    /// Writes `state` to the cell at `(row, col)` and brings the frontier up
    /// to date: the cell and its four neighbours are put on it or taken off
    /// it as their places on the border now ask.
    pub fn insert_seed(&mut self, row: usize, col: usize, state: State)
        requires
            old(self).wf(),
            row < old(self).size(),
            col < old(self).size(),
        ensures
            final(self).wf(),
            final(self)@ == planted(old(self)@, row as int, col as int, state),
            final(self).keys() == seed_keys(old(self).keys(), final(self)@, row as int, col as int),
    {
        let size: usize = self.side();
        let ghost (r0, c0) = (row as int, col as int);
        self.write(row, col, state);
        let ghost grid = self@;
        self.settle(row, col);
        if col + 1 < size {
            self.settle(row, col + 1);
        }
        if row + 1 < size {
            self.settle(row + 1, col);
        }
        if col > 0 {
            self.settle(row, col - 1);
        }
        if row > 0 {
            self.settle(row - 1, col);
        }
        proof {
            let keys = self.keys();
            assert forall|r: int, c: int|
                in_grid(old(self)@, r, c) && is_near_key(
                    cell_key(r, c) as u128,
                    r0,
                    c0,
                ) implies #[trigger] settled(keys, grid, r, c) by {
                assert((r == r0 && c == c0) || (r == r0 && c == c0 + 1) || (r == r0 + 1 && c == c0)
                    || (r == r0 && c == c0 - 1) || (r == r0 - 1 && c == c0));
            }
            lemma_settled_near_is_settled(old(self).keys(), keys, old(self)@, r0, c0, state);
        }
    }

    /// Looks at a neighbour of a cell that was just filled: takes it off the
    /// frontier where it is no longer on the border, and says whether it is
    /// empty.
    fn release(&mut self, row: usize, col: usize) -> (empty: bool)
        requires
            is_square(old(self)@),
            old(self).border_wf(),
            keys_in_grid(old(self).keys(), old(self)@),
            in_grid(old(self)@, row as int, col as int),
        ensures
            final(self)@ == old(self)@,
            final(self).border_wf(),
            keys_in_grid(final(self).keys(), final(self)@),
            empty == empty_at(old(self)@, row as int, col as int),
            final(self).keys() == release_keys(old(self).keys(), old(self)@, row as int, col as int),
            final(self).keys().contains(cell_key(row as int, col as int) as u128) <==> (old(
                self,
            ).keys().contains(cell_key(row as int, col as int) as u128) && on_border_at(
                old(self)@,
                row as int,
                col as int,
            )),
            forall|x: u128|
                x != cell_key(row as int, col as int) ==> (#[trigger] final(self).keys().contains(x)
                    <==> old(self).keys().contains(x)),
            forall|r: int, c: int|
                in_grid(old(self)@, r, c) && !(r == row && c == col) && settled(
                    old(self).keys(),
                    old(self)@,
                    r,
                    c,
                ) ==> #[trigger] settled(final(self).keys(), final(self)@, r, c),
            forall|r: int, c: int|
                in_grid(old(self)@, r, c) && !(r == row && c == col) && covered(
                    old(self).keys(),
                    old(self)@,
                    r,
                    c,
                ) ==> #[trigger] covered(final(self).keys(), final(self)@, r, c),
            covered(old(self).keys(), old(self)@, row as int, col as int) ==> settled(
                final(self).keys(),
                final(self)@,
                row as int,
                col as int,
            ),
    {
        proof {
            self.lemma_size_fits();
        }
        let empty: bool = self.is_empty_cell(row, col);
        if !self.on_border(row, col) {
            self.unmark(row, col);
        }
        empty
    }

    /// Draws a cell of the frontier and a direction. Gives the neighbour in
    /// that direction and what the cell drawn holds, where the neighbour is an
    /// empty cell of the grid.
    fn aim(&self, rng: &mut Rng) -> (found: Option<(usize, usize, State)>)
        requires
            self.wf(),
            self.keys().len() > 0,
        ensures
            ({
                let (turned, parent, target) = aimed(self.frontier(), old(rng)@);
                &&& final(rng)@ == turned
                &&& in_grid(self@, parent.0, parent.1)
                &&& self@[parent.0][parent.1].is_filled()
                &&& match found {
                    Some((row_1, col_1, held)) => empty_at(self@, target.0, target.1) && row_1
                        == target.0 && col_1 == target.1 && held == self@[parent.0][parent.1],
                    None => !empty_at(self@, target.0, target.1),
                }
            }),
    {
        proof {
            self.lemma_size_fits();
        }
        let ghost old_grid = self@;
        let ghost old_keys = self.keys();
        let ghost start = rng@;
        proof {
            lemma_drawn_position_in_range(start, old_keys.len());
        }
        let key: u128 = match self.border.get_random(rng) {
            None => {
                return None;
            },
            Some(drawn) => *drawn,
        };
        let row: usize = (key / KEY_STRIDE) as usize;
        let col: usize = (key % KEY_STRIDE) as usize;
        assert(settled(old_keys, old_grid, row as int, col as int));
        let parent: State = self.get(row, col);
        let direction: u32 = rng.next(2);
        proof {
            vstd::arithmetic::power2::lemma2_to64();
        }
        let row_1: usize;
        let col_1: usize;
        if direction == 0 {
            row_1 = row;
            col_1 = col + 1;
        } else if direction == 1 {
            row_1 = row + 1;
            col_1 = col;
        } else if direction == 2 {
            if col == 0 {
                return None;
            }
            row_1 = row;
            col_1 = col - 1;
        } else {
            if row == 0 {
                return None;
            }
            row_1 = row - 1;
            col_1 = col;
        }
        if self.is_empty_cell(row_1, col_1) {
            Some((row_1, col_1, parent))
        } else {
            None
        }
    }

    /// Looks at the four neighbours of a cell that was just filled, in the
    /// order of the directions, and says whether one of them is empty.
    fn release_around(&mut self, row: usize, col: usize) -> (any_empty: bool)
        requires
            is_square(old(self)@),
            old(self).border_wf(),
            keys_in_grid(old(self).keys(), old(self)@),
            in_grid(old(self)@, row as int, col as int),
        ensures
            final(self)@ == old(self)@,
            final(self).border_wf(),
            keys_in_grid(final(self).keys(), final(self)@),
            any_empty == (empty_at(old(self)@, row as int, col + 1) || empty_at(
                old(self)@,
                row + 1,
                col as int,
            ) || empty_at(old(self)@, row as int, col - 1) || empty_at(
                old(self)@,
                row - 1,
                col as int,
            )),
            final(self).keys() == release_keys(
                release_keys(
                    release_keys(
                        release_keys(old(self).keys(), old(self)@, row as int, col + 1),
                        old(self)@,
                        row + 1,
                        col as int,
                    ),
                    old(self)@,
                    row as int,
                    col - 1,
                ),
                old(self)@,
                row - 1,
                col as int,
            ),
            forall|x: u128|
                !is_near_key(x, row as int, col as int) || x == cell_key(row as int, col as int)
                    ==> (#[trigger] final(self).keys().contains(x) <==> old(self).keys().contains(
                    x,
                )),
            forall|r: int, c: int|
                in_grid(old(self)@, r, c) && !(r == row && c == col) && is_near_key(
                    cell_key(r, c) as u128,
                    row as int,
                    col as int,
                ) && covered(old(self).keys(), old(self)@, r, c) ==> #[trigger] settled(
                    final(self).keys(),
                    final(self)@,
                    r,
                    c,
                ),
    {
        let size: usize = self.side();
        let mut any_empty: bool = false;
        if col + 1 < size {
            let empty: bool = self.release(row, col + 1);
            any_empty = any_empty || empty;
        }
        if row + 1 < size {
            let empty: bool = self.release(row + 1, col);
            any_empty = any_empty || empty;
        }
        if col > 0 {
            let empty: bool = self.release(row, col - 1);
            any_empty = any_empty || empty;
        }
        if row > 0 {
            let empty: bool = self.release(row - 1, col);
            any_empty = any_empty || empty;
        }
        proof {
            let keys = self.keys();
            let grid = self@;
            assert forall|r: int, c: int|
                in_grid(grid, r, c) && !(r == row && c == col) && is_near_key(
                    cell_key(r, c) as u128,
                    row as int,
                    col as int,
                ) && covered(old(self).keys(), grid, r, c) implies #[trigger] settled(
                keys,
                grid,
                r,
                c,
            ) by {
                assert((r == row && c == col + 1) || (r == row + 1 && c == col) || (r == row && c
                    == col - 1) || (r == row - 1 && c == col));
            }
        }
        any_empty
    }

    /// Fills the empty cell at `(row_1, col_1)` and brings the frontier up to
    /// date. Each neighbour that is no longer on the border leaves the
    /// frontier, and the cell itself joins it where a neighbour is empty.
    fn fill(&mut self, row_1: usize, col_1: usize, colour: State)
        requires
            old(self).wf(),
            empty_at(old(self)@, row_1 as int, col_1 as int),
            colour.is_filled(),
        ensures
            final(self).wf(),
            final(self)@ == planted(old(self)@, row_1 as int, col_1 as int, colour),
            final(self).keys() == fill_keys(
                old(self).keys(),
                final(self)@,
                row_1 as int,
                col_1 as int,
            ),
    {
        proof {
            self.lemma_size_fits();
        }
        let ghost old_grid = self@;
        let ghost old_keys = self.keys();
        let ghost (r1, c1) = (row_1 as int, col_1 as int);
        self.write(row_1, col_1, colour);
        let ghost grid = self@;
        proof {
            lemma_filling_keeps_covered(old_keys, old_grid, r1, c1, colour);
        }
        let any_empty: bool = self.release_around(row_1, col_1);
        if any_empty {
            self.mark(row_1, col_1);
        }
        proof {
            let keys = self.keys();
            assert forall|r: int, c: int|
                in_grid(old_grid, r, c) && is_near_key(
                    cell_key(r, c) as u128,
                    r1,
                    c1,
                ) implies #[trigger] settled(keys, grid, r, c) by {
                if !(r == r1 && c == c1) {
                    assert(covered(old_keys, grid, r, c));
                }
            }
            lemma_settled_near_is_settled(old_keys, keys, old_grid, r1, c1, colour);
        }
    }

    /// Attempts one step of growth, and says whether a cell was filled.
    ///
    /// A cell of the frontier and one of the four directions are drawn. The
    /// attempt fails where the cell's neighbour in that direction lies outside
    /// the grid or is filled: a cell of the frontier has some empty neighbour,
    /// not an empty neighbour in every direction. Otherwise the neighbour is
    /// filled with a colour that drifts from the cell's by at most
    /// `color_step` in each channel, and the frontier is brought up to date.
    pub fn maybe_step(&mut self, rng: &mut Rng, color_step: i32) -> (stepped: bool)
        requires
            old(self).wf(),
            color_step >= 0,
        ensures
            final(self).wf(),
            (final(self)@, final(self).keys(), final(rng)@, stepped) == grown(
                old(self)@,
                old(self).keys(),
                old(rng)@,
                color_step,
            ),
            old(self).keys().len() == 0 ==> final(self).keys().len() == 0,
    {
        if self.is_done() {
            return false;
        }
        match self.aim(rng) {
            None => false,
            Some((row_1, col_1, parent)) => {
                let colour: State = parent.rand_step(rng, color_step);
                self.fill(row_1, col_1, colour);
                true
            },
        }
    }

    /// The cells of the frontier, in the order in which the set holds them.
    /// The order changes as cells leave the frontier and means nothing.
    pub fn border_cells(&self) -> (cells: Vec<(usize, usize)>)
        requires
            self.wf(),
        ensures
            cells@.len() == self.frontier().len(),
            forall|k: int|
                0 <= k < cells@.len() ==> (#[trigger] cells@[k]).0 == self.frontier()[k].0
                    && cells@[k].1 == self.frontier()[k].1,
    {
        let size: usize = self.side();
        let keys: &[u128] = self.border.as_slice();
        let mut cells: Vec<(usize, usize)> = Vec::new();
        let mut k: usize = 0;
        while k < keys.len()
            invariant
                keys@ == self.keys(),
                keys_in_grid(self.keys(), self@),
                self.size() == size,
                k <= keys@.len(),
                cells@.len() == k,
                forall|j: int|
                    0 <= j < k ==> (#[trigger] cells@[j]).0 == self.frontier()[j].0 && cells@[j].1
                        == self.frontier()[j].1,
            decreases keys@.len() - k,
        {
            let key: u128 = keys[k];
            cells.push(((key / KEY_STRIDE) as usize, (key % KEY_STRIDE) as usize));
            k = k + 1;
        }
        cells
    }

    /// The colour of the picture's point for the cell at `(row, col)`, as
    /// red, green and blue. With `highlight_border` the cells of the frontier
    /// are white.
    pub fn pixel_at(&self, row: usize, col: usize, highlight_border: bool) -> (rgb: (u8, u8, u8))
        requires
            self.wf(),
            row < self.size(),
            col < self.size(),
        ensures
            rgb == pixel(self@, row as int, col as int, highlight_border),
    {
        assert(settled(self.keys(), self@, row as int, col as int));
        if highlight_border && self.border.contains(&key_of(row, col)) {
            (255, 255, 255)
        } else {
            let color = self.get(row, col).to_color();
            (color.r, color.g, color.b)
        }
    }

    /// Whether the grid is square and the frontier holds exactly the filled
    /// cells that have an empty neighbour: the run-time test of [`Self::wf`].
    /// It looks at every cell.
    pub fn validate(&self) -> (ok: bool)
        ensures
            ok == self.wf(),
    {
        let size: usize = self.states.len();
        let mut row: usize = 0;
        while row < size
            invariant
                size == self.states@.len(),
                row <= size,
                forall|r: int| 0 <= r < row ==> (#[trigger] self@[r]).len() == size,
            decreases size - row,
        {
            assert(self@[row as int] == self.states@[row as int]@);
            if self.states[row].len() != size {
                return false;
            }
            row = row + 1;
        }
        if !self.border.validate() {
            return false;
        }
        let keys: &[u128] = self.border.as_slice();
        let mut k: usize = 0;
        while k < keys.len()
            invariant
                keys@ == self.keys(),
                self.size() == size,
                k <= keys@.len(),
                forall|j: int|
                    0 <= j < k ==> in_grid(
                        self@,
                        key_row(#[trigger] self.keys()[j]),
                        key_col(self.keys()[j]),
                    ),
            decreases keys@.len() - k,
        {
            let key: u128 = keys[k];
            if key / KEY_STRIDE >= size as u128 || key % KEY_STRIDE >= size as u128 {
                assert(!in_grid(
                    self@,
                    key_row(self.keys()[k as int]),
                    key_col(self.keys()[k as int]),
                ));
                return false;
            }
            k = k + 1;
        }
        let mut row: usize = 0;
        while row < size
            invariant
                self.size() == size,
                is_square(self@),
                self.border_wf(),
                row <= size,
                forall|r: int, c: int|
                    0 <= r < row && 0 <= c < size ==> #[trigger] settled(self.keys(), self@, r, c),
            decreases size - row,
        {
            let mut col: usize = 0;
            while col < size
                invariant
                    self.size() == size,
                    is_square(self@),
                    self.border_wf(),
                    row < size,
                    col <= size,
                    forall|r: int, c: int|
                        0 <= r < row && 0 <= c < size ==> #[trigger] settled(
                            self.keys(),
                            self@,
                            r,
                            c,
                        ),
                    forall|c: int|
                        0 <= c < col ==> #[trigger] settled(self.keys(), self@, row as int, c),
                decreases size - col,
            {
                if self.border.contains(&key_of(row, col)) != self.on_border(row, col) {
                    assert(!settled(self.keys(), self@, row as int, col as int));
                    return false;
                }
                col = col + 1;
            }
            row = row + 1;
        }
        true
    }

    /// Whether the cell at `(row, col)` is filled and has an empty neighbour.
    pub fn on_border(&self, row: usize, col: usize) -> (on: bool)
        requires
            is_square(self@),
            row < self.size(),
            col < self.size(),
        ensures
            on == on_border_at(self@, row as int, col as int),
    {
        assert(self@[row as int] == self.states@[row as int]@);
        assert(self.size() == self.states.len());
        match self.states[row][col] {
            State::Empty => false,
            State::Filled { .. } => {
                self.is_empty_cell(row, col + 1) || self.is_empty_cell(row + 1, col) || (col > 0
                    && self.is_empty_cell(row, col - 1)) || (row > 0 && self.is_empty_cell(
                    row - 1,
                    col,
                ))
            },
        }
    }
}

} // verus!
