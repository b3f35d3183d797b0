//! The generation step: every cell's next state from its eight neighbours.

use crate::grid::{alive_at, is_square, CellState, Grid, World};
use vstd::prelude::*;

verus! {

/// What the position `(r, c)` adds to a neighbour count: one if a live cell
/// stands there, nothing if the cell is dead or the position lies outside.
pub open spec fn live(w: World, r: int, c: int) -> int {
    if alive_at(w, r, c) {
        1
    } else {
        0
    }
}

/// The number of live cells among the eight positions around `(r, c)`.
pub open spec fn neighbors(w: World, r: int, c: int) -> int {
    live(w, r - 1, c - 1) + live(w, r - 1, c) + live(w, r - 1, c + 1) + live(w, r, c - 1) + live(
        w,
        r,
        c + 1,
    ) + live(w, r + 1, c - 1) + live(w, r + 1, c) + live(w, r + 1, c + 1)
}

/// The rule of the game: a cell with three live neighbours is alive in the
/// next generation, a live cell with two stays alive, every other cell is dead.
pub open spec fn rule(state: CellState, count: int) -> CellState {
    if count == 3 || (count == 2 && state == CellState::Alive) {
        CellState::Alive
    } else {
        CellState::Dead
    }
}

/// The generation that follows `w`: each cell by the rule, all counts taken in `w`.
pub open spec fn step(w: World) -> World {
    Seq::new(
        w.len(),
        |r: int| Seq::new(w[r].len(), |c: int| rule(w[r][c], neighbors(w, r, c))),
    )
}

/// `step(w)` in the rows above `r` and in the first `c` cells of row `r`, dead
/// elsewhere: the grid under construction while the step is computed.
spec fn step_upto(w: World, n: nat, r: int, c: int) -> World {
    Seq::new(
        n,
        |i: int|
            Seq::new(
                n,
                |j: int|
                    if i < r || (i == r && j < c) {
                        rule(w[i][j], neighbors(w, i, j))
                    } else {
                        CellState::Dead
                    },
            ),
    )
}

/// The next state of a cell from its state and its count of live neighbours.
pub fn next_state(state: CellState, count: u8) -> (next: CellState)
    ensures
        next == rule(state, count as int),
{
    if count == 3 {
        CellState::Alive
    } else if count == 2 && state == CellState::Alive {
        CellState::Alive
    } else {
        CellState::Dead
    }
}

/// One if the cell at `(row, col)` is alive, else zero.
fn live_at(world: &Grid, row: usize, col: usize) -> (k: u8)
    requires
        world.wf(),
        row < world.dim(),
        col < world.dim(),
    ensures
        k == live(world@, row as int, col as int),
{
    proof {
        world.lemma_wf_square();
    }
    if world.get(row, col) == CellState::Alive {
        1
    } else {
        0
    }
}

/// Counts the live cells around `(row, col)`. Positions outside the grid are
/// skipped, never read.
pub fn live_neighbors(world: &Grid, row: usize, col: usize) -> (count: u8)
    requires
        world.wf(),
        row < world.dim(),
        col < world.dim(),
    ensures
        count == neighbors(world@, row as int, col as int),
        count <= 8,
{
    proof {
        world.lemma_wf_square();
    }
    let n: usize = world.size();
    let mut count: u8 = 0;
    if row > 0 {
        if col > 0 {
            count += live_at(world, row - 1, col - 1);
        }
        count += live_at(world, row - 1, col);
        if col + 1 < n {
            count += live_at(world, row - 1, col + 1);
        }
    }
    if col > 0 {
        count += live_at(world, row, col - 1);
    }
    if col + 1 < n {
        count += live_at(world, row, col + 1);
    }
    if row + 1 < n {
        if col > 0 {
            count += live_at(world, row + 1, col - 1);
        }
        count += live_at(world, row + 1, col);
        if col + 1 < n {
            count += live_at(world, row + 1, col + 1);
        }
    }
    count
}

/// Computes the next generation. The input is only read; the result is a new
/// grid of the same dimension.
pub fn generation(world: &Grid) -> (next: Grid)
    requires
        world.wf(),
    ensures
        next.wf(),
        next.dim() == world.dim(),
        next@ == step(world@),
{
    proof {
        world.lemma_wf_square();
    }
    let n: usize = world.size();
    let mut next = Grid::new(n);
    assert(next@ =~~= step_upto(world@, n as nat, 0, 0));
    let mut row: usize = 0;
    while row < n
        invariant
            world.wf(),
            is_square(world@, n as nat),
            world.dim() == n,
            next.wf(),
            next.dim() == n,
            row <= n,
            next@ == step_upto(world@, n as nat, row as int, 0),
        decreases n - row,
    {
        let mut col: usize = 0;
        while col < n
            invariant
                world.wf(),
                is_square(world@, n as nat),
                world.dim() == n,
                next.wf(),
                next.dim() == n,
                row < n,
                col <= n,
                next@ == step_upto(world@, n as nat, row as int, col as int),
            decreases n - col,
        {
            let count = live_neighbors(world, row, col);
            let state = next_state(world.get(row, col), count);
            next.set(row, col, state);
            col += 1;
            assert(next@ =~~= step_upto(world@, n as nat, row as int, col as int));
        }
        row += 1;
        assert(next@ =~~= step_upto(world@, n as nat, row as int, 0));
    }
    assert(next@ =~~= step(world@));
    next
}

/// The step keeps the dimension.
pub proof fn lemma_step_square(w: World, n: nat)
    requires
        is_square(w, n),
    ensures
        is_square(step(w), n),
{
}

/// A neighbour count lies between zero and eight.
pub proof fn lemma_neighbors_range(w: World, r: int, c: int)
    ensures
        0 <= neighbors(w, r, c) <= 8,
{
}

/// Inside the grid, the next state of a cell is the rule applied to its state
/// and its neighbour count.
pub proof fn lemma_step_cell(w: World, r: int, c: int)
    requires
        0 <= r < w.len(),
        0 <= c < w[r].len(),
    ensures
        step(w)[r][c] == rule(w[r][c], neighbors(w, r, c)),
{
}

/// A live cell without a live neighbour is dead in the next generation.
pub proof fn lemma_isolated_cell_dies(w: World, r: int, c: int)
    requires
        alive_at(w, r, c),
        neighbors(w, r, c) == 0,
    ensures
        !alive_at(step(w), r, c),
{
}

/// A dead cell with exactly three live neighbours, wherever they stand, is
/// alive in the next generation.
pub proof fn lemma_birth(w: World, r: int, c: int)
    requires
        0 <= r < w.len(),
        0 <= c < w[r].len(),
        w[r][c] == CellState::Dead,
        neighbors(w, r, c) == 3,
    ensures
        alive_at(step(w), r, c),
{
}

/// A dead cell whose count of live neighbours is not three stays dead; so it
/// does with exactly two and with exactly four.
pub proof fn lemma_no_birth(w: World, r: int, c: int)
    requires
        0 <= r < w.len(),
        0 <= c < w[r].len(),
        w[r][c] == CellState::Dead,
        neighbors(w, r, c) != 3,
    ensures
        !alive_at(step(w), r, c),
{
}

/// A live cell stays alive with two or three live neighbours and dies with
/// fewer or more.
pub proof fn lemma_survival(w: World, r: int, c: int)
    requires
        alive_at(w, r, c),
    ensures
        alive_at(step(w), r, c) <==> (neighbors(w, r, c) == 2 || neighbors(w, r, c) == 3),
{
}

} // verus!
