//! Two classic patterns and what the generation step does to them.

use crate::grid::{alive_at, is_square, CellState, World};
use crate::transition::step;
use vstd::prelude::*;

verus! {

/// The live cells of `w` are exactly the two-by-two block whose upper left
/// cell is `(r, c)`.
pub open spec fn is_block(w: World, n: nat, r: int, c: int) -> bool {
    &&& is_square(w, n)
    &&& 0 <= r && r + 1 < n
    &&& 0 <= c && c + 1 < n
    &&& forall|i: int, j: int| #[trigger]
        alive_at(w, i, j) <==> (r <= i <= r + 1 && c <= j <= c + 1)
}

/// The live cells of `w` are exactly three in row `r`, side by side, the
/// middle one in column `c`.
pub open spec fn is_row_blinker(w: World, n: nat, r: int, c: int) -> bool {
    &&& is_square(w, n)
    &&& 1 <= r && r + 1 < n
    &&& 1 <= c && c + 1 < n
    &&& forall|i: int, j: int| #[trigger] alive_at(w, i, j) <==> (i == r && c - 1 <= j <= c + 1)
}

/// The live cells of `w` are exactly three in column `c`, one above the
/// other, the middle one in row `r`.
pub open spec fn is_column_blinker(w: World, n: nat, r: int, c: int) -> bool {
    &&& is_square(w, n)
    &&& 1 <= r && r + 1 < n
    &&& 1 <= c && c + 1 < n
    &&& forall|i: int, j: int| #[trigger] alive_at(w, i, j) <==> (j == c && r - 1 <= i <= r + 1)
}

/// Two grids of one dimension with the same live cells are the same grid.
pub proof fn lemma_same_live_cells(a: World, b: World, n: nat)
    requires
        is_square(a, n),
        is_square(b, n),
        forall|i: int, j: int| alive_at(a, i, j) <==> alive_at(b, i, j),
    ensures
        a == b,
{
    assert forall|i: int, j: int| 0 <= i < n && 0 <= j < n implies a[i][j] == b[i][j] by {
        assert(alive_at(a, i, j) <==> alive_at(b, i, j));
    }
    assert(a =~~= b);
}

/// A block alone on the grid is a still life: the next generation is the
/// same grid.
pub proof fn lemma_block_is_still(w: World, n: nat, r: int, c: int)
    requires
        is_block(w, n, r, c),
    ensures
        step(w) == w,
{
    let next = step(w);
    assert forall|i: int, j: int| alive_at(next, i, j) <==> alive_at(w, i, j) by {
        if 0 <= i < n && 0 <= j < n {
            assert(alive_at(w, i, j) <==> w[i][j] == CellState::Alive);
        }
    }
    lemma_same_live_cells(next, w, n);
}

/// A row blinker alone on the grid becomes the column blinker with the same
/// middle cell.
pub proof fn lemma_row_blinker_turns(w: World, n: nat, r: int, c: int)
    requires
        is_row_blinker(w, n, r, c),
    ensures
        is_column_blinker(step(w), n, r, c),
{
    let next = step(w);
    assert forall|i: int, j: int| #[trigger]
        alive_at(next, i, j) <==> (j == c && r - 1 <= i <= r + 1) by {
        if 0 <= i < n && 0 <= j < n {
            assert(alive_at(w, i, j) <==> w[i][j] == CellState::Alive);
        }
    }
}

/// A column blinker alone on the grid becomes the row blinker with the same
/// middle cell.
pub proof fn lemma_column_blinker_turns(w: World, n: nat, r: int, c: int)
    requires
        is_column_blinker(w, n, r, c),
    ensures
        is_row_blinker(step(w), n, r, c),
{
    let next = step(w);
    assert forall|i: int, j: int| #[trigger]
        alive_at(next, i, j) <==> (i == r && c - 1 <= j <= c + 1) by {
        if 0 <= i < n && 0 <= j < n {
            assert(alive_at(w, i, j) <==> w[i][j] == CellState::Alive);
        }
    }
}

/// A row blinker has period two: after one generation it differs from what
/// it was, after two it is back.
pub proof fn lemma_blinker_period_two(w: World, n: nat, r: int, c: int)
    requires
        is_row_blinker(w, n, r, c),
    ensures
        step(w) != w,
        step(step(w)) == w,
{
    lemma_row_blinker_turns(w, n, r, c);
    lemma_column_blinker_turns(step(w), n, r, c);
    lemma_same_live_cells(step(step(w)), w, n);
    assert(!alive_at(step(w), r, c - 1));
}

} // verus!
