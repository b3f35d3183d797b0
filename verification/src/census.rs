//! The live cells of a grid in reading order, and their number.

use crate::grid::{alive_at, all_dead, is_square, CellState, Grid, World};
use vstd::prelude::*;

verus! {

/// The live cells among `row`, the row number `r` of a grid, from left to right.
pub open spec fn row_cells(row: Seq<CellState>, r: nat) -> Seq<(nat, nat)>
    decreases row.len(),
{
    if row.len() == 0 {
        Seq::empty()
    } else if row.last() == CellState::Alive {
        row_cells(row.drop_last(), r).push((r, (row.len() - 1) as nat))
    } else {
        row_cells(row.drop_last(), r)
    }
}

/// The live cells of `w` as `(row, column)` pairs in reading order: the rows
/// from top to bottom, each from left to right.
pub open spec fn live_cells(w: World) -> Seq<(nat, nat)>
    decreases w.len(),
{
    if w.len() == 0 {
        Seq::empty()
    } else {
        live_cells(w.drop_last()) + row_cells(w.last(), (w.len() - 1) as nat)
    }
}

/// The number of live cells of `w`.
pub open spec fn population(w: World) -> nat {
    live_cells(w).len()
}

/// The live cells of a row are its positions that hold a live cell.
pub proof fn lemma_row_cells_member(row: Seq<CellState>, r: nat, p: (nat, nat))
    ensures
        row_cells(row, r).contains(p) <==> (p.0 == r && p.1 < row.len() && row[p.1 as int]
            == CellState::Alive),
    decreases row.len(),
{
    if row.len() > 0 {
        let rest = row_cells(row.drop_last(), r);
        lemma_row_cells_member(row.drop_last(), r, p);
        let here = (r, (row.len() - 1) as nat);
        if row.last() == CellState::Alive {
            if rest.push(here).contains(p) {
                let i = choose|i: int| 0 <= i < rest.push(here).len() && rest.push(here)[i] == p;
                if i < rest.len() {
                    assert(rest[i] == p);
                }
            }
            if rest.contains(p) {
                let i = choose|i: int| 0 <= i < rest.len() && rest[i] == p;
                assert(rest.push(here)[i] == p);
            }
            assert(rest.push(here)[rest.len() as int] == here);
        }
    }
}

/// A pair is among the live cells of a grid exactly when the cell at that
/// position is alive.
pub proof fn lemma_live_cells_member(w: World, p: (nat, nat))
    ensures
        live_cells(w).contains(p) <==> alive_at(w, p.0 as int, p.1 as int),
    decreases w.len(),
{
    if w.len() > 0 {
        let above = live_cells(w.drop_last());
        let below = row_cells(w.last(), (w.len() - 1) as nat);
        lemma_live_cells_member(w.drop_last(), p);
        lemma_row_cells_member(w.last(), (w.len() - 1) as nat, p);
        if (above + below).contains(p) {
            let i = choose|i: int| 0 <= i < (above + below).len() && (above + below)[i] == p;
            if i < above.len() {
                assert(above[i] == p);
            } else {
                assert(below[i - above.len()] == p);
            }
        }
        if above.contains(p) {
            let i = choose|i: int| 0 <= i < above.len() && above[i] == p;
            assert((above + below)[i] == p);
        }
        if below.contains(p) {
            let i = choose|i: int| 0 <= i < below.len() && below[i] == p;
            assert((above + below)[above.len() + i] == p);
        }
    }
}

/// `p` comes before `q` in reading order: in a row above, or in the same row
/// further left.
pub open spec fn reads_before(p: (nat, nat), q: (nat, nat)) -> bool {
    p.0 < q.0 || (p.0 == q.0 && p.1 < q.1)
}

/// `cells` is in reading order, each cell before the next; so no cell occurs twice.
pub open spec fn in_reading_order(cells: Seq<(nat, nat)>) -> bool {
    forall|i: int, j: int| 0 <= i < j < cells.len() ==> reads_before(cells[i], cells[j])
}

/// The live cells of a row come from left to right.
pub proof fn lemma_row_cells_ordered(row: Seq<CellState>, r: nat)
    ensures
        in_reading_order(row_cells(row, r)),
    decreases row.len(),
{
    if row.len() > 0 {
        let rest = row_cells(row.drop_last(), r);
        let cells = row_cells(row, r);
        lemma_row_cells_ordered(row.drop_last(), r);
        assert forall|i: int, j: int| 0 <= i < j < cells.len() implies reads_before(
            cells[i],
            cells[j],
        ) by {
            if j == rest.len() {
                assert(rest.contains(rest[i]));
                lemma_row_cells_member(row.drop_last(), r, rest[i]);
            }
        }
    }
}

/// The live cells of a grid come in reading order, and none comes twice.
pub proof fn lemma_live_cells_ordered(w: World)
    ensures
        in_reading_order(live_cells(w)),
    decreases w.len(),
{
    if w.len() > 0 {
        let above = live_cells(w.drop_last());
        let below = row_cells(w.last(), (w.len() - 1) as nat);
        let cells = live_cells(w);
        lemma_live_cells_ordered(w.drop_last());
        lemma_row_cells_ordered(w.last(), (w.len() - 1) as nat);
        assert forall|i: int, j: int| 0 <= i < j < cells.len() implies reads_before(
            cells[i],
            cells[j],
        ) by {
            if i < above.len() && above.len() <= j {
                assert(above.contains(above[i]));
                lemma_live_cells_member(w.drop_last(), above[i]);
                assert(below.contains(below[j - above.len()]));
                lemma_row_cells_member(w.last(), (w.len() - 1) as nat, below[j - above.len()]);
            }
        }
    }
}

/// A row holds no more live cells than cells.
pub proof fn lemma_row_cells_len(row: Seq<CellState>, r: nat)
    ensures
        row_cells(row, r).len() <= row.len(),
    decreases row.len(),
{
    if row.len() > 0 {
        lemma_row_cells_len(row.drop_last(), r);
    }
}

/// A grid of `rows` rows of `n` cells each holds at most `rows * n` live cells.
pub proof fn lemma_population_rows(w: World, n: nat)
    requires
        forall|r: int| 0 <= r < w.len() ==> (#[trigger] w[r]).len() == n,
    ensures
        population(w) <= w.len() * n,
    decreases w.len(),
{
    if w.len() > 0 {
        let above = w.drop_last();
        assert forall|r: int| 0 <= r < above.len() implies (#[trigger] above[r]).len() == n by {
            assert(above[r] == w[r]);
        }
        lemma_population_rows(above, n);
        lemma_row_cells_len(w.last(), (w.len() - 1) as nat);
        assert(above.len() * n + n == w.len() * n) by (nonlinear_arith)
            requires
                above.len() + 1 == w.len(),
        ;
    }
}

/// A grid of dimension `n` holds at most `n * n` live cells.
pub proof fn lemma_population_bound(w: World, n: nat)
    requires
        is_square(w, n),
    ensures
        population(w) <= n * n,
{
    lemma_population_rows(w, n);
}

/// The population is zero exactly when no cell is alive.
pub proof fn lemma_population_zero(w: World)
    ensures
        population(w) == 0 <==> forall|r: int, c: int| !alive_at(w, r, c),
{
    if population(w) == 0 {
        assert forall|r: int, c: int| !alive_at(w, r, c) by {
            if alive_at(w, r, c) {
                lemma_live_cells_member(w, (r as nat, c as nat));
            }
        }
    } else {
        let p = live_cells(w)[0];
        lemma_live_cells_member(w, p);
    }
}

/// The grid in which every cell is dead has population zero.
pub proof fn lemma_population_all_dead(n: nat)
    ensures
        population(all_dead(n)) == 0,
{
    lemma_population_zero(all_dead(n));
}

/// The live cells of the first `r + 1` rows are those of the first `r` rows,
/// then those of row `r`.
pub proof fn lemma_live_cells_next_row(w: World, r: int)
    requires
        0 <= r < w.len(),
    ensures
        live_cells(w.take(r + 1)) == live_cells(w.take(r)) + row_cells(w[r], r as nat),
{
    assert(w.take(r + 1).drop_last() =~= w.take(r));
}

/// The live cells among the first `c + 1` cells of a row are those among the
/// first `c`, then the cell `c` if it is alive.
pub proof fn lemma_row_cells_next_cell(row: Seq<CellState>, r: nat, c: int)
    requires
        0 <= c < row.len(),
    ensures
        row_cells(row.take(c + 1), r) == if row[c] == CellState::Alive {
            row_cells(row.take(c), r).push((r, c as nat))
        } else {
            row_cells(row.take(c), r)
        },
{
    assert(row.take(c + 1).drop_last() =~= row.take(c));
}

/// Counts the live cells of the grid.
pub fn census(world: &Grid) -> (count: usize)
    requires
        world.wf(),
    ensures
        count == population(world@),
        count <= world.dim() * world.dim(),
{
    proof {
        world.lemma_wf_square();
        lemma_population_bound(world@, world.dim());
    }
    let n: usize = world.size();
    let ghost w = world@;
    let mut count: usize = 0;
    let mut row: usize = 0;
    while row < n
        invariant
            world.wf(),
            w == world@,
            is_square(w, n as nat),
            world.dim() == n,
            population(w) <= usize::MAX,
            row <= n,
            count == live_cells(w.take(row as int)).len(),
        decreases n - row,
    {
        let mut col: usize = 0;
        while col < n
            invariant
                world.wf(),
                w == world@,
                is_square(w, n as nat),
                world.dim() == n,
                population(w) <= usize::MAX,
                row < n,
                col <= n,
                count == live_cells(w.take(row as int)).len() + row_cells(
                    w[row as int].take(col as int),
                    row as nat,
                ).len(),
            decreases n - col,
        {
            proof {
                lemma_row_cells_next_cell(w[row as int], row as nat, col as int);
                lemma_prefix_population(w, row as int, col as int + 1);
            }
            if world.get(row, col) == CellState::Alive {
                count += 1;
            }
            col += 1;
        }
        proof {
            assert(w[row as int].take(n as int) =~= w[row as int]);
            lemma_live_cells_next_row(w, row as int);
        }
        row += 1;
    }
    assert(w.take(n as int) =~= w);
    count
}

/// The live cells above row `r` and left of column `c` in row `r` are no more
/// than the live cells of the whole grid.
proof fn lemma_prefix_population(w: World, r: int, c: int)
    requires
        0 <= r < w.len(),
        0 <= c <= w[r].len(),
    ensures
        live_cells(w.take(r)).len() + row_cells(w[r].take(c), r as nat).len() <= population(w),
    decreases w.len() - r, w[r].len() - c,
{
    if c < w[r].len() {
        lemma_row_cells_next_cell(w[r], r as nat, c);
        lemma_prefix_population(w, r, c + 1);
    } else {
        assert(w[r].take(c) =~= w[r]);
        lemma_live_cells_next_row(w, r);
        if r + 1 < w.len() {
            lemma_prefix_population(w, r + 1, 0);
        } else {
            assert(w.take(r + 1) =~= w);
        }
    }
}

} // verus!
