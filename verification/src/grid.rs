//! The square grid of cells and its mathematical model.

use vstd::prelude::*;

verus! {

/// The state of one cell.
#[derive(Clone, Copy, Debug, PartialEq, Eq, Structural)]
pub enum CellState {
    Dead,
    Alive,
}

/// A grid as a mathematical value: its rows from top to bottom, each row
/// holding its cells from left to right.
pub type World = Seq<Seq<CellState>>;

/// `w` has `n` rows of `n` cells each.
pub open spec fn is_square(w: World, n: nat) -> bool {
    &&& w.len() == n
    &&& forall|r: int| 0 <= r < n ==> (#[trigger] w[r]).len() == n
}

/// The cell at `(r, c)` lies inside `w` and is alive. Every position outside
/// the grid counts as dead.
pub open spec fn alive_at(w: World, r: int, c: int) -> bool {
    0 <= r < w.len() && 0 <= c < w[r].len() && w[r][c] == CellState::Alive
}

/// The grid of dimension `n` in which every cell is dead.
pub open spec fn all_dead(n: nat) -> World {
    Seq::new(n, |r: int| Seq::new(n, |c: int| CellState::Dead))
}

/// The state that stands for a bit: alive for `true`, dead for `false`.
pub open spec fn state_of_bit(bit: bool) -> CellState {
    if bit {
        CellState::Alive
    } else {
        CellState::Dead
    }
}

/// The grid that rows of bits stand for, bit by bit.
pub open spec fn world_of_bits(rows: Seq<Seq<bool>>) -> World {
    Seq::new(rows.len(), |r: int| Seq::new(rows[r].len(), |c: int| state_of_bit(rows[r][c])))
}

/// There are `n` rows of `n` bits each.
pub open spec fn is_square_of_bits(rows: Seq<Seq<bool>>, n: nat) -> bool {
    &&& rows.len() == n
    &&& forall|r: int| 0 <= r < n ==> (#[trigger] rows[r]).len() == n
}

/// A square grid of fixed dimension.
#[derive(Debug)]
pub struct Grid {
    size: usize,
    cells: Vec<Vec<CellState>>,
}

impl View for Grid {
    type V = World;

    closed spec fn view(&self) -> World {
        Seq::new(self.cells@.len(), |r: int| self.cells@[r]@)
    }
}

impl Grid {
    /// The dimension `N` of the grid.
    pub closed spec fn dim(&self) -> nat {
        self.size as nat
    }

    /// The representation is consistent: `N` rows of `N` cells, and `N * N`
    /// fits in a machine word.
    pub closed spec fn wf(&self) -> bool {
        &&& self.cells@.len() == self.size
        &&& forall|r: int| 0 <= r < self.size ==> (#[trigger] self.cells@[r])@.len() == self.size
        &&& self.size * self.size <= usize::MAX
    }

    /// A well-formed grid is square, and its cell count fits in a machine word.
    pub proof fn lemma_wf_square(&self)
        requires
            self.wf(),
        ensures
            is_square(self@, self.dim()),
            self.dim() * self.dim() <= usize::MAX,
    {
    }

    /// Creates the grid of dimension `n` with every cell dead.
    pub fn new(n: usize) -> (g: Grid)
        requires
            n * n <= usize::MAX,
        ensures
            g.wf(),
            g.dim() == n,
            g@ == all_dead(n as nat),
    {
        let mut cells: Vec<Vec<CellState>> = Vec::new();
        let mut r: usize = 0;
        while r < n
            invariant
                r <= n,
                cells@.len() == r,
                forall|i: int|
                    0 <= i < r ==> (#[trigger] cells@[i])@ == Seq::new(
                        n as nat,
                        |c: int| CellState::Dead,
                    ),
            decreases n - r,
        {
            let mut row: Vec<CellState> = Vec::new();
            let mut c: usize = 0;
            while c < n
                invariant
                    c <= n,
                    row@ == Seq::new(c as nat, |k: int| CellState::Dead),
                decreases n - c,
            {
                row.push(CellState::Dead);
                c += 1;
            }
            cells.push(row);
            r += 1;
        }
        Grid { size: n, cells }
    }

    /// Creates the grid that the rows of bits stand for. There is none where
    /// the rows do not form a square, or where the square has more cells than
    /// a machine word counts.
    pub fn from_rows(rows: &Vec<Vec<bool>>) -> (made: Option<Grid>)
        ensures
            made is Some <==> (is_square_of_bits(rows.deep_view(), rows@.len()) && rows@.len()
                * rows@.len() <= usize::MAX),
            made is Some ==> {
                &&& made->0.wf()
                &&& made->0.dim() == rows@.len()
                &&& made->0@ == world_of_bits(rows.deep_view())
            },
    {
        let n: usize = rows.len();
        let ghost bits = rows.deep_view();
        if n.checked_mul(n).is_none() {
            return None;
        }
        let mut grid = Grid::new(n);
        let mut row: usize = 0;
        while row < n
            invariant
                n == rows@.len(),
                bits == rows.deep_view(),
                grid.wf(),
                grid.size == n,
                row <= n,
                forall|r: int| 0 <= r < row ==> (#[trigger] bits[r]).len() == n,
                forall|r: int, c: int|
                    0 <= r < row && 0 <= c < n ==> #[trigger] grid@[r][c] == state_of_bit(
                        bits[r][c],
                    ),
            decreases n - row,
        {
            if rows[row].len() != n {
                return None;
            }
            let mut col: usize = 0;
            while col < n
                invariant
                    n == rows@.len(),
                    bits == rows.deep_view(),
                    grid.wf(),
                    grid.size == n,
                    row < n,
                    col <= n,
                    bits[row as int] == rows@[row as int]@,
                    bits[row as int].len() == n,
                    forall|r: int, c: int|
                        0 <= r < row && 0 <= c < n ==> #[trigger] grid@[r][c] == state_of_bit(
                            bits[r][c],
                        ),
                    forall|c: int|
                        0 <= c < col ==> #[trigger] grid@[row as int][c] == state_of_bit(
                            bits[row as int][c],
                        ),
                decreases n - col,
            {
                let state = state_of(rows[row][col]);
                grid.set(row, col, state);
                col += 1;
            }
            row += 1;
        }
        assert(grid@ =~~= world_of_bits(bits));
        Some(grid)
    }

    /// The dimension `N`.
    pub fn size(&self) -> (n: usize)
        ensures
            n == self.dim(),
    {
        self.size
    }

    /// The state of the cell at `(row, col)`.
    pub fn get(&self, row: usize, col: usize) -> (state: CellState)
        requires
            self.wf(),
            row < self.dim(),
            col < self.dim(),
        ensures
            state == self@[row as int][col as int],
    {
        self.cells[row][col]
    }

    /// Sets the cell at `(row, col)` to `state` and leaves every other cell as
    /// it was.
    pub fn set(&mut self, row: usize, col: usize, state: CellState)
        requires
            old(self).wf(),
            row < old(self).dim(),
            col < old(self).dim(),
        ensures
            final(self).wf(),
            final(self).dim() == old(self).dim(),
            final(self)@ == old(self)@.update(
                row as int,
                old(self)@[row as int].update(col as int, state),
            ),
    {
        self.cells[row][col] = state;
        assert(self@ =~~= old(self)@.update(
            row as int,
            old(self)@[row as int].update(col as int, state),
        ));
    }

    /// Tells whether the two grids have the same dimension and the same cells.
    pub fn same_as(&self, other: &Grid) -> (same: bool)
        requires
            self.wf(),
            other.wf(),
        ensures
            same == (self@ == other@),
    {
        if self.size != other.size {
            assert(self@.len() != other@.len());
            return false;
        }
        let n: usize = self.size;
        let mut row: usize = 0;
        while row < n
            invariant
                self.wf(),
                other.wf(),
                self.size == n,
                other.size == n,
                row <= n,
                forall|r: int| 0 <= r < row ==> #[trigger] self@[r] == other@[r],
            decreases n - row,
        {
            let mut col: usize = 0;
            while col < n
                invariant
                    self.wf(),
                    other.wf(),
                    self.size == n,
                    other.size == n,
                    row < n,
                    col <= n,
                    forall|c: int|
                        0 <= c < col ==> #[trigger] self@[row as int][c] == other@[row as int][c],
                decreases n - col,
            {
                if self.cells[row][col] != other.cells[row][col] {
                    assert(self@[row as int][col as int] != other@[row as int][col as int]);
                    return false;
                }
                col += 1;
            }
            row += 1;
        }
        assert(self@ =~= other@);
        true
    }
}

/// The state that stands for a bit: alive for `true`, dead for `false`.
pub fn state_of(bit: bool) -> (state: CellState)
    ensures
        state == state_of_bit(bit),
{
    if bit {
        CellState::Alive
    } else {
        CellState::Dead
    }
}

} // verus!
