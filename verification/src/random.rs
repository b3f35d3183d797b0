//! A grid filled by chance.

use crate::grid::{is_square_of_bits, Grid};
use vstd::prelude::*;

verus! {

/// Draws one bit from the thread-local generator of the `rand` crate, through
/// `rand::random::<bool>()`. Nothing is claimed of the bit: it may be either
/// value, and two draws need not agree.
#[verifier::external_body]
fn random_bit() -> (bit: bool) {
    rand::random::<bool>()
}

/// Draws `n` rows of `n` bits, one draw for each bit.
pub fn random_rows(n: usize) -> (rows: Vec<Vec<bool>>)
    ensures
        is_square_of_bits(rows.deep_view(), n as nat),
{
    let mut rows: Vec<Vec<bool>> = Vec::new();
    let mut r: usize = 0;
    while r < n
        invariant
            r <= n,
            rows@.len() == r,
            forall|i: int| 0 <= i < r ==> (#[trigger] rows@[i])@.len() == n,
        decreases n - r,
    {
        let mut row: Vec<bool> = Vec::new();
        let mut c: usize = 0;
        while c < n
            invariant
                c <= n,
                row@.len() == c,
            decreases n - c,
        {
            row.push(random_bit());
            c += 1;
        }
        rows.push(row);
        r += 1;
    }
    assert forall|i: int| 0 <= i < n implies (#[trigger] rows.deep_view()[i]).len() == n by {
        assert(rows.deep_view()[i] == rows@[i]@);
    }
    rows
}

/// Creates a grid of dimension `n` in which every cell is alive or dead by
/// one draw of its own: the grid that `Grid::from_rows` makes of the drawn
/// bits. Whatever is drawn, the grid is well formed.
pub fn init_random(n: usize) -> (g: Grid)
    requires
        n * n <= usize::MAX,
    ensures
        g.wf(),
        g.dim() == n,
{
    let rows = random_rows(n);
    Grid::from_rows(&rows).unwrap()
}

} // verus!
