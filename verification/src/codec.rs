//! The coordinate list: a text with one live cell per line, written as the
//! row and the column in decimal.

use crate::census::{
    lemma_live_cells_member, lemma_live_cells_next_row, lemma_row_cells_next_cell, live_cells,
    row_cells,
};
use crate::grid::{is_square, CellState, Grid, World};
use crate::text::{
    capped, decimal, in_class, is_digit, lemma_decimal_digits, lemma_leading_is_run,
    lemma_number_of_decimal, lemma_run_is_leading, lemma_words_skip_space, leading, number,
    parse_number, scan, split_lines, words, write_decimal, ByteClass, BLANK, LINE_FEED,
};
use vstd::prelude::*;
use vstd::slice::slice_subrange;

verus! {

/// Why a coordinate list is refused.
#[derive(Clone, Copy, Debug, PartialEq, Eq, Structural)]
pub enum LoadError {
    /// Some line does not consist of exactly two numbers.
    Format,
    /// Every line consists of two numbers, and some number lies outside the grid.
    Range,
}

/// The cell that a line names: the line holds exactly two words, and both
/// stand for numbers.
pub open spec fn line_cell(line: Seq<u8>) -> Option<(nat, nat)> {
    let w = words(line);
    if w.len() == 2 && number(w[0]) is Some && number(w[1]) is Some {
        Some((number(w[0])->0, number(w[1])->0))
    } else {
        None
    }
}

/// The cells that the lines name, line by line.
pub open spec fn cells_of(lines: Seq<Seq<u8>>) -> Seq<(nat, nat)> {
    Seq::new(lines.len(), |i: int| line_cell(lines[i])->0)
}

/// Every line names a cell.
pub open spec fn all_lines_name_cells(lines: Seq<Seq<u8>>) -> bool {
    forall|i: int| 0 <= i < lines.len() ==> line_cell(#[trigger] lines[i]) is Some
}

/// The cell lies inside the grid of dimension `n`.
pub open spec fn in_range(p: (nat, nat), n: nat) -> bool {
    p.0 < n && p.1 < n
}

/// Every cell lies inside the grid of dimension `n`.
pub open spec fn all_in_range(cells: Seq<(nat, nat)>, n: nat) -> bool {
    forall|i: int| 0 <= i < cells.len() ==> in_range(#[trigger] cells[i], n)
}

/// The grid of dimension `n` whose live cells are exactly `cells`.
pub open spec fn world_of(n: nat, cells: Seq<(nat, nat)>) -> World {
    Seq::new(
        n,
        |r: int|
            Seq::new(
                n,
                |c: int|
                    if cells.contains((r as nat, c as nat)) {
                        CellState::Alive
                    } else {
                        CellState::Dead
                    },
            ),
    )
}

/// What a text decodes to for the dimension `n`. A line that names no cell
/// anywhere in the text makes it malformed; a well-formed text with a cell
/// outside the grid is out of range; any other text gives the grid whose live
/// cells are the named ones.
pub open spec fn decoded(n: nat, text: Seq<u8>) -> Result<World, LoadError> {
    let lines = split_lines(text);
    if !all_lines_name_cells(lines) {
        Err(LoadError::Format)
    } else if !all_in_range(cells_of(lines), n) {
        Err(LoadError::Range)
    } else {
        Ok(world_of(n, cells_of(lines)))
    }
}

/// From `from` on, a line holds no word if only white space is left; else its
/// next word starts after the white space and runs up to the next white space.
pub proof fn lemma_next_word(s: Seq<u8>, from: int)
    requires
        0 <= from <= s.len(),
    ensures
        ({
            let i = from + leading(s.skip(from), ByteClass::Space);
            let j = i + leading(s.skip(i), ByteClass::Word);
            &&& i <= j <= s.len()
            &&& i < s.len() ==> i < j
            &&& words(s.skip(from)) == if i == s.len() {
                Seq::<Seq<u8>>::empty()
            } else {
                seq![s.subrange(i, j)] + words(s.skip(j))
            }
        }),
{
    let rest = s.skip(from);
    lemma_leading_is_run(rest, ByteClass::Space);
    lemma_words_skip_space(rest);
    let i = from + leading(rest, ByteClass::Space);
    let t = s.skip(i);
    assert(rest.skip(i - from) =~= t);
    lemma_leading_is_run(t, ByteClass::Word);
    let j = i + leading(t, ByteClass::Word);
    if i < s.len() {
        assert(t.take(j - i) =~= s.subrange(i, j));
        assert(t.skip(j - i) =~= s.skip(j));
    }
}

/// Reads one line. The result is `None` where the line names no cell; else it
/// is the row and the column, each replaced by `cap` where it is `cap` or more.
pub fn read_line(line: &[u8], cap: usize) -> (r: Option<(usize, usize)>)
    ensures
        r == match line_cell(line@) {
            Some(p) => Some((capped(p.0, cap as nat) as usize, capped(p.1, cap as nat) as usize)),
            None => None,
        },
{
    let len: usize = line.len();
    proof {
        assert(line@.skip(0) =~= line@);
        lemma_next_word(line@, 0);
    }
    let i1: usize = scan(line, 0, ByteClass::Space);
    if i1 == len {
        return None;
    }
    let j1: usize = scan(line, i1, ByteClass::Word);
    proof {
        lemma_next_word(line@, j1 as int);
    }
    let i2: usize = scan(line, j1, ByteClass::Space);
    if i2 == len {
        return None;
    }
    let j2: usize = scan(line, i2, ByteClass::Word);
    proof {
        lemma_next_word(line@, j2 as int);
    }
    let i3: usize = scan(line, j2, ByteClass::Space);
    if i3 != len {
        return None;
    }
    assert(words(line@) =~= seq![
        line@.subrange(i1 as int, j1 as int),
        line@.subrange(i2 as int, j2 as int),
    ]);
    let row = parse_number(slice_subrange(line, i1, j1), cap);
    let col = parse_number(slice_subrange(line, i2, j2), cap);
    match (row, col) {
        (Some(r), Some(c)) => Some((r, c)),
        _ => None,
    }
}

/// Adding a cell inside the grid to the list makes that one cell alive.
pub proof fn lemma_world_of_push(n: nat, cells: Seq<(nat, nat)>, p: (nat, nat))
    requires
        in_range(p, n),
    ensures
        world_of(n, cells.push(p)) == world_of(n, cells).update(
            p.0 as int,
            world_of(n, cells)[p.0 as int].update(p.1 as int, CellState::Alive),
        ),
{
    let before = world_of(n, cells);
    let after = world_of(n, cells.push(p));
    let expected = before.update(p.0 as int, before[p.0 as int].update(p.1 as int, CellState::Alive));
    assert forall|r: int, c: int| 0 <= r < n && 0 <= c < n implies after[r][c] == expected[r][c] by {
        let q = (r as nat, c as nat);
        if cells.push(p).contains(q) {
            let i = choose|i: int| 0 <= i < cells.push(p).len() && cells.push(p)[i] == q;
            if i < cells.len() {
                assert(cells[i] == q);
            }
        }
        if cells.contains(q) {
            let i = choose|i: int| 0 <= i < cells.len() && cells[i] == q;
            assert(cells.push(p)[i] == q);
        }
        assert(cells.push(p)[cells.len() as int] == p);
    }
    assert(after =~~= expected);
}

/// Decodes a coordinate list into a grid of dimension `n`. Nothing is
/// returned of a text that is refused.
pub fn decode(n: usize, text: &[u8]) -> (r: Result<Grid, LoadError>)
    requires
        n * n <= usize::MAX,
    ensures
        match r {
            Ok(g) => g.wf() && g.dim() == n && decoded(n as nat, text@) == Ok::<World, LoadError>(g@),
            Err(e) => decoded(n as nat, text@) == Err::<World, LoadError>(e),
        },
{
    let len: usize = text.len();
    let mut grid = Grid::new(n);
    let mut outside: bool = false;
    let mut pos: usize = 0;
    let ghost mut done: Seq<Seq<u8>> = Seq::empty();
    proof {
        assert(text@.skip(0) =~= text@);
        assert(grid@ =~~= world_of(n as nat, cells_of(done)));
    }
    while pos < len
        invariant
            len == text@.len(),
            pos <= len,
            grid.wf(),
            grid.dim() == n,
            split_lines(text@) == done + split_lines(text@.skip(pos as int)),
            all_lines_name_cells(done),
            outside <==> !all_in_range(cells_of(done), n as nat),
            !outside ==> grid@ == world_of(n as nat, cells_of(done)),
        decreases len - pos,
    {
        let ghost rest = text@.skip(pos as int);
        let end: usize = scan(text, pos, ByteClass::Line);
        let line = slice_subrange(text, pos, end);
        let next: usize = if end < len {
            end + 1
        } else {
            end
        };
        proof {
            if end < len {
                assert(rest.take(end - pos) =~= line@);
                assert(rest.skip(end - pos + 1) =~= text@.skip(next as int));
            } else {
                assert(rest =~= line@);
            }
            assert(split_lines(rest) =~= seq![line@] + split_lines(text@.skip(next as int)));
            assert(split_lines(text@)[done.len() as int] == line@);
        }
        match read_line(line, n) {
            None => {
                return Err(LoadError::Format);
            },
            Some((row, col)) => {
                let ghost p = line_cell(line@)->0;
                proof {
                    let cells = cells_of(done);
                    let more = cells_of(done.push(line@));
                    assert(more =~= cells.push(p));
                    assert(more[cells.len() as int] == p);
                    assert forall|i: int| 0 <= i < cells.len() implies cells[i] == more[i] by {
                        assert(done.push(line@)[i] == done[i]);
                    }
                    if in_range(p, n as nat) {
                        lemma_world_of_push(n as nat, cells, p);
                    }
                }
                if row >= n || col >= n {
                    outside = true;
                } else if !outside {
                    grid.set(row, col, CellState::Alive);
                }
            },
        }
        proof {
            done = done.push(line@);
        }
        pos = next;
    }
    assert(split_lines(text@) =~= done);
    if outside {
        Err(LoadError::Range)
    } else {
        Ok(grid)
    }
}

/// The line that names a cell: the row, a blank, the column.
pub open spec fn pair_line(p: (nat, nat)) -> Seq<u8> {
    decimal(p.0) + seq![BLANK] + decimal(p.1)
}

/// The lines that name the cells, cell by cell.
pub open spec fn lines_of(cells: Seq<(nat, nat)>) -> Seq<Seq<u8>> {
    Seq::new(cells.len(), |i: int| pair_line(cells[i]))
}

/// The lines with one line feed between each two of them, and none at the end.
pub open spec fn join_lines(lines: Seq<Seq<u8>>) -> Seq<u8>
    decreases lines.len(),
{
    if lines.len() == 0 {
        Seq::empty()
    } else if lines.len() == 1 {
        lines[0]
    } else {
        join_lines(lines.drop_last()) + seq![LINE_FEED] + lines.last()
    }
}

/// The text that a grid encodes to: one line for each live cell, in reading order.
pub open spec fn encoded(w: World) -> Seq<u8> {
    join_lines(lines_of(live_cells(w)))
}

/// Encodes the live cells of the grid as a coordinate list.
pub fn encode(world: &Grid) -> (text: Vec<u8>)
    requires
        world.wf(),
    ensures
        text@ == encoded(world@),
{
    proof {
        world.lemma_wf_square();
    }
    let n: usize = world.size();
    let ghost w = world@;
    let mut text: Vec<u8> = Vec::new();
    let mut first: bool = true;
    let mut row: usize = 0;
    while row < n
        invariant
            world.wf(),
            w == world@,
            is_square(w, n as nat),
            world.dim() == n,
            row <= n,
            first <==> live_cells(w.take(row as int)).len() == 0,
            text@ == join_lines(lines_of(live_cells(w.take(row as int)))),
        decreases n - row,
    {
        let mut col: usize = 0;
        let ghost above = live_cells(w.take(row as int));
        while col < n
            invariant
                world.wf(),
                w == world@,
                is_square(w, n as nat),
                world.dim() == n,
                row < n,
                col <= n,
                above == live_cells(w.take(row as int)),
                first <==> (above + row_cells(w[row as int].take(col as int), row as nat)).len()
                    == 0,
                text@ == join_lines(
                    lines_of(above + row_cells(w[row as int].take(col as int), row as nat)),
                ),
            decreases n - col,
        {
            let ghost so_far = above + row_cells(w[row as int].take(col as int), row as nat);
            proof {
                lemma_row_cells_next_cell(w[row as int], row as nat, col as int);
            }
            if world.get(row, col) == CellState::Alive {
                let ghost p = (row as nat, col as nat);
                let ghost before = text@;
                if !first {
                    text.push(LINE_FEED);
                }
                write_decimal(&mut text, row);
                text.push(BLANK);
                write_decimal(&mut text, col);
                proof {
                    assert(above + row_cells(w[row as int].take(col as int), row as nat).push(p)
                        =~= so_far.push(p));
                    assert(lines_of(so_far.push(p)).drop_last() =~= lines_of(so_far));
                    assert(text@ =~= if first {
                        pair_line(p)
                    } else {
                        before + seq![LINE_FEED] + pair_line(p)
                    });
                }
                first = false;
            }
            col += 1;
        }
        proof {
            assert(w[row as int].take(n as int) =~= w[row as int]);
            lemma_live_cells_next_row(w, row as int);
        }
        row += 1;
    }
    assert(w.take(n as int) =~= w);
    text
}

/// The line is not empty and holds no line feed.
pub open spec fn plain_line(line: Seq<u8>) -> bool {
    line.len() > 0 && forall|i: int| 0 <= i < line.len() ==> #[trigger] line[i] != LINE_FEED
}

/// A joined text starts with its first line; a line feed and the other lines
/// joined follow, if there are others.
pub proof fn lemma_join_first(first: Seq<u8>, rest: Seq<Seq<u8>>)
    requires
        rest.len() > 0,
    ensures
        join_lines(seq![first] + rest) == first + seq![LINE_FEED] + join_lines(rest),
    decreases rest.len(),
{
    let all = seq![first] + rest;
    if rest.len() == 1 {
        assert(all.drop_last() =~= seq![first]);
        assert(join_lines(seq![first]) == first);
    } else {
        assert(all.drop_last() =~= seq![first] + rest.drop_last());
        lemma_join_first(first, rest.drop_last());
    }
}

/// Lines that are joined and split again are the same lines, provided none of
/// them is empty or holds a line feed.
pub proof fn lemma_split_join(lines: Seq<Seq<u8>>)
    requires
        forall|i: int| 0 <= i < lines.len() ==> plain_line(#[trigger] lines[i]),
    ensures
        split_lines(join_lines(lines)) == lines,
    decreases lines.len(),
{
    if lines.len() == 1 {
        let line = lines[0];
        lemma_run_is_leading(line, ByteClass::Line, line.len() as int);
    } else if lines.len() > 1 {
        let first = lines[0];
        let rest = lines.drop_first();
        lemma_join_first(first, rest);
        let text = first + seq![LINE_FEED] + join_lines(rest);
        assert forall|i: int| 0 <= i < first.len() implies in_class(
            ByteClass::Line,
            #[trigger] text[i],
        ) by {
            assert(text[i] == first[i]);
        }
        lemma_run_is_leading(text, ByteClass::Line, first.len() as int);
        assert(text.take(first.len() as int) =~= first);
        assert(text.skip(first.len() + 1 as int) =~= join_lines(rest));
        assert forall|i: int| 0 <= i < rest.len() implies plain_line(#[trigger] rest[i]) by {
            assert(rest[i] == lines[i + 1]);
        }
        lemma_split_join(rest);
        assert(split_lines(text) =~= lines);
    }
}

/// The line written for a cell names that cell.
pub proof fn lemma_line_cell_of_pair(p: (nat, nat))
    ensures
        line_cell(pair_line(p)) == Some(p),
        plain_line(pair_line(p)),
{
    let a = decimal(p.0);
    let b = decimal(p.1);
    let line = pair_line(p);
    let mid = a.len() as int;
    let len = line.len() as int;
    lemma_decimal_digits(p.0);
    lemma_decimal_digits(p.1);
    lemma_number_of_decimal(p.0);
    lemma_number_of_decimal(p.1);
    // The line is digits, one blank, digits.
    assert forall|i: int| 0 <= i < len implies (if i == mid {
        line[i] == BLANK
    } else {
        is_digit(#[trigger] line[i])
    }) by {
        if i < mid {
            assert(line[i] == a[i]);
        } else if i > mid {
            assert(line[i] == b[i - mid - 1]);
        }
    }
    // The first word is the row: no white space before it, the blank after it.
    lemma_run_is_leading(line, ByteClass::Space, 0);
    lemma_run_is_leading(line, ByteClass::Word, mid);
    lemma_next_word(line, 0);
    assert(line.subrange(0, mid) =~= a);
    // The second word is the column: one blank before it, the end after it.
    lemma_run_is_leading(line.skip(mid), ByteClass::Space, 1);
    assert(line.skip(mid + 1) =~= b);
    lemma_run_is_leading(b, ByteClass::Word, b.len() as int);
    lemma_next_word(line, mid);
    assert(line.subrange(mid + 1, len) =~= b);
    // Nothing follows.
    lemma_next_word(line, len);
    assert(words(line) =~= seq![a, b]);
}

/// The grid whose live cells are the live cells of `w` is `w`.
pub proof fn lemma_world_of_live_cells(w: World, n: nat)
    requires
        is_square(w, n),
    ensures
        all_in_range(live_cells(w), n),
        world_of(n, live_cells(w)) == w,
{
    let cells = live_cells(w);
    assert forall|i: int| 0 <= i < cells.len() implies in_range(#[trigger] cells[i], n) by {
        assert(cells.contains(cells[i]));
        lemma_live_cells_member(w, cells[i]);
    }
    assert forall|r: int, c: int| 0 <= r < n && 0 <= c < n implies world_of(n, cells)[r][c]
        == w[r][c] by {
        lemma_live_cells_member(w, (r as nat, c as nat));
    }
    assert(world_of(n, cells) =~~= w);
}

/// A grid that is encoded and decoded again, for its own dimension, is the
/// same grid.
pub proof fn lemma_round_trip(w: World, n: nat)
    requires
        is_square(w, n),
    ensures
        decoded(n, encoded(w)) == Ok::<World, LoadError>(w),
{
    let cells = live_cells(w);
    let lines = lines_of(cells);
    assert forall|i: int| 0 <= i < lines.len() implies plain_line(#[trigger] lines[i])
        && line_cell(lines[i]) == Some(cells[i]) by {
        lemma_line_cell_of_pair(cells[i]);
    }
    lemma_split_join(lines);
    assert(cells_of(lines) =~= cells);
    lemma_world_of_live_cells(w, n);
}

} // verus!
