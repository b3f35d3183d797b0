use game_of_life::census::census;
use game_of_life::grid::{state_of, CellState, Grid};
use game_of_life::random::{init_random, random_rows};

fn grid_from(picture: &[&str]) -> Grid {
    let rows: Vec<Vec<bool>> = picture
        .iter()
        .map(|line| line.chars().map(|ch| ch == '#').collect())
        .collect();
    Grid::from_rows(&rows).expect("the picture is square")
}

#[test]
fn new_grid_is_all_dead() {
    let g = Grid::new(7);
    assert_eq!(g.size(), 7);
    for r in 0..7 {
        for c in 0..7 {
            assert_eq!(g.get(r, c), CellState::Dead);
        }
    }
}

#[test]
fn grid_of_dimension_zero_is_empty() {
    let g = Grid::new(0);
    assert_eq!(g.size(), 0);
    assert_eq!(census(&g), 0);
}

#[test]
fn set_changes_one_cell_only() {
    let mut g = Grid::new(5);
    g.set(1, 3, CellState::Alive);
    for r in 0..5 {
        for c in 0..5 {
            let expected = if (r, c) == (1, 3) { CellState::Alive } else { CellState::Dead };
            assert_eq!(g.get(r, c), expected);
        }
    }
    g.set(1, 3, CellState::Dead);
    assert!(g.same_as(&Grid::new(5)));
}

#[test]
fn set_reaches_the_last_row_and_column() {
    let mut g = Grid::new(40);
    g.set(39, 39, CellState::Alive);
    g.set(0, 39, CellState::Alive);
    g.set(39, 0, CellState::Alive);
    assert_eq!(g.get(39, 39), CellState::Alive);
    assert_eq!(g.get(0, 39), CellState::Alive);
    assert_eq!(g.get(39, 0), CellState::Alive);
    assert_eq!(g.get(38, 38), CellState::Dead);
    assert_eq!(census(&g), 3);
}

#[test]
fn from_rows_reads_bits_row_by_row() {
    let g = grid_from(&[".#.", "..#", "###"]);
    assert_eq!(g.size(), 3);
    assert_eq!(g.get(0, 0), CellState::Dead);
    assert_eq!(g.get(0, 1), CellState::Alive);
    assert_eq!(g.get(1, 2), CellState::Alive);
    assert_eq!(g.get(1, 0), CellState::Dead);
    assert_eq!(g.get(2, 0), CellState::Alive);
    assert_eq!(g.get(2, 1), CellState::Alive);
    assert_eq!(g.get(2, 2), CellState::Alive);
}

#[test]
fn from_rows_refuses_what_is_not_square() {
    assert!(Grid::from_rows(&vec![vec![true, false], vec![true]]).is_none());
    assert!(Grid::from_rows(&vec![vec![true, false, true], vec![true, false, true]]).is_none());
    assert!(Grid::from_rows(&vec![vec![true], vec![false]]).is_none());
    assert!(Grid::from_rows(&vec![vec![]]).is_none());
    assert!(Grid::from_rows(&vec![]).is_some());
    assert!(Grid::from_rows(&vec![vec![true]]).is_some());
}

#[test]
fn same_as_compares_dimension_and_cells() {
    let a = grid_from(&["#.", ".#"]);
    let b = grid_from(&["#.", ".#"]);
    let c = grid_from(&["#.", "##"]);
    let d = grid_from(&["#..", ".#.", "..."]);
    assert!(a.same_as(&b));
    assert!(b.same_as(&a));
    assert!(!a.same_as(&c));
    assert!(!a.same_as(&d));
    assert!(!Grid::new(2).same_as(&Grid::new(3)));
}

#[test]
fn state_of_maps_bits_to_states() {
    assert_eq!(state_of(true), CellState::Alive);
    assert_eq!(state_of(false), CellState::Dead);
}

#[test]
fn census_of_all_dead_grid_is_zero() {
    assert_eq!(census(&Grid::new(40)), 0);
    assert_eq!(census(&Grid::new(1)), 0);
}

#[test]
fn census_of_full_grid_is_n_squared() {
    let rows = vec![vec![true; 40]; 40];
    let g = Grid::from_rows(&rows).unwrap();
    assert_eq!(census(&g), 1600);
    let rows = vec![vec![true; 75]; 75];
    let g = Grid::from_rows(&rows).unwrap();
    assert_eq!(census(&g), 5625);
}

#[test]
fn census_counts_live_cells() {
    let g = grid_from(&["#..#", "....", ".##.", "...#"]);
    assert_eq!(census(&g), 5);
}

#[test]
fn census_counts_the_last_row_and_column() {
    let g = grid_from(&["...", "..#", "###"]);
    assert_eq!(census(&g), 4);
}

#[test]
fn census_never_exceeds_the_cell_count() {
    for n in [0usize, 1, 2, 5, 13] {
        let g = init_random(n);
        assert!(census(&g) <= n * n);
    }
}

#[test]
fn random_rows_are_square() {
    for n in [0usize, 1, 3, 17] {
        let rows = random_rows(n);
        assert_eq!(rows.len(), n);
        assert!(rows.iter().all(|row| row.len() == n));
    }
}

#[test]
fn init_random_has_the_asked_dimension() {
    let g = init_random(40);
    assert_eq!(g.size(), 40);
    let mut seen = 0;
    for r in 0..40 {
        for c in 0..40 {
            if g.get(r, c) == CellState::Alive {
                seen += 1;
            }
        }
    }
    assert_eq!(census(&g), seen);
}

#[test]
fn init_random_draws_both_states() {
    let g = init_random(40);
    let alive = census(&g);
    assert!(alive > 0);
    assert!(alive < 1600);
}
