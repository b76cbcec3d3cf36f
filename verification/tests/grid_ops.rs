use sudoku_solver::Cell;
use sudoku_solver::Grid;
use sudoku_solver::KnownValue;

#[test]
fn fresh_cell_has_all_nine_candidates() {
    let cell = Cell::new();
    assert!(!cell.evaluated);
    assert_eq!(cell.possibilities, vec![1, 2, 3, 4, 5, 6, 7, 8, 9]);
}

#[test]
fn unseeded_grid_is_completely_open() {
    let grid = Grid::new(Vec::new());
    assert_eq!(grid.cells.len(), 81);
    for cell in &grid.cells {
        assert!(!cell.evaluated);
        assert_eq!(cell.possibilities, vec![1, 2, 3, 4, 5, 6, 7, 8, 9]);
    }
}

#[test]
fn known_value_narrows_its_cell() {
    // row 1, column 7 is linear index 6
    let grid = Grid::new(vec![KnownValue::new(1, 7, 2)]);
    assert_eq!(grid.cells[6].possibilities, vec![2]);
    assert!(!grid.cells[6].evaluated);
    assert_eq!(grid.cells[5].possibilities, vec![1, 2, 3, 4, 5, 6, 7, 8, 9]);
    assert_eq!(grid.cells[80].possibilities, vec![1, 2, 3, 4, 5, 6, 7, 8, 9]);
}

#[test]
fn later_known_value_overwrites_earlier() {
    let grid = Grid::new(vec![KnownValue::new(3, 4, 5), KnownValue::new(3, 4, 8)]);
    // row 3, column 4 is linear index 2 * 9 + 3 = 21
    assert_eq!(grid.cells[21].possibilities, vec![8]);
}

#[test]
fn set_value_collapses_and_commits() {
    let mut grid = Grid::new(Vec::new());
    grid.set_value(40, 7);
    assert_eq!(grid.cells[40].possibilities, vec![7]);
    assert!(grid.cells[40].evaluated);
    assert!(!grid.cells[39].evaluated);
    assert_eq!(grid.cells[39].possibilities, vec![1, 2, 3, 4, 5, 6, 7, 8, 9]);
}

#[test]
fn remove_possibility_deletes_the_value() {
    let mut grid = Grid::new(Vec::new());
    grid.remove_possibility(10, 4);
    assert_eq!(grid.cells[10].possibilities, vec![1, 2, 3, 5, 6, 7, 8, 9]);
    assert!(!grid.cells[10].evaluated);
}

#[test]
fn remove_possibility_twice_equals_once() {
    let mut once = Grid::new(Vec::new());
    once.remove_possibility(10, 4);
    let mut twice = Grid::new(Vec::new());
    twice.remove_possibility(10, 4);
    twice.remove_possibility(10, 4);
    assert_eq!(once.cells[10].possibilities, twice.cells[10].possibilities);
    assert_eq!(once.cells[10].evaluated, twice.cells[10].evaluated);
}

#[test]
fn remove_possibility_of_absent_value_is_a_noop() {
    let mut grid = Grid::new(vec![KnownValue::new(1, 1, 9)]);
    grid.remove_possibility(0, 3);
    assert_eq!(grid.cells[0].possibilities, vec![9]);
}

#[test]
fn num_possibilities_tracks_removals() {
    let mut grid = Grid::new(Vec::new());
    assert_eq!(grid.num_possibilities(25), 9);
    grid.remove_possibility(25, 1);
    grid.remove_possibility(25, 2);
    assert_eq!(grid.num_possibilities(25), 7);
    for v in 1..=9 {
        grid.remove_possibility(25, v);
    }
    assert_eq!(grid.num_possibilities(25), 0);
}
