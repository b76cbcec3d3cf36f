use sudoku_solver::solve;
use sudoku_solver::Grid;
use sudoku_solver::KnownValue;

/// The value at (row, column), both 0-based, of a completed grid built from
/// cyclically shifted rows; a valid Sudoku solution.
fn pattern_value(row: usize, column: usize) -> usize {
    let shift = (row % 3) * 3 + row / 3;
    (column + shift) % 9 + 1
}

/// Known values covering the first eight rows of the pattern grid; the last
/// row is then forced by the column constraints.
fn eight_row_puzzle() -> Vec<KnownValue> {
    let mut known = Vec::new();
    for row in 0..8 {
        for column in 0..9 {
            known.push(KnownValue::new(row + 1, column + 1, pattern_value(row, column)));
        }
    }
    known
}

/// The single committed value of each cell of a solved grid.
fn values_of(grid: &Grid) -> Vec<usize> {
    grid.cells
        .iter()
        .map(|cell| {
            assert_eq!(cell.possibilities.len(), 1);
            cell.possibilities[0]
        })
        .collect()
}

#[test]
fn contradictory_row_seed_has_no_solutions() {
    let grid = Grid::new(vec![KnownValue::new(1, 1, 5), KnownValue::new(1, 9, 5)]);
    assert!(solve(grid).is_empty());
}

#[test]
fn contradictory_block_seed_has_no_solutions() {
    let grid = Grid::new(vec![KnownValue::new(1, 1, 7), KnownValue::new(2, 2, 7)]);
    assert!(solve(grid).is_empty());
}

#[test]
fn contradictory_column_seed_has_no_solutions() {
    let grid = Grid::new(vec![KnownValue::new(2, 4, 3), KnownValue::new(9, 4, 3)]);
    assert!(solve(grid).is_empty());
}

#[test]
fn forced_puzzle_has_exactly_the_expected_solution() {
    let solutions = solve(Grid::new(eight_row_puzzle()));
    assert_eq!(solutions.len(), 1);
    let values = values_of(&solutions[0]);
    for row in 0..9 {
        for column in 0..9 {
            assert_eq!(values[row * 9 + column], pattern_value(row, column));
        }
    }
}

#[test]
fn solutions_preserve_seeded_values() {
    let solutions = solve(Grid::new(eight_row_puzzle()));
    assert_eq!(solutions.len(), 1);
    let values = values_of(&solutions[0]);
    // spot-check seeded cells against their known values
    assert_eq!(values[0], pattern_value(0, 0));
    assert_eq!(values[8], pattern_value(0, 8));
    assert_eq!(values[7 * 9 + 4], pattern_value(7, 4));
}

#[test]
fn single_seed_survives_into_solutions() {
    // seed the last row's first cell on top of the forced puzzle: that lone
    // extra seed must come through unchanged in the solution
    let mut known = eight_row_puzzle();
    known.push(KnownValue::new(9, 1, pattern_value(8, 0)));
    let solutions = solve(Grid::new(known));
    assert_eq!(solutions.len(), 1);
    let values = values_of(&solutions[0]);
    assert_eq!(values[8 * 9], pattern_value(8, 0));
}

#[test]
fn solution_satisfies_all_units() {
    let solutions = solve(Grid::new(eight_row_puzzle()));
    assert_eq!(solutions.len(), 1);
    let values = values_of(&solutions[0]);
    for unit in 0..9 {
        let mut row_seen = vec![false; 10];
        let mut column_seen = vec![false; 10];
        let mut block_seen = vec![false; 10];
        for k in 0..9 {
            let row_value = values[unit * 9 + k];
            let column_value = values[k * 9 + unit];
            let block_index =
                (unit / 3) * 27 + (unit % 3) * 3 + (k / 3) * 9 + k % 3;
            let block_value = values[block_index];
            assert!((1..=9).contains(&row_value));
            assert!((1..=9).contains(&column_value));
            assert!((1..=9).contains(&block_value));
            assert!(!row_seen[row_value]);
            assert!(!column_seen[column_value]);
            assert!(!block_seen[block_value]);
            row_seen[row_value] = true;
            column_seen[column_value] = true;
            block_seen[block_value] = true;
        }
    }
}

#[test]
fn solving_twice_gives_the_same_solutions() {
    let first = solve(Grid::new(eight_row_puzzle()));
    let second = solve(Grid::new(eight_row_puzzle()));
    let first_values: Vec<Vec<usize>> = first.iter().map(values_of).collect();
    let second_values: Vec<Vec<usize>> = second.iter().map(values_of).collect();
    assert_eq!(first_values, second_values);
}

#[test]
fn fully_seeded_grid_solves_to_itself() {
    let mut known = Vec::new();
    for row in 0..9 {
        for column in 0..9 {
            known.push(KnownValue::new(row + 1, column + 1, pattern_value(row, column)));
        }
    }
    let solutions = solve(Grid::new(known));
    assert_eq!(solutions.len(), 1);
    let values = values_of(&solutions[0]);
    for row in 0..9 {
        for column in 0..9 {
            assert_eq!(values[row * 9 + column], pattern_value(row, column));
        }
    }
}
