use sudoku_solver::get_neighbours;

#[test]
fn every_cell_has_twenty_distinct_neighbours() {
    for cell in 0..81 {
        let ns = get_neighbours(cell);
        assert_eq!(ns.len(), 20);
        assert!(!ns.contains(&cell));
        for n in &ns {
            assert!(*n < 81);
        }
        for a in 0..ns.len() {
            for b in (a + 1)..ns.len() {
                assert_ne!(ns[a], ns[b]);
            }
        }
    }
}

#[test]
fn neighbour_relation_is_symmetric() {
    for cell in 0..81 {
        for n in get_neighbours(cell) {
            assert!(get_neighbours(n).contains(&cell));
        }
    }
}

#[test]
fn corner_cell_has_expected_neighbours() {
    let mut ns = get_neighbours(0);
    ns.sort();
    let mut expected = vec![
        // the rest of row 0
        1, 2, 3, 4, 5, 6, 7, 8,
        // the rest of column 0
        9, 18, 27, 36, 45, 54, 63, 72,
        // the rest of the top-left block
        10, 11, 19, 20,
    ];
    expected.sort();
    assert_eq!(ns, expected);
}

#[test]
fn centre_cell_has_expected_neighbours() {
    let mut ns = get_neighbours(40);
    ns.sort();
    let mut expected = vec![
        // the rest of row 4
        36, 37, 38, 39, 41, 42, 43, 44,
        // the rest of column 4
        4, 13, 22, 31, 49, 58, 67, 76,
        // the rest of the middle block
        30, 32, 48, 50,
    ];
    expected.sort();
    assert_eq!(ns, expected);
}
