use solvers::patrol::{rotate, Directions, Grid, Outcome};

#[test]
fn open_grid_exits_north() {
    let mut grid = Grid::new("....\n.^..\n....\n....").expect("valid grid");
    let outcome = grid.run_simulation();
    assert_eq!(outcome, Outcome::OutOfBounds);
    assert_eq!(grid.visited_cell_count(), 2);
}

#[test]
fn open_grid_exits_east() {
    let mut grid = Grid::new("...\n.>.\n...").expect("valid grid");
    let outcome = grid.run_simulation();
    assert_eq!(outcome, Outcome::OutOfBounds);
    assert_eq!(grid.visited_cell_count(), 2);
}

#[test]
fn obstacle_ahead_turns_instead_of_moving() {
    let mut grid = Grid::new(".#..\n.^..\n....\n....").expect("valid grid");
    assert_eq!(grid.guard_position(), 5);
    assert_eq!(grid.guard_marker(), '^');
    let step = grid.move_guard();
    assert_eq!(step, Some(1));
    assert_eq!(grid.guard_position(), 5);
    assert_eq!(grid.guard_marker(), '>');
}

#[test]
fn revisited_state_reports_loop() {
    // A closed box of obstacles traps the marker.
    let mut grid = Grid::new(".#..\n.^.#\n#...\n..#.").expect("valid grid");
    let outcome = grid.run_simulation();
    assert_eq!(outcome, Outcome::LoopDetected);
}

#[test]
fn example_patrol_counts() {
    let content = "....#.....\n\
                   .........#\n\
                   ..........\n\
                   ..#.......\n\
                   .......#..\n\
                   ..........\n\
                   .#..^.....\n\
                   ........#.\n\
                   #.........\n\
                   ......#...";
    let fresh = Grid::new(content).expect("valid grid");
    let mut sim = Grid::new(content).expect("valid grid");
    assert_eq!(sim.run_simulation(), Outcome::OutOfBounds);
    assert_eq!(sim.visited_cell_count(), 41);
    assert_eq!(fresh.count_loop_positions(&sim), 6);
}

#[test]
fn invalid_grids_are_rejected() {
    assert!(Grid::new("").is_none());
    assert!(Grid::new("..\n...").is_none());
    assert!(Grid::new("..\n..").is_none());
    assert!(Grid::new("^^\n..").is_none());
    assert!(Grid::new(".x\n.^").is_none());
}

#[test]
fn rotate_turns_clockwise() {
    assert_eq!(rotate('^'), Some('>'));
    assert_eq!(rotate('>'), Some('v'));
    assert_eq!(rotate('v'), Some('<'));
    assert_eq!(rotate('<'), Some('^'));
    assert_eq!(rotate('x'), None);
}

#[test]
fn coordinate_helpers() {
    let grid = Grid::new("^..\n...").expect("valid grid");
    assert_eq!(grid.coord_to_linear(1, 1), 4);
    assert_eq!(grid.linear_to_coord(4), (1, 1));
    assert_eq!(grid.direction_offset(&Directions::N), -3);
    assert_eq!(grid.direction_offset(&Directions::S), 3);
    assert_eq!(grid.direction_offset(&Directions::E), 1);
    assert_eq!(grid.direction_offset(&Directions::W), -1);
    assert_eq!(grid.direction_offset_vec(&Directions::N), (0, -1));
    assert_eq!(grid.direction_offset_vec(&Directions::S), (0, 1));
    assert!(grid.is_in_bounds_vec(2, 1));
    assert!(!grid.is_in_bounds_vec(3, 0));
    assert!(!grid.is_in_bounds_vec(0, -1));
}

#[test]
fn show_renders_rows() {
    let grid = Grid::new("..\n^.").expect("valid grid");
    assert_eq!(grid.show(), "..\n^.\n");
}
