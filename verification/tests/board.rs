use numberlink::grid::{CellState, Coordinate, Direction, Grid, PuzzleError};
use numberlink::propagate::propagate;
use numberlink::solve::render_board;

fn pair(r1: usize, c1: usize, r2: usize, c2: usize) -> (Coordinate, Coordinate) {
    (Coordinate::new(r1, c1), Coordinate::new(r2, c2))
}

fn snapshot(g: &Grid) -> Vec<CellState> {
    let mut cells = Vec::new();
    for r in 0..g.rows() {
        for c in 0..g.cols() {
            cells.push(g.get(Coordinate::new(r, c)));
        }
    }
    cells
}

#[test]
fn zero_dimension_is_rejected() {
    let pairs = vec![pair(0, 0, 0, 1)];
    assert_eq!(Grid::new(0, 5, &pairs).err(), Some(PuzzleError::ZeroDimension));
    assert_eq!(Grid::new(5, 0, &pairs).err(), Some(PuzzleError::ZeroDimension));
}

#[test]
fn oversized_grid_is_rejected() {
    let pairs = vec![pair(0, 0, 0, 1)];
    assert_eq!(
        Grid::new(usize::MAX, 2, &pairs).err(),
        Some(PuzzleError::GridTooLarge)
    );
}

#[test]
fn too_many_pairs_are_rejected() {
    let mut pairs = Vec::new();
    for i in 0..27 {
        pairs.push(pair(i, 0, i, 1));
    }
    assert_eq!(
        Grid::new(30, 30, &pairs).err(),
        Some(PuzzleError::TooManyPairs)
    );
}

#[test]
fn out_of_bounds_terminal_is_rejected() {
    let pairs = vec![pair(0, 0, 2, 5)];
    assert_eq!(Grid::new(3, 3, &pairs).err(), Some(PuzzleError::OutOfBounds));
}

#[test]
fn duplicate_terminal_is_rejected() {
    let pairs = vec![pair(0, 0, 1, 1), pair(2, 2, 1, 1)];
    assert_eq!(
        Grid::new(3, 3, &pairs).err(),
        Some(PuzzleError::DuplicateTerminal)
    );
    let degenerate = vec![pair(0, 0, 0, 0)];
    assert_eq!(
        Grid::new(3, 3, &degenerate).err(),
        Some(PuzzleError::DuplicateTerminal)
    );
}

#[test]
fn initial_grid_has_givens_and_unknowns() {
    let pairs = vec![pair(0, 0, 0, 2)];
    let g = Grid::new(1, 3, &pairs).expect("valid puzzle");
    assert_eq!(g.get(Coordinate::new(0, 0)), CellState::Given(0));
    assert_eq!(g.get(Coordinate::new(0, 1)), CellState::Unknown);
    assert_eq!(g.get(Coordinate::new(0, 2)), CellState::Given(0));
}

#[test]
fn propagation_forces_the_only_continuation() {
    let pairs = vec![pair(0, 0, 0, 2)];
    let mut g = Grid::new(1, 3, &pairs).expect("valid puzzle");
    propagate(&mut g);
    assert_eq!(g.get(Coordinate::new(0, 1)), CellState::Forced(0));
}

#[test]
fn propagation_is_idempotent() {
    let pairs = vec![pair(0, 0, 0, 2), pair(1, 0, 2, 2)];
    let mut g = Grid::new(3, 3, &pairs).expect("valid puzzle");
    propagate(&mut g);
    let first = snapshot(&g);
    propagate(&mut g);
    let second = snapshot(&g);
    assert_eq!(first, second);
}

#[test]
fn render_marks_unresolved_cells() {
    let pairs = vec![pair(0, 0, 1, 2)];
    let g = Grid::new(2, 3, &pairs).expect("valid puzzle");
    let text = String::from_utf8(render_board(&g).expect("render fits")).expect("ascii");
    assert_eq!(text, "A . . \n. . A \n");
}

#[test]
fn neighbor_query_lists_in_bounds_cells() {
    let pairs = vec![pair(0, 0, 0, 2)];
    let g = Grid::new(1, 3, &pairs).expect("valid puzzle");
    // the middle cell sees both terminals, left then right
    let nbrs = g.neighbors(Coordinate::new(0, 1));
    assert_eq!(
        nbrs,
        vec![
            (Coordinate::new(0, 0), CellState::Given(0)),
            (Coordinate::new(0, 2), CellState::Given(0)),
        ]
    );
    // a corner has only two neighbours
    let corner = g.neighbors(Coordinate::new(0, 0));
    assert_eq!(corner, vec![(Coordinate::new(0, 1), CellState::Unknown)]);
}

#[test]
fn unknown_cell_count_shrinks_under_propagation() {
    let pairs = vec![pair(0, 0, 0, 2)];
    let mut g = Grid::new(1, 3, &pairs).expect("valid puzzle");
    assert_eq!(numberlink::propagate::count_unknown_cells(&g), 1);
    propagate(&mut g);
    assert_eq!(numberlink::propagate::count_unknown_cells(&g), 0);
}

#[test]
fn directions_invert() {
    assert_eq!(Direction::Up.inverse(), Direction::Down);
    assert_eq!(Direction::Down.inverse(), Direction::Up);
    assert_eq!(Direction::Left.inverse(), Direction::Right);
    assert_eq!(Direction::Right.inverse(), Direction::Left);
}

#[test]
fn offsets_respect_the_border() {
    let co = Coordinate::new(0, 0);
    assert_eq!(co.offset(Direction::Up, 2, 2), None);
    assert_eq!(co.offset(Direction::Left, 2, 2), None);
    assert_eq!(co.offset(Direction::Down, 2, 2), Some(Coordinate::new(1, 0)));
    assert_eq!(co.offset(Direction::Right, 2, 2), Some(Coordinate::new(0, 1)));
}

#[test]
fn manhattan_distance() {
    let a = Coordinate::new(1, 2);
    let b = Coordinate::new(4, 0);
    assert_eq!(a.min_distance(b), 5);
    assert_eq!(b.min_distance(a), 5);
    assert_eq!(a.min_distance(a), 0);
    assert_eq!(Coordinate::origin().min_distance(Coordinate::new(0, 0)), 0);
}
