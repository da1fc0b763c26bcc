use numberlink::grid::Coordinate;
use numberlink::solve::{render_board, solve, Outcome};

fn pair(r1: usize, c1: usize, r2: usize, c2: usize) -> (Coordinate, Coordinate) {
    (Coordinate::new(r1, c1), Coordinate::new(r2, c2))
}

fn render_text(rows: usize, cols: usize, pairs: &Vec<(Coordinate, Coordinate)>) -> Option<String> {
    match solve(rows, cols, pairs) {
        Ok(Outcome::Solved(sb)) => {
            let bytes = render_board(&sb.grid).expect("render fits");
            Some(String::from_utf8(bytes).expect("ascii"))
        }
        Ok(Outcome::NoSolution) => None,
        Err(e) => panic!("unexpected puzzle error: {:?}", e),
    }
}

#[test]
fn one_row_forced_middle() {
    // 1 x 3 board, one pair at the two ends: the middle cell is forced and
    // every cell belongs to pair 0.
    let pairs = vec![pair(0, 0, 0, 2)];
    let text = render_text(1, 3, &pairs).expect("solvable");
    assert_eq!(text, "A a A \n");
}

#[test]
fn one_row_forced_middle_paths() {
    let pairs = vec![pair(0, 0, 0, 2)];
    match solve(1, 3, &pairs) {
        Ok(Outcome::Solved(sb)) => {
            assert_eq!(sb.paths.len(), 1);
            let p = &sb.paths[0];
            assert_eq!(
                p.clone(),
                vec![
                    Coordinate::new(0, 0),
                    Coordinate::new(0, 1),
                    Coordinate::new(0, 2)
                ]
            );
        }
        other => panic!("expected a solution, got {:?}", other.is_ok()),
    }
}

#[test]
fn two_by_two_diagonal_has_no_cover() {
    // A simple path between diagonally opposite corners of a 2 x 2 board
    // covers three cells, never all four, so no exact cover exists.
    let pairs = vec![pair(0, 0, 1, 1)];
    assert!(render_text(2, 2, &pairs).is_none());
}

#[test]
fn column_with_unreachable_cell() {
    // 3 x 1 column, one pair on adjacent cells: the remaining cell cannot
    // be covered by any path.
    let pairs = vec![pair(0, 0, 1, 0)];
    assert!(render_text(3, 1, &pairs).is_none());
}

#[test]
fn snake_halves_rendered() {
    // Each pair's terminals sit on top of each other at the left edge;
    // propagation forces each half of the board to its pair, and the
    // selector backtracks past the short direct paths to the two snakes
    // that cover everything.
    let pairs = vec![pair(0, 0, 1, 0), pair(2, 0, 3, 0)];
    let text = render_text(4, 4, &pairs).expect("solvable");
    assert_eq!(text, "A a a a \nA a a a \nB b b b \nB b b b \n");
}

#[test]
fn forced_cells_can_block_cover() {
    // The forced-move rule assigns every cell with a single unresolved
    // neighbour, even mid-chain; here it hands (2,1) to pair 0, after
    // which pair 1 cannot reach its second terminal, and the solver
    // reports no solution rather than crashing.
    let pairs = vec![pair(0, 0, 0, 2), pair(1, 0, 2, 2)];
    assert!(render_text(3, 3, &pairs).is_none());
}

#[test]
fn chosen_paths_are_valid_disjoint_and_cover() {
    let pairs = vec![pair(0, 0, 1, 0), pair(2, 0, 3, 0)];
    let sb = match solve(4, 4, &pairs) {
        Ok(Outcome::Solved(sb)) => sb,
        _ => panic!("expected a solution"),
    };
    assert_eq!(sb.paths.len(), 2);
    let mut seen: Vec<Coordinate> = Vec::new();
    for (i, p) in sb.paths.iter().enumerate() {
        // endpoints are the pair's terminals
        assert_eq!(p[0], pairs[i].0);
        assert_eq!(p[p.len() - 1], pairs[i].1);
        for w in p.windows(2) {
            let dr = w[0].row.abs_diff(w[1].row);
            let dc = w[0].col.abs_diff(w[1].col);
            assert_eq!(dr + dc, 1, "steps are 4-connected");
        }
        for co in p.iter() {
            assert!(co.row < 4 && co.col < 4);
            assert!(!seen.contains(co), "paths are simple and disjoint");
            seen.push(*co);
        }
    }
    assert_eq!(seen.len(), 16, "the paths cover the whole board");
}

#[test]
fn identical_input_identical_output() {
    let pairs = vec![pair(0, 0, 1, 0), pair(2, 0, 3, 0)];
    let first = render_text(4, 4, &pairs);
    let second = render_text(4, 4, &pairs);
    assert_eq!(first, second);
    let a = match solve(4, 4, &pairs) {
        Ok(Outcome::Solved(sb)) => sb.paths,
        _ => panic!("expected a solution"),
    };
    let b = match solve(4, 4, &pairs) {
        Ok(Outcome::Solved(sb)) => sb.paths,
        _ => panic!("expected a solution"),
    };
    assert_eq!(a, b);
}

#[test]
fn four_by_four_two_pairs() {
    // A larger board whose two snaking paths each cover a half.
    let pairs = vec![pair(0, 0, 1, 0), pair(2, 0, 3, 0)];
    match solve(4, 4, &pairs) {
        Ok(Outcome::Solved(sb)) => {
            let mut seen: Vec<Coordinate> = Vec::new();
            for p in sb.paths.iter() {
                for co in p.iter() {
                    assert!(!seen.contains(co));
                    seen.push(*co);
                }
            }
            assert_eq!(seen.len(), 16);
        }
        Ok(Outcome::NoSolution) => {
            panic!("expected a solution");
        }
        Err(e) => panic!("unexpected puzzle error: {:?}", e),
    }
}
