//! The solver pipeline: validate the puzzle and build the grid, run the
//! forced-move propagator to a fixpoint, enumerate candidate paths per
//! pair, select a disjoint exact cover, and apply the chosen paths to the
//! grid. A solved board carries its witness: the chosen paths themselves.

use vstd::prelude::*;
use crate::grid::{
    dims_ok, ids_below, lemma_pair_ends_distinct, pairs_in_bounds, puzzle_ok, terminals_distinct,
    CellState, Coordinate, Grid, PuzzleError, MAX_PAIRS,
};
use crate::propagate::propagate;
use crate::paths::{
    candidate_ok, from_list, list_view, path_connected, path_in_grid, path_simple, PathGenerator,
};
use crate::select::{disjoint, PathChooser};

verus! {

/// A valid chosen path for a pair on an `rows` x `cols` board: simple,
/// 4-connected, in bounds, running from the pair's first terminal to its
/// second.
pub open spec fn chosen_path_ok(
    rows: int,
    cols: int,
    s: Coordinate,
    t: Coordinate,
    p: Seq<Coordinate>,
) -> bool {
    &&& p.len() >= 2
    &&& p[0] == s
    &&& p[p.len() - 1] == t
    &&& path_simple(p)
    &&& path_connected(p)
    &&& path_in_grid(p, rows, cols)
}

/// A path's interior: the path without its two endpoints.
pub open spec fn interior(p: Seq<Coordinate>) -> Seq<Coordinate> {
    p.subrange(1, p.len() - 1)
}

/// Disjointness of whole chosen paths carries down to their interiors: the
/// interiors of two disjoint paths are disjoint, and neither interior
/// touches the other path's terminal cells.
pub proof fn lemma_interiors_disjoint(p: Seq<Coordinate>, q: Seq<Coordinate>)
    requires
        disjoint(p, q),
        p.len() >= 2,
        q.len() >= 2,
    ensures
        disjoint(interior(p), interior(q)),
        forall|co: Coordinate|
            #[trigger] interior(p).contains(co) ==> co != q[0] && co != q[q.len() - 1],
{
    assert forall|co: Coordinate| #[trigger] interior(p).contains(co) implies p.contains(co) by {
        let w = choose|w: int| 0 <= w < interior(p).len() && interior(p)[w] == co;
        assert(p[w + 1] == co);
        assert(p.contains(co));
    }
    assert forall|co: Coordinate| #[trigger] interior(q).contains(co) implies q.contains(co) by {
        let w = choose|w: int| 0 <= w < interior(q).len() && interior(q)[w] == co;
        assert(q[w + 1] == co);
        assert(q.contains(co));
    }
    assert forall|co: Coordinate|
        !(#[trigger] interior(p).contains(co) && interior(q).contains(co)) by {
        if interior(p).contains(co) && interior(q).contains(co) {
            assert(p.contains(co) && q.contains(co));
            assert(false);
        }
    }
    assert forall|co: Coordinate| #[trigger] interior(p).contains(co) implies co != q[0] && co
        != q[q.len() - 1] by {
        assert(p.contains(co));
        if co == q[0] || co == q[q.len() - 1] {
            assert(q.contains(co));
            assert(false);
        }
    }
}

/// On a grid whose terminal cells are `Given` — what `Grid::new`
/// establishes and `propagate` preserves — no candidate path's interior
/// touches any terminal cell: interiors run only through `Unknown` or
/// own-pair `Forced` cells.
pub proof fn lemma_interior_avoids_terminals(
    g: Grid,
    id: usize,
    s: Coordinate,
    t: Coordinate,
    p: Seq<Coordinate>,
    co: Coordinate,
)
    requires
        candidate_ok(g, id, s, t, p),
        g.cell(co) is Given,
    ensures
        !interior(p).contains(co),
{
    if interior(p).contains(co) {
        let w = choose|w: int| 0 <= w < interior(p).len() && interior(p)[w] == co;
        assert(p[w + 1] == co);
        assert(g.cell(p[w + 1]) is Unknown || g.cell(p[w + 1]) == CellState::Forced(id));
        assert(false);
    }
}

impl Grid {
    /// Write one chosen path into the grid: every cell of the path that is not
    /// an original terminal becomes `Forced(id)`; terminals and cells off the
    /// path keep their state.
    fn apply_path(&mut self, p: &Vec<Coordinate>, id: usize)
        requires
            old(self).wf(),
            forall|j: int| 0 <= j < p@.len() ==> old(self).in_bounds(#[trigger] p@[j]),
        ensures
            final(self).wf(),
            final(self).rows == old(self).rows,
            final(self).cols == old(self).cols,
            forall|co: Coordinate|
                final(self).in_bounds(co) ==> (#[trigger] final(self).cell(co)) == (if p@.contains(co) && !(
                old(self).cell(co) is Given) {
                    CellState::Forced(id)
                } else {
                    old(self).cell(co)
                }),
    {
        let ghost g0 = *self;
        let mut j: usize = 0;
        while j < p.len()
            invariant
                self.wf(),
                self.rows == g0.rows,
                self.cols == g0.cols,
                j <= p@.len(),
                forall|t: int| 0 <= t < p@.len() ==> g0.in_bounds(#[trigger] p@[t]),
                forall|co: Coordinate|
                    self.in_bounds(co) ==> (#[trigger] self.cell(co)) == (if p@.subrange(
                        0,
                        j as int,
                    ).contains(co) && !(g0.cell(co) is Given) {
                        CellState::Forced(id)
                    } else {
                        g0.cell(co)
                    }),
            decreases p@.len() - j,
        {
            let co = p[j];
            let st = self.get(co);
            let is_given = match st {
                CellState::Given(_) => true,
                _ => false,
            };
            let ghost pre = p@.subrange(0, j as int);
            let ghost gprev = *self;
            if !is_given {
                self.set(co, CellState::Forced(id));
            }
            proof {
                assert(p@.subrange(0, j + 1) =~= pre.push(p@[j as int]));
                assert forall|co2: Coordinate|
                    self.in_bounds(co2) implies (#[trigger] self.cell(co2)) == (if p@.subrange(
                    0,
                    j + 1,
                ).contains(co2) && !(g0.cell(co2) is Given) {
                    CellState::Forced(id)
                } else {
                    g0.cell(co2)
                }) by {
                    if co2 == co {
                        assert(p@.subrange(0, j + 1)[j as int] == co);
                        assert(p@.subrange(0, j + 1).contains(co));
                    } else {
                        assert(self.cell(co2) == gprev.cell(co2));
                        if p@.subrange(0, j + 1).contains(co2) {
                            let w = choose|w: int|
                                0 <= w < p@.subrange(0, j + 1).len() && #[trigger] p@.subrange(
                                    0,
                                    j + 1,
                                )[w] == co2;
                            assert(w != j);
                            assert(pre[w] == co2);
                            assert(pre.contains(co2));
                        }
                        if pre.contains(co2) {
                            let w = choose|w: int| 0 <= w < pre.len() && #[trigger] pre[w] == co2;
                            assert(p@.subrange(0, j + 1)[w] == co2);
                            assert(p@.subrange(0, j + 1).contains(co2));
                        }
                    }
                }
            }
            j += 1;
        }
        proof {
            assert(p@.subrange(0, p@.len() as int) =~= p@);
        }
    }

    /// Write every chosen path into the grid, pair by pair. The paths must be
    /// pairwise disjoint, so each cell is written at most once.
    fn apply_paths(&mut self, paths: &Vec<Vec<Coordinate>>)
        requires
            old(self).wf(),
            forall|i: int|
                0 <= i < paths@.len() ==> path_in_grid(
                    (#[trigger] paths@[i])@,
                    old(self).rows as int,
                    old(self).cols as int,
                ),
            forall|i: int, j: int| 0 <= i < j < paths@.len() ==> disjoint(paths@[i]@, paths@[j]@),
        ensures
            final(self).wf(),
            final(self).rows == old(self).rows,
            final(self).cols == old(self).cols,
            forall|i: int, co: Coordinate|
                0 <= i < paths@.len() && (#[trigger] paths@[i]@.contains(co)) && !(old(self).cell(co)
                    is Given) && old(self).in_bounds(co) ==> final(self).cell(co) == CellState::Forced(
                    i as usize,
                ),
            forall|co: Coordinate|
                final(self).in_bounds(co) && old(self).cell(co) is Given ==> final(self).cell(co) == old(self).cell(co),
            forall|co: Coordinate|
                final(self).in_bounds(co) && !(exists|i: int|
                    0 <= i < paths@.len() && (#[trigger] paths@[i]@.contains(co))) ==> final(self).cell(co)
                    == old(self).cell(co),
            (forall|co: Coordinate|
                #[trigger] final(self).in_bounds(co) ==> exists|i: int|
                    0 <= i < paths@.len() && (#[trigger] paths@[i]@.contains(co)))
                ==> (forall|co: Coordinate|
                final(self).in_bounds(co) ==> !((#[trigger] final(self).cell(co)) is Unknown)),
    {
        let ghost g0 = *self;
        let count = paths.len();
        let mut i: usize = 0;
        while i < count
            invariant
                self.wf(),
                self.rows == g0.rows,
                self.cols == g0.cols,
                count == paths@.len(),
                i <= count,
                forall|t: int|
                    0 <= t < count ==> path_in_grid(
                        (#[trigger] paths@[t])@,
                        g0.rows as int,
                        g0.cols as int,
                    ),
                forall|t: int, j: int| 0 <= t < j < count ==> disjoint(paths@[t]@, paths@[j]@),
                forall|t: int, co: Coordinate|
                    0 <= t < i && (#[trigger] paths@[t]@.contains(co)) && !(g0.cell(co) is Given)
                        && g0.in_bounds(co) ==> self.cell(co) == CellState::Forced(t as usize),
                forall|co: Coordinate|
                    self.in_bounds(co) && g0.cell(co) is Given ==> self.cell(co) == g0.cell(co),
                forall|co: Coordinate|
                    self.in_bounds(co) && !(exists|t: int|
                        0 <= t < i && (#[trigger] paths@[t]@.contains(co))) ==> self.cell(co) == g0.cell(
                        co,
                    ),
            decreases count - i,
        {
            let ghost gprev = *self;
            self.apply_path(&paths[i], i);
            proof {
                assert forall|t: int, co: Coordinate|
                    0 <= t < i + 1 && (#[trigger] paths@[t]@.contains(co)) && !(g0.cell(co) is Given)
                        && g0.in_bounds(co) implies self.cell(co) == CellState::Forced(t as usize) by {
                    if t < i {
                        assert(disjoint(paths@[t]@, paths@[i as int]@));
                        assert(!paths@[i as int]@.contains(co));
                        assert(self.cell(co) == gprev.cell(co));
                    } else {
                        // the cell was either still unwritten or written by an
                        // earlier path, which disjointness rules out
                        if gprev.cell(co) is Given {
                            assert(g0.cell(co) is Given);
                            assert(false);
                        }
                        assert(self.cell(co) == CellState::Forced(i as usize));
                    }
                }
                assert forall|co: Coordinate|
                    self.in_bounds(co) && g0.cell(co) is Given implies self.cell(co) == g0.cell(co) by {
                    assert(gprev.cell(co) == g0.cell(co));
                }
                assert forall|co: Coordinate|
                    self.in_bounds(co) && !(exists|t: int|
                        0 <= t < i + 1 && (#[trigger] paths@[t]@.contains(co))) implies self.cell(co)
                    == g0.cell(co) by {
                    assert(!paths@[i as int]@.contains(co));
                    assert(self.cell(co) == gprev.cell(co));
                    if exists|t: int| 0 <= t < i && (#[trigger] paths@[t]@.contains(co)) {
                        let t = choose|t: int| 0 <= t < i && (#[trigger] paths@[t]@.contains(co));
                        assert(false);
                    }
                }
            }
            i += 1;
        }
        proof {
            if forall|co: Coordinate|
                #[trigger] self.in_bounds(co) ==> exists|i: int|
                    0 <= i < paths@.len() && (#[trigger] paths@[i]@.contains(co)) {
                assert forall|co: Coordinate|
                    self.in_bounds(co) implies !((#[trigger] self.cell(co)) is Unknown) by {
                    let w = choose|w: int|
                        0 <= w < paths@.len() && (#[trigger] paths@[w]@.contains(co));
                    if g0.cell(co) is Given {
                        assert(self.cell(co) == g0.cell(co));
                    } else {
                        assert(self.cell(co) == CellState::Forced(w as usize));
                    }
                }
            }
        }
    }
}

/// A fully solved board: the resolved grid and one chosen path per pair.
pub struct SolvedBoard {
    pub grid: Grid,
    pub paths: Vec<Vec<Coordinate>>,
}

/// The outcome of a solve on a valid puzzle: a complete cover, or the
/// declaration that the search found none.
pub enum Outcome {
    Solved(SolvedBoard),
    NoSolution,
}

/// Render a board as text when the output fits in memory: the text takes
/// `rows * (2 * cols + 1)` bytes.
pub fn render_board(g: &Grid) -> (r: Option<Vec<u8>>)
    requires
        g.wf(),
        ids_below(*g, MAX_PAIRS as int),
    ensures
        r is Some <==> g.rows * (2 * g.cols + 1) <= usize::MAX,
        r matches Some(out) ==> out@.len() == g.rows * (2 * g.cols + 1) && (forall|
            rr: int,
            cc: int,
        |
            0 <= rr < g.rows && 0 <= cc < g.cols ==> (#[trigger] out@[rr * (2 * g.cols + 1) + 2
                * cc]) == Grid::symbol_spec(
                g.cell(Coordinate { row: rr as usize, col: cc as usize }),
            ) && out@[rr * (2 * g.cols + 1) + 2 * cc + 1] == 32) && (forall|rr: int|
            0 <= rr < g.rows ==> (#[trigger] out@[rr * (2 * g.cols + 1) + 2 * g.cols]) == 10),
{
    let w2 = match g.cols().checked_mul(2) {
        Some(v) => v,
        None => {
            proof {
                assert(g.rows * (2 * g.cols + 1) > usize::MAX) by (nonlinear_arith)
                    requires
                        g.rows >= 1,
                        2 * g.cols > usize::MAX,
                ;
            }
            return None;
        },
    };
    let w = match w2.checked_add(1) {
        Some(v) => v,
        None => {
            proof {
                assert(g.rows * (2 * g.cols + 1) > usize::MAX) by (nonlinear_arith)
                    requires
                        g.rows >= 1,
                        2 * g.cols + 1 > usize::MAX,
                ;
            }
            return None;
        },
    };
    match g.rows().checked_mul(w) {
        Some(_) => Some(g.render()),
        None => None,
    }
}

/// A copy of the pair list.
fn clone_pairs(pairs: &Vec<(Coordinate, Coordinate)>) -> (r: Vec<(Coordinate, Coordinate)>)
    ensures
        r@ == pairs@,
{
    let mut r: Vec<(Coordinate, Coordinate)> = Vec::new();
    let mut i: usize = 0;
    while i < pairs.len()
        invariant
            i <= pairs@.len(),
            r@ == pairs@.subrange(0, i as int),
        decreases pairs@.len() - i,
    {
        r.push(pairs[i]);
        proof {
            assert(r@ =~= pairs@.subrange(0, i + 1));
        }
        i += 1;
    }
    proof {
        assert(r@ =~= pairs@);
    }
    r
}

/// Solve a puzzle: validate it, propagate forced moves, enumerate
/// candidates, and search for a disjoint exact cover.
///
/// On `Solved`, the chosen paths are a witness: one simple, 4-connected
/// path per pair joining its two terminals, pairwise disjoint, together
/// covering every cell of the board; and the grid is fully resolved, with
/// `Given` at the terminals and `Forced` with the owning pair's id
/// everywhere else.
pub fn solve(rows: usize, cols: usize, pairs: &Vec<(Coordinate, Coordinate)>) -> (r: Result<
    Outcome,
    PuzzleError,
>)
    ensures
        r is Ok <==> puzzle_ok(rows as int, cols as int, pairs@),
        (r matches Err(e) && e == PuzzleError::ZeroDimension) <==> (rows == 0 || cols == 0),
        (r matches Err(e) && e == PuzzleError::GridTooLarge) <==> (rows >= 1 && cols >= 1 && (
        rows as int) * (cols as int) > usize::MAX),
        (r matches Err(e) && e == PuzzleError::TooManyPairs) <==> (dims_ok(rows as int, cols as int)
            && pairs@.len() > MAX_PAIRS),
        (r matches Err(e) && e == PuzzleError::OutOfBounds) <==> (dims_ok(rows as int, cols as int)
            && pairs@.len() <= MAX_PAIRS && !pairs_in_bounds(rows as int, cols as int, pairs@)),
        (r matches Err(e) && e == PuzzleError::DuplicateTerminal) <==> (dims_ok(
            rows as int,
            cols as int,
        ) && pairs@.len() <= MAX_PAIRS && pairs_in_bounds(rows as int, cols as int, pairs@)
            && !terminals_distinct(pairs@)),
        r matches Ok(Outcome::Solved(sb)) ==> {
            &&& sb.paths@.len() == pairs@.len()
            &&& forall|i: int|
                0 <= i < pairs@.len() ==> chosen_path_ok(
                    rows as int,
                    cols as int,
                    (#[trigger] pairs@[i]).0,
                    pairs@[i].1,
                    sb.paths@[i]@,
                )
            &&& forall|i: int, j: int|
                0 <= i < j < pairs@.len() ==> disjoint(sb.paths@[i]@, sb.paths@[j]@)
            &&& forall|co: Coordinate|
                co.row < rows && co.col < cols ==> exists|i: int|
                    0 <= i < pairs@.len() && (#[trigger] sb.paths@[i]@.contains(co))
            &&& sb.grid.wf()
            &&& sb.grid.rows == rows
            &&& sb.grid.cols == cols
            &&& ids_below(sb.grid, pairs@.len() as int)
            &&& forall|co: Coordinate|
                sb.grid.in_bounds(co) ==> !((#[trigger] sb.grid.cell(co)) is Unknown)
            &&& forall|i: int|
                0 <= i < pairs@.len() ==> sb.grid.cell((#[trigger] pairs@[i]).0)
                    == CellState::Given(i as usize) && sb.grid.cell(pairs@[i].1)
                    == CellState::Given(i as usize)
        },
{
    let g0 = match Grid::new(rows, cols, pairs) {
        Ok(g) => g,
        Err(e) => {
            return Err(e);
        },
    };
    let npairs = pairs.len();
    let mut g = g0;
    propagate(&mut g);
    proof {
        // terminals survive propagation: a Given cell never changes
        assert forall|i: int|
            0 <= i < pairs@.len() implies g.cell((#[trigger] pairs@[i]).0) == CellState::Given(
            i as usize,
        ) && g.cell(pairs@[i].1) == CellState::Given(i as usize) by {
            crate::grid::lemma_linear_index_bounds(
                pairs@[i].0.row as int,
                pairs@[i].0.col as int,
                rows as int,
                cols as int,
            );
            crate::grid::lemma_linear_index_bounds(
                pairs@[i].1.row as int,
                pairs@[i].1.col as int,
                rows as int,
                cols as int,
            );
        }
        assert forall|i: int|
            0 <= i < pairs@.len() implies (#[trigger] pairs@[i]).0 != pairs@[i].1 by {
            lemma_pair_ends_distinct(pairs@, i);
        }
    }
    let tpairs = clone_pairs(pairs);
    let mut gen = PathGenerator::new(tpairs);
    let ok = gen.generate_all(&g);
    if !ok {
        return Ok(Outcome::NoSolution);
    }
    let ghost genpaths = gen;
    let lists = gen.collect();
    proof {
        assert forall|i: int, k: int|
            0 <= i < lists@.len() && 0 <= k < list_view(lists@[i]).len() implies path_simple(
            #[trigger] list_view(lists@[i])[k],
        ) && path_in_grid(list_view(lists@[i])[k], rows as int, cols as int) by {
            assert(list_view(lists@[i]) == genpaths.plist(i));
            assert(candidate_ok(
                g,
                i as usize,
                genpaths.targets@[i].0,
                genpaths.targets@[i].1,
                genpaths.plist(i)[k],
            ));
        }
    }
    let mut chooser = PathChooser::new(lists, rows, cols);
    let ghost pretrim = chooser;
    proof {
        assert forall|i: int|
            0 <= i < chooser.npairs() implies (#[trigger] chooser.lists()[i]).len() > 0 by {
            assert(chooser.lists()[i] == list_view(chooser.paths@[i]));
            assert(list_view(chooser.paths@[i]) == genpaths.plist(i));
        }
    }
    chooser.trim();
    let ghost posttrim = chooser;
    let ok2 = chooser.choose_all();
    if !ok2 {
        return Ok(Outcome::NoSolution);
    }
    let chosen = chooser.collect();
    proof {
        // every selected path is one of the generator's candidates
        assert forall|i: int|
            0 <= i < pairs@.len() implies candidate_ok(
            g,
            i as usize,
            (#[trigger] pairs@[i]).0,
            pairs@[i].1,
            chosen@[i]@,
        ) by {
            assert(chosen@[i]@ == chooser.sel(i));
            assert(chooser.chosen@[i] < chooser.lists()[i].len());
            assert(chooser.paths@ == posttrim.paths@);
            assert(chooser.lists() == posttrim.lists());
            assert(from_list(posttrim.lists()[i][chooser.chosen@[i] as int], pretrim.paths@[i]@));
            let m = choose|m: int|
                0 <= m < pretrim.paths@[i]@.len() && chooser.sel(i) == #[trigger] pretrim.paths@[i]@[m]@;
            assert(list_view(pretrim.paths@[i])[m] == pretrim.paths@[i]@[m]@);
            assert(list_view(pretrim.paths@[i]) == genpaths.plist(i));
            assert(candidate_ok(
                g,
                i as usize,
                genpaths.targets@[i].0,
                genpaths.targets@[i].1,
                genpaths.plist(i)[m],
            ));
        }
        assert forall|i: int, j: int|
            0 <= i < j < pairs@.len() implies disjoint(chosen@[i]@, chosen@[j]@) by {
            assert(chosen@[i]@ == chooser.sel(i));
            assert(chosen@[j]@ == chooser.sel(j));
        }
        assert forall|co: Coordinate|
            co.row < rows && co.col < cols implies exists|i: int|
            0 <= i < pairs@.len() && (#[trigger] chosen@[i]@.contains(co)) by {
            let i = choose|i: int|
                0 <= i < chooser.npairs() && (#[trigger] chooser.sel(i)).contains(co);
            assert(chosen@[i]@ == chooser.sel(i));
            assert(chosen@[i]@.contains(co));
        }
    }
    let ghost gprop = g;
    g.apply_paths(&chosen);
    proof {
        // every cell is resolved: it lies on some chosen path, so it is a
        // terminal or now carries that pair's id
        assert forall|co: Coordinate|
            g.in_bounds(co) implies !((#[trigger] g.cell(co)) is Unknown) by {
            let i = choose|i: int| 0 <= i < pairs@.len() && (#[trigger] chosen@[i]@.contains(co));
            if gprop.cell(co) is Given {
                assert(g.cell(co) == gprop.cell(co));
            } else {
                assert(g.cell(co) == CellState::Forced(i as usize));
            }
        }
        assert forall|co: Coordinate|
            g.in_bounds(co) implies match (#[trigger] g.cell(co)) {
            CellState::Given(v) => v < pairs@.len(),
            CellState::Forced(v) => v < pairs@.len(),
            CellState::Unknown => true,
        } by {
            let i = choose|i: int| 0 <= i < pairs@.len() && (#[trigger] chosen@[i]@.contains(co));
            if gprop.cell(co) is Given {
                assert(g.cell(co) == gprop.cell(co));
                assert(ids_below(gprop, pairs@.len() as int));
            } else {
                assert(g.cell(co) == CellState::Forced(i as usize));
            }
        }
        assert forall|i: int|
            0 <= i < pairs@.len() implies g.cell((#[trigger] pairs@[i]).0) == CellState::Given(
            i as usize,
        ) && g.cell(pairs@[i].1) == CellState::Given(i as usize) by {
            crate::grid::lemma_linear_index_bounds(
                pairs@[i].0.row as int,
                pairs@[i].0.col as int,
                rows as int,
                cols as int,
            );
            crate::grid::lemma_linear_index_bounds(
                pairs@[i].1.row as int,
                pairs@[i].1.col as int,
                rows as int,
                cols as int,
            );
        }
    }
    Ok(Outcome::Solved(SolvedBoard { grid: g, paths: chosen }))
}

} // verus!
