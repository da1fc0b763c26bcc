//! The forced-move propagator: whenever a cell already assigned to a pair
//! has exactly one `Unknown` neighbour, that neighbour is the only possible
//! continuation of the pair's path and is marked `Forced` with the same id.
//! Full sweeps over the board repeat until one sweep changes nothing, which
//! is a fixpoint. Cells only ever move from `Unknown` to `Forced`, so the
//! process terminates.

use vstd::prelude::*;
use crate::grid::{ids_below, lemma_linear_index_bounds, lemma_offset_in_bounds,
    lemma_offset_inverse, CellState, Coordinate, Direction, Grid};

verus! {

/// The number of `Unknown` entries in a cell buffer.
pub open spec fn count_unknown(s: Seq<CellState>) -> int
    decreases s.len(),
{
    if s.len() == 0 {
        0
    } else {
        count_unknown(s.drop_last()) + if s.last() is Unknown {
            1int
        } else {
            0int
        }
    }
}

pub proof fn lemma_count_unknown_bounds(s: Seq<CellState>)
    ensures
        0 <= count_unknown(s) <= s.len(),
    decreases s.len(),
{
    if s.len() > 0 {
        lemma_count_unknown_bounds(s.drop_last());
    }
}

/// Replacing one `Unknown` entry by anything else lowers the count by one.
pub proof fn lemma_count_unknown_update(s: Seq<CellState>, i: int, v: CellState)
    requires
        0 <= i < s.len(),
        s[i] is Unknown,
        !(v is Unknown),
    ensures
        count_unknown(s.update(i, v)) == count_unknown(s) - 1,
    decreases s.len(),
{
    let t = s.update(i, v);
    if i == s.len() - 1 {
        assert(t.drop_last() =~= s.drop_last());
    } else {
        assert(t.drop_last() =~= s.drop_last().update(i, v));
        assert(t.last() == s.last());
        lemma_count_unknown_update(s.drop_last(), i, v);
    }
}

/// The number of cells of the grid still `Unknown`.
pub fn count_unknown_cells(g: &Grid) -> (n: usize)
    requires
        g.wf(),
    ensures
        n == count_unknown(g.cells@),
{
    let total = g.num_squares();
    let mut n: usize = 0;
    let mut i: usize = 0;
    while i < total
        invariant
            g.wf(),
            total == g.cells@.len(),
            i <= total,
            n <= i,
            n == count_unknown(g.cells@.subrange(0, i as int)),
        decreases total - i,
    {
        proof {
            assert(g.cells@.subrange(0, i + 1).drop_last() =~= g.cells@.subrange(0, i as int));
            assert(g.cells@.subrange(0, i + 1).last() == g.cells@[i as int]);
        }
        match g.cells[i] {
            CellState::Unknown => {
                n += 1;
            },
            _ => {},
        }
        i += 1;
    }
    proof {
        assert(g.cells@.subrange(0, total as int) =~= g.cells@);
    }
    n
}

/// Grid `b` extends grid `a`: dimensions agree, every resolved cell of `a`
/// is unchanged, and every cell that differs was `Unknown` and is now
/// `Forced`.
pub open spec fn refines(a: Grid, b: Grid) -> bool {
    &&& b.rows == a.rows
    &&& b.cols == a.cols
    &&& b.cells@.len() == a.cells@.len()
    &&& forall|i: int|
        0 <= i < a.cells@.len() ==> (#[trigger] b.cells@[i] == a.cells@[i] || (a.cells@[i]
            is Unknown && b.cells@[i] is Forced))
}

pub proof fn lemma_refines_trans(a: Grid, b: Grid, c: Grid)
    requires
        refines(a, b),
        refines(b, c),
    ensures
        refines(a, c),
{
    assert forall|i: int|
        0 <= i < a.cells@.len() implies (#[trigger] c.cells@[i] == a.cells@[i] || (a.cells@[i]
        is Unknown && c.cells@[i] is Forced)) by {
        assert(b.cells@[i] == a.cells@[i] || (a.cells@[i] is Unknown && b.cells@[i] is Forced));
    }
}

/// Some 4-neighbour of `co` carries pair `v` in grid `g`.
pub open spec fn owner_adjacent(g: Grid, co: Coordinate, v: usize) -> bool {
    exists|d: Direction|
        match #[trigger] co.offset_spec(d, g.rows as int, g.cols as int) {
            Some(nb) => g.cell(nb) == CellState::Given(v) || g.cell(nb) == CellState::Forced(v),
            None => false,
        }
}

/// Every cell newly forced between `a` and `b` has, in `b`, a neighbour
/// that carries the same pair: forcing never invents an id out of thin
/// air.
pub open spec fn forced_justified(a: Grid, b: Grid) -> bool {
    forall|co: Coordinate|
        b.in_bounds(co) && a.cell(co) is Unknown ==> match #[trigger] b.cell(co) {
            CellState::Forced(v) => owner_adjacent(b, co, v),
            _ => true,
        }
}

/// Justification composes across two monotone extensions: a cell forced in
/// the first step keeps its owner, one forced in the second brings its
/// own.
pub proof fn lemma_forced_justified_trans(a: Grid, b: Grid, c: Grid)
    requires
        a.wf(),
        forced_justified(a, b),
        forced_justified(b, c),
        refines(a, b),
        refines(b, c),
    ensures
        forced_justified(a, c),
{
    assert forall|co: Coordinate|
        c.in_bounds(co) && a.cell(co) is Unknown implies match #[trigger] c.cell(co) {
        CellState::Forced(v) => owner_adjacent(c, co, v),
        _ => true,
    } by {
        lemma_linear_index_bounds(co.row as int, co.col as int, a.rows as int, a.cols as int);
        match c.cell(co) {
            CellState::Forced(v) => {
                if b.cell(co) is Unknown {
                    assert(owner_adjacent(c, co, v));
                } else {
                    assert(b.cell(co) == c.cell(co));
                    assert(owner_adjacent(b, co, v));
                    let dd = choose|dd: Direction|
                        match #[trigger] co.offset_spec(dd, b.rows as int, b.cols as int) {
                            Some(nb) => b.cell(nb) == CellState::Given(v) || b.cell(nb)
                                == CellState::Forced(v),
                            None => false,
                        };
                    match co.offset_spec(dd, b.rows as int, b.cols as int) {
                        Some(nb) => {
                            lemma_offset_in_bounds(co, dd, b.rows as int, b.cols as int);
                            lemma_linear_index_bounds(
                                nb.row as int,
                                nb.col as int,
                                b.rows as int,
                                b.cols as int,
                            );
                            assert(c.cell(nb) == b.cell(nb));
                            assert(owner_adjacent(c, co, v));
                        },
                        None => {
                            assert(false);
                        },
                    }
                }
            },
            _ => {},
        }
    }
}

/// A cell is settled when it does not force a move: if it carries a pair id,
/// it does not have exactly one `Unknown` neighbour.
pub open spec fn settled(g: Grid, co: Coordinate) -> bool {
    (g.cell(co) is Given || g.cell(co) is Forced) ==> g.unknown_neighbor_count(co) != 1
}

/// No cell of the grid forces a move.
pub open spec fn at_fixpoint(g: Grid) -> bool {
    forall|co: Coordinate| g.in_bounds(co) ==> #[trigger] settled(g, co)
}

/// One full row-major sweep: every cell that forces a move when visited has
/// its unique `Unknown` neighbour marked `Forced` with the cell's id.
fn sweep(g: &mut Grid) -> (changed: bool)
    requires
        old(g).wf(),
    ensures
        final(g).wf(),
        refines(*old(g), *final(g)),
        !changed ==> *final(g) == *old(g) && at_fixpoint(*old(g)),
        changed ==> count_unknown(final(g).cells@) < count_unknown(old(g).cells@),
        changed ==> !at_fixpoint(*old(g)),
        forced_justified(*old(g), *final(g)),
        forall|n: int| ids_below(*old(g), n) ==> ids_below(*final(g), n),
{
    let ghost g0 = *g;
    let mut changed = false;
    let mut r: usize = 0;
    while r < g.rows
        invariant
            g.wf(),
            g.rows == g0.rows,
            g.cols == g0.cols,
            r <= g.rows,
            refines(g0, *g),
            forced_justified(g0, *g),
            !changed ==> *g == g0,
            !changed ==> forall|co: Coordinate|
                co.row < r && g0.in_bounds(co) ==> #[trigger] settled(g0, co),
            changed ==> count_unknown(g.cells@) < count_unknown(g0.cells@),
            changed ==> !at_fixpoint(g0),
            forall|n: int| ids_below(g0, n) ==> ids_below(*g, n),
        decreases g.rows - r,
    {
        let mut c: usize = 0;
        while c < g.cols
            invariant
                g.wf(),
                g.rows == g0.rows,
                g.cols == g0.cols,
                r < g.rows,
                c <= g.cols,
                refines(g0, *g),
                forced_justified(g0, *g),
                !changed ==> *g == g0,
                !changed ==> forall|co: Coordinate|
                    (co.row < r || (co.row == r && co.col < c)) && g0.in_bounds(co)
                        ==> #[trigger] settled(g0, co),
                changed ==> count_unknown(g.cells@) < count_unknown(g0.cells@),
                changed ==> !at_fixpoint(g0),
                forall|n: int| ids_below(g0, n) ==> ids_below(*g, n),
            decreases g.cols - c,
        {
            let co = Coordinate { row: r, col: c };
            let st = g.get(co);
            let id_opt: Option<usize> = match st {
                CellState::Given(v) => Some(v),
                CellState::Forced(v) => Some(v),
                CellState::Unknown => None,
            };
            match id_opt {
                Some(v) => {
                    let (cnt, nbr) = g.unknown_neighbors(co);
                    if cnt == 1 {
                        proof {
                            if !changed {
                                assert(!settled(g0, co));
                            }
                        }
                        match nbr {
                            Some(n) => {
                                let ghost before = *g;
                                let ghost ni = g.idx_spec(n);
                                proof {
                                    lemma_linear_index_bounds(
                                        n.row as int,
                                        n.col as int,
                                        g.rows as int,
                                        g.cols as int,
                                    );
                                    lemma_linear_index_bounds(
                                        co.row as int,
                                        co.col as int,
                                        g.rows as int,
                                        g.cols as int,
                                    );
                                    lemma_count_unknown_update(g.cells@, ni, CellState::Forced(v));
                                }
                                g.set(n, CellState::Forced(v));
                                proof {
                                    assert(refines(before, *g));
                                    lemma_refines_trans(g0, before, *g);
                                    lemma_count_unknown_bounds(before.cells@);
                                    assert(co != n);
                                    assert forall|co2: Coordinate|
                                        g.in_bounds(co2) && g0.cell(co2)
                                        is Unknown implies match (#[trigger] g.cell(co2)) {
                                        CellState::Forced(w) => owner_adjacent(*g, co2, w),
                                        _ => true,
                                    } by {
                                        match g.cell(co2) {
                                            CellState::Forced(w) => {
                                                if co2 == n {
                                                    let d = choose|d: Direction|
                                                        #[trigger] co.offset_spec(
                                                            d,
                                                            before.rows as int,
                                                            before.cols as int,
                                                        ) == Some(n);
                                                    lemma_offset_inverse(
                                                        co,
                                                        d,
                                                        g.rows as int,
                                                        g.cols as int,
                                                    );
                                                    assert(n.offset_spec(
                                                        d.inverse_spec(),
                                                        g.rows as int,
                                                        g.cols as int,
                                                    ) == Some(co));
                                                    assert(g.cell(co) == st);
                                                    assert(owner_adjacent(*g, n, v));
                                                } else {
                                                    assert(g.cell(co2) == before.cell(co2));
                                                    assert(owner_adjacent(before, co2, w));
                                                    let dd = choose|dd: Direction|
                                                        match (#[trigger] co2.offset_spec(
                                                            dd,
                                                            before.rows as int,
                                                            before.cols as int,
                                                        )) {
                                                            Some(nb) => before.cell(nb)
                                                                == CellState::Given(w)
                                                                || before.cell(nb)
                                                                == CellState::Forced(w),
                                                            None => false,
                                                        };
                                                    match co2.offset_spec(
                                                        dd,
                                                        before.rows as int,
                                                        before.cols as int,
                                                    ) {
                                                        Some(nb) => {
                                                            lemma_offset_in_bounds(
                                                                co2,
                                                                dd,
                                                                before.rows as int,
                                                                before.cols as int,
                                                            );
                                                            assert(g.cell(nb) == before.cell(nb));
                                                            assert(owner_adjacent(*g, co2, w));
                                                        },
                                                        None => {
                                                            assert(false);
                                                        },
                                                    }
                                                }
                                            },
                                            _ => {},
                                        }
                                    }
                                    assert(forced_justified(g0, *g));
                                    assert forall|m: int| ids_below(g0, m) implies ids_below(
                                        *g,
                                        m,
                                    ) by {
                                        assert(ids_below(before, m));
                                        assert(before.in_bounds(co));
                                        assert(before.cell(co) == st);
                                        assert forall|co2: Coordinate|
                                            g.in_bounds(co2) implies match (#[trigger] g.cell(
                                            co2,
                                        )) {
                                            CellState::Given(w) => w < m,
                                            CellState::Forced(w) => w < m,
                                            CellState::Unknown => true,
                                        } by {
                                            if co2 == n {
                                                assert(match before.cell(co) {
                                                    CellState::Given(w) => w < m,
                                                    CellState::Forced(w) => w < m,
                                                    CellState::Unknown => true,
                                                });
                                            } else {
                                                assert(g.cell(co2) == before.cell(co2));
                                            }
                                        }
                                    }
                                }
                                changed = true;
                            },
                            None => {
                                proof {
                                    assert(false);
                                }
                            },
                        }
                    }
                },
                None => {},
            }
            c += 1;
        }
        r += 1;
    }
    proof {
        if !changed {
            assert forall|co: Coordinate| g0.in_bounds(co) implies #[trigger] settled(g0, co) by {
                assert(co.row < g0.rows);
            }
        }
    }
    changed
}

/// Run forced-move sweeps to a fixpoint.
///
/// The result extends the input monotonically (`refines`), no cell of the
/// result forces a move, and an input already at a fixpoint comes back
/// unchanged — so running the propagator twice in a row changes nothing the
/// second time.
pub fn propagate(g: &mut Grid)
    requires
        old(g).wf(),
    ensures
        final(g).wf(),
        refines(*old(g), *final(g)),
        at_fixpoint(*final(g)),
        at_fixpoint(*old(g)) ==> *final(g) == *old(g),
        forced_justified(*old(g), *final(g)),
        forall|n: int| ids_below(*old(g), n) ==> ids_below(*final(g), n),
{
    let ghost g0 = *g;
    loop
        invariant
            g.wf(),
            g0.wf(),
            refines(g0, *g),
            forced_justified(g0, *g),
            at_fixpoint(g0) ==> *g == g0,
            forall|n: int| ids_below(g0, n) ==> ids_below(*g, n),
        ensures
            g.wf(),
            refines(g0, *g),
            forced_justified(g0, *g),
            at_fixpoint(*g),
            at_fixpoint(g0) ==> *g == g0,
            forall|n: int| ids_below(g0, n) ==> ids_below(*g, n),
        decreases count_unknown(g.cells@),
    {
        let ghost before = *g;
        proof {
            lemma_count_unknown_bounds(g.cells@);
        }
        let changed = sweep(g);
        proof {
            lemma_refines_trans(g0, before, *g);
            lemma_forced_justified_trans(g0, before, *g);
            lemma_count_unknown_bounds(g.cells@);
        }
        if !changed {
            break ;
        }
    }
}

} // verus!
