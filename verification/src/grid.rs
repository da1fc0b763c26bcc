//! The board model: coordinates, directions, cell states, and the grid
//! itself, stored as a single flat buffer addressed by a linear index.
//!
//! Convention used throughout the crate: a `Coordinate` is `(row, col)`,
//! both zero-indexed; `Up` decreases the row, `Down` increases it, `Left`
//! decreases the column, `Right` increases it.

use vstd::prelude::*;

verus! {

/// A position on the board: row then column, both zero-indexed.
#[derive(Clone, Copy, PartialEq, Eq, Structural, Debug)]
pub struct Coordinate {
    pub row: usize,
    pub col: usize,
}

/// One of the four cardinal steps between neighbouring cells.
#[derive(Clone, Copy, PartialEq, Eq, Structural, Debug)]
pub enum Direction {
    Up,
    Down,
    Left,
    Right,
}

/// What is known about one cell of the board.
///
/// `Given(id)` marks an original terminal of pair `id`; `Forced(id)` marks a
/// cell deterministically assigned to pair `id`, either by propagation or by
/// applying a chosen path; `Unknown` is an unresolved cell.
#[derive(Clone, Copy, PartialEq, Eq, Structural, Debug)]
pub enum CellState {
    Given(usize),
    Forced(usize),
    Unknown,
}

/// The most pairs a puzzle may have: each pair is rendered with one letter
/// of the alphabet.
pub const MAX_PAIRS: usize = 26;

impl Direction {
    /// The directions in their fixed enumeration order.
    pub open spec fn index_spec(i: int) -> Direction {
        if i == 0 {
            Direction::Up
        } else if i == 1 {
            Direction::Down
        } else if i == 2 {
            Direction::Left
        } else {
            Direction::Right
        }
    }

    /// The `i`-th direction in the fixed order Up, Down, Left, Right.
    pub fn from_index(i: usize) -> (d: Direction)
        requires
            i < 4,
        ensures
            d == Direction::index_spec(i as int),
    {
        match i {
            0 => Direction::Up,
            1 => Direction::Down,
            2 => Direction::Left,
            _ => Direction::Right,
        }
    }

    pub open spec fn inverse_spec(self) -> Direction {
        match self {
            Direction::Up => Direction::Down,
            Direction::Down => Direction::Up,
            Direction::Left => Direction::Right,
            Direction::Right => Direction::Left,
        }
    }

    /// The direction that undoes this one.
    pub fn inverse(self) -> (d: Direction)
        ensures
            d == self.inverse_spec(),
            d.inverse_spec() == self,
    {
        match self {
            Direction::Up => Direction::Down,
            Direction::Down => Direction::Up,
            Direction::Left => Direction::Right,
            Direction::Right => Direction::Left,
        }
    }
}

impl Coordinate {
    pub fn new(row: usize, col: usize) -> (c: Coordinate)
        ensures
            c.row == row && c.col == col,
    {
        Coordinate { row, col }
    }

    pub fn origin() -> (c: Coordinate)
        ensures
            c.row == 0 && c.col == 0,
    {
        Coordinate { row: 0, col: 0 }
    }

    /// The Manhattan distance: the length in steps of any shortest
    /// 4-connected route between the two cells.
    pub open spec fn dist_spec(self, other: Coordinate) -> int {
        let dr = if self.row >= other.row {
            self.row - other.row
        } else {
            other.row - self.row
        };
        let dc = if self.col >= other.col {
            self.col - other.col
        } else {
            other.col - self.col
        };
        dr + dc
    }

    pub fn min_distance(&self, other: Coordinate) -> (d: usize)
        requires
            self.dist_spec(other) <= usize::MAX,
        ensures
            d == self.dist_spec(other),
    {
        let dr = if self.row >= other.row {
            self.row - other.row
        } else {
            other.row - self.row
        };
        let dc = if self.col >= other.col {
            self.col - other.col
        } else {
            other.col - self.col
        };
        dr + dc
    }

    /// The neighbouring cell in direction `d`, or `None` at the board edge.
    pub open spec fn offset_spec(self, d: Direction, rows: int, cols: int) -> Option<Coordinate> {
        match d {
            Direction::Up => if self.row > 0 {
                Some(Coordinate { row: (self.row - 1) as usize, col: self.col })
            } else {
                None
            },
            Direction::Down => if self.row + 1 < rows {
                Some(Coordinate { row: (self.row + 1) as usize, col: self.col })
            } else {
                None
            },
            Direction::Left => if self.col > 0 {
                Some(Coordinate { row: self.row, col: (self.col - 1) as usize })
            } else {
                None
            },
            Direction::Right => if self.col + 1 < cols {
                Some(Coordinate { row: self.row, col: (self.col + 1) as usize })
            } else {
                None
            },
        }
    }

    pub fn offset(self, d: Direction, rows: usize, cols: usize) -> (r: Option<Coordinate>)
        requires
            self.row < rows,
            self.col < cols,
        ensures
            r == self.offset_spec(d, rows as int, cols as int),
            r matches Some(n) ==> n.row < rows && n.col < cols,
    {
        match d {
            Direction::Up => if self.row > 0 {
                Some(Coordinate { row: self.row - 1, col: self.col })
            } else {
                None
            },
            Direction::Down => if self.row + 1 < rows {
                Some(Coordinate { row: self.row + 1, col: self.col })
            } else {
                None
            },
            Direction::Left => if self.col > 0 {
                Some(Coordinate { row: self.row, col: self.col - 1 })
            } else {
                None
            },
            Direction::Right => if self.col + 1 < cols {
                Some(Coordinate { row: self.row, col: self.col + 1 })
            } else {
                None
            },
        }
    }
}

/// An in-bounds step lands in bounds.
pub proof fn lemma_offset_in_bounds(co: Coordinate, d: Direction, rows: int, cols: int)
    requires
        co.row < rows,
        co.col < cols,
        rows <= usize::MAX,
        cols <= usize::MAX,
    ensures
        co.offset_spec(d, rows, cols) matches Some(n) ==> n.row < rows && n.col < cols,
{
    match d {
        Direction::Up => {},
        Direction::Down => {},
        Direction::Left => {},
        Direction::Right => {},
    }
}

/// Stepping back in the inverse direction returns to the origin.
pub proof fn lemma_offset_inverse(co: Coordinate, d: Direction, rows: int, cols: int)
    requires
        co.row < rows,
        co.col < cols,
        rows <= usize::MAX,
        cols <= usize::MAX,
    ensures
        co.offset_spec(d, rows, cols) matches Some(n) ==> n.offset_spec(
            d.inverse_spec(),
            rows,
            cols,
        ) == Some(co),
{
    match d {
        Direction::Up => {},
        Direction::Down => {},
        Direction::Left => {},
        Direction::Right => {},
    }
}

/// A linear cell index stays inside the buffer.
pub proof fn lemma_linear_index_bounds(row: int, col: int, rows: int, cols: int)
    requires
        0 <= row < rows,
        0 <= col < cols,
    ensures
        0 <= row * cols + col < rows * cols,
{
    assert(0 <= row * cols + col < rows * cols) by (nonlinear_arith)
        requires
            0 <= row < rows,
            0 <= col < cols,
    ;
}

/// Two in-bounds coordinates with the same linear index are the same cell.
pub proof fn lemma_linear_index_injective(a: Coordinate, b: Coordinate, cols: int)
    requires
        a.col < cols,
        b.col < cols,
        a.row * cols + a.col == b.row * cols + b.col,
    ensures
        a == b,
{
    assert(a.row == b.row && a.col == b.col) by (nonlinear_arith)
        requires
            0 <= a.col < cols,
            0 <= b.col < cols,
            a.row * cols + a.col == b.row * cols + b.col,
            a.row >= 0,
            b.row >= 0,
    ;
}

/// Why a puzzle description was rejected.
#[derive(Clone, Copy, PartialEq, Eq, Structural, Debug)]
pub enum PuzzleError {
    /// A dimension is zero.
    ZeroDimension,
    /// The cell count does not fit in `usize`.
    GridTooLarge,
    /// More pairs than render symbols.
    TooManyPairs,
    /// A terminal lies outside the board.
    OutOfBounds,
    /// Two terminal cells coincide.
    DuplicateTerminal,
}

pub open spec fn dims_ok(rows: int, cols: int) -> bool {
    1 <= rows && 1 <= cols && rows * cols <= usize::MAX
}

/// The `k`-th terminal cell, flattening each pair into two entries.
pub open spec fn terminal_at(pairs: Seq<(Coordinate, Coordinate)>, k: int) -> Coordinate {
    if k % 2 == 0 {
        pairs[k / 2].0
    } else {
        pairs[k / 2].1
    }
}

pub open spec fn pairs_in_bounds(rows: int, cols: int, pairs: Seq<(Coordinate, Coordinate)>) -> bool {
    forall|i: int|
        0 <= i < pairs.len() ==> (#[trigger] pairs[i]).0.row < rows && pairs[i].0.col < cols
            && pairs[i].1.row < rows && pairs[i].1.col < cols
}

pub open spec fn terminals_distinct(pairs: Seq<(Coordinate, Coordinate)>) -> bool {
    forall|k1: int, k2: int|
        0 <= k1 < k2 < 2 * pairs.len() ==> terminal_at(pairs, k1) != terminal_at(pairs, k2)
}

/// An acceptable puzzle description.
pub open spec fn puzzle_ok(rows: int, cols: int, pairs: Seq<(Coordinate, Coordinate)>) -> bool {
    &&& dims_ok(rows, cols)
    &&& pairs.len() <= MAX_PAIRS
    &&& pairs_in_bounds(rows, cols, pairs)
    &&& terminals_distinct(pairs)
}

pub open spec fn is_terminal_of(pairs: Seq<(Coordinate, Coordinate)>, i: int, co: Coordinate) -> bool {
    pairs[i].0 == co || pairs[i].1 == co
}

/// `co` is a terminal of one of the first `n` pairs.
pub open spec fn has_terminal_prefix(
    pairs: Seq<(Coordinate, Coordinate)>,
    n: int,
    co: Coordinate,
) -> bool {
    exists|i: int| 0 <= i < n && #[trigger] is_terminal_of(pairs, i, co)
}

pub open spec fn has_terminal(pairs: Seq<(Coordinate, Coordinate)>, co: Coordinate) -> bool {
    has_terminal_prefix(pairs, pairs.len() as int, co)
}

/// Distinct flattened terminals mean the two pairs share no coordinate.
pub proof fn lemma_pairs_distinct(pairs: Seq<(Coordinate, Coordinate)>, i: int, j: int)
    requires
        terminals_distinct(pairs),
        0 <= i < pairs.len(),
        0 <= j < pairs.len(),
        i != j,
    ensures
        pairs[i].0 != pairs[j].0,
        pairs[i].0 != pairs[j].1,
        pairs[i].1 != pairs[j].0,
        pairs[i].1 != pairs[j].1,
{
    assert(terminal_at(pairs, 2 * i) == pairs[i].0);
    assert(terminal_at(pairs, 2 * i + 1) == pairs[i].1);
    assert(terminal_at(pairs, 2 * j) == pairs[j].0);
    assert(terminal_at(pairs, 2 * j + 1) == pairs[j].1);
    if i < j {
        assert(terminal_at(pairs, 2 * i) != terminal_at(pairs, 2 * j));
        assert(terminal_at(pairs, 2 * i) != terminal_at(pairs, 2 * j + 1));
        assert(terminal_at(pairs, 2 * i + 1) != terminal_at(pairs, 2 * j));
        assert(terminal_at(pairs, 2 * i + 1) != terminal_at(pairs, 2 * j + 1));
    } else {
        assert(terminal_at(pairs, 2 * j) != terminal_at(pairs, 2 * i));
        assert(terminal_at(pairs, 2 * j) != terminal_at(pairs, 2 * i + 1));
        assert(terminal_at(pairs, 2 * j + 1) != terminal_at(pairs, 2 * i));
        assert(terminal_at(pairs, 2 * j + 1) != terminal_at(pairs, 2 * i + 1));
    }
}

/// A pair's two terminals differ.
pub proof fn lemma_pair_ends_distinct(pairs: Seq<(Coordinate, Coordinate)>, i: int)
    requires
        terminals_distinct(pairs),
        0 <= i < pairs.len(),
    ensures
        pairs[i].0 != pairs[i].1,
{
    assert(terminal_at(pairs, 2 * i) == pairs[i].0);
    assert(terminal_at(pairs, 2 * i + 1) == pairs[i].1);
    assert(terminal_at(pairs, 2 * i) != terminal_at(pairs, 2 * i + 1));
}

/// The grid as built from a puzzle: two `Given(i)` cells per pair `i`,
/// everything else `Unknown`.
pub open spec fn initial_grid(g: Grid, pairs: Seq<(Coordinate, Coordinate)>) -> bool {
    &&& forall|i: int|
        0 <= i < pairs.len() ==> g.cell((#[trigger] pairs[i]).0) == CellState::Given(i as usize)
            && g.cell(pairs[i].1) == CellState::Given(i as usize)
    &&& forall|co: Coordinate|
        g.in_bounds(co) && !has_terminal(pairs, co) ==> (#[trigger] g.cell(co)) is Unknown
}

/// Every pair id written in the grid is below `n`.
pub open spec fn ids_below(g: Grid, n: int) -> bool {
    forall|co: Coordinate|
        g.in_bounds(co) ==> match #[trigger] g.cell(co) {
            CellState::Given(v) => v < n,
            CellState::Forced(v) => v < n,
            CellState::Unknown => true,
        }
}

/// An R x C board of cell states, owned by the solver and mutated in place
/// by the propagator and by path application.
pub struct Grid {
    pub rows: usize,
    pub cols: usize,
    pub cells: Vec<CellState>,
}

impl Grid {
    pub open spec fn wf(self) -> bool {
        &&& 1 <= self.rows
        &&& 1 <= self.cols
        &&& self.cells@.len() == self.rows * self.cols
    }

    pub open spec fn in_bounds(self, co: Coordinate) -> bool {
        co.row < self.rows && co.col < self.cols
    }

    pub open spec fn idx_spec(self, co: Coordinate) -> int {
        co.row * self.cols + co.col
    }

    pub open spec fn cell(self, co: Coordinate) -> CellState {
        self.cells@[self.idx_spec(co)]
    }

    pub open spec fn same_dims(a: Grid, b: Grid) -> bool {
        a.rows == b.rows && a.cols == b.cols
    }

    pub fn rows(&self) -> (n: usize)
        ensures
            n == self.rows,
    {
        self.rows
    }

    pub fn cols(&self) -> (n: usize)
        ensures
            n == self.cols,
    {
        self.cols
    }

    /// The total number of cells.
    pub fn num_squares(&self) -> (n: usize)
        requires
            self.wf(),
        ensures
            n == self.rows * self.cols,
    {
        self.cells.len()
    }

    /// The linear index of an in-bounds coordinate.
    pub fn index_of(&self, co: Coordinate) -> (i: usize)
        requires
            self.wf(),
            self.in_bounds(co),
        ensures
            i == self.idx_spec(co),
            i < self.cells@.len(),
    {
        let n = self.cells.len();
        proof {
            lemma_linear_index_bounds(co.row as int, co.col as int, self.rows as int, self.cols as int);
        }
        co.row * self.cols + co.col
    }

    /// Bounds-checked cell read.
    pub fn get(&self, co: Coordinate) -> (s: CellState)
        requires
            self.wf(),
            self.in_bounds(co),
        ensures
            s == self.cell(co),
    {
        let i = self.index_of(co);
        self.cells[i]
    }

    /// Bounds-checked cell write; every other cell keeps its state.
    pub fn set(&mut self, co: Coordinate, s: CellState)
        requires
            old(self).wf(),
            old(self).in_bounds(co),
        ensures
            final(self).wf(),
            final(self).rows == old(self).rows,
            final(self).cols == old(self).cols,
            final(self).cells@ == old(self).cells@.update(old(self).idx_spec(co), s),
            final(self).cell(co) == s,
            forall|other: Coordinate|
                final(self).in_bounds(other) && other != co ==> final(self).cell(other) == old(
                    self,
                ).cell(other),
    {
        let i = self.index_of(co);
        self.cells[i] = s;
        proof {
            assert forall|other: Coordinate|
                self.in_bounds(other) && other != co implies self.cell(other) == old(self).cell(
                other,
            ) by {
                lemma_linear_index_bounds(
                    other.row as int,
                    other.col as int,
                    self.rows as int,
                    self.cols as int,
                );
                if self.idx_spec(other) == self.idx_spec(co) {
                    lemma_linear_index_injective(other, co, self.cols as int);
                }
            }
        }
    }

    /// Build the initial grid for a puzzle description, validating it:
    /// exactly two `Given(id)` cells per pair `id`, all other cells
    /// `Unknown`. Each error names the first reason, in checking order,
    /// for which the description is rejected.
    pub fn new(rows: usize, cols: usize, pairs: &Vec<(Coordinate, Coordinate)>) -> (r: Result<
        Grid,
        PuzzleError,
    >)
        ensures
            r is Ok <==> puzzle_ok(rows as int, cols as int, pairs@),
            r matches Ok(g) ==> g.wf() && g.rows == rows && g.cols == cols && initial_grid(
                g,
                pairs@,
            ) && ids_below(g, pairs@.len() as int),
            (r matches Err(e) && e == PuzzleError::ZeroDimension) <==> (rows == 0 || cols == 0),
            (r matches Err(e) && e == PuzzleError::GridTooLarge) <==> (rows >= 1 && cols >= 1 && (
            rows as int) * (cols as int) > usize::MAX),
            (r matches Err(e) && e == PuzzleError::TooManyPairs) <==> (dims_ok(
                rows as int,
                cols as int,
            ) && pairs@.len() > MAX_PAIRS),
            (r matches Err(e) && e == PuzzleError::OutOfBounds) <==> (dims_ok(
                rows as int,
                cols as int,
            ) && pairs@.len() <= MAX_PAIRS && !pairs_in_bounds(rows as int, cols as int, pairs@)),
            (r matches Err(e) && e == PuzzleError::DuplicateTerminal) <==> (dims_ok(
                rows as int,
                cols as int,
            ) && pairs@.len() <= MAX_PAIRS && pairs_in_bounds(rows as int, cols as int, pairs@)
                && !terminals_distinct(pairs@)),
    {
        if rows == 0 || cols == 0 {
            return Err(PuzzleError::ZeroDimension);
        }
        let ns = match rows.checked_mul(cols) {
            Some(v) => v,
            None => {
                return Err(PuzzleError::GridTooLarge);
            },
        };
        let npairs = pairs.len();
        if npairs > MAX_PAIRS {
            return Err(PuzzleError::TooManyPairs);
        }
        let mut i: usize = 0;
        while i < npairs
            invariant
                npairs == pairs@.len(),
                i <= npairs,
                rows >= 1,
                cols >= 1,
                (rows as int) * (cols as int) <= usize::MAX,
                npairs <= MAX_PAIRS,
                forall|t: int|
                    0 <= t < i ==> (#[trigger] pairs@[t]).0.row < rows && pairs@[t].0.col < cols
                        && pairs@[t].1.row < rows && pairs@[t].1.col < cols,
            decreases npairs - i,
        {
            let (a, b) = pairs[i];
            if !(a.row < rows && a.col < cols && b.row < rows && b.col < cols) {
                return Err(PuzzleError::OutOfBounds);
            }
            i += 1;
        }
        let mut ts: Vec<Coordinate> = Vec::new();
        let mut i: usize = 0;
        while i < npairs
            invariant
                npairs == pairs@.len(),
                i <= npairs,
                ts@.len() == 2 * i,
                forall|k: int| 0 <= k < 2 * i ==> ts@[k] == terminal_at(pairs@, k),
            decreases npairs - i,
        {
            let (a, b) = pairs[i];
            ts.push(a);
            ts.push(b);
            proof {
                assert forall|k: int| 0 <= k < 2 * (i + 1) implies ts@[k] == terminal_at(
                    pairs@,
                    k,
                ) by {
                    if k == 2 * i {
                        assert(k % 2 == 0 && k / 2 == i);
                    } else if k == 2 * i + 1 {
                        assert(k % 2 == 1 && k / 2 == i);
                    }
                }
            }
            i += 1;
        }
        let tn = ts.len();
        let mut k1: usize = 0;
        while k1 < tn
            invariant
                tn == ts@.len(),
                tn == 2 * pairs@.len(),
                k1 <= tn,
                rows >= 1,
                cols >= 1,
                (rows as int) * (cols as int) <= usize::MAX,
                pairs@.len() <= MAX_PAIRS,
                pairs_in_bounds(rows as int, cols as int, pairs@),
                forall|k: int| 0 <= k < tn ==> ts@[k] == terminal_at(pairs@, k),
                forall|a: int, b: int| 0 <= a < b < tn && a < k1 ==> ts@[a] != ts@[b],
            decreases tn - k1,
        {
            let mut k2: usize = k1 + 1;
            while k2 < tn
                invariant
                    tn == ts@.len(),
                    tn == 2 * pairs@.len(),
                    k1 < tn,
                    k1 < k2 <= tn,
                    rows >= 1,
                    cols >= 1,
                    (rows as int) * (cols as int) <= usize::MAX,
                    pairs@.len() <= MAX_PAIRS,
                    pairs_in_bounds(rows as int, cols as int, pairs@),
                    forall|k: int| 0 <= k < tn ==> ts@[k] == terminal_at(pairs@, k),
                    forall|a: int, b: int| 0 <= a < b < tn && a < k1 ==> ts@[a] != ts@[b],
                    forall|b: int| k1 < b < k2 ==> ts@[k1 as int] != ts@[b],
                decreases tn - k2,
            {
                if ts[k1] == ts[k2] {
                    return Err(PuzzleError::DuplicateTerminal);
                }
                k2 += 1;
            }
            k1 += 1;
        }
        let mut cells: Vec<CellState> = Vec::new();
        let mut k: usize = 0;
        while k < ns
            invariant
                k <= ns,
                cells@.len() == k,
                forall|t: int| 0 <= t < k ==> cells@[t] is Unknown,
            decreases ns - k,
        {
            cells.push(CellState::Unknown);
            k += 1;
        }
        let mut g = Grid { rows, cols, cells };
        proof {
            assert forall|co: Coordinate| g.in_bounds(co) implies (#[trigger] g.cell(co))
                is Unknown by {
                lemma_linear_index_bounds(co.row as int, co.col as int, rows as int, cols as int);
            }
        }
        let mut i: usize = 0;
        while i < npairs
            invariant
                g.wf(),
                g.rows == rows,
                g.cols == cols,
                npairs == pairs@.len(),
                i <= npairs,
                pairs_in_bounds(rows as int, cols as int, pairs@),
                terminals_distinct(pairs@),
                forall|j: int|
                    0 <= j < i ==> g.cell((#[trigger] pairs@[j]).0) == CellState::Given(j as usize)
                        && g.cell(pairs@[j].1) == CellState::Given(j as usize),
                forall|co: Coordinate|
                    g.in_bounds(co) && !has_terminal_prefix(pairs@, i as int, co) ==> (
                    #[trigger] g.cell(co)) is Unknown,
            decreases npairs - i,
        {
            let (a, b) = pairs[i];
            proof {
                lemma_pair_ends_distinct(pairs@, i as int);
            }
            g.set(a, CellState::Given(i));
            g.set(b, CellState::Given(i));
            proof {
                assert forall|j: int|
                    0 <= j < i + 1 implies g.cell((#[trigger] pairs@[j]).0) == CellState::Given(
                    j as usize,
                ) && g.cell(pairs@[j].1) == CellState::Given(j as usize) by {
                    if j < i {
                        lemma_pairs_distinct(pairs@, j, i as int);
                    }
                }
                assert forall|co: Coordinate|
                    g.in_bounds(co) && !has_terminal_prefix(pairs@, i + 1, co) implies (
                #[trigger] g.cell(co)) is Unknown by {
                    assert(!is_terminal_of(pairs@, i as int, co));
                    if has_terminal_prefix(pairs@, i as int, co) {
                        let j = choose|j: int|
                            0 <= j < i && #[trigger] is_terminal_of(pairs@, j, co);
                        assert(has_terminal_prefix(pairs@, i + 1, co));
                        assert(false);
                    }
                }
            }
            i += 1;
        }
        proof {
            assert forall|co: Coordinate|
                g.in_bounds(co) implies match #[trigger] g.cell(co) {
                CellState::Given(v) => v < pairs@.len(),
                CellState::Forced(v) => v < pairs@.len(),
                CellState::Unknown => true,
            } by {
                if !(g.cell(co) is Unknown) {
                    if !has_terminal_prefix(pairs@, npairs as int, co) {
                        assert(g.cell(co) is Unknown);
                    }
                    let j = choose|j: int|
                        0 <= j < npairs && #[trigger] is_terminal_of(pairs@, j, co);
                    assert(g.cell(co) == CellState::Given(j as usize));
                }
            }
        }
        Ok(g)
    }

    /// The symbol a cell renders as: a capital letter for a terminal, a
    /// lower-case letter for a forced cell of the same pair, a dot for an
    /// unresolved cell.
    pub open spec fn symbol_spec(s: CellState) -> u8 {
        match s {
            CellState::Given(v) => (65 + v) as u8,
            CellState::Forced(v) => (97 + v) as u8,
            CellState::Unknown => 46,
        }
    }

    /// Serialize the board: each cell's symbol followed by a space, each
    /// row ended by a newline.
    pub fn render(&self) -> (out: Vec<u8>)
        requires
            self.wf(),
            ids_below(*self, MAX_PAIRS as int),
            self.rows * (2 * self.cols + 1) <= usize::MAX,
        ensures
            out@.len() == self.rows * (2 * self.cols + 1),
            forall|r: int, c: int|
                0 <= r < self.rows && 0 <= c < self.cols ==> (#[trigger] out@[r * (2 * self.cols
                    + 1) + 2 * c]) == Grid::symbol_spec(
                    self.cell(Coordinate { row: r as usize, col: c as usize }),
                ) && out@[r * (2 * self.cols + 1) + 2 * c + 1] == 32,
            forall|r: int|
                0 <= r < self.rows ==> (#[trigger] out@[r * (2 * self.cols + 1) + 2 * self.cols])
                    == 10,
    {
        proof {
            assert(2 * self.cols + 1 <= self.rows * (2 * self.cols + 1)) by (nonlinear_arith)
                requires
                    self.rows >= 1,
                    self.cols >= 1,
            ;
        }
        let width = 2 * self.cols + 1;
        let ghost w = width as int;
        let mut out: Vec<u8> = Vec::new();
        let mut r: usize = 0;
        while r < self.rows
            invariant
                self.wf(),
                ids_below(*self, MAX_PAIRS as int),
                width == 2 * self.cols + 1,
                w == width as int,
                self.rows * w <= usize::MAX,
                r <= self.rows,
                out@.len() == r * w,
                forall|rr: int, cc: int|
                    0 <= rr < r && 0 <= cc < self.cols ==> (#[trigger] out@[rr * w + 2 * cc])
                        == Grid::symbol_spec(
                        self.cell(Coordinate { row: rr as usize, col: cc as usize }),
                    ) && out@[rr * w + 2 * cc + 1] == 32,
                forall|rr: int| 0 <= rr < r ==> (#[trigger] out@[rr * w + 2 * self.cols]) == 10,
            decreases self.rows - r,
        {
            proof {
                assert((r + 1) * w <= self.rows * w) by (nonlinear_arith)
                    requires
                        r < self.rows,
                        w >= 0,
                ;
                assert(r * w + w == (r + 1) * w) by (nonlinear_arith);
            }
            let mut c: usize = 0;
            while c < self.cols
                invariant
                    self.wf(),
                    ids_below(*self, MAX_PAIRS as int),
                    width == 2 * self.cols + 1,
                    w == width as int,
                    self.rows * w <= usize::MAX,
                    r < self.rows,
                    c <= self.cols,
                    r * w + w <= self.rows * w,
                    out@.len() == r * w + 2 * c,
                    forall|rr: int, cc: int|
                        0 <= rr < r && 0 <= cc < self.cols ==> (#[trigger] out@[rr * w + 2 * cc])
                            == Grid::symbol_spec(
                            self.cell(Coordinate { row: rr as usize, col: cc as usize }),
                        ) && out@[rr * w + 2 * cc + 1] == 32,
                    forall|rr: int| 0 <= rr < r ==> (#[trigger] out@[rr * w + 2 * self.cols]) == 10,
                    forall|cc: int|
                        0 <= cc < c ==> (#[trigger] out@[r * w + 2 * cc]) == Grid::symbol_spec(
                            self.cell(Coordinate { row: r as usize, col: cc as usize }),
                        ) && out@[r * w + 2 * cc + 1] == 32,
                decreases self.cols - c,
            {
                let co = Coordinate { row: r, col: c };
                let st = self.get(co);
                proof {
                    assert(self.in_bounds(co));
                    assert(match st {
                        CellState::Given(v) => v < MAX_PAIRS,
                        CellState::Forced(v) => v < MAX_PAIRS,
                        CellState::Unknown => true,
                    });
                }
                let sym: u8 = match st {
                    CellState::Given(v) => 65u8 + (v as u8),
                    CellState::Forced(v) => 97u8 + (v as u8),
                    CellState::Unknown => 46u8,
                };
                let ghost o0 = out@;
                out.push(sym);
                out.push(32u8);
                proof {
                    assert(out@ =~= o0.push(sym).push(32u8));
                    assert(sym == Grid::symbol_spec(st));
                    assert(out@[r * w + 2 * c] == sym);
                    assert(out@[r * w + 2 * c + 1] == 32);
                    assert forall|rr: int, cc: int|
                        0 <= rr < r && 0 <= cc < self.cols implies (#[trigger] out@[rr * w + 2
                        * cc]) == Grid::symbol_spec(
                        self.cell(Coordinate { row: rr as usize, col: cc as usize }),
                    ) && out@[rr * w + 2 * cc + 1] == 32 by {
                        assert(rr * w + 2 * cc + 1 < r * w) by (nonlinear_arith)
                            requires
                                0 <= rr < r,
                                0 <= cc < self.cols,
                                w == 2 * self.cols + 1,
                        ;
                        assert(out@[rr * w + 2 * cc] == o0[rr * w + 2 * cc]);
                        assert(out@[rr * w + 2 * cc + 1] == o0[rr * w + 2 * cc + 1]);
                    }
                    assert forall|rr: int|
                        0 <= rr < r implies (#[trigger] out@[rr * w + 2 * self.cols]) == 10 by {
                        assert(rr * w + 2 * self.cols < r * w) by (nonlinear_arith)
                            requires
                                0 <= rr < r,
                                w == 2 * self.cols + 1,
                                self.cols >= 1,
                        ;
                        assert(out@[rr * w + 2 * self.cols] == o0[rr * w + 2 * self.cols]);
                    }
                    assert forall|cc: int|
                        0 <= cc < c + 1 implies (#[trigger] out@[r * w + 2 * cc])
                        == Grid::symbol_spec(
                        self.cell(Coordinate { row: r as usize, col: cc as usize }),
                    ) && out@[r * w + 2 * cc + 1] == 32 by {
                        if cc < c {
                            assert(out@[r * w + 2 * cc] == o0[r * w + 2 * cc]);
                            assert(out@[r * w + 2 * cc + 1] == o0[r * w + 2 * cc + 1]);
                        }
                    }
                }
                c += 1;
            }
            let ghost o1 = out@;
            out.push(10u8);
            proof {
                assert(out@ =~= o1.push(10u8));
                assert(out@[r * w + 2 * self.cols] == 10);
                assert(out@.len() == r * w + w);
                assert forall|rr: int, cc: int|
                    0 <= rr < r + 1 && 0 <= cc < self.cols implies (#[trigger] out@[rr * w + 2
                    * cc]) == Grid::symbol_spec(
                    self.cell(Coordinate { row: rr as usize, col: cc as usize }),
                ) && out@[rr * w + 2 * cc + 1] == 32 by {
                    assert(rr * w + 2 * cc + 1 < rr * w + w) by (nonlinear_arith)
                        requires
                            0 <= cc < self.cols,
                            w == 2 * self.cols + 1,
                    ;
                    assert(rr * w + w <= r * w + w) by (nonlinear_arith)
                        requires
                            rr <= r,
                            w >= 0,
                    ;
                    assert(out@[rr * w + 2 * cc] == o1[rr * w + 2 * cc]);
                    assert(out@[rr * w + 2 * cc + 1] == o1[rr * w + 2 * cc + 1]);
                }
                assert forall|rr: int|
                    0 <= rr < r + 1 implies (#[trigger] out@[rr * w + 2 * self.cols]) == 10 by {
                    if rr < r {
                        assert(rr * w + 2 * self.cols < r * w) by (nonlinear_arith)
                            requires
                                0 <= rr < r,
                                w == 2 * self.cols + 1,
                                self.cols >= 1,
                        ;
                        assert(out@[rr * w + 2 * self.cols] == o1[rr * w + 2 * self.cols]);
                    }
                }
            }
            r += 1;
        }
        out
    }

    /// The in-bounds neighbour in direction `d`, with its state.
    pub open spec fn neighbor_entry(self, co: Coordinate, d: Direction) -> Seq<
        (Coordinate, CellState),
    > {
        match co.offset_spec(d, self.rows as int, self.cols as int) {
            Some(n) => seq![(n, self.cell(n))],
            None => Seq::empty(),
        }
    }

    /// The in-bounds 4-neighbours of `co` with their states, in the fixed
    /// direction order Up, Down, Left, Right.
    pub open spec fn neighbors_spec(self, co: Coordinate) -> Seq<(Coordinate, CellState)> {
        self.neighbor_entry(co, Direction::Up) + self.neighbor_entry(co, Direction::Down)
            + self.neighbor_entry(co, Direction::Left) + self.neighbor_entry(
            co,
            Direction::Right,
        )
    }

    /// The neighbour query: every in-bounds 4-neighbour of `co` together
    /// with its current state.
    pub fn neighbors(&self, co: Coordinate) -> (r: Vec<(Coordinate, CellState)>)
        requires
            self.wf(),
            self.in_bounds(co),
        ensures
            r@ == self.neighbors_spec(co),
    {
        let mut r: Vec<(Coordinate, CellState)> = Vec::new();
        match co.offset(Direction::Up, self.rows, self.cols) {
            Some(n) => {
                r.push((n, self.get(n)));
            },
            None => {},
        }
        match co.offset(Direction::Down, self.rows, self.cols) {
            Some(n) => {
                r.push((n, self.get(n)));
            },
            None => {},
        }
        match co.offset(Direction::Left, self.rows, self.cols) {
            Some(n) => {
                r.push((n, self.get(n)));
            },
            None => {},
        }
        match co.offset(Direction::Right, self.rows, self.cols) {
            Some(n) => {
                r.push((n, self.get(n)));
            },
            None => {},
        }
        proof {
            assert(r@ =~= self.neighbors_spec(co));
        }
        r
    }

    /// How many of the four neighbours of `co` are `Unknown`, counted per
    /// direction so that the total is a sum of four zero-or-one terms.
    pub open spec fn dir_unknown(self, co: Coordinate, d: Direction) -> int {
        match co.offset_spec(d, self.rows as int, self.cols as int) {
            Some(n) => if self.cell(n) is Unknown {
                1int
            } else {
                0int
            },
            None => 0int,
        }
    }

    pub open spec fn unknown_neighbor_count(self, co: Coordinate) -> int {
        self.dir_unknown(co, Direction::Up) + self.dir_unknown(co, Direction::Down)
            + self.dir_unknown(co, Direction::Left) + self.dir_unknown(co, Direction::Right)
    }

    /// The number of `Unknown` neighbours of `co`, and one of them when any
    /// exists.
    pub fn unknown_neighbors(&self, co: Coordinate) -> (r: (usize, Option<Coordinate>))
        requires
            self.wf(),
            self.in_bounds(co),
        ensures
            r.0 == self.unknown_neighbor_count(co),
            r.0 >= 1 ==> r.1 is Some,
            r.1 matches Some(n) ==> self.in_bounds(n) && self.cell(n) is Unknown && exists|
                d: Direction,
            | co.offset_spec(d, self.rows as int, self.cols as int) == Some(n),
    {
        let mut count: usize = 0;
        let mut found: Option<Coordinate> = None;
        match co.offset(Direction::Up, self.rows, self.cols) {
            Some(n) => {
                match self.get(n) {
                    CellState::Unknown => {
                        count = count + 1;
                        found = Some(n);
                    },
                    _ => {},
                }
            },
            None => {},
        }
        match co.offset(Direction::Down, self.rows, self.cols) {
            Some(n) => {
                match self.get(n) {
                    CellState::Unknown => {
                        count = count + 1;
                        found = Some(n);
                    },
                    _ => {},
                }
            },
            None => {},
        }
        match co.offset(Direction::Left, self.rows, self.cols) {
            Some(n) => {
                match self.get(n) {
                    CellState::Unknown => {
                        count = count + 1;
                        found = Some(n);
                    },
                    _ => {},
                }
            },
            None => {},
        }
        match co.offset(Direction::Right, self.rows, self.cols) {
            Some(n) => {
                match self.get(n) {
                    CellState::Unknown => {
                        count = count + 1;
                        found = Some(n);
                    },
                    _ => {},
                }
            },
            None => {},
        }
        (count, found)
    }
}

} // verus!
