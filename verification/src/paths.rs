//! The candidate path enumerator: for each pair it collects, by exhaustive
//! depth-first search with an explicit traceback stack, every simple
//! 4-connected path between the pair's two terminals whose interior runs
//! through cells that are `Unknown` or already forced to the pair itself.
//! Branches are pruned at a per-pair length bound, and each finished list
//! is sorted ascending by path length.

use vstd::prelude::*;
use crate::grid::{lemma_linear_index_injective, CellState, Coordinate, Direction, Grid};

verus! {

/// 4-connectivity: the two cells differ by one step in exactly one axis.
pub open spec fn adjacent(a: Coordinate, b: Coordinate) -> bool {
    ||| (a.row == b.row && a.col + 1 == b.col)
    ||| (a.row == b.row && b.col + 1 == a.col)
    ||| (a.col == b.col && a.row + 1 == b.row)
    ||| (a.col == b.col && b.row + 1 == a.row)
}

/// No coordinate repeats.
pub open spec fn path_simple(p: Seq<Coordinate>) -> bool {
    forall|i: int, j: int| 0 <= i < j < p.len() ==> p[i] != p[j]
}

/// Every consecutive pair of coordinates is 4-adjacent.
pub open spec fn path_connected(p: Seq<Coordinate>) -> bool {
    forall|i: int| 0 <= i && i + 1 < p.len() ==> adjacent(#[trigger] p[i], p[i + 1])
}

/// Every coordinate lies on an `rows` x `cols` board.
pub open spec fn path_in_grid(p: Seq<Coordinate>, rows: int, cols: int) -> bool {
    forall|i: int| 0 <= i < p.len() ==> (#[trigger] p[i]).row < rows && p[i].col < cols
}

/// A candidate path for pair `id` between terminals `s` and `t` on grid
/// `g`: a simple, 4-connected, in-bounds path from `s` to `t` whose
/// interior cells are `Unknown` or already forced to this pair.
pub open spec fn candidate_ok(g: Grid, id: usize, s: Coordinate, t: Coordinate, p: Seq<
    Coordinate,
>) -> bool {
    &&& p.len() >= 2
    &&& p[0] == s
    &&& p[p.len() - 1] == t
    &&& path_simple(p)
    &&& path_connected(p)
    &&& path_in_grid(p, g.rows as int, g.cols as int)
    &&& forall|i: int|
        1 <= i < p.len() - 1 ==> (g.cell(#[trigger] p[i]) is Unknown || g.cell(p[i])
            == CellState::Forced(id))
}

/// Some coordinate of `p` has linear index `k`.
pub open spec fn seq_covers(p: Seq<Coordinate>, cols: int, k: int) -> bool {
    exists|i: int| 0 <= i < p.len() && (#[trigger] p[i]).row * cols + p[i].col == k
}

/// The views of a list of paths.
pub open spec fn list_view(l: Vec<Vec<Coordinate>>) -> Seq<Seq<Coordinate>> {
    l@.map_values(|p: Vec<Coordinate>| p@)
}

/// `p` is the view of one of the paths in `l`.
pub open spec fn from_list(p: Seq<Coordinate>, l: Seq<Vec<Coordinate>>) -> bool {
    exists|m: int| 0 <= m < l.len() && p == #[trigger] l[m]@
}

/// The predicate "this path has at most `b` cells".
pub open spec fn len_at_most(b: int) -> spec_fn(Seq<Coordinate>) -> bool {
    |p: Seq<Coordinate>| p.len() <= b
}

/// Paths come shortest first.
pub open spec fn sorted_by_len(s: Seq<Seq<Coordinate>>) -> bool {
    forall|k1: int, k2: int| 0 <= k1 <= k2 < s.len() ==> s[k1].len() <= s[k2].len()
}

/// A vector of `n` cleared flags.
pub fn falses(n: usize) -> (v: Vec<bool>)
    ensures
        v@.len() == n,
        forall|i: int| 0 <= i < n ==> !v@[i],
{
    let mut v: Vec<bool> = Vec::new();
    let mut i: usize = 0;
    while i < n
        invariant
            i <= n,
            v@.len() == i,
            forall|k: int| 0 <= k < i ==> !v@[k],
        decreases n - i,
    {
        v.push(false);
        i += 1;
    }
    v
}

/// An element-for-element copy of a path.
pub fn clone_coords(p: &Vec<Coordinate>) -> (r: Vec<Coordinate>)
    ensures
        r@ == p@,
{
    let mut r: Vec<Coordinate> = Vec::new();
    let mut i: usize = 0;
    while i < p.len()
        invariant
            i <= p@.len(),
            r@ == p@.subrange(0, i as int),
        decreases p@.len() - i,
    {
        r.push(p[i]);
        proof {
            assert(r@ =~= p@.subrange(0, i + 1));
        }
        i += 1;
    }
    proof {
        assert(r@ =~= p@);
    }
    r
}

/// A step returned by `offset` really is 4-adjacent to its origin.
pub proof fn lemma_offset_adjacent(co: Coordinate, d: Direction, rows: int, cols: int)
    requires
        rows <= usize::MAX,
        cols <= usize::MAX,
    ensures
        co.offset_spec(d, rows, cols) matches Some(n) ==> adjacent(co, n),
{
    match d {
        Direction::Up => {},
        Direction::Down => {},
        Direction::Left => {},
        Direction::Right => {},
    }
}

/// Popping the last cell of the path clears exactly its slot in the
/// visited map.
proof fn lemma_visited_after_pop(p0: Seq<Coordinate>, v0: Seq<bool>, cols: int, ci: int)
    requires
        p0.len() > 0,
        path_simple(p0),
        forall|i: int| 0 <= i < p0.len() ==> (#[trigger] p0[i]).col < cols,
        ci == p0[p0.len() - 1].row * cols + p0[p0.len() - 1].col,
        0 <= ci < v0.len(),
        forall|k: int| 0 <= k < v0.len() ==> v0[k] == seq_covers(p0, cols, k),
    ensures
        forall|k: int|
            0 <= k < v0.len() ==> v0.update(ci, false)[k] == seq_covers(p0.drop_last(), cols, k),
{
    let p1 = p0.drop_last();
    let co = p0[p0.len() - 1];
    assert forall|k: int|
        0 <= k < v0.len() implies v0.update(ci, false)[k] == seq_covers(p1, cols, k) by {
        if k == ci {
            if seq_covers(p1, cols, k) {
                let w = choose|w: int|
                    0 <= w < p1.len() && (#[trigger] p1[w]).row * cols + p1[w].col == k;
                assert(p1[w] == p0[w]);
                lemma_linear_index_injective(p0[w], co, cols);
                assert(false);
            }
        } else {
            if seq_covers(p0, cols, k) {
                let w = choose|w: int|
                    0 <= w < p0.len() && (#[trigger] p0[w]).row * cols + p0[w].col == k;
                if w == p0.len() - 1 {
                    assert(false);
                } else {
                    assert(p1[w] == p0[w]);
                    assert(seq_covers(p1, cols, k));
                }
            }
            if seq_covers(p1, cols, k) {
                let w = choose|w: int|
                    0 <= w < p1.len() && (#[trigger] p1[w]).row * cols + p1[w].col == k;
                assert(p0[w] == p1[w]);
                assert(seq_covers(p0, cols, k));
            }
        }
    }
}

/// Pushing a new cell onto the path sets exactly its slot in the visited
/// map.
proof fn lemma_visited_after_push(
    p0: Seq<Coordinate>,
    v0: Seq<bool>,
    cols: int,
    c2: Coordinate,
    ci: int,
)
    requires
        ci == c2.row * cols + c2.col,
        0 <= ci < v0.len(),
        forall|k: int| 0 <= k < v0.len() ==> v0[k] == seq_covers(p0, cols, k),
    ensures
        forall|k: int|
            0 <= k < v0.len() ==> v0.update(ci, true)[k] == seq_covers(p0.push(c2), cols, k),
{
    let p1 = p0.push(c2);
    assert forall|k: int|
        0 <= k < v0.len() implies v0.update(ci, true)[k] == seq_covers(p1, cols, k) by {
        if k == ci {
            assert(p1[p1.len() - 1] == c2);
            assert(seq_covers(p1, cols, k));
        } else {
            if seq_covers(p0, cols, k) {
                let w = choose|w: int|
                    0 <= w < p0.len() && (#[trigger] p0[w]).row * cols + p0[w].col == k;
                assert(p1[w] == p0[w]);
                assert(seq_covers(p1, cols, k));
            }
            if seq_covers(p1, cols, k) {
                let w = choose|w: int|
                    0 <= w < p1.len() && (#[trigger] p1[w]).row * cols + p1[w].col == k;
                if w == p0.len() {
                    assert(false);
                } else {
                    assert(p0[w] == p1[w]);
                    assert(seq_covers(p0, cols, k));
                }
            }
        }
    }
}

/// A finished branch extended by the destination is a valid candidate.
proof fn lemma_candidate_complete(
    g: Grid,
    id: usize,
    src: Coordinate,
    dest: Coordinate,
    p0: Seq<Coordinate>,
    cand: Seq<Coordinate>,
)
    requires
        cand == p0.push(dest),
        p0.len() >= 1,
        p0[0] == src,
        src != dest,
        path_simple(p0),
        path_connected(p0),
        path_in_grid(p0, g.rows as int, g.cols as int),
        g.in_bounds(dest),
        forall|i: int|
            1 <= i < p0.len() ==> (g.cell(#[trigger] p0[i]) is Unknown || g.cell(p0[i])
                == CellState::Forced(id)),
        forall|i: int| 1 <= i < p0.len() ==> p0[i] != dest,
        adjacent(p0[p0.len() - 1], dest),
    ensures
        candidate_ok(g, id, src, dest, cand),
{
    assert(cand[0] == src);
    assert(cand[cand.len() - 1] == dest);
    assert forall|i: int, j: int| 0 <= i < j < cand.len() implies cand[i] != cand[j] by {
        if j < p0.len() {
            assert(cand[i] == p0[i] && cand[j] == p0[j]);
        } else {
            assert(cand[j] == dest);
            if i == 0 {
                assert(cand[i] == src);
            } else {
                assert(cand[i] == p0[i]);
            }
        }
    }
    assert forall|i: int|
        0 <= i && i + 1 < cand.len() implies adjacent(#[trigger] cand[i], cand[i + 1]) by {
        if i + 1 < p0.len() {
            assert(cand[i] == p0[i] && cand[i + 1] == p0[i + 1]);
        } else {
            assert(cand[i] == p0[p0.len() - 1] && cand[i + 1] == dest);
        }
    }
    assert forall|i: int|
        0 <= i < cand.len() implies (#[trigger] cand[i]).row < g.rows && cand[i].col < g.cols by {
        if i < p0.len() {
            assert(cand[i] == p0[i]);
        }
    }
    assert forall|i: int|
        1 <= i < cand.len() - 1 implies (g.cell(#[trigger] cand[i]) is Unknown || g.cell(cand[i])
            == CellState::Forced(id)) by {
        assert(cand[i] == p0[i]);
    }
}

/// Extending the path with a cell not yet visited keeps it simple,
/// connected and in bounds.
proof fn lemma_path_extend(g: Grid, p0: Seq<Coordinate>, c2: Coordinate, cols: int)
    requires
        p0.len() >= 1,
        path_simple(p0),
        path_connected(p0),
        path_in_grid(p0, g.rows as int, g.cols as int),
        cols == g.cols,
        g.in_bounds(c2),
        !seq_covers(p0, cols, c2.row * cols + c2.col),
        adjacent(p0[p0.len() - 1], c2),
    ensures
        path_simple(p0.push(c2)),
        path_connected(p0.push(c2)),
        path_in_grid(p0.push(c2), g.rows as int, g.cols as int),
{
    let p1 = p0.push(c2);
    assert forall|i: int, j: int| 0 <= i < j < p1.len() implies p1[i] != p1[j] by {
        if j < p0.len() {
            assert(p1[i] == p0[i] && p1[j] == p0[j]);
        } else {
            assert(p1[j] == c2);
            assert(p1[i] == p0[i]);
            if p0[i] == c2 {
                assert(p0[i].row * cols + p0[i].col == c2.row * cols + c2.col);
                assert(seq_covers(p0, cols, c2.row * cols + c2.col));
                assert(false);
            }
        }
    }
    assert forall|i: int|
        0 <= i && i + 1 < p1.len() implies adjacent(#[trigger] p1[i], p1[i + 1]) by {
        if i + 1 < p0.len() {
            assert(p1[i] == p0[i] && p1[i + 1] == p0[i + 1]);
        } else {
            assert(p1[i] == p0[p0.len() - 1] && p1[i + 1] == c2);
        }
    }
    assert forall|i: int|
        0 <= i < p1.len() implies (#[trigger] p1[i]).row < g.rows && p1[i].col < g.cols by {
        if i < p0.len() {
            assert(p1[i] == p0[i]);
        }
    }
}

/// Powers of six: the weight base of the traceback measure (at most five
/// untried direction states per stack entry, with headroom so that going
/// deeper strictly pays).
spec fn pow6(e: int) -> int
    decreases e,
{
    if e <= 0 {
        1
    } else {
        6 * pow6(e - 1)
    }
}

proof fn lemma_pow6_pos(e: int)
    ensures
        pow6(e) >= 1,
    decreases e,
{
    if e > 0 {
        lemma_pow6_pos(e - 1);
    }
}

/// The work left in a traceback stack: each entry contributes its untried
/// directions, deeper entries weighted less.
spec fn dfs_measure(dirs: Seq<u8>, cap: int, i: int) -> int
    decreases dirs.len() - i,
{
    if i < 0 || i >= dirs.len() {
        0
    } else {
        (5 - dirs[i]) * pow6(cap - i) + dfs_measure(dirs, cap, i + 1)
    }
}

proof fn lemma_dfs_measure_nonneg(dirs: Seq<u8>, cap: int, i: int)
    requires
        forall|j: int| 0 <= j < dirs.len() ==> dirs[j] <= 5,
    ensures
        dfs_measure(dirs, cap, i) >= 0,
    decreases dirs.len() - i,
{
    if 0 <= i < dirs.len() {
        lemma_dfs_measure_nonneg(dirs, cap, i + 1);
        lemma_pow6_pos(cap - i);
        assert((5 - dirs[i]) * pow6(cap - i) >= 0) by (nonlinear_arith)
            requires
                dirs[i] <= 5,
                pow6(cap - i) >= 1,
        ;
    }
}

/// Dropping the deepest stack entry removes exactly its contribution.
proof fn lemma_dfs_measure_pop(dirs: Seq<u8>, cap: int, i: int)
    requires
        dirs.len() >= 1,
        0 <= i,
    ensures
        dfs_measure(dirs, cap, i) == dfs_measure(dirs.drop_last(), cap, i) + if i <= dirs.len()
            - 1 {
            (5 - dirs[dirs.len() - 1]) * pow6(cap - (dirs.len() - 1))
        } else {
            0int
        },
    decreases dirs.len() - i,
{
    if i < dirs.len() {
        lemma_dfs_measure_pop(dirs, cap, i + 1);
        if i < dirs.len() - 1 {
            assert(dirs.drop_last()[i] == dirs[i]);
        }
    }
}

/// Changing one stack entry moves the measure by that entry's weighted
/// difference.
proof fn lemma_dfs_measure_update(ch1: Seq<u8>, ch2: Seq<u8>, cap: int, t: int, i: int)
    requires
        ch2.len() == ch1.len(),
        0 <= t < ch1.len(),
        0 <= i,
        forall|j: int| 0 <= j < ch1.len() && j != t ==> #[trigger] ch2[j] == ch1[j],
    ensures
        dfs_measure(ch2, cap, i) - dfs_measure(ch1, cap, i) == if i <= t {
            (ch1[t] - ch2[t]) * pow6(cap - t)
        } else {
            0int
        },
    decreases ch1.len() - i,
{
    if i < ch1.len() {
        lemma_dfs_measure_update(ch1, ch2, cap, t, i + 1);
        if i == t {
            assert((5 - ch2[t]) * pow6(cap - t) - (5 - ch1[t]) * pow6(cap - t) == (ch1[t]
                - ch2[t]) * pow6(cap - t)) by (nonlinear_arith);
        } else {
            assert(ch2[i] == ch1[i]);
        }
    }
}

/// Pushing a fresh entry adds its full contribution at the new depth.
proof fn lemma_dfs_measure_push(dirs: Seq<u8>, x: u8, cap: int, i: int)
    requires
        0 <= i,
    ensures
        dfs_measure(dirs.push(x), cap, i) == dfs_measure(dirs, cap, i) + if i <= dirs.len() {
            (5 - x) * pow6(cap - dirs.len())
        } else {
            0int
        },
    decreases dirs.len() + 1 - i,
{
    if i <= dirs.len() {
        lemma_dfs_measure_push(dirs, x, cap, i + 1);
        if i < dirs.len() {
            assert(dirs.push(x)[i] == dirs[i]);
        } else {
            assert(dirs.push(x)[i] == x);
        }
    }
}

/// Enumerates candidate paths, one ordered list per pair.
pub struct PathGenerator {
    pub paths: Vec<Vec<Vec<Coordinate>>>,
    pub targets: Vec<(Coordinate, Coordinate)>,
}

impl PathGenerator {
    pub open spec fn wf(self) -> bool {
        self.paths@.len() == self.targets@.len()
    }

    /// The candidate list of pair `i`, as a sequence of path views.
    pub open spec fn plist(self, i: int) -> Seq<Seq<Coordinate>> {
        list_view(self.paths@[i])
    }

    /// The cell budget reserved for pair `i` while enumerating pair `n`:
    /// pairs already enumerated reserve their shortest candidate, pairs not
    /// yet enumerated reserve the Manhattan distance of their terminals.
    pub open spec fn reserve_spec(self, n: int, i: int) -> int {
        if i < n {
            self.plist(i)[0].len() as int
        } else if i == n {
            0
        } else {
            self.targets@[i].0.dist_spec(self.targets@[i].1)
        }
    }

    pub open spec fn reserve_sum(self, n: int, k: int) -> int
        decreases k,
    {
        if k <= 0 {
            0
        } else {
            self.reserve_sum(n, k - 1) + self.reserve_spec(n, k - 1)
        }
    }

    /// The length bound for pair `n`'s candidates: the whole board minus
    /// what every other pair at least needs, clamped at zero.
    pub open spec fn max_len_spec(self, g: Grid, n: int) -> int {
        let total = self.reserve_sum(n, self.targets@.len() as int);
        if total >= g.rows * g.cols {
            0
        } else {
            g.rows * g.cols - total
        }
    }

    pub proof fn lemma_reserve_sum_mono(self, n: int, k1: int, k2: int)
        requires
            0 <= k1 <= k2,
        ensures
            self.reserve_sum(n, k1) <= self.reserve_sum(n, k2),
        decreases k2,
    {
        if k2 > k1 {
            self.lemma_reserve_sum_mono(n, k1, k2 - 1);
            assert(self.reserve_spec(n, k2 - 1) >= 0);
        }
    }

    /// One empty candidate list per pair.
    pub fn new(targets: Vec<(Coordinate, Coordinate)>) -> (r: PathGenerator)
        ensures
            r.wf(),
            r.targets@ == targets@,
            forall|i: int| 0 <= i < r.paths@.len() ==> r.plist(i).len() == 0,
    {
        let mut paths: Vec<Vec<Vec<Coordinate>>> = Vec::new();
        let mut i: usize = 0;
        while i < targets.len()
            invariant
                i <= targets@.len(),
                paths@.len() == i,
                forall|k: int| 0 <= k < i ==> list_view(paths@[k]).len() == 0,
            decreases targets@.len() - i,
        {
            let l: Vec<Vec<Coordinate>> = Vec::new();
            paths.push(l);
            i += 1;
        }
        PathGenerator { paths, targets }
    }

    /// The upper bound on the length of any candidate generated for pair
    /// `n`: the number of board cells not reserved by the other pairs.
    pub fn max_path_len(&self, g: &Grid, n: usize) -> (m: usize)
        requires
            self.wf(),
            g.wf(),
            n < self.targets@.len(),
            forall|i: int| 0 <= i < n ==> self.plist(i).len() > 0,
            forall|i: int|
                0 <= i < self.targets@.len() ==> g.in_bounds((#[trigger] self.targets@[i]).0)
                    && g.in_bounds(self.targets@[i].1),
        ensures
            m == self.max_len_spec(*g, n as int),
            m <= g.rows * g.cols,
    {
        let total_cells = g.num_squares();
        let count = self.targets.len();
        let mut acc: usize = 0;
        let mut i: usize = 0;
        while i < count
            invariant
                self.wf(),
                g.wf(),
                i <= count,
                count == self.targets@.len(),
                n < count,
                total_cells == g.rows * g.cols,
                forall|k: int| 0 <= k < n ==> self.plist(k).len() > 0,
                forall|k: int|
                    0 <= k < count ==> g.in_bounds((#[trigger] self.targets@[k]).0) && g.in_bounds(
                        self.targets@[k].1,
                    ),
                acc == self.reserve_sum(n as int, i as int),
                acc <= total_cells,
            decreases count - i,
        {
            let term: usize = if i < n {
                proof {
                    assert(self.plist(i as int).len() == self.paths@[i as int]@.len());
                    assert(self.plist(i as int)[0] == self.paths@[i as int]@[0]@);
                }
                let first: &Vec<Coordinate> = &self.paths[i][0];
                first.len()
            } else if i == n {
                0
            } else {
                let (a, b) = self.targets[i];
                proof {
                    assert(a.dist_spec(b) <= g.rows * g.cols) by (nonlinear_arith)
                        requires
                            a.row < g.rows,
                            b.row < g.rows,
                            a.col < g.cols,
                            b.col < g.cols,
                            g.rows >= 1,
                            g.cols >= 1,
                            a.dist_spec(b) == (if a.row >= b.row {
                                a.row - b.row
                            } else {
                                b.row - a.row
                            }) + (if a.col >= b.col {
                                a.col - b.col
                            } else {
                                b.col - a.col
                            }),
                    ;
                }
                a.min_distance(b)
            };
            proof {
                assert(self.reserve_sum(n as int, i + 1) == self.reserve_sum(n as int, i as int)
                    + self.reserve_spec(n as int, i as int));
            }
            if term > total_cells - acc {
                proof {
                    self.lemma_reserve_sum_mono(n as int, i + 1, count as int);
                }
                return 0;
            }
            acc = acc + term;
            i += 1;
        }
        total_cells - acc
    }

    /// Exhaustive depth-first enumeration of the candidate paths of pair
    /// `n`, with an explicit traceback stack and a length bound; the
    /// finished list is sorted shortest first. Every collected path is a
    /// valid candidate for the pair on grid `g`.
    #[verifier::rlimit(100)]
    pub fn generate(&mut self, g: &Grid, n: usize)
        requires
            old(self).wf(),
            g.wf(),
            n < old(self).targets@.len(),
            old(self).targets@[n as int].0 != old(self).targets@[n as int].1,
            forall|i: int|
                0 <= i < old(self).targets@.len() ==> g.in_bounds(
                    (#[trigger] old(self).targets@[i]).0,
                ) && g.in_bounds(old(self).targets@[i].1),
            forall|i: int| 0 <= i < n ==> old(self).plist(i).len() > 0,
        ensures
            final(self).wf(),
            final(self).targets@ == old(self).targets@,
            final(self).paths@.len() == old(self).paths@.len(),
            forall|m: int|
                0 <= m < old(self).paths@.len() && m != n ==> final(self).plist(m) == old(
                    self,
                ).plist(m),
            sorted_by_len(final(self).plist(n as int)),
            forall|k: int|
                0 <= k < final(self).plist(n as int).len() ==> candidate_ok(
                    *g,
                    n,
                    old(self).targets@[n as int].0,
                    old(self).targets@[n as int].1,
                    #[trigger] final(self).plist(n as int)[k],
                ) && final(self).plist(n as int)[k].len() <= old(self).max_len_spec(*g, n as int),
    {
        let (src, dest) = self.targets[n];
        let max_len = self.max_path_len(g, n);
        let rows = g.rows();
        let cols = g.cols();
        let mut found: Vec<Vec<Coordinate>> = Vec::new();
        let mut path: Vec<Coordinate> = Vec::new();
        let mut dirs: Vec<u8> = Vec::new();
        let mut visited: Vec<bool> = falses(g.num_squares());
        path.push(src);
        dirs.push(0);
        let si = g.index_of(src);
        visited[si] = true;
        proof {
            assert forall|k: int|
                0 <= k < visited@.len() implies visited@[k] == seq_covers(
                path@,
                cols as int,
                k,
            ) by {
                if k == si {
                    assert(path@[0].row * (cols as int) + path@[0].col == k);
                } else {
                    if seq_covers(path@, cols as int, k) {
                        let w = choose|w: int|
                            0 <= w < path@.len() && (#[trigger] path@[w]).row * (cols as int)
                                + path@[w].col == k;
                        assert(w == 0);
                        assert(false);
                    }
                }
            }
        }
        let ghost mcap = g.rows * g.cols + 1;
        while 0 < path.len()
            invariant
                g.wf(),
                mcap == g.rows * g.cols + 1,
                rows == g.rows,
                cols == g.cols,
                g.in_bounds(src),
                g.in_bounds(dest),
                src != dest,
                max_len <= g.rows * g.cols,
                dirs@.len() == path@.len(),
                forall|i: int| 0 <= i < dirs@.len() ==> dirs@[i] <= 4,
                path@.len() <= max_len || path@.len() <= 1,
                path@.len() > 0 ==> path@[0] == src,
                path_simple(path@),
                path_connected(path@),
                path_in_grid(path@, g.rows as int, g.cols as int),
                forall|i: int|
                    1 <= i < path@.len() ==> (g.cell(#[trigger] path@[i]) is Unknown || g.cell(
                        path@[i],
                    ) == CellState::Forced(n)),
                forall|i: int| 1 <= i < path@.len() ==> path@[i] != dest,
                visited@.len() == g.rows * g.cols,
                forall|k: int|
                    0 <= k < visited@.len() ==> visited@[k] == seq_covers(path@, cols as int, k),
                forall|k: int|
                    0 <= k < found@.len() ==> candidate_ok(*g, n, src, dest, #[trigger] found@[k]@)
                        && found@[k]@.len() <= max_len,
            decreases dfs_measure(dirs@, mcap, 0),
        {
            let plen = path.len();
            let top = dirs[plen - 1];
            if plen >= max_len || top >= 4 {
                // this branch is exhausted (or too long): backtrack one cell
                let ghost p0 = path@;
                let ghost v0 = visited@;
                let ghost d0 = dirs@;
                let co = match path.pop() {
                    Some(x) => x,
                    None => {
                        proof {
                            assert(false);
                        }
                        Coordinate { row: 0, col: 0 }
                    },
                };
                let ci = g.index_of(co);
                visited[ci] = false;
                let _ = dirs.pop();
                proof {
                    assert(path@ =~= p0.drop_last());
                    assert(co == p0[p0.len() - 1]);
                    lemma_visited_after_pop(p0, v0, cols as int, ci as int);
                    assert(visited@ == v0.update(ci as int, false));
                    // the popped traceback entry paid at least one unit
                    assert(dirs@ =~= d0.drop_last());
                    lemma_dfs_measure_pop(d0, mcap, 0);
                    lemma_pow6_pos(mcap - (d0.len() - 1));
                    assert((5 - d0[d0.len() - 1]) * pow6(mcap - (d0.len() - 1)) >= 1)
                        by (nonlinear_arith)
                        requires
                            d0[d0.len() - 1] <= 4,
                            pow6(mcap - (d0.len() - 1)) >= 1,
                    ;
                    lemma_dfs_measure_nonneg(dirs@, mcap, 0);
                }
            } else {
                let ghost d0 = dirs@;
                dirs[plen - 1] = top + 1;
                proof {
                    // advancing the deepest cursor pays one weight unit
                    lemma_dfs_measure_update(d0, dirs@, mcap, plen - 1, 0);
                    lemma_pow6_pos(mcap - (plen - 1));
                    assert((d0[plen - 1] - dirs@[plen - 1]) * pow6(mcap - (plen - 1)) == -pow6(
                        mcap - (plen - 1),
                    )) by (nonlinear_arith)
                        requires
                            d0[plen - 1] - dirs@[plen - 1] == -1,
                    ;
                    lemma_dfs_measure_nonneg(dirs@, mcap, 0);
                }
                let cur = path[plen - 1];
                let d = Direction::from_index(top as usize);
                let next = cur.offset(d, rows, cols);
                proof {
                    lemma_offset_adjacent(cur, d, rows as int, cols as int);
                }
                match next {
                    Some(c2) => {
                        if c2 == dest {
                            // a complete candidate; other directions from the
                            // current cell may still yield more, so do not
                            // backtrack here
                            let mut cand = clone_coords(&path);
                            cand.push(dest);
                            proof {
                                assert(cand@ =~= path@.push(dest));
                                assert(path@[path@.len() - 1] == cur);
                                lemma_candidate_complete(*g, n, src, dest, path@, cand@);
                            }
                            let ghost f0 = found@;
                            found.push(cand);
                            proof {
                                assert forall|k: int|
                                    0 <= k < found@.len() implies candidate_ok(
                                    *g,
                                    n,
                                    src,
                                    dest,
                                    #[trigger] found@[k]@,
                                ) && found@[k]@.len() <= max_len by {
                                    if k < f0.len() {
                                        assert(found@[k] == f0[k]);
                                    }
                                }
                            }
                        } else {
                            let ci = g.index_of(c2);
                            if !visited[ci] {
                                let st = g.get(c2);
                                let ok = match st {
                                    CellState::Unknown => true,
                                    CellState::Forced(v) => v == n,
                                    CellState::Given(_) => false,
                                };
                                if ok {
                                    let ghost p0 = path@;
                                    let ghost v0 = visited@;
                                    let ghost d1 = dirs@;
                                    path.push(c2);
                                    visited[ci] = true;
                                    dirs.push(0);
                                    proof {
                                        assert(path@ =~= p0.push(c2));
                                        assert(p0[p0.len() - 1] == cur);
                                        lemma_path_extend(*g, p0, c2, cols as int);
                                        lemma_visited_after_push(
                                            p0,
                                            v0,
                                            cols as int,
                                            c2,
                                            ci as int,
                                        );
                                        assert(visited@ == v0.update(ci as int, true));
                                        // the fresh entry costs less than the
                                        // cursor advance that opened it paid
                                        lemma_dfs_measure_push(d1, 0u8, mcap, 0);
                                        assert(d1.len() == plen);
                                        assert(pow6(mcap - (plen - 1)) == 6 * pow6(mcap - plen));
                                        lemma_pow6_pos(mcap - plen);
                                        lemma_dfs_measure_nonneg(dirs@, mcap, 0);
                                    }
                                }
                            }
                        }
                    },
                    None => {},
                }
            }
        }
        sort_by_len_vec(&mut found);
        proof {
            assert forall|k: int|
                0 <= k < list_view(found).len() implies candidate_ok(
                *g,
                n,
                src,
                dest,
                #[trigger] list_view(found)[k],
            ) && list_view(found)[k].len() <= max_len by {
                assert(list_view(found)[k] == found@[k]@);
            }
        }
        self.paths[n] = found;
        proof {
            assert(self.paths@ == old(self).paths@.update(n as int, found));
            assert forall|m: int|
                0 <= m < old(self).paths@.len() && m != n implies self.plist(m) == old(
                self,
            ).plist(m) by {
                assert(self.paths@[m] == old(self).paths@[m]);
            }
            assert(self.plist(n as int) =~= list_view(found));
        }
    }

    /// Enumerate candidates for every pair in order. Returns false as soon
    /// as some pair has no candidate at all, in which case the puzzle has
    /// no solution.
    pub fn generate_all(&mut self, g: &Grid) -> (ok: bool)
        requires
            old(self).wf(),
            g.wf(),
            forall|i: int|
                0 <= i < old(self).targets@.len() ==> g.in_bounds(
                    (#[trigger] old(self).targets@[i]).0,
                ) && g.in_bounds(old(self).targets@[i].1),
            forall|i: int|
                0 <= i < old(self).targets@.len() ==> (#[trigger] old(self).targets@[i]).0 != old(
                    self,
                ).targets@[i].1,
        ensures
            final(self).wf(),
            final(self).targets@ == old(self).targets@,
            final(self).paths@.len() == old(self).paths@.len(),
            ok ==> forall|i: int|
                0 <= i < final(self).targets@.len() ==> #[trigger] final(self).plist(i).len() > 0,
            !ok ==> exists|i: int|
                0 <= i < final(self).targets@.len() && #[trigger] final(self).plist(i).len() == 0,
            ok ==> forall|i: int|
                0 <= i < final(self).targets@.len() ==> sorted_by_len(
                    #[trigger] final(self).plist(i),
                ),
            ok ==> forall|i: int, k: int|
                0 <= i < final(self).targets@.len() && 0 <= k < final(self).plist(i).len()
                    ==> candidate_ok(
                    *g,
                    i as usize,
                    final(self).targets@[i].0,
                    final(self).targets@[i].1,
                    #[trigger] final(self).plist(i)[k],
                ),
    {
        let count = self.targets.len();
        let mut i: usize = 0;
        while i < count
            invariant
                self.wf(),
                g.wf(),
                count == self.targets@.len(),
                i <= count,
                self.targets@ == old(self).targets@,
                self.paths@.len() == old(self).paths@.len(),
                forall|m: int|
                    0 <= m < count ==> g.in_bounds((#[trigger] self.targets@[m]).0) && g.in_bounds(
                        self.targets@[m].1,
                    ),
                forall|m: int|
                    0 <= m < count ==> (#[trigger] self.targets@[m]).0 != self.targets@[m].1,
                forall|m: int| 0 <= m < i ==> #[trigger] self.plist(m).len() > 0,
                forall|m: int| 0 <= m < i ==> sorted_by_len(#[trigger] self.plist(m)),
                forall|m: int, k: int|
                    0 <= m < i && 0 <= k < self.plist(m).len() ==> candidate_ok(
                        *g,
                        m as usize,
                        self.targets@[m].0,
                        self.targets@[m].1,
                        #[trigger] self.plist(m)[k],
                    ),
            decreases count - i,
        {
            self.generate(g, i);
            if self.paths[i].len() == 0 {
                proof {
                    assert(self.plist(i as int).len() == self.paths@[i as int]@.len());
                }
                return false;
            }
            proof {
                assert(self.plist(i as int).len() == self.paths@[i as int]@.len());
            }
            i += 1;
        }
        true
    }

    /// Hand the candidate lists over to the selector.
    pub fn collect(self) -> (r: Vec<Vec<Vec<Coordinate>>>)
        ensures
            r@.len() == self.paths@.len(),
            forall|i: int| 0 <= i < r@.len() ==> list_view(#[trigger] r@[i]) == self.plist(i),
    {
        let PathGenerator { paths, targets: _ } = self;
        paths
    }
}

/// The first position in the sorted prefix `0..i` whose path is longer
/// than `xlen`, or `i` when none is.
fn insert_pos(v: &Vec<Vec<Coordinate>>, i: usize, xlen: usize) -> (j: usize)
    requires
        i <= v@.len(),
    ensures
        j <= i,
        forall|k: int| 0 <= k < j ==> v@[k]@.len() <= xlen,
        j < i ==> v@[j as int]@.len() > xlen,
{
    let mut j: usize = 0;
    while j < i
        invariant
            j <= i,
            i <= v@.len(),
            forall|k: int| 0 <= k < j ==> v@[k]@.len() <= xlen,
        decreases i - j,
    {
        if v[j].len() > xlen {
            return j;
        }
        j += 1;
    }
    i
}

/// Moving an element into the sequence at any position adds exactly that
/// element to the sequence's multiset.
proof fn lemma_insert_multiset(s: Seq<Vec<Coordinate>>, j: int, x: Vec<Coordinate>)
    requires
        0 <= j <= s.len(),
    ensures
        s.insert(j, x).to_multiset() =~= s.to_multiset().insert(x),
{
    broadcast use vstd::seq_lib::group_to_multiset_ensures;

    let a = s.subrange(0, j);
    let b = s.subrange(j, s.len() as int);
    assert(s =~= a + b);
    vstd::seq_lib::lemma_multiset_commutative(a, b);
    vstd::seq_lib::lemma_multiset_commutative(a.push(x), b);
    assert(a.push(x).to_multiset() =~= a.to_multiset().insert(x));
}

/// Insertion sort on path length, shortest first: a permutation of the
/// input, ordered ascending by length.
fn sort_by_len_vec(v: &mut Vec<Vec<Coordinate>>)
    ensures
        final(v)@.len() == old(v)@.len(),
        sorted_by_len(list_view(*final(v))),
        final(v)@.to_multiset() == old(v)@.to_multiset(),
        forall|k: int| 0 <= k < final(v)@.len() ==> from_list(#[trigger] final(v)@[k]@, old(v)@),
{
    let ghost orig = *v;
    proof {
        assert forall|k: int| 0 <= k < v@.len() implies from_list(#[trigger] v@[k]@, orig@) by {
            assert(0 <= k < orig@.len() && v@[k]@ == orig@[k]@);
        }
    }
    let mut i: usize = 1;
    while i < v.len()
        invariant
            v@.len() == orig@.len(),
            1 <= i,
            v@.to_multiset() == orig@.to_multiset(),
            forall|k1: int, k2: int| 0 <= k1 <= k2 < i ==> v@[k1]@.len() <= v@[k2]@.len(),
            forall|k: int| 0 <= k < v@.len() ==> from_list(#[trigger] v@[k]@, orig@),
        decreases v@.len() - i,
    {
        let ghost before = *v;
        let x = v.remove(i);
        let ghost removed = *v;
        proof {
            before@.remove_ensures(i as int);
            assert(x@ == before@[i as int]@);
        }
        let xlen = x.len();
        let j = insert_pos(v, i, xlen);
        v.insert(j, x);
        proof {
            removed@.insert_ensures(j as int, x);
            assert(v@.len() == before@.len());
            broadcast use vstd::seq_lib::group_to_multiset_ensures;

            lemma_insert_multiset(removed@, j as int, x);
            assert(removed@.to_multiset() =~= before@.to_multiset().remove(before@[i as int]));
            assert(before@.contains(before@[i as int]));
            assert(v@.to_multiset() =~= before@.to_multiset());
            // every slot of the new arrangement came from `before`
            assert forall|k: int| 0 <= k < v@.len() implies from_list(#[trigger] v@[k]@, orig@) by {
                if k < j {
                    assert(v@[k]@ == before@[k]@);
                    assert(from_list(before@[k]@, orig@));
                } else if k == j {
                    assert(v@[k]@ == before@[i as int]@);
                    assert(from_list(before@[i as int]@, orig@));
                } else if k <= i {
                    assert(v@[k]@ == removed@[k - 1]@);
                    assert(removed@[k - 1]@ == before@[k - 1]@);
                    assert(from_list(before@[k - 1]@, orig@));
                } else {
                    assert(v@[k]@ == removed@[k - 1]@);
                    assert(removed@[k - 1]@ == before@[k]@);
                    assert(from_list(before@[k]@, orig@));
                }
            }
            // the prefix 0..i+1 is sorted by length
            assert forall|k1: int, k2: int| 0 <= k1 <= k2 < i + 1 implies v@[k1]@.len()
                <= v@[k2]@.len() by {
                if k1 < j {
                    assert(v@[k1]@ == before@[k1]@);
                }
                if k2 < j {
                    assert(v@[k2]@ == before@[k2]@);
                }
                if k1 == j {
                    assert(v@[k1]@ == x@);
                }
                if k2 == j {
                    assert(v@[k2]@ == x@);
                }
                if k1 > j {
                    assert(v@[k1]@ == before@[k1 - 1]@);
                }
                if k2 > j {
                    assert(v@[k2]@ == before@[k2 - 1]@);
                }
            }
        }
        i += 1;
    }
    proof {
        assert forall|k1: int, k2: int|
            0 <= k1 <= k2 < list_view(*v).len() implies list_view(*v)[k1].len() <= list_view(
            *v,
        )[k2].len() by {
            assert(list_view(*v)[k1] == v@[k1]@);
            assert(list_view(*v)[k2] == v@[k2]@);
        }
    }
}

} // verus!
