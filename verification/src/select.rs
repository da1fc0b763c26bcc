//! The disjoint path selector: a backtracking exact-cover search over the
//! per-pair candidate lists. It keeps an explicit cursor per pair and a
//! shared occupancy map of board cells; a state is committed by occupying a
//! candidate's cells and undone by releasing them. Success requires that
//! the chosen paths cover the whole board.

use vstd::prelude::*;
use crate::grid::{lemma_linear_index_bounds, lemma_linear_index_injective, Coordinate};
use crate::paths::{clone_coords, from_list, len_at_most, list_view, path_in_grid, path_simple,
    seq_covers, sorted_by_len};

verus! {

/// The number of set flags.
pub open spec fn count_true(s: Seq<bool>) -> int
    decreases s.len(),
{
    if s.len() == 0 {
        0
    } else {
        count_true(s.drop_last()) + if s.last() {
            1int
        } else {
            0int
        }
    }
}

pub proof fn lemma_count_true_bounds(s: Seq<bool>)
    ensures
        0 <= count_true(s) <= s.len(),
    decreases s.len(),
{
    if s.len() > 0 {
        lemma_count_true_bounds(s.drop_last());
    }
}

pub proof fn lemma_count_true_zero(s: Seq<bool>)
    requires
        forall|k: int| 0 <= k < s.len() ==> !s[k],
    ensures
        count_true(s) == 0,
    decreases s.len(),
{
    if s.len() > 0 {
        lemma_count_true_zero(s.drop_last());
    }
}

/// Flipping one flag moves the count by exactly one.
pub proof fn lemma_count_true_update(s: Seq<bool>, i: int, b: bool)
    requires
        0 <= i < s.len(),
        s[i] != b,
    ensures
        count_true(s.update(i, b)) == count_true(s) + if b {
            1int
        } else {
            -1int
        },
    decreases s.len(),
{
    let t = s.update(i, b);
    if i == s.len() - 1 {
        assert(t.drop_last() =~= s.drop_last());
    } else {
        assert(t.drop_last() =~= s.drop_last().update(i, b));
        assert(t.last() == s.last());
        lemma_count_true_update(s.drop_last(), i, b);
    }
}

/// A full count means every flag is set.
pub proof fn lemma_count_true_full(s: Seq<bool>)
    requires
        count_true(s) == s.len(),
    ensures
        forall|k: int| 0 <= k < s.len() ==> s[k],
    decreases s.len(),
{
    if s.len() > 0 {
        lemma_count_true_bounds(s.drop_last());
        lemma_count_true_full(s.drop_last());
        assert forall|k: int| 0 <= k < s.len() implies s[k] by {
            if k < s.len() - 1 {
                assert(s.drop_last()[k]);
            }
        }
    }
}

/// No coordinate lies on both paths.
pub open spec fn disjoint(p: Seq<Coordinate>, q: Seq<Coordinate>) -> bool {
    forall|co: Coordinate| !(#[trigger] p.contains(co) && q.contains(co))
}

/// The search invariant over the first `n` pairs does not depend on the
/// cursors at or beyond `n`.
pub proof fn lemma_partial_inv_cursors(a: PathChooser, b: PathChooser, n: int)
    requires
        a.partial_inv(n),
        b.paths@ == a.paths@,
        b.occupied@ == a.occupied@,
        b.filled == a.filled,
        b.rows == a.rows,
        b.cols == a.cols,
        b.chosen@.len() == a.chosen@.len(),
        forall|i: int| 0 <= i < n ==> b.chosen@[i] == a.chosen@[i],
        n <= b.npairs(),
    ensures
        b.partial_inv(n),
{
    assert(b.lists() == a.lists());
    assert forall|i: int| 0 <= i < n implies b.sel(i) == a.sel(i) by {}
    assert forall|k: int|
        0 <= k < b.occupied@.len() implies (#[trigger] b.occupied@[k]) == b.covered(n, k) by {
        assert(a.occupied@[k] == a.covered(n, k));
        if a.covered(n, k) {
            let i = choose|i: int| 0 <= i < n && seq_covers(#[trigger] a.sel(i), a.cols as int, k);
            assert(seq_covers(b.sel(i), b.cols as int, k));
            assert(b.covered(n, k));
        }
        if b.covered(n, k) {
            let i = choose|i: int| 0 <= i < n && seq_covers(#[trigger] b.sel(i), b.cols as int, k);
            assert(seq_covers(a.sel(i), a.cols as int, k));
            assert(a.covered(n, k));
        }
    }
    assert forall|i: int, j: int| 0 <= i < j < n implies disjoint(b.sel(i), b.sel(j)) by {
        assert(disjoint(a.sel(i), a.sel(j)));
    }
}

/// Filtering a shortest-first list by a length cap keeps it shortest
/// first, and every kept entry is an entry of the original.
proof fn lemma_filter_keeps_order(s: Seq<Seq<Coordinate>>, b: int)
    requires
        sorted_by_len(s),
    ensures
        sorted_by_len(s.filter(len_at_most(b))),
        forall|t: int|
            0 <= t < s.filter(len_at_most(b)).len() ==> exists|j: int|
                0 <= j < s.len() && #[trigger] s.filter(len_at_most(b))[t] == #[trigger] s[j],
    decreases s.len(),
{
    reveal(Seq::filter);
    let f = s.filter(len_at_most(b));
    if s.len() > 0 {
        let dl = s.drop_last();
        assert forall|k1: int, k2: int|
            0 <= k1 <= k2 < dl.len() implies dl[k1].len() <= dl[k2].len() by {
            assert(dl[k1] == s[k1] && dl[k2] == s[k2]);
        }
        lemma_filter_keeps_order(dl, b);
        let fd = dl.filter(len_at_most(b));
        if len_at_most(b)(s.last()) {
            assert(f == fd.push(s.last()));
            assert forall|k1: int, k2: int|
                0 <= k1 <= k2 < f.len() implies f[k1].len() <= f[k2].len() by {
                if k2 < fd.len() {
                    assert(f[k1] == fd[k1] && f[k2] == fd[k2]);
                } else {
                    assert(f[k2] == s.last());
                    if k1 < fd.len() {
                        assert(f[k1] == fd[k1]);
                        let j = choose|j: int| 0 <= j < dl.len() && fd[k1] == #[trigger] dl[j];
                        assert(f[k1] == s[j]);
                        assert(s[j].len() <= s[s.len() - 1].len());
                    }
                }
            }
            assert forall|t: int| 0 <= t < f.len() implies exists|j: int|
                0 <= j < s.len() && #[trigger] f[t] == #[trigger] s[j] by {
                if t < fd.len() {
                    assert(f[t] == fd[t]);
                    let j = choose|j: int| 0 <= j < dl.len() && fd[t] == #[trigger] dl[j];
                    assert(f[t] == s[j]);
                } else {
                    assert(f[t] == s[s.len() - 1]);
                }
            }
        } else {
            assert(f == fd);
            assert forall|t: int| 0 <= t < f.len() implies exists|j: int|
                0 <= j < s.len() && #[trigger] f[t] == #[trigger] s[j] by {
                let j = choose|j: int| 0 <= j < dl.len() && fd[t] == #[trigger] dl[j];
                assert(f[t] == s[j]);
            }
        }
    }
}

/// The total length of the family that picks candidate `w[j]` for each
/// pair `j < k`.
pub open spec fn family_len_sum(c: PathChooser, w: Seq<int>, k: int) -> int
    decreases k,
{
    if k <= 0 {
        0
    } else {
        family_len_sum(c, w, k - 1) + c.lists()[k - 1][w[k - 1]].len()
    }
}

/// The other pairs' reserved minima never exceed what the family actually
/// spends on them.
proof fn lemma_reserve_other_le_family(c: PathChooser, w: Seq<int>, i: int, k: int)
    requires
        c.wf(),
        w.len() == c.npairs(),
        0 <= i < c.npairs(),
        0 <= k <= c.npairs(),
        forall|j: int| 0 <= j < c.npairs() ==> 0 <= #[trigger] w[j] < c.lists()[j].len(),
        forall|j: int| 0 <= j < c.npairs() ==> sorted_by_len(#[trigger] c.lists()[j]),
    ensures
        c.reserve_other(i, k) + (if i < k {
            c.lists()[i][w[i]].len() as int
        } else {
            0int
        }) <= family_len_sum(c, w, k),
    decreases k,
{
    if k > 0 {
        lemma_reserve_other_le_family(c, w, i, k - 1);
        if k - 1 != i {
            assert(c.lists()[k - 1][0].len() <= c.lists()[k - 1][w[k - 1]].len());
        }
    }
}

/// Trimming never loses a member of an exact cover: if one candidate per
/// pair has lengths summing to the whole board — as the selections of any
/// disjoint exact cover do — then each member is within its pair's bound
/// and survives the trim.
pub proof fn lemma_trim_keeps_covers(c: PathChooser, w: Seq<int>, i: int)
    requires
        c.wf(),
        w.len() == c.npairs(),
        forall|j: int| 0 <= j < c.npairs() ==> 0 <= #[trigger] w[j] < c.lists()[j].len(),
        forall|j: int| 0 <= j < c.npairs() ==> sorted_by_len(#[trigger] c.lists()[j]),
        family_len_sum(c, w, c.npairs()) == c.rows * c.cols,
        0 <= i < c.npairs(),
    ensures
        c.lists()[i][w[i]].len() <= c.trim_bound(i),
        c.lists()[i].filter(len_at_most(c.trim_bound(i))).contains(c.lists()[i][w[i]]),
{
    lemma_reserve_other_le_family(c, w, i, c.npairs());
    assert(c.lists()[i][w[i]].len() <= c.trim_bound(i));
    assert(len_at_most(c.trim_bound(i))(c.lists()[i][w[i]]));
    c.lists()[i].lemma_filter_contains(len_at_most(c.trim_bound(i)), w[i]);
}

/// Filtering keeps a surviving head in place: when the first entry is
/// within the cap it stays the first entry.
proof fn lemma_filter_keeps_first(s: Seq<Seq<Coordinate>>, b: int)
    requires
        s.len() > 0,
        len_at_most(b)(s[0]),
    ensures
        s.filter(len_at_most(b)).len() > 0,
        s.filter(len_at_most(b))[0] == s[0],
    decreases s.len(),
{
    reveal(Seq::filter);
    if s.len() == 1 {
        assert(s.drop_last() =~= Seq::<Seq<Coordinate>>::empty());
        assert(s.last() == s[0]);
    } else {
        let dl = s.drop_last();
        assert(dl[0] == s[0]);
        lemma_filter_keeps_first(dl, b);
    }
}

/// A list every entry of which is within the cap passes the filter
/// unchanged.
proof fn lemma_filter_all_kept(t: Seq<Seq<Coordinate>>, b: int)
    requires
        forall|k: int| 0 <= k < t.len() ==> len_at_most(b)(#[trigger] t[k]),
    ensures
        t.filter(len_at_most(b)) == t,
    decreases t.len(),
{
    reveal(Seq::filter);
    if t.len() > 0 {
        let dl = t.drop_last();
        assert forall|k: int| 0 <= k < dl.len() implies len_at_most(b)(#[trigger] dl[k]) by {
            assert(dl[k] == t[k]);
        }
        lemma_filter_all_kept(dl, b);
        assert(len_at_most(b)(t.last()));
        assert(t.filter(len_at_most(b)) =~= t);
    } else {
        assert(t.filter(len_at_most(b)) =~= t);
    }
}

/// Trimming is idempotent: every entry of a trimmed list is already within
/// the bound, so trimming again with the same bound changes nothing.
pub proof fn lemma_trim_filter_idempotent(s: Seq<Seq<Coordinate>>, b: int)
    ensures
        s.filter(len_at_most(b)).filter(len_at_most(b)) == s.filter(len_at_most(b)),
{
    let f = s.filter(len_at_most(b));
    assert forall|k: int| 0 <= k < f.len() implies len_at_most(b)(#[trigger] f[k]) by {
        s.lemma_filter_pred(len_at_most(b), k);
    }
    lemma_filter_all_kept(f, b);
}

/// Chooses one candidate per pair so that the paths are pairwise disjoint
/// and together cover the whole board.
pub struct PathChooser {
    pub paths: Vec<Vec<Vec<Coordinate>>>,
    pub chosen: Vec<usize>,
    pub occupied: Vec<bool>,
    pub filled: usize,
    pub rows: usize,
    pub cols: usize,
}

impl PathChooser {
    pub open spec fn lists(self) -> Seq<Seq<Seq<Coordinate>>> {
        self.paths@.map_values(|l: Vec<Vec<Coordinate>>| list_view(l))
    }

    pub open spec fn npairs(self) -> int {
        self.paths@.len() as int
    }

    /// The currently selected candidate of pair `i`.
    pub open spec fn sel(self, i: int) -> Seq<Coordinate> {
        self.lists()[i][self.chosen@[i] as int]
    }

    pub open spec fn cand_wf(self, p: Seq<Coordinate>) -> bool {
        path_simple(p) && path_in_grid(p, self.rows as int, self.cols as int)
    }

    pub open spec fn wf(self) -> bool {
        &&& self.chosen@.len() == self.paths@.len()
        &&& 1 <= self.rows
        &&& 1 <= self.cols
        &&& self.rows * self.cols <= usize::MAX
        &&& self.occupied@.len() == self.rows * self.cols
        &&& forall|i: int, k: int|
            0 <= i < self.lists().len() && 0 <= k < self.lists()[i].len() ==> self.cand_wf(
                #[trigger] self.lists()[i][k],
            )
    }

    /// Cell index `k` lies on one of the first `n` selected paths.
    pub open spec fn covered(self, n: int, k: int) -> bool {
        exists|i: int| 0 <= i < n && seq_covers(#[trigger] self.sel(i), self.cols as int, k)
    }

    /// The search invariant with the first `n` pairs committed.
    pub open spec fn partial_inv(self, n: int) -> bool {
        &&& 0 <= n <= self.npairs()
        &&& forall|i: int| 0 <= i < n ==> (#[trigger] self.chosen@[i]) < self.lists()[i].len()
        &&& forall|i: int, j: int| 0 <= i < j < n ==> disjoint(self.sel(i), self.sel(j))
        &&& forall|k: int|
            0 <= k < self.occupied@.len() ==> (#[trigger] self.occupied@[k]) == self.covered(n, k)
        &&& self.filled == count_true(self.occupied@)
    }

    /// None of the candidate's cells is occupied.
    pub open spec fn path_clear(self, p: Seq<Coordinate>) -> bool {
        forall|j: int|
            0 <= j < p.len() ==> !self.occupied@[(#[trigger] p[j]).row * self.cols + p[j].col]
    }

    /// A fresh selector over the candidate lists of an `rows` x `cols`
    /// board: every cursor at the first candidate, no cell occupied.
    pub fn new(paths: Vec<Vec<Vec<Coordinate>>>, rows: usize, cols: usize) -> (r: PathChooser)
        requires
            1 <= rows,
            1 <= cols,
            rows * cols <= usize::MAX,
            forall|i: int, k: int|
                0 <= i < paths@.len() && 0 <= k < list_view(paths@[i]).len() ==> path_simple(
                    #[trigger] list_view(paths@[i])[k],
                ) && path_in_grid(list_view(paths@[i])[k], rows as int, cols as int),
        ensures
            r.wf(),
            r.partial_inv(0),
            r.rows == rows,
            r.cols == cols,
            r.paths@ == paths@,
            r.npairs() == paths@.len(),
            forall|i: int| 0 <= i < r.npairs() ==> r.chosen@[i] == 0,
    {
        let n = paths.len();
        let mut chosen: Vec<usize> = Vec::new();
        let mut i: usize = 0;
        while i < n
            invariant
                i <= n,
                chosen@.len() == i,
                forall|k: int| 0 <= k < i ==> chosen@[k] == 0,
            decreases n - i,
        {
            chosen.push(0);
            i += 1;
        }
        let occupied = crate::paths::falses(rows * cols);
        proof {
            lemma_count_true_zero(occupied@);
        }
        let r = PathChooser { paths, chosen, occupied, filled: 0, rows, cols };
        proof {
            assert forall|k: int|
                0 <= k < r.occupied@.len() implies (#[trigger] r.occupied@[k]) == r.covered(
                0,
                k,
            ) by {
                assert(!r.occupied@[k]);
            }
        }
        r
    }

    /// Does the current candidate of pair `n` collide with an occupied cell?
    fn conflicts(&self, n: usize) -> (c: bool)
        requires
            self.wf(),
            n < self.npairs(),
            self.chosen@[n as int] < self.lists()[n as int].len(),
        ensures
            c == !self.path_clear(self.sel(n as int)),
    {
        let ci = self.chosen[n];
        proof {
            assert(self.lists()[n as int] == list_view(self.paths@[n as int]));
            assert(self.sel(n as int) == self.paths@[n as int]@[ci as int]@);
        }
        let m = self.paths[n][ci].len();
        let mut j: usize = 0;
        while j < m
            invariant
                self.wf(),
                n < self.npairs(),
                ci == self.chosen@[n as int],
                ci < self.lists()[n as int].len(),
                self.sel(n as int) == self.paths@[n as int]@[ci as int]@,
                m == self.sel(n as int).len(),
                j <= m,
                forall|t: int|
                    0 <= t < j ==> !self.occupied@[(#[trigger] self.sel(n as int)[t]).row
                        * self.cols + self.sel(n as int)[t].col],
            decreases m - j,
        {
            let co = self.paths[n][ci][j];
            proof {
                assert(co == self.sel(n as int)[j as int]);
                assert(self.cand_wf(self.sel(n as int)));
                lemma_linear_index_bounds(
                    co.row as int,
                    co.col as int,
                    self.rows as int,
                    self.cols as int,
                );
            }
            let k = co.row * self.cols + co.col;
            if self.occupied[k] {
                return true;
            }
            j += 1;
        }
        false
    }

    /// Mark every cell of pair `n`'s current candidate as occupied.
    fn occupy(&mut self, n: usize)
        requires
            old(self).wf(),
            old(self).partial_inv(n as int),
            n < old(self).npairs(),
            old(self).chosen@[n as int] < old(self).lists()[n as int].len(),
            old(self).path_clear(old(self).sel(n as int)),
        ensures
            final(self).wf(),
            final(self).partial_inv(n + 1),
            final(self).paths@ == old(self).paths@,
            final(self).chosen@ == old(self).chosen@,
            final(self).rows == old(self).rows,
            final(self).cols == old(self).cols,
            forall|k: int|
                0 <= k < final(self).occupied@.len() ==> (#[trigger] final(self).occupied@[k]) == (
                old(self).occupied@[k] || seq_covers(
                    old(self).sel(n as int),
                    old(self).cols as int,
                    k,
                )),
            final(self).filled == old(self).filled + old(self).sel(n as int).len(),
    {
        let ci = self.chosen[n];
        let ghost o0 = self.occupied@;
        let ghost p = self.sel(n as int);
        let ghost f0 = self.filled as int;
        proof {
            assert(p == self.paths@[n as int]@[ci as int]@);
            assert(self.cand_wf(p));
        }
        let m = self.paths[n][ci].len();
        let mut j: usize = 0;
        while j < m
            invariant
                self.wf(),
                n < self.npairs(),
                ci == self.chosen@[n as int],
                ci < self.lists()[n as int].len(),
                p == self.sel(n as int),
                p == self.paths@[n as int]@[ci as int]@,
                m == p.len(),
                j <= m,
                path_simple(p),
                path_in_grid(p, self.rows as int, self.cols as int),
                self.paths@ == old(self).paths@,
                self.chosen@ == old(self).chosen@,
                self.rows == old(self).rows,
                self.cols == old(self).cols,
                o0 == old(self).occupied@,
                self.occupied@.len() == o0.len(),
                forall|t: int|
                    0 <= t < p.len() ==> !o0[(#[trigger] p[t]).row * self.cols + p[t].col],
                forall|k: int|
                    0 <= k < self.occupied@.len() ==> (#[trigger] self.occupied@[k]) == (o0[k]
                        || seq_covers(p.subrange(0, j as int), self.cols as int, k)),
                self.filled == f0 + j,
                self.filled == count_true(self.occupied@),
            decreases m - j,
        {
            let co = self.paths[n][ci][j];
            proof {
                assert(co == p[j as int]);
                lemma_linear_index_bounds(
                    co.row as int,
                    co.col as int,
                    self.rows as int,
                    self.cols as int,
                );
                let ki = co.row * (self.cols as int) + co.col;
                if seq_covers(p.subrange(0, j as int), self.cols as int, ki) {
                    let w = choose|w: int|
                        0 <= w < p.subrange(0, j as int).len() && (#[trigger] p.subrange(
                            0,
                            j as int,
                        )[w]).row * (self.cols as int) + p.subrange(0, j as int)[w].col == ki;
                    assert(p.subrange(0, j as int)[w] == p[w]);
                    lemma_linear_index_injective(p[w], co, self.cols as int);
                    assert(false);
                }
                assert(!self.occupied@[ki]);
                lemma_count_true_update(self.occupied@, ki, true);
                lemma_count_true_bounds(self.occupied@.update(ki, true));
            }
            let k = co.row * self.cols + co.col;
            self.occupied[k] = true;
            self.filled = self.filled + 1;
            proof {
                assert forall|kk: int|
                    0 <= kk < self.occupied@.len() implies (#[trigger] self.occupied@[kk]) == (
                o0[kk] || seq_covers(p.subrange(0, j + 1), self.cols as int, kk)) by {
                    let ki = co.row * (self.cols as int) + co.col;
                    if kk == ki {
                        assert(p.subrange(0, j + 1)[j as int] == p[j as int]);
                        assert(seq_covers(p.subrange(0, j + 1), self.cols as int, kk));
                    } else {
                        if seq_covers(p.subrange(0, j + 1), self.cols as int, kk) {
                            let w = choose|w: int|
                                0 <= w < p.subrange(0, j + 1).len() && (#[trigger] p.subrange(
                                    0,
                                    j + 1,
                                )[w]).row * (self.cols as int) + p.subrange(0, j + 1)[w].col == kk;
                            assert(p.subrange(0, j + 1)[w] == p[w]);
                            if w == j {
                                assert(false);
                            } else {
                                assert(p.subrange(0, j as int)[w] == p[w]);
                                assert(seq_covers(p.subrange(0, j as int), self.cols as int, kk));
                            }
                        }
                        if seq_covers(p.subrange(0, j as int), self.cols as int, kk) {
                            let w = choose|w: int|
                                0 <= w < p.subrange(0, j as int).len() && (#[trigger] p.subrange(
                                    0,
                                    j as int,
                                )[w]).row * (self.cols as int) + p.subrange(0, j as int)[w].col
                                    == kk;
                            assert(p.subrange(0, j + 1)[w] == p[w]);
                            assert(seq_covers(p.subrange(0, j + 1), self.cols as int, kk));
                        }
                    }
                }
            }
            j += 1;
        }
        proof {
            assert(p.subrange(0, m as int) =~= p);
            assert(self.lists() == old(self).lists());
            assert forall|i: int| 0 <= i < self.npairs() implies self.sel(i) == old(self).sel(
                i,
            ) by {}
            // the occupancy map now reflects the first n + 1 selections
            assert forall|k: int|
                0 <= k < self.occupied@.len() implies (#[trigger] self.occupied@[k])
                == self.covered(n + 1, k) by {
                if self.occupied@[k] {
                    if o0[k] {
                        assert(old(self).covered(n as int, k));
                        let i = choose|i: int|
                            0 <= i < n && seq_covers(
                                #[trigger] old(self).sel(i),
                                old(self).cols as int,
                                k,
                            );
                        assert(seq_covers(self.sel(i), self.cols as int, k));
                        assert(self.covered(n + 1, k));
                    } else {
                        assert(seq_covers(self.sel(n as int), self.cols as int, k));
                        assert(self.covered(n + 1, k));
                    }
                } else {
                    if self.covered(n + 1, k) {
                        let i = choose|i: int|
                            0 <= i < n + 1 && seq_covers(#[trigger] self.sel(i), self.cols as int, k);
                        if i < n {
                            assert(seq_covers(old(self).sel(i), old(self).cols as int, k));
                            assert(old(self).covered(n as int, k));
                            assert(false);
                        } else {
                            assert(false);
                        }
                    }
                }
            }
            // the new selection is disjoint from every earlier one
            assert forall|i: int, jj: int| 0 <= i < jj < n + 1 implies disjoint(
                self.sel(i),
                self.sel(jj),
            ) by {
                if jj < n {
                    assert(disjoint(old(self).sel(i), old(self).sel(jj)));
                } else {
                    assert forall|co: Coordinate| !(#[trigger] self.sel(i).contains(co) && self.sel(
                        jj,
                    ).contains(co)) by {
                        if self.sel(i).contains(co) && self.sel(jj).contains(co) {
                            let t1 = choose|t1: int|
                                0 <= t1 < self.sel(i).len() && self.sel(i)[t1] == co;
                            let t2 = choose|t2: int| 0 <= t2 < p.len() && p[t2] == co;
                            assert(self.cand_wf(self.sel(i)));
                            lemma_linear_index_bounds(
                                co.row as int,
                                co.col as int,
                                self.rows as int,
                                self.cols as int,
                            );
                            let ki = co.row * (self.cols as int) + co.col;
                            assert(seq_covers(self.sel(i), self.cols as int, ki));
                            assert(seq_covers(old(self).sel(i), old(self).cols as int, ki));
                            assert(old(self).covered(n as int, ki));
                            assert(o0[ki]);
                            assert(!o0[(p[t2]).row * self.cols + p[t2].col]);
                            assert(false);
                        }
                    }
                }
            }
        }
    }

    /// Clear every cell of pair `n`'s current candidate.
    fn release(&mut self, n: usize)
        requires
            old(self).wf(),
            old(self).partial_inv(n + 1),
            n < old(self).npairs(),
        ensures
            final(self).wf(),
            final(self).partial_inv(n as int),
            final(self).paths@ == old(self).paths@,
            final(self).chosen@ == old(self).chosen@,
            final(self).rows == old(self).rows,
            final(self).cols == old(self).cols,
            forall|k: int|
                0 <= k < final(self).occupied@.len() ==> (#[trigger] final(self).occupied@[k]) == (
                old(self).occupied@[k] && !seq_covers(
                    old(self).sel(n as int),
                    old(self).cols as int,
                    k,
                )),
            final(self).filled == old(self).filled - old(self).sel(n as int).len(),
    {
        let ci = self.chosen[n];
        let ghost o0 = self.occupied@;
        let ghost p = self.sel(n as int);
        let ghost f0 = self.filled as int;
        proof {
            assert(p == self.paths@[n as int]@[ci as int]@);
            assert(self.cand_wf(p));
        }
        let m = self.paths[n][ci].len();
        let mut j: usize = 0;
        while j < m
            invariant
                self.wf(),
                n < self.npairs(),
                ci == self.chosen@[n as int],
                ci < self.lists()[n as int].len(),
                p == self.sel(n as int),
                p == self.paths@[n as int]@[ci as int]@,
                m == p.len(),
                j <= m,
                path_simple(p),
                path_in_grid(p, self.rows as int, self.cols as int),
                self.paths@ == old(self).paths@,
                self.chosen@ == old(self).chosen@,
                self.rows == old(self).rows,
                self.cols == old(self).cols,
                o0 == old(self).occupied@,
                old(self).partial_inv(n + 1),
                self.occupied@.len() == o0.len(),
                forall|k: int|
                    0 <= k < self.occupied@.len() ==> (#[trigger] self.occupied@[k]) == (o0[k]
                        && !seq_covers(p.subrange(0, j as int), self.cols as int, k)),
                self.filled == f0 - j,
                self.filled == count_true(self.occupied@),
            decreases m - j,
        {
            let co = self.paths[n][ci][j];
            proof {
                assert(co == p[j as int]);
                lemma_linear_index_bounds(
                    co.row as int,
                    co.col as int,
                    self.rows as int,
                    self.cols as int,
                );
                let ki = co.row * (self.cols as int) + co.col;
                // the cell is still occupied: it was covered by this very
                // selection and is not among the already cleared prefix
                assert(seq_covers(p, self.cols as int, ki));
                assert(self.lists() == old(self).lists());
                assert(old(self).sel(n as int) == p);
                assert(seq_covers(old(self).sel(n as int), old(self).cols as int, ki));
                assert(old(self).covered(n + 1, ki));
                assert(old(self).occupied@[ki]);
                assert(o0[ki]);
                if seq_covers(p.subrange(0, j as int), self.cols as int, ki) {
                    let w = choose|w: int|
                        0 <= w < p.subrange(0, j as int).len() && (#[trigger] p.subrange(
                            0,
                            j as int,
                        )[w]).row * (self.cols as int) + p.subrange(0, j as int)[w].col == ki;
                    assert(p.subrange(0, j as int)[w] == p[w]);
                    lemma_linear_index_injective(p[w], co, self.cols as int);
                    assert(false);
                }
                assert(self.occupied@[ki]);
                lemma_count_true_update(self.occupied@, ki, false);
                lemma_count_true_bounds(self.occupied@.update(ki, false));
            }
            let k = co.row * self.cols + co.col;
            self.occupied[k] = false;
            self.filled = self.filled - 1;
            proof {
                assert forall|kk: int|
                    0 <= kk < self.occupied@.len() implies (#[trigger] self.occupied@[kk]) == (
                o0[kk] && !seq_covers(p.subrange(0, j + 1), self.cols as int, kk)) by {
                    let ki = co.row * (self.cols as int) + co.col;
                    if kk == ki {
                        assert(p.subrange(0, j + 1)[j as int] == p[j as int]);
                        assert(seq_covers(p.subrange(0, j + 1), self.cols as int, kk));
                    } else {
                        if seq_covers(p.subrange(0, j + 1), self.cols as int, kk) {
                            let w = choose|w: int|
                                0 <= w < p.subrange(0, j + 1).len() && (#[trigger] p.subrange(
                                    0,
                                    j + 1,
                                )[w]).row * (self.cols as int) + p.subrange(0, j + 1)[w].col == kk;
                            assert(p.subrange(0, j + 1)[w] == p[w]);
                            if w == j {
                                assert(false);
                            } else {
                                assert(p.subrange(0, j as int)[w] == p[w]);
                                assert(seq_covers(p.subrange(0, j as int), self.cols as int, kk));
                            }
                        }
                        if seq_covers(p.subrange(0, j as int), self.cols as int, kk) {
                            let w = choose|w: int|
                                0 <= w < p.subrange(0, j as int).len() && (#[trigger] p.subrange(
                                    0,
                                    j as int,
                                )[w]).row * (self.cols as int) + p.subrange(0, j as int)[w].col
                                    == kk;
                            assert(p.subrange(0, j + 1)[w] == p[w]);
                            assert(seq_covers(p.subrange(0, j + 1), self.cols as int, kk));
                        }
                    }
                }
            }
            j += 1;
        }
        proof {
            assert(p.subrange(0, m as int) =~= p);
            assert(self.lists() == old(self).lists());
            assert forall|i: int| 0 <= i < self.npairs() implies self.sel(i) == old(self).sel(
                i,
            ) by {}
            assert forall|k: int|
                0 <= k < self.occupied@.len() implies (#[trigger] self.occupied@[k])
                == self.covered(n as int, k) by {
                if self.occupied@[k] {
                    assert(o0[k] && !seq_covers(p, self.cols as int, k));
                    assert(old(self).covered(n + 1, k));
                    let i = choose|i: int|
                        0 <= i < n + 1 && seq_covers(
                            #[trigger] old(self).sel(i),
                            old(self).cols as int,
                            k,
                        );
                    if i == n {
                        assert(false);
                    } else {
                        assert(seq_covers(self.sel(i), self.cols as int, k));
                        assert(self.covered(n as int, k));
                    }
                } else {
                    if self.covered(n as int, k) {
                        let i = choose|i: int|
                            0 <= i < n && seq_covers(#[trigger] self.sel(i), self.cols as int, k);
                        assert(seq_covers(old(self).sel(i), old(self).cols as int, k));
                        assert(old(self).covered(n + 1, k));
                        assert(o0[k]);
                        // the cleared cells all lie on selection n, which is
                        // disjoint from selection i
                        if seq_covers(p, self.cols as int, k) {
                            let w1 = choose|w1: int|
                                0 <= w1 < self.sel(i).len() && (#[trigger] self.sel(i)[w1]).row * (
                                self.cols as int) + self.sel(i)[w1].col == k;
                            let w2 = choose|w2: int|
                                0 <= w2 < p.len() && (#[trigger] p[w2]).row * (self.cols as int)
                                    + p[w2].col == k;
                            assert(self.cand_wf(self.sel(i)));
                            lemma_linear_index_injective(self.sel(i)[w1], p[w2], self.cols as int);
                            assert(self.sel(i).contains(p[w2]));
                            assert(self.sel(n as int).contains(p[w2]));
                            assert(disjoint(old(self).sel(i), old(self).sel(n as int)));
                            assert(false);
                        }
                        assert(false);
                    }
                }
            }
        }
    }

    /// The shortest candidate length of pair `i`.
    pub open spec fn min_len(self, i: int) -> int {
        self.lists()[i][0].len() as int
    }

    /// The cells the pairs before `k`, other than pair `i`, need at least.
    pub open spec fn reserve_other(self, i: int, k: int) -> int
        decreases k,
    {
        if k <= 0 {
            0
        } else {
            self.reserve_other(i, k - 1) + if k - 1 == i {
                0int
            } else {
                self.min_len(k - 1)
            }
        }
    }

    /// The longest a candidate of pair `i` may be: the whole board minus
    /// the shortest candidate of every other pair, clamped at zero.
    pub open spec fn trim_bound(self, i: int) -> int {
        let other = self.reserve_other(i, self.npairs());
        if other >= self.rows * self.cols {
            0
        } else {
            self.rows * self.cols - other
        }
    }

    pub proof fn lemma_reserve_other_mono(self, i: int, k1: int, k2: int)
        requires
            0 <= k1 <= k2,
        ensures
            self.reserve_other(i, k1) <= self.reserve_other(i, k2),
        decreases k2,
    {
        if k2 > k1 {
            self.lemma_reserve_other_mono(i, k1, k2 - 1);
        }
    }

    /// The number of cursor vectors over positions `i` and beyond, each
    /// cursor ranging over its list's candidates plus the exhausted state.
    pub open spec fn radix_weight(self, i: int) -> int
        decreases self.npairs() - i,
    {
        if i < 0 || i >= self.npairs() {
            1
        } else {
            (self.lists()[i].len() + 1) * self.radix_weight(i + 1)
        }
    }

    /// The mixed-radix value of the cursor vector `ch` from position `i`
    /// on: how many cursor vectors precede it lexicographically.
    pub open spec fn radix_value_of(self, ch: Seq<usize>, i: int) -> int
        decreases self.npairs() - i,
    {
        if i < 0 || i >= self.npairs() {
            0
        } else {
            ch[i] * self.radix_weight(i + 1) + self.radix_value_of(ch, i + 1)
        }
    }

    pub proof fn lemma_radix_weight_pos(self, i: int)
        ensures
            self.radix_weight(i) >= 1,
        decreases self.npairs() - i,
    {
        if 0 <= i < self.npairs() {
            self.lemma_radix_weight_pos(i + 1);
            assert((self.lists()[i].len() + 1) * self.radix_weight(i + 1) >= 1)
                by (nonlinear_arith)
                requires
                    self.radix_weight(i + 1) >= 1,
                    self.lists()[i].len() >= 0,
            ;
        }
    }

    /// Weights depend on the candidate lists alone.
    pub proof fn lemma_radix_congruent(a: PathChooser, b: PathChooser, ch: Seq<usize>, i: int)
        requires
            a.paths@ == b.paths@,
        ensures
            a.radix_weight(i) == b.radix_weight(i),
            a.radix_value_of(ch, i) == b.radix_value_of(ch, i),
        decreases a.npairs() - i,
    {
        assert(a.lists() == b.lists());
        if 0 <= i < a.npairs() {
            Self::lemma_radix_congruent(a, b, ch, i + 1);
        }
    }

    /// A cursor vector within the capacities has a value below the weight.
    pub proof fn lemma_radix_value_bounds(self, ch: Seq<usize>, i: int)
        requires
            ch.len() == self.npairs(),
            forall|j: int| 0 <= j < self.npairs() ==> #[trigger] ch[j] <= self.lists()[j].len(),
        ensures
            0 <= self.radix_value_of(ch, i),
            self.radix_value_of(ch, i) < self.radix_weight(i),
        decreases self.npairs() - i,
    {
        if 0 <= i < self.npairs() {
            self.lemma_radix_value_bounds(ch, i + 1);
            self.lemma_radix_weight_pos(i + 1);
            assert(0 <= ch[i] * self.radix_weight(i + 1) && ch[i] * self.radix_weight(i + 1)
                + self.radix_value_of(ch, i + 1) < (self.lists()[i].len() + 1) * self.radix_weight(
                i + 1,
            )) by (nonlinear_arith)
                requires
                    0 <= ch[i] <= self.lists()[i].len(),
                    0 <= self.radix_value_of(ch, i + 1) < self.radix_weight(i + 1),
                    self.radix_weight(i + 1) >= 1,
            ;
        }
    }

    /// Changing one cursor moves the value by that digit's weighted
    /// difference.
    pub proof fn lemma_radix_value_update(self, ch1: Seq<usize>, ch2: Seq<usize>, t: int, i: int)
        requires
            ch1.len() == self.npairs(),
            ch2.len() == self.npairs(),
            0 <= t < self.npairs(),
            0 <= i,
            forall|j: int| 0 <= j < self.npairs() && j != t ==> #[trigger] ch2[j] == ch1[j],
        ensures
            self.radix_value_of(ch2, i) - self.radix_value_of(ch1, i) == if i <= t {
                (ch2[t] - ch1[t]) * self.radix_weight(t + 1)
            } else {
                0
            },
        decreases self.npairs() - i,
    {
        if i < self.npairs() {
            self.lemma_radix_value_update(ch1, ch2, t, i + 1);
            if i != t {
                assert(ch2[i] == ch1[i]);
            } else {
                assert(ch2[t] * self.radix_weight(t + 1) - ch1[t] * self.radix_weight(t + 1) == (
                ch2[t] - ch1[t]) * self.radix_weight(t + 1)) by (nonlinear_arith);
            }
        }
    }

    /// The total of every pair's shortest candidate length over the first
    /// `k` pairs.
    pub open spec fn min_sum(self, k: int) -> int
        decreases k,
    {
        if k <= 0 {
            0
        } else {
            self.min_sum(k - 1) + self.min_len(k - 1)
        }
    }

    /// The other pairs' reserve is the total of all minima less pair `i`'s
    /// own.
    pub proof fn lemma_reserve_other_as_min_sum(self, i: int, k: int)
        requires
            0 <= i < self.npairs(),
        ensures
            self.reserve_other(i, k) == self.min_sum(k) - if i < k {
                self.min_len(i)
            } else {
                0int
            },
        decreases k,
    {
        if k > 0 {
            self.lemma_reserve_other_as_min_sum(i, k - 1);
        }
    }

    /// Reserves depend only on the pairs' shortest candidate lengths.
    pub proof fn lemma_reserve_other_congruent(a: PathChooser, b: PathChooser, i: int, k: int)
        requires
            a.npairs() == b.npairs(),
            0 <= k <= a.npairs(),
            forall|j: int| 0 <= j < a.npairs() ==> #[trigger] b.min_len(j) == a.min_len(j),
        ensures
            b.reserve_other(i, k) == a.reserve_other(i, k),
        decreases k,
    {
        if k > 0 {
            Self::lemma_reserve_other_congruent(a, b, i, k - 1);
        }
    }

    /// Trimming is idempotent at the selector level: when the minima sum to
    /// at most the board — as they do whenever any cover can exist — every
    /// shortest candidate survives the first trim, so the second trim sees
    /// the same minima, computes the same bounds, and removes nothing.
    pub proof fn lemma_trim_idempotent(a: PathChooser, b: PathChooser, i: int)
        requires
            a.wf(),
            a.npairs() == b.npairs(),
            b.rows == a.rows,
            b.cols == a.cols,
            forall|j: int| 0 <= j < a.npairs() ==> (#[trigger] a.lists()[j]).len() > 0,
            forall|j: int|
                0 <= j < a.npairs() ==> #[trigger] b.lists()[j] == a.lists()[j].filter(
                    len_at_most(a.trim_bound(j)),
                ),
            a.min_sum(a.npairs()) <= a.rows * a.cols,
            0 <= i < a.npairs(),
        ensures
            b.lists()[i].filter(len_at_most(b.trim_bound(i))) == b.lists()[i],
    {
        assert forall|j: int| 0 <= j < a.npairs() implies #[trigger] b.min_len(j) == a.min_len(
            j,
        ) && b.lists()[j].len() > 0 by {
            a.lemma_reserve_other_as_min_sum(j, a.npairs());
            assert(a.min_len(j) <= a.min_sum(a.npairs())) by {
                a.lemma_reserve_other_as_min_sum(j, a.npairs());
                assert(a.reserve_other(j, a.npairs()) >= 0) by {
                    a.lemma_reserve_other_mono(j, 0, a.npairs());
                }
            }
            assert(a.min_len(j) <= a.trim_bound(j));
            assert(len_at_most(a.trim_bound(j))(a.lists()[j][0]));
            lemma_filter_keeps_first(a.lists()[j], a.trim_bound(j));
        }
        Self::lemma_reserve_other_congruent(a, b, i, a.npairs());
        assert(b.trim_bound(i) == a.trim_bound(i));
        lemma_trim_filter_idempotent(a.lists()[i], a.trim_bound(i));
    }

    /// Undo position `n`'s current selection: release its cells, advance
    /// its cursor past the failed candidate, and restart the following
    /// position's cursor at its first candidate.
    fn backtrack(&mut self, n: usize)
        requires
            old(self).wf(),
            old(self).partial_inv(n + 1),
            n < old(self).npairs(),
        ensures
            final(self).wf(),
            final(self).partial_inv(n as int),
            final(self).paths@ == old(self).paths@,
            final(self).rows == old(self).rows,
            final(self).cols == old(self).cols,
            final(self).chosen@.len() == old(self).chosen@.len(),
            final(self).chosen@[n as int] == old(self).chosen@[n as int] + 1,
            n + 1 < old(self).chosen@.len() ==> final(self).chosen@[n + 1] == 0,
            forall|i: int|
                0 <= i < old(self).chosen@.len() && i != n && i != n + 1
                    ==> final(self).chosen@[i] == old(self).chosen@[i],
            forall|k: int|
                0 <= k < final(self).occupied@.len() ==> (#[trigger] final(self).occupied@[k]) == (
                old(self).occupied@[k] && !seq_covers(
                    old(self).sel(n as int),
                    old(self).cols as int,
                    k,
                )),
            final(self).filled == old(self).filled - old(self).sel(n as int).len(),
    {
        let len = self.chosen.len();
        proof {
            assert(n < len);
        }
        if n + 1 < len {
            let ghost s0 = *self;
            self.chosen[n + 1] = 0;
            proof {
                lemma_partial_inv_cursors(s0, *self, n + 1);
                assert(self.lists() == s0.lists());
                assert forall|i: int, k: int|
                    0 <= i < self.lists().len() && 0 <= k < self.lists()[i].len() implies self.cand_wf(
                    #[trigger] self.lists()[i][k],
                ) by {
                    assert(s0.cand_wf(s0.lists()[i][k]));
                }
                assert(self.wf());
            }
        }
        self.release(n);
        let ghost s1 = *self;
        let list_len = self.paths[n].len();
        proof {
            assert(self.lists()[n as int].len() == self.paths@[n as int]@.len());
            assert(self.chosen@[n as int] < self.lists()[n as int].len());
        }
        let t = self.chosen[n];
        proof {
            assert(t < list_len);
        }
        self.chosen[n] = t + 1;
        proof {
            lemma_partial_inv_cursors(s1, *self, n as int);
        }
    }

    /// Drop every candidate longer than the board can ever afford: for pair
    /// `i` that is the number of cells minus the shortest candidate length
    /// of every other pair. Each kept candidate comes from the pair's
    /// original list; each list is then re-ordered shortest first.
    pub fn trim(&mut self)
        requires
            old(self).wf(),
            old(self).partial_inv(0),
            forall|i: int| 0 <= i < old(self).npairs() ==> (#[trigger] old(self).lists()[i]).len() > 0,
            forall|i: int| 0 <= i < old(self).npairs() ==> sorted_by_len(#[trigger] old(self).lists()[i]),
        ensures
            final(self).wf(),
            final(self).partial_inv(0),
            final(self).npairs() == old(self).npairs(),
            final(self).chosen@ == old(self).chosen@,
            final(self).occupied@ == old(self).occupied@,
            final(self).filled == old(self).filled,
            final(self).rows == old(self).rows,
            final(self).cols == old(self).cols,
            forall|i: int|
                0 <= i < final(self).npairs() ==> sorted_by_len(#[trigger] final(self).lists()[i]),
            forall|i: int, k: int|
                0 <= i < final(self).npairs() && 0 <= k < final(self).lists()[i].len()
                    ==> from_list(#[trigger] final(self).lists()[i][k], old(self).paths@[i]@),
            forall|i: int, k: int|
                0 <= i < final(self).npairs() && 0 <= k < final(self).lists()[i].len() ==> (
                #[trigger] final(self).lists()[i][k]).len() <= old(self).trim_bound(i),
            forall|i: int|
                0 <= i < final(self).npairs() ==> #[trigger] final(self).lists()[i] == old(
                    self,
                ).lists()[i].filter(len_at_most(old(self).trim_bound(i))),
    {
        let ns = self.occupied.len();
        let count = self.paths.len();
        let mut mins: Vec<usize> = Vec::new();
        let mut i: usize = 0;
        while i < count
            invariant
                self.wf(),
                count == self.npairs(),
                *self == *old(self),
                forall|t: int| 0 <= t < count ==> (#[trigger] self.lists()[t]).len() > 0,
                i <= count,
                mins@.len() == i,
                forall|k: int| 0 <= k < i ==> mins@[k] == old(self).min_len(k),
            decreases count - i,
        {
            proof {
                assert(self.lists()[i as int].len() == self.paths@[i as int]@.len());
                assert(self.lists()[i as int][0] == self.paths@[i as int]@[0]@);
            }
            mins.push(self.paths[i][0].len());
            i += 1;
        }
        let mut i: usize = 0;
        while i < count
            invariant
                self.wf(),
                old(self).wf(),
                count == self.npairs(),
                ns == self.rows * self.cols,
                mins@.len() == count,
                self.paths@.len() == old(self).paths@.len(),
                self.chosen@ == old(self).chosen@,
                self.occupied@ == old(self).occupied@,
                self.filled == old(self).filled,
                self.rows == old(self).rows,
                self.cols == old(self).cols,
                i <= count,
                forall|k: int| 0 <= k < count ==> mins@[k] == old(self).min_len(k),
                old(self).npairs() == count,
                old(self).rows == self.rows,
                old(self).cols == self.cols,
                forall|t: int| i <= t < count ==> self.paths@[t] == old(self).paths@[t],
                forall|t: int|
                    0 <= t < count ==> sorted_by_len(#[trigger] old(self).lists()[t]),
                forall|t: int|
                    0 <= t < i ==> #[trigger] self.lists()[t] == old(self).lists()[t].filter(
                        len_at_most(old(self).trim_bound(t)),
                    ),
                forall|t: int|
                    0 <= t < i ==> sorted_by_len(#[trigger] self.lists()[t]),
                forall|t: int, k: int|
                    0 <= t < i && 0 <= k < self.lists()[t].len() ==> (
                    #[trigger] self.lists()[t][k]).len() <= old(self).trim_bound(t),
                forall|t: int, k: int|
                    0 <= t < i && 0 <= k < self.lists()[t].len() ==> from_list(
                        #[trigger] self.lists()[t][k],
                        old(self).paths@[t]@,
                    ),
            decreases count - i,
        {
            let mut other: usize = 0;
            let mut over = false;
            let mut j: usize = 0;
            while j < count
                invariant
                    count == mins@.len(),
                    i < count,
                    j <= count,
                    ns == old(self).rows * old(self).cols,
                    old(self).npairs() == count,
                    forall|k: int| 0 <= k < count ==> mins@[k] == old(self).min_len(k),
                    other <= ns,
                    !over ==> other == old(self).reserve_other(i as int, j as int),
                    over ==> old(self).reserve_other(i as int, count as int) > ns,
                decreases count - j,
            {
                if j != i && !over {
                    let mj = mins[j];
                    if mj > ns - other {
                        proof {
                            old(self).lemma_reserve_other_mono(i as int, j + 1, count as int);
                        }
                        over = true;
                    } else {
                        other = other + mj;
                    }
                }
                j += 1;
            }
            let bound: usize = if over {
                0
            } else {
                ns - other
            };
            proof {
                assert(bound == old(self).trim_bound(i as int));
            }
            let ghost source = self.paths@[i as int];
            let ghost sv = list_view(source);
            let ghost cap = len_at_most(bound as int);
            let m = self.paths[i].len();
            let mut kept: Vec<Vec<Coordinate>> = Vec::new();
            let mut k: usize = 0;
            proof {
                reveal(Seq::filter);
                assert(sv.subrange(0, 0).filter(cap) =~= Seq::<Seq<Coordinate>>::empty());
                assert(list_view(kept) =~= Seq::<Seq<Coordinate>>::empty());
            }
            while k < m
                invariant
                    self.wf(),
                    i < count,
                    count == self.npairs(),
                    source == self.paths@[i as int],
                    sv == list_view(source),
                    cap == len_at_most(bound as int),
                    m == source@.len(),
                    k <= m,
                    list_view(kept) == sv.subrange(0, k as int).filter(cap),
                decreases m - k,
            {
                let plen = self.paths[i][k].len();
                let ghost svk = sv[k as int];
                proof {
                    reveal(Seq::filter);
                    assert(svk == source@[k as int]@);
                    assert(sv.subrange(0, k + 1).drop_last() =~= sv.subrange(0, k as int));
                    assert(sv.subrange(0, k + 1).last() == svk);
                }
                if plen <= bound {
                    let copy = clone_coords(&self.paths[i][k]);
                    let ghost kept0 = list_view(kept);
                    kept.push(copy);
                    proof {
                        reveal(Seq::filter);
                        assert(list_view(kept) =~= kept0.push(svk));
                        assert(cap(svk));
                        assert(sv.subrange(0, k + 1).filter(cap) =~= sv.subrange(
                            0,
                            k as int,
                        ).filter(cap).push(svk));
                    }
                } else {
                    proof {
                        reveal(Seq::filter);
                        assert(!cap(svk));
                        assert(sv.subrange(0, k + 1).filter(cap) =~= sv.subrange(
                            0,
                            k as int,
                        ).filter(cap));
                    }
                }
                k += 1;
            }
            proof {
                assert(sv.subrange(0, m as int) =~= sv);
                assert(list_view(kept) == sv.filter(cap));
                assert(source == old(self).paths@[i as int]);
                assert(sv == old(self).lists()[i as int]);
                assert(sorted_by_len(sv));
                lemma_filter_keeps_order(sv, bound as int);
                assert forall|kk: int| 0 <= kk < kept@.len() implies from_list(
                    #[trigger] kept@[kk]@,
                    source@,
                ) && kept@[kk]@.len() <= bound by {
                    assert(kept@[kk]@ == list_view(kept)[kk]);
                    let j = choose|j: int| 0 <= j < sv.len() && list_view(kept)[kk] == #[trigger] sv[j];
                    assert(sv[j] == source@[j]@);
                    sv.lemma_filter_pred(cap, kk);
                }
                assert(sorted_by_len(list_view(kept)));
            }
            let ghost prev = *self;
            let ghost keptv = kept@;
            self.paths[i] = kept;
            proof {
                assert(self.paths@.len() == prev.paths@.len());
                assert(self.paths@[i as int]@ == keptv);
                assert forall|t: int| 0 <= t < count && t != i implies self.paths@[t]
                    == prev.paths@[t] by {}
                assert forall|t: int, kk: int|
                    0 <= t < i + 1 && 0 <= kk < self.lists()[t].len() implies from_list(
                    #[trigger] self.lists()[t][kk],
                    old(self).paths@[t]@,
                ) by {
                    if t < i {
                        assert(self.lists()[t][kk] == prev.lists()[t][kk]);
                        assert(from_list(prev.lists()[t][kk], old(self).paths@[t]@));
                    } else {
                        assert(self.lists()[t][kk] == keptv[kk]@);
                        assert(from_list(keptv[kk]@, source@));
                        assert(source == old(self).paths@[i as int]);
                    }
                }
                assert forall|t: int, kk: int|
                    0 <= t < i + 1 && 0 <= kk < self.lists()[t].len() implies (
                #[trigger] self.lists()[t][kk]).len() <= old(self).trim_bound(t) by {
                    if t < i {
                        assert(self.lists()[t][kk] == prev.lists()[t][kk]);
                        assert(prev.lists()[t][kk].len() <= old(self).trim_bound(t));
                    } else {
                        assert(self.lists()[t][kk] == keptv[kk]@);
                        assert(keptv[kk]@.len() <= bound);
                    }
                }
                assert(self.lists()[i as int] =~= list_view(self.paths@[i as int]));
                assert(list_view(self.paths@[i as int]) == sv.filter(cap));
                assert(cap == len_at_most(old(self).trim_bound(i as int)));
                assert forall|t: int|
                    0 <= t < i + 1 implies #[trigger] self.lists()[t] == old(
                    self,
                ).lists()[t].filter(len_at_most(old(self).trim_bound(t))) by {
                    if t < i {
                        assert(self.lists()[t] == prev.lists()[t]);
                    } else {
                        assert(sv == old(self).lists()[i as int]);
                    }
                }
                assert forall|t: int|
                    0 <= t < i + 1 implies sorted_by_len(#[trigger] self.lists()[t]) by {
                    if t < i {
                        assert(self.lists()[t] == prev.lists()[t]);
                        assert(sorted_by_len(prev.lists()[t]));
                    } else {
                        assert(self.lists()[t] =~= list_view(self.paths@[t]));
                    }
                }
                assert forall|t: int, kk: int|
                    0 <= t < count && 0 <= kk < self.lists()[t].len() implies self.cand_wf(
                    #[trigger] self.lists()[t][kk],
                ) by {
                    if t == i {
                        assert(from_list(keptv[kk]@, source@));
                        let w = choose|w: int|
                            0 <= w < source@.len() && keptv[kk]@ == #[trigger] source@[w]@;
                        assert(prev.lists()[i as int][w] == source@[w]@);
                        assert(prev.cand_wf(prev.lists()[i as int][w]));
                    } else {
                        assert(self.lists()[t][kk] == prev.lists()[t][kk]);
                        assert(prev.cand_wf(prev.lists()[t][kk]));
                    }
                }
            }
            i += 1;
        }
        proof {
            assert forall|k: int|
                0 <= k < self.occupied@.len() implies (#[trigger] self.occupied@[k])
                == self.covered(0, k) by {
                assert(old(self).occupied@[k] == old(self).covered(0, k));
            }
        }
    }

    /// The backtracking search itself: advance pair by pair, committing the
    /// first non-colliding candidate, and backtrack when a pair runs out of
    /// candidates. On success the selections are pairwise disjoint and
    /// cover every cell of the board. The loop terminates on its own: each
    /// step either commits a pair or advances the cursor vector in
    /// lexicographic order, whose mixed-radix value is bounded.
    pub fn choose_all(&mut self) -> (r: bool)
        requires
            old(self).wf(),
            old(self).partial_inv(0),
            forall|j: int|
                0 <= j < old(self).npairs() ==> (#[trigger] old(self).chosen@[j]) <= old(
                    self,
                ).lists()[j].len(),
        ensures
            final(self).wf(),
            final(self).paths@ == old(self).paths@,
            final(self).rows == old(self).rows,
            final(self).cols == old(self).cols,
            final(self).npairs() == old(self).npairs(),
            r ==> final(self).partial_inv(final(self).npairs()),
            r ==> final(self).filled == final(self).rows * final(self).cols,
            r ==> forall|co: Coordinate|
                co.row < final(self).rows && co.col < final(self).cols ==> exists|i: int|
                    0 <= i < final(self).npairs() && (#[trigger] final(self).sel(i)).contains(co),
    {
        let nlists = self.paths.len();
        let ns = self.occupied.len();
        let mut pos: usize = 0;
        proof {
            self.lemma_radix_value_bounds(self.chosen@, 0);
        }
        loop
            invariant
                self.wf(),
                self.paths@ == old(self).paths@,
                self.rows == old(self).rows,
                self.cols == old(self).cols,
                nlists == self.npairs(),
                ns == self.rows * self.cols,
                pos <= nlists,
                self.partial_inv(pos as int),
                self.chosen@.len() == nlists,
                forall|j: int|
                    0 <= j < nlists ==> (#[trigger] self.chosen@[j]) <= self.lists()[j].len(),
            decreases self.radix_weight(0) - self.radix_value_of(self.chosen@, 0), nlists - pos,
        {
            let ghost head = *self;
            if pos == nlists {
                if self.filled == ns {
                    proof {
                        lemma_count_true_full(self.occupied@);
                        assert forall|co: Coordinate|
                            co.row < self.rows && co.col < self.cols implies exists|i: int|
                            0 <= i < self.npairs() && (#[trigger] self.sel(i)).contains(co) by {
                            lemma_linear_index_bounds(
                                co.row as int,
                                co.col as int,
                                self.rows as int,
                                self.cols as int,
                            );
                            let k = co.row * (self.cols as int) + co.col;
                            assert(self.occupied@[k]);
                            assert(self.covered(nlists as int, k));
                            let i = choose|i: int|
                                0 <= i < nlists && seq_covers(
                                    #[trigger] self.sel(i),
                                    self.cols as int,
                                    k,
                                );
                            let w = choose|w: int|
                                0 <= w < self.sel(i).len() && (#[trigger] self.sel(i)[w]).row * (
                                self.cols as int) + self.sel(i)[w].col == k;
                            assert(self.cand_wf(self.sel(i)));
                            lemma_linear_index_injective(self.sel(i)[w], co, self.cols as int);
                            assert(self.sel(i)[w] == co);
                            assert(self.sel(i).contains(co));
                        }
                    }
                    return true;
                }
                if pos == 0 {
                    return false;
                }
                pos -= 1;
                self.backtrack(pos);
                proof {
                    self.lemma_backtrack_measure(head, pos as int);
                }
            } else {
                if self.chosen[pos] < self.paths[pos].len() {
                    proof {
                        assert(self.lists()[pos as int].len() == self.paths@[pos as int]@.len());
                    }
                    let c = self.conflicts(pos);
                    if !c {
                        self.occupy(pos);
                        pos += 1;
                        proof {
                            Self::lemma_radix_congruent(head, *self, self.chosen@, 0);
                            self.lemma_radix_value_bounds(self.chosen@, 0);
                        }
                    } else {
                        let ghost s0 = *self;
                        let t = self.chosen[pos];
                        self.chosen[pos] = t + 1;
                        proof {
                            lemma_partial_inv_cursors(s0, *self, pos as int);
                            Self::lemma_radix_congruent(head, *self, head.chosen@, 0);
                            self.lemma_radix_value_update(
                                head.chosen@,
                                self.chosen@,
                                pos as int,
                                0,
                            );
                            self.lemma_radix_weight_pos(pos as int + 1);
                            self.lemma_radix_value_bounds(self.chosen@, 0);
                        }
                    }
                } else {
                    if pos == 0 {
                        return false;
                    }
                    pos -= 1;
                    self.backtrack(pos);
                    proof {
                        self.lemma_backtrack_measure(head, pos as int);
                    }
                }
            }
        }
    }

    /// After `backtrack(n)` the cursor vector's mixed-radix value strictly
    /// grows while staying within bounds: the measure of the search space
    /// left ahead of the cursors shrinks.
    proof fn lemma_backtrack_measure(self, head: PathChooser, n: int)
        requires
            self.paths@ == head.paths@,
            self.chosen@.len() == head.chosen@.len(),
            head.chosen@.len() == head.npairs(),
            0 <= n < head.npairs(),
            self.chosen@[n] == head.chosen@[n] + 1,
            n + 1 < head.npairs() ==> self.chosen@[n + 1] == 0,
            forall|j: int|
                0 <= j < head.npairs() && j != n && j != n + 1 ==> #[trigger] self.chosen@[j]
                    == head.chosen@[j],
            forall|j: int|
                0 <= j < head.npairs() ==> (#[trigger] head.chosen@[j]) <= head.lists()[j].len(),
            forall|j: int|
                0 <= j < head.npairs() ==> (#[trigger] self.chosen@[j]) <= self.lists()[j].len(),
        ensures
            self.radix_value_of(self.chosen@, 0) > head.radix_value_of(head.chosen@, 0),
            self.radix_value_of(self.chosen@, 0) < self.radix_weight(0),
            head.radix_weight(0) == self.radix_weight(0),
    {
        Self::lemma_radix_congruent(head, self, head.chosen@, 0);
        self.lemma_radix_value_bounds(self.chosen@, 0);
        let ch0 = head.chosen@;
        let ch2 = self.chosen@;
        if n + 1 < head.npairs() {
            let chm = ch0.update(n + 1, 0usize);
            self.lemma_radix_value_update(ch0, chm, n + 1, 0);
            self.lemma_radix_value_update(chm, ch2, n, 0);
            self.lemma_radix_weight_pos(n + 2);
            assert(chm[n] == ch0[n] && chm[n + 1] == 0);
            assert((0 - ch0[n + 1]) * self.radix_weight(n + 2) == -(ch0[n + 1] * self.radix_weight(
                n + 2,
            ))) by (nonlinear_arith);
            assert((ch2[n] - chm[n]) * self.radix_weight(n + 1) == self.radix_weight(n + 1))
                by (nonlinear_arith)
                requires
                    ch2[n] - chm[n] == 1,
            ;
            assert(self.radix_weight(n + 1) == (self.lists()[n + 1].len() + 1) * self.radix_weight(
                n + 2,
            ));
            assert(self.radix_weight(n + 1) - ch0[n + 1] * self.radix_weight(n + 2)
                >= self.radix_weight(n + 2)) by (nonlinear_arith)
                requires
                    self.radix_weight(n + 1) == (self.lists()[n + 1].len() + 1)
                        * self.radix_weight(n + 2),
                    0 <= ch0[n + 1] <= self.lists()[n + 1].len(),
                    self.radix_weight(n + 2) >= 1,
            ;
        } else {
            self.lemma_radix_value_update(ch0, ch2, n, 0);
            self.lemma_radix_weight_pos(n + 1);
            assert((ch2[n] - ch0[n]) * self.radix_weight(n + 1) == self.radix_weight(n + 1))
                by (nonlinear_arith)
                requires
                    ch2[n] - ch0[n] == 1,
            ;
        }
    }

    /// The selected path of every pair, in pair order.
    pub fn collect(&self) -> (r: Vec<Vec<Coordinate>>)
        requires
            self.wf(),
            self.partial_inv(self.npairs()),
        ensures
            r@.len() == self.npairs(),
            forall|i: int| 0 <= i < r@.len() ==> #[trigger] r@[i]@ == self.sel(i),
    {
        let n = self.paths.len();
        let mut r: Vec<Vec<Coordinate>> = Vec::new();
        let mut i: usize = 0;
        while i < n
            invariant
                self.wf(),
                self.partial_inv(self.npairs()),
                n == self.npairs(),
                i <= n,
                r@.len() == i,
                forall|t: int| 0 <= t < i ==> #[trigger] r@[t]@ == self.sel(t),
            decreases n - i,
        {
            let ci = self.chosen[i];
            proof {
                assert(self.chosen@[i as int] < self.lists()[i as int].len());
                assert(self.lists()[i as int].len() == self.paths@[i as int]@.len());
                assert(self.sel(i as int) == self.paths@[i as int]@[ci as int]@);
            }
            let copy = clone_coords(&self.paths[i][ci]);
            r.push(copy);
            i += 1;
        }
        r
    }
}

} // verus!
