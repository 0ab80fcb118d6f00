//! Which windows of a grid hold anything at all, for `absent_over_time`.
use vstd::prelude::*;
use crate::number::ONE;
use crate::window::Grid;

verus! {

/// How many marks lie in the window of index `k`.
pub open spec fn mark_count(grid: Grid, marks: Seq<i64>, k: int) -> int
    decreases marks.len(),
{
    if marks.len() == 0 {
        0
    } else {
        mark_count(grid, marks.drop_last(), k) + (if grid.first_cover(marks.last() as int) <= k
            <= grid.last_cover(marks.last() as int) {
            1int
        } else {
            0
        })
    }
}

/// The sum of a prefix.
pub open spec fn prefix_sum(s: Seq<i64>, n: int) -> int
    decreases n,
{
    if n <= 0 {
        0
    } else {
        prefix_sum(s, n - 1) + s[n - 1]
    }
}

/// The grid points before index `k` whose windows hold no mark, each with the
/// value one.
pub open spec fn absent_points(grid: Grid, marks: Seq<i64>, k: int) -> Seq<(i64, u64)>
    decreases k,
{
    if k <= 0 {
        Seq::empty()
    } else if mark_count(grid, marks, k - 1) == 0 {
        absent_points(grid, marks, k - 1).push((grid.at(k - 1) as i64, ONE))
    } else {
        absent_points(grid, marks, k - 1)
    }
}

proof fn lemma_prefix_update(s: Seq<i64>, i: int, x: i64, n: int)
    requires
        0 <= i < s.len(),
        n <= s.len(),
    ensures
        prefix_sum(s.update(i, x), n) == prefix_sum(s, n) + (if i < n {
            x - s[i]
        } else {
            0
        }),
    decreases n,
{
    if n > 0 {
        lemma_prefix_update(s, i, x, n - 1);
    }
}

proof fn lemma_prefix_zero(s: Seq<i64>, n: int)
    requires
        n <= s.len(),
        forall|i: int| 0 <= i < s.len() ==> s[i] == 0,
    ensures
        prefix_sum(s, n) == 0,
    decreases n,
{
    if n > 0 {
        lemma_prefix_zero(s, n - 1);
    }
}

proof fn lemma_mark_count_bound(grid: Grid, marks: Seq<i64>, k: int)
    ensures
        0 <= mark_count(grid, marks, k) <= marks.len(),
    decreases marks.len(),
{
    if marks.len() > 0 {
        lemma_mark_count_bound(grid, marks.drop_last(), k);
    }
}

/// A window counts no mark exactly when none of the marks lies in it.
pub proof fn law_absent_means_an_empty_window(grid: Grid, marks: Seq<i64>, k: int)
    requires
        grid.wf(),
        0 <= k <= grid.kmax,
    ensures
        mark_count(grid, marks, k) == 0 <==> forall|i: int|
            0 <= i < marks.len() ==> !(grid.at(k) - grid.range < #[trigger] marks[i] <= grid.at(k)),
    decreases marks.len(),
{
    if marks.len() > 0 {
        let (rest, last) = (marks.drop_last(), marks.last());
        law_absent_means_an_empty_window(grid, rest, k);
        lemma_mark_count_bound(grid, rest, k);
        grid.lemma_cover_run(last as int);
        assert(grid.covers(k, last as int) <==> grid.first_cover(last as int) <= k
            <= grid.last_cover(last as int));
        if mark_count(grid, marks, k) == 0 {
            assert forall|i: int| 0 <= i < marks.len() implies !(grid.at(k) - grid.range
                < #[trigger] marks[i] <= grid.at(k)) by {
                if i < rest.len() {
                    assert(rest[i] == marks[i]);
                }
            }
        } else {
            if mark_count(grid, rest, k) > 0 {
                let i = choose|i: int|
                    0 <= i < rest.len() && grid.at(k) - grid.range < #[trigger] rest[i] <= grid.at(
                        k,
                    );
                assert(marks[i] == rest[i]);
            } else {
                assert(marks[marks.len() - 1] == last);
            }
        }
    }
}

/// The windows that hold something, as changes from each window to the next.
pub struct Presence {
    pub cover: Vec<i64>,
    /// When something was seen.
    pub marks: Ghost<Seq<i64>>,
}

impl Presence {
    /// Whether the changes are those of the marks.
    pub open spec fn wf(&self, grid: Grid) -> bool {
        &&& self.cover@.len() == grid.kmax + 2
        &&& forall|k: int|
            0 <= k <= grid.kmax + 1 ==> #[trigger] mark_count(grid, self.marks@, k) == prefix_sum(
                self.cover@,
                k + 1,
            )
        &&& forall|k: int|
            0 <= k <= grid.kmax + 1 ==> -self.marks@.len() <= #[trigger] self.cover@[k]
                <= self.marks@.len()
    }

    /// No marks; without room for any where none will come.
    pub fn new(grid: &Grid, used: bool) -> (p: Presence)
        requires
            grid.wf(),
        ensures
            p.marks@ == Seq::<i64>::empty(),
            used ==> p.wf(*grid),
            !used ==> p.cover@.len() == 0,
    {
        let mut cover: Vec<i64> = Vec::new();
        if used {
            let n: usize = (grid.kmax + 2) as usize;
            let mut i: usize = 0;
            while i < n
                invariant
                    i <= n,
                    cover@.len() == i,
                    forall|j: int| 0 <= j < i ==> cover@[j] == 0,
                decreases n - i,
            {
                cover.push(0);
                i = i + 1;
            }
            proof {
                assert forall|k: int| 0 <= k <= grid.kmax + 1 implies #[trigger] mark_count(
                    *grid,
                    Seq::empty(),
                    k,
                ) == prefix_sum(cover@, k + 1) by {
                    lemma_prefix_zero(cover@, k + 1);
                }
            }
        }
        Presence { cover, marks: Ghost(Seq::empty()) }
    }

    /// Marks a time.
    pub fn mark(&mut self, grid: &Grid, ts: i64)
        requires
            grid.wf(),
            old(self).wf(*grid),
            old(self).marks@.len() < i64::MAX,
        ensures
            final(self).wf(*grid),
            final(self).marks@ == old(self).marks@.push(ts),
    {
        let (k_lo, k_hi) = grid.covering_k(ts);
        let ghost before = self.cover@;
        let ghost marks = self.marks@;
        let ghost next = marks.push(ts);
        if k_lo <= k_hi {
            let lo: usize = k_lo as usize;
            let hi: usize = (k_hi + 1) as usize;
            let up: i64 = self.cover[lo] + 1;
            self.cover.set(lo, up);
            let ghost mid = self.cover@;
            let down: i64 = self.cover[hi] - 1;
            self.cover.set(hi, down);
            proof {
                assert forall|k: int| 0 <= k <= grid.kmax + 1 implies prefix_sum(self.cover@, k + 1)
                    == #[trigger] mark_count(*grid, next, k) by {
                    lemma_prefix_update(before, k_lo as int, up, k + 1);
                    lemma_prefix_update(mid, k_hi + 1, down, k + 1);
                    assert(next.drop_last() =~= marks);
                    assert(mark_count(*grid, marks, k) == prefix_sum(before, k + 1));
                }
            }
        } else {
            proof {
                assert forall|k: int| 0 <= k <= grid.kmax + 1 implies prefix_sum(self.cover@, k + 1)
                    == #[trigger] mark_count(*grid, next, k) by {
                    assert(next.drop_last() =~= marks);
                    assert(mark_count(*grid, marks, k) == prefix_sum(before, k + 1));
                }
            }
        }
        self.marks = Ghost(next);
    }

    /// The grid points whose windows hold no mark.
    pub fn absent(&self, grid: &Grid) -> (points: Vec<(i64, u64)>)
        requires
            grid.wf(),
            self.wf(*grid),
            self.marks@.len() <= i64::MAX,
        ensures
            points@ == absent_points(*grid, self.marks@, grid.slots()),
    {
        let mut points: Vec<(i64, u64)> = Vec::new();
        let mut running: i64 = 0;
        let mut k: i64 = 0;
        while k <= grid.kmax
            invariant
                grid.wf(),
                self.wf(*grid),
                self.marks@.len() <= i64::MAX,
                0 <= k <= grid.kmax + 1,
                running == prefix_sum(self.cover@, k as int),
                points@ == absent_points(*grid, self.marks@, k as int),
            decreases grid.kmax + 1 - k,
        {
            proof {
                assert(mark_count(*grid, self.marks@, k as int) == prefix_sum(self.cover@, k + 1));
                lemma_mark_count_bound(*grid, self.marks@, k as int);
                grid.lemma_at_in_range(k as int);
            }
            running = running + self.cover[k as usize];
            if running == 0 {
                points.push((grid.point(k), ONE));
            }
            k = k + 1;
        }
        points
    }
}

} // verus!
