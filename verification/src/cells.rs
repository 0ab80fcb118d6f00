//! Windows of a group that several streams feed.
//!
//! Lines that are grouped by their labels arrive stream by stream, so a group
//! cannot slide one window forward. It keeps what every window needs instead, in
//! the smallest of three forms, and [`MutGroup::drain`] turns it into the group's points.
use vstd::prelude::*;
use crate::charge::charge_retention;
use crate::error::{ErrorView, ReadError, TooBroadReason};
use crate::index_map::{self, IndexMap};
use crate::order::{self, stable_sorted, Ranked};
use crate::slide::{self, Reducer, ReducerClass, WinSample};
use crate::text;
use crate::window::Grid;

verus! {

/// The change of a running pair at a grid index.
#[derive(Debug, Clone, Copy)]
pub struct IntDelta {
    /// The change of the sum.
    pub dvalue: i64,
    /// The change of the number of samples: a window of value zero that holds a
    /// sample is not an empty window.
    pub dcount: i64,
}

/// What a group keeps.
pub enum MutCells {
    /// The sum of each window that holds a sample.
    IntExpanded(IndexMap<u64>),
    /// Where windows overlap: the changes from each window's sum to the next.
    IntDeltas(IndexMap<IntDelta>),
    /// Every sample.
    Samples(Vec<WinSample>),
}

/// The form a group keeps its windows in.
#[derive(Debug, Clone, Copy, PartialEq, Eq, Structural)]
pub enum CellForm {
    IntExpanded,
    IntDeltas,
    Samples,
}

/// The form for a reducer class on a grid: changes where windows overlap on a
/// grid of more than one point.
pub open spec fn form_of(class: ReducerClass, grid: Grid) -> CellForm {
    if !(class is InvertInteger) {
        CellForm::Samples
    } else if grid.range >= grid.step && grid.kmax > 0 {
        CellForm::IntDeltas
    } else {
        CellForm::IntExpanded
    }
}

/// An empty group.
pub fn mut_cells_for(class: ReducerClass, grid: &Grid) -> (cells: MutCells)
    requires
        grid.wf(),
    ensures
        cells.represents(form_of(class, *grid), *grid, Seq::empty()),
        cells.units() == 0,
{
    let cells = if !matches!(class, ReducerClass::InvertInteger) {
        MutCells::Samples(Vec::new())
    } else if grid.range as i128 >= grid.step as i128 && grid.kmax > 0 {
        MutCells::IntDeltas(IndexMap::new())
    } else {
        MutCells::IntExpanded(IndexMap::new())
    };
    proof {
        lemma_nothing_held(*grid);
    }
    cells
}

// ---------------------------------------------------------------------
// What the forms stand for.
// ---------------------------------------------------------------------

/// The samples whose windows include index `k`.
pub open spec fn held(grid: Grid, hist: Seq<WinSample>, k: int) -> Seq<WinSample> {
    hist.filter(|s: WinSample| grid.first_cover(s.ts as int) <= k <= grid.last_cover(s.ts as int))
}

/// On the grid, these are the samples of the window.
pub proof fn lemma_held_is_window(grid: Grid, hist: Seq<WinSample>, k: int)
    requires
        grid.wf(),
        0 <= k <= grid.kmax,
    ensures
        held(grid, hist, k) == slide::window_of(hist, grid.at(k), grid.range as int),
{
    let p = |s: WinSample|
        grid.first_cover(s.ts as int) <= k <= grid.last_cover(s.ts as int);
    let q = |s: WinSample| grid.at(k) - grid.range < s.ts <= grid.at(k);
    assert forall|s: WinSample| #[trigger] p(s) == q(s) by {
        grid.lemma_cover_run(s.ts as int);
        assert(grid.covers(k, s.ts as int) <==> p(s));
    }
    assert(p =~= q);
}

proof fn lemma_nothing_held(grid: Grid)
    ensures
        forall|k: int| (#[trigger] held(grid, Seq::empty(), k)).len() == 0,
{
    reveal(Seq::filter);
    assert forall|k: int| (#[trigger] held(grid, Seq::empty(), k)).len() == 0 by {
        let p = |s: WinSample|
            grid.first_cover(s.ts as int) <= k <= grid.last_cover(s.ts as int);
        slide::lemma_filter_run(Seq::<WinSample>::empty(), p, 0, 0);
    }
}

/// One more sample adds itself where its windows are.
proof fn lemma_held_push(grid: Grid, hist: Seq<WinSample>, s: WinSample, k: int)
    ensures
        held(grid, hist.push(s), k) == (if grid.first_cover(s.ts as int) <= k <= grid.last_cover(
            s.ts as int,
        ) {
            held(grid, hist, k).push(s)
        } else {
            held(grid, hist, k)
        }),
{
    reveal(Seq::filter);
    assert(hist.push(s).drop_last() =~= hist);
}

/// The sum of what an index holds is within the sum of everything.
proof fn lemma_held_sum(grid: Grid, hist: Seq<WinSample>, k: int)
    ensures
        0 <= slide::weight_sum(held(grid, hist, k)) <= slide::weight_sum(hist),
        held(grid, hist, k).len() <= hist.len(),
    decreases hist.len(),
{
    if hist.len() == 0 {
        lemma_nothing_held(grid);
        assert(hist =~= Seq::empty());
        slide::lemma_weight_sum_nonneg(held(grid, hist, k));
    } else {
        let (h, s) = (hist.drop_last(), hist.last());
        assert(hist =~= h.push(s));
        lemma_held_push(grid, h, s, k);
        lemma_held_sum(grid, h, k);
        assert(held(grid, h, k).push(s).drop_last() =~= held(grid, h, k));
    }
}

/// Keys strictly ascend.
pub open spec fn keys_ascend<V>(entries: Seq<(i64, V)>) -> bool {
    forall|i: int, j: int| 0 <= i < j < entries.len() ==> entries[i].0 < entries[j].0
}

/// Whether an index has an entry.
pub open spec fn has_key<V>(entries: Seq<(i64, V)>, k: int) -> bool {
    exists|i: int| 0 <= i < entries.len() && #[trigger] entries[i].0 == k
}

/// Whether a change falls on index `k`: a sample's windows start there or have
/// just ended.
pub open spec fn touched(grid: Grid, hist: Seq<WinSample>, k: int) -> bool {
    exists|i: int|
        0 <= i < hist.len() && (grid.first_cover((#[trigger] hist[i]).ts as int) == k
            || grid.last_cover(hist[i].ts as int) + 1 == k)
}

/// The changes up to index `k`, summed.
pub open spec fn value_until(entries: Seq<(i64, IntDelta)>, k: int) -> int
    decreases entries.len(),
{
    if entries.len() == 0 {
        0
    } else {
        value_until(entries.drop_last(), k) + (if entries.last().0 <= k {
            entries.last().1.dvalue as int
        } else {
            0
        })
    }
}

/// The changes of the count up to index `k`, summed.
pub open spec fn count_until(entries: Seq<(i64, IntDelta)>, k: int) -> int
    decreases entries.len(),
{
    if entries.len() == 0 {
        0
    } else {
        count_until(entries.drop_last(), k) + (if entries.last().0 <= k {
            entries.last().1.dcount as int
        } else {
            0
        })
    }
}

/// Every sample is in some window.
pub open spec fn all_covered(grid: Grid, hist: Seq<WinSample>) -> bool {
    forall|i: int|
        0 <= i < hist.len() ==> grid.first_cover((#[trigger] hist[i]).ts as int)
            <= grid.last_cover(hist[i].ts as int)
}

/// How many new entries the last sample of `hist` takes, by form.
pub open spec fn new_units(form: CellForm, grid: Grid, hist: Seq<WinSample>, s: WinSample) -> (
    int,
    int,
) {
    let (lo, hi) = (grid.first_cover(s.ts as int), grid.last_cover(s.ts as int));
    match form {
        CellForm::Samples => (1, 0),
        CellForm::IntExpanded => (
            if held(grid, hist, lo).len() == 0 {
                1int
            } else {
                0
            },
            0,
        ),
        CellForm::IntDeltas => (
            if touched(grid, hist, lo) {
                0int
            } else {
                1
            },
            if touched(grid, hist, hi + 1) {
                0int
            } else {
                1
            },
        ),
    }
}

/// How many entries a group of the given samples keeps.
pub open spec fn units_of(form: CellForm, grid: Grid, hist: Seq<WinSample>) -> int
    decreases hist.len(),
{
    if hist.len() == 0 {
        0
    } else {
        let (a, b) = new_units(form, grid, hist.drop_last(), hist.last());
        units_of(form, grid, hist.drop_last()) + a + b
    }
}

/// What a group keeps is bounded by its samples, however wide the windows are: two
/// entries for each sample, and where it keeps samples, exactly one.
pub proof fn law_retention_ignores_the_width(form: CellForm, grid: Grid, hist: Seq<WinSample>)
    ensures
        0 <= units_of(form, grid, hist) <= 2 * hist.len(),
        form is Samples ==> units_of(form, grid, hist) == hist.len(),
    decreases hist.len(),
{
    if hist.len() > 0 {
        law_retention_ignores_the_width(form, grid, hist.drop_last());
    }
}

impl MutCells {
    /// How many entries are kept.
    pub open spec fn units(&self) -> int {
        match *self {
            MutCells::IntExpanded(m) => m@.len() as int,
            MutCells::IntDeltas(m) => m@.len() as int,
            MutCells::Samples(v) => v@.len() as int,
        }
    }

    /// Whether the cells are what the given samples come to in the given form.
    pub open spec fn represents(&self, form: CellForm, grid: Grid, hist: Seq<WinSample>) -> bool {
        &&& self.units() == units_of(form, grid, hist)
        &&& all_covered(grid, hist)
        &&& match *self {
            MutCells::IntExpanded(m) => {
                &&& form is IntExpanded
                &&& m.wf()
                &&& keys_ascend(m@)
                &&& forall|i: int| 0 <= i < m@.len() ==> 0 <= (#[trigger] m@[i]).0 <= grid.kmax
                &&& forall|k: int|
                    0 <= k <= grid.kmax ==> (#[trigger] has_key(m@, k) <==> held(
                        grid,
                        hist,
                        k,
                    ).len() > 0)
                &&& forall|i: int|
                    0 <= i < m@.len() ==> (#[trigger] m@[i]).1 == slide::weight_sum(
                        held(grid, hist, m@[i].0 as int),
                    )
            },
            MutCells::IntDeltas(m) => {
                &&& form is IntDeltas
                &&& m.wf()
                &&& keys_ascend(m@)
                &&& forall|i: int|
                    0 <= i < m@.len() ==> 0 <= (#[trigger] m@[i]).0 <= grid.kmax + 1
                &&& forall|k: int| #[trigger] has_key(m@, k) <==> touched(grid, hist, k)
                &&& forall|k: int|
                    0 <= k <= grid.kmax + 1 ==> #[trigger] value_until(m@, k) == slide::weight_sum(
                        held(grid, hist, k),
                    )
                &&& forall|k: int|
                    0 <= k <= grid.kmax + 1 ==> #[trigger] count_until(m@, k) == held(
                        grid,
                        hist,
                        k,
                    ).len()
                &&& forall|i: int|
                    0 <= i < m@.len() ==> -slide::weight_sum(hist) <= (#[trigger] m@[i]).1.dvalue
                        <= slide::weight_sum(hist)
                &&& forall|i: int|
                    0 <= i < m@.len() ==> -hist.len() <= (#[trigger] m@[i]).1.dcount <= hist.len()
            },
            MutCells::Samples(v) => {
                &&& form is Samples
                &&& v@ == hist
            },
        }
    }
}

// ---------------------------------------------------------------------
// Adding a sample.
// ---------------------------------------------------------------------

/// A new entry at its place.
pub proof fn lemma_insert_keys<V>(m: Seq<(i64, V)>, i: int, k: i64, v: V)
    requires
        keys_ascend(m),
        0 <= i <= m.len(),
        forall|j: int| 0 <= j < i ==> (#[trigger] m[j]).0 < k,
        forall|j: int| i <= j < m.len() ==> (#[trigger] m[j]).0 > k,
    ensures
        keys_ascend(m.insert(i, (k, v))),
        forall|x: int| #[trigger] has_key(m.insert(i, (k, v)), x) <==> has_key(m, x) || x == k,
        !has_key(m, k as int),
{
    let n = m.insert(i, (k, v));
    assert forall|x: int| #[trigger] has_key(n, x) <==> has_key(m, x) || x == k by {
        if has_key(m, x) {
            let j = choose|j: int| 0 <= j < m.len() && #[trigger] m[j].0 == x;
            if j < i {
                assert(n[j].0 == x);
            } else {
                assert(n[j + 1].0 == x);
            }
        }
        if x == k {
            assert(n[i].0 == x);
        }
        if has_key(n, x) && x != k {
            let j = choose|j: int| 0 <= j < n.len() && #[trigger] n[j].0 == x;
            if j < i {
                assert(m[j].0 == x);
            } else {
                assert(m[j - 1].0 == x);
            }
        }
    }
}

/// A new value in an entry.
pub proof fn lemma_update_keys<V>(m: Seq<(i64, V)>, i: int, v: V)
    requires
        keys_ascend(m),
        0 <= i < m.len(),
    ensures
        keys_ascend(m.update(i, (m[i].0, v))),
        forall|x: int| #[trigger] has_key(m.update(i, (m[i].0, v)), x) <==> has_key(m, x),
{
    let n = m.update(i, (m[i].0, v));
    assert forall|x: int| #[trigger] has_key(n, x) <==> has_key(m, x) by {
        if has_key(m, x) {
            let j = choose|j: int| 0 <= j < m.len() && #[trigger] m[j].0 == x;
            assert(n[j].0 == x);
        }
        if has_key(n, x) {
            let j = choose|j: int| 0 <= j < n.len() && #[trigger] n[j].0 == x;
            assert(m[j].0 == x);
        }
    }
}

proof fn lemma_until_insert(m: Seq<(i64, IntDelta)>, i: int, e: (i64, IntDelta), k: int)
    requires
        0 <= i <= m.len(),
    ensures
        value_until(m.insert(i, e), k) == value_until(m, k) + (if e.0 <= k {
            e.1.dvalue as int
        } else {
            0
        }),
        count_until(m.insert(i, e), k) == count_until(m, k) + (if e.0 <= k {
            e.1.dcount as int
        } else {
            0
        }),
    decreases m.len(),
{
    let n = m.insert(i, e);
    if i == m.len() {
        assert(n.drop_last() =~= m);
    } else {
        lemma_until_insert(m.drop_last(), i, e, k);
        assert(n.drop_last() =~= m.drop_last().insert(i, e));
        assert(n.last() == m.last());
    }
}

proof fn lemma_until_update(m: Seq<(i64, IntDelta)>, i: int, d: IntDelta, k: int)
    requires
        0 <= i < m.len(),
    ensures
        value_until(m.update(i, (m[i].0, d)), k) == value_until(m, k) + (if m[i].0 <= k {
            d.dvalue - m[i].1.dvalue
        } else {
            0
        }),
        count_until(m.update(i, (m[i].0, d)), k) == count_until(m, k) + (if m[i].0 <= k {
            d.dcount - m[i].1.dcount
        } else {
            0
        }),
    decreases m.len(),
{
    let n = m.update(i, (m[i].0, d));
    if i == m.len() - 1 {
        assert(n.drop_last() =~= m.drop_last());
    } else {
        lemma_until_update(m.drop_last(), i, d, k);
        assert(n.drop_last() =~= m.drop_last().update(i, (m[i].0, d)));
        assert(n.last() == m.last());
    }
}

/// Adds a change at an index, charging for a new entry.
fn touch(
    m: &mut IndexMap<IntDelta>,
    k: i64,
    dv: i64,
    dc: i64,
    retained: &mut u64,
    cap: u64,
) -> (res: Result<(), ReadError>)
    requires
        old(m).wf(),
        !has_key(old(m)@, k as int) ==> *old(retained) < u64::MAX,
        forall|i: int|
            0 <= i < old(m)@.len() ==> i64::MIN <= (#[trigger] old(m)@[i]).1.dvalue + dv
                <= i64::MAX && i64::MIN <= old(m)@[i].1.dcount + dc <= i64::MAX,
    ensures
        ({
            let fresh = !has_key(old(m)@, k as int);
            let over = fresh && *old(retained) + 1 > cap;
            match res {
                Ok(()) => {
                    &&& !over
                    &&& final(m).wf()
                    &&& keys_ascend(final(m)@)
                    &&& final(m)@.len() == old(m)@.len() + (if fresh {
                        1int
                    } else {
                        0
                    })
                    &&& *final(retained) == *old(retained) + (if fresh {
                        1int
                    } else {
                        0
                    })
                    &&& forall|x: int|
                        #[trigger] has_key(final(m)@, x) <==> has_key(old(m)@, x) || x == k
                    &&& forall|x: int|
                        #[trigger] value_until(final(m)@, x) == value_until(old(m)@, x) + (if k
                            <= x {
                            dv as int
                        } else {
                            0
                        })
                    &&& forall|x: int|
                        #[trigger] count_until(final(m)@, x) == count_until(old(m)@, x) + (if k
                            <= x {
                            dc as int
                        } else {
                            0
                        })
                    &&& forall|i: int|
                        0 <= i < final(m)@.len() ==> {
                            ||| (#[trigger] final(m)@[i]).0 == k && final(m)@[i].1.dvalue == dv
                                && final(m)@[i].1.dcount == dc
                            ||| exists|j: int|
                                0 <= j < old(m)@.len() && final(m)@[i] == #[trigger] old(m)@[j]
                            ||| exists|j: int|
                                0 <= j < old(m)@.len() && final(m)@[i].0 == k
                                    && final(m)@[i].1.dvalue == (#[trigger] old(m)@[j]).1.dvalue
                                    + dv && final(m)@[i].1.dcount == old(m)@[j].1.dcount + dc
                                    && old(m)@[j].0 == k
                        }
                },
                Err(e) => {
                    &&& over
                    &&& e@ == ErrorView::QueryTooBroad(
                        TooBroadReason::MetricRetention {
                            count: text::saturate(*old(retained) + 1),
                            cap,
                        },
                    )
                    &&& final(m)@ == old(m)@
                    &&& *final(retained) == *old(retained)
                },
            }
        }),
{
    let ghost before = m@;
    let ghost i = index_map::place(before, k);
    match m.at(k) {
        Some(d) => {
            let next = IntDelta { dvalue: d.dvalue + dv, dcount: d.dcount + dc };
            proof {
                assert(before[i].0 == k);
                assert(has_key(before, k as int));
            }
            m.put(k, next);
            proof {
                lemma_update_keys(before, i as int, next);
                assert forall|x: int|
                    #[trigger] value_until(m@, x) == value_until(before, x) + (if k <= x {
                        dv as int
                    } else {
                        0
                    }) by {
                    lemma_until_update(before, i as int, next, x);
                }
                assert forall|x: int|
                    #[trigger] count_until(m@, x) == count_until(before, x) + (if k <= x {
                        dc as int
                    } else {
                        0
                    }) by {
                    lemma_until_update(before, i as int, next, x);
                }
                assert(before[i as int].0 == k);
            }
            Ok(())
        },
        None => {
            let fresh = IntDelta { dvalue: dv, dcount: dc };
            proof {
                lemma_insert_keys(before, i as int, k, fresh);
            }
            match charge_retention(retained, 1, cap) {
                Ok(()) => {},
                Err(e) => {
                    return Err(e);
                },
            }
            m.put(k, fresh);
            proof {
                assert forall|x: int|
                    #[trigger] value_until(m@, x) == value_until(before, x) + (if k <= x {
                        dv as int
                    } else {
                        0
                    }) by {
                    lemma_until_insert(before, i as int, (k, fresh), x);
                }
                assert forall|x: int|
                    #[trigger] count_until(m@, x) == count_until(before, x) + (if k <= x {
                        dc as int
                    } else {
                        0
                    }) by {
                    lemma_until_insert(before, i as int, (k, fresh), x);
                }
                assert forall|j: int| 0 <= j < m@.len() implies (#[trigger] m@[j] == (k, fresh)
                    || exists|l: int| 0 <= l < before.len() && m@[j] == #[trigger] before[l]) by {
                    if j < i {
                        assert(m@[j] == before[j]);
                    } else if j > i {
                        assert(m@[j] == before[j - 1]);
                    }
                }
            }
            Ok(())
        },
    }
}

proof fn lemma_touched_push(grid: Grid, hist: Seq<WinSample>, s: WinSample, k: int)
    ensures
        touched(grid, hist.push(s), k) <==> touched(grid, hist, k) || grid.first_cover(
            s.ts as int,
        ) == k || grid.last_cover(s.ts as int) + 1 == k,
{
    let n = hist.push(s);
    if touched(grid, hist, k) {
        let i = choose|i: int|
            0 <= i < hist.len() && (grid.first_cover((#[trigger] hist[i]).ts as int) == k
                || grid.last_cover(hist[i].ts as int) + 1 == k);
        assert(n[i] == hist[i]);
    }
    assert(n[hist.len() as int] == s);
    if touched(grid, n, k) {
        let i = choose|i: int|
            0 <= i < n.len() && (grid.first_cover((#[trigger] n[i]).ts as int) == k
                || grid.last_cover(n[i].ts as int) + 1 == k);
        if i < hist.len() {
            assert(hist[i] == n[i]);
        }
    }
}

/// Where windows do not overlap, a sample is in one window at most.
pub proof fn lemma_single_cover(grid: Grid, ts: int)
    requires
        grid.wf(),
        grid.range < grid.step || grid.kmax <= 0,
        grid.first_cover(ts) <= grid.last_cover(ts),
    ensures
        grid.first_cover(ts) == grid.last_cover(ts),
{
    grid.lemma_cover_run(ts);
    let (lo, hi) = (grid.first_cover(ts), grid.last_cover(ts));
    if lo < hi {
        assert(grid.covers(lo, ts));
        assert(grid.covers(lo + 1, ts));
        grid.lemma_at_monotone(lo, lo + 1);
    }
}

/// One group of lines with the same labels.
pub struct MutGroup {
    /// The rendered labels.
    pub key: String,
    pub labels: Vec<(String, String)>,
    pub cells: MutCells,
    /// Every sample of the group, in the order they came.
    pub hist: Ghost<Seq<WinSample>>,
}

/// What one entry of a form costs.
pub open spec fn unit_cost(form: CellForm, per_sample: u64) -> int {
    if form is Samples {
        per_sample as int
    } else {
        1
    }
}

/// What the counter would come to with the first entry that goes past `cap` when
/// a sample is added.
pub open spec fn add_over(
    form: CellForm,
    grid: Grid,
    hist: Seq<WinSample>,
    s: WinSample,
    per_sample: u64,
    retained: int,
    cap: int,
) -> Option<int> {
    let (a, b) = new_units(form, grid, hist, s);
    let each = unit_cost(form, per_sample);
    if a > 0 && retained + each > cap {
        Some(retained + each)
    } else if b > 0 && retained + (a + b) * each > cap {
        Some(retained + (a + b) * each)
    } else {
        None
    }
}

impl MutGroup {
    /// Whether the group's cells are what its samples come to.
    pub open spec fn wf(&self, class: ReducerClass, grid: Grid) -> bool {
        self.cells.represents(form_of(class, grid), grid, self.hist@)
    }

    /// Adds a sample to the windows that hold it, charging for each new entry
    /// before it is made. A refused charge costs nothing; what was charged before it
    /// stands.
    pub fn add_sample(
        &mut self,
        class: ReducerClass,
        grid: &Grid,
        s: WinSample,
        per_sample: u64,
        retained: &mut u64,
        cap: u64,
    ) -> (res: Result<(), ReadError>)
        requires
            old(self).wf(class, *grid),
            grid.wf(),
            grid.first_cover(s.ts as int) <= grid.last_cover(s.ts as int),
            ({
                let form = form_of(class, *grid);
                let (a, b) = new_units(form, *grid, old(self).hist@, s);
                *old(retained) + (a + b) * unit_cost(form, per_sample) <= u64::MAX
            }),
            class is InvertInteger ==> slide::weight_sum(old(self).hist@) + s.value <= i64::MAX,
            old(self).hist@.len() < i64::MAX,
        ensures
            final(self).key == old(self).key,
            final(self).labels == old(self).labels,
            ({
                let form = form_of(class, *grid);
                let (a, b) = new_units(form, *grid, old(self).hist@, s);
                let over = add_over(
                    form,
                    *grid,
                    old(self).hist@,
                    s,
                    per_sample,
                    *old(retained) as int,
                    cap as int,
                );
                match res {
                    Ok(()) => {
                        &&& over is None
                        &&& final(self).wf(class, *grid)
                        &&& final(self).hist@ == old(self).hist@.push(s)
                        &&& *final(retained) == *old(retained) + (a + b) * unit_cost(
                            form,
                            per_sample,
                        )
                    },
                    Err(e) => {
                        &&& over is Some
                        &&& e@ == ErrorView::QueryTooBroad(
                            TooBroadReason::MetricRetention { count: text::saturate(over->0), cap },
                        )
                        &&& final(self).hist@ == old(self).hist@
                        &&& *final(retained) == over->0 - unit_cost(form, per_sample)
                    },
                }
            }),
    {
        let ghost hist = self.hist@;
        let ghost next = hist.push(s);
        let ghost form = form_of(class, *grid);
        let (k_lo, k_hi) = grid.covering_k(s.ts);
        proof {
            assert(next.drop_last() =~= hist);
            assert(slide::weight_sum(next) == slide::weight_sum(hist) + s.value);
            assert forall|i: int| 0 <= i < next.len() implies grid.first_cover(
                (#[trigger] next[i]).ts as int,
            ) <= grid.last_cover(next[i].ts as int) by {
                if i < hist.len() {
                    assert(next[i] == hist[i]);
                }
            }
            slide::lemma_weight_sum_nonneg(hist);
            let (a, b) = new_units(form, *grid, hist, s);
            assert((a + b) * 1 == a + b);
            assert(1 * (per_sample as int) == per_sample as int);
            assert((1 + 0) * unit_cost(form, per_sample) == unit_cost(form, per_sample));
            assert(0 * unit_cost(form, per_sample) == 0);
        }
        match &mut self.cells {
            MutCells::IntDeltas(m) => {
                let v: i64 = s.value as i64;
                let ghost m0 = m@;
                match touch(m, k_lo, v, 1, retained, cap) {
                    Ok(()) => {},
                    Err(e) => {
                        return Err(e);
                    },
                }
                let ghost m1 = m@;
                proof {
                    assert forall|i: int| 0 <= i < m1.len() implies -slide::weight_sum(next) <= (
                    #[trigger] m1[i]).1.dvalue <= slide::weight_sum(next) && -next.len()
                        <= m1[i].1.dcount <= next.len() by {}
                }
                match touch(m, k_hi + 1, -v, -1, retained, cap) {
                    Ok(()) => {},
                    Err(e) => {
                        return Err(e);
                    },
                }
                proof {
                    assert forall|k: int| #[trigger] has_key(m@, k) <==> touched(
                        *grid,
                        next,
                        k,
                    ) by {
                        lemma_touched_push(*grid, hist, s, k);
                        assert(has_key(m1, k) <==> has_key(m0, k) || k == k_lo);
                        assert(has_key(m0, k) <==> touched(*grid, hist, k));
                    }
                    assert forall|k: int| 0 <= k <= grid.kmax + 1 implies #[trigger] value_until(
                        m@,
                        k,
                    ) == slide::weight_sum(held(*grid, next, k)) by {
                        lemma_held_push(*grid, hist, s, k);
                        assert(held(*grid, hist, k).push(s).drop_last() =~= held(*grid, hist, k));
                        assert(value_until(m0, k) == slide::weight_sum(held(*grid, hist, k)));
                        assert(value_until(m1, k) == value_until(m0, k) + (if k_lo <= k {
                            v as int
                        } else {
                            0
                        }));
                    }
                    assert forall|k: int| 0 <= k <= grid.kmax + 1 implies #[trigger] count_until(
                        m@,
                        k,
                    ) == held(*grid, next, k).len() by {
                        lemma_held_push(*grid, hist, s, k);
                        assert(count_until(m0, k) == held(*grid, hist, k).len());
                        assert(count_until(m1, k) == count_until(m0, k) + (if k_lo <= k {
                            1int
                        } else {
                            0
                        }));
                    }
                    assert forall|i: int| 0 <= i < m@.len() implies 0 <= (#[trigger] m@[i]).0
                        <= grid.kmax + 1 by {
                        assert(has_key(m@, m@[i].0 as int));
                        assert(touched(*grid, next, m@[i].0 as int));
                        let j = choose|j: int|
                            0 <= j < next.len() && (grid.first_cover((#[trigger] next[j]).ts as int)
                                == m@[i].0 || grid.last_cover(next[j].ts as int) + 1 == m@[i].0);
                        grid.lemma_cover_run(next[j].ts as int);
                    }
                    assert forall|i: int| 0 <= i < m@.len() implies -slide::weight_sum(next) <= (
                    #[trigger] m@[i]).1.dvalue <= slide::weight_sum(next) && -next.len()
                        <= m@[i].1.dcount <= next.len() by {
                        if m@[i].0 == k_hi + 1 {
                            if exists|j: int|
                                0 <= j < m1.len() && m@[i].1.dvalue == (#[trigger] m1[j]).1.dvalue
                                    - v && m@[i].1.dcount == m1[j].1.dcount - 1 && m1[j].0 == k_hi
                                    + 1 {
                                let j = choose|j: int|
                                    0 <= j < m1.len() && m@[i].1.dvalue == (
                                    #[trigger] m1[j]).1.dvalue - v && m@[i].1.dcount
                                        == m1[j].1.dcount - 1 && m1[j].0 == k_hi + 1;
                                assert(m1[j].0 != k_lo);
                                assert(exists|l: int|
                                    0 <= l < m0.len() && m1[j] == #[trigger] m0[l]);
                            }
                        }
                    }
                }
            },
            MutCells::IntExpanded(m) => {
                let ghost m0 = m@;
                proof {
                    lemma_single_cover(*grid, s.ts as int);
                    lemma_held_sum(*grid, hist, k_lo as int);
                    assert(has_key(m0, k_lo as int) <==> held(*grid, hist, k_lo as int).len()
                        > 0);
                }
                let ghost i = index_map::place(m0, k_lo);
                match m.at(k_lo) {
                    Some(held_sum) => {
                        proof {
                            assert(m0[i].0 == k_lo);
                            assert(has_key(m0, k_lo as int));
                        }
                        let sum: u64 = held_sum + s.value;
                        m.put(k_lo, sum);
                        proof {
                            lemma_update_keys(m0, i, sum);
                        }
                    },
                    None => {
                        proof {
                            lemma_insert_keys(m0, i as int, k_lo, s.value);
                        }
                        match charge_retention(retained, 1, cap) {
                            Ok(()) => {},
                            Err(e) => {
                                return Err(e);
                            },
                        }
                        m.put(k_lo, s.value);
                    },
                }
                proof {
                    assert forall|k: int| 0 <= k <= grid.kmax implies (#[trigger] has_key(m@, k)
                        <==> held(*grid, next, k).len() > 0) by {
                        lemma_held_push(*grid, hist, s, k);
                        assert(has_key(m0, k) <==> held(*grid, hist, k).len() > 0);
                    }
                    assert forall|i: int| 0 <= i < m@.len() implies (#[trigger] m@[i]).1
                        == slide::weight_sum(held(*grid, next, m@[i].0 as int)) && 0 <= m@[i].0
                        <= grid.kmax by {
                        let k = m@[i].0 as int;
                        lemma_held_push(*grid, hist, s, k);
                        assert(held(*grid, hist, k).push(s).drop_last() =~= held(*grid, hist, k));
                        if k == k_lo {
                            if held(*grid, hist, k).len() == 0 {
                                assert(held(*grid, hist, k) =~= Seq::empty());
                            }
                        } else {
                            assert(has_key(m@, k));
                            assert(exists|j: int| 0 <= j < m0.len() && m@[i] == #[trigger] m0[j])
                                by {
                                if m@.len() == m0.len() {
                                    assert(m@[i] == m0[i]);
                                } else {
                                    let at = choose|at: int|
                                        0 <= at <= m0.len() && m@ == m0.insert(
                                            at,
                                            (k_lo, s.value),
                                        );
                                    if i < at {
                                        assert(m@[i] == m0[i]);
                                    } else {
                                        assert(m@[i] == m0[i - 1]);
                                    }
                                }
                            }
                        }
                    }
                }
            },
            MutCells::Samples(v) => {
                match charge_retention(retained, per_sample, cap) {
                    Ok(()) => {},
                    Err(e) => {
                        return Err(e);
                    },
                }
                v.push(s);
            },
        }
        self.hist = Ghost(next);
        Ok(())
    }
}

// ---------------------------------------------------------------------
// Draining a group.
// ---------------------------------------------------------------------

/// The order of samples: by time, then by stream, then by rank.
pub open spec fn win_le() -> spec_fn(WinSample, WinSample) -> bool {
    |a: WinSample, b: WinSample|
        a.ts < b.ts || (a.ts == b.ts && (a.stream_hash < b.stream_hash || (a.stream_hash
            == b.stream_hash && a.tie_rank <= b.tie_rank)))
}

impl Ranked for WinSample {
    open spec fn rank_le() -> spec_fn(Self, Self) -> bool {
        win_le()
    }

    proof fn rank_is_preorder() {
    }

    fn ranks_le(&self, other: &Self) -> (r: bool) {
        self.ts < other.ts || (self.ts == other.ts && (self.stream_hash < other.stream_hash || (
        self.stream_hash == other.stream_hash && self.tie_rank <= other.tie_rank)))
    }
}

/// The order in which a group's samples are reduced: any, for running integers.
pub open spec fn canonical(class: ReducerClass, hist: Seq<WinSample>) -> Seq<WinSample> {
    if class is InvertInteger {
        hist
    } else {
        order::stable_sort(hist, win_le())
    }
}

/// Samples that came in order are reduced as they came: a group then has the points
/// that a window sliding over its samples has.
pub proof fn law_samples_in_order_are_reduced_as_they_came(
    class: ReducerClass,
    hist: Seq<WinSample>,
)
    requires
        hist.len() <= usize::MAX,
        forall|i: int, j: int| 0 <= i <= j < hist.len() ==> win_le()(hist[i], hist[j]),
    ensures
        canonical(class, hist) == hist,
{
    WinSample::rank_is_preorder();
    assert forall|i: int, j: int| 0 <= i <= j < hist.len() implies win_le()(
        #[trigger] hist[i],
        #[trigger] hist[j],
    ) by {}
    order::lemma_stable_sort_of_sorted(hist, win_le());
}

/// Grid points whose windows are empty record nothing.
proof fn lemma_points_gap<F: Fn(&Reducer, u64, &[WinSample]) -> u64>(
    reduce: F,
    r: Reducer,
    grid: Grid,
    hist: Seq<WinSample>,
    a: int,
    b: int,
    points: Seq<(i64, u64)>,
)
    requires
        0 <= a <= b,
        slide::series_points(reduce, r, grid, hist, a, points),
        forall|k: int|
            a <= k < b ==> (#[trigger] slide::window_of(hist, grid.at(k), grid.range as int)).len() == 0,
    ensures
        slide::series_points(reduce, r, grid, hist, b, points),
    decreases b - a,
{
    if a < b {
        lemma_points_gap(reduce, r, grid, hist, a, b - 1, points);
        assert(slide::window_of(hist, grid.at(b - 1), grid.range as int).len() == 0);
    }
}

/// The points of a group that keeps each window's sum.
fn drain_expanded<F: Fn(&Reducer, u64, &[WinSample]) -> u64>(
    m: &Vec<(i64, u64)>,
    grid: &Grid,
    r: &Reducer,
    reduce: &F,
    Ghost(hist): Ghost<Seq<WinSample>>,
) -> (points: Vec<(i64, u64)>)
    requires
        grid.wf(),
        slide::reduces(*r),
        r.class is InvertInteger,
        keys_ascend(m@),
        forall|i: int| 0 <= i < m@.len() ==> 0 <= (#[trigger] m@[i]).0 <= grid.kmax,
        forall|k: int|
            0 <= k <= grid.kmax ==> (#[trigger] has_key(m@, k) <==> held(*grid, hist, k).len()
                > 0),
        forall|i: int|
            0 <= i < m@.len() ==> (#[trigger] m@[i]).1 == slide::weight_sum(
                held(*grid, hist, m@[i].0 as int),
            ),
        slide::takes_windows(*reduce),
    ensures
        slide::series_points(*reduce, *r, *grid, hist, grid.slots(), points@),
{
    let mut points: Vec<(i64, u64)> = Vec::new();
    let none: Vec<WinSample> = Vec::new();
    let mut i: usize = 0;
    let ghost mut done: int = 0;
    while i < m.len()
        invariant
            i <= m@.len(),
            grid.wf(),
            slide::reduces(*r),
            r.class is InvertInteger,
            keys_ascend(m@),
            none@.len() == 0,
            forall|i: int| 0 <= i < m@.len() ==> 0 <= (#[trigger] m@[i]).0 <= grid.kmax,
            forall|k: int|
                0 <= k <= grid.kmax ==> (#[trigger] has_key(m@, k) <==> held(
                    *grid,
                    hist,
                    k,
                ).len() > 0),
            forall|i: int|
                0 <= i < m@.len() ==> (#[trigger] m@[i]).1 == slide::weight_sum(
                    held(*grid, hist, m@[i].0 as int),
                ),
            slide::takes_windows(*reduce),
            done == (if i == 0 {
                0
            } else {
                m@[i - 1].0 + 1
            }),
            slide::series_points(*reduce, *r, *grid, hist, done, points@),
        decreases m@.len() - i,
    {
        let (k, sum) = m[i];
        let ghost before = points@;
        proof {
            assert forall|x: int| done <= x < k implies (#[trigger] slide::window_of(
                hist,
                grid.at(x),
                grid.range as int,
            )).len() == 0 by {
                lemma_held_is_window(*grid, hist, x);
                if has_key(m@, x) {
                    let j = choose|j: int| 0 <= j < m@.len() && #[trigger] m@[j].0 == x;
                    if j < i {
                        assert(m@[j].0 <= m@[i - 1].0);
                    }
                }
            }
            if i > 0 {
                assert(m@[i - 1].0 < m@[i as int].0);
            }
            lemma_points_gap(*reduce, *r, *grid, hist, done, k as int, points@);
            lemma_held_is_window(*grid, hist, k as int);
            assert(m@[i as int].0 == k);
            assert(has_key(m@, k as int));
        }
        let v: u64 = reduce(r, sum, none.as_slice());
        points.push((grid.point(k), v));
        proof {
            assert(points@.drop_last() =~= before);
            assert(slide::cell_ok(
                *reduce,
                *r,
                slide::window_of(hist, grid.at(k as int), grid.range as int),
                v,
            ));
            done = k + 1;
        }
        i = i + 1;
    }
    proof {
        assert forall|x: int| done <= x < grid.slots() implies (#[trigger] slide::window_of(
            hist,
            grid.at(x),
            grid.range as int,
        )).len() == 0 by {
            lemma_held_is_window(*grid, hist, x);
            if has_key(m@, x) {
                let j = choose|j: int| 0 <= j < m@.len() && #[trigger] m@[j].0 == x;
                assert(m@[j].0 <= m@[m@.len() - 1].0);
            }
        }
        lemma_points_gap(*reduce, *r, *grid, hist, done, grid.slots(), points@);
    }
    points
}

/// Between two neighbouring keys the running pair does not change.
proof fn lemma_until_run(m: Seq<(i64, IntDelta)>, i: int, k: int)
    requires
        keys_ascend(m),
        0 <= i <= m.len(),
        forall|j: int| 0 <= j < i ==> (#[trigger] m[j]).0 <= k,
        forall|j: int| i <= j < m.len() ==> (#[trigger] m[j]).0 > k,
    ensures
        value_until(m, k) == value_until(m.take(i), k),
        count_until(m, k) == count_until(m.take(i), k),
    decreases m.len(),
{
    if i == m.len() {
        assert(m.take(i) =~= m);
    } else {
        let n = m.drop_last();
        assert forall|j: int| 0 <= j < n.len() implies n[j] == m[j] by {}
        lemma_until_run(n, i, k);
        assert(n.take(i) =~= m.take(i));
    }
}

/// A later index does not change a sum whose keys all lie before it.
proof fn lemma_until_late(m: Seq<(i64, IntDelta)>, a: int, b: int)
    requires
        forall|j: int| 0 <= j < m.len() ==> (#[trigger] m[j]).0 <= a && m[j].0 <= b,
    ensures
        value_until(m, a) == value_until(m, b),
        count_until(m, a) == count_until(m, b),
    decreases m.len(),
{
    if m.len() > 0 {
        let n = m.drop_last();
        assert forall|j: int| 0 <= j < n.len() implies (#[trigger] n[j]).0 <= a && n[j].0 <= b by {
            assert(n[j] == m[j]);
        }
        lemma_until_late(n, a, b);
    }
}

/// The points of a group that keeps the changes between windows.
fn drain_deltas<F: Fn(&Reducer, u64, &[WinSample]) -> u64>(
    m: &Vec<(i64, IntDelta)>,
    grid: &Grid,
    r: &Reducer,
    reduce: &F,
    Ghost(hist): Ghost<Seq<WinSample>>,
) -> (points: Vec<(i64, u64)>)
    requires
        grid.wf(),
        slide::reduces(*r),
        r.class is InvertInteger,
        keys_ascend(m@),
        slide::weight_sum(hist) <= i64::MAX,
        hist.len() <= i64::MAX,
        forall|i: int| 0 <= i < m@.len() ==> 0 <= (#[trigger] m@[i]).0 <= grid.kmax + 1,
        forall|k: int|
            0 <= k <= grid.kmax + 1 ==> #[trigger] value_until(m@, k) == slide::weight_sum(
                held(*grid, hist, k),
            ),
        forall|k: int|
            0 <= k <= grid.kmax + 1 ==> #[trigger] count_until(m@, k) == held(
                *grid,
                hist,
                k,
            ).len(),
        slide::takes_windows(*reduce),
    ensures
        slide::series_points(*reduce, *r, *grid, hist, grid.slots(), points@),
{
    let mut points: Vec<(i64, u64)> = Vec::new();
    let none: Vec<WinSample> = Vec::new();
    let mut run_value: i64 = 0;
    let mut run_count: i64 = 0;
    let mut i: usize = 0;
    // Every index before `done` has been recorded.
    let mut done: i64 = if m.len() == 0 {
        grid.kmax + 1
    } else if m[0].0 <= grid.kmax + 1 {
        m[0].0
    } else {
        grid.kmax + 1
    };
    proof {
        assert forall|x: int| 0 <= x < done && x < grid.slots() implies (#[trigger] slide::window_of(
            hist,
            grid.at(x),
            grid.range as int,
        )).len() == 0 by {
            lemma_held_is_window(*grid, hist, x);
            assert forall|j: int| 0 <= j < m@.len() implies (#[trigger] m@[j]).0 > x by {
                assert(m@[0].0 <= m@[j].0);
            }
            lemma_until_run(m@, 0, x);
            assert(m@.take(0) =~= Seq::empty());
            assert(count_until(m@, x) == 0);
        }
        lemma_points_gap(*reduce, *r, *grid, hist, 0, done as int, points@);
        assert(m@.take(0) =~= Seq::empty());
    }
    while i < m.len()
        invariant
            i <= m@.len(),
            grid.wf(),
            slide::reduces(*r),
            r.class is InvertInteger,
            keys_ascend(m@),
            slide::weight_sum(hist) <= i64::MAX,
            hist.len() <= i64::MAX,
            none@.len() == 0,
            forall|i: int| 0 <= i < m@.len() ==> 0 <= (#[trigger] m@[i]).0 <= grid.kmax + 1,
            forall|k: int|
                0 <= k <= grid.kmax + 1 ==> #[trigger] value_until(m@, k) == slide::weight_sum(
                    held(*grid, hist, k),
                ),
            forall|k: int|
                0 <= k <= grid.kmax + 1 ==> #[trigger] count_until(m@, k) == held(
                    *grid,
                    hist,
                    k,
                ).len(),
            slide::takes_windows(*reduce),
            done == (if i < m@.len() {
                m@[i as int].0 as int
            } else {
                grid.kmax + 1
            }),
            0 <= done <= grid.kmax + 1,
            run_value == value_until(m@.take(i as int), grid.kmax + 1),
            run_count == count_until(m@.take(i as int), grid.kmax + 1),
            slide::series_points(*reduce, *r, *grid, hist, done as int, points@),
        decreases m@.len() - i,
    {
        let (k, d) = m[i];
        let ghost next = m@.take(i + 1);
        proof {
            assert(next.drop_last() =~= m@.take(i as int));
            assert(next.last() == m@[i as int]);
            assert(m@[i as int] == (k, d));
            assert forall|j: int| 0 <= j < next.len() implies (#[trigger] next[j]).0 <= k by {
                assert(next[j] == m@[j]);
            }
            assert forall|j: int| 0 <= j < next.len() implies (#[trigger] next[j]).0 <= k
                && next[j].0 <= grid.kmax + 1 by {}
            lemma_until_late(next, k as int, grid.kmax + 1);
            lemma_until_run(m@, i + 1, k as int);
            lemma_held_sum(*grid, hist, k as int);
        }
        run_value = run_value + d.dvalue;
        run_count = run_count + d.dcount;
        let end: i64 = if i + 1 < m.len() {
            m[i + 1].0
        } else {
            grid.kmax + 1
        };
        proof {
            assert(k <= end) by {
                if i + 1 < m@.len() {
                    assert(m@[i as int].0 < m@[i + 1].0);
                }
            }
            // What the running pair says of every index up to the next key.
            assert forall|x: int| k <= x < end implies #[trigger] held(*grid, hist, x).len()
                == run_count && slide::weight_sum(held(*grid, hist, x)) == run_value by {
                assert forall|j: int| i + 1 <= j < m@.len() implies (#[trigger] m@[j]).0 > x by {
                    assert(m@[i + 1].0 <= m@[j].0);
                }
                assert forall|j: int| 0 <= j < i + 1 implies (#[trigger] m@[j]).0 <= x by {
                    assert(m@[j].0 <= m@[i as int].0);
                }
                lemma_until_run(m@, i + 1, x);
                assert forall|j: int| 0 <= j < next.len() implies (#[trigger] next[j]).0 <= x
                    && next[j].0 <= grid.kmax + 1 by {}
                lemma_until_late(next, x, grid.kmax + 1);
                assert(value_until(m@, x) == slide::weight_sum(held(*grid, hist, x)));
                assert(count_until(m@, x) == held(*grid, hist, x).len());
            }
        }
        if run_count <= 0 {
            proof {
                assert forall|x: int| done <= x < end implies (#[trigger] slide::window_of(
                    hist,
                    grid.at(x),
                    grid.range as int,
                )).len() == 0 by {
                    lemma_held_is_window(*grid, hist, x);
                    assert(held(*grid, hist, x).len() == run_count);
                }
                lemma_points_gap(*reduce, *r, *grid, hist, done as int, end as int, points@);
            }
        } else {
            let run_int: u64 = if run_value >= 0 {
                run_value as u64
            } else {
                0
            };
            let v: u64 = reduce(r, run_int, none.as_slice());
            let mut cell: i64 = k;
            while cell < end
                invariant
                    grid.wf(),
                    r.class is InvertInteger,
                    none@.len() == 0,
                    0 <= k <= cell <= end <= grid.kmax + 1,
                    run_count > 0,
                    run_int == run_value,
                    forall|x: int|
                        k <= x < end ==> #[trigger] held(*grid, hist, x).len() == run_count
                            && slide::weight_sum(held(*grid, hist, x)) == run_value,
                    exists|e: &[WinSample]|
                        e@.len() == 0 && #[trigger] call_ensures(*reduce, (r, run_int, e), v),
                    slide::series_points(*reduce, *r, *grid, hist, cell as int, points@),
                decreases end - cell,
            {
                let ghost before = points@;
                proof {
                    assert(held(*grid, hist, cell as int).len() == run_count);
                    lemma_held_is_window(*grid, hist, cell as int);
                }
                points.push((grid.point(cell), v));
                proof {
                    assert(points@.drop_last() =~= before);
                    assert(slide::cell_ok(
                        *reduce,
                        *r,
                        slide::window_of(hist, grid.at(cell as int), grid.range as int),
                        v,
                    ));
                }
                cell = cell + 1;
            }
        }
        done = end;
        i = i + 1;
    }
    points
}

/// The points of a group that keeps its samples, given in order: two ends of a
/// window move over them, and grid points past a gap are skipped in one step.
fn drain_samples<F: Fn(&Reducer, u64, &[WinSample]) -> u64>(
    samples: &Vec<WinSample>,
    grid: &Grid,
    r: &Reducer,
    reduce: &F,
) -> (points: Vec<(i64, u64)>)
    requires
        grid.wf(),
        slide::reduces(*r),
        !(r.class is InvertInteger),
        slide::ascending(samples@),
        slide::takes_windows(*reduce),
    ensures
        slide::series_points(*reduce, *r, *grid, samples@, grid.slots(), points@),
{
    let ghost hist = samples@;
    let mut points: Vec<(i64, u64)> = Vec::new();
    let mut lo: usize = 0;
    let mut hi: usize = 0;
    let mut k: i64 = 0;
    while k <= grid.kmax
        invariant
            grid.wf(),
            slide::reduces(*r),
            !(r.class is InvertInteger),
            hist == samples@,
            slide::ascending(hist),
            0 <= k <= grid.kmax + 1,
            lo <= hi <= hist.len(),
            forall|i: int| 0 <= i < hi ==> (#[trigger] hist[i]).ts <= grid.at(k as int),
            forall|i: int|
                0 <= i < lo ==> (#[trigger] hist[i]).ts <= grid.at(k as int) - grid.range,
            slide::series_points(*reduce, *r, *grid, hist, k as int, points@),
            slide::takes_windows(*reduce),
        decreases grid.kmax + 1 - k,
    {
        let t: i64 = grid.point(k);
        while hi < samples.len() && samples[hi].ts <= t
            invariant
                hist == samples@,
                t == grid.at(k as int),
                lo <= hi <= hist.len(),
                forall|i: int| 0 <= i < hi ==> (#[trigger] hist[i]).ts <= t,
            decreases hist.len() - hi,
        {
            hi = hi + 1;
        }
        let bound: Option<i64> = t.checked_sub(grid.range);
        match bound {
            Some(b) => {
                while lo < hi && samples[lo].ts <= b
                    invariant
                        hist == samples@,
                        b == grid.at(k as int) - grid.range,
                        lo <= hi <= hist.len(),
                        forall|i: int| 0 <= i < lo ==> (#[trigger] hist[i]).ts <= b,
                    decreases hi - lo,
                {
                    lo = lo + 1;
                }
            },
            None => {
                proof {
                    if lo > 0 {
                        assert(hist[0].ts <= grid.at(k as int) - grid.range);
                    }
                }
            },
        }
        proof {
            let p = |s: WinSample| grid.at(k as int) - grid.range < s.ts <= grid.at(k as int);
            assert forall|i: int| 0 <= i < hist.len() implies (#[trigger] p(hist[i]) <==> lo <= i
                < hi) by {
                if i >= hi {
                    assert(hist[hi as int].ts <= hist[i].ts);
                }
                if lo <= i < hi {
                    assert(hist[lo as int].ts <= hist[i].ts);
                }
            }
            slide::lemma_filter_run(hist, p, lo as int, hi as int);
            assert(slide::window_of(hist, grid.at(k as int), grid.range as int) == hist.subrange(
                lo as int,
                hi as int,
            ));
            grid.lemma_at_monotone(k as int, k + 1);
        }
        if lo < hi {
            let ghost before = points@;
            let held = vstd::slice::slice_subrange(samples.as_slice(), lo, hi);
            proof {
                assert(slide::ascending(held@));
            }
            let v: u64 = reduce(r, 0, held);
            points.push((t, v));
            proof {
                assert(points@.drop_last() =~= before);
                assert(slide::cell_ok(
                    *reduce,
                    *r,
                    slide::window_of(hist, grid.at(k as int), grid.range as int),
                    v,
                ));
            }
            k = k + 1;
        } else if hi < samples.len() {
            let ahead: i64 = grid.covering_k(samples[hi].ts).0;
            let next: i64 = if ahead > k {
                ahead
            } else {
                k + 1
            };
            proof {
                let ts = hist[hi as int].ts as int;
                assert forall|x: int| k <= x < next implies (#[trigger] slide::window_of(
                    hist,
                    grid.at(x),
                    grid.range as int,
                )).len() == 0 by {
                    grid.lemma_at_monotone(k as int, x);
                    if x > k {
                        crate::window::lemma_ceil_div_reach(ts - grid.start, grid.step as int, x);
                    }
                    let p = |s: WinSample| grid.at(x) - grid.range < s.ts <= grid.at(x);
                    assert forall|i: int| 0 <= i < hist.len() implies (#[trigger] p(hist[i])
                        <==> 0 <= i < 0) by {
                        if i >= hi {
                            assert(hist[hi as int].ts <= hist[i].ts);
                        }
                    }
                    slide::lemma_filter_run(hist, p, 0, 0);
                }
                lemma_points_gap(*reduce, *r, *grid, hist, k as int, next as int, points@);
                grid.lemma_at_monotone(k as int, next as int);
            }
            k = next;
        } else {
            proof {
                assert forall|x: int| k <= x < grid.slots() implies (#[trigger] slide::window_of(
                    hist,
                    grid.at(x),
                    grid.range as int,
                )).len() == 0 by {
                    grid.lemma_at_monotone(k as int, x);
                    let p = |s: WinSample| grid.at(x) - grid.range < s.ts <= grid.at(x);
                    assert forall|i: int| 0 <= i < hist.len() implies (#[trigger] p(hist[i])
                        <==> 0 <= i < 0) by {}
                    slide::lemma_filter_run(hist, p, 0, 0);
                }
                lemma_points_gap(*reduce, *r, *grid, hist, k as int, grid.slots(), points@);
            }
            return points;
        }
    }
    points
}

impl MutGroup {
    /// Turns the group into its labels and points: one point for each window that
    /// holds a sample, reduced over the group's samples in order.
    pub fn drain<F: Fn(&Reducer, u64, &[WinSample]) -> u64>(
        self,
        grid: &Grid,
        r: &Reducer,
        reduce: &F,
    ) -> (out: (Vec<(String, String)>, Vec<(i64, u64)>))
        requires
            grid.wf(),
            slide::reduces(*r),
            self.wf(r.class, *grid),
            r.class is InvertInteger ==> slide::weight_sum(self.hist@) <= i64::MAX,
            self.hist@.len() <= i64::MAX,
            slide::takes_windows(*reduce),
        ensures
            out.0 == self.labels,
            slide::series_points(
                *reduce,
                *r,
                *grid,
                canonical(r.class, self.hist@),
                grid.slots(),
                out.1@,
            ),
    {
        let ghost hist = self.hist@;
        let MutGroup { labels, cells, .. } = self;
        let points = match cells {
            MutCells::IntExpanded(m) => drain_expanded(&m.sorted(), grid, r, reduce, Ghost(hist)),
            MutCells::IntDeltas(m) => drain_deltas(&m.sorted(), grid, r, reduce, Ghost(hist)),
            MutCells::Samples(v) => {
                proof {
                    WinSample::rank_is_preorder();
                    assert(v@.len() == v.len());
                    order::lemma_stable_sort_ascends(v@, win_le());
                    let sorted = order::stable_sort(v@, win_le());
                    assert forall|i: int, j: int| 0 <= i <= j < sorted.len() implies sorted[i].ts
                        <= sorted[j].ts by {
                        assert(win_le()(sorted[i], sorted[j]));
                    }
                }
                let sorted = stable_sorted(v);
                drain_samples(&sorted, grid, r, reduce)
            },
        };
        (labels, points)
    }
}

impl MutGroup {
    /// What the group's entries are charged for.
    pub(crate) fn held(
        &self,
        per_sample: u64,
        Ghost(form): Ghost<CellForm>,
        Ghost(bound): Ghost<u64>,
    ) -> (n: u64)
        requires
            self.cells.units() * unit_cost(form, per_sample) <= bound,
            self.cells is Samples <==> form is Samples,
            match self.cells {
                MutCells::IntExpanded(m) => m.wf(),
                MutCells::IntDeltas(m) => m.wf(),
                MutCells::Samples(_) => true,
            },
        ensures
            n == self.cells.units() * unit_cost(form, per_sample),
    {
        match &self.cells {
            MutCells::IntExpanded(m) => m.len() as u64,
            MutCells::IntDeltas(m) => m.len() as u64,
            MutCells::Samples(v) => v.len() as u64 * per_sample,
        }
    }
}

} // verus!
