//! Sliding windows over one stream.
//!
//! A window of width `range` ends on each grid point `t` and holds the samples in
//! `(t - range, t]`. [`FpSlide`] takes one stream's samples in time order and
//! records the reduced value of every window that holds any.
use std::collections::VecDeque;
use vstd::prelude::*;
use crate::charge::{charge_retention, discharge_retention};
use crate::error::{ErrorView, ReadError, TooBroadReason};
use crate::model::{ClientValue, MatrixSeries, RangeAggOp};
use crate::text::{self, LabelSet};
use crate::window::Grid;

verus! {

/// How the value of a window is kept up to date.
#[derive(Debug, Clone, Copy, PartialEq, Eq, Structural)]
pub enum ReducerClass {
    /// A running integer: added to as samples arrive, subtracted from as they
    /// leave.
    InvertInteger,
    /// Reduced anew for each window, whatever the order of its samples.
    ReduceIndependent,
    /// Reduced anew for each window, in the order of its samples.
    CanonicalFold,
}

/// The class of a reducer.
pub open spec fn class_of(op: RangeAggOp, value: ClientValue) -> ReducerClass {
    match op {
        RangeAggOp::CountOverTime => ReducerClass::InvertInteger,
        RangeAggOp::BytesOverTime => ReducerClass::InvertInteger,
        RangeAggOp::BytesRate => ReducerClass::InvertInteger,
        RangeAggOp::Rate => if value is Unwrap {
            ReducerClass::CanonicalFold
        } else {
            ReducerClass::InvertInteger
        },
        RangeAggOp::RateCounter => ReducerClass::CanonicalFold,
        RangeAggOp::SumOverTime => ReducerClass::CanonicalFold,
        RangeAggOp::AvgOverTime => ReducerClass::CanonicalFold,
        RangeAggOp::StddevOverTime => ReducerClass::CanonicalFold,
        RangeAggOp::StdvarOverTime => ReducerClass::CanonicalFold,
        RangeAggOp::MinOverTime => ReducerClass::ReduceIndependent,
        RangeAggOp::MaxOverTime => ReducerClass::ReduceIndependent,
        RangeAggOp::QuantileOverTime => ReducerClass::ReduceIndependent,
        RangeAggOp::FirstOverTime => ReducerClass::ReduceIndependent,
        RangeAggOp::LastOverTime => ReducerClass::ReduceIndependent,
        RangeAggOp::AbsentOverTime => ReducerClass::ReduceIndependent,
    }
}

/// The class of a reducer.
pub fn reducer_class(op: RangeAggOp, value: ClientValue) -> (c: ReducerClass)
    ensures
        c == class_of(op, value),
{
    match op {
        RangeAggOp::CountOverTime | RangeAggOp::BytesOverTime | RangeAggOp::BytesRate => {
            ReducerClass::InvertInteger
        },
        RangeAggOp::Rate => {
            if matches!(value, ClientValue::Unwrap) {
                ReducerClass::CanonicalFold
            } else {
                ReducerClass::InvertInteger
            }
        },
        RangeAggOp::RateCounter
        | RangeAggOp::SumOverTime
        | RangeAggOp::AvgOverTime
        | RangeAggOp::StddevOverTime
        | RangeAggOp::StdvarOverTime => ReducerClass::CanonicalFold,
        RangeAggOp::MinOverTime
        | RangeAggOp::MaxOverTime
        | RangeAggOp::QuantileOverTime
        | RangeAggOp::FirstOverTime
        | RangeAggOp::LastOverTime
        | RangeAggOp::AbsentOverTime => ReducerClass::ReduceIndependent,
    }
}

/// A reducer with its parameters.
#[derive(Debug, Clone, Copy, PartialEq, Eq, Structural)]
pub struct Reducer {
    pub op: RangeAggOp,
    pub class: ReducerClass,
    pub value: ClientValue,
    /// The bit pattern of the parameter, where the reducer takes one.
    pub param: Option<u64>,
    /// The width that a rate divides by.
    pub rate_window_ns: Option<u64>,
}

/// One retained sample.
#[derive(Debug, Clone, Copy, PartialEq, Eq, Structural)]
pub struct WinSample {
    pub ts: i64,
    pub stream_hash: u64,
    /// The rank among the stream's samples at this nanosecond.
    pub tie_rank: u32,
    /// A number of lines or bytes, or the bit pattern of an unwrapped number.
    pub value: u64,
}

/// The samples of the window `(t - range, t]`.
pub open spec fn window_of(hist: Seq<WinSample>, t: int, range: int) -> Seq<WinSample> {
    hist.filter(|s: WinSample| t - range < s.ts <= t)
}

/// The sum of integer samples.
pub open spec fn weight_sum(w: Seq<WinSample>) -> int
    decreases w.len(),
{
    if w.len() == 0 {
        0
    } else {
        weight_sum(w.drop_last()) + w.last().value
    }
}

/// Whether a reducer makes values of windows.
pub open spec fn reduces(r: Reducer) -> bool {
    r.class == class_of(r.op, r.value) && !(r.op is AbsentOverTime)
}

/// Whether a reducer makes a value of a window: it does of samples in time order,
/// and of no samples where a running integer stands for them.
pub open spec fn reducible(r: Reducer, w: Seq<WinSample>) -> bool {
    &&& reduces(r)
    &&& ascending(w)
    &&& w.len() > 0 || r.class is InvertInteger
}

/// Whether a function takes every window that a reducer makes a value of.
pub open spec fn takes_windows<F: Fn(&Reducer, u64, &[WinSample]) -> u64>(reduce: F) -> bool {
    forall|r: &Reducer, n: u64, s: &[WinSample]|
        reducible(*r, s@) ==> #[trigger] call_requires(reduce, (r, n, s))
}

/// Whether `v` is what `reduce` makes of a window: of its integer sum for the
/// running-integer class, of its samples in order for the others.
pub open spec fn cell_ok<F: Fn(&Reducer, u64, &[WinSample]) -> u64>(
    reduce: F,
    r: Reducer,
    w: Seq<WinSample>,
    v: u64,
) -> bool {
    if r.class is InvertInteger {
        exists|none: &[WinSample]|
            none@.len() == 0 && #[trigger] call_ensures(
                reduce,
                (&r, weight_sum(w) as u64, none),
                v,
            )
    } else {
        exists|all: &[WinSample]|
            all@ == w && #[trigger] call_ensures(reduce, (&r, 0u64, all), v)
    }
}

/// Whether `points` are the windows of the first `k` grid points that hold any of
/// `hist`, each with its grid point and its reduced value, in time order.
pub open spec fn series_points<F: Fn(&Reducer, u64, &[WinSample]) -> u64>(
    reduce: F,
    r: Reducer,
    grid: Grid,
    hist: Seq<WinSample>,
    k: int,
    points: Seq<(i64, u64)>,
) -> bool
    decreases k,
{
    if k <= 0 {
        points.len() == 0
    } else {
        let w = window_of(hist, grid.at(k - 1), grid.range as int);
        if w.len() == 0 {
            series_points(reduce, r, grid, hist, k - 1, points)
        } else {
            &&& points.len() > 0
            &&& points.last().0 == grid.at(k - 1)
            &&& cell_ok(reduce, r, w, points.last().1)
            &&& series_points(reduce, r, grid, hist, k - 1, points.drop_last())
        }
    }
}

/// Where a reduction gives one answer, a history has one list of windows: however it
/// was come by, it is the same.
pub proof fn law_windows_are_determined<F: Fn(&Reducer, u64, &[WinSample]) -> u64>(
    reduce: F,
    r: Reducer,
    grid: Grid,
    hist: Seq<WinSample>,
    k: int,
    a: Seq<(i64, u64)>,
    b: Seq<(i64, u64)>,
)
    requires
        forall|w: Seq<WinSample>, x: u64, y: u64| #[trigger]
            cell_ok(reduce, r, w, x) && #[trigger] cell_ok(reduce, r, w, y) ==> x == y,
        series_points(reduce, r, grid, hist, k, a),
        series_points(reduce, r, grid, hist, k, b),
    ensures
        a == b,
    decreases k,
{
    if k > 0 {
        let w = window_of(hist, grid.at(k - 1), grid.range as int);
        if w.len() == 0 {
            law_windows_are_determined(reduce, r, grid, hist, k - 1, a, b);
        } else {
            law_windows_are_determined(
                reduce,
                r,
                grid,
                hist,
                k - 1,
                a.drop_last(),
                b.drop_last(),
            );
            assert(cell_ok(reduce, r, w, a.last().1) && cell_ok(reduce, r, w, b.last().1));
            assert(a.last() == b.last());
            assert(a =~= a.drop_last().push(a.last()));
            assert(b =~= b.drop_last().push(b.last()));
        }
    } else {
        assert(a =~= b);
    }
}

/// Samples in time order.
pub open spec fn ascending(hist: Seq<WinSample>) -> bool {
    forall|i: int, j: int| 0 <= i <= j < hist.len() ==> hist[i].ts <= hist[j].ts
}

// ---------------------------------------------------------------------
// Facts about windows.
// ---------------------------------------------------------------------

/// Filtering by a predicate that holds on one run of positions picks that run.
pub proof fn lemma_filter_run<A>(s: Seq<A>, p: spec_fn(A) -> bool, lo: int, hi: int)
    requires
        0 <= lo <= hi <= s.len(),
        forall|i: int| 0 <= i < s.len() ==> (#[trigger] p(s[i]) <==> lo <= i < hi),
    ensures
        s.filter(p) == s.subrange(lo, hi),
    decreases s.len(),
{
    reveal(Seq::filter);
    if s.len() > 0 {
        let t = s.drop_last();
        assert forall|i: int| 0 <= i < t.len() implies (#[trigger] p(t[i]) <==> lo <= i < (
        if hi == s.len() && lo < hi {
            hi - 1
        } else {
            hi
        })) by {
            assert(t[i] == s[i]);
        }
        assert(p(s[s.len() - 1]) <==> lo <= s.len() - 1 < hi);
        if hi == s.len() && lo < hi {
            lemma_filter_run(t, p, lo, hi - 1);
            assert(s.subrange(lo, hi) =~= t.subrange(lo, hi - 1).push(s.last()));
        } else if lo == s.len() {
            lemma_filter_run(t, p, t.len() as int, t.len() as int);
            assert(s.subrange(lo, hi) =~= t.subrange(t.len() as int, t.len() as int));
        } else {
            lemma_filter_run(t, p, lo, hi);
            assert(s.subrange(lo, hi) =~= t.subrange(lo, hi));
        }
    } else {
        assert(s.subrange(lo, hi) =~= s);
    }
}

/// Samples outside a window do not change it when appended.
pub proof fn lemma_window_append(a: Seq<WinSample>, b: Seq<WinSample>, t: int, range: int)
    requires
        forall|i: int| 0 <= i < b.len() ==> !(t - range < (#[trigger] b[i]).ts <= t),
    ensures
        window_of(a + b, t, range) == window_of(a, t, range),
{
    let p = |s: WinSample| t - range < s.ts <= t;
    Seq::filter_distributes_over_add(a, b, p);
    assert forall|i: int| 0 <= i < b.len() implies (#[trigger] p(b[i]) <==> 0 <= i < 0) by {}
    lemma_filter_run(b, p, 0, 0);
    assert(a.filter(p) + b.subrange(0, 0) =~= a.filter(p));
}

/// Later samples do not change the points recorded before them.
pub proof fn lemma_series_points_append<F: Fn(&Reducer, u64, &[WinSample]) -> u64>(
    reduce: F,
    r: Reducer,
    grid: Grid,
    a: Seq<WinSample>,
    b: Seq<WinSample>,
    k: int,
    points: Seq<(i64, u64)>,
)
    requires
        grid.wf(),
        series_points(reduce, r, grid, a, k, points),
        forall|i: int| 0 <= i < b.len() ==> k > 0 ==> (#[trigger] b[i]).ts > grid.at(k - 1),
    ensures
        series_points(reduce, r, grid, a + b, k, points),
    decreases k,
{
    if k > 0 {
        lemma_window_append(a, b, grid.at(k - 1), grid.range as int);
        grid.lemma_at_monotone(k - 2, k - 1);
        if window_of(a, grid.at(k - 1), grid.range as int).len() == 0 {
            lemma_series_points_append(reduce, r, grid, a, b, k - 1, points);
        } else {
            lemma_series_points_append(reduce, r, grid, a, b, k - 1, points.drop_last());
        }
    }
}

/// Sums split where sequences join.
pub proof fn lemma_weight_sum_join(a: Seq<WinSample>, b: Seq<WinSample>)
    ensures
        weight_sum(a + b) == weight_sum(a) + weight_sum(b),
    decreases b.len(),
{
    if b.len() == 0 {
        assert(a + b =~= a);
    } else {
        assert((a + b).drop_last() =~= a + b.drop_last());
        lemma_weight_sum_join(a, b.drop_last());
    }
}

/// A sum of integers is not negative, and no part exceeds the whole.
pub proof fn lemma_weight_sum_part(s: Seq<WinSample>, lo: int, hi: int)
    requires
        0 <= lo <= hi <= s.len(),
    ensures
        0 <= weight_sum(s.subrange(lo, hi)) <= weight_sum(s),
{
    let (a, b, c) = (s.subrange(0, lo), s.subrange(lo, hi), s.subrange(hi, s.len() as int));
    assert(s =~= a + b + c);
    lemma_weight_sum_join(a + b, c);
    lemma_weight_sum_join(a, b);
    lemma_weight_sum_nonneg(a);
    lemma_weight_sum_nonneg(b);
    lemma_weight_sum_nonneg(c);
}

pub proof fn lemma_weight_sum_nonneg(s: Seq<WinSample>)
    ensures
        weight_sum(s) >= 0,
    decreases s.len(),
{
    if s.len() > 0 {
        lemma_weight_sum_nonneg(s.drop_last());
    }
}

// ---------------------------------------------------------------------
// The slider.
// ---------------------------------------------------------------------

/// The index of the first grid point not yet passed when `hist` has been read.
pub open spec fn frontier(grid: Grid, hist: Seq<WinSample>) -> int {
    if hist.len() == 0 {
        0
    } else {
        grid.first_cover(hist.last().ts as int)
    }
}

/// Where the samples start that a later window may still hold, once the first `k`
/// grid points have been passed.
pub open spec fn is_live_from(grid: Grid, hist: Seq<WinSample>, k: int, from: int) -> bool {
    &&& 0 <= from <= hist.len()
    &&& k == 0 ==> from == 0
    &&& forall|i: int|
        0 <= i < hist.len() && k > 0 ==> (i < from <==> (#[trigger] hist[i]).ts <= grid.at(k - 1)
            - grid.range)
}

/// The samples that a window may still hold once the first `k` grid points have
/// been passed.
pub open spec fn live(grid: Grid, hist: Seq<WinSample>, k: int) -> Seq<WinSample> {
    if k <= 0 {
        hist
    } else {
        hist.filter(|s: WinSample| s.ts > grid.at(k - 1) - grid.range)
    }
}

pub proof fn lemma_live_from(grid: Grid, hist: Seq<WinSample>, k: int, from: int)
    requires
        is_live_from(grid, hist, k, from),
        k >= 0,
    ensures
        live(grid, hist, k) == hist.skip(from),
{
    if k == 0 {
        assert(hist.skip(0) =~= hist);
    } else {
        let p = |s: WinSample| s.ts > grid.at(k - 1) - grid.range;
        assert forall|i: int| 0 <= i < hist.len() implies (#[trigger] p(hist[i]) <==> from <= i
            < hist.len()) by {}
        lemma_filter_run(hist, p, from, hist.len() as int);
        assert(hist.skip(from) =~= hist.subrange(from, hist.len() as int));
    }
}

/// The first of `n` equal charges on top of `base` that goes past `cap`: what the
/// counter would have come to.
pub open spec fn first_over(base: int, each: int, n: int, cap: int) -> Option<int>
    decreases n,
{
    if n <= 0 {
        None
    } else if first_over(base, each, n - 1, cap) is Some {
        first_over(base, each, n - 1, cap)
    } else if base + n * each > cap {
        Some(base + n * each)
    } else {
        None
    }
}

/// Once one of the charges has gone past the cap, that stays the first.
proof fn lemma_first_over_stays(base: int, each: int, m: int, n: int, cap: int)
    requires
        m <= n,
        first_over(base, each, m, cap) is Some,
    ensures
        first_over(base, each, n, cap) == first_over(base, each, m, cap),
    decreases n - m,
{
    if m < n {
        lemma_first_over_stays(base, each, m, n - 1, cap);
        if n <= 0 {
            assert(first_over(base, each, m, cap) is None);
        }
    }
}

/// One line of a stream's lines at one nanosecond.
#[derive(Debug)]
pub struct CollMember {
    /// The line, where the order within the nanosecond matters.
    pub body: String,
    pub value: u64,
    /// The rendered and the plain labels, where lines are grouped by them.
    pub out: Option<(String, LabelSet)>,
}

/// The samples that a stream's lines at one nanosecond make.
pub open spec fn ranked(values: Seq<u64>, ts: i64, stream_hash: u64) -> Seq<WinSample> {
    Seq::new(
        values.len(),
        |i: int| WinSample { ts, stream_hash, tie_rank: i as u32, value: values[i] },
    )
}

/// The values of a stream's lines at one nanosecond.
pub open spec fn member_values(members: Seq<CollMember>) -> Seq<u64> {
    members.map_values(|m: CollMember| m.value)
}

/// One stream's sliding window.
pub struct FpSlide {
    pub stream_hash: u64,
    pub labels: LabelSet,
    pub reducer: Reducer,
    pub grid: Grid,
    /// The next grid point to record.
    pub next_k: i64,
    /// The samples a later window may still hold.
    pub win: VecDeque<WinSample>,
    /// The sum of `win`, for the running-integer class.
    pub run_int: u64,
    /// The points one retained sample costs.
    pub per_sample: u64,
    pub points: Vec<(i64, u64)>,
    /// Every sample read.
    pub hist: Ghost<Seq<WinSample>>,
    /// How many of them have left the window for good.
    pub gone: Ghost<int>,
}

/// The samples of `win` as one slice. This is `VecDeque::make_contiguous`, which
/// moves the elements into one run and changes neither them nor their order.
#[verifier::external_body]
fn contiguous(win: &mut VecDeque<WinSample>) -> (s: &[WinSample])
    ensures
        s@ == old(win)@,
        final(win)@ == old(win)@,
{
    win.make_contiguous()
}

impl FpSlide {
    /// What holds between calls: the recorded points are those of every sample
    /// read, and the window holds exactly the samples still needed.
    pub open spec fn wf<F: Fn(&Reducer, u64, &[WinSample]) -> u64>(&self, reduce: F) -> bool {
        &&& self.grid.wf()
        &&& reduces(self.reducer)
        &&& 0 <= self.next_k <= self.grid.kmax + 1
        &&& ascending(self.hist@)
        &&& self.next_k <= self.grid.kmax ==> forall|i: int|
            0 <= i < self.hist@.len() ==> (#[trigger] self.hist@[i]).ts <= self.grid.at(
                self.next_k as int,
            )
        &&& is_live_from(self.grid, self.hist@, self.next_k as int, self.gone@)
        &&& self.win@ == self.hist@.skip(self.gone@)
        &&& self.reducer.class is InvertInteger ==> {
            &&& self.run_int == weight_sum(self.win@)
            &&& weight_sum(self.hist@) <= i64::MAX
        }
        &&& series_points(
            reduce,
            self.reducer,
            self.grid,
            self.hist@,
            self.next_k as int,
            self.points@,
        )
    }

    /// A stream of which nothing has been read.
    pub open spec fn fresh(&self) -> bool {
        &&& self.next_k == 0
        &&& self.win@ == Seq::<WinSample>::empty()
        &&& self.run_int == 0
        &&& self.points@ == Seq::<(i64, u64)>::empty()
        &&& self.hist@ == Seq::<WinSample>::empty()
        &&& self.gone@ == 0
    }

    /// Starts a stream.
    pub fn new(
        stream_hash: u64,
        labels: LabelSet,
        reducer: Reducer,
        grid: Grid,
        per_sample: u64,
    ) -> (s: FpSlide)
        ensures
            s.fresh(),
            s.stream_hash == stream_hash,
            s.labels == labels,
            s.reducer == reducer,
            s.grid == grid,
            s.per_sample == per_sample,
    {
        FpSlide {
            stream_hash,
            labels,
            reducer,
            grid,
            next_k: 0,
            win: VecDeque::new(),
            run_int: 0,
            per_sample,
            points: Vec::new(),
            hist: Ghost(Seq::empty()),
            gone: Ghost(0),
        }
    }

    /// A fresh stream is in order, whatever arithmetic it will be used with.
    pub proof fn lemma_fresh_wf<F: Fn(&Reducer, u64, &[WinSample]) -> u64>(&self, reduce: F)
        requires
            self.fresh(),
            self.grid.wf(),
            reduces(self.reducer),
        ensures
            self.wf(reduce),
            self.next_k == frontier(self.grid, self.hist@),
            self.cost() == 0,
    {
        assert(self.hist@.skip(0) =~= self.hist@);
    }

    /// The points its window costs.
    pub open spec fn cost(&self) -> int {
        self.win@.len() * self.per_sample
    }

    /// Whether `self` is `old` with more grid points passed.
    pub open spec fn same_stream(&self, old: FpSlide) -> bool {
        &&& self.stream_hash == old.stream_hash
        &&& self.labels@ == old.labels@
        &&& self.reducer == old.reducer
        &&& self.grid == old.grid
        &&& self.per_sample == old.per_sample
    }

    /// Records the next grid point: lets go of the samples that no later window
    /// holds, and reduces the rest if any is left.
    fn emit_next<F: Fn(&Reducer, u64, &[WinSample]) -> u64>(
        &mut self,
        reduce: &F,
        retained: &mut u64,
    )
        requires
            old(self).wf(*reduce),
            old(self).next_k <= old(self).grid.kmax,
            *old(retained) >= old(self).cost(),
            takes_windows(*reduce),
        ensures
            final(self).wf(*reduce),
            final(self).same_stream(*old(self)),
            final(self).hist@ == old(self).hist@,
            final(self).next_k == old(self).next_k + 1,
            *final(retained) - final(self).cost() == *old(retained) - old(self).cost(),
            *final(retained) <= *old(retained),
    {
        let ghost hist = self.hist@;
        let ghost grid = self.grid;
        let ghost k = self.next_k as int;
        let ghost entry = *self;
        let ghost paid = *retained - self.cost();
        let t: i64 = self.grid.point(self.next_k);
        proof {
            grid.lemma_at_monotone(k - 1, k);
        }
        let bound: Option<i64> = t.checked_sub(self.grid.range);
        match bound {
            Some(lo) => {
                while self.win.len() > 0 && self.win[0].ts <= lo
                    invariant
                        self.same_stream(entry),
                        self.next_k == k,
                        self.points@ == entry.points@,
                        self.hist@ == hist,
                        self.grid == grid,
                        grid.wf(),
                        lo == grid.at(k) - grid.range,
                        0 <= self.gone@ <= hist.len(),
                        self.win@ == hist.skip(self.gone@),
                        ascending(hist),
                        forall|i: int| 0 <= i < self.gone@ ==> (#[trigger] hist[i]).ts <= lo,
                        *retained - self.cost() == paid,
                        paid >= 0,
                        *retained <= *old(retained),
                        self.reducer.class is InvertInteger ==> {
                            &&& self.run_int == weight_sum(self.win@)
                            &&& weight_sum(hist) <= i64::MAX
                        },
                    decreases self.win@.len(),
                {
                    let ghost before = self.win@;
                    let ghost g = self.gone@;
                    match self.win.pop_front() {
                        Some(ev) => {
                            proof {
                                assert(ev == hist[g]);
                                assert(before =~= seq![ev] + self.win@);
                                lemma_weight_sum_join(seq![ev], self.win@);
                                assert(weight_sum(seq![ev]) == ev.value) by {
                                    assert(seq![ev].drop_last() =~= Seq::<WinSample>::empty());
                                    assert(weight_sum(seq![ev].drop_last()) == 0);
                                }
                                lemma_weight_sum_nonneg(self.win@);
                                assert(before.len() * self.per_sample == self.win@.len()
                                    * self.per_sample + self.per_sample) by (nonlinear_arith)
                                    requires
                                        before.len() == self.win@.len() + 1,
                                ;
                                assert(self.win@.len() * self.per_sample >= 0) by (nonlinear_arith);
                            }
                            discharge_retention(retained, self.per_sample);
                            if matches!(self.reducer.class, ReducerClass::InvertInteger) {
                                self.run_int = self.run_int - ev.value;
                            }
                            self.gone = Ghost(g + 1);
                            proof {
                                assert(self.win@ =~= hist.skip(g + 1));
                            }
                        },
                        None => {},
                    }
                }
            },
            None => {
                proof {
                    assert(grid.at(k) - grid.range < i64::MIN);
                    if k > 0 {
                        assert forall|i: int| 0 <= i < hist.len() implies !((#[trigger] hist[i]).ts
                            <= grid.at(k - 1) - grid.range) by {}
                    }
                    assert(self.gone@ == 0) by {
                        if self.gone@ > 0 {
                            assert(hist[0].ts <= grid.at(k - 1) - grid.range);
                        }
                    }
                }
            },
        }
        let ghost g = self.gone@;
        proof {
            assert forall|i: int| 0 <= i < hist.len() implies (i < g <==> (#[trigger] hist[i]).ts
                <= grid.at(k) - grid.range) by {
                if i >= g {
                    assert(self.win@[0] == hist[g]);
                    assert(hist[g].ts <= hist[i].ts);
                }
            }
            let p = |s: WinSample| grid.at(k) - grid.range < s.ts <= grid.at(k);
            assert forall|i: int| 0 <= i < hist.len() implies (#[trigger] p(hist[i]) <==> g <= i
                < hist.len()) by {}
            lemma_filter_run(hist, p, g, hist.len() as int);
            assert(self.win@ =~= window_of(hist, grid.at(k), grid.range as int));
        }
        if self.win.len() > 0 {
            let r: Reducer = self.reducer;
            let v: u64 = if matches!(r.class, ReducerClass::InvertInteger) {
                let none: Vec<WinSample> = Vec::new();
                reduce(&r, self.run_int, none.as_slice())
            } else {
                reduce(&r, 0, contiguous(&mut self.win))
            };
            self.points.push((t, v));
            proof {
                assert(self.points@.drop_last() =~= entry.points@);
                assert(cell_ok(
                    *reduce,
                    r,
                    window_of(hist, grid.at(k), grid.range as int),
                    v,
                ));
            }
        }
        self.next_k = self.next_k + 1;
        proof {
            grid.lemma_at_monotone(k, k + 1);
        }
    }

    /// Records every grid point before `boundary`.
    fn emit_until<F: Fn(&Reducer, u64, &[WinSample]) -> u64>(
        &mut self,
        boundary: i64,
        reduce: &F,
        retained: &mut u64,
    )
        requires
            old(self).wf(*reduce),
            *old(retained) >= old(self).cost(),
            takes_windows(*reduce),
        ensures
            final(self).wf(*reduce),
            final(self).same_stream(*old(self)),
            final(self).hist@ == old(self).hist@,
            final(self).next_k == (if old(self).next_k < old(self).grid.first_cover(
                boundary as int,
            ) {
                old(self).grid.first_cover(boundary as int)
            } else {
                old(self).next_k as int
            }),
            *final(retained) - final(self).cost() == *old(retained) - old(self).cost(),
            *final(retained) <= *old(retained),
    {
        let ghost entry = *self;
        let ghost edge = self.grid.first_cover(boundary as int);
        let ghost paid = *retained - self.cost();
        while self.next_k <= self.grid.kmax && self.grid.point(self.next_k) < boundary
            invariant
                self.wf(*reduce),
                self.same_stream(entry),
                self.hist@ == entry.hist@,
                edge == self.grid.first_cover(boundary as int),
                entry.next_k <= self.next_k,
                self.next_k <= edge || self.next_k == entry.next_k,
                *retained - self.cost() == paid,
                paid >= 0,
                *retained <= *old(retained),
                takes_windows(*reduce),
            decreases self.grid.kmax + 1 - self.next_k,
        {
            proof {
                crate::window::lemma_ceil_div_reach(
                    boundary - self.grid.start,
                    self.grid.step as int,
                    self.next_k as int,
                );
            }
            self.emit_next(reduce, retained);
        }
        proof {
            self.grid.lemma_cover_run(boundary as int);
            if self.next_k <= self.grid.kmax {
                crate::window::lemma_ceil_div_reach(
                    boundary - self.grid.start,
                    self.grid.step as int,
                    self.next_k as int,
                );
            }
        }
    }

    /// Takes the stream's lines at one nanosecond: records the grid points before
    /// it, then charges and keeps one sample for each line. The charge that would
    /// go past `cap` is refused before its sample is kept.
    pub fn load_group<F: Fn(&Reducer, u64, &[WinSample]) -> u64>(
        &mut self,
        ts: i64,
        members: &Vec<CollMember>,
        reduce: &F,
        retained: &mut u64,
        cap: u64,
    ) -> (res: Result<(), ReadError>)
        requires
            old(self).wf(*reduce),
            *old(retained) >= old(self).cost(),
            *old(retained) + members@.len() * old(self).per_sample <= u64::MAX,
            old(self).hist@.len() > 0 ==> old(self).hist@.last().ts <= ts,
            old(self).next_k == frontier(old(self).grid, old(self).hist@),
            old(self).reducer.class is InvertInteger ==> weight_sum(
                old(self).hist@ + ranked(member_values(members@), ts, old(self).stream_hash),
            ) <= i64::MAX,
            takes_windows(*reduce),
        ensures
            ({
                let base = *old(retained) - old(self).cost() + live(
                    old(self).grid,
                    old(self).hist@,
                    old(self).grid.first_cover(ts as int),
                ).len() * old(self).per_sample;
                let over = first_over(
                    base,
                    old(self).per_sample as int,
                    members@.len() as int,
                    cap as int,
                );
                match res {
                    Ok(()) => {
                        &&& over is None
                        &&& final(self).wf(*reduce)
                        &&& final(self).same_stream(*old(self))
                        &&& final(self).hist@ == old(self).hist@ + ranked(
                            member_values(members@),
                            ts,
                            old(self).stream_hash,
                        )
                        &&& final(self).next_k == old(self).grid.first_cover(ts as int)
                        &&& *final(retained) == base + members@.len() * old(self).per_sample
                        &&& *final(retained) - final(self).cost() == *old(retained) - old(
                            self,
                        ).cost()
                    },
                    Err(e) => {
                        &&& over is Some
                        &&& e@ == ErrorView::QueryTooBroad(
                            TooBroadReason::MetricRetention { count: text::saturate(over->0), cap },
                        )
                        &&& *final(retained) == over->0 - old(self).per_sample
                    },
                }
            }),
    {
        let ghost entry = *self;
        let ghost values = member_values(members@);
        let ghost hash = self.stream_hash;
        let ghost paid = *retained - self.cost();
        proof {
            self.grid.lemma_cover_run(ts as int);
            if self.hist@.len() > 0 {
                self.grid.lemma_cover_monotone(self.hist@.last().ts as int, ts as int);
            }
        }
        self.emit_until(ts, reduce, retained);
        let ghost base = *retained as int;
        let ghost kept = self.hist@;
        proof {
            lemma_live_from(self.grid, kept, self.next_k as int, self.gone@);
            assert(self.win@.len() == live(self.grid, kept, self.next_k as int).len());
            if self.next_k <= self.grid.kmax {
                crate::window::lemma_ceil_div_reach(
                    ts - self.grid.start,
                    self.grid.step as int,
                    self.next_k as int,
                );
            }
            if self.next_k > 0 {
                crate::window::lemma_ceil_div_reach(
                    ts - self.grid.start,
                    self.grid.step as int,
                    self.next_k - 1,
                );
            }
        }
        let ghost all = ranked(values, ts, hash);
        let ghost mid = *self;
        proof {
            assert(kept + all.take(0) =~= kept);
            assert(first_over(base, entry.per_sample as int, 0, cap as int) is None);
            assert(base + 0 * entry.per_sample == base) by (nonlinear_arith);
        }
        let mut rank: usize = 0;
        while rank < members.len()
            invariant
                rank <= members@.len(),
                values == member_values(members@),
                all == ranked(values, ts, hash),
                self.same_stream(entry),
                hash == entry.stream_hash,
                self.points@ == mid.points@,
                self.next_k == mid.next_k,
                self.next_k == self.grid.first_cover(ts as int),
                self.gone@ == mid.gone@,
                mid.wf(*reduce),
                mid.hist@ == kept,
                mid.grid == self.grid,
                mid.reducer == self.reducer,
                kept.len() > 0 ==> kept.last().ts <= ts,
                self.next_k <= self.grid.kmax ==> ts <= self.grid.at(self.next_k as int),
                self.next_k > 0 ==> ts > self.grid.at(self.next_k - 1),
                self.hist@ == kept + all.take(rank as int),
                self.win@ == self.hist@.skip(self.gone@),
                *retained == base + rank * entry.per_sample,
                *retained - self.cost() == paid,
                first_over(base, entry.per_sample as int, rank as int, cap as int) is None,
                base + members@.len() * entry.per_sample <= u64::MAX,
                self.reducer.class is InvertInteger ==> {
                    &&& self.run_int == weight_sum(self.win@)
                    &&& weight_sum(kept + all) <= i64::MAX
                },
                base == paid + mid.win@.len() * entry.per_sample,
                base == paid + live(
                    entry.grid,
                    entry.hist@,
                    entry.grid.first_cover(ts as int),
                ).len() * entry.per_sample,
                entry == *old(self),
                paid == *old(retained) - old(self).cost(),
            decreases members@.len() - rank,
        {
            let value: u64 = members[rank].value;
            proof {
                assert((rank + 1) * entry.per_sample == rank * entry.per_sample + entry.per_sample)
                    by (nonlinear_arith);
                assert((rank + 1) * entry.per_sample <= members@.len() * entry.per_sample)
                    by (nonlinear_arith)
                    requires
                        rank + 1 <= members@.len(),
                ;
            }
            match charge_retention(retained, self.per_sample, cap) {
                Ok(()) => {},
                Err(e) => {
                    proof {
                        assert(first_over(
                            base,
                            entry.per_sample as int,
                            rank + 1,
                            cap as int,
                        ) == Some(base + (rank + 1) * entry.per_sample));
                        lemma_first_over_stays(
                            base,
                            entry.per_sample as int,
                            rank + 1,
                            members@.len() as int,
                            cap as int,
                        );
                    }
                    return Err(e);
                },
            }
            let sample = WinSample {
                ts,
                stream_hash: self.stream_hash,
                tie_rank: rank as u32,
                value,
            };
            let ghost before = self.win@;
            self.win.push_back(sample);
            proof {
                assert(all[rank as int] == sample);
                assert(all.take(rank + 1) =~= all.take(rank as int).push(sample));
                assert(kept + all.take(rank + 1) =~= (kept + all.take(rank as int)).push(sample));
                assert(self.win@ =~= (kept + all.take(rank + 1)).skip(self.gone@));
                assert(self.win@.drop_last() =~= before);
                assert(weight_sum(self.win@) == weight_sum(before) + value);
                let whole = kept + all;
                assert(self.win@ =~= whole.subrange(self.gone@, kept.len() + rank + 1));
                lemma_weight_sum_part(whole, self.gone@, kept.len() + rank + 1);
                assert(self.win@.len() * self.per_sample == before.len() * self.per_sample
                    + self.per_sample) by (nonlinear_arith)
                    requires
                        self.win@.len() == before.len() + 1,
                ;
            }
            self.hist = Ghost(self.hist@.push(sample));
            if matches!(self.reducer.class, ReducerClass::InvertInteger) {
                self.run_int = self.run_int + value;
            }
            rank = rank + 1;
        }
        proof {
            assert(all.take(members@.len() as int) =~= all);
            let k = self.next_k as int;
            assert forall|i: int, j: int| 0 <= i <= j < self.hist@.len() implies self.hist@[i].ts
                <= self.hist@[j].ts by {
                if i < kept.len() {
                    assert(self.hist@[i] == kept[i]);
                    if j < kept.len() {
                        assert(self.hist@[j] == kept[j]);
                    } else {
                        assert(kept[i].ts <= kept[kept.len() - 1].ts);
                    }
                }
            }
            assert forall|i: int|
                0 <= i < self.hist@.len() && self.next_k <= self.grid.kmax implies (
            #[trigger] self.hist@[i]).ts <= self.grid.at(k) by {
                if i < kept.len() {
                    assert(self.hist@[i] == kept[i]);
                }
            }
            assert forall|i: int| 0 <= i < self.hist@.len() && k > 0 implies (i < self.gone@ <==> (
            #[trigger] self.hist@[i]).ts <= self.grid.at(k - 1) - self.grid.range) by {
                if i < kept.len() {
                    assert(self.hist@[i] == kept[i]);
                }
            }
            lemma_series_points_append(
                *reduce,
                self.reducer,
                self.grid,
                kept,
                all,
                k,
                self.points@,
            );
        }
        Ok(())
    }

    /// Records the rest of the grid and closes the stream: a series, if any window
    /// held a sample.
    pub fn finish<F: Fn(&Reducer, u64, &[WinSample]) -> u64>(
        self,
        reduce: &F,
        retained: &mut u64,
    ) -> (series: Option<MatrixSeries>)
        requires
            self.wf(*reduce),
            *old(retained) >= self.cost(),
            takes_windows(*reduce),
        ensures
            *final(retained) == *old(retained) - self.cost(),
            match series {
                Some(s) => {
                    &&& s.labels@ == self.labels@
                    &&& s.points@.len() > 0
                    &&& series_points(
                        *reduce,
                        self.reducer,
                        self.grid,
                        self.hist@,
                        self.grid.slots(),
                        s.points@,
                    )
                },
                None => series_points(
                    *reduce,
                    self.reducer,
                    self.grid,
                    self.hist@,
                    self.grid.slots(),
                    Seq::empty(),
                ),
            },
    {
        let mut slide = self;
        let ghost paid = *retained - self.cost();
        while slide.next_k <= slide.grid.kmax
            invariant
                slide.wf(*reduce),
                slide.same_stream(self),
                slide.hist@ == self.hist@,
                *retained - slide.cost() == paid,
                paid >= 0,
                takes_windows(*reduce),
            decreases slide.grid.kmax + 1 - slide.next_k,
        {
            slide.emit_next(reduce, retained);
        }
        let FpSlide { labels, win, per_sample, points, .. } = slide;
        let held: u64 = win.len() as u64;
        proof {
            assert(held * per_sample == slide.cost());
        }
        discharge_retention(retained, held * per_sample);
        if points.len() == 0 {
            proof {
                assert(points@ =~= Seq::empty());
            }
            None
        } else {
            Some(MatrixSeries { labels, points })
        }
    }
}

} // verus!
