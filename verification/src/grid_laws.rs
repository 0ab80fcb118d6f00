//! What the points of a range query satisfy: where they stand, which windows they are the
//! values of, and in which order samples, groups and series come.
use vstd::prelude::*;
use crate::cells;
use crate::charge::{self, AggCaps};
use crate::client_agg;
use crate::error::{ErrorView, RowBudgetExceeded, TooBroadReason};
use crate::ledger;
use crate::model::{ClientAgg, ClientValue, MetricScanRow, RangeAggOp};
use crate::number::Arith;
use crate::order;
use crate::presence;
use crate::range;
use crate::range_model::{self, MemberView, SlideConfig, SlideView};
use crate::reduction;
use crate::slide::{self, Reducer, ReducerClass, WinSample};
use crate::text::{self, PairView};
use crate::window::{self, ClientWindow, DurationNs, Grid};

verus! {

// ---------------------------------------------------------------------
// Grids and windows.
// ---------------------------------------------------------------------

/// A grid starts where it was asked to, goes on by its step, and ends on the last point
/// that is not past the end it was asked for; it has no point where it would start past it.
pub proof fn law_grids_reach_to_their_end(
    start: i64,
    end: i64,
    step: DurationNs,
    range: DurationNs,
    k: int,
)
    requires
        0 < step.value() <= i64::MAX,
        0 < range.value() <= i64::MAX,
        end - start <= 0x0FFF_FFFF * step.value(),
    ensures
        ({
            let grid = range::grid_of(start, end, step, range);
            &&& grid.at(0) == start
            &&& grid.at(k + 1) - grid.at(k) == step.value()
            &&& grid.range == range.value()
            &&& end < start ==> grid.slots() == 0
            &&& start <= end ==> grid.slots() >= 1 && grid.at(grid.kmax as int) <= end && grid.at(
                grid.kmax + 1,
            ) > end
        }),
{
    let grid = range::grid_of(start, end, step, range);
    let s = step.value();
    assert((k + 1) * s == k * s + s) by (nonlinear_arith);
    if start <= end {
        let n = (end - start) / s;
        vstd::arithmetic::div_mod::lemma_fundamental_div_mod(end - start, s);
        assert(n * s == s * n) by (nonlinear_arith);
        assert(0 <= n <= 0x0FFF_FFFF) by (nonlinear_arith)
            requires
                s > 0,
                end - start >= 0,
                end - start == s * n + (end - start) % s,
                0 <= (end - start) % s < s,
                end - start <= 0x0FFF_FFFF * s,
        ;
        assert(grid.kmax == n);
        assert((n + 1) * s == n * s + s) by (nonlinear_arith);
    }
}

/// A window takes one more sample, after the others, where it is no later than the
/// window's end and later than its start, and else passes it over.
pub proof fn law_windows_take_what_lies_in_them(
    hist: Seq<WinSample>,
    s: WinSample,
    t: int,
    range: int,
)
    ensures
        slide::window_of(Seq::empty(), t, range) == Seq::<WinSample>::empty(),
        s.ts <= t && t < s.ts + range ==> slide::window_of(hist.push(s), t, range)
            == slide::window_of(hist, t, range).push(s),
        s.ts > t || t >= s.ts + range ==> slide::window_of(hist.push(s), t, range)
            == slide::window_of(hist, t, range),
{
    reveal_with_fuel(Seq::filter, 2);
    assert(hist.push(s).drop_last() =~= hist);
}

/// Whether a point is that of the window of index `k`.
pub open spec fn point_of<A: Fn(Arith, u64, u64) -> u64>(
    arith: A,
    r: Reducer,
    grid: Grid,
    hist: Seq<WinSample>,
    k: int,
    p: (i64, u64),
) -> bool {
    let end = grid.start + k * grid.step;
    let w = hist.filter(|s: WinSample| s.ts <= end && end < s.ts + grid.range);
    &&& w.len() > 0
    &&& p.0 == end
    &&& p.1 == reduction::cell_value(arith, r, w)
}

/// Each window that holds a sample has one point, on the grid point it ends on, with the
/// value of exactly its samples; the points stand in time order, and there are no others.
pub proof fn law_points_are_those_of_the_windows<A: Fn(Arith, u64, u64) -> u64>(
    arith: A,
    r: Reducer,
    grid: Grid,
    hist: Seq<WinSample>,
    n: int,
)
    requires
        grid.wf(),
        0 <= n <= grid.slots(),
    ensures
        ({
            let points = reduction::grid_values(arith, r, grid, hist, n);
            &&& points.len() <= n
            &&& forall|i: int, j: int|
                0 <= i < j < points.len() ==> (#[trigger] points[i]).0 < (#[trigger] points[j]).0
            &&& forall|i: int|
                0 <= i < points.len() ==> of_some_window(
                    arith,
                    r,
                    grid,
                    hist,
                    n,
                    #[trigger] points[i],
                )
            &&& forall|k: int|
                0 <= k < n && (exists|i: int|
                    0 <= i < hist.len() && ledger::in_window(
                        grid,
                        k,
                        (#[trigger] hist[i]).ts as int,
                    )) ==> #[trigger] has_point(arith, r, grid, hist, k, points)
        }),
    decreases n,
{
    let points = reduction::grid_values(arith, r, grid, hist, n);
    if n > 0 {
        let front = reduction::grid_values(arith, r, grid, hist, n - 1);
        law_points_are_those_of_the_windows(arith, r, grid, hist, n - 1);
        let end = grid.at(n - 1);
        grid.lemma_at_in_range(n - 1);
        let w = slide::window_of(hist, end, grid.range as int);
        let here = hist.filter(|s: WinSample| s.ts <= end && end < s.ts + grid.range);
        assert(w == here) by {
            let p = |s: WinSample| end - grid.range < s.ts <= end;
            let q = |s: WinSample| s.ts <= end && end < s.ts + grid.range;
            lemma_same_filter(hist, p, q);
        }
        assert forall|i: int| 0 <= i < points.len() implies of_some_window(
            arith,
            r,
            grid,
            hist,
            n,
            #[trigger] points[i],
        ) by {
            if i < front.len() {
                assert(points[i] == front[i]);
                assert(of_some_window(arith, r, grid, hist, n - 1, front[i]));
                let k = choose|k: int|
                    0 <= k < n - 1 && #[trigger] point_of(arith, r, grid, hist, k, front[i]);
                assert(point_of(arith, r, grid, hist, k, points[i]));
            } else {
                assert(point_of(arith, r, grid, hist, n - 1, points[i]));
            }
        }
        assert forall|i: int, j: int| 0 <= i < j < points.len() implies (#[trigger] points[i]).0
            < (#[trigger] points[j]).0 by {
            if j < front.len() {
                assert(points[i] == front[i] && points[j] == front[j]);
            } else {
                assert(points[i] == front[i]);
                assert(of_some_window(arith, r, grid, hist, n - 1, front[i]));
                let k = choose|k: int|
                    0 <= k < n - 1 && #[trigger] point_of(arith, r, grid, hist, k, front[i]);
                grid.lemma_at_monotone(k, n - 1);
            }
        }
        assert forall|k: int|
            0 <= k < n && (exists|i: int|
                0 <= i < hist.len() && ledger::in_window(
                    grid,
                    k,
                    (#[trigger] hist[i]).ts as int,
                )) implies #[trigger] has_point(arith, r, grid, hist, k, points) by {
            if k < n - 1 {
                assert(has_point(arith, r, grid, hist, k, front));
                let i = choose|i: int|
                    0 <= i < front.len() && point_of(
                        arith,
                        r,
                        grid,
                        hist,
                        k,
                        #[trigger] front[i],
                    );
                assert(points[i] == front[i]);
            } else {
                let i = choose|i: int|
                    0 <= i < hist.len() && ledger::in_window(
                        grid,
                        k,
                        (#[trigger] hist[i]).ts as int,
                    );
                hist.lemma_filter_contains(
                    |s: WinSample| end - grid.range < s.ts <= end,
                    i,
                );
                assert(w.contains(hist[i]));
                assert(w.len() > 0);
                assert(point_of(arith, r, grid, hist, n - 1, points[points.len() - 1]));
            }
        }
    }
}

/// Whether a point is that of one of the first `n` windows.
pub open spec fn of_some_window<A: Fn(Arith, u64, u64) -> u64>(
    arith: A,
    r: Reducer,
    grid: Grid,
    hist: Seq<WinSample>,
    n: int,
    p: (i64, u64),
) -> bool {
    exists|k: int| 0 <= k < n && #[trigger] point_of(arith, r, grid, hist, k, p)
}

/// Whether the window of index `k` has a point.
pub open spec fn has_point<A: Fn(Arith, u64, u64) -> u64>(
    arith: A,
    r: Reducer,
    grid: Grid,
    hist: Seq<WinSample>,
    k: int,
    points: Seq<(i64, u64)>,
) -> bool {
    exists|i: int|
        0 <= i < points.len() && point_of(arith, r, grid, hist, k, #[trigger] points[i])
}

proof fn lemma_same_filter<A>(s: Seq<A>, p: spec_fn(A) -> bool, q: spec_fn(A) -> bool)
    requires
        forall|x: A| #[trigger] p(x) == q(x),
    ensures
        s.filter(p) == s.filter(q),
    decreases s.len(),
{
    reveal(Seq::filter);
    if s.len() > 0 {
        lemma_same_filter(s.drop_last(), p, q);
        assert(p(s.last()) == q(s.last()));
    }
}

proof fn lemma_filter_from<A>(s: Seq<A>, p: spec_fn(A) -> bool, x: A)
    requires
        s.filter(p).contains(x),
    ensures
        s.contains(x),
    decreases s.len(),
{
    reveal(Seq::filter);
    if s.len() > 0 {
        let front = s.drop_last().filter(p);
        if front.contains(x) {
            lemma_filter_from(s.drop_last(), p, x);
            let i = choose|i: int| 0 <= i < s.drop_last().len() && s.drop_last()[i] == x;
            assert(s[i] == x);
        } else {
            let i = choose|i: int| 0 <= i < s.filter(p).len() && s.filter(p)[i] == x;
            if i < front.len() {
                assert(front[i] == x);
            }
            assert(s[s.len() - 1] == x);
        }
    }
}

/// `absent_over_time` has a point of value one exactly where a window holds no mark, on the
/// grid point it ends on, in time order.
pub proof fn law_absent_points_are_those_of_empty_windows(grid: Grid, marks: Seq<i64>, n: int)
    requires
        grid.wf(),
        0 <= n <= grid.slots(),
    ensures
        ({
            let points = presence::absent_points(grid, marks, n);
            &&& forall|i: int, j: int|
                0 <= i < j < points.len() ==> (#[trigger] points[i]).0 < (#[trigger] points[j]).0
            &&& forall|i: int|
                0 <= i < points.len() ==> of_some_empty_window(
                    grid,
                    marks,
                    n,
                    #[trigger] points[i],
                )
            &&& forall|k: int|
                0 <= k < n && (forall|i: int|
                    0 <= i < marks.len() ==> !ledger::in_window(
                        grid,
                        k,
                        (#[trigger] marks[i]) as int,
                    )) ==> #[trigger] has_empty_point(grid, marks, k, points)
        }),
    decreases n,
{
    let points = presence::absent_points(grid, marks, n);
    if n > 0 {
        let front = presence::absent_points(grid, marks, n - 1);
        law_absent_points_are_those_of_empty_windows(grid, marks, n - 1);
        presence::law_absent_means_an_empty_window(grid, marks, n - 1);
        grid.lemma_at_in_range(n - 1);
        assert forall|i: int| 0 <= i < points.len() implies of_some_empty_window(
            grid,
            marks,
            n,
            #[trigger] points[i],
        ) by {
            if i < front.len() {
                assert(points[i] == front[i]);
                assert(of_some_empty_window(grid, marks, n - 1, front[i]));
                let k = choose|k: int|
                    0 <= k < n - 1 && #[trigger] empty_point(grid, marks, k, front[i]);
                assert(empty_point(grid, marks, k, points[i]));
            } else {
                assert(empty_point(grid, marks, n - 1, points[i]));
            }
        }
        assert forall|i: int, j: int| 0 <= i < j < points.len() implies (#[trigger] points[i]).0
            < (#[trigger] points[j]).0 by {
            if j < front.len() {
                assert(points[i] == front[i] && points[j] == front[j]);
            } else {
                assert(points[i] == front[i]);
                assert(of_some_empty_window(grid, marks, n - 1, front[i]));
                let k = choose|k: int|
                    0 <= k < n - 1 && #[trigger] empty_point(grid, marks, k, front[i]);
                grid.lemma_at_monotone(k, n - 1);
            }
        }
        assert forall|k: int|
            0 <= k < n && (forall|i: int|
                0 <= i < marks.len() ==> !ledger::in_window(
                    grid,
                    k,
                    (#[trigger] marks[i]) as int,
                )) implies #[trigger] has_empty_point(grid, marks, k, points) by {
            if k < n - 1 {
                assert(has_empty_point(grid, marks, k, front));
                let i = choose|i: int|
                    0 <= i < front.len() && empty_point(grid, marks, k, #[trigger] front[i]);
                assert(points[i] == front[i]);
            } else {
                assert forall|i: int| 0 <= i < marks.len() implies !(grid.at(k) - grid.range
                    < #[trigger] marks[i] <= grid.at(k)) by {
                    assert(!ledger::in_window(grid, k, marks[i] as int));
                }
                assert(empty_point(grid, marks, k, points[points.len() - 1]));
            }
        }
    }
}

/// Whether a point is that of one of the first `n` windows, an empty one.
pub open spec fn of_some_empty_window(grid: Grid, marks: Seq<i64>, n: int, p: (i64, u64)) -> bool {
    exists|k: int| 0 <= k < n && #[trigger] empty_point(grid, marks, k, p)
}

/// Whether the window of index `k` has a point that tells that it is empty.
pub open spec fn has_empty_point(
    grid: Grid,
    marks: Seq<i64>,
    k: int,
    points: Seq<(i64, u64)>,
) -> bool {
    exists|i: int| 0 <= i < points.len() && empty_point(grid, marks, k, #[trigger] points[i])
}

/// Whether a point tells that the window of index `k` is empty.
pub open spec fn empty_point(grid: Grid, marks: Seq<i64>, k: int, p: (i64, u64)) -> bool {
    &&& p.0 == grid.start + k * grid.step
    &&& p.1 == 0x3FF0_0000_0000_0000u64
    &&& forall|i: int|
        0 <= i < marks.len() ==> !ledger::in_window(grid, k, (#[trigger] marks[i]) as int)
}

/// Moving points by an offset changes their times by it, where they stay times, and nothing
/// else.
pub proof fn law_moved_points_keep_their_values(points: Seq<(i64, u64)>, offset: int, i: int)
    requires
        0 <= i < points.len(),
    ensures
        range::moved(points, offset).len() == points.len(),
        range::moved(points, offset)[i].1 == points[i].1,
        i64::MIN <= points[i].0 + offset <= i64::MAX ==> range::moved(points, offset)[i].0
            == points[i].0 + offset,
        range::moved(points, 0) == points,
{
    assert(range::moved(points, 0) =~= points);
}

/// A span has as many intervals as whole steps go into it, and a range query is refused
/// where there are more than eleven thousand.
pub proof fn law_the_fence_counts_whole_steps(
    start: i64,
    end: i64,
    step: DurationNs,
    range: DurationNs,
    offset: i64,
)
    requires
        0 < step.value() <= i64::MAX,
        0 <= end - start <= i64::MAX,
    ensures
        ({
            let n = window::fence_intervals(start, end, step.value() as u64);
            let w = ClientWindow::Range {
                grid_start_ns: start,
                end_ns: end,
                step_ns: step,
                range_ns: range,
                offset_ns: offset,
            };
            &&& n * step.value() <= end - start < (n + 1) * step.value()
            &&& client_agg::fence_error(w) is Some <==> end - start >= 11_001 * step.value()
            &&& client_agg::fence_error(w) matches Some(e) ==> e == ErrorView::QueryTooBroad(
                TooBroadReason::MetricBuckets { buckets: n as u64, cap: 11_000 },
            )
            &&& client_agg::fence_error(ClientWindow::Instant) is None
        }),
{
    let s = step.value();
    let n = window::fence_intervals(start, end, s as u64);
    vstd::arithmetic::div_mod::lemma_fundamental_div_mod(end - start, s);
    assert(n == (end - start) / s);
    assert(n * s == s * n) by (nonlinear_arith);
    assert((n + 1) * s == n * s + s) by (nonlinear_arith);
    if n > 11_000 {
        assert(n * s >= 11_001 * s) by (nonlinear_arith)
            requires
                n >= 11_001,
                s > 0,
        ;
    } else {
        assert((n + 1) * s <= 11_001 * s) by (nonlinear_arith)
            requires
                n + 1 <= 11_001,
                s > 0,
        ;
    }
}

// ---------------------------------------------------------------------
// Orders.
// ---------------------------------------------------------------------

/// A group's samples are reduced by time, then by stream, then by rank, all of them;
/// running integers are not reordered.
pub proof fn law_samples_are_reduced_in_canonical_order(
    class: ReducerClass,
    hist: Seq<WinSample>,
)
    requires
        hist.len() <= usize::MAX,
    ensures
        ({
            let c = cells::canonical(class, hist);
            &&& c.to_multiset() == hist.to_multiset()
            &&& c.len() == hist.len()
            &&& class is InvertInteger ==> c == hist
            &&& !(class is InvertInteger) ==> forall|i: int, j: int|
                0 <= i <= j < c.len() ==> {
                    let (a, b) = (#[trigger] c[i], #[trigger] c[j]);
                    &&& a.ts <= b.ts
                    &&& a.ts == b.ts ==> a.stream_hash <= b.stream_hash
                    &&& a.ts == b.ts && a.stream_hash == b.stream_hash ==> a.tie_rank
                        <= b.tie_rank
                }
        }),
{
    if !(class is InvertInteger) {
        let le = cells::win_le();
        assert(order::total_preorder(le));
        order::lemma_stable_sort_permutes(hist, le);
        order::lemma_stable_sort_ascends(hist, le);
        let c = cells::canonical(class, hist);
        assert forall|i: int, j: int| 0 <= i <= j < c.len() implies ({
            let (a, b) = (#[trigger] c[i], #[trigger] c[j]);
            &&& a.ts <= b.ts
            &&& a.ts == b.ts ==> a.stream_hash <= b.stream_hash
            &&& a.ts == b.ts && a.stream_hash == b.stream_hash ==> a.tie_rank <= b.tie_rank
        }) by {
            assert(le(c[i], c[j]));
        }
    }
}

/// Lines of a stream at one nanosecond are ranked by their places, each with its own value.
pub proof fn law_lines_are_ranked_by_place(values: Seq<u64>, ts: i64, hash: u64, i: int)
    requires
        0 <= i < values.len(),
    ensures
        slide::ranked(values, ts, hash).len() == values.len(),
        slide::ranked(values, ts, hash)[i].ts == ts,
        slide::ranked(values, ts, hash)[i].stream_hash == hash,
        slide::ranked(values, ts, hash)[i].value == values[i],
        i <= u32::MAX ==> slide::ranked(values, ts, hash)[i].tie_rank == i,
{
}

/// Where the order of lines at one nanosecond matters they stand by their texts, else as
/// they came; either way all of them stand there.
pub proof fn law_staged_lines_stand_by_text(cfg: SlideConfig, members: Seq<MemberView>)
    requires
        members.len() <= usize::MAX,
    ensures
        ({
            let ranked = range_model::ranked_members(cfg, members);
            &&& ranked.to_multiset() == members.to_multiset()
            &&& cfg.needs_body_order ==> forall|i: int, j: int|
                0 <= i <= j < ranked.len() ==> text::text_le(
                    (#[trigger] ranked[i]).body,
                    (#[trigger] ranked[j]).body,
                )
            &&& !cfg.needs_body_order ==> ranked == members
        }),
{
    if cfg.needs_body_order {
        let le = range_model::body_le();
        range_model::lemma_body_le_preorder();
        order::lemma_stable_sort_permutes(members, le);
        order::lemma_stable_sort_ascends(members, le);
        let ranked = range_model::ranked_members(cfg, members);
        assert forall|i: int, j: int| 0 <= i <= j < ranked.len() implies text::text_le(
            (#[trigger] ranked[i]).body,
            (#[trigger] ranked[j]).body,
        ) by {
            assert(le(ranked[i], ranked[j]));
        }
    }
}

/// Rows are scanned by stream, then by time, and rows of one stream at one time as they
/// came.
pub proof fn law_rows_are_scanned_by_stream_and_time(rows: Seq<MetricScanRow>)
    requires
        rows.len() <= usize::MAX,
    ensures
        ({
            let s = order::stable_sort(rows, client_agg::scan_rank());
            &&& s.to_multiset() == rows.to_multiset()
            &&& forall|i: int, j: int|
                0 <= i <= j < s.len() ==> {
                    let (a, b) = (#[trigger] s[i], #[trigger] s[j]);
                    &&& a.fingerprint <= b.fingerprint
                    &&& a.fingerprint == b.fingerprint ==> a.timestamp_ns <= b.timestamp_ns
                }
        }),
{
    let le = client_agg::scan_rank();
    assert(order::total_preorder(le));
    order::lemma_stable_sort_permutes(rows, le);
    order::lemma_stable_sort_ascends(rows, le);
    let s = order::stable_sort(rows, le);
    assert forall|i: int, j: int| 0 <= i <= j < s.len() implies ({
        let (a, b) = (#[trigger] s[i], #[trigger] s[j]);
        &&& a.fingerprint <= b.fingerprint
        &&& a.fingerprint == b.fingerprint ==> a.timestamp_ns <= b.timestamp_ns
    }) by {
        assert(le(s[i], s[j]));
    }
}

proof fn lemma_window_then_points(grid: Grid, hist: Seq<WinSample>, n: int)
    ensures
        range_model::has_points(grid, hist, n) <==> exists|k: int|
            0 <= k < n && #[trigger] slide::window_of(hist, grid.at(k), grid.range as int).len()
                > 0,
    decreases n,
{
    if n > 0 {
        lemma_window_then_points(grid, hist, n - 1);
        let w = slide::window_of(hist, grid.at(n - 1), grid.range as int);
        if range_model::has_points(grid, hist, n - 1) {
            let k = choose|k: int|
                0 <= k < n - 1 && #[trigger] slide::window_of(
                    hist,
                    grid.at(k),
                    grid.range as int,
                ).len() > 0;
            assert(0 <= k < n);
        }
        if w.len() > 0 {
            assert(slide::window_of(hist, grid.at(n - 1), grid.range as int).len() > 0);
        }
    }
}

/// A series shows where some window of its grid holds one of its samples.
pub proof fn law_series_show_where_a_window_holds_a_sample(grid: Grid, hist: Seq<WinSample>)
    requires
        grid.wf(),
    ensures
        range_model::has_points(grid, hist, grid.slots()) <==> exists|i: int|
            0 <= i < hist.len() && ledger::in_some_window(grid, (#[trigger] hist[i]).ts as int),
{
    lemma_window_then_points(grid, hist, grid.slots());
    if range_model::has_points(grid, hist, grid.slots()) {
        let k = choose|k: int|
            0 <= k < grid.slots() && #[trigger] slide::window_of(
                hist,
                grid.at(k),
                grid.range as int,
            ).len() > 0;
        let end = grid.at(k);
        let w = slide::window_of(hist, end, grid.range as int);
        let p = |s: WinSample| end - grid.range < s.ts <= end;
        hist.lemma_filter_pred(p, 0);
        lemma_filter_from(hist, p, w[0]);
        let i = choose|i: int| 0 <= i < hist.len() && hist[i] == w[0];
        assert(ledger::in_window(grid, k, hist[i].ts as int));
        assert(ledger::in_some_window(grid, hist[i].ts as int));
    }
    if exists|i: int|
        0 <= i < hist.len() && ledger::in_some_window(grid, (#[trigger] hist[i]).ts as int) {
        let i = choose|i: int|
            0 <= i < hist.len() && ledger::in_some_window(grid, (#[trigger] hist[i]).ts as int);
        let k = choose|k: int|
            0 <= k <= grid.kmax && #[trigger] ledger::in_window(grid, k, hist[i].ts as int);
        let end = grid.at(k);
        let w = slide::window_of(hist, end, grid.range as int);
        hist.lemma_filter_contains(|s: WinSample| end - grid.range < s.ts <= end, i);
        assert(w.contains(hist[i]));
        assert(slide::window_of(hist, grid.at(k), grid.range as int).len() > 0);
    }
}

// ---------------------------------------------------------------------
// Configurations.
// ---------------------------------------------------------------------

/// Lines and bytes are counted by a running integer, and so is a rate of them; a rate of
/// unwrapped numbers is not. Of the others, those that add up or go from point to point
/// depend on the order of their samples, and so do the first and the last.
pub proof fn law_reducers_by_what_they_depend_on(op: RangeAggOp, value: ClientValue)
    ensures
        slide::class_of(op, value) is InvertInteger <==> (op is CountOverTime || op
            is BytesOverTime || op is BytesRate || (op is Rate && !(value is Unwrap))),
        slide::class_of(op, value) is CanonicalFold <==> (op is SumOverTime || op is AvgOverTime
            || op is StddevOverTime || op is StdvarOverTime || op is RateCounter || (op is Rate
            && value is Unwrap)),
        range_model::wants_body_order(op, slide::class_of(op, value)) <==> (op is SumOverTime
            || op is AvgOverTime || op is StddevOverTime || op is StdvarOverTime || op
            is RateCounter || op is FirstOverTime || op is LastOverTime || (op is Rate && value
            is Unwrap)),
        charge::points_per_sample(op) == if op is QuantileOverTime {
            2u64
        } else {
            1
        },
{
}

/// A range query and an instant query of one aggregation reduce alike and group alike: by
/// labels where the pipeline changes them or the aggregation groups, else by stream.
pub proof fn law_queries_of_one_aggregation_agree(
    client: ClientAgg,
    grid: Grid,
    offset: i64,
    rate_window: Option<u64>,
    caps: AggCaps,
)
    ensures
        ({
            let a = range::config_of(client, grid, offset, rate_window, caps);
            let b = client_agg::instant_config(client, rate_window, caps);
            &&& a.reducer == b.reducer
            &&& a.fan_out == b.fan_out
            &&& a.caps == caps && b.caps == caps
            &&& a.is_absent == b.is_absent()
            &&& a.is_absent == (client.range_op is AbsentOverTime)
            &&& a.fan_out == (client.grouped || client.mutates_labels)
            &&& a.reducer.op == client.range_op
            &&& a.reducer.value == client.value
            &&& a.reducer.param == client.param
            &&& a.reducer.rate_window_ns == rate_window
            &&& a.grid == grid
            &&& a.offset_ns == offset
        }),
{
}

// ---------------------------------------------------------------------
// Charges and errors.
// ---------------------------------------------------------------------

/// The first of equal charges that goes past a cap: there is one where all together go
/// past it, it is past the cap, and the one before it was not.
pub proof fn law_the_first_charge_past_the_cap(base: int, each: int, n: int, cap: int)
    requires
        base <= cap,
        each >= 0,
        n >= 0,
    ensures
        slide::first_over(base, each, n, cap) is Some <==> base + n * each > cap,
        slide::first_over(base, each, n, cap) matches Some(c) ==> c > cap && c - each <= cap
            && exists|j: int| 1 <= j <= n && c == base + #[trigger] (j * each),
    decreases n,
{
    if n > 0 {
        law_the_first_charge_past_the_cap(base, each, n - 1, cap);
        assert(n * each == (n - 1) * each + each) by (nonlinear_arith);
        assert((n - 1) * each >= 0) by (nonlinear_arith)
            requires
                n >= 1,
                each >= 0,
        ;
        if slide::first_over(base, each, n - 1, cap) is Some {
            let c = slide::first_over(base, each, n - 1, cap)->0;
            let j = choose|j: int| 1 <= j <= n - 1 && c == base + #[trigger] (j * each);
            assert(1 <= j <= n && c == base + j * each);
        } else if base + n * each > cap {
            assert(1 <= n <= n && base + n * each == base + n * each);
        }
    } else {
        assert(0 * each == 0) by (nonlinear_arith);
    }
}

/// A new series is charged its labels and one grid's width of points. It is refused where
/// either goes past its cap, the labels first, and a refusal names what was asked for and
/// the cap.
pub proof fn law_series_are_charged_labels_then_points(
    cfg: SlideConfig,
    v: SlideView,
    key: Seq<char>,
    labels: Seq<PairView>,
    slot: int,
)
    requires
        cfg.grid.wf(),
        0 <= v.group_bytes <= cfg.caps.group_bytes < u64::MAX,
        0 <= v.result_points <= cfg.caps.result_points < u64::MAX,
    ensures
        ({
            let bytes = v.group_bytes + charge::entry_bytes(key, labels, slot);
            let points = v.result_points + cfg.grid.kmax + 1;
            match range_model::open_series(cfg, v, key, labels, slot) {
                Ok(w) => {
                    &&& bytes <= cfg.caps.group_bytes
                    &&& points <= cfg.caps.result_points
                    &&& w.group_bytes == bytes
                    &&& w.result_points == points
                    &&& w.groups == v.groups && w.closed == v.closed && w.cur == v.cur
                    &&& w.retained == v.retained && w.members == v.members && w.pending
                        == v.pending && w.covers == v.covers
                },
                Err(e) => if bytes > cfg.caps.group_bytes {
                    e matches ErrorView::QueryTooBroad(
                        TooBroadReason::MetricGroupLabelBytes { bytes: b, cap },
                    ) && cap == cfg.caps.group_bytes && b > cap
                } else {
                    &&& points > cfg.caps.result_points
                    &&& e matches ErrorView::QueryTooBroad(
                        TooBroadReason::MetricResultPoints { count, cap },
                    ) && cap == cfg.caps.result_points && count > cap
                },
            }
        }),
{
}

/// One more line at the same nanosecond is staged with its value, after the others, unless
/// the lines or their bytes go past their caps.
pub proof fn law_lines_are_staged_within_their_caps(
    cfg: SlideConfig,
    v: SlideView,
    at: (u64, i64),
    body: Seq<char>,
    labels: Seq<PairView>,
    value: u64,
)
    requires
        v.members.len() < u64::MAX,
        cfg.caps.collision_bytes < u64::MAX,
    ensures
        match range_model::stage(cfg, v, at, body, labels, value) {
            Ok(w) => {
                &&& v.members.len() < cfg.caps.collision_members
                &&& w.coll_bytes <= cfg.caps.collision_bytes
                &&& w.coll_bytes > v.coll_bytes || vstd::layout::size_of::<slide::CollMember>()
                    == 0
                &&& cfg.needs_body_order ==> w.coll_bytes >= v.coll_bytes + text::byte_count(body)
                &&& w.pending == Some(at)
                &&& w.members.len() == v.members.len() + 1
                &&& w.members.drop_last() == v.members
                &&& w.members.last().value == value
                &&& cfg.needs_body_order ==> w.members.last().body == body
                &&& cfg.fan_out && !cfg.is_absent ==> w.members.last().out is Some && (
                w.members.last().out->0).1 == order::stable_sort(labels, text::pair_le())
                &&& w.groups == v.groups && w.closed == v.closed && w.cur == v.cur && w.retained
                    == v.retained
            },
            Err(e) => e matches ErrorView::QueryTooBroad(
                TooBroadReason::TsCollisionGroup { count, cap, bytes, bytes_cap },
            ) && count == v.members.len() + 1 && cap == cfg.caps.collision_members && bytes_cap
                == cfg.caps.collision_bytes && (count > cap || bytes > bytes_cap),
        },
{
    if let Ok(w) = range_model::stage(cfg, v, at, body, labels, value) {
        assert(w.members.drop_last() =~= v.members);
    }
}

/// Among labels, the first error label that says something is the error; the query then
/// fails with it and with all of the labels, by name and value.
pub proof fn law_the_first_error_label_speaks(labels: Seq<PairView>, i: int)
    requires
        labels.len() <= usize::MAX,
        0 <= i < labels.len(),
        labels[i].0 == "__error__"@,
        labels[i].1.len() > 0,
        forall|j: int|
            0 <= j < i ==> !((#[trigger] labels[j]).0 == "__error__"@ && labels[j].1.len() > 0),
    ensures
        range_model::surviving_error(labels) == Some(labels[i].1),
        range_model::pipeline_error(labels) matches ErrorView::MetricPipelineError {
            error_type,
            series,
        } && error_type == labels[i].1 && series.to_multiset() == labels.to_multiset(),
{
    lemma_first_error(labels, i);
    text::lemma_pair_le_preorder();
    order::lemma_stable_sort_permutes(labels, text::pair_le());
}

proof fn lemma_first_error(labels: Seq<PairView>, i: int)
    requires
        0 <= i < labels.len(),
        labels[i].0 == "__error__"@,
        labels[i].1.len() > 0,
        forall|j: int|
            0 <= j < i ==> !((#[trigger] labels[j]).0 == "__error__"@ && labels[j].1.len() > 0),
    ensures
        range_model::surviving_error(labels) == Some(labels[i].1),
    decreases labels.len(),
{
    if i > 0 {
        let rest = labels.drop_first();
        assert(!(labels[0].0 == "__error__"@ && labels[0].1.len() > 0));
        assert forall|j: int| 0 <= j < i - 1 implies !((#[trigger] rest[j]).0 == "__error__"@
            && rest[j].1.len() > 0) by {
            assert(rest[j] == labels[j + 1]);
        }
        lemma_first_error(rest, i - 1);
    }
}

/// A breached row budget is told with its ceiling: sixty-four mebibytes of rendered
/// templates, and as many of flattened names.
pub proof fn law_breached_budgets_are_named(b: RowBudgetExceeded)
    ensures
        range_model::budget_error(b) == ErrorView::QueryTooBroad(
            TooBroadReason::RowBudget { budget: b.budget, cap: 67_108_864 },
        ),
{
}

/// A refused retention charge is told with what it would have come to and the cap.
pub proof fn law_refused_retention_is_told(cfg: SlideConfig, count: int)
    requires
        0 <= count <= u64::MAX,
    ensures
        range_model::retention_error(cfg, count) == ErrorView::QueryTooBroad(
            TooBroadReason::MetricRetention {
                count: count as u64,
                cap: cfg.caps.retention_points,
            },
        ),
{
}

} // verus!
