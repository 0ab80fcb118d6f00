//! What the evaluators charge, what they give back, and what a refusal leaves.
use vstd::prelude::*;
use crate::agg;
use crate::cells::{self, CellForm};
use crate::charge;
use crate::client_agg;
use crate::error::{ErrorView, TooBroadReason};
use crate::grid_laws;
use crate::instant::{self, Arrival, InstantConfig, InstantView};
use crate::instant_ledger;
use crate::ledger;
use crate::model::{MatrixSeries, MetricScanRow, StreamMeta, VectorAggSpec};
use crate::order::{self, Ranked};
use crate::range;
use crate::range_model::{self, CurView, MemberView, SlideConfig, SlideView};
use crate::slide::{self, CollMember, ReducerClass, WinSample};
use crate::text::{self, PairView};
use crate::window::{self, Grid};

verus! {

// ---------------------------------------------------------------------
// Times.
// ---------------------------------------------------------------------

/// A time that is too early or too late to be told is told as the nearest that can.
pub proof fn law_times_are_held_within_reach(t: int)
    ensures
        i64::MIN <= t <= i64::MAX ==> window::clamped(t) == t,
        t < i64::MIN ==> window::clamped(t) == i64::MIN,
        t > i64::MAX ==> window::clamped(t) == i64::MAX,
{
}

/// A span that goes backwards has no intervals, and one too long to be told has those of
/// the longest that can.
pub proof fn law_spans_are_held_within_reach(start: i64, end: i64, step: u64)
    requires
        step > 0,
    ensures
        end < start ==> window::fence_intervals(start, end, step) == 0,
        end - start > i64::MAX ==> window::fence_intervals(start, end, step) == i64::MAX as int / (
        step as int),
{
    if end < start {
        assert(0int / (step as int) == 0) by (nonlinear_arith)
            requires
                step > 0,
        ;
    }
}

// ---------------------------------------------------------------------
// Retained samples.
// ---------------------------------------------------------------------

/// What a window sliding over a stream still holds once the first points have been passed
/// is every sample that one of the later windows holds, and nothing that the last passed
/// window had already left behind.
pub proof fn law_later_windows_lose_nothing(
    grid: Grid,
    hist: Seq<WinSample>,
    k: int,
    j: int,
    i: int,
)
    requires
        grid.wf(),
        0 <= k <= j,
        0 <= i < hist.len(),
    ensures
        ledger::in_window(grid, j, hist[i].ts as int) ==> slide::live(grid, hist, k).contains(
            hist[i],
        ),
        slide::live(grid, hist, 0) == hist,
        k > 0 && hist[i].ts > grid.start + (k - 1) * grid.step - grid.range ==> slide::live(
            grid,
            hist,
            k,
        ).contains(hist[i]),
        k > 0 ==> forall|m: int|
            0 <= m < slide::live(grid, hist, k).len() ==> (#[trigger] slide::live(
                grid,
                hist,
                k,
            )[m]).ts > grid.start + (k - 1) * grid.step - grid.range,
{
    let kept = slide::live(grid, hist, k);
    if k > 0 {
        let p = |s: WinSample| s.ts > grid.at(k - 1) - grid.range;
        if ledger::in_window(grid, j, hist[i].ts as int) {
            grid.lemma_at_monotone(k - 1, j);
            hist.lemma_filter_contains(p, i);
        }
        if p(hist[i]) {
            hist.lemma_filter_contains(p, i);
        }
        assert forall|m: int| 0 <= m < kept.len() implies (#[trigger] kept[m]).ts > grid.start + (k
            - 1) * grid.step - grid.range by {
            hist.lemma_filter_pred(p, m);
        }
    }
}

/// Sums are kept for running integers, as changes where windows overlap on more than one
/// point, and samples for all other reducers; a kept sum costs one point, a kept sample what
/// its reducer says.
pub proof fn law_groups_keep_what_their_reducer_needs(
    class: ReducerClass,
    grid: Grid,
    per_sample: u64,
)
    ensures
        cells::form_of(class, grid) is Samples <==> !(class is InvertInteger),
        class is InvertInteger && grid.range >= grid.step && grid.slots() > 1 ==> cells::form_of(
            class,
            grid,
        ) is IntDeltas,
        class is InvertInteger && (grid.range < grid.step || grid.slots() <= 1) ==> cells::form_of(
            class,
            grid,
        ) is IntExpanded,
        cells::unit_cost(CellForm::Samples, per_sample) == per_sample,
        cells::unit_cost(CellForm::IntDeltas, per_sample) == 1,
        cells::unit_cost(CellForm::IntExpanded, per_sample) == 1,
{
}

/// A sample is refused where the entries it takes go past the cap, and the refusal tells the
/// first that does.
pub proof fn law_samples_are_refused_past_the_cap(
    form: CellForm,
    grid: Grid,
    hist: Seq<WinSample>,
    s: WinSample,
    per_sample: u64,
    retained: int,
    cap: int,
)
    requires
        0 <= retained <= cap,
    ensures
        ({
            let (a, b) = cells::new_units(form, grid, hist, s);
            let each = cells::unit_cost(form, per_sample);
            let over = cells::add_over(form, grid, hist, s, per_sample, retained, cap);
            &&& 0 <= a <= 1 && 0 <= b <= 1
            &&& over is Some <==> retained + (a + b) * each > cap
            &&& over matches Some(c) ==> c > cap && c - each <= cap
        }),
{
    let (a, b) = cells::new_units(form, grid, hist, s);
    let each = cells::unit_cost(form, per_sample);
    assert((a + b) * each == if a + b == 0 {
        0
    } else if a + b == 1 {
        each
    } else {
        2 * each
    }) by (nonlinear_arith)
        requires
            0 <= a <= 1,
            0 <= b <= 1,
    ;
}

/// A stream's lines that are refused leave retained what the lines before the refused one
/// took: no more than the cap, and of everything else what was there.
pub proof fn law_refused_lines_leave_what_fitted(
    cfg: SlideConfig,
    v: SlideView,
    ts: i64,
    members: Seq<MemberView>,
    base: int,
)
    requires
        v.cur is Some,
        base == v.retained - range_model::cur_cost(cfg, (v.cur->0).hist) + slide::live(
            cfg.grid,
            (v.cur->0).hist,
            cfg.grid.first_cover(ts as int),
        ).len() * cfg.per_sample,
        base <= cfg.caps.retention_points,
        range_model::load(cfg, v, ts, members) is Err,
    ensures
        ({
            let left = range_model::left_by_load(cfg, v, ts, members);
            &&& base <= left.retained <= cfg.caps.retention_points
            &&& left.retained + cfg.per_sample > cfg.caps.retention_points
            &&& left.groups == v.groups
            &&& left.group_bytes == v.group_bytes
            &&& left.result_points == v.result_points
        }),
{
    let cap = cfg.caps.retention_points as int;
    let each = cfg.per_sample as int;
    let n = members.len() as int;
    grid_laws::law_the_first_charge_past_the_cap(base, each, n, cap);
    let c = slide::first_over(base, each, n, cap)->0;
    let j = choose|j: int| 1 <= j <= n && c == base + #[trigger] (j * each);
    assert((j - 1) * each >= 0 && j * each == (j - 1) * each + each) by (nonlinear_arith)
        requires
            j >= 1,
            each >= 0,
    ;
}

/// Lines that are taken in cost what their samples cost, on top of the samples that a later
/// window may still hold.
pub proof fn law_lines_taken_in_are_paid_for(
    cfg: SlideConfig,
    v: SlideView,
    ts: i64,
    members: Seq<MemberView>,
)
    requires
        v.cur is Some,
    ensures
        range_model::load(cfg, v, ts, members) matches Ok(w) ==> {
            let c = v.cur->0;
            &&& w.retained - v.retained == members.len() * cfg.per_sample + slide::live(
                cfg.grid,
                c.hist,
                cfg.grid.first_cover(ts as int),
            ).len() * cfg.per_sample - range_model::cur_cost(cfg, c.hist)
            &&& (w.cur->0).hist.len() == c.hist.len() + members.len()
            &&& (w.cur->0).labels == c.labels && (w.cur->0).fp == c.fp && (w.cur->0).hash
                == c.hash
            &&& w.group_bytes == v.group_bytes && w.result_points == v.result_points
            &&& w.closed == v.closed && w.groups == v.groups && w.covers == v.covers
        },
{
}

// ---------------------------------------------------------------------
// Series.
// ---------------------------------------------------------------------

/// Closing a stream gives back what its window retained. A stream with points is kept, with
/// its labels and its charges; one without is let go, and the bytes of its labels with it,
/// so that opening it and closing it again charges no label bytes.
pub proof fn law_closing_a_stream_gives_back(
    cfg: SlideConfig,
    v: SlideView,
    c: CurView,
)
    requires
        v.cur == Some(c),
    ensures
        ({
            let w = range_model::rotate(cfg, v);
            let shows = range_model::has_points(cfg.grid, c.hist, cfg.grid.slots());
            let bytes = charge::entry_bytes(
                Seq::empty(),
                c.labels,
                vstd::layout::size_of::<MatrixSeries>() as int,
            );
            &&& w.cur is None
            &&& w.retained == v.retained - range_model::cur_cost(cfg, c.hist)
            &&& w.result_points == v.result_points
            &&& w.groups == v.groups && w.covers == v.covers
            &&& shows ==> {
                &&& w.group_bytes == v.group_bytes
                &&& w.closed.len() == v.closed.len() + 1
                &&& w.closed.drop_last() == v.closed
                &&& w.closed.last().labels == c.labels && w.closed.last().hist == c.hist
            }
            &&& !shows ==> w.closed == v.closed
            &&& !shows && v.group_bytes >= bytes ==> w.group_bytes == v.group_bytes - bytes
        }),
{
    let w = range_model::rotate(cfg, v);
    if range_model::has_points(cfg.grid, c.hist, cfg.grid.slots()) {
        assert(w.closed.drop_last() =~= v.closed);
    }
}

/// `absent_over_time` reserves one grid's width for its series at the end, and is refused
/// where that goes past the cap; other reducers reserve nothing then.
pub proof fn law_absence_reserves_one_width(
    cfg: SlideConfig,
    streams: Map<u64, StreamMeta>,
    v: SlideView,
)
    requires
        cfg.grid.wf(),
        v.pending is None,
        v.cur is None,
        0 <= v.result_points,
        v.result_points + cfg.grid.slots() <= u64::MAX,
    ensures
        cfg.is_absent ==> (range::end_state(cfg, streams, v) is Err <==> v.result_points
            + cfg.grid.kmax + 1 > cfg.caps.result_points),
        !cfg.is_absent ==> range::end_state(cfg, streams, v) == Ok::<SlideView, ErrorView>(v),
        range::end_state(cfg, streams, v) matches Err(e) ==> e == ErrorView::QueryTooBroad(
            TooBroadReason::MetricResultPoints {
                count: (v.result_points + cfg.grid.slots()) as u64,
                cap: cfg.caps.result_points,
            },
        ),
{
}

/// What staging a line costs is a slot for it, its text where the order of lines matters,
/// and its labels, rendered and plain, where lines are grouped by them.
pub proof fn law_staging_costs_slot_text_and_labels(
    cfg: SlideConfig,
    body: Seq<char>,
    sorted: Seq<PairView>,
    slot: int,
    text_cost: int,
    label_cost: int,
)
    requires
        slot == 8 * vstd::layout::size_of::<CollMember>(),
        slot <= u64::MAX,
        text_cost == if cfg.needs_body_order {
            charge::block_bytes(text::byte_count(body)) as int
        } else {
            0
        },
        sorted.len() * vstd::layout::size_of::<(String, String)>() <= u64::MAX,
        label_cost == if cfg.fan_out && !cfg.is_absent {
            charge::grown_bytes(
                text::saturate(text::byte_count(text::json_object(sorted))) as int,
            ) + charge::pair_bytes(sorted) + charge::block_bytes(
                (sorted.len() * vstd::layout::size_of::<(String, String)>()) as int,
            )
        } else {
            0
        },
    ensures
        slot + text_cost + label_cost <= u64::MAX ==> range_model::stage_bytes(cfg, body, sorted)
            == slot + text_cost + label_cost,
        slot + text_cost + label_cost > u64::MAX ==> range_model::stage_bytes(cfg, body, sorted)
            == u64::MAX,
{
    assert(vstd::layout::size_of::<CollMember>() * 8 == slot);
}

// ---------------------------------------------------------------------
// Vector aggregations.
// ---------------------------------------------------------------------

/// The leaf is handed the innermost aggregation, which is the last, where it folds; it and
/// those that are left are all of them.
pub proof fn law_the_innermost_aggregation_is_handed_on(
    cfg: SlideConfig,
    aggs: Seq<VectorAggSpec>,
)
    ensures
        aggs.len() == 0 ==> client_agg::leaf_fold(aggs) is None,
        aggs.len() > 0 ==> (client_agg::leaf_fold(aggs) is Some <==> agg::folds(aggs.last().op)),
        match client_agg::leaf_fold(aggs) {
            Some(s) => client_agg::rest_aggs(aggs).push(s) == aggs,
            None => client_agg::rest_aggs(aggs) == aggs,
        },
        client_agg::leaf_fold(aggs) matches Some(s) ==> (client_agg::leaf_handed(
            cfg,
            client_agg::leaf_fold(aggs),
        ) matches Some(f) && f.spec == s@ && f.grid == cfg.grid && f.result_points
            == cfg.caps.result_points && f.group_bytes == cfg.caps.group_bytes),
{
    if client_agg::leaf_fold(aggs) is Some {
        assert(aggs.drop_last().push(aggs.last()) =~= aggs);
    }
}

/// Series go into a vector aggregation in their pinned order, all of them; those of groups
/// stand in it already.
pub proof fn law_series_are_folded_in_pinned_order(cfg: SlideConfig, leaf: Seq<MatrixSeries>)
    requires
        leaf.len() <= usize::MAX,
    ensures
        ({
            let sent = range::fold_order(cfg, leaf);
            &&& sent.to_multiset() == leaf.to_multiset()
            &&& cfg.fan_out && !cfg.is_absent ==> sent == leaf
            &&& !(cfg.fan_out && !cfg.is_absent) ==> forall|i: int, j: int|
                0 <= i <= j < sent.len() ==> text::labels_le(
                    text::labels_view((#[trigger] sent[i]).labels@),
                    text::labels_view((#[trigger] sent[j]).labels@),
                )
        }),
{
    if !(cfg.fan_out && !cfg.is_absent) {
        let le = MatrixSeries::rank_le();
        MatrixSeries::rank_is_preorder();
        order::lemma_stable_sort_permutes(leaf, le);
        order::lemma_stable_sort_ascends(leaf, le);
        let sent = range::fold_order(cfg, leaf);
        assert forall|i: int, j: int| 0 <= i <= j < sent.len() implies text::labels_le(
            text::labels_view((#[trigger] sent[i]).labels@),
            text::labels_view((#[trigger] sent[j]).labels@),
        ) by {
            assert(le(sent[i], sent[j]));
        }
    }
}

// ---------------------------------------------------------------------
// Instant queries.
// ---------------------------------------------------------------------

/// The first line of a group is charged the group's slot, key and labels, and refused where
/// they go past the cap; a line of a group that is there is charged nothing.
pub proof fn law_a_group_is_charged_once(
    cfg: InstantConfig,
    v: InstantView,
    fp: u64,
    key: Seq<char>,
    labels: Seq<PairView>,
    a: Arrival,
)
    requires
        0 <= v.group_bytes <= cfg.caps.group_bytes < u64::MAX,
    ensures
        ({
            let known = exists|i: int|
                0 <= i < v.groups.len() && (if cfg.fan_out {
                    (#[trigger] v.groups[i]).key == key
                } else {
                    v.groups[i].fp == fp
                });
            let slot = if cfg.fan_out {
                vstd::layout::size_of::<(String, (text::LabelSet, instant::BucketAcc))>()
            } else {
                vstd::layout::size_of::<(u64, instant::BucketAcc)>()
            };
            let bytes = charge::entry_bytes(key, labels, slot as int);
            &&& known ==> (instant::tally(cfg, v, fp, key, labels, a) matches Ok(w)
                && w.group_bytes == v.group_bytes && w.groups.len() == v.groups.len())
            &&& !known ==> match instant::tally(cfg, v, fp, key, labels, a) {
                Ok(w) => {
                    &&& w.group_bytes == v.group_bytes + bytes
                    &&& w.groups.len() == v.groups.len() + 1
                    &&& w.groups.drop_last() == v.groups
                    &&& w.groups.last().labels == labels
                    &&& w.groups.last().hist == seq![a]
                },
                Err(e) => {
                    &&& v.group_bytes + bytes > cfg.caps.group_bytes
                    &&& e matches ErrorView::QueryTooBroad(
                        TooBroadReason::MetricGroupLabelBytes { bytes: b, cap },
                    ) && b > cap && cap == cfg.caps.group_bytes
                },
            }
        }),
{
    instant_ledger::lemma_tally_index(cfg.fan_out, v.groups, fp, key);
    if let Ok(w) = instant::tally(cfg, v, fp, key, labels, a) {
        if w.groups.len() == v.groups.len() + 1 {
            assert(w.groups.drop_last() =~= v.groups);
        }
    }
}

/// A value for a quantile, or a point for a counter, is refused where it is one more than
/// its cap, and counted else; other reducers are never refused for it.
pub proof fn law_values_are_counted_up_to_their_cap(cfg: InstantConfig, v: InstantView)
    requires
        0 <= v.quantile_values < u64::MAX,
        0 <= v.counter_values < u64::MAX,
    ensures
        ({
            let op = cfg.reducer.op;
            let r = instant::count_value(cfg, v);
            let q = op is QuantileOverTime && v.quantile_values >= cfg.caps.quantile_values;
            let c = op is RateCounter && v.counter_values >= cfg.caps.counter_values;
            &&& r is Err <==> q || c
            &&& q ==> r == Err::<InstantView, ErrorView>(
                ErrorView::QueryTooBroad(
                    TooBroadReason::QuantileValues {
                        count: (v.quantile_values + 1) as u64,
                        cap: cfg.caps.quantile_values,
                    },
                ),
            )
            &&& c ==> r == Err::<InstantView, ErrorView>(
                ErrorView::QueryTooBroad(
                    TooBroadReason::CounterValues {
                        count: (v.counter_values + 1) as u64,
                        cap: cfg.caps.counter_values,
                    },
                ),
            )
            &&& r matches Ok(w) ==> {
                &&& w.quantile_values - v.quantile_values == if op is QuantileOverTime {
                    1int
                } else {
                    0
                }
                &&& w.counter_values - v.counter_values == if op is RateCounter {
                    1int
                } else {
                    0
                }
                &&& w.groups == v.groups && w.group_bytes == v.group_bytes && w.present
                    == v.present
            }
        }),
{
}

/// What a refused row leaves is what the rows before it came to: some beginning of the rows
/// was taken, and with one row more the scan was refused.
pub proof fn law_a_refusal_leaves_the_rows_before_it(
    cfg: InstantConfig,
    streams: Map<u64, StreamMeta>,
    v: InstantView,
    rows: Seq<MetricScanRow>,
    n: int,
)
    requires
        0 <= n <= rows.len(),
        instant::take_instant_rows(cfg, streams, v, rows, n) is Err,
    ensures
        exists|m: int| 0 <= m < n && #[trigger] refused_at(cfg, streams, v, rows, n, m),
    decreases n,
{
    if n > 0 {
        match instant::take_instant_rows(cfg, streams, v, rows, n - 1) {
            Err(_) => {
                law_a_refusal_leaves_the_rows_before_it(cfg, streams, v, rows, n - 1);
                let m = choose|m: int|
                    0 <= m < n - 1 && #[trigger] refused_at(cfg, streams, v, rows, n - 1, m);
                assert(refused_at(cfg, streams, v, rows, n, m));
            },
            Ok(_) => {
                assert(refused_at(cfg, streams, v, rows, n, n - 1));
            },
        }
    }
}

/// Whether the first `m` of `n` rows were taken and one row more was refused.
pub open spec fn refused_at(
    cfg: InstantConfig,
    streams: Map<u64, StreamMeta>,
    v: InstantView,
    rows: Seq<MetricScanRow>,
    n: int,
    m: int,
) -> bool {
    &&& instant::take_instant_rows(cfg, streams, v, rows, m) == Ok::<InstantView, ErrorView>(
        instant::before_refusal(cfg, streams, v, rows, n),
    )
    &&& instant::take_instant_rows(cfg, streams, v, rows, m + 1) is Err
}

/// A series that is refused leaves nothing held for it: of its charges only that of its
/// labels may stand, within the cap.
pub proof fn law_a_refused_series_leaves_little(
    cfg: SlideConfig,
    v: SlideView,
    key: Seq<char>,
    labels: Seq<PairView>,
    slot: int,
)
    requires
        0 <= v.group_bytes <= cfg.caps.group_bytes < u64::MAX,
        range_model::open_series(cfg, v, key, labels, slot) is Err,
    ensures
        ({
            let left = range_model::left_by_open(cfg, v, key, labels, slot);
            let bytes = v.group_bytes + charge::entry_bytes(key, labels, slot);
            &&& left.groups == v.groups && left.retained == v.retained && left.result_points
                == v.result_points
            &&& bytes > cfg.caps.group_bytes ==> left.group_bytes == v.group_bytes
            &&& bytes <= cfg.caps.group_bytes ==> left.group_bytes == bytes
        }),
{
}

/// A sample that a group refuses leaves the groups as they were, and retained no more than
/// the cap.
pub proof fn law_a_refused_sample_leaves_what_fitted(
    cfg: SlideConfig,
    v: SlideView,
    i: int,
    s: WinSample,
)
    requires
        0 <= v.retained <= cfg.caps.retention_points,
        0 <= i < v.groups.len(),
        range_model::add_to_group(cfg, v, i, s) is Err,
    ensures
        ({
            let left = range_model::left_by_add(cfg, v, i, s);
            &&& left.groups == v.groups && left.group_bytes == v.group_bytes
                && left.result_points == v.result_points
            &&& v.retained <= left.retained <= cfg.caps.retention_points
        }),
{
    law_samples_are_refused_past_the_cap(
        cfg.form(),
        cfg.grid,
        v.groups[i].hist,
        s,
        cfg.per_sample,
        v.retained,
        cfg.caps.retention_points as int,
    );
    let (a, b) = cells::new_units(cfg.form(), cfg.grid, v.groups[i].hist, s);
    let each = cells::unit_cost(cfg.form(), cfg.per_sample);
    assert((a + b) * each >= each) by (nonlinear_arith)
        requires
            a + b >= 1,
            each >= 0,
    ;
}

/// A sample that a group takes is the group's last, costs the entries it takes, and changes
/// no other group.
pub proof fn law_a_taken_sample_is_the_groups_last(
    cfg: SlideConfig,
    v: SlideView,
    i: int,
    s: WinSample,
    j: int,
)
    requires
        0 <= i < v.groups.len(),
        0 <= j < v.groups.len(),
    ensures
        range_model::add_to_group(cfg, v, i, s) matches Ok(w) ==> {
            let (a, b) = cells::new_units(cfg.form(), cfg.grid, v.groups[i].hist, s);
            &&& w.groups.len() == v.groups.len()
            &&& w.groups[i].hist == v.groups[i].hist.push(s)
            &&& w.groups[i].key == v.groups[i].key && w.groups[i].labels == v.groups[i].labels
            &&& j != i ==> w.groups[j] == v.groups[j]
            &&& w.retained == v.retained + (a + b) * cells::unit_cost(
                cfg.form(),
                cfg.per_sample,
            )
            &&& w.group_bytes == v.group_bytes && w.result_points == v.result_points
        },
{
}

} // verus!
