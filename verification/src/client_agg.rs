//! Client-side aggregation over rows at hand: a range query over sliding windows,
//! or an instant query over one window, and the vector aggregations on top.
use std::collections::HashMap;
use vstd::prelude::*;
use crate::agg::{self, SampleView, SeriesPointsView};
use crate::charge::AggCaps;
use crate::error::{ErrorView, ReadError, TooBroadReason};
use crate::instant::{
    self, BucketAcc, ClientAggState, GroupTally, InstantConfig, InstantView, Moments,
};
use crate::model::{
    ClientAgg, MatrixSeries, MetricScanRow, QueryResult, StreamMeta, VectorAggSpec, VectorSample,
};
use crate::number::{self, Arith};
use crate::order::{self, stable_sorted, Ranked};
use crate::presence;
use crate::range::{self, FoldSteps, LeafFold, LeafFoldView, RangeSlideState};
use crate::range_model::{self, SeriesView, SlideConfig, SlideView};
use crate::reduction::{self, group_finisher, moment_stepper, window_reducer};
use crate::slide::{self, Reducer, WinSample};
use crate::text::{self, LabelSet, PairView};
use crate::window::{self, ClientWindow, MAX_CLIENT_AGG_BUCKETS};

verus! {

/// The order rows are scanned in.
pub open spec fn scan_rank() -> spec_fn(MetricScanRow, MetricScanRow) -> bool {
    |a: MetricScanRow, b: MetricScanRow|
        range_model::scan_le(range_model::row_key(a), range_model::row_key(b))
}

impl Ranked for MetricScanRow {
    open spec fn rank_le() -> spec_fn(Self, Self) -> bool {
        scan_rank()
    }

    proof fn rank_is_preorder() {
    }

    fn ranks_le(&self, other: &Self) -> (r: bool) {
        self.fingerprint < other.fingerprint || (self.fingerprint == other.fingerprint
            && self.timestamp_ns <= other.timestamp_ns)
    }
}

/// Whether rows are in scan order already.
fn is_ordered(rows: &Vec<MetricScanRow>) -> (r: bool)
    ensures
        r ==> range_model::in_scan_order(None, rows@),
        !r ==> exists|i: int|
            0 <= i < rows@.len() - 1 && !range_model::scan_le(
                range_model::row_key(#[trigger] rows@[i]),
                range_model::row_key(rows@[i + 1]),
            ),
{
    let mut i: usize = 1;
    while i < rows.len()
        invariant
            1 <= i,
            forall|a: int, b: int|
                0 <= a <= b < i && b < rows@.len() ==> range_model::scan_le(
                    range_model::row_key(#[trigger] rows@[a]),
                    range_model::row_key(#[trigger] rows@[b]),
                ),
        decreases rows@.len() - i,
    {
        if !rows[i - 1].ranks_le(&rows[i]) {
            assert(!range_model::scan_le(
                range_model::row_key(rows@[i - 1]),
                range_model::row_key(rows@[i - 1 + 1]),
            ));
            return false;
        }
        proof {
            assert forall|a: int, b: int| 0 <= a <= b < i + 1 && b < rows@.len() implies range_model::scan_le(
                range_model::row_key(#[trigger] rows@[a]),
                range_model::row_key(#[trigger] rows@[b]),
            ) by {
                if b == i && a < b {
                    assert(range_model::scan_le(
                        range_model::row_key(rows@[a]),
                        range_model::row_key(rows@[i - 1]),
                    ));
                    assert(range_model::scan_le(
                        range_model::row_key(rows@[i - 1]),
                        range_model::row_key(rows@[i as int]),
                    ));
                }
            }
        }
        i = i + 1;
    }
    true
}

proof fn lemma_rows_cost_sum(rows: Seq<MetricScanRow>)
    ensures
        range_model::rows_cost(rows) == order::sum_of(rows, |r: MetricScanRow| range_model::row_cost(r)),
    decreases rows.len(),
{
    if rows.len() > 0 {
        lemma_rows_cost_sum(rows.drop_last());
    }
}

/// Puts rows in scan order.
pub fn in_order(rows: Vec<MetricScanRow>) -> (out: Vec<MetricScanRow>)
    ensures
        out@ == order::stable_sort(rows@, scan_rank()),
        range_model::in_scan_order(None, out@),
        range_model::rows_cost(out@) == range_model::rows_cost(rows@),
{
    proof {
        assert(rows@.len() == rows.len());
        MetricScanRow::rank_is_preorder();
        order::lemma_stable_sort_permutes(rows@, scan_rank());
        order::lemma_stable_sort_ascends(rows@, scan_rank());
        lemma_rows_cost_sum(rows@);
        lemma_rows_cost_sum(order::stable_sort(rows@, scan_rank()));
        order::lemma_sum_permutes(
            order::stable_sort(rows@, scan_rank()),
            rows@,
            |r: MetricScanRow| range_model::row_cost(r),
        );
        assert forall|i: int, j: int|
            0 <= i <= j < rows@.len() implies range_model::scan_le(
            range_model::row_key(#[trigger] order::stable_sort(rows@, scan_rank())[i]),
            range_model::row_key(#[trigger] order::stable_sort(rows@, scan_rank())[j]),
        ) by {
            assert(scan_rank()(
                order::stable_sort(rows@, scan_rank())[i],
                order::stable_sort(rows@, scan_rank())[j],
            ));
        }
    }
    if is_ordered(&rows) {
        proof {
            assert forall|i: int, j: int| 0 <= i <= j < rows@.len() implies scan_rank()(
                #[trigger] rows@[i],
                #[trigger] rows@[j],
            ) by {
                assert(range_model::scan_le(range_model::row_key(rows@[i]), range_model::row_key(rows@[j])));
            }
            order::lemma_stable_sort_of_sorted(rows@, scan_rank());
        }
        rows
    } else {
        stable_sorted(rows)
    }
}

/// Whether `res` is what a range query over the rows answers.
pub open spec fn range_answer<
    F: Fn(&Reducer, u64, &[WinSample]) -> u64,
    T,
    K: Fn(&LeafFold) -> T,
    P: Fn(&T, &LabelSet, &Vec<(i64, u64)>) -> Result<T, ReadError>,
    D: Fn(T) -> Vec<MatrixSeries>,
>(
    reduce: F,
    fold: FoldSteps<K, P, D>,
    cfg: SlideConfig,
    streams: Map<u64, StreamMeta>,
    absent_labels: Seq<PairView>,
    spec_: Option<VectorAggSpec>,
    rows: Seq<MetricScanRow>,
    res: Result<QueryResult, ReadError>,
) -> bool {
    let ordered = order::stable_sort(rows, scan_rank());
    match range_model::take_rows(cfg, streams, range::start_view(), ordered, ordered.len() as int) {
        Err(e) => res matches Err(got) && got@ == e,
        Ok(v) => match range::end_state(cfg, streams, v) {
            Err(e) => res matches Err(got) && got@ == e,
            Ok(x) => range::answers(
                reduce,
                fold,
                cfg,
                absent_labels,
                leaf_handed(cfg, spec_),
                x,
                res,
            ),
        },
    }
}

/// The configuration of an instant query.
pub open spec fn instant_config(
    client: ClientAgg,
    rate_window_ns: Option<u64>,
    caps: AggCaps,
) -> InstantConfig {
    InstantConfig {
        reducer: Reducer {
            op: client.range_op,
            class: slide::class_of(client.range_op, client.value),
            value: client.value,
            param: client.param,
            rate_window_ns,
        },
        fan_out: client.mutates_labels || client.grouped,
        caps,
    }
}

/// An instant query before any row.
pub open spec fn instant_start() -> InstantView {
    InstantView {
        present: false,
        groups: Seq::empty(),
        quantile_values: 0,
        counter_values: 0,
        group_bytes: 0,
    }
}

/// Whether `res` is what an instant query over the rows answers.
pub open spec fn instant_result<
    S: Fn(&Reducer, Option<Moments>, u64, u64) -> Moments,
    B: Fn(&Reducer, BucketAcc) -> u64,
>(
    step: S,
    done: B,
    cfg: InstantConfig,
    streams: Map<u64, StreamMeta>,
    absent_labels: Seq<PairView>,
    rows: Seq<MetricScanRow>,
    res: Result<QueryResult, ReadError>,
) -> bool {
    match instant::take_instant_rows(cfg, streams, instant_start(), rows, rows.len() as int) {
        Err(e) => res matches Err(got) && got@ == e,
        Ok(v) => res matches Ok(QueryResult::Vector(out)) && instant::instant_answer(
            step,
            done,
            cfg,
            absent_labels,
            v,
            out@,
        ),
    }
}

/// The evaluation state of one query.
pub enum MetricAggState {
    Instant(ClientAggState),
    Range(RangeSlideState),
}

impl MetricAggState {
    /// What holds between calls.
    pub open spec fn wf<
        F: Fn(&Reducer, u64, &[WinSample]) -> u64,
        S: Fn(&Reducer, Option<Moments>, u64, u64) -> Moments,
    >(&self, reduce: F, step: S) -> bool {
        match *self {
            MetricAggState::Instant(s) => s.wf(step),
            MetricAggState::Range(s) => s.wf(reduce),
        }
    }

    /// Whether a batch of rows may follow what the state has taken.
    pub open spec fn continues(&self, rows: Seq<MetricScanRow>) -> bool {
        match *self {
            MetricAggState::Instant(s) => s.taken@ + rows.len() < u64::MAX,
            MetricAggState::Range(s) => range_model::in_scan_order(s.last@, rows)
                && s.scanned@ + range_model::rows_cost(rows) <= i64::MAX,
        }
    }

    /// Takes one batch of rows.
    pub fn push_rows<
        F: Fn(&Reducer, u64, &[WinSample]) -> u64,
        S: Fn(&Reducer, Option<Moments>, u64, u64) -> Moments,
    >(&mut self, rows: &Vec<MetricScanRow>, reduce: &F, step: &S) -> (res: Result<(), ReadError>)
        requires
            old(self).wf(*reduce, *step),
            old(self).continues(rows@),
            slide::takes_windows(*reduce),
            forall|r: &Reducer, m: Option<Moments>, n: u64, v: u64|
                call_requires(*step, (r, m, n, v)),
        ensures
            match (*old(self), *final(self)) {
                (MetricAggState::Instant(a), MetricAggState::Instant(b)) => {
                    let next = instant::take_instant_rows(a.cfg, a.streams@, a@, rows@, rows@.len() as int);
                    match res {
                        Ok(()) => {
                            &&& next == Ok::<InstantView, ErrorView>(b@)
                            &&& b.wf(*step)
                            &&& b.same_query(a)
                            &&& b.taken@ == a.taken@ + rows@.len()
                        },
                        Err(e) => {
                            let before = instant::before_refusal(
                                a.cfg,
                                a.streams@,
                                a@,
                                rows@,
                                rows@.len() as int,
                            );
                            &&& next == Err::<InstantView, ErrorView>(e@)
                            &&& b.same_query(a)
                            &&& b@.groups == before.groups
                            &&& b@.group_bytes == before.group_bytes
                        },
                    }
                },
                (MetricAggState::Range(a), MetricAggState::Range(b)) => {
                    let next = range_model::take_rows(a.cfg, a.streams@, a@, rows@, rows@.len() as int);
                    match res {
                        Ok(()) => {
                            &&& next == Ok::<SlideView, ErrorView>(b@)
                            &&& b.wf(*reduce)
                            &&& b.same_query(a)
                            &&& b.scanned@ <= a.scanned@ + range_model::rows_cost(rows@)
                            &&& rows@.len() > 0 && b.last@ is Some ==> range_model::scan_le(
                                b.last@->0,
                                range_model::row_key(rows@.last()),
                            )
                            &&& rows@.len() == 0 ==> b.last == a.last
                        },
                        Err(e) => {
                            &&& next == Err::<SlideView, ErrorView>(e@)
                            &&& b.same_query(a)
                            &&& range_model::books(b@) == range_model::left_by_take_rows(
                                a.cfg,
                                a.streams@,
                                a@,
                                rows@,
                                rows@.len() as int,
                            )
                        },
                    }
                },
                _ => false,
            },
    {
        match self {
            MetricAggState::Instant(s) => s.push_rows(rows, step),
            MetricAggState::Range(s) => s.push_rows(rows, reduce),
        }
    }

    /// Ends the query.
    pub fn finish<
        F: Fn(&Reducer, u64, &[WinSample]) -> u64,
        T,
        K: Fn(&LeafFold) -> T,
        P: Fn(&T, &LabelSet, &Vec<(i64, u64)>) -> Result<T, ReadError>,
        D: Fn(T) -> Vec<MatrixSeries>,
        S: Fn(&Reducer, Option<Moments>, u64, u64) -> Moments,
        B: Fn(&Reducer, BucketAcc) -> u64,
    >(self, reduce: &F, fold: &FoldSteps<K, P, D>, step: &S, done: &B) -> (res: Result<QueryResult, ReadError>)
        requires
            self.wf(*reduce, *step),
            slide::takes_windows(*reduce),
            range::takes_series(*fold),
            instant::takes_groups(*done),
        ensures
            match self {
                MetricAggState::Instant(s) => res matches Ok(QueryResult::Vector(out))
                    && instant::instant_answer(
                    *step,
                    *done,
                    s.cfg,
                    text::labels_view(s.absent_labels@),
                    s@,
                    out@,
                ),
                MetricAggState::Range(s) => match range::end_state(s.cfg, s.streams@, s@) {
                    Err(e) => res matches Err(got) && got@ == e,
                    Ok(x) => range::answers(
                        *reduce,
                        *fold,
                        s.cfg,
                        text::labels_view(s.absent_labels@),
                        range::fold_view(s.fold),
                        x,
                        res,
                    ),
                },
            },
    {
        match self {
            MetricAggState::Instant(s) => Ok(s.finish(step, done)),
            MetricAggState::Range(s) => s.finish(reduce, fold),
        }
    }

    /// How many vector aggregations the state applies itself.
    pub fn folded_aggs(&self) -> (n: usize)
        ensures
            n == (match *self {
                MetricAggState::Instant(_) => 0int,
                MetricAggState::Range(s) => if s.fold is Some {
                    1
                } else {
                    0
                },
            }),
    {
        match self {
            MetricAggState::Instant(_) => 0,
            MetricAggState::Range(s) => s.folded_aggs(),
        }
    }
}

/// The innermost vector aggregation, where the leaf applies it.
pub open spec fn leaf_fold(aggs: Seq<VectorAggSpec>) -> Option<VectorAggSpec> {
    if aggs.len() > 0 && agg::folds(aggs.last().op) {
        Some(aggs.last())
    } else {
        None
    }
}

/// What a leaf is handed of a vector aggregation.
pub open spec fn leaf_handed(
    cfg: SlideConfig,
    spec_: Option<VectorAggSpec>,
) -> Option<LeafFoldView> {
    match spec_ {
        None => None,
        Some(s) => Some(range::handed(cfg, s@)),
    }
}

/// The vector aggregations that are left once the leaf has applied its own.
pub open spec fn rest_aggs(aggs: Seq<VectorAggSpec>) -> Seq<VectorAggSpec> {
    if leaf_fold(aggs) is Some {
        aggs.drop_last()
    } else {
        aggs
    }
}

/// Whether `res` is what `apply` makes of an answer, or the answer's error.
pub open spec fn applied<H: Fn(QueryResult, &[VectorAggSpec]) -> Result<QueryResult, ReadError>>(
    apply: H,
    aggs: Seq<VectorAggSpec>,
    leaf: Result<QueryResult, ReadError>,
    res: Result<QueryResult, ReadError>,
) -> bool {
    match leaf {
        Err(e) => res == Err::<QueryResult, ReadError>(e),
        Ok(q) => exists|left: &[VectorAggSpec]|
            left@ == aggs && #[trigger] call_ensures(apply, (q, left), res),
    }
}

/// The refusal of a range query whose grid has too many intervals.
pub open spec fn fence_error(window: ClientWindow) -> Option<ErrorView> {
    match window {
        ClientWindow::Instant => None,
        ClientWindow::Range { grid_start_ns, end_ns, step_ns, .. } => {
            let n = window::fence_intervals(grid_start_ns, end_ns, step_ns.value() as u64);
            if n > MAX_CLIENT_AGG_BUCKETS {
                Some(
                    ErrorView::QueryTooBroad(
                        TooBroadReason::MetricBuckets {
                            buckets: n as u64,
                            cap: MAX_CLIENT_AGG_BUCKETS,
                        },
                    ),
                )
            } else {
                None
            }
        },
    }
}

/// Whether `leaf` is what a query over the rows answers before the vector
/// aggregations that the leaf does not apply.
pub open spec fn leaf_answer<
    F: Fn(&Reducer, u64, &[WinSample]) -> u64,
    T,
    K: Fn(&LeafFold) -> T,
    P: Fn(&T, &LabelSet, &Vec<(i64, u64)>) -> Result<T, ReadError>,
    D: Fn(T) -> Vec<MatrixSeries>,
    S: Fn(&Reducer, Option<Moments>, u64, u64) -> Moments,
    B: Fn(&Reducer, BucketAcc) -> u64,
>(
    reduce: F,
    fold: FoldSteps<K, P, D>,
    step: S,
    done: B,
    rows: Seq<MetricScanRow>,
    streams: Map<u64, StreamMeta>,
    client: ClientAgg,
    window: ClientWindow,
    rate_window_ns: Option<u64>,
    aggs: Seq<VectorAggSpec>,
    leaf: Result<QueryResult, ReadError>,
) -> bool {
    let caps = AggCaps::default_caps();
    let absent = text::labels_view(client.absent_labels@);
    match window {
        ClientWindow::Instant => instant_result(
            step,
            done,
            instant_config(client, rate_window_ns, caps),
            streams,
            absent,
            rows,
            leaf,
        ),
        ClientWindow::Range { grid_start_ns, end_ns, step_ns, range_ns, offset_ns } => range_answer(
            reduce,
            fold,
            range::config_of(
                client,
                range::grid_of(grid_start_ns, end_ns, step_ns, range_ns),
                offset_ns,
                rate_window_ns,
                caps,
            ),
            streams,
            absent,
            leaf_fold(aggs),
            rows,
            leaf,
        ),
    }
}

/// Evaluates an aggregation over rows with given reductions.
fn run_rows<
    F: Fn(&Reducer, u64, &[WinSample]) -> u64,
    T,
    K: Fn(&LeafFold) -> T,
    P: Fn(&T, &LabelSet, &Vec<(i64, u64)>) -> Result<T, ReadError>,
    D: Fn(T) -> Vec<MatrixSeries>,
    S: Fn(&Reducer, Option<Moments>, u64, u64) -> Moments,
    B: Fn(&Reducer, BucketAcc) -> u64,
    H: Fn(QueryResult, &[VectorAggSpec]) -> Result<QueryResult, ReadError>,
>(
    rows: Vec<MetricScanRow>,
    streams: HashMap<u64, StreamMeta>,
    client: &ClientAgg,
    window: ClientWindow,
    rate_window_ns: Option<u64>,
    aggs: &Vec<VectorAggSpec>,
    reduce: &F,
    fold: &FoldSteps<K, P, D>,
    step: &S,
    done: &B,
    apply: &H,
) -> (res: Result<QueryResult, ReadError>)
    requires
        window is Range ==> range::client_wf(*client),
        range_model::rows_cost(rows@) <= i64::MAX,
        slide::takes_windows(*reduce),
        range::takes_series(*fold),
        forall|r: &Reducer, m: Option<Moments>, n: u64, v: u64| call_requires(*step, (r, m, n, v)),
        instant::takes_groups(*done),
        forall|q: QueryResult, s: &[VectorAggSpec]| call_requires(*apply, (q, s)),
    ensures
        match fence_error(window) {
            Some(e) => res matches Err(got) && got@ == e,
            None => exists|leaf: Result<QueryResult, ReadError>| {
                &&& #[trigger] leaf_answer(
                    *reduce,
                    *fold,
                    *step,
                    *done,
                    rows@,
                    streams@,
                    *client,
                    window,
                    rate_window_ns,
                    aggs@,
                    leaf,
                )
                &&& applied(
                    *apply,
                    if window is Range {
                        rest_aggs(aggs@)
                    } else {
                        aggs@
                    },
                    leaf,
                    res,
                )
            },
        },
{
    let ghost meta = streams@;
    proof {
        range_model::lemma_rows_cost_part(rows@, rows@.len() as int);
        assert(rows@.take(rows@.len() as int) =~= rows@);
    }
    match window {
        ClientWindow::Range { .. } => {
            let mut state = match RangeSlideState::new(
                streams,
                client,
                window,
                rate_window_ns,
                AggCaps::default_caps(),
            ) {
                Ok(s) => s,
                Err(e) => {
                    return Err(e);
                },
            };
            let ghost start = state;
            let n: usize = aggs.len();
            if n > 0 {
                state.attach_fold(&aggs[n - 1]);
            }
            let folded: usize = state.folded_aggs();
            proof {
                start.lemma_fresh_wf(*reduce);
                assert(state@ == range::start_view());
                assert(state.wf(*reduce));
                assert(range::fold_view(state.fold) == leaf_handed(state.cfg, leaf_fold(aggs@)));
            }
            let ghost given = rows@;
            let ordered = in_order(rows);
            match state.push_rows(&ordered, reduce) {
                Ok(()) => {},
                Err(e) => {
                    proof {
                        let leaf = Err::<QueryResult, ReadError>(e);
                        assert(leaf_answer(
                            *reduce,
                            *fold,
                            *step,
                            *done,
                            given,
                            meta,
                            *client,
                            window,
                            rate_window_ns,
                            aggs@,
                            leaf,
                        ));
                    }
                    return Err(e);
                },
            }
            let leaf = state.finish(reduce, fold);
            proof {
                assert(leaf_answer(
                    *reduce,
                    *fold,
                    *step,
                    *done,
                    given,
                    meta,
                    *client,
                    window,
                    rate_window_ns,
                    aggs@,
                    leaf,
                ));
            }
            match leaf {
                Ok(q) => {
                    let left = vstd::slice::slice_subrange(aggs.as_slice(), 0, n - folded);
                    proof {
                        assert(left@ =~= rest_aggs(aggs@));
                    }
                    apply(q, left)
                },
                Err(e) => Err(e),
            }
        },
        ClientWindow::Instant => {
            let mut state = ClientAggState::new(
                streams,
                client,
                rate_window_ns,
                AggCaps::default_caps(),
            );
            proof {
                state.lemma_fresh_wf(*step);
            }
            match state.push_rows(&rows, step) {
                Ok(()) => {},
                Err(e) => {
                    proof {
                        let leaf = Err::<QueryResult, ReadError>(e);
                        assert(leaf_answer(
                            *reduce,
                            *fold,
                            *step,
                            *done,
                            rows@,
                            meta,
                            *client,
                            window,
                            rate_window_ns,
                            aggs@,
                            leaf,
                        ));
                    }
                    return Err(e);
                },
            }
            let q = state.finish(step, done);
            proof {
                let leaf = Ok::<QueryResult, ReadError>(q);
                assert(leaf_answer(
                    *reduce,
                    *fold,
                    *step,
                    *done,
                    rows@,
                    meta,
                    *client,
                    window,
                    rate_window_ns,
                    aggs@,
                    leaf,
                ));
            }
            apply(q, aggs.as_slice())
        },
    }
}

/// Starts a fold that keeps nothing.
fn start_nothing(_fold: &LeafFold) {
}

/// Keeps nothing of a series.
fn push_nothing(_state: &(), _labels: &LabelSet, _points: &Vec<(i64, u64)>) -> (r: Result<
    (),
    ReadError,
>)
    ensures
        r is Ok,
{
    Ok(())
}

/// Ends a fold that kept nothing.
fn end_nothing(_state: ()) -> (out: Vec<MatrixSeries>)
    ensures
        out@.len() == 0,
{
    Vec::new()
}

/// Hands a result on as it is.
fn keep_result(q: QueryResult, _aggs: &[VectorAggSpec]) -> (r: Result<QueryResult, ReadError>)
    ensures
        r == Ok::<QueryResult, ReadError>(q),
{
    Ok(q)
}

// ---------------------------------------------------------------------
// The answers over an arithmetic.
// ---------------------------------------------------------------------

/// The series a range query that ends in state `x` comes to, on its own grid.
pub open spec fn leaf_points<A: Fn(Arith, u64, u64) -> u64>(
    arith: A,
    cfg: SlideConfig,
    absent_labels: Seq<PairView>,
    x: SlideView,
) -> Seq<SeriesPointsView> {
    if cfg.is_absent {
        let points = presence::absent_points(cfg.grid, x.covers, cfg.grid.slots());
        if points.len() == 0 {
            Seq::empty()
        } else {
            seq![(absent_labels, points)]
        }
    } else {
        let series = if cfg.fan_out {
            range::grouped_series(cfg, x.groups)
        } else {
            x.closed
        };
        series.map_values(
            |s: SeriesView|
                (
                    s.labels,
                    reduction::grid_values(arith, cfg.reducer, cfg.grid, s.hist, cfg.grid.slots()),
                ),
        )
    }
}

/// What a range query over the rows comes to, on its own grid.
pub open spec fn range_outcome<A: Fn(Arith, u64, u64) -> u64>(
    arith: A,
    cfg: SlideConfig,
    streams: Map<u64, StreamMeta>,
    absent_labels: Seq<PairView>,
    rows: Seq<MetricScanRow>,
) -> Result<Seq<SeriesPointsView>, ErrorView> {
    let ordered = order::stable_sort(rows, scan_rank());
    match range_model::take_rows(cfg, streams, range::start_view(), ordered, ordered.len() as int) {
        Err(e) => Err(e),
        Ok(v) => match range::end_state(cfg, streams, v) {
            Err(e) => Err(e),
            Ok(x) => Ok(leaf_points(arith, cfg, absent_labels, x)),
        },
    }
}

/// Series with every point moved by an offset.
pub open spec fn moved_views(series: Seq<SeriesPointsView>, offset: int) -> Seq<SeriesPointsView> {
    series.map_values(|s: SeriesPointsView| (s.0, range::moved(s.1, offset)))
}

/// The samples an instant query that ends in state `v` comes to.
pub open spec fn instant_samples<A: Fn(Arith, u64, u64) -> u64>(
    arith: A,
    cfg: InstantConfig,
    absent_labels: Seq<PairView>,
    v: InstantView,
) -> Seq<SampleView> {
    if cfg.is_absent() {
        if v.present {
            Seq::empty()
        } else {
            seq![(absent_labels, number::ONE)]
        }
    } else {
        v.groups.map_values(
            |g: GroupTally| (g.labels, reduction::history_value(arith, cfg.reducer, g.hist)),
        )
    }
}

/// What an instant query over the rows comes to.
pub open spec fn instant_outcome<A: Fn(Arith, u64, u64) -> u64>(
    arith: A,
    cfg: InstantConfig,
    streams: Map<u64, StreamMeta>,
    absent_labels: Seq<PairView>,
    rows: Seq<MetricScanRow>,
) -> Result<Seq<SampleView>, ErrorView> {
    match instant::take_instant_rows(cfg, streams, instant_start(), rows, rows.len() as int) {
        Err(e) => Err(e),
        Ok(v) => Ok(instant_samples(arith, cfg, absent_labels, v)),
    }
}

/// The configuration of a range query.
pub open spec fn range_config(
    client: ClientAgg,
    window: ClientWindow,
    rate_window_ns: Option<u64>,
) -> SlideConfig
    recommends
        window is Range,
{
    range::config_of(
        client,
        range::grid_of(
            window->grid_start_ns,
            window->end_ns,
            window->step_ns,
            window->range_ns,
        ),
        window->offset_ns,
        rate_window_ns,
        AggCaps::default_caps(),
    )
}

/// Whether `leaf` is what an aggregation over the rows comes to, with the vector
/// aggregation that its series are handed to.
pub open spec fn folded_leaf<
    A: Fn(Arith, u64, u64) -> u64,
    T,
    K: Fn(&LeafFold) -> T,
    P: Fn(&T, &LabelSet, &Vec<(i64, u64)>) -> Result<T, ReadError>,
    D: Fn(T) -> Vec<MatrixSeries>,
>(
    arith: A,
    fold: FoldSteps<K, P, D>,
    rows: Seq<MetricScanRow>,
    streams: Map<u64, StreamMeta>,
    client: ClientAgg,
    window: ClientWindow,
    rate_window_ns: Option<u64>,
    spec_: Option<VectorAggSpec>,
    leaf: Result<QueryResult, ReadError>,
) -> bool {
    let absent = text::labels_view(client.absent_labels@);
    match window {
        ClientWindow::Instant => match instant_outcome(
            arith,
            instant_config(client, rate_window_ns, AggCaps::default_caps()),
            streams,
            absent,
            rows,
        ) {
            Err(e) => leaf matches Err(got) && got@ == e,
            Ok(s) => leaf matches Ok(QueryResult::Vector(out)) && agg::samples_view(out@) == s,
        },
        ClientWindow::Range { .. } => {
            let cfg = range_config(client, window, rate_window_ns);
            match range_outcome(arith, cfg, streams, absent, rows) {
                Err(e) => leaf matches Err(got) && got@ == e,
                Ok(s) => match spec_ {
                    None => leaf matches Ok(QueryResult::Matrix(out)) && agg::series_view(out@)
                        == moved_views(s, cfg.offset_ns as int),
                    Some(sp) => exists|
                        series: Seq<MatrixSeries>,
                        f: LeafFold,
                        states: Seq<T>,
                        r: Result<Vec<MatrixSeries>, ReadError>,
                    |
                        #![trigger range::fold_comes_to(
                            fold,
                            f,
                            range::fold_order(cfg, series),
                            states,
                            r,
                        )]
                        {
                            &&& series.len() <= usize::MAX
                            &&& f@ == range::handed(cfg, sp@)
                            &&& range::fold_comes_to(
                                fold,
                                f,
                                range::fold_order(cfg, series),
                                states,
                                r,
                            )
                            &&& match r {
                                Ok(made) => {
                                    &&& agg::series_view(series) == s
                                    &&& leaf matches Ok(QueryResult::Matrix(out))
                                        && range::moved_series(made@, out@, cfg.offset_ns as int)
                                },
                                Err(e) => {
                                    &&& made_first(cfg, s, agg::series_view(series))
                                    &&& leaf == Err::<QueryResult, ReadError>(e)
                                },
                            }
                        },
                },
            }
        },
    }
}

/// Whether `made` are the series that had been made when one of them was refused: all
/// of them, or, where they are made one group after the other, the first.
pub open spec fn made_first(
    cfg: SlideConfig,
    series: Seq<SeriesPointsView>,
    made: Seq<SeriesPointsView>,
) -> bool {
    if cfg.fan_out && !cfg.is_absent {
        made.len() <= series.len() && made == series.take(made.len() as int)
    } else {
        made == series
    }
}

/// With the reduction over an arithmetic, series are the values of their samples.
proof fn lemma_series_are_their_values<
    A: Fn(Arith, u64, u64) -> u64,
    F: Fn(&Reducer, u64, &[WinSample]) -> u64,
>(arith: A, reduce: F, cfg: SlideConfig, series: Seq<SeriesView>, out: Seq<MatrixSeries>)
    requires
        reduction::reduces_windows(arith, reduce),
        range::series_of(reduce, cfg, series, out),
    ensures
        agg::series_view(out) == series.map_values(
            |s: SeriesView|
                (
                    s.labels,
                    reduction::grid_values(arith, cfg.reducer, cfg.grid, s.hist, cfg.grid.slots()),
                ),
        ),
{
    assert forall|i: int| 0 <= i < out.len() implies #[trigger] out[i].points@
        == reduction::grid_values(
        arith,
        cfg.reducer,
        cfg.grid,
        series[i].hist,
        cfg.grid.slots(),
    ) by {
        reduction::law_points_are_window_values(
            arith,
            reduce,
            cfg.reducer,
            cfg.grid,
            series[i].hist,
            cfg.grid.slots(),
            out[i].points@,
        );
    }
    assert(agg::series_view(out) =~= series.map_values(
        |s: SeriesView|
            (
                s.labels,
                reduction::grid_values(arith, cfg.reducer, cfg.grid, s.hist, cfg.grid.slots()),
            ),
    ));
}

/// With the reduction over an arithmetic, the series of a state are their values.
proof fn lemma_leaf_is_its_points<
    A: Fn(Arith, u64, u64) -> u64,
    F: Fn(&Reducer, u64, &[WinSample]) -> u64,
>(
    arith: A,
    reduce: F,
    cfg: SlideConfig,
    absent_labels: Seq<PairView>,
    x: SlideView,
    out: Seq<MatrixSeries>,
)
    requires
        reduction::reduces_windows(arith, reduce),
        range::leaf_series(reduce, cfg, absent_labels, x, out),
    ensures
        agg::series_view(out) == leaf_points(arith, cfg, absent_labels, x),
{
    if !cfg.is_absent {
        let series = if cfg.fan_out {
            range::grouped_series(cfg, x.groups)
        } else {
            x.closed
        };
        lemma_series_are_their_values(arith, reduce, cfg, series, out);
    } else {
        assert(agg::series_view(out) =~= leaf_points(arith, cfg, absent_labels, x));
    }
}

/// The same of the series that had been made when one of them was refused.
proof fn lemma_made_are_their_points<
    A: Fn(Arith, u64, u64) -> u64,
    F: Fn(&Reducer, u64, &[WinSample]) -> u64,
>(
    arith: A,
    reduce: F,
    cfg: SlideConfig,
    absent_labels: Seq<PairView>,
    x: SlideView,
    out: Seq<MatrixSeries>,
)
    requires
        reduction::reduces_windows(arith, reduce),
        range::leaf_begins(reduce, cfg, absent_labels, x, out),
    ensures
        made_first(cfg, leaf_points(arith, cfg, absent_labels, x), agg::series_view(out)),
{
    if cfg.fan_out && !cfg.is_absent {
        let all = range::grouped_series(cfg, x.groups);
        let n = out.len() as int;
        lemma_series_are_their_values(arith, reduce, cfg, all.take(n), out);
        assert(agg::series_view(out) =~= leaf_points(arith, cfg, absent_labels, x).take(n));
    } else {
        lemma_leaf_is_its_points(arith, reduce, cfg, absent_labels, x, out);
    }
}

/// With the reductions over an arithmetic, the samples of a state are their values.
proof fn lemma_samples_are_their_values<
    A: Fn(Arith, u64, u64) -> u64,
    S: Fn(&Reducer, Option<Moments>, u64, u64) -> Moments,
    B: Fn(&Reducer, BucketAcc) -> u64,
>(
    arith: A,
    step: S,
    done: B,
    cfg: InstantConfig,
    absent_labels: Seq<PairView>,
    v: InstantView,
    out: Seq<VectorSample>,
)
    requires
        reduction::steps_moments(arith, step),
        reduction::finishes_groups(arith, done),
        instant::instant_answer(step, done, cfg, absent_labels, v, out),
    ensures
        agg::samples_view(out) == instant_samples(arith, cfg, absent_labels, v),
{
    if !cfg.is_absent() {
        assert forall|i: int| 0 <= i < out.len() implies #[trigger] out[i].value
            == reduction::history_value(arith, cfg.reducer, v.groups[i].hist) by {
            reduction::law_groups_are_their_samples(
                arith,
                step,
                done,
                cfg.reducer,
                v.groups[i].hist,
                out[i].value,
            );
        }
    }
    assert(agg::samples_view(out) =~= instant_samples(arith, cfg, absent_labels, v));
}

/// Moving series moves what they show.
pub proof fn lemma_moved_views(a: Seq<MatrixSeries>, b: Seq<MatrixSeries>, offset: int)
    requires
        range::moved_series(a, b, offset),
    ensures
        agg::series_view(b) == moved_views(agg::series_view(a), offset),
{
    assert(agg::series_view(b) =~= moved_views(agg::series_view(a), offset));
}

/// With the reductions over an arithmetic, an answer is that over the arithmetic.
proof fn lemma_leaf_over_arithmetic<
    A: Fn(Arith, u64, u64) -> u64,
    F: Fn(&Reducer, u64, &[WinSample]) -> u64,
    T,
    K: Fn(&LeafFold) -> T,
    P: Fn(&T, &LabelSet, &Vec<(i64, u64)>) -> Result<T, ReadError>,
    D: Fn(T) -> Vec<MatrixSeries>,
    S: Fn(&Reducer, Option<Moments>, u64, u64) -> Moments,
    B: Fn(&Reducer, BucketAcc) -> u64,
>(
    arith: A,
    reduce: F,
    fold: FoldSteps<K, P, D>,
    step: S,
    done: B,
    rows: Seq<MetricScanRow>,
    streams: Map<u64, StreamMeta>,
    client: ClientAgg,
    window: ClientWindow,
    rate_window_ns: Option<u64>,
    aggs: Seq<VectorAggSpec>,
    leaf: Result<QueryResult, ReadError>,
)
    requires
        reduction::reduces_windows(arith, reduce),
        reduction::steps_moments(arith, step),
        reduction::finishes_groups(arith, done),
        leaf_answer(
            reduce,
            fold,
            step,
            done,
            rows,
            streams,
            client,
            window,
            rate_window_ns,
            aggs,
            leaf,
        ),
    ensures
        folded_leaf(
            arith,
            fold,
            rows,
            streams,
            client,
            window,
            rate_window_ns,
            leaf_fold(aggs),
            leaf,
        ),
{
    let absent = text::labels_view(client.absent_labels@);
    match window {
        ClientWindow::Instant => {
            let cfg = instant_config(client, rate_window_ns, AggCaps::default_caps());
            match instant::take_instant_rows(
                cfg,
                streams,
                instant_start(),
                rows,
                rows.len() as int,
            ) {
                Err(_) => {},
                Ok(v) => {
                    let out = leaf->Ok_0->Vector_0@;
                    lemma_samples_are_their_values(arith, step, done, cfg, absent, v, out);
                },
            }
        },
        ClientWindow::Range { .. } => {
            let cfg = range_config(client, window, rate_window_ns);
            let ordered = order::stable_sort(rows, scan_rank());
            let taken = range_model::take_rows(
                cfg,
                streams,
                range::start_view(),
                ordered,
                ordered.len() as int,
            );
            if taken is Ok {
                let ended = range::end_state(cfg, streams, taken->Ok_0);
                if ended is Ok {
                    let x = ended->Ok_0;
                    match leaf_fold(aggs) {
                        None => {
                            let series = choose|series: Seq<MatrixSeries>|
                                #![trigger range::leaf_series(reduce, cfg, absent, x, series)]
                                {
                                    &&& range::leaf_series(reduce, cfg, absent, x, series)
                                    &&& leaf matches Ok(QueryResult::Matrix(out))
                                        && range::moved_series(series, out@, cfg.offset_ns as int)
                                };
                            lemma_leaf_is_its_points(arith, reduce, cfg, absent, x, series);
                            lemma_moved_views(
                                series,
                                leaf->Ok_0->Matrix_0@,
                                cfg.offset_ns as int,
                            );
                        },
                        Some(sp) => {
                            let (series, f, states, r) = choose|
                                series: Seq<MatrixSeries>,
                                f: LeafFold,
                                states: Seq<T>,
                                r: Result<Vec<MatrixSeries>, ReadError>,
                            |
                                #![trigger range::folded(
                                    reduce,
                                    fold,
                                    cfg,
                                    absent,
                                    x,
                                    f,
                                    series,
                                    states,
                                    r,
                                )]
                                {
                                    &&& f@ == range::handed(cfg, sp@)
                                    &&& range::folded(
                                        reduce,
                                        fold,
                                        cfg,
                                        absent,
                                        x,
                                        f,
                                        series,
                                        states,
                                        r,
                                    )
                                    &&& match r {
                                        Ok(made) => leaf matches Ok(QueryResult::Matrix(out))
                                            && range::moved_series(
                                            made@,
                                            out@,
                                            cfg.offset_ns as int,
                                        ),
                                        Err(e) => leaf == Err::<QueryResult, ReadError>(e),
                                    }
                                };
                            match r {
                                Ok(_) => {
                                    lemma_leaf_is_its_points(
                                        arith,
                                        reduce,
                                        cfg,
                                        absent,
                                        x,
                                        series,
                                    );
                                },
                                Err(_) => {
                                    lemma_made_are_their_points(
                                        arith,
                                        reduce,
                                        cfg,
                                        absent,
                                        x,
                                        series,
                                    );
                                },
                            }
                            assert(range::fold_comes_to(
                                fold,
                                f,
                                range::fold_order(cfg, series),
                                states,
                                r,
                            ));
                        },
                    }
                }
            }
        },
    }
}

/// Evaluates an aggregation over rows, with the vector aggregations on top: on a
/// range query the innermost one is handed to the leaf, where the leaf can apply it,
/// which pushes its series into it one after the other, and the others are applied
/// afterwards; on an instant query all of them are.
pub fn run_client_agg_rows_folded<
    A: Fn(Arith, u64, u64) -> u64,
    T,
    K: Fn(&LeafFold) -> T,
    P: Fn(&T, &LabelSet, &Vec<(i64, u64)>) -> Result<T, ReadError>,
    D: Fn(T) -> Vec<MatrixSeries>,
    H: Fn(QueryResult, &[VectorAggSpec]) -> Result<QueryResult, ReadError>,
>(
    rows: Vec<MetricScanRow>,
    streams: HashMap<u64, StreamMeta>,
    client: &ClientAgg,
    window: ClientWindow,
    rate_window_ns: Option<u64>,
    aggs: &Vec<VectorAggSpec>,
    arith: &A,
    fold: &FoldSteps<K, P, D>,
    apply: &H,
) -> (res: Result<QueryResult, ReadError>)
    requires
        window is Range ==> range::client_wf(*client),
        range_model::rows_cost(rows@) <= i64::MAX,
        number::computes(*arith),
        range::takes_series(*fold),
        forall|q: QueryResult, s: &[VectorAggSpec]| call_requires(*apply, (q, s)),
    ensures
        match fence_error(window) {
            Some(e) => res matches Err(got) && got@ == e,
            None => exists|leaf: Result<QueryResult, ReadError>| {
                &&& #[trigger] folded_leaf(
                    *arith,
                    *fold,
                    rows@,
                    streams@,
                    *client,
                    window,
                    rate_window_ns,
                    leaf_fold(aggs@),
                    leaf,
                )
                &&& applied(
                    *apply,
                    if window is Range {
                        rest_aggs(aggs@)
                    } else {
                        aggs@
                    },
                    leaf,
                    res,
                )
            },
        },
{
    let reduce = window_reducer(arith);
    let step = moment_stepper(arith);
    let done = group_finisher(arith);
    let ghost given = rows@;
    let ghost meta = streams@;
    let res = run_rows(
        rows,
        streams,
        client,
        window,
        rate_window_ns,
        aggs,
        &reduce,
        fold,
        &step,
        &done,
        apply,
    );
    proof {
        if fence_error(window) is None {
            let left = if window is Range {
                rest_aggs(aggs@)
            } else {
                aggs@
            };
            let leaf = choose|leaf: Result<QueryResult, ReadError>| {
                &&& #[trigger] leaf_answer(
                    reduce,
                    *fold,
                    step,
                    done,
                    given,
                    meta,
                    *client,
                    window,
                    rate_window_ns,
                    aggs@,
                    leaf,
                )
                &&& applied(*apply, left, leaf, res)
            };
            lemma_leaf_over_arithmetic(
                *arith,
                reduce,
                *fold,
                step,
                done,
                given,
                meta,
                *client,
                window,
                rate_window_ns,
                aggs@,
                leaf,
            );
        }
    }
    res
}

/// What a query answers.
pub enum AnswerView {
    Vector(Seq<SampleView>),
    Matrix(Seq<SeriesPointsView>),
}

/// What an aggregation over the rows answers.
pub open spec fn answer_of<A: Fn(Arith, u64, u64) -> u64>(
    arith: A,
    rows: Seq<MetricScanRow>,
    streams: Map<u64, StreamMeta>,
    client: ClientAgg,
    window: ClientWindow,
    rate_window_ns: Option<u64>,
) -> Result<AnswerView, ErrorView> {
    let absent = text::labels_view(client.absent_labels@);
    match (fence_error(window), window) {
        (Some(e), _) => Err(e),
        (None, ClientWindow::Instant) => match instant_outcome(
            arith,
            instant_config(client, rate_window_ns, AggCaps::default_caps()),
            streams,
            absent,
            rows,
        ) {
            Err(e) => Err(e),
            Ok(s) => Ok(AnswerView::Vector(s)),
        },
        (None, ClientWindow::Range { offset_ns, .. }) => match range_outcome(
            arith,
            range_config(client, window, rate_window_ns),
            streams,
            absent,
            rows,
        ) {
            Err(e) => Err(e),
            Ok(s) => Ok(AnswerView::Matrix(moved_views(s, offset_ns as int))),
        },
    }
}

/// Evaluates an aggregation over rows.
pub fn run_client_agg_rows<A: Fn(Arith, u64, u64) -> u64>(
    rows: Vec<MetricScanRow>,
    streams: HashMap<u64, StreamMeta>,
    client: &ClientAgg,
    window: ClientWindow,
    rate_window_ns: Option<u64>,
    arith: &A,
) -> (res: Result<QueryResult, ReadError>)
    requires
        window is Range ==> range::client_wf(*client),
        range_model::rows_cost(rows@) <= i64::MAX,
        number::computes(*arith),
    ensures
        match answer_of(*arith, rows@, streams@, *client, window, rate_window_ns) {
            Err(e) => res matches Err(got) && got@ == e,
            Ok(AnswerView::Vector(s)) => res matches Ok(QueryResult::Vector(out))
                && agg::samples_view(out@) == s,
            Ok(AnswerView::Matrix(s)) => res matches Ok(QueryResult::Matrix(out))
                && agg::series_view(out@) == s,
        },
{
    let none: Vec<VectorAggSpec> = Vec::new();
    run_client_agg_rows_folded(
        rows,
        streams,
        client,
        window,
        rate_window_ns,
        &none,
        arith,
        &FoldSteps { start: start_nothing, push: push_nothing, done: end_nothing },
        &keep_result,
    )
}

} // verus!
