//! Client-side aggregation over rows at hand.
use std::collections::HashMap;

use pulsus_read::accum::{
    rate_counter_extrapolated, rate_counter_over_sorted, reduce_window, VectorAccum,
};
use pulsus_read::cells::{mut_cells_for, MutCells, MutGroup};
use pulsus_read::charge::{
    charge_group_bytes, group_entry_bytes, retention_points_per_sample, AggCaps,
    MAX_CLIENT_AGG_GROUP_BYTES, MAX_COUNTER_VALUES, MAX_QUANTILE_VALUES,
    MAX_RETAINED_WINDOW_POINTS, MAX_TS_COLLISION_GROUP, MAX_TS_COLLISION_GROUP_BYTES,
};
use pulsus_read::client_agg::{
    in_order, run_client_agg_rows, run_client_agg_rows_folded, MetricAggState,
};
use pulsus_read::error::{ReadError, RowBudget, RowBudgetExceeded, TooBroadReason};
use pulsus_read::fan_out::StructuredMetadataCtx;
use pulsus_read::instant::{BucketAcc, ClientAggState};
use pulsus_read::model::{
    ClientAgg, ClientValue, Grouping, GroupingKind, MatrixSeries, MetricRun, MetricScanRow,
    QueryResult, RangeAggOp, StreamMeta, VectorAggOp, VectorAggSpec,
};
use pulsus_read::number::Arith;
use pulsus_read::range::{
    check_surviving_error, shift_emitted_points, FoldSteps, LeafFold, RangeSlideState,
};
use pulsus_read::reduction::{group_finisher, moment_stepper, window_reducer};
use pulsus_read::slide::{
    reducer_class, CollMember, FpSlide, Reducer, ReducerClass, WinSample,
};
use pulsus_read::window::{
    ceil_div_i128, ensure_grid_resolution, ClientWindow, DurationNs, Grid,
    MAX_CLIENT_AGG_BUCKETS,
};

type Labels = Vec<(String, String)>;

type Kept = Vec<(Labels, Vec<(i64, u64)>)>;
type Started = fn(&LeafFold) -> Kept;
type Pushed = fn(&Kept, &Labels, &Vec<(i64, u64)>) -> Result<Kept, ReadError>;
type Done = fn(Kept) -> Vec<MatrixSeries>;

/// A fold that keeps the series as they are.
fn keep_all() -> FoldSteps<Started, Pushed, Done> {
    FoldSteps {
        start: |_| Vec::new(),
        push: |kept, labels, points| {
            let mut kept = kept.clone();
            kept.push((labels.clone(), points.clone()));
            Ok(kept)
        },
        done: |kept| {
            kept.into_iter().map(|(labels, points)| MatrixSeries { labels, points }).collect()
        },
    }
}

fn by(names: &[&str]) -> Grouping {
    Grouping {
        kind: GroupingKind::By,
        labels: names.iter().map(|n| n.to_string()).collect(),
    }
}

fn seconds(ns: u64) -> f64 {
    (ns / 1_000_000_000) as f64 + (ns % 1_000_000_000) as f64 / 1e9
}

fn arith(op: Arith, a: u64, b: u64) -> u64 {
    let (x, y) = (f64::from_bits(a), f64::from_bits(b));
    match op {
        Arith::Add => (x + y).to_bits(),
        Arith::Sub => (x - y).to_bits(),
        Arith::Mul => (x * y).to_bits(),
        Arith::Div => (x / y).to_bits(),
        Arith::Min => x.min(y).to_bits(),
        Arith::Max => x.max(y).to_bits(),
        Arith::Sqrt => x.sqrt().to_bits(),
        Arith::Floor => x.floor().to_bits(),
        Arith::Ceil => x.ceil().to_bits(),
        Arith::OfInteger => (a as f64).to_bits(),
        Arith::ToInteger => x as u64,
        Arith::Seconds => seconds(a).to_bits(),
        Arith::PerSecond => (x / seconds(b)).to_bits(),
        Arith::PerNothing => a,
    }
}

fn owned(pairs: &[(&str, &str)]) -> Labels {
    pairs.iter().map(|(k, v)| (k.to_string(), v.to_string())).collect()
}

/// The stages a test's lines go through.
#[derive(Clone, Copy, Default)]
struct Stages {
    logfmt: bool,
    line: Option<&'static str>,
    set: Option<(&'static str, &'static str)>,
    unwrap: Option<&'static str>,
}

const PLAIN: Stages = Stages { logfmt: false, line: None, set: None, unwrap: None };

impl Stages {
    fn logfmt() -> Stages {
        Stages { logfmt: true, ..PLAIN }
    }

    fn line(self, line: &'static str) -> Stages {
        Stages { line: Some(line), ..self }
    }

    fn set(self, name: &'static str, value: &'static str) -> Stages {
        Stages { set: Some((name, value)), ..self }
    }

    fn unwrap(self, name: &'static str) -> Stages {
        Stages { unwrap: Some(name), ..self }
    }

    fn mutates_labels(&self) -> bool {
        self.logfmt || self.set.is_some() || self.unwrap.is_some()
    }

    fn row(&self, base: &[(&str, &str)], fp: u64, ts: i64, body: &str) -> MetricScanRow {
        let mut labels = owned(base);
        if self.logfmt {
            for (k, v) in body.split_whitespace().filter_map(|w| w.split_once('=')) {
                labels.push((k.to_string(), v.trim_matches('"').to_string()));
            }
        }
        if let Some((k, v)) = self.set {
            labels.retain(|(name, _)| name != k);
            labels.push((k.to_string(), v.to_string()));
        }
        let value = self.unwrap.map(|name| {
            let i = labels.iter().position(|(k, _)| k == name).expect("the unwrapped label");
            labels.remove(i).1.parse::<f64>().expect("a number").to_bits()
        });
        let line_len = self.line.unwrap_or(body).len() as u64;
        MetricScanRow {
            fingerprint: fp,
            timestamp_ns: ts,
            body: body.to_string(),
            run: Ok(MetricRun::Kept { line_len, value, labels }),
        }
    }

    fn rows(&self, fp: u64, samples: &[(i64, &str)]) -> Vec<MetricScanRow> {
        samples.iter().map(|(ts, b)| self.row(&[("app", "a")], fp, *ts, b)).collect()
    }

    fn client(&self, value: ClientValue, range_op: RangeAggOp, param: Option<f64>) -> ClientAgg {
        ClientAgg {
            value,
            range_op,
            param: param.map(f64::to_bits),
            absent_labels: vec![],
            grouped: false,
            mutates_labels: self.mutates_labels(),
        }
    }
}

fn count_client() -> ClientAgg {
    PLAIN.client(ClientValue::Count, RangeAggOp::CountOverTime, None)
}

fn slide_meta(fp: u64, pairs: &[(&str, &str)]) -> HashMap<u64, StreamMeta> {
    HashMap::from([(fp, StreamMeta { labels: owned(pairs), stream_hash: fp.wrapping_mul(77) })])
}

fn meta() -> HashMap<u64, StreamMeta> {
    slide_meta(1, &[("app", "a")])
}

fn slide_window(start: i64, end: i64, step: u64, range: u64) -> ClientWindow {
    ClientWindow::Range {
        grid_start_ns: start,
        end_ns: end,
        step_ns: DurationNs::new(step).expect("a step"),
        range_ns: DurationNs::new(range).expect("a range"),
        offset_ns: 0,
    }
}

fn run(
    rows: Vec<MetricScanRow>,
    meta: HashMap<u64, StreamMeta>,
    client: &ClientAgg,
    window: ClientWindow,
    rate_window_ns: Option<u64>,
) -> Result<QueryResult, ReadError> {
    run_client_agg_rows(rows, meta, client, window, rate_window_ns, &arith)
}

fn numbers(points: &[(i64, u64)]) -> Vec<(i64, f64)> {
    points.iter().map(|(t, v)| (*t, f64::from_bits(*v))).collect()
}

fn one_series_points(res: QueryResult) -> (Labels, Vec<(i64, f64)>) {
    match res {
        QueryResult::Matrix(mut s) => {
            assert_eq!(s.len(), 1, "expected one series, got {s:?}");
            let s = s.remove(0);
            (s.labels, numbers(&s.points))
        }
        other => panic!("expected a matrix, got {other:?}"),
    }
}

fn range_state(
    meta: HashMap<u64, StreamMeta>,
    client: &ClientAgg,
    window: ClientWindow,
    rate_window_ns: Option<u64>,
) -> RangeSlideState {
    RangeSlideState::new(meta, client, window, rate_window_ns, AggCaps::default_caps())
        .expect("the grid is fine")
}

fn instant_state(
    meta: HashMap<u64, StreamMeta>,
    client: &ClientAgg,
    rate_window_ns: Option<u64>,
) -> ClientAggState {
    ClientAggState::new(meta, client, rate_window_ns, AggCaps::default_caps())
}

fn charged_units(cells: &MutCells) -> u64 {
    match cells {
        MutCells::IntExpanded(m) => m.len() as u64,
        MutCells::IntDeltas(m) => m.len() as u64,
        MutCells::Samples(v) => v.len() as u64,
    }
}

fn push(state: &mut RangeSlideState, rows: Vec<MetricScanRow>) -> Result<(), ReadError> {
    state.push_rows(&rows, &window_reducer(&arith))
}

fn push_instant(state: &mut ClientAggState, rows: Vec<MetricScanRow>) -> Result<(), ReadError> {
    state.push_rows(&rows, &moment_stepper(&arith))
}

fn finish_instant(state: ClientAggState) -> Vec<(Labels, f64)> {
    match state.finish(&moment_stepper(&arith), &group_finisher(&arith)) {
        QueryResult::Vector(items) => {
            items.into_iter().map(|s| (s.labels, f64::from_bits(s.value))).collect()
        }
        other => panic!("instant results are vectors, got {other:?}"),
    }
}

#[test]
fn sliding_count_over_time_matches_hand_computed_windows() {
    let rows = PLAIN.rows(1, &[(10, "x"), (20, "x"), (30, "x"), (40, "x"), (50, "x")]);
    let window = slide_window(0, 50, 10, 25);
    let res = run(rows, meta(), &count_client(), window, None).unwrap();
    let (_, points) = one_series_points(res);
    assert_eq!(
        points,
        vec![(10, 1.0), (20, 2.0), (30, 3.0), (40, 3.0), (50, 3.0)],
        "empty first window emits no point; overlapping windows slide"
    );
}

#[test]
fn a_sample_at_i64_min_is_inside_an_underflowing_window() {
    let rows = PLAIN.rows(1, &[(i64::MIN, "x")]);
    let window = slide_window(i64::MIN, i64::MIN, 1, 1);
    let res = run(rows, meta(), &count_client(), window, None).unwrap();
    let (_, points) = one_series_points(res);
    assert_eq!(points, vec![(i64::MIN, 1.0)], "the boundary sample must be counted");
}

#[test]
fn a_legitimate_i64_min_window_bound_still_excludes_the_boundary_sample() {
    let rows = PLAIN.rows(1, &[(i64::MIN, "out"), (i64::MIN + 1, "in")]);
    let window = slide_window(i64::MIN + 1, i64::MIN + 1, 1, 1);
    let res = run(rows, meta(), &count_client(), window, None).unwrap();
    let (_, points) = one_series_points(res);
    assert_eq!(
        points,
        vec![(i64::MIN + 1, 1.0)],
        "an exactly-representable exclusive bound must still evict the boundary sample"
    );
}

#[test]
fn sliding_rate_depends_on_the_range_selector() {
    let client = PLAIN.client(ClientValue::Count, RangeAggOp::Rate, None);
    let s = 1_000_000_000i64;
    let rate = |range_ns: i64| {
        let rows = PLAIN.rows(1, &[(31_000_000_000, "x"), (59_000_000_000, "x")]);
        let window = slide_window(60 * s, 60 * s, (60 * s) as u64, range_ns as u64);
        let res = run(rows, meta(), &client, window, Some(range_ns as u64)).unwrap();
        one_series_points(res).1
    };
    let r1m = rate(60 * s);
    let r10m = rate(600 * s);
    assert_ne!(r1m, r10m, "the [range] divisor must be live");
    assert_eq!(r1m, vec![(60 * s, 2.0 / 60.0)]);
    assert_eq!(r10m, vec![(60 * s, 2.0 / 600.0)]);
}

#[test]
fn sliding_collision_group_orders_by_full_body_deterministically() {
    let window = slide_window(0, 10, 10, 10);
    let mut base = vec![(5i64, "ccc"), (5, "aaa"), (5, "bbb")];
    let r1 = run(PLAIN.rows(1, &base), meta(), &count_client(), window, None).unwrap();
    base.reverse();
    let r2 = run(PLAIN.rows(1, &base), meta(), &count_client(), window, None).unwrap();
    assert_eq!(r1, r2, "shuffled collision input must be byte-stable");
    assert_eq!(one_series_points(r1).1, vec![(10, 3.0)]);
}

#[test]
fn sliding_collision_group_over_cap_is_a_named_too_broad_error() {
    let n = (MAX_TS_COLLISION_GROUP + 1) as usize;
    let rows: Vec<MetricScanRow> =
        (0..n).map(|i| PLAIN.row(&[("app", "a")], 1, 5, &format!("line-{i}"))).collect();
    let window = slide_window(0, 10, 10, 10);
    match run(rows, meta(), &count_client(), window, None) {
        Err(ReadError::QueryTooBroad(TooBroadReason::TsCollisionGroup { cap, .. })) => {
            assert_eq!(cap, MAX_TS_COLLISION_GROUP);
        }
        other => panic!("expected TsCollisionGroup, got {other:?}"),
    }
}

#[test]
fn sliding_dense_but_servable_window_streams_without_a_cap_error() {
    const N: i64 = 50_000;
    let rows: Vec<MetricScanRow> =
        (0..N).map(|i| PLAIN.row(&[("app", "a")], 1, i + 1, "x")).collect();
    let window = slide_window(0, N, N as u64, N as u64);
    let res = run(rows, meta(), &count_client(), window, None)
        .expect("a dense-but-servable window must stream, never 422");
    assert_eq!(one_series_points(res).1, vec![(N, N as f64)]);
}

fn quantile_reducer() -> Reducer {
    Reducer {
        op: RangeAggOp::QuantileOverTime,
        class: reducer_class(RangeAggOp::QuantileOverTime, ClientValue::Unwrap),
        value: ClientValue::Unwrap,
        param: Some(0.5f64.to_bits()),
        rate_window_ns: None,
    }
}

#[test]
fn sliding_retention_cap_trips_during_the_scan_with_the_named_error() {
    let per_sample = retention_points_per_sample(RangeAggOp::QuantileOverTime);
    assert_eq!(
        per_sample, 2,
        "quantile pre-charges its per-emit value copy alongside the window entry"
    );
    let grid = Grid { start: 0, step: 1_000_000, range: 1_000_000_000, kmax: 10 };
    let mut slide = FpSlide::new(7, vec![], quantile_reducer(), grid, per_sample);
    let mut retained = 0u64;
    const TINY_CAP: u64 = 100;
    let reduce = window_reducer(&arith);
    let mut err = None;
    let mut loads = 0u64;
    for i in 0..1_000i64 {
        let group =
            vec![CollMember { body: String::new(), value: (i as f64).to_bits(), out: None }];
        loads += 1;
        if let Err(e) = slide.load_group(1, &group, &reduce, &mut retained, TINY_CAP) {
            err = Some(e);
            break;
        }
    }
    match err {
        Some(ReadError::QueryTooBroad(TooBroadReason::MetricRetention { count, cap })) => {
            assert_eq!(cap, TINY_CAP);
            assert_eq!(count, TINY_CAP + per_sample, "trips at the first over-cap load");
        }
        other => panic!("expected MetricRetention, got {other:?}"),
    }
    assert_eq!(
        loads,
        TINY_CAP / per_sample + 1,
        "the cap must trip DURING the scan (after ~cap/per-sample loads), not after all 1000"
    );
    assert_eq!(
        slide.win.len() as u64,
        TINY_CAP / per_sample,
        "the refused sample must not have been pushed"
    );
}

#[test]
fn sliding_retention_charge_and_discharge_are_symmetric() {
    let per_sample = retention_points_per_sample(RangeAggOp::QuantileOverTime);
    let grid = Grid { start: 0, step: 10, range: 10, kmax: 100 };
    let mut slide = FpSlide::new(7, vec![], quantile_reducer(), grid, per_sample);
    let reduce = window_reducer(&arith);
    let mut retained = 0u64;
    let bound = 3 * per_sample;
    for i in 1..=100i64 {
        let group =
            vec![CollMember { body: String::new(), value: (i as f64).to_bits(), out: None }];
        slide
            .load_group(i * 10, &group, &reduce, &mut retained, MAX_RETAINED_WINDOW_POINTS)
            .expect("under cap");
        assert!(
            retained <= bound,
            "retention must stay window-bounded, saw {retained} after {i} loads"
        );
    }
    let series = slide.finish(&reduce, &mut retained).expect("a series");
    assert_eq!(retained, 0, "charge/discharge must be symmetric");
    let want: Vec<(i64, f64)> = (1..=100).map(|i| (i * 10, i as f64)).collect();
    assert_eq!(numbers(&series.points), want);
}

#[test]
fn sliding_same_stream_tie_rank_orders_class_c_and_first_last_deterministically() {
    let window = slide_window(0, 10, 10, 10);
    let bodies = [r#"a="3""#, "a=1", "a=2"];
    let stages = Stages::logfmt().unwrap("a");
    let over = |op: RangeAggOp, order: &[usize]| -> Vec<(i64, f64)> {
        let client = stages.client(ClientValue::Unwrap, op, None);
        let rows: Vec<MetricScanRow> =
            order.iter().map(|&i| stages.row(&[("app", "a")], 1, 5, bodies[i])).collect();
        let res = run(rows, meta(), &client, window, None).expect("eval");
        one_series_points(res).1
    };
    for order in [[0, 1, 2], [2, 1, 0], [1, 0, 2], [1, 2, 0], [2, 0, 1]] {
        assert_eq!(
            over(RangeAggOp::FirstOverTime, &order),
            vec![(10, 3.0)],
            "first = the min-(ts,stream_hash,tie_rank) sample (body order), input {order:?}"
        );
        assert_eq!(
            over(RangeAggOp::LastOverTime, &order),
            vec![(10, 2.0)],
            "last = the max-(ts,stream_hash,tie_rank) sample (body order), input {order:?}"
        );
        assert_eq!(over(RangeAggOp::SumOverTime, &order), vec![(10, 6.0)]);
    }
}

#[test]
fn the_result_point_charge_is_one_grid_width_per_output_series() {
    let window = slide_window(0, 100, 10, 30);
    let grid = 11u64;
    let stages = PLAIN.line("keep");
    let client = stages.client(ClientValue::Count, RangeAggOp::CountOverTime, None);
    assert!(!client.mutates_labels);
    let mut state = range_state(meta(), &client, window, None);
    let rows =
        stages.rows(1, &[(5, "a"), (6, "b"), (17, "c"), (28, "d"), (39, "e"), (95, "f")]);
    push(&mut state, rows).expect("fold");
    assert_eq!(
        state.result_points, grid,
        "one fingerprint => exactly one grid width, whatever its density"
    );

    let stages = Stages::logfmt();
    let client = stages.client(ClientValue::Count, RangeAggOp::CountOverTime, None);
    assert!(client.mutates_labels);
    for groups in [1u64, 3, 7] {
        let mut state = range_state(meta(), &client, window, None);
        let mut rows: Vec<MetricScanRow> = Vec::new();
        for g in 0..groups {
            for r in 0..2u64 {
                rows.push(stages.row(&[("app", "a")], 1, (g * 10 + r) as i64, &format!("id={g}")));
            }
        }
        push(&mut state, rows).expect("fold");
        assert_eq!(
            state.result_points,
            groups * grid,
            "{groups} output groups => {groups} grid widths"
        );
    }
}

#[test]
fn the_result_point_cap_refuses_before_the_group_exists() {
    let window = slide_window(0, 100, 10, 30);
    let stages = Stages::logfmt();
    let client = stages.client(ClientValue::Count, RangeAggOp::CountOverTime, None);
    let mut state = range_state(meta(), &client, window, None);
    state.cfg.caps.result_points = 22;
    let rows: Vec<MetricScanRow> = (0..4u64)
        .map(|g| stages.row(&[("app", "a")], 1, g as i64 * 10, &format!("id={g}")))
        .collect();
    match push(&mut state, rows) {
        Err(ReadError::QueryTooBroad(TooBroadReason::MetricResultPoints { count, cap })) => {
            assert_eq!(cap, 22);
            assert_eq!(count, 33, "the error names the breaching reservation");
        }
        other => panic!("expected MetricResultPoints, got {other:?}"),
    }
    assert_eq!(state.groups.len(), 2, "the breaching group must never be created");
    assert_eq!(state.result_points, 22, "a refused charge must not stick");
}

#[test]
fn the_instant_state_can_only_emit_a_vector() {
    for (op, value, stages) in [
        (RangeAggOp::CountOverTime, ClientValue::Count, PLAIN),
        (RangeAggOp::MaxOverTime, ClientValue::Unwrap, Stages::logfmt().unwrap("a")),
        (RangeAggOp::AbsentOverTime, ClientValue::Count, PLAIN),
    ] {
        for n in [3, 0] {
            let rows = stages.rows(1, &[(10, "a=1"), (20, "a=2"), (30, "a=3")][..n]);
            let mut client = stages.client(value, op, None);
            client.absent_labels = owned(&[("app", "a")]);
            let mut state = instant_state(meta(), &client, None);
            push_instant(&mut state, rows).expect("fold");
            let out = state.finish(&moment_stepper(&arith), &group_finisher(&arith));
            assert!(
                matches!(out, QueryResult::Vector(_)),
                "{op:?} over {n} row(s) must emit a vector, got {out:?}"
            );
        }
    }
}

#[test]
fn both_grouping_arms_fold_every_row_into_one_accumulator() {
    let samples = [(10, "a=1"), (20, "a=8"), (30, "a=2"), (40, "a=4")];
    let cases: [(RangeAggOp, ClientValue, Stages, f64); 3] = [
        (RangeAggOp::CountOverTime, ClientValue::Count, PLAIN, 4.0),
        (RangeAggOp::BytesOverTime, ClientValue::Bytes, PLAIN.line("abcde"), 20.0),
        (RangeAggOp::BytesOverTime, ClientValue::Bytes, PLAIN, 12.0),
    ];
    for (op, value, plain, want) in cases {
        for (arm, stages) in [("non-fan-out", plain), ("fan-out", plain.set("zone", "eu"))] {
            let client = stages.client(value, op, None);
            assert_eq!(
                client.mutates_labels,
                arm == "fan-out",
                "{op:?} {arm}: the fixture must take the arm it names"
            );
            let mut state = instant_state(meta(), &client, None);
            push_instant(&mut state, stages.rows(1, &samples)).expect("fold");
            let items = finish_instant(state);
            assert_eq!(items.len(), 1, "{op:?} {arm}: one group");
            assert_eq!(
                items[0].1.to_bits(),
                want.to_bits(),
                "{op:?} {arm}: every row must fold into the group's accumulator"
            );
        }
    }
}

#[test]
fn instant_absence_is_a_flag_over_the_whole_selector() {
    let mut client = PLAIN.client(ClientValue::Count, RangeAggOp::AbsentOverTime, None);
    client.absent_labels = owned(&[("app", "a")]);
    let over = |samples: &[(i64, &str)]| -> Vec<(Labels, f64)> {
        let mut state = instant_state(meta(), &client, None);
        push_instant(&mut state, PLAIN.rows(1, samples)).expect("fold");
        finish_instant(state)
    };
    assert_eq!(
        over(&[]),
        vec![(owned(&[("app", "a")]), 1.0)],
        "nothing survived => one absence sample"
    );
    assert_eq!(over(&[(10, "x")]).len(), 0, "one surviving line anywhere suppresses absence");
    assert_eq!(
        over(&[(10, "x"), (20, "y"), (90, "z")]).len(),
        0,
        "several surviving lines are still just 'present'"
    );
}

#[test]
fn the_mutating_cell_representation_is_chosen_by_one_predicate() {
    let arm = |class, range: i64, step: u64, kmax: i64| {
        match mut_cells_for(class, &Grid { start: 0, step, range, kmax }) {
            MutCells::IntExpanded(_) => "expanded",
            MutCells::IntDeltas(_) => "deltas",
            MutCells::Samples(_) => "samples",
        }
    };
    for (range, step, kmax, want) in [
        (9i64, 10u64, 10i64, "expanded"),
        (10, 10, 10, "deltas"),
        (11, 10, 10, "deltas"),
        (1_000, 10, 10, "deltas"),
        (1_000, 10, 0, "expanded"),
        (1_000, 10, -1, "expanded"),
        (1, u64::MAX, 10, "expanded"),
    ] {
        assert_eq!(
            arm(ReducerClass::InvertInteger, range, step, kmax),
            want,
            "class A at range={range} step={step} kmax={kmax}"
        );
    }
    for class in [ReducerClass::CanonicalFold, ReducerClass::ReduceIndependent] {
        for (range, step, kmax) in [(9i64, 10u64, 10i64), (10, 10, 10), (1_000, 10, 10)] {
            assert_eq!(arm(class, range, step, kmax), "samples", "{class:?}");
        }
    }
}

#[test]
fn the_class_a_drain_reproduces_the_untouched_streaming_slider() {
    for (step, range) in [(10u64, 5u64), (10, 10), (10, 45), (10, 200)] {
        let window = slide_window(0, 100, step, range);
        for (op, value) in [
            (RangeAggOp::CountOverTime, ClientValue::Count),
            (RangeAggOp::BytesOverTime, ClientValue::Bytes),
            (RangeAggOp::BytesRate, ClientValue::Bytes),
            (RangeAggOp::Rate, ClientValue::Count),
        ] {
            let over = |stages: Stages| -> Vec<(i64, u64)> {
                let client = stages.client(value, op, None);
                let rows: Vec<MetricScanRow> = (1..=9)
                    .map(|i| stages.row(&[("app", "a")], 1, i * 7, &format!("body-{i}")))
                    .collect();
                let res = run(rows, meta(), &client, window, Some(range)).unwrap();
                let QueryResult::Matrix(mut items) = res else {
                    panic!("expected a matrix");
                };
                assert_eq!(items.len(), 1, "{op:?}: one series");
                items.remove(0).points
            };
            for line in ["keep", ""] {
                let sliding = over(PLAIN.line(line));
                let fanned = over(PLAIN.line(line).set("zone", "eu"));
                assert!(!sliding.is_empty(), "{op:?}: the fixture must emit (line {line:?})");
                assert_eq!(
                    fanned, sliding,
                    "{op:?} at step={step} range={range} line={line:?}: the class-A drain must \
                     reproduce the streaming slider bit for bit"
                );
            }
        }
    }
}

fn two_streams() -> HashMap<u64, StreamMeta> {
    let mut meta = meta();
    meta.extend(slide_meta(2, &[("app", "b")]));
    meta
}

#[test]
fn the_sample_sweep_reproduces_the_per_cell_reduction() {
    let stages = Stages::logfmt().set("app", "same").unwrap("a");
    let rows = || {
        let mut rows: Vec<MetricScanRow> = (1..=9)
            .map(|i| stages.row(&[("app", "a")], 1, i * 7, &format!("a={}", (i * 13) % 7)))
            .collect();
        rows.extend(
            (1..=9)
                .map(|i| stages.row(&[("app", "b")], 2, i * 5 + 2, &format!("a={}", (i * 11) % 5))),
        );
        rows
    };
    let reduce = window_reducer(&arith);
    for (step, range) in [(10u64, 5u64), (10, 10), (10, 45), (10, 200)] {
        let window = slide_window(0, 100, step, range);
        for op in [
            RangeAggOp::MaxOverTime,
            RangeAggOp::MinOverTime,
            RangeAggOp::SumOverTime,
            RangeAggOp::AvgOverTime,
            RangeAggOp::FirstOverTime,
            RangeAggOp::LastOverTime,
            RangeAggOp::StddevOverTime,
            RangeAggOp::QuantileOverTime,
            RangeAggOp::RateCounter,
        ] {
            let param = matches!(op, RangeAggOp::QuantileOverTime).then_some(0.5);
            let client = stages.client(ClientValue::Unwrap, op, param);
            let mut state = range_state(two_streams(), &client, window, Some(range));
            push(&mut state, rows()).expect("fold");
            state.flush_collision(&reduce).expect("flush");
            let mut want: Vec<(Labels, Vec<(i64, u64)>)> = Vec::new();
            for group in &state.groups {
                let MutCells::Samples(samples) = &group.cells else {
                    panic!("{op:?} must retain samples");
                };
                let mut cells: HashMap<i64, Vec<WinSample>> = HashMap::new();
                for s in samples {
                    let (lo, hi) = state.cfg.grid.covering_k(s.ts);
                    for k in lo..=hi {
                        cells.entry(k).or_default().push(*s);
                    }
                }
                let mut keys: Vec<i64> = cells.keys().copied().collect();
                keys.sort_unstable();
                let mut points: Vec<(i64, u64)> = Vec::new();
                for k in keys {
                    let pts = cells.get_mut(&k).expect("key present");
                    pts.sort_by_key(|s| (s.ts, s.stream_hash, s.tie_rank));
                    if let Some(v) = reduce_window(&arith, &state.cfg.reducer, 0, pts) {
                        points.push((state.cfg.grid.point(k), v));
                    }
                }
                want.push((group.labels.clone(), points));
            }
            want.sort();
            let mut got: Vec<(Labels, Vec<(i64, u64)>)> = state
                .finish_in_place(&reduce, &keep_all())
                .expect("finish")
                .into_iter()
                .map(|s| (s.labels, s.points))
                .collect();
            got.sort();
            want.retain(|(_, p)| !p.is_empty());
            assert!(!want.is_empty(), "{op:?}: the fixture must emit");
            assert_eq!(
                got, want,
                "{op:?} at step={step} range={range}: the two-pointer sweep must reproduce the \
                 per-cell reduction"
            );
        }
    }
}

#[test]
fn mutating_retention_is_independent_of_the_window_width() {
    for (op, value) in [
        (RangeAggOp::CountOverTime, ClientValue::Count),
        (RangeAggOp::MaxOverTime, ClientValue::Unwrap),
    ] {
        let stages = if matches!(value, ClientValue::Unwrap) {
            Stages::logfmt().set("zone", "eu").unwrap("a")
        } else {
            Stages::logfmt().set("zone", "eu")
        };
        let rows = || -> Vec<MetricScanRow> {
            (1..=6).map(|i| stages.row(&[("app", "a")], 1, i * 13, &format!("a={i}"))).collect()
        };
        let client = stages.client(value, op, None);
        assert!(client.mutates_labels);
        let mut charged: Vec<u64> = Vec::new();
        let mut expanded: Vec<u64> = Vec::new();
        for w in [1u64, 5, 40] {
            let step = 10u64;
            let window = slide_window(0, 2_000, step, w * step);
            let mut state = range_state(meta(), &client, window, None);
            push(&mut state, rows()).expect("fold");
            charged.push(state.retained);
            let cells: u64 = rows()
                .iter()
                .map(|r| {
                    let (lo, hi) = state.cfg.grid.covering_k(r.timestamp_ns);
                    if lo > hi { 0 } else { (hi - lo + 1) as u64 }
                })
                .sum();
            expanded.push(cells * state.cfg.per_sample);
            state.finish_in_place(&window_reducer(&arith), &keep_all()).expect("finish");
            assert_eq!(state.retained, 0, "{op:?} W={w}: charge returns to zero");
        }
        assert_eq!(charged[0], charged[1], "{op:?}: W=1 and W=5 must charge the same, got {charged:?}");
        assert_eq!(charged[0], charged[2], "{op:?}: W=1 and W=40 must charge the same, got {charged:?}");
        assert!(
            expanded[2] > 10 * charged[2],
            "{op:?}: the fixture must actually exercise a wide window (per-cell would charge {} \
             vs {} now)",
            expanded[2],
            charged[2]
        );
    }
}

#[test]
fn sliding_mutating_fan_out_charges_and_releases_retention_for_both_cell_kinds() {
    let window = slide_window(0, 100, 10, 30);
    for (op, value, expect_int_cells) in [
        (RangeAggOp::CountOverTime, ClientValue::Count, true),
        (RangeAggOp::MaxOverTime, ClientValue::Unwrap, false),
        (RangeAggOp::QuantileOverTime, ClientValue::Unwrap, false),
    ] {
        let stages = if matches!(value, ClientValue::Unwrap) {
            Stages::logfmt().set("region", "eu").unwrap("a")
        } else {
            Stages::logfmt().set("region", "eu")
        };
        let param = matches!(op, RangeAggOp::QuantileOverTime).then_some(0.5);
        let client = stages.client(value, op, param);
        assert!(client.mutates_labels, "must be the fan-out path");
        let mut state = range_state(meta(), &client, window, None);
        let rows: Vec<MetricScanRow> =
            (1..=5).map(|i| stages.row(&[("app", "a")], 1, i * 10, "a=1")).collect();
        push(&mut state, rows).expect("fan-out fold");
        assert!(state.retained > 0, "{op:?}: the mutating fan-out must CHARGE retention");
        let group = state.groups.first().expect("one output group");
        assert!(charged_units(&group.cells) > 0, "{op:?}: cells populated");
        if expect_int_cells {
            assert!(
                matches!(group.cells, MutCells::IntDeltas(_)),
                "{op:?}: overlapping windows take the delta arm"
            );
            assert_eq!(
                state.retained,
                charged_units(&group.cells),
                "{op:?}: every created int cell is charged exactly once"
            );
        } else {
            assert!(
                matches!(group.cells, MutCells::Samples(_)),
                "{op:?}: classes B/C retain samples"
            );
            assert_eq!(
                state.retained,
                charged_units(&group.cells) * retention_points_per_sample(op),
                "{op:?}: every retained point is charged exactly once, in `per_sample` units"
            );
        }
        let out = state.finish_in_place(&window_reducer(&arith), &keep_all()).expect("finish");
        assert!(!out.is_empty());
        assert_eq!(
            state.retained, 0,
            "{op:?}: every mutating-path charge must be discharged at finish"
        );
    }
}

#[test]
fn rate_counter_over_a_borrowed_window_is_bit_identical_to_the_owning_form() {
    fn reference(mut pts: Vec<(i64, f64)>, rate_window_ns: Option<u64>) -> f64 {
        if pts.len() < 2 {
            return 0.0;
        }
        let Some(rng_ns) = rate_window_ns.filter(|w| *w > 0) else {
            return 0.0;
        };
        pts.sort_by(|(at, _), (bt, _)| at.cmp(bt));
        let first_t = pts[0].0;
        let last_t = pts[pts.len() - 1].0;
        let first_f = pts[0].1;
        let last_f = pts[pts.len() - 1].1;
        let mut result_value = last_f - first_f;
        let mut last_value = 0.0_f64;
        for &(_, f) in &pts {
            if f < last_value {
                result_value += last_value;
            }
            last_value = f;
        }
        let sel_range_ms: i128 = (rng_ns / 1_000_000) as i128;
        let range_start = first_t as i128 - sel_range_ms;
        let mut duration_to_start = (first_t as i128 - range_start) as f64 / 1000.0;
        let duration_to_end = 0.0_f64;
        let sampled_interval = (last_t as i128 - first_t as i128) as f64 / 1000.0;
        let average_duration = sampled_interval / (pts.len() - 1) as f64;
        if result_value > 0.0 && first_f >= 0.0 {
            let duration_to_zero = sampled_interval * (first_f / result_value);
            if duration_to_zero < duration_to_start {
                duration_to_start = duration_to_zero;
            }
        }
        let threshold = average_duration * 1.1;
        let mut extrapolate_to = sampled_interval;
        extrapolate_to +=
            if duration_to_start < threshold { duration_to_start } else { average_duration / 2.0 };
        extrapolate_to +=
            if duration_to_end < threshold { duration_to_end } else { average_duration / 2.0 };
        result_value *= extrapolate_to / sampled_interval;
        result_value / ((rng_ns / 1_000_000_000) as f64 + (rng_ns % 1_000_000_000) as f64 / 1e9)
    }

    let windows: Vec<Vec<(i64, f64)>> = vec![
        vec![],
        vec![(10, 5.0)],
        vec![(10, 1.0), (20, 2.0), (30, 4.5)],
        vec![(10, 9.0), (20, 3.0), (30, 11.25), (40, 2.5), (50, 7.125)],
        vec![(10, 1.5), (10, 2.5), (10, 0.25), (25, 9.75)],
        vec![(0, 0.0), (1_000_000, 3.3), (5_000_000, 3.3000000000000003)],
    ];
    for pts in &windows {
        let ordered: Vec<WinSample> = pts
            .iter()
            .enumerate()
            .map(|(i, &(ts, value))| WinSample {
                ts,
                stream_hash: 7,
                tie_rank: i as u32,
                value: value.to_bits(),
            })
            .collect();
        for rate_window_ns in [None, Some(0u64), Some(30_000_000_000), Some(1_118_000_000)] {
            let reducer = Reducer {
                op: RangeAggOp::RateCounter,
                class: ReducerClass::CanonicalFold,
                value: ClientValue::Unwrap,
                param: None,
                rate_window_ns,
            };
            let borrowed = reduce_window(&arith, &reducer, 0, &ordered);
            let owned = if ordered.is_empty() {
                None
            } else {
                Some(reference(pts.clone(), rate_window_ns).to_bits())
            };
            assert_eq!(borrowed, owned, "for {pts:?} / {rate_window_ns:?}");
            let bits: Vec<(i64, u64)> = pts.iter().map(|(t, v)| (*t, v.to_bits())).collect();
            let sorted = rate_counter_over_sorted(&arith, &bits, rate_window_ns);
            assert_eq!(sorted, reference(pts.clone(), rate_window_ns).to_bits());
            let mut backwards = bits.clone();
            backwards.reverse();
            let mut want = pts.clone();
            want.reverse();
            assert_eq!(
                rate_counter_extrapolated(&arith, backwards, rate_window_ns),
                reference(want, rate_window_ns).to_bits()
            );
        }
    }
}

#[test]
fn fan_out_retention_cap_refuses_the_breaching_cell_before_inserting_it() {
    let window = slide_window(0, 100, 10, 30);
    const TINY_CAP: u64 = 4;
    for (op, value, integer) in [
        (RangeAggOp::CountOverTime, ClientValue::Count, true),
        (RangeAggOp::QuantileOverTime, ClientValue::Unwrap, false),
    ] {
        let stages = if matches!(value, ClientValue::Unwrap) {
            Stages::logfmt().set("region", "eu").unwrap("a")
        } else {
            Stages::logfmt().set("region", "eu")
        };
        let param = matches!(op, RangeAggOp::QuantileOverTime).then_some(0.5);
        let client = stages.client(value, op, param);
        let mut state = range_state(meta(), &client, window, None);
        state.cfg.caps.retention_points = TINY_CAP;
        let rows: Vec<MetricScanRow> =
            (1..=20).map(|i| stages.row(&[("app", "a")], 1, i * 10, "a=1")).collect();
        match push(&mut state, rows) {
            Err(ReadError::QueryTooBroad(TooBroadReason::MetricRetention { cap, count })) => {
                assert_eq!(cap, TINY_CAP);
                assert!(count > TINY_CAP, "{op:?}: the error names the breach");
            }
            other => panic!("{op:?}: expected MetricRetention, got {other:?}"),
        }
        let each = if integer { 1 } else { retention_points_per_sample(op) };
        let held: u64 = state.groups.iter().map(|g| charged_units(&g.cells) * each).sum();
        assert_eq!(state.retained, held, "{op:?}: the counter must match what is actually held");
        assert!(
            held <= TINY_CAP,
            "{op:?}: the breaching cell was inserted anyway ({held} held vs cap {TINY_CAP})"
        );
    }
}

#[test]
fn collision_group_byte_cap_trips_before_staging_large_bodies() {
    let stages = Stages::logfmt().unwrap("a");
    let client = stages.client(ClientValue::Unwrap, RangeAggOp::SumOverTime, None);
    let mut state = range_state(meta(), &client, slide_window(0, 10, 10, 10), None);
    let big = "x".repeat(1024 * 1024);
    let rows: Vec<MetricScanRow> =
        (0..64).map(|_| stages.row(&[("app", "a")], 1, 5, &format!("a=1 {big}"))).collect();
    match push(&mut state, rows) {
        Err(ReadError::QueryTooBroad(TooBroadReason::TsCollisionGroup { count, cap, .. })) => {
            assert_eq!(cap, MAX_TS_COLLISION_GROUP);
            assert!(
                count < MAX_TS_COLLISION_GROUP,
                "the BYTE cap must trip well before the member cap, tripped at {count}"
            );
        }
        other => panic!("expected TsCollisionGroup from the byte cap, got {other:?}"),
    }
    assert!(
        state.coll_bytes <= MAX_TS_COLLISION_GROUP_BYTES,
        "staged {} bytes exceeds the {MAX_TS_COLLISION_GROUP_BYTES}-byte cap",
        state.coll_bytes
    );
}

#[test]
fn collision_group_byte_cap_covers_fan_out_staging_without_bodies() {
    let stages = Stages::logfmt().set("region", "eu");
    let client = stages.client(ClientValue::Count, RangeAggOp::CountOverTime, None);
    assert!(client.mutates_labels, "must be the fan-out path");
    assert_eq!(
        reducer_class(client.range_op, client.value),
        ReducerClass::InvertInteger,
        "this case must be the class that stages NO body"
    );
    let mut state = range_state(meta(), &client, slide_window(0, 10, 10, 10), None);
    assert!(!state.cfg.needs_body_order);
    let big = "v".repeat(1024 * 1024);
    let rows: Vec<MetricScanRow> =
        (0..64).map(|_| stages.row(&[("app", "a")], 1, 5, &format!("big={big}"))).collect();
    match push(&mut state, rows) {
        Err(ReadError::QueryTooBroad(TooBroadReason::TsCollisionGroup {
            count,
            bytes,
            bytes_cap,
            ..
        })) => {
            assert!(
                count < MAX_TS_COLLISION_GROUP,
                "the BYTE dimension must trip, not the member count ({count})"
            );
            assert!(bytes > bytes_cap, "the error reports the byte breach");
        }
        other => panic!("fan-out staging must be byte-capped, got {other:?}"),
    }
    assert!(
        state.coll_bytes <= MAX_TS_COLLISION_GROUP_BYTES,
        "staged {} bytes exceeds the cap",
        state.coll_bytes
    );
}

#[test]
fn a_capped_collision_group_errors_rather_than_truncating_across_chunks() {
    let stages = Stages::logfmt().unwrap("a");
    let client = stages.client(ClientValue::Unwrap, RangeAggOp::SumOverTime, None);
    let mut state = range_state(meta(), &client, slide_window(0, 10, 10, 10), None);
    let big = "x".repeat(512 * 1024);
    let chunk = || -> Vec<MetricScanRow> {
        (0..5).map(|_| stages.row(&[("app", "a")], 1, 5, &format!("a=1 {big}"))).collect()
    };
    push(&mut state, chunk()).expect("first chunk under the cap");
    let after_first = state.coll_bytes;
    assert!(after_first > 0, "the straddling group carried a charge");
    assert_eq!(state.coll.len(), 5, "group stayed open across the chunk");
    match push(&mut state, chunk()) {
        Err(ReadError::QueryTooBroad(TooBroadReason::TsCollisionGroup { .. })) => {}
        other => panic!("the straddling group must trip the cap cleanly, got {other:?}"),
    }
    assert!(
        state.coll_bytes <= MAX_TS_COLLISION_GROUP_BYTES,
        "the accumulated charge stayed inside the cap"
    );
    assert!(state.coll_bytes >= after_first, "charge accumulated, not reset");
}

fn label_fixtures() -> Vec<(&'static str, String, Labels)> {
    let control: String = std::iter::repeat('\u{1}').take(512).collect();
    vec![
        (
            "all-control-character values",
            "a=1".to_string(),
            vec![("k".to_string(), control.clone()), ("kk".to_string(), control)],
        ),
        (
            "many one-byte labels",
            "a=1".to_string(),
            (0..64u32)
                .map(|i| (char::from(b'a' + (i % 26) as u8).to_string(), "x".to_string()))
                .collect(),
        ),
        ("no labels", "a=1 ".repeat(300), Vec::new()),
        (
            "mixed escapes and multi-byte",
            "a=1".to_string(),
            vec![
                ("q\"k".to_string(), "v\\\n\t\u{7}".to_string()),
                ("日本".to_string(), "🚀".repeat(40)),
            ],
        ),
    ]
}

fn labelled_row(ts: i64, body: &str, labels: &Labels) -> MetricScanRow {
    MetricScanRow {
        fingerprint: 1,
        timestamp_ns: ts,
        body: body.to_string(),
        run: Ok(MetricRun::Kept {
            line_len: body.len() as u64,
            value: Some(1.0f64.to_bits()),
            labels: labels.clone(),
        }),
    }
}

#[test]
fn member_stage_bytes_upper_bounds_every_allocation_stage_member_makes() {
    fn staged_capacity(state: &RangeSlideState) -> u64 {
        let mut n = (state.coll.capacity() * std::mem::size_of::<CollMember>()) as u64;
        for m in &state.coll {
            n += m.body.capacity() as u64;
            if let Some((key, labels)) = &m.out {
                n += key.capacity() as u64;
                n += (labels.capacity() * std::mem::size_of::<(String, String)>()) as u64;
                for (k, v) in labels {
                    n += (k.capacity() + v.capacity()) as u64;
                }
            }
        }
        n
    }
    let stages = Stages::logfmt().set("region", "eu").unwrap("a");
    let client = stages.client(ClientValue::Unwrap, RangeAggOp::SumOverTime, None);
    for (name, body, labels) in &label_fixtures() {
        let mut state = range_state(meta(), &client, slide_window(0, 10, 10, 10), None);
        assert!(state.cfg.needs_body_order, "{name}: bodies must be staged");
        assert!(state.cfg.fan_out, "{name}: label output must be staged");
        for _ in 0..20 {
            push(&mut state, vec![labelled_row(5, body, labels)]).expect("staged");
            assert!(
                state.coll_bytes >= staged_capacity(&state),
                "{name}: charge {} under-counts the {} bytes actually allocated after {} members",
                state.coll_bytes,
                staged_capacity(&state),
                state.coll.len()
            );
        }
        assert_eq!(state.coll.len(), 20);
    }
}

#[test]
fn coll_member_slot_charge_covers_the_size_class_rounded_realloc_peak() {
    fn worst_mainstream_retained(n: u64) -> u64 {
        let pow2_class = n.max(1).next_power_of_two();
        let glibc_chunk = (n + 8).div_ceil(16) * 16;
        pow2_class.max(glibc_chunk).max(32)
    }
    let mut state = range_state(meta(), &count_client(), slide_window(0, 100, 10, 30), None);
    assert!(!state.cfg.needs_body_order && !state.cfg.fan_out);
    push(&mut state, PLAIN.rows(1, &[(5, "x")])).expect("staged");
    let slot_charge = state.coll_bytes;
    let slot = std::mem::size_of::<CollMember>() as u64;
    let mut cap: u64 = 0;
    for n in 1..=1_000u64 {
        let old = if n == 1 {
            cap = 4;
            0
        } else if n > cap {
            let old = cap;
            cap *= 2;
            old
        } else {
            0
        };
        let peak = worst_mainstream_retained(cap * slot)
            + if old > 0 { worst_mainstream_retained(old * slot) } else { 0 };
        let charged = slot_charge * n;
        assert!(
            charged >= peak,
            "after {n} members the cumulative slot charge {charged} under-counts the rounded \
             realloc peak {peak}"
        );
    }
}

#[test]
fn query_lifetime_group_label_bytes_are_capped_before_the_map_insertion() {
    let stages = Stages::logfmt().set("region", "eu");
    let client = stages.client(ClientValue::Count, RangeAggOp::CountOverTime, None);
    let mut state = range_state(meta(), &client, slide_window(0, 100, 10, 30), None);
    state.cfg.caps.group_bytes = 1;
    let rows: Vec<MetricScanRow> = (1..=3)
        .map(|i| stages.row(&[("app", "a")], 1, i * 10, &format!("u=v{i}")))
        .collect();
    match push(&mut state, rows) {
        Err(ReadError::QueryTooBroad(TooBroadReason::MetricGroupLabelBytes { bytes, cap })) => {
            assert_eq!(cap, 1);
            assert!(bytes > cap, "the error names the byte breach");
        }
        other => panic!("expected MetricGroupLabelBytes, got {other:?}"),
    }
    assert!(state.groups.is_empty(), "the breaching group was inserted anyway");
    assert_eq!(state.group_bytes, 0, "a refused charge must not stick");
}

#[test]
fn the_slider_and_the_fold_hold_two_independent_group_byte_counters() {
    const FOLD_GROUP_CAP: u64 = 5_000;
    let stages = Stages::logfmt().set("keep", "1");
    let client = stages.client(ClientValue::Count, RangeAggOp::CountOverTime, None);
    let mut state = range_state(meta(), &client, slide_window(0, 100, 10, 30), None);
    state.cfg.caps.group_bytes = FOLD_GROUP_CAP;
    let spec =
        VectorAggSpec { op: VectorAggOp::Sum, grouping: Some(by(&["u"])), param: None };
    state.attach_fold(&spec);
    state.cfg.caps.group_bytes = MAX_CLIENT_AGG_GROUP_BYTES;
    assert_eq!(
        state.fold.as_ref().map(|f| f.group_bytes),
        Some(FOLD_GROUP_CAP),
        "the fold must carry its own cap"
    );
    assert_eq!(state.fold.as_ref().map(|f| f.spec == spec), Some(true));
    assert_ne!(
        state.fold.as_ref().map(|f| f.group_bytes),
        Some(state.cfg.caps.group_bytes),
        "two counters, two ceilings"
    );

    let big = "b".repeat(10_000);
    let rows = stages.rows(1, &[(10, "u=a"), (20, &format!("u={big}"))]);
    push(&mut state, rows).expect("the slider's own cap is ample");
    assert!(state.group_bytes > 0, "the slider must be holding its own group bytes");

    // The fold's own counter and cap.
    let fold = FoldSteps {
        start: |f: &LeafFold| (0u64, f.group_bytes),
        push: |counter: &(u64, u64), labels: &Labels, _: &Vec<(i64, u64)>| {
            let mut charged = counter.0;
            charge_group_bytes(&mut charged, group_entry_bytes("", labels, 0), counter.1)?;
            Ok((charged, counter.1))
        },
        done: |_: (u64, u64)| Vec::new(),
    };
    let (fold_state, err) = state
        .finish_in_place(&window_reducer(&arith), &fold)
        .expect_err("the fold's cap must refuse the wide group");
    match err {
        ReadError::QueryTooBroad(TooBroadReason::MetricGroupLabelBytes { bytes, cap }) => {
            assert_eq!(cap, FOLD_GROUP_CAP, "the breach names the fold's cap");
            assert!(bytes > cap);
        }
        other => panic!("expected MetricGroupLabelBytes, got {other:?}"),
    }
    let (fold_bytes, fold_cap) = fold_state.expect("the fold survives a refused push");
    assert!(fold_bytes > 0, "the fold's counter must hold the group that did fit");
    assert!(
        state.group_bytes > 0,
        "the slider's counter must still hold the un-drained group"
    );
    assert_ne!(
        fold_cap, state.cfg.caps.group_bytes,
        "two counters, two ceilings — collapsing them would make this one"
    );
    assert_eq!(state.cfg.caps.group_bytes, MAX_CLIENT_AGG_GROUP_BYTES);
}

#[test]
fn a_refused_push_leaves_the_charges_of_the_groups_not_let_go() {
    let stages = Stages::logfmt().set("keep", "1");
    let client = stages.client(ClientValue::Count, RangeAggOp::CountOverTime, None);
    let spec = || VectorAggSpec { op: VectorAggOp::Sum, grouping: None, param: None };
    let filled = || {
        let mut state = range_state(meta(), &client, slide_window(0, 100, 10, 30), None);
        state.attach_fold(&spec());
        // A last line, so that the three groups before it are not staged any more.
        let rows = stages.rows(1, &[(10, "u=a"), (20, "u=b"), (30, "u=c"), (40, "u=c")]);
        push(&mut state, rows).expect("under every cap");
        state
    };
    let entries: Vec<u64> = filled()
        .groups
        .iter()
        .map(|g| group_entry_bytes(&g.key, &g.labels, std::mem::size_of::<MutGroup>()))
        .collect();
    assert_eq!(entries.len(), 3);
    let refusal = || ReadError::PipelineInvalid { reason: "enough".to_string() };
    for allowed in 0..3usize {
        let mut state = filled();
        let fold = FoldSteps {
            start: |_: &LeafFold| Vec::new(),
            push: |seen: &Vec<Labels>, labels: &Labels, points: &Vec<(i64, u64)>| {
                assert!(!points.is_empty(), "a group without points is not pushed");
                if seen.len() == allowed {
                    return Err(refusal());
                }
                let mut seen = seen.clone();
                seen.push(labels.clone());
                Ok(seen)
            },
            done: |_: Vec<Labels>| Vec::new(),
        };
        let (seen, err) =
            state.finish_in_place(&window_reducer(&arith), &fold).expect_err("refused");
        assert!(matches!(err, ReadError::PipelineInvalid { reason } if reason == "enough"));
        let seen = seen.expect("the fold had been started");
        assert_eq!(seen.len(), allowed, "the state before the refused push comes back");
        assert!(seen.windows(2).all(|w| w[0] < w[1]), "groups are pushed by labels");
        assert_eq!(
            state.group_bytes,
            entries[allowed..].iter().sum::<u64>(),
            "the refused group is still charged, and so are those after it"
        );
        assert_eq!(state.retained == 0, allowed == 2, "only later groups hold points");
        assert!(state.fold.is_some());
    }
    let mut state = filled();
    let out = state.finish_in_place(&window_reducer(&arith), &keep_all()).expect("finish");
    assert_eq!(out.len(), 3);
    assert_eq!((state.group_bytes, state.retained), (0, 0));

    // Without groups, everything has been released before the first push.
    let mut state = range_state(meta(), &count_client(), slide_window(0, 100, 10, 30), None);
    state.attach_fold(&spec());
    push(&mut state, PLAIN.rows(1, &[(10, "a"), (20, "b")])).expect("under every cap");
    let fold = FoldSteps {
        start: |_: &LeafFold| 7u32,
        push: |_: &u32, _: &Labels, _: &Vec<(i64, u64)>| Err(refusal()),
        done: |_: u32| Vec::new(),
    };
    let (left, err) =
        state.finish_in_place(&window_reducer(&arith), &fold).expect_err("refused");
    assert_eq!(left, Some(7));
    assert!(matches!(err, ReadError::PipelineInvalid { .. }));
    assert_eq!((state.group_bytes, state.retained), (0, 0));
}

#[test]
fn a_refused_group_is_not_held_and_an_empty_batch_changes_nothing() {
    let stages = Stages::logfmt().set("region", "eu");
    let client = stages.client(ClientValue::Count, RangeAggOp::CountOverTime, None);
    let mut state = range_state(meta(), &client, slide_window(0, 100, 10, 30), None);
    state.cfg.caps.result_points = 22;
    push(&mut state, Vec::new()).expect("nothing to take");
    push(&mut state, stages.rows(1, &[(10, "u=a"), (20, "u=b"), (30, "u=c")]))
        .expect("two groups of eleven points each");
    push(&mut state, Vec::new()).expect("nothing to take");
    let (bytes, retained) = (state.group_bytes, state.retained);
    match push(&mut state, stages.rows(1, &[(40, "u=d")])) {
        Err(ReadError::QueryTooBroad(TooBroadReason::MetricResultPoints { count, cap })) => {
            assert_eq!((count, cap), (33, 22));
        }
        other => panic!("expected MetricResultPoints, got {other:?}"),
    }
    assert_eq!(state.groups.len(), 2, "the refused group is not held");
    assert_eq!(state.result_points, 22, "the refused points are not charged");
    assert_eq!(state.retained, retained);
    assert!(state.group_bytes > bytes, "the bytes that were charged before stand");
}

#[test]
fn group_label_byte_charges_match_the_live_map_and_release_at_finish() {
    let stages = Stages::logfmt().set("region", "eu");
    let client = stages.client(ClientValue::Count, RangeAggOp::CountOverTime, None);
    let mut state = range_state(meta(), &client, slide_window(0, 100, 10, 30), None);
    let rows = stages.rows(1, &[(10, "u=a"), (20, "u=b"), (30, "u=a"), (40, "u=c")]);
    push(&mut state, rows).expect("under every cap");
    assert_eq!(state.groups.len(), 2, "u=a (deduped) and u=b are flushed");
    let live: u64 = state
        .groups
        .iter()
        .map(|g| group_entry_bytes(&g.key, &g.labels, std::mem::size_of::<MutGroup>()))
        .sum();
    assert!(live > 0, "the fixture must exercise a real charge");
    assert_eq!(
        state.group_bytes, live,
        "the counter must equal the live map's sized entries — every insertion charged, \
         repeated groups charged once"
    );
    let out = state.finish_in_place(&window_reducer(&arith), &keep_all()).expect("finish");
    assert_eq!(
        state.group_bytes, 0,
        "every group-label byte charge must be discharged at finish"
    );
    assert_eq!(state.retained, 0, "retention symmetry is undisturbed");
    assert_eq!(out.len(), 3, "u=a, u=b and the finish-flushed u=c");
}

#[test]
fn group_entry_bytes_upper_bounds_the_retained_map_entry() {
    let stages = Stages::logfmt().set("region", "eu");
    let client = stages.client(ClientValue::Count, RangeAggOp::CountOverTime, None);
    let mut fixtures = label_fixtures();
    fixtures.push((
        "one huge value",
        "a=1".to_string(),
        vec![("big".to_string(), "v".repeat(1_000_000))],
    ));
    for (name, _, labels) in &fixtures {
        let mut state = range_state(meta(), &client, slide_window(0, 10, 10, 10), None);
        assert!(state.cfg.fan_out, "{name}: must be the fan-out path");
        push(&mut state, vec![labelled_row(5, "a=1", labels)]).expect("staged");
        state.flush_collision(&window_reducer(&arith)).expect("flushed");
        assert_eq!(state.groups.len(), 1, "{name}: one retained group");
        for g in &state.groups {
            let measured = g.key.capacity() as u64
                + (g.labels.capacity() * std::mem::size_of::<(String, String)>()) as u64
                + g.labels.iter().map(|(k, v)| (k.capacity() + v.capacity()) as u64).sum::<u64>();
            let charge = group_entry_bytes(&g.key, &g.labels, std::mem::size_of::<MutGroup>());
            assert!(
                charge >= measured,
                "{name}: charge {charge} under-counts the {measured} bytes actually retained"
            );
            assert_eq!(
                state.group_bytes, charge,
                "{name}: the counter carries exactly this entry's charge"
            );
        }
    }
}

#[test]
fn instant_fp_groups_are_byte_charged_capped_and_released_at_finish() {
    let stages = PLAIN.line("keep");
    let client = stages.client(ClientValue::Count, RangeAggOp::CountOverTime, None);
    assert!(!client.mutates_labels, "must be the NON-fan-out (fp_groups) path");
    let meta = || {
        let mut meta = slide_meta(1, &[("app", "a"), ("region", "eu-west-1")]);
        meta.extend(slide_meta(2, &[("app", "b"), ("region", "eu-west-2")]));
        meta
    };
    let row = |fp: u64, ts: i64| stages.row(&[], fp, ts, "hello");

    let mut state = instant_state(meta(), &client, None);
    state.cfg.caps.group_bytes = 1;
    match push_instant(&mut state, vec![row(1, 5)]) {
        Err(ReadError::QueryTooBroad(TooBroadReason::MetricGroupLabelBytes { bytes, cap })) => {
            assert_eq!(cap, 1);
            assert!(bytes > cap, "the error names the byte breach");
        }
        other => panic!("expected MetricGroupLabelBytes, got {other:?}"),
    }
    assert!(state.groups.is_empty(), "the breaching group was inserted anyway");
    assert_eq!(state.group_bytes, 0, "a refused charge must not stick");

    let mut state = instant_state(meta(), &client, None);
    push_instant(&mut state, vec![row(1, 5), row(2, 6), row(1, 7)]).expect("under every cap");
    assert_eq!(state.groups.len(), 2);
    let live: u64 = state
        .groups
        .iter()
        .map(|g| {
            let labels = &state.streams[&g.fp].labels;
            group_entry_bytes("", labels, std::mem::size_of::<(u64, BucketAcc)>())
        })
        .sum();
    assert!(live > 0, "the fixture must exercise a real charge");
    assert_eq!(
        state.group_bytes, live,
        "every fingerprint charged; the repeated one charged once"
    );
    assert_eq!(
        finish_instant(state),
        vec![
            (owned(&[("app", "a"), ("region", "eu-west-1")]), 2.0),
            (owned(&[("app", "b"), ("region", "eu-west-2")]), 1.0),
        ]
    );
}

#[test]
fn instant_fan_out_groups_are_byte_charged_capped_and_released_at_finish() {
    let stages = Stages::logfmt().set("region", "eu");
    let client = stages.client(ClientValue::Count, RangeAggOp::CountOverTime, None);
    assert!(client.mutates_labels, "must be the fan-out path");
    let mut state = instant_state(meta(), &client, None);
    state.cfg.caps.group_bytes = 1;
    match push_instant(&mut state, stages.rows(1, &[(5, "u=a")])) {
        Err(ReadError::QueryTooBroad(TooBroadReason::MetricGroupLabelBytes { bytes, cap })) => {
            assert_eq!(cap, 1);
            assert!(bytes > cap, "the error names the byte breach");
        }
        other => panic!("expected MetricGroupLabelBytes, got {other:?}"),
    }
    assert!(state.groups.is_empty(), "the breaching group was inserted anyway");
    assert_eq!(state.group_bytes, 0, "a refused charge must not stick");

    let mut state = instant_state(meta(), &client, None);
    push_instant(&mut state, stages.rows(1, &[(5, "u=a"), (6, "u=b"), (7, "u=a")]))
        .expect("under every cap");
    assert_eq!(state.groups.len(), 2);
    let live: u64 = state
        .groups
        .iter()
        .map(|g| {
            let slot = std::mem::size_of::<(String, (Labels, BucketAcc))>();
            group_entry_bytes(&g.key, &g.labels, slot)
        })
        .sum();
    assert!(live > 0, "the fixture must exercise a real charge");
    assert_eq!(
        state.group_bytes, live,
        "every insertion charged; the repeated group charged once"
    );
    assert_eq!(finish_instant(state).len(), 2);
}

#[test]
fn collision_group_byte_cap_does_not_reject_ordinary_bodies() {
    let stages = Stages::logfmt().unwrap("a");
    let client = stages.client(ClientValue::Unwrap, RangeAggOp::SumOverTime, None);
    let rows: Vec<MetricScanRow> = (0..500)
        .map(|i| stages.row(&[("app", "a")], 1, 5, &format!("a=1{}", " ".repeat(i % 7))))
        .collect();
    let res = run(rows, meta(), &client, slide_window(0, 10, 10, 10), None)
        .expect("500 ordinary same-ns bodies must be served");
    assert_eq!(one_series_points(res).1, vec![(10, 500.0)]);
}

#[test]
fn rate_counter_extreme_timestamps_do_not_overflow() {
    let one = 1.0f64.to_bits();
    let two = 2.0f64.to_bits();
    let v = rate_counter_extrapolated(
        &arith,
        vec![(i64::MIN + 1, one), (i64::MIN + 1_000, two)],
        Some(60_000_000_000),
    );
    let v = f64::from_bits(v);
    assert!(v.is_finite(), "near-i64::MIN must not overflow, got {v}");
    let v = rate_counter_extrapolated(
        &arith,
        vec![(i64::MIN + 1, one), (i64::MAX - 1, two)],
        Some(60_000_000_000),
    );
    let v = f64::from_bits(v);
    assert!(v.is_finite(), "full-i64-span must not overflow, got {v}");
}

#[test]
fn sliding_absent_presence_is_grid_bounded_not_scan_bounded() {
    let mut client = PLAIN.client(ClientValue::Count, RangeAggOp::AbsentOverTime, None);
    client.absent_labels = owned(&[("app", "a")]);
    let mut state = range_state(meta(), &client, slide_window(0, 100, 10, 10), None);
    let rows: Vec<MetricScanRow> =
        (0..20_000).map(|i| PLAIN.row(&[("app", "a")], 1, 51 + (i % 50), "x")).collect();
    push(&mut state, in_order(rows)).expect("dense absent scan");
    assert_eq!(
        state.present.cover.len(),
        100 / 10 + 2,
        "presence state must be grid-sized, independent of scan density"
    );
    assert_eq!(state.retained, 0, "absent retains no per-sample points");
    let QueryResult::Matrix(series) =
        state.finish(&window_reducer(&arith), &keep_all()).expect("finish")
    else {
        panic!("expected a matrix");
    };
    assert_eq!(series[0].labels, owned(&[("app", "a")]));
    let want: Vec<(i64, f64)> = [0, 10, 20, 30, 40, 50].map(|t| (t, 1.0)).to_vec();
    assert_eq!(numbers(&series[0].points), want);
}

#[test]
fn a_range_query_of_exactly_11000_intervals_is_served_not_422() {
    const S: i64 = 1_000_000_000;
    assert_eq!(ensure_grid_resolution(0, 11_000 * S, S as u64).ok(), Some(11_001));
    let window = slide_window(0, 11_000 * S, S as u64, S as u64);
    let state = range_state(meta(), &count_client(), window, None);
    assert_eq!(state.cfg.grid.kmax, 11_000);
    assert_eq!(state.cfg.grid.point(0), 0);
    assert_eq!(state.cfg.grid.point(11_000), 11_000 * S);
    let window = slide_window(0, 11_001 * S, S as u64, S as u64);
    match RangeSlideState::new(meta(), &count_client(), window, None, AggCaps::default_caps()) {
        Err(ReadError::QueryTooBroad(TooBroadReason::MetricBuckets { buckets, cap })) => {
            assert_eq!(buckets, 11_001);
            assert_eq!(cap, MAX_CLIENT_AGG_BUCKETS);
        }
        Err(other) => panic!("expected MetricBuckets, got {other:?}"),
        Ok(_) => panic!("one interval over the fence must be rejected"),
    }
    match run(vec![], meta(), &count_client(), window, None) {
        Err(ReadError::QueryTooBroad(TooBroadReason::MetricBuckets { buckets, .. })) => {
            assert_eq!(buckets, 11_001);
        }
        other => panic!("expected MetricBuckets, got {other:?}"),
    }
}

#[test]
fn a_full_domain_range_query_under_the_saturated_fence_is_served() {
    const STEP: u64 = 1_000_000_000_000_000;
    let last_point = (i64::MIN as i128 + 18_446 * STEP as i128) as i64;
    assert_eq!(ensure_grid_resolution(i64::MIN, i64::MAX, STEP).ok(), Some(18_447));
    assert!(last_point < i64::MAX);
    let window = slide_window(i64::MIN, i64::MAX, STEP, STEP);
    let state = range_state(meta(), &count_client(), window, None);
    assert_eq!(state.cfg.grid.kmax, 18_446);
    assert_eq!(state.cfg.grid.point(0), i64::MIN);
    assert_eq!(state.cfg.grid.point(18_446), last_point);
}

fn checkout() -> HashMap<u64, StreamMeta> {
    slide_meta(1, &[("env", "prod"), ("service_name", "checkout")])
}

fn checkout_rows(stages: Stages, samples: &[(i64, &str)]) -> Vec<MetricScanRow> {
    samples
        .iter()
        .map(|(ts, b)| {
            stages.row(&[("env", "prod"), ("service_name", "checkout")], 1, *ts, b)
        })
        .collect()
}

#[test]
fn quantile_value_retention_past_the_cap_is_a_named_too_broad_error() {
    let stages = Stages::logfmt().unwrap("v");
    let client = stages.client(ClientValue::Unwrap, RangeAggOp::QuantileOverTime, Some(0.5));
    let mut state = instant_state(checkout(), &client, None);
    state.quantile_values = MAX_QUANTILE_VALUES - 1;
    let err = push_instant(&mut state, checkout_rows(stages, &[(1, "v=1"), (2, "v=2")]))
        .unwrap_err();
    match err {
        ReadError::QueryTooBroad(TooBroadReason::QuantileValues { count, cap }) => {
            assert_eq!(cap, MAX_QUANTILE_VALUES);
            assert_eq!(count, MAX_QUANTILE_VALUES + 1);
        }
        other => panic!("expected QueryTooBroad(QuantileValues), got {other:?}"),
    }
}

fn rate_counter_inputs() -> (Stages, ClientAgg) {
    let stages = Stages::logfmt().unwrap("c");
    let client = stages.client(ClientValue::Unwrap, RangeAggOp::RateCounter, None);
    (stages, client)
}

#[test]
fn rate_counter_point_retention_is_capped_without_changing_values_below_it() {
    let (stages, client) = rate_counter_inputs();
    let rows = || {
        checkout_rows(
            stages,
            &[
                (10_000_000_000, "c=10"),
                (20_000_000_000, "c=30"),
                (30_000_000_000, "c=5"),
                (40_000_000_000, "c=12"),
            ],
        )
    };
    let result =
        run(rows(), checkout(), &client, ClientWindow::Instant, Some(60_000_000_000))
            .expect("below the cap the query succeeds");
    let QueryResult::Vector(items) = result else {
        panic!("expected a vector, got {result:?}");
    };
    assert_eq!(items.len(), 1, "one series expected: {items:?}");
    assert_eq!(f64::from_bits(items[0].value), 0.5333344);

    let mut state = instant_state(checkout(), &client, Some(60_000_000_000));
    state.counter_values = MAX_COUNTER_VALUES - 1;
    match push_instant(&mut state, rows()).unwrap_err() {
        ReadError::QueryTooBroad(TooBroadReason::CounterValues { count, cap }) => {
            assert_eq!(cap, MAX_COUNTER_VALUES);
            assert_eq!(count, MAX_COUNTER_VALUES + 1);
        }
        other => panic!("expected QueryTooBroad(CounterValues), got {other:?}"),
    }
}

#[test]
fn rate_counter_cap_bounds_total_retained_points() {
    let (stages, client) = rate_counter_inputs();
    let samples = [
        (10_000_000_000i64, "c=10"),
        (15_000_000_000, "c=30"),
        (25_000_000_000, "c=5"),
        (35_000_000_000, "c=12"),
        (45_000_000_000, "c=7"),
        (55_000_000_000, "c=20"),
    ];
    let mut state = instant_state(checkout(), &client, Some(60_000_000_000));
    push_instant(&mut state, checkout_rows(stages, &samples)).unwrap();
    assert_eq!(state.groups.len(), 1, "one series expected");
    let total_retained: usize = state
        .groups
        .iter()
        .map(|g| match &g.acc {
            BucketAcc::Counter(pts) => pts.len(),
            other => panic!("expected a Counter accumulator, got {other:?}"),
        })
        .sum();
    assert_eq!(total_retained, samples.len(), "every scanned row is retained exactly once");
    assert_eq!(
        state.counter_values,
        samples.len() as u64,
        "the per-row charge equals total retained points (a true bound)"
    );
    let items = finish_instant(state);
    assert_eq!(items.len(), 1, "one series: {items:?}");

    let mut capped = instant_state(checkout(), &client, Some(60_000_000_000));
    capped.counter_values = MAX_COUNTER_VALUES - 1;
    match push_instant(&mut capped, checkout_rows(stages, &samples)).unwrap_err() {
        ReadError::QueryTooBroad(TooBroadReason::CounterValues { count, cap }) => {
            assert_eq!(cap, MAX_COUNTER_VALUES);
            assert_eq!(count, MAX_COUNTER_VALUES + 1);
        }
        other => panic!("expected QueryTooBroad(CounterValues), got {other:?}"),
    }
}

#[test]
fn c17_c18_metric_path_pipeline_set_errors() {
    let labels = owned(&[("__error__", "JSONParserErr"), ("service_name", "v0")]);
    let err = check_surviving_error(&labels).expect_err("surviving __error__ fails");
    assert!(
        matches!(&err, ReadError::MetricPipelineError { error_type, series }
            if error_type == "JSONParserErr" && *series == labels),
        "{err:?}"
    );
    check_surviving_error(&owned(&[("service_name", "v0")])).expect("no surviving error");

    let row = |labels: Labels| labelled_row(10, "a=Hello b=World", &labels);
    let client = Stages::logfmt().client(ClientValue::Count, RangeAggOp::CountOverTime, None);
    for window in [ClientWindow::Instant, slide_window(0, 20, 10, 20)] {
        let failed = run(vec![row(labels.clone())], meta(), &client, window, None);
        assert!(matches!(failed, Err(ReadError::MetricPipelineError { .. })), "{failed:?}");
        let kept = row(owned(&[("service_name", "v0")]));
        assert!(run(vec![kept], meta(), &client, window, None).is_ok());
    }
}

#[test]
fn reserved_err_sm_fails_the_surviving_error_check_details_do_not() {
    let ctx = |err: &str, details: &str| StructuredMetadataCtx {
        err: err.to_string(),
        details: details.to_string(),
        has_ordinary: false,
        stream_label_count: None,
        sm_over_stream: vec![],
    };
    let mut labels = owned(&[("service_name", "s")]);
    ctx("boom", "").append_visible(&mut labels);
    assert!(check_surviving_error(&labels).is_err());
    let mut labels = owned(&[("service_name", "s")]);
    ctx("", "bdet").append_visible(&mut labels);
    check_surviving_error(&labels).expect("a lone details slot never fails a query");
}

#[test]
fn the_mutating_finish_emits_its_groups_in_label_order() {
    let stages = Stages::logfmt();
    let client = stages.client(ClientValue::Count, RangeAggOp::CountOverTime, None);
    assert!(client.mutates_labels, "this fixture must take the fan-out arm");
    let rows = stages.rows(
        1,
        &[
            (10, "id=zeta"),
            (11, "id=mike"),
            (12, "id=alpha"),
            (13, "id=romeo"),
            (14, "id=bravo"),
            (15, "id=xray"),
        ],
    );
    let res = run(rows, meta(), &client, slide_window(0, 20, 10, 20), None).unwrap();
    let QueryResult::Matrix(out) = res else {
        panic!("expected a matrix");
    };
    assert_eq!(out.len(), 6, "one group per distinct id");
    let labels: Vec<Labels> = out.iter().map(|s| s.labels.clone()).collect();
    let mut sorted = labels.clone();
    sorted.sort();
    assert_eq!(
        labels, sorted,
        "the fan-out arm must emit label-ascending — that ordering is what pins the fold's \
         member order"
    );
}

#[test]
fn every_s_leaf_in_the_walk_is_copy() {
    fn assert_copy<T: Copy>() {}
    assert_copy::<ClientWindow>();
    assert_copy::<ClientValue>();
    assert_copy::<RangeAggOp>();
    assert_copy::<VectorAggOp>();
    assert_copy::<WinSample>();
    assert_copy::<AggCaps>();
}

#[test]
fn present_cover_is_allocated_only_for_absent_over_time() {
    const S: i64 = 1_000_000_000;
    let window = slide_window(0, 50 * S, 10 * S as u64, 25 * S as u64);
    let count = range_state(meta(), &count_client(), window, None);
    assert!(count.present.cover.is_empty(), "non-absent pays no grid");
    assert_eq!(count.present.cover.capacity(), 0, "no allocation at all");
    let client = PLAIN.client(ClientValue::Count, RangeAggOp::AbsentOverTime, None);
    let absent = range_state(meta(), &client, window, None);
    assert_eq!(absent.present.cover.len(), (absent.cfg.grid.kmax + 2) as usize);
}

#[test]
fn dropped_lines_and_unknown_streams_count_for_nothing() {
    let dropped = MetricScanRow {
        fingerprint: 1,
        timestamp_ns: 12,
        body: "x".to_string(),
        run: Ok(MetricRun::Dropped),
    };
    let rows = vec![
        PLAIN.row(&[("app", "a")], 1, 11, "x"),
        dropped,
        PLAIN.row(&[("app", "z")], 9, 13, "x"),
        PLAIN.row(&[("app", "a")], 1, 14, "x"),
    ];
    let res = run(rows, meta(), &count_client(), slide_window(0, 20, 10, 10), None).unwrap();
    assert_eq!(one_series_points(res), (owned(&[("app", "a")]), vec![(20, 2.0)]));
}

#[test]
fn a_breached_row_budget_ends_the_query() {
    for window in [ClientWindow::Instant, slide_window(0, 20, 10, 10)] {
        let row = MetricScanRow {
            fingerprint: 1,
            timestamp_ns: 12,
            body: "x".to_string(),
            run: Err(RowBudgetExceeded { budget: RowBudget::TemplateRender }),
        };
        match run(vec![row], meta(), &count_client(), window, None) {
            Err(ReadError::QueryTooBroad(TooBroadReason::RowBudget { budget, cap })) => {
                assert_eq!((budget, cap), (RowBudget::TemplateRender, 67_108_864));
            }
            other => panic!("expected RowBudget, got {other:?}"),
        }
    }
}

#[test]
fn rows_out_of_scan_order_give_the_same_answer() {
    let shuffled = PLAIN.rows(1, &[(30, "c"), (10, "a"), (20, "b")]);
    let ordered = PLAIN.rows(1, &[(10, "a"), (20, "b"), (30, "c")]);
    let window = slide_window(0, 30, 10, 20);
    assert_eq!(
        run(shuffled, meta(), &count_client(), window, None).unwrap(),
        run(ordered, meta(), &count_client(), window, None).unwrap()
    );
}

#[test]
fn points_go_back_by_the_offset_they_were_moved_by() {
    let window = ClientWindow::Range {
        grid_start_ns: 0,
        end_ns: 20,
        step_ns: DurationNs::new(10).unwrap(),
        range_ns: DurationNs::new(10).unwrap(),
        offset_ns: 5,
    };
    let rows = PLAIN.rows(1, &[(10, "a"), (20, "b"), (20, "c")]);
    let res = run(rows, meta(), &count_client(), window, None).unwrap();
    assert_eq!(one_series_points(res).1, vec![(15, 1.0), (25, 2.0)]);
    let edge = QueryResult::Matrix(vec![MatrixSeries {
        labels: vec![],
        points: vec![(i64::MAX - 1, 7)],
    }]);
    match shift_emitted_points(edge, 5) {
        QueryResult::Matrix(s) => assert_eq!(s[0].points, vec![(i64::MAX, 7)]),
        other => panic!("{other:?}"),
    }
    assert_eq!(shift_emitted_points(QueryResult::Scalar(3), 5), QueryResult::Scalar(3));
}

#[test]
fn every_reducer_reduces_the_same_window_by_its_own_formula() {
    let stages = Stages::logfmt().unwrap("a");
    let samples = [(1, "a=4"), (2, "a=1"), (3, "a=3"), (4, "a=8")];
    let value = |op, param| {
        let client = stages.client(ClientValue::Unwrap, op, param);
        let res = run(
            stages.rows(1, &samples),
            meta(),
            &client,
            slide_window(10, 10, 10, 10),
            Some(2_000_000_000),
        )
        .unwrap();
        let ranged = one_series_points(res).1;
        let res = run(
            stages.rows(1, &samples),
            meta(),
            &client,
            ClientWindow::Instant,
            Some(2_000_000_000),
        )
        .unwrap();
        let QueryResult::Vector(v) = res else { panic!("a vector") };
        assert_eq!(ranged, vec![(10, f64::from_bits(v[0].value))], "{op:?}");
        ranged[0].1
    };
    assert_eq!(value(RangeAggOp::SumOverTime, None), 16.0);
    assert_eq!(value(RangeAggOp::AvgOverTime, None), 4.0);
    assert_eq!(value(RangeAggOp::MinOverTime, None), 1.0);
    assert_eq!(value(RangeAggOp::MaxOverTime, None), 8.0);
    // The running recurrence, not the two-pass formula, which gives 6.5.
    assert_eq!(value(RangeAggOp::StdvarOverTime, None), 6.500000000000001);
    assert_eq!(value(RangeAggOp::StddevOverTime, None), 6.500000000000001f64.sqrt());
    assert_eq!(value(RangeAggOp::FirstOverTime, None), 4.0);
    assert_eq!(value(RangeAggOp::LastOverTime, None), 8.0);
    assert_eq!(value(RangeAggOp::Rate, None), 8.0);
    assert_eq!(value(RangeAggOp::QuantileOverTime, Some(0.5)), 3.5);
    assert_eq!(value(RangeAggOp::QuantileOverTime, Some(0.0)), 1.0);
    assert_eq!(value(RangeAggOp::QuantileOverTime, Some(1.0)), 8.0);
    assert_eq!(value(RangeAggOp::QuantileOverTime, Some(1.5)), f64::INFINITY);
    assert_eq!(value(RangeAggOp::QuantileOverTime, Some(-1.0)), f64::NEG_INFINITY);
    assert!(value(RangeAggOp::QuantileOverTime, Some(0.25)) == 2.5);
}

#[test]
fn series_are_pushed_into_the_innermost_vector_aggregation() {
    let stages = Stages::logfmt();
    let client = stages.client(ClientValue::Count, RangeAggOp::CountOverTime, None);
    let total = FoldSteps {
        start: |f: &LeafFold| {
            assert_eq!(f.spec.op, VectorAggOp::Sum);
            assert_eq!(f.spec.grouping, Some(by(&["app"])), "the grouping is handed on");
            assert_eq!(f.result_points, AggCaps::default_caps().result_points);
            assert_eq!(f.group_bytes, AggCaps::default_caps().group_bytes);
            let times: Vec<i64> = (0..=f.grid.kmax).map(|k| f.grid.point(k)).collect();
            (times, Vec::new())
        },
        push: |state: &(Vec<i64>, Vec<Vec<(i64, u64)>>), _: &Labels, points: &Vec<(i64, u64)>| {
            let (times, mut members) = state.clone();
            members.push(points.clone());
            Ok((times, members))
        },
        done: |(times, members): (Vec<i64>, Vec<Vec<(i64, u64)>>)| {
            let op = VectorAggOp::Sum;
            let mut points = Vec::new();
            for t in times {
                let mut acc = VectorAccum::empty();
                for m in &members {
                    if let Some((_, v)) = m.iter().find(|p| p.0 == t) {
                        if acc.is_empty() {
                            acc = VectorAccum::seed(op, *v);
                        } else {
                            acc.update(op, *v, &arith);
                        }
                    }
                }
                if !acc.is_empty() {
                    points.push((t, acc.finish(op, &arith)));
                }
            }
            vec![MatrixSeries { labels: vec![], points }]
        },
    };
    let left = |q: QueryResult, aggs: &[VectorAggSpec]| {
        assert_eq!(aggs.len(), 1, "only the outer one is left");
        assert_eq!(aggs[0].op, VectorAggOp::Topk);
        assert_eq!(aggs[0].grouping, None);
        Ok(q)
    };
    let topk = || VectorAggSpec {
        op: VectorAggOp::Topk,
        grouping: None,
        param: Some(1.0f64.to_bits()),
    };
    let sum =
        || VectorAggSpec { op: VectorAggOp::Sum, grouping: Some(by(&["app"])), param: None };
    let rows = stages.rows(1, &[(5, "id=a"), (6, "id=b"), (15, "id=a")]);
    let res = run_client_agg_rows_folded(
        rows,
        meta(),
        &client,
        slide_window(0, 20, 10, 10),
        None,
        &vec![topk(), sum()],
        &arith,
        &total,
        &left,
    )
    .unwrap();
    assert_eq!(one_series_points(res).1, vec![(10, 2.0), (20, 1.0)]);

    let all = |q: QueryResult, aggs: &[VectorAggSpec]| {
        assert_eq!(aggs.len(), 2, "an instant query leaves both");
        Ok(q)
    };
    let refuse = FoldSteps {
        start: |_: &LeafFold| (),
        push: |_: &(), _: &Labels, _: &Vec<(i64, u64)>| {
            Err(ReadError::PipelineInvalid { reason: "refused".to_string() })
        },
        done: |_: ()| Vec::new(),
    };
    let rows = stages.rows(1, &[(5, "id=a")]);
    let res = run_client_agg_rows_folded(
        rows,
        meta(),
        &client,
        ClientWindow::Instant,
        None,
        &vec![topk(), sum()],
        &arith,
        &refuse,
        &all,
    );
    assert!(matches!(res, Ok(QueryResult::Vector(_))));

    let rows = stages.rows(1, &[(5, "id=a")]);
    let res = run_client_agg_rows_folded(
        rows,
        meta(),
        &client,
        slide_window(0, 20, 10, 10),
        None,
        &vec![sum()],
        &arith,
        &refuse,
        &all,
    );
    assert!(matches!(res, Err(ReadError::PipelineInvalid { .. })));
}

#[test]
fn caps_as_wide_as_their_counters_refuse_nothing() {
    let widest = AggCaps {
        group_bytes: u64::MAX,
        retention_points: u64::MAX,
        quantile_values: u64::MAX,
        counter_values: u64::MAX,
        collision_members: u64::MAX,
        collision_bytes: u64::MAX,
        result_points: u64::MAX,
    };
    let stages = Stages::logfmt().set("region", "eu");
    let client = stages.client(ClientValue::Count, RangeAggOp::CountOverTime, None);
    let rows = || stages.rows(1, &[(10, "u=a"), (20, "u=b"), (30, "u=a")]);
    let window = slide_window(0, 100, 10, 30);
    let mut state = RangeSlideState::new(meta(), &client, window, None, widest).unwrap();
    push(&mut state, rows()).expect("no cap");
    state.group_bytes = u64::MAX;
    state.result_points = u64::MAX;
    push(&mut state, stages.rows(1, &[(40, "u=c"), (50, "u=d")])).expect("counters stay at their top");
    assert_eq!((state.group_bytes, state.result_points), (u64::MAX, u64::MAX));
    let mut state = ClientAggState::new(meta(), &client, None, widest);
    push_instant(&mut state, rows()).expect("no cap");
    assert_eq!(finish_instant(state).len(), 2);
}

#[test]
fn division_rounds_up_for_every_dividend() {
    assert_eq!(ceil_div_i128(-7, 2), -3);
    assert_eq!(ceil_div_i128(7, 2), 4);
    assert_eq!(ceil_div_i128(-8, 2), -4);
    assert_eq!(ceil_div_i128(0, 5), 0);
    assert_eq!(ceil_div_i128(i128::MAX, 1), i128::MAX);
    assert_eq!(ceil_div_i128(i128::MIN, 1), i128::MIN);
    assert_eq!(ceil_div_i128(i128::MAX, 2), i128::MAX / 2 + 1);
    assert_eq!(ceil_div_i128(i128::MIN, i128::MAX), -1);
    assert_eq!(ceil_div_i128(1, i128::MAX), 1);
}

#[test]
fn a_range_answer_ignores_the_order_of_the_rows() {
    let samples = [(10, "a=3 u=x"), (10, "a=1 u=y"), (10, "a=2 u=x"), (20, "a=9 u=y"), (15, "a=4 u=z")];
    for (value, op, param) in [
        (ClientValue::Count, RangeAggOp::CountOverTime, None),
        (ClientValue::Bytes, RangeAggOp::BytesRate, None),
        (ClientValue::Unwrap, RangeAggOp::SumOverTime, None),
        (ClientValue::Unwrap, RangeAggOp::MinOverTime, None),
        (ClientValue::Unwrap, RangeAggOp::MaxOverTime, None),
        (ClientValue::Unwrap, RangeAggOp::QuantileOverTime, Some(0.5f64.to_bits())),
        (ClientValue::Unwrap, RangeAggOp::FirstOverTime, None),
        (ClientValue::Unwrap, RangeAggOp::LastOverTime, None),
    ] {
        for stages in [Stages::logfmt().unwrap("a"), Stages::logfmt().unwrap("a").set("k", "v")] {
            let mut client = stages.client(value, op, None);
            client.param = param;
            let window = slide_window(0, 40, 10, 15);
            let answer = |order: &[usize]| {
                let given: Vec<(i64, &str)> = order.iter().map(|i| samples[*i]).collect();
                run(stages.rows(1, &given), meta(), &client, window, None).unwrap()
            };
            let first = answer(&[0, 1, 2, 3, 4]);
            for order in [[4, 3, 2, 1, 0], [2, 0, 1, 4, 3], [1, 4, 0, 3, 2]] {
                assert_eq!(answer(&order), first, "{op:?}");
            }
        }
    }
}

#[test]
fn batches_of_rows_end_in_what_one_batch_ends_in() {
    let reduce = window_reducer(&arith);
    let step = moment_stepper(&arith);
    let done = group_finisher(&arith);
    let window = slide_window(0, 30, 10, 20);
    let samples = [(10, "a"), (20, "b"), (20, "c"), (30, "d")];
    let whole = run(PLAIN.rows(1, &samples), meta(), &count_client(), window, None).unwrap();
    let mut state = MetricAggState::Range(range_state(meta(), &count_client(), window, None));
    for s in samples {
        state.push_rows(&PLAIN.rows(1, &[s]), &reduce, &step).unwrap();
    }
    assert_eq!(state.folded_aggs(), 0);
    assert_eq!(state.finish(&reduce, &keep_all(), &step, &done).unwrap(), whole);

    let whole =
        run(PLAIN.rows(1, &samples), meta(), &count_client(), ClientWindow::Instant, None)
            .unwrap();
    let mut state = MetricAggState::Instant(instant_state(meta(), &count_client(), None));
    for s in samples {
        state.push_rows(&PLAIN.rows(1, &[s]), &reduce, &step).unwrap();
    }
    assert_eq!(state.folded_aggs(), 0);
    assert_eq!(state.finish(&reduce, &keep_all(), &step, &done).unwrap(), whole);
}
