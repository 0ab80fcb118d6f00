//! Caps, charges and the bounds composed of them.
use pulsus_read::charge::{
    alloc_block_bytes, charge_group_bytes, charge_result_points, charge_retention,
    discharge_group_bytes, discharge_retention, ensure_result_series, group_entry_bytes,
    grown_alloc_bytes, label_set_bytes, leaf_counters, leaf_retained_bytes, map_entry_bytes,
    retention_points_per_sample, row_budget_ceiling, row_budgets, row_retained_bytes, AggCaps,
    CounterPlurality, RowBudgets, COLLISION_MEMBER_BYTES, COUNTER_VALUE_BYTES,
    EMITTED_POINT_BYTES, FOLDED_POINT_BYTES, MAX_CLIENT_AGG_GROUP_BYTES, MAX_COUNTER_VALUES,
    MAX_JSON_FLATTEN_KEY_BYTES, MAX_LEAF_RETAINED_BYTES, MAX_METRIC_RESULT_POINTS,
    MAX_QUANTILE_VALUES, MAX_QUERY_RETAINED_BYTES, MAX_QUERY_SERIES, MAX_RETAINED_WINDOW_POINTS,
    MAX_TEMPLATE_RENDER_BYTES, MAX_TS_COLLISION_GROUP, MAX_TS_COLLISION_GROUP_BYTES,
    MIN_ALLOC_BYTES, QUANTILE_VALUE_BYTES, RETENTION_POINT_BYTES,
};
use pulsus_read::accum::VectorAccum;
use pulsus_read::cms::{SeriesKey, CMS_DEPTH, CMS_MAX_LABELS, CMS_WIDTH};
use pulsus_read::error::{ReadError, RowBudget, TooBroadReason};
use pulsus_read::model::{
    HistSample, HistSeries, MatrixSeries, QueryResult, RangeAggOp, VectorSample,
};
use pulsus_read::text::{json_string_len, render_labels_json, rendered_labels_json_len};

#[test]
fn approx_topk_accounting_total_is_a_compile_time_constant() {
    assert_eq!(std::mem::size_of::<SeriesKey>(), 16);
    assert_eq!(std::mem::size_of::<(u32, SeriesKey)>(), 24);
    assert_eq!(std::mem::size_of::<VectorSample>(), 32);
    assert_eq!(CMS_WIDTH, 27_183);
    assert_eq!(CMS_DEPTH, 7);
    assert_eq!(CMS_MAX_LABELS, 10_000);
    let r = CMS_MAX_LABELS as u64 + 1;
    let grid = u64::from(CMS_DEPTH) * u64::from(CMS_WIDTH) * 8;
    assert_eq!(grid, 1_522_248);
    let buckets = (r * 8).div_ceil(7).next_power_of_two();
    let observed = buckets * 8 + buckets + 16;
    assert_eq!(observed, 147_472);
    let rows: [(u64, u64); 10] = [
        (alloc_block_bytes(grid), 3_044_496),
        (alloc_block_bytes(24 * r), 480_048),
        (alloc_block_bytes(observed), 294_944),
        (alloc_block_bytes(32 * r), 640_064),
        (1_024, 1_024),
        (grown_alloc_bytes(8 * r), 480_048),
        (alloc_block_bytes(r), 20_002),
        (alloc_block_bytes(16 * r), 320_032),
        (alloc_block_bytes(16 * r.div_ceil(2)), 160_032),
        (grown_alloc_bytes(32 * r), 1_920_192),
    ];
    let mut total = 0u64;
    for (i, (computed, pinned)) in rows.iter().enumerate() {
        assert_eq!(computed, pinned, "row {i}");
        total += computed;
    }
    assert!(total <= 7_360_882, "{total}");
}

/// The worst block a mainstream allocator keeps for an `n`-byte request.
fn worst_mainstream_retained(n: u64) -> u64 {
    let pow2_class = n.max(1).next_power_of_two();
    let header_chunk = (n + 8).div_ceil(16) * 16;
    pow2_class.max(header_chunk).max(32)
}

#[test]
fn alloc_block_bytes_covers_allocator_size_class_rounding_at_class_boundaries() {
    let sizes: &[u64] = &[
        1,
        8,
        16,
        17,
        24,
        31,
        32,
        33,
        47,
        48,
        63,
        64,
        65,
        96,
        127,
        128,
        129,
        192,
        255,
        256,
        257,
        511,
        512,
        513,
        1023,
        1024,
        1025,
        4095,
        4096,
        4097,
        65_535,
        65_536,
        65_537,
        1 << 20,
        (1 << 20) + 1,
    ];
    for &n in sizes {
        let charge = alloc_block_bytes(n);
        let worst = worst_mainstream_retained(n);
        assert!(charge >= worst, "{n}: {charge} < {worst}");
        let grown = grown_alloc_bytes(n);
        let peak = worst_mainstream_retained(2 * n) + worst;
        assert!(grown >= peak, "{n}: {grown} < {peak}");
    }
    for &n in &[33u64, 65, 129, 257, 1025, 4097] {
        assert!(worst_mainstream_retained(n) > n.max(MIN_ALLOC_BYTES));
    }
}

fn labels(pairs: &[(&str, &str)]) -> Vec<(String, String)> {
    pairs.iter().map(|(k, v)| (k.to_string(), v.to_string())).collect()
}

#[test]
fn rendered_labels_json_len_matches_the_renderer_byte_for_byte() {
    let c0: String = (0u8..0x20).map(|b| b as char).collect();
    let dense = "\u{1}x\"y".repeat(7);
    let cases: Vec<Vec<(String, String)>> = vec![
        vec![],
        labels(&[("", "")]),
        labels(&[("app", "checkout")]),
        labels(&[("q", "\"\\\n\r\t\u{08}\u{0C}")]),
        labels(&[("c0", &c0)]),
        labels(&[("é", "日本語"), ("emoji", "🚀🚀")]),
        labels(&[("a", "1"), ("b", &dense), ("c", "plain")]),
    ];
    for pairs in &cases {
        assert_eq!(
            rendered_labels_json_len(pairs),
            render_labels_json(pairs).len() as u64,
            "{pairs:?}"
        );
    }
}

#[test]
fn rendered_labels_are_json() {
    assert_eq!(render_labels_json(&labels(&[])), "{}");
    assert_eq!(
        render_labels_json(&labels(&[("a", "x\"y"), ("b", "\u{1}\n")])),
        "{\"a\":\"x\\\"y\",\"b\":\"\\u0001\\n\"}"
    );
    assert_eq!(json_string_len("a\u{1}"), 9);
}

#[test]
fn sliding_over_cap_errors_are_distinct_named_reasons() {
    let retention = TooBroadReason::MetricRetention {
        count: MAX_RETAINED_WINDOW_POINTS + 1,
        cap: MAX_RETAINED_WINDOW_POINTS,
    }
    .message();
    let collision = TooBroadReason::TsCollisionGroup {
        count: MAX_TS_COLLISION_GROUP + 1,
        cap: MAX_TS_COLLISION_GROUP,
        bytes: 1,
        bytes_cap: MAX_TS_COLLISION_GROUP_BYTES,
    }
    .message();
    assert!(retention.contains("concurrent sample"), "{retention}");
    assert!(collision.contains("same-nanosecond"), "{collision}");
    assert_ne!(retention, collision);
}

fn n_vector(n: usize) -> QueryResult {
    QueryResult::Vector(
        (0..n)
            .map(|i| VectorSample {
                labels: vec![("id".to_string(), i.to_string())],
                value: (i as f64).to_bits(),
            })
            .collect(),
    )
}

fn n_matrix(n: usize) -> QueryResult {
    QueryResult::Matrix(
        (0..n)
            .map(|i| MatrixSeries {
                labels: vec![("id".to_string(), i.to_string())],
                points: vec![(0, (i as f64).to_bits()), (1, (i as f64).to_bits())],
            })
            .collect(),
    )
}

#[test]
fn ensure_result_series_admits_exactly_the_cap_and_refuses_one_more() {
    let cap = MAX_QUERY_SERIES as usize;
    assert_eq!(cap, 500);
    for at in [n_vector(cap), n_matrix(cap)] {
        ensure_result_series(&at).expect("exactly the cap must be served");
    }
    for over in [n_vector(cap + 1), n_matrix(cap + 1)] {
        match ensure_result_series(&over) {
            Err(ReadError::QueryTooBroad(TooBroadReason::MetricSeries { cap: got })) => {
                assert_eq!(got, MAX_QUERY_SERIES);
            }
            other => panic!("expected MetricSeries, got {other:?}"),
        }
    }
    let deep = QueryResult::Matrix(vec![MatrixSeries {
        labels: vec![],
        points: (0..100_000).map(|k| (k, (k as f64).to_bits())).collect(),
    }]);
    ensure_result_series(&deep).expect("point count is not the series axis");
    for other in [
        QueryResult::Streams { streams: Vec::new() },
        QueryResult::Scalar(1.0f64.to_bits()),
        QueryResult::String("x".to_string()),
    ] {
        ensure_result_series(&other).expect("non-metric shapes carry no series axis");
    }
}

#[test]
fn histogram_series_are_counted_too() {
    let hist = |i: usize| HistSample { labels: labels(&[("id", &i.to_string())]), buckets: vec![] };
    let cap = MAX_QUERY_SERIES as usize;
    assert!(ensure_result_series(&QueryResult::VectorHist((0..cap).map(hist).collect())).is_ok());
    assert!(ensure_result_series(&QueryResult::VectorHist((0..=cap).map(hist).collect())).is_err());
    let series = |i: usize| HistSeries { labels: labels(&[("id", &i.to_string())]), points: vec![] };
    assert!(ensure_result_series(&QueryResult::MatrixHist((0..cap).map(series).collect())).is_ok());
    assert!(
        ensure_result_series(&QueryResult::MatrixHist((0..=cap).map(series).collect())).is_err()
    );
}

#[test]
fn agg_caps_default_is_the_constants_and_divides_soundly() {
    let d = AggCaps::default_caps();
    assert_eq!(d.group_bytes, MAX_CLIENT_AGG_GROUP_BYTES);
    assert_eq!(d.retention_points, MAX_RETAINED_WINDOW_POINTS);
    assert_eq!(d.quantile_values, MAX_QUANTILE_VALUES);
    assert_eq!(d.counter_values, MAX_COUNTER_VALUES);
    assert_eq!(d.collision_members, MAX_TS_COLLISION_GROUP);
    assert_eq!(d.collision_bytes, MAX_TS_COLLISION_GROUP_BYTES);
    assert_eq!(d.result_points, MAX_METRIC_RESULT_POINTS);
    assert_eq!(d.divided(1), d, "divided(1) must be byte-identical");
    assert_eq!(d.min_field(), MAX_TS_COLLISION_GROUP);
    assert_eq!(d.min_field(), 10_000);
    for n in 1..=d.min_field() {
        let v = d.divided(n);
        for (field, whole) in [
            (v.group_bytes, d.group_bytes),
            (v.retention_points, d.retention_points),
            (v.quantile_values, d.quantile_values),
            (v.counter_values, d.counter_values),
            (v.collision_members, d.collision_members),
            (v.collision_bytes, d.collision_bytes),
            (v.result_points, d.result_points),
        ] {
            assert!(field >= 1, "divided({n}) floored a cap to 0");
            assert!(field * n <= whole, "divided({n}) sum exceeds the whole");
        }
    }
    assert_eq!(d.divided(2).collision_bytes, MAX_TS_COLLISION_GROUP_BYTES / 2);
    assert_eq!(d.divided(2).collision_members, MAX_TS_COLLISION_GROUP / 2);
    assert_eq!(d.divided(2).result_points, MAX_METRIC_RESULT_POINTS / 2);
    let AggCaps {
        group_bytes: _,
        retention_points: _,
        quantile_values: _,
        counter_values: _,
        collision_members: _,
        collision_bytes: _,
        result_points: _,
    } = d;
}

#[test]
fn the_composed_bound_equals_its_terms() {
    assert_eq!(RETENTION_POINT_BYTES, 32);
    assert_eq!(QUANTILE_VALUE_BYTES, 8);
    assert_eq!(COUNTER_VALUE_BYTES, 16);
    assert_eq!(std::mem::size_of::<VectorAccum>(), 24);
    assert_eq!([EMITTED_POINT_BYTES, FOLDED_POINT_BYTES], [16, 24]);
    let n = leaf_counters();
    let group_bytes = n.group_bytes * MAX_CLIENT_AGG_GROUP_BYTES;
    let retention =
        n.retention_points * alloc_block_bytes(MAX_RETAINED_WINDOW_POINTS * RETENTION_POINT_BYTES);
    let quantile =
        n.quantile_values * alloc_block_bytes(MAX_QUANTILE_VALUES * QUANTILE_VALUE_BYTES);
    let counter = n.counter_values * alloc_block_bytes(MAX_COUNTER_VALUES * COUNTER_VALUE_BYTES);
    let collision_members = n.collision_members.saturating_mul(COLLISION_MEMBER_BYTES);
    let collision_bytes = n.collision_bytes * MAX_TS_COLLISION_GROUP_BYTES;
    let result_points: u64 = [EMITTED_POINT_BYTES, FOLDED_POINT_BYTES]
        .iter()
        .map(|w| alloc_block_bytes(MAX_METRIC_RESULT_POINTS * w))
        .sum();
    assert_eq!(group_bytes, 536_870_912);
    assert_eq!(retention, 256_000_000);
    assert_eq!(quantile, 64_000_000);
    assert_eq!(counter, 128_000_000);
    assert_eq!(collision_members, 0);
    assert_eq!(collision_bytes, 8_388_608);
    assert_eq!(result_points, 960_000_000);
    assert_eq!(
        MAX_LEAF_RETAINED_BYTES,
        group_bytes
            + retention
            + quantile
            + counter
            + collision_members
            + collision_bytes
            + result_points
    );
    assert_eq!(MAX_LEAF_RETAINED_BYTES, 1_953_259_520);
    assert_eq!(leaf_retained_bytes(), MAX_LEAF_RETAINED_BYTES);
    assert_eq!(
        MAX_QUERY_RETAINED_BYTES,
        MAX_LEAF_RETAINED_BYTES + MAX_TEMPLATE_RENDER_BYTES + MAX_JSON_FLATTEN_KEY_BYTES
    );
    assert_eq!(MAX_QUERY_RETAINED_BYTES, 2_087_477_248);

    // A leaf that fans lines out holds its fan-out state to the ceiling of group bytes
    // and never attaches a fold.
    let fanned_leaf = MAX_CLIENT_AGG_GROUP_BYTES
        + MAX_CLIENT_AGG_GROUP_BYTES
        + alloc_block_bytes(MAX_METRIC_RESULT_POINTS * EMITTED_POINT_BYTES)
        + alloc_block_bytes(MAX_RETAINED_WINDOW_POINTS * RETENTION_POINT_BYTES)
        + alloc_block_bytes(MAX_QUANTILE_VALUES * QUANTILE_VALUE_BYTES)
        + alloc_block_bytes(MAX_COUNTER_VALUES * COUNTER_VALUE_BYTES)
        + MAX_TS_COLLISION_GROUP_BYTES;
    assert_eq!(fanned_leaf, 1_377_259_520);
    assert!(
        fanned_leaf < MAX_LEAF_RETAINED_BYTES,
        "the smaller leaf must be inside the stated bound"
    );
}

#[test]
fn the_plurality_table_mirrors_every_agg_caps_axis() {
    let AggCaps {
        group_bytes: cap_group_bytes,
        retention_points: cap_retention_points,
        quantile_values: cap_quantile_values,
        counter_values: cap_counter_values,
        collision_members: cap_collision_members,
        collision_bytes: cap_collision_bytes,
        result_points: cap_result_points,
    } = AggCaps::default_caps();
    let CounterPlurality {
        group_bytes,
        retention_points,
        quantile_values,
        counter_values,
        collision_members,
        collision_bytes,
        result_points,
    } = leaf_counters();
    for (axis, cap, plurality) in [
        ("group_bytes", cap_group_bytes, group_bytes),
        ("retention_points", cap_retention_points, retention_points),
        ("quantile_values", cap_quantile_values, quantile_values),
        ("counter_values", cap_counter_values, counter_values),
        ("collision_members", cap_collision_members, collision_members),
        ("collision_bytes", cap_collision_bytes, collision_bytes),
        ("result_points", cap_result_points, result_points),
    ] {
        assert!(cap > 0, "{axis}: a zero cap is not a cap");
        assert!(plurality >= 1, "{axis}: every cap needs at least one counter");
    }
}

#[test]
fn every_per_row_budget_is_a_term_of_the_query_bound() {
    let RowBudgets { template_render, json_flatten_keys } = row_budgets();
    for (name, ceiling) in
        [("template_render", template_render), ("json_flatten_keys", json_flatten_keys)]
    {
        assert!(ceiling > 0, "{name}: a zero ceiling is not a ceiling");
    }
    assert_eq!(template_render, MAX_TEMPLATE_RENDER_BYTES);
    assert_eq!(json_flatten_keys, MAX_JSON_FLATTEN_KEY_BYTES);
    assert_eq!(
        MAX_QUERY_RETAINED_BYTES - MAX_LEAF_RETAINED_BYTES,
        template_render + json_flatten_keys
    );
    assert_eq!(template_render + json_flatten_keys, 134_217_728);
    assert_eq!(row_retained_bytes(), 134_217_728);
    assert_eq!(row_budget_ceiling(RowBudget::TemplateRender), template_render);
    assert_eq!(row_budget_ceiling(RowBudget::JsonFlattenKeys), json_flatten_keys);
}

#[test]
fn a_refused_charge_changes_nothing() {
    let mut retained = 7;
    assert!(charge_retention(&mut retained, 3, 10).is_ok());
    assert_eq!(retained, 10);
    match charge_retention(&mut retained, 1, 10) {
        Err(ReadError::QueryTooBroad(TooBroadReason::MetricRetention { count, cap })) => {
            assert_eq!((count, cap), (11, 10));
        }
        other => panic!("{other:?}"),
    }
    assert_eq!(retained, 10);
    discharge_retention(&mut retained, 4);
    assert_eq!(retained, 6);
    discharge_retention(&mut retained, 40);
    assert_eq!(retained, 0);

    let mut bytes = u64::MAX - 1;
    match charge_group_bytes(&mut bytes, 5, u64::MAX - 1) {
        Err(ReadError::QueryTooBroad(TooBroadReason::MetricGroupLabelBytes { bytes, cap })) => {
            assert_eq!((bytes, cap), (u64::MAX, u64::MAX - 1));
        }
        other => panic!("{other:?}"),
    }
    assert_eq!(bytes, u64::MAX - 1);
    discharge_group_bytes(&mut bytes, u64::MAX);
    assert_eq!(bytes, 0);

    let mut points = 0;
    assert!(charge_result_points(&mut points, 5, 5).is_ok());
    match charge_result_points(&mut points, 1, 5) {
        Err(ReadError::QueryTooBroad(TooBroadReason::MetricResultPoints { count, cap })) => {
            assert_eq!((count, cap), (6, 5));
        }
        other => panic!("{other:?}"),
    }
    assert_eq!(points, 5);
}

#[test]
fn entry_charges_add_up() {
    assert_eq!(map_entry_bytes(7), 8 * 8 + 128);
    let set = labels(&[("app", "checkout")]);
    assert_eq!(
        label_set_bytes(&set),
        alloc_block_bytes(48) + alloc_block_bytes(3) + alloc_block_bytes(8)
    );
    assert_eq!(
        group_entry_bytes("key", &set, 7),
        map_entry_bytes(7) + grown_alloc_bytes(3) + label_set_bytes(&set)
    );
    assert_eq!(retention_points_per_sample(RangeAggOp::QuantileOverTime), 2);
    assert_eq!(retention_points_per_sample(RangeAggOp::SumOverTime), 1);
}
