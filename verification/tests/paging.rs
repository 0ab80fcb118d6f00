//! Field detection over rows and pages.
use std::collections::{BTreeSet, HashMap};

use pulsus_read::charge::alloc_block_bytes;
use pulsus_read::detected::{DetectedFieldOut, FieldAccumulator, ParserRun, Unit};
use pulsus_read::detected_probe::{
    feeder_scratch_bytes, lets_go, DetectedRowFeeder, MergedMetadata, SampledRow,
    ScratchCapacities, SurvivingRow,
    MAX_FEEDER_SCRATCH_BYTES, MAX_FEEDER_SCRATCH_SLOTS, MAX_FEEDER_SCRATCH_STRING_BYTES,
};
use pulsus_read::error::{ReadError, RowBudget, RowBudgetExceeded, TooBroadReason};
use pulsus_read::fan_out::StructuredMetadataCtx;
use pulsus_read::paging::{
    classify_page_error, DetectedPagedState, PageRow, TailCursor, TailCursorTracker,
};
use pulsus_read::probe::DetectedFieldsProbe;

fn no_units(_: &str, _: Unit) -> bool {
    false
}

fn splitmix64(state: &mut u64) -> u64 {
    *state = state.wrapping_add(0x9E37_79B9_7F4A_7C15);
    let mut z = *state;
    z = (z ^ (z >> 30)).wrapping_mul(0xBF58_476D_1CE4_E5B9);
    z = (z ^ (z >> 27)).wrapping_mul(0x94D0_49BB_1331_11EB);
    z ^ (z >> 31)
}

fn owned(pairs: &[(&str, &str)]) -> Vec<(String, String)> {
    pairs.iter().map(|(k, v)| (k.to_string(), v.to_string())).collect()
}

/// The pairs of a flat JSON object, or nothing where a text is not one.
fn flat_json(body: &str) -> Option<Vec<(String, String)>> {
    let inner = body.strip_prefix('{')?.strip_suffix('}')?;
    inner
        .split(',')
        .filter(|p| !p.is_empty())
        .map(|p| {
            let (k, v) = p.split_once(':')?;
            let name = k.trim().trim_matches('"').to_string();
            Some((name, v.trim().trim_matches('"').to_string()))
        })
        .collect()
}

fn json_run(line: &str) -> Result<ParserRun, RowBudgetExceeded> {
    let pairs = flat_json(line);
    let has_err = pairs.is_none();
    let labels = pairs.unwrap_or_default();
    let paths = labels.iter().map(|(k, _)| Some(vec![k.clone()])).collect();
    Ok(ParserRun { kept: true, has_err, labels, paths })
}

fn logfmt_run(line: &str) -> Result<ParserRun, RowBudgetExceeded> {
    let labels = line
        .split_whitespace()
        .filter_map(|w| w.split_once('='))
        .map(|(k, v)| (k.to_string(), v.to_string()))
        .collect();
    Ok(ParserRun { kept: true, has_err: false, labels, paths: vec![] })
}

/// A row of the one known stream, through `| json` where asked for, and through a
/// filter on `level` where there is one.
fn sampled(body: &str, metadata: &[(&str, &str)], json: bool, level: Option<&str>) -> SampledRow {
    let base = owned(&[("app", "x")]);
    let mut merged = base.clone();
    merged.extend(owned(metadata));
    let start = if metadata.is_empty() { base } else { merged.clone() };
    let mut labels = start.clone();
    if json {
        labels.extend(flat_json(body).unwrap_or_default());
    }
    let kept = match level {
        None => true,
        Some(want) => labels.iter().any(|(k, v)| k == "level" && v == want),
    };
    SampledRow {
        fingerprint: 1,
        metadata: if metadata.is_empty() {
            None
        } else {
            Some(MergedMetadata { labels: merged, pairs: owned(metadata), ctx: no_ctx() })
        },
        run: Ok(if kept {
            Some(SurvivingRow { labels, json: json_run(body), logfmt: logfmt_run(body) })
        } else {
            None
        }),
    }
}

fn no_ctx() -> StructuredMetadataCtx {
    StructuredMetadataCtx {
        err: String::new(),
        details: String::new(),
        has_ordinary: false,
        stream_label_count: None,
        sm_over_stream: vec![],
    }
}

fn base_labels() -> HashMap<u64, Vec<(String, String)>> {
    HashMap::from([(1, owned(&[("app", "x")]))])
}

fn feed_rows(
    rows: Vec<SampledRow>,
    acc: &mut FieldAccumulator,
    matched: &mut u32,
    line_limit: u32,
) -> Result<(), ReadError> {
    let mut feeder = DetectedRowFeeder::new();
    for row in rows {
        if *matched >= line_limit {
            break;
        }
        if feeder.feed_row(row, &base_labels(), acc, &no_units)? {
            *matched += 1;
        }
    }
    Ok(())
}

#[test]
fn detected_fields_matched_count_is_post_pipeline_dropped_rows_do_not_count() {
    let rows = vec![
        sampled(r#"{"level":"common","code":1}"#, &[], true, Some("rare")),
        sampled("not json at all", &[], true, Some("rare")),
        sampled(r#"{"level":"rare","code":7}"#, &[], true, Some("rare")),
    ];
    let mut acc = FieldAccumulator::new(1000);
    let mut matched = 0u32;
    feed_rows(rows, &mut acc, &mut matched, 100).expect("no budget breach");
    assert_eq!(matched, 1, "only the surviving row counts toward line_limit");
    let (fields, _) = acc.finish();
    let labels: Vec<&str> = fields.iter().map(|f| f.label.as_str()).collect();
    assert_eq!(labels, vec!["code", "level"]);
    let code = fields.iter().find(|f| f.label == "code").expect("code");
    assert_eq!(code.field_type, "int");
    assert_eq!(code.cardinality, 1, "dropped rows' values are never observed");
    assert_eq!(code.parsers, vec!["json"]);
}

#[test]
fn detected_fields_feed_stops_at_the_line_limit() {
    let rows: Vec<SampledRow> =
        (0..5).map(|i| sampled(&format!(r#"{{"seq":"{i}"}}"#), &[], false, None)).collect();
    let mut acc = FieldAccumulator::new(1000);
    let mut matched = 0u32;
    feed_rows(rows, &mut acc, &mut matched, 2).expect("no budget breach");
    assert_eq!(matched, 2);
    let (fields, _) = acc.finish();
    assert_eq!(fields.len(), 1);
    assert_eq!(fields[0].cardinality, 2, "rows past the line_limit are never sampled");
}

fn tail_row(i: u64) -> PageRow {
    PageRow {
        timestamp_ns: 1_000 - i as i64,
        body_hash: 0x9000 + i,
        row: sampled(&format!(r#"{{"f{i}":{i}}}"#), &[], true, None),
    }
}

fn key_of(i: u64) -> (i64, u64, u64) {
    (1_000 - i as i64, 1, 0x9000 + i)
}

fn scan_budget_err() -> ReadError {
    ReadError::QueryTooBroad(TooBroadReason::ScanBudgetBytes { budget_bytes: 1024, estimate: None })
}

fn paged_state(page_size: u32, line_limit: u32) -> DetectedPagedState {
    DetectedPagedState {
        feeder: DetectedRowFeeder::new(),
        cursor: None,
        spent: 0,
        matched: 0,
        page_size,
        line_limit,
        budget: u64::MAX,
    }
}

fn absorb(
    st: &mut DetectedPagedState,
    acc: &mut FieldAccumulator,
    items: Vec<Result<PageRow, ReadError>>,
    read_bytes: u64,
) -> Result<Option<bool>, ReadError> {
    st.absorb_page(items, Some(read_bytes), &base_labels(), acc, &no_units)
}

fn fields_over(rows: std::ops::Range<u64>) -> Vec<DetectedFieldOut> {
    let mut acc = FieldAccumulator::new(1000);
    let mut st = paged_state(u32::MAX, 100);
    let out = absorb(&mut st, &mut acc, rows.map(|i| Ok(tail_row(i))).collect(), 1);
    assert!(matches!(out, Ok(Some(false))), "error-free run terminates");
    acc.finish().0
}

/// Where the next page starts, from the whole page at once.
fn advance_tail_cursor(
    prev: Option<TailCursor>,
    rows: &[(i64, u64, u64)],
) -> Option<TailCursor> {
    let Some(last) = rows.last() else {
        return prev;
    };
    let run = rows.iter().rev().take_while(|r| *r == last).count() as u32;
    let carry = match prev {
        Some(c) if c.tuple == *last => c.seen,
        _ => 0,
    };
    Some(TailCursor { tuple: *last, seen: run + carry })
}

#[test]
fn detected_paged_first_page_budget_error_stays_query_too_broad_despite_delivered_rows() {
    let mut acc = FieldAccumulator::new(1000);
    let mut st = paged_state(10, 100);
    let items = vec![
        Ok(tail_row(0)),
        Ok(tail_row(1)),
        Ok(tail_row(2)),
        Err(scan_budget_err()),
        Ok(tail_row(3)),
        Ok(tail_row(4)),
    ];
    match absorb(&mut st, &mut acc, items, 64) {
        Err(ReadError::QueryTooBroad(TooBroadReason::ScanBudgetBytes { .. })) => {}
        other => panic!("first-page budget error must propagate, got {other:?}"),
    }
}

#[test]
fn detected_paged_later_page_budget_error_returns_partial_prefix_mid_page() {
    let mut acc = FieldAccumulator::new(1000);
    let mut st = paged_state(2, 100);
    let out = absorb(&mut st, &mut acc, vec![Ok(tail_row(0)), Ok(tail_row(1))], 64);
    assert!(matches!(out, Ok(None)), "page 1 continues: {out:?}");
    assert!(st.spent > 0, "page 1's read_bytes must be accounted");
    let page2 = vec![Ok(tail_row(2)), Err(scan_budget_err()), Ok(tail_row(3)), Ok(tail_row(4))];
    let out = absorb(&mut st, &mut acc, page2, 64);
    assert!(matches!(out, Ok(Some(true))), "later-page budget error terminates PARTIAL: {out:?}");
    let got = acc.finish().0;
    assert_eq!(got, fields_over(0..3), "the retained prefix is exactly [r0, r1, r2]");
    assert_ne!(got, fields_over(0..2), "not the last complete page alone");
    assert_ne!(got, fields_over(0..5), "not all five rows");
    let want = advance_tail_cursor(
        advance_tail_cursor(None, &[key_of(0), key_of(1)]),
        &[key_of(2)],
    );
    assert_eq!(st.cursor, want);
    assert_eq!(st.cursor.expect("cursor").tuple, key_of(2));
}

#[test]
fn detected_paged_terminal_branches_and_error_classification() {
    let mut acc = FieldAccumulator::new(1000);
    let mut st = paged_state(3, 1);
    let out = absorb(&mut st, &mut acc, (0..3).map(|i| Ok(tail_row(i))).collect(), 64);
    assert!(matches!(out, Ok(Some(false))), "{out:?}");
    assert_eq!(st.matched, 1);
    assert_eq!(
        st.cursor.expect("cursor").tuple,
        key_of(2),
        "line_limit stops FEEDING, never DRAINING"
    );

    let mut acc = FieldAccumulator::new(1000);
    let mut st = paged_state(10, 100);
    let out = absorb(&mut st, &mut acc, (0..3).map(|i| Ok(tail_row(i))).collect(), 64);
    assert!(matches!(out, Ok(Some(false))), "{out:?}");

    assert!(matches!(classify_page_error(scan_budget_err(), 1), Ok(true)));
    assert!(classify_page_error(scan_budget_err(), 0).is_err());
    let other = || ReadError::PipelineInvalid { reason: "x".to_string() };
    assert!(classify_page_error(other(), 1).is_err());
    assert!(classify_page_error(other(), 0).is_err());
}

#[test]
fn detected_paged_partial_prefix_is_always_a_subset_of_the_complete_answer() {
    let mut state: u64 = 0x0024_4bad_c0de;
    let mut strict_subsets = 0usize;
    for _ in 0..128 {
        let n = 1 + splitmix64(&mut state) % 8;
        let cut = splitmix64(&mut state) % n;
        let full: BTreeSet<String> = fields_over(0..n).into_iter().map(|f| f.label).collect();
        let mut acc = FieldAccumulator::new(1000);
        let mut st = paged_state(u32::MAX, 100);
        st.spent = 1;
        let mut items: Vec<Result<PageRow, ReadError>> =
            (0..cut).map(|i| Ok(tail_row(i))).collect();
        items.push(Err(scan_budget_err()));
        items.extend((cut..n).map(|i| Ok(tail_row(i))));
        let out = absorb(&mut st, &mut acc, items, 64);
        assert!(matches!(out, Ok(Some(true))), "{out:?}");
        let partial: BTreeSet<String> = acc.finish().0.into_iter().map(|f| f.label).collect();
        assert!(partial.is_subset(&full), "partial {partial:?} must be a subset of {full:?}");
        if partial.len() < full.len() {
            strict_subsets += 1;
        }
    }
    assert!(strict_subsets > 0, "at least one strict subset must be exercised");
}

#[test]
fn tail_cursor_tracker_matches_advance_tail_cursor_over_randomized_sequences() {
    let mut state: u64 = 0x1755;
    let mut prev: Option<TailCursor> = None;
    for round in 0..500 {
        let n = (splitmix64(&mut state) % 7) as usize;
        let all_equal = splitmix64(&mut state) % 4 == 0;
        let rows: Vec<(i64, u64, u64)> = (0..n)
            .map(|_| {
                if all_equal {
                    (7, 7, 7)
                } else {
                    (
                        (splitmix64(&mut state) % 3) as i64,
                        splitmix64(&mut state) % 2,
                        splitmix64(&mut state) % 2,
                    )
                }
            })
            .collect();
        let want = advance_tail_cursor(prev, &rows);
        let mut tracker = TailCursorTracker::new();
        for r in &rows {
            tracker.observe(r.0, r.1, r.2);
        }
        let (got, drained) = tracker.finish(prev);
        assert_eq!(got, want, "round {round}: rows {rows:?}");
        assert_eq!(drained as usize, rows.len(), "round {round}");
        prev = got;
    }
}

#[test]
fn detected_paged_page_is_drained_past_the_line_limit() {
    let mut acc = FieldAccumulator::new(1000);
    let mut st = paged_state(5, 1);
    let out = absorb(&mut st, &mut acc, (0..5).map(|i| Ok(tail_row(i))).collect(), 64);
    assert!(matches!(out, Ok(Some(false))), "{out:?}");
    assert_eq!(st.matched, 1, "feeding stopped at line_limit");
    let keys: Vec<(i64, u64, u64)> = (0..5).map(key_of).collect();
    assert_eq!(st.cursor, advance_tail_cursor(None, &keys), "the raw page is fully drained");
    let fields = acc.finish().0;
    assert_eq!(fields.len(), 1, "only the fed row's field: {fields:?}");
}

#[test]
fn a_page_that_does_not_say_what_it_read_spends_what_was_left() {
    let mut acc = FieldAccumulator::new(1000);
    let mut st = paged_state(1, 100);
    st.budget = 500;
    st.spent = 20;
    let out = st.absorb_page(vec![Ok(tail_row(0))], None, &base_labels(), &mut acc, &no_units);
    assert!(matches!(out, Ok(None)));
    assert_eq!(st.spent, 500);
    let out = st.absorb_page(vec![Ok(tail_row(1))], None, &base_labels(), &mut acc, &no_units);
    assert!(matches!(out, Ok(None)));
    assert_eq!(st.spent, 500);
}

#[test]
fn feeder_trim_caps_carried_capacity_after_a_wide_row_and_on_fingerprint_miss() {
    let mut acc = FieldAccumulator::new(8);
    let mut feeder = DetectedRowFeeder::new();
    let wide: usize = MAX_FEEDER_SCRATCH_SLOTS + 1000;
    let names: Vec<String> = (0..wide).map(|i| format!("k{i:05}")).collect();
    let metadata: Vec<(&str, &str)> = names.iter().map(|n| (n.as_str(), "v")).collect();
    let mut row = sampled("body", &metadata, false, None);
    if let Some(m) = &mut row.metadata {
        m.ctx.err = String::with_capacity(MAX_FEEDER_SCRATCH_STRING_BYTES + 1);
        m.ctx.err.push_str("boom");
        m.ctx.details.push_str("why");
        m.ctx.has_ordinary = true;
    }
    let survived =
        feeder.feed_row(row, &base_labels(), &mut acc, &no_units).expect("no error");
    assert!(survived);
    let check = |feeder: &DetectedRowFeeder, ctx: &str| {
        assert_eq!(feeder.merge_buf.len(), 0, "{ctx}");
        assert_eq!(feeder.sm_buf.len(), 0, "{ctx}");
        assert_eq!(feeder.label_scratch.len(), 0, "{ctx}");
        assert_eq!((feeder.sm_ctx.err.as_str(), feeder.sm_ctx.details.as_str()), ("", ""), "{ctx}");
        assert!(!feeder.sm_ctx.has_ordinary, "{ctx}");
        assert!(feeder.merge_buf.capacity() <= MAX_FEEDER_SCRATCH_SLOTS, "{ctx}");
        assert!(feeder.sm_buf.capacity() <= MAX_FEEDER_SCRATCH_SLOTS, "{ctx}");
        assert!(feeder.label_scratch.capacity() <= MAX_FEEDER_SCRATCH_SLOTS, "{ctx}");
        assert!(feeder.sm_ctx.err.capacity() <= MAX_FEEDER_SCRATCH_STRING_BYTES, "{ctx}");
        assert!(feeder.sm_ctx.details.capacity() <= MAX_FEEDER_SCRATCH_STRING_BYTES, "{ctx}");
        assert!(feeder.scratch_capacity_bytes() <= MAX_FEEDER_SCRATCH_BYTES, "{ctx}");
        let now = ScratchCapacities {
            merged: feeder.merge_buf.capacity(),
            metadata: feeder.sm_buf.capacity(),
            labels: feeder.label_scratch.capacity(),
            err: feeder.sm_ctx.err.capacity(),
            details: feeder.sm_ctx.details.capacity(),
        };
        assert_eq!(feeder.room, now, "{ctx}: what was measured is what is carried");
        assert_eq!(feeder.scratch_capacity_bytes(), now.scratch_bytes(), "{ctx}");
    };
    check(&feeder, "after the wide fed row");
    assert!(feeder.sm_ctx.details.capacity() >= 3, "a small buffer is carried on");
    feeder.merge_buf = Vec::with_capacity(3 * MAX_FEEDER_SCRATCH_SLOTS);
    let mut miss = sampled("body", &[], false, None);
    miss.fingerprint = 999;
    let survived =
        feeder.feed_row(miss, &base_labels(), &mut acc, &no_units).expect("no error");
    assert!(!survived, "unknown fingerprint is skipped");
    check(&feeder, "after the fingerprint-miss row");
    assert!(lets_go(5, 4) && !lets_go(4, 4));

    let few = ["k1", "k2", "k3"].map(|k| (k, "v"));
    feeder.feed_row(sampled("body", &few, false, None), &base_labels(), &mut acc, &no_units)
        .expect("no error");
    check(&feeder, "after a narrow row");
    assert!(feeder.sm_buf.capacity() >= 3, "the allocation of a narrow row is carried on");
}

#[test]
fn feeder_scratch_bound_is_the_five_term_size_of_derivation() {
    assert_eq!(MAX_FEEDER_SCRATCH_BYTES, 1_196_032);
    let pair = (MAX_FEEDER_SCRATCH_SLOTS * std::mem::size_of::<(String, String)>()) as u64;
    let five_terms = alloc_block_bytes(pair)
        + alloc_block_bytes(pair)
        + alloc_block_bytes(pair)
        + alloc_block_bytes(MAX_FEEDER_SCRATCH_STRING_BYTES as u64)
        + alloc_block_bytes(MAX_FEEDER_SCRATCH_STRING_BYTES as u64);
    assert_eq!(MAX_FEEDER_SCRATCH_BYTES, five_terms);
    assert_eq!(feeder_scratch_bytes(), five_terms);
}

#[test]
fn probe_feed_row_and_legacy_shape_agree_on_a_smoke_row() {
    let row = || sampled(r#"{"level":"info","code":7}"#, &[("trace_id", "abc")], true, None);
    let mut new_probe = DetectedFieldsProbe::new(100, 1000);
    new_probe.add_stream(1, &owned(&[("app", "x")]));
    let mut legacy_probe = DetectedFieldsProbe::new(100, 1000);
    legacy_probe.add_stream(1, &owned(&[("app", "x")]));
    assert!(new_probe.feed_row(row(), &no_units).expect("ok"));
    assert!(legacy_probe.feed_row_legacy_shape(row(), &no_units).expect("ok"));
    let (mut new_fields, new_capped) = new_probe.finish();
    let (legacy_fields, legacy_capped) = legacy_probe.finish();
    assert_eq!(
        new_fields.iter().map(|f| (f.label.as_str(), f.json_path.clone())).collect::<Vec<_>>(),
        vec![
            ("code", Some(vec!["code".to_string()])),
            ("level", Some(vec!["level".to_string()])),
            ("trace_id", None),
        ]
    );
    for f in &mut new_fields {
        f.json_path = None;
    }
    assert_eq!((new_fields, new_capped), (legacy_fields, legacy_capped));
}

#[test]
fn a_probe_feeds_until_its_limit_and_counts_what_it_keeps() {
    let mut probe = DetectedFieldsProbe::with_byte_budget(2, 10, 1 << 20);
    probe.add_stream(1, &owned(&[("app", "x")]));
    assert_eq!(probe.stream_labels(1), Some(&owned(&[("app", "x")])));
    assert_eq!(probe.stream_labels(2), None);
    assert_eq!((probe.matched(), probe.charged(), probe.peak_charged()), (0, 0, 0));
    assert_eq!(probe.scratch_capacity_bytes(), 5 * 32);
    for i in 0..4 {
        let row = sampled(&format!(r#"{{"a":{i}}}"#), &[], true, None);
        let fed = probe.feed_row(row, &no_units).expect("ok");
        assert_eq!(fed, i < 2);
    }
    assert_eq!(probe.matched(), 2);
    assert!(probe.charged() > 0);
    assert_eq!(probe.charged(), probe.peak_charged());
    probe.observe_pair("b", "x", Some("logfmt"), &no_units);
    probe.observe_pair("b", "y", None, &no_units);
    probe.observe_pair("c", "1", Some("json"), &no_units);
    let (fields, capped) = probe.finish();
    assert!(!capped);
    let shown: Vec<(&str, u64, Vec<&str>)> =
        fields.iter().map(|f| (f.label.as_str(), f.cardinality, f.parsers.clone())).collect();
    assert_eq!(
        shown,
        vec![("a", 2, vec!["json"]), ("b", 2, vec!["logfmt"]), ("c", 1, vec!["json"])]
    );
}

#[test]
fn a_probe_drains_pages_whole_and_row_by_row_alike() {
    let probe = || {
        let mut p = DetectedFieldsProbe::new(3, 10);
        p.add_stream(1, &owned(&[("app", "x")]));
        p
    };
    let mut whole = probe();
    let out = whole.absorb_page((0..3).map(|i| Ok(tail_row(i))).collect(), 64, &no_units);
    assert!(matches!(out, Ok(Some(false))));
    let mut by_row = probe();
    let mut tracker = TailCursorTracker::new();
    for i in 0..3 {
        by_row.absorb_row(&mut tracker, tail_row(i), &no_units).expect("ok");
    }
    let out = by_row.end_page(tracker, None, 64);
    assert!(matches!(out, Ok(Some(false))));
    assert_eq!(whole.matched(), by_row.matched());
    assert_eq!(whole.finish(), by_row.finish());

    let mut failed = probe();
    let out = failed.end_page(TailCursorTracker::new(), Some(scan_budget_err()), 64);
    assert!(out.is_err(), "the first page has no answer to leave");
}

#[test]
fn a_breached_row_budget_fails_the_read() {
    let breach = RowBudgetExceeded { budget: RowBudget::JsonFlattenKeys };
    let mut acc = FieldAccumulator::new(10);
    let mut feeder = DetectedRowFeeder::new();
    let mut row = sampled(r#"{"a":1}"#, &[("m", "1")], true, None);
    row.run = Ok(Some(SurvivingRow {
        labels: owned(&[("app", "x"), ("added", "2")]),
        json: Err(breach),
        logfmt: logfmt_run("b=1"),
    }));
    match feeder.feed_row(row, &base_labels(), &mut acc, &no_units) {
        Err(ReadError::QueryTooBroad(TooBroadReason::RowBudget { budget, cap })) => {
            assert_eq!((budget, cap), (RowBudget::JsonFlattenKeys, 67_108_864));
        }
        other => panic!("{other:?}"),
    }
    let labels: Vec<String> = acc.finish().0.into_iter().map(|f| f.label).collect();
    assert_eq!(labels, vec!["added", "m"], "what came before the breach was observed");

    let mut acc = FieldAccumulator::new(10);
    let mut row = sampled("x", &[], false, None);
    row.run = Err(RowBudgetExceeded { budget: RowBudget::TemplateRender });
    assert!(feeder.feed_row(row, &base_labels(), &mut acc, &no_units).is_err());
}

#[test]
fn answers_with_and_without_paths_differ_in_the_paths_alone() {
    let rows = || {
        vec![
            sampled(r#"{"level":"info","code":7}"#, &[("trace_id", "abc")], true, None),
            sampled("took=5 level=warn", &[], false, None),
            sampled(r#"{"code":"x"}"#, &[], true, Some("info")),
            sampled(r#"{"code":8}"#, &[], true, None),
            sampled(r#"{"more":1}"#, &[], true, None),
        ]
    };
    let probe = || {
        let mut p = DetectedFieldsProbe::new(3, 1000);
        p.add_stream(1, &owned(&[("app", "x")]));
        p
    };
    let (mut new, mut legacy) = (probe(), probe());
    for (a, b) in rows().into_iter().zip(rows()) {
        let survived = new.feed_row(a, &no_units).expect("ok");
        assert_eq!(legacy.feed_row_legacy_shape(b, &no_units).expect("ok"), survived);
    }
    assert_eq!((new.matched(), legacy.matched()), (3, 3));
    let (mut with, without) = (new.finish(), legacy.finish());
    assert!(with.0.iter().any(|f| f.json_path.is_some()));
    for f in &mut with.0 {
        f.json_path = None;
    }
    assert_eq!(with, without);
    assert!(!with.0.iter().any(|f| f.label == "more"), "enough had been observed");
}

#[test]
fn skipped_rows_leave_the_fields_as_they_were() {
    let mut acc = FieldAccumulator::new(8);
    let mut feeder = DetectedRowFeeder::new();
    let mut miss = sampled(r#"{"a":1}"#, &[("b", "2")], true, None);
    miss.fingerprint = 2;
    let dropped = sampled(r#"{"a":1}"#, &[("b", "2")], true, Some("info"));
    for row in [miss, dropped] {
        assert!(!feeder.feed_row(row, &base_labels(), &mut acc, &no_units).expect("ok"));
        assert_eq!(acc.charged(), 0);
    }
    assert!(acc.finish().0.is_empty());
}
