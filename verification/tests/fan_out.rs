//! Groups of lines by their final label sets.
use std::collections::HashMap;

use pulsus_read::error::{ReadError, RowBudget, RowBudgetExceeded, TooBroadReason};
use pulsus_read::fan_out::{
    eval_structured_metadata_row, fnv1a64, recycle_label_scratch, split_categories,
    split_merged_categories, EvaluatedRow, FanOutGroups, LabelCategory, MetadataRow, Retained,
    SmFanOutAccumulator, StreamResult, StructuredMetadataCtx,
};

fn owned_pairs(pairs: &[(&str, &str)]) -> Vec<(String, String)> {
    pairs.iter().map(|(k, v)| (k.to_string(), v.to_string())).collect()
}

/// The pairs of a flat JSON object of texts.
fn flat(json: &str) -> Vec<(String, String)> {
    json.trim_matches(|c| c == '{' || c == '}')
        .split(',')
        .filter_map(|p| p.split_once(':'))
        .map(|(k, v)| (k.trim_matches('"').to_string(), v.trim_matches('"').to_string()))
        .collect()
}

/// A stream's labels merged with metadata: a name the stream has is renamed, and
/// the reserved names go to their own places.
fn merge(base: &[(String, String)], metadata: &str) -> (Vec<(String, String)>, StructuredMetadataCtx) {
    let mut merged = base.to_vec();
    let mut ctx = StructuredMetadataCtx {
        err: String::new(),
        details: String::new(),
        has_ordinary: false,
        stream_label_count: Some(base.len()),
        sm_over_stream: vec![],
    };
    for (k, v) in flat(metadata) {
        if base.iter().any(|(b, _)| *b == k) {
            ctx.has_ordinary |= !v.is_empty();
            merged.push((format!("{k}_extracted"), v));
        } else if k == "__error__" {
            ctx.err = v;
        } else if k == "__error_details__" {
            ctx.details = v;
        } else {
            ctx.has_ordinary |= !v.is_empty();
            merged.push((k, v));
        }
    }
    (merged, ctx)
}

/// A budget of bytes: a group costs its labels and its service, a line its bytes and
/// its labels.
fn charge(left: &u64, what: Retained<'_>) -> Result<u64, ReadError> {
    let cost = match what {
        Retained::Group { labels_json, service } => (labels_json.len() + service.len()) as u64,
        Retained::Line { line_bytes, categories } => {
            let pairs = |l: &Vec<(String, String)>| {
                l.iter().map(|(k, v)| (k.len() + v.len()) as u64).sum::<u64>()
            };
            line_bytes
                + categories.map_or(0, |c| pairs(&c.structured_metadata) + pairs(&c.parsed))
        }
    };
    left.checked_sub(cost).ok_or(ReadError::QueryTooBroad(TooBroadReason::ScanBudgetBytes {
        budget_bytes: *left,
        estimate: Some(cost),
    }))
}

fn fan_out_sm_fast_path(
    rows: Vec<MetadataRow>,
    services: &HashMap<u64, String>,
    budget: &mut u64,
) -> Result<Vec<StreamResult>, ReadError> {
    let mut acc = SmFanOutAccumulator::new();
    for row in rows {
        acc.push_row(row, services, budget, &charge)?;
    }
    Ok(acc.into_streams())
}

fn metadata_row(fp: u64, ts: i64, body: &str, base: &[(&str, &str)], metadata: &str) -> MetadataRow {
    let (merged, ctx) = merge(&owned_pairs(base), metadata);
    MetadataRow { fingerprint: fp, timestamp_ns: ts, body: body.to_string(), merged, ctx }
}

fn fast_path_labels(base: &[(&str, &str)], metadata: &str) -> Vec<(String, String)> {
    let (mut merged, ctx) = merge(&owned_pairs(base), metadata);
    ctx.append_visible(&mut merged);
    merged.sort();
    merged
}

#[test]
fn fast_path_bare_selector_rows_apply_the_materialisation_gate() {
    assert_eq!(
        fast_path_labels(&[("service_name", "v2")], r#"{"__error__":"boom"}"#),
        owned_pairs(&[("__error__", "boom"), ("service_name", "v2")])
    );
    assert_eq!(
        fast_path_labels(&[("service_name", "v3")], r#"{"__error_details__":"bdet"}"#),
        owned_pairs(&[("service_name", "v3")])
    );
    assert_eq!(
        fast_path_labels(
            &[("__error__", "streamerr"), ("service_name", "v10")],
            r#"{"__error__":"boom"}"#
        ),
        owned_pairs(&[
            ("__error__", "streamerr"),
            ("__error___extracted", "boom"),
            ("service_name", "v10"),
        ])
    );
    assert_eq!(
        fast_path_labels(&[("service_name", "v4")], r#"{"__error__":""}"#),
        owned_pairs(&[("service_name", "v4")])
    );
    assert_eq!(
        fast_path_labels(
            &[("service_name", "v12")],
            r#"{"__error__":"","__error_details__":""}"#
        ),
        owned_pairs(&[("service_name", "v12")])
    );
    assert_eq!(
        fast_path_labels(
            &[("service_name", "v6")],
            r#"{"__error__":"","__error_details__":"bdet"}"#
        ),
        owned_pairs(&[("service_name", "v6")])
    );
    assert_eq!(
        fast_path_labels(
            &[("service_name", "v11")],
            r#"{"__error_details__":"bdet","trace_id":"abc"}"#
        ),
        owned_pairs(&[
            ("__error_details__", "bdet"),
            ("service_name", "v11"),
            ("trace_id", "abc"),
        ])
    );
    assert_eq!(
        fast_path_labels(
            &[("__error_details__", "streamdet"), ("service_name", "v13")],
            r#"{"__error_details__":"smdet"}"#
        ),
        owned_pairs(&[
            ("__error_details__", "streamdet"),
            ("__error_details___extracted", "smdet"),
            ("service_name", "v13"),
        ])
    );
    assert_eq!(
        fast_path_labels(
            &[("service_name", "w2")],
            r#"{"trace_id":"","__error_details__":"bdet"}"#
        ),
        owned_pairs(&[("service_name", "w2"), ("trace_id", "")])
    );
}

#[test]
fn fan_out_sm_fast_path_applies_the_reserved_sm_gate() {
    let services = HashMap::from([(1u64, "v2".to_string()), (2u64, "v3".to_string())]);
    let rows = vec![
        metadata_row(
            1,
            1,
            "a=Hello b=World",
            &[("service_name", "v2")],
            r#"{"__error__":"boom"}"#,
        ),
        metadata_row(
            2,
            2,
            "a=Hello b=World",
            &[("service_name", "v3")],
            r#"{"__error_details__":"bdet"}"#,
        ),
    ];
    let mut budget = 1 << 20;
    let mut got: Vec<String> = fan_out_sm_fast_path(rows, &services, &mut budget)
        .expect("well inside the budget")
        .into_iter()
        .map(|s| s.labels_json)
        .collect();
    got.sort();
    assert_eq!(
        got,
        vec![
            r#"{"__error__":"boom","service_name":"v2"}"#.to_string(),
            r#"{"service_name":"v3"}"#.to_string(),
        ]
    );
}

#[test]
fn recycle_label_scratch_preserves_capacity() {
    let scratch: Vec<(String, String)> = Vec::with_capacity(1024);
    let recycled = recycle_label_scratch(scratch);
    assert_eq!(recycled.capacity(), 1024, "the allocation must be reused");
    let mut full = Vec::with_capacity(16);
    full.push(("a".to_string(), "b".to_string()));
    let recycled = recycle_label_scratch(full);
    assert!(recycled.is_empty() && recycled.capacity() == 16);
}

#[test]
fn rows_of_one_label_set_share_a_group_and_unknown_streams_are_passed_over() {
    let services = HashMap::from([(1u64, "svc".to_string())]);
    let mut budget = 1 << 20;
    let rows = vec![
        metadata_row(1, 5, "one", &[("app", "x")], r#"{"t":"a"}"#),
        metadata_row(1, 6, "two", &[("app", "x")], r#"{"t":"b"}"#),
        metadata_row(9, 7, "lost", &[("app", "x")], r#"{"t":"a"}"#),
        metadata_row(1, 8, "three", &[("app", "x")], r#"{"t":"a"}"#),
    ];
    let streams = fan_out_sm_fast_path(rows, &services, &mut budget).expect("fits");
    assert_eq!(streams.len(), 2);
    assert_eq!(streams[0].labels_json, r#"{"app":"x","t":"a"}"#);
    assert_eq!(streams[0].fingerprint, fnv1a64(streams[0].labels_json.as_bytes()));
    assert_eq!(streams[0].service, "svc", "no service name among the labels");
    assert_eq!(streams[0].entries, vec![(5, "one".to_string()), (8, "three".to_string())]);
    assert_eq!(streams[1].entries, vec![(6, "two".to_string())]);
    assert!(streams.iter().all(|s| s.categories.is_empty()));
}

#[test]
fn the_hash_of_no_bytes_is_its_basis() {
    assert_eq!(fnv1a64(b""), 0xcbf2_9ce4_8422_2325);
    assert_eq!(fnv1a64(b"a"), 0xaf63_dc4c_8601_ec8c);
}

#[test]
fn a_refused_charge_leaves_the_groups_as_they_were() {
    let services = HashMap::from([(1u64, "svc".to_string())]);
    let mut acc = SmFanOutAccumulator::new();
    let mut budget = 40u64;
    acc.push_row(
        metadata_row(1, 1, "0123456789", &[("app", "x")], "{}"),
        &services,
        &mut budget,
        &charge,
    )
    .expect("a group of fourteen and a line of ten");
    assert_eq!(budget, 40 - 11 - 3 - 10);
    let refused = acc.push_row(
        metadata_row(1, 2, "a line that is too long for it", &[("app", "x")], "{}"),
        &services,
        &mut budget,
        &charge,
    );
    assert!(refused.is_err());
    assert_eq!(budget, 16, "a refused line costs nothing");
    let refused = acc.push_row(
        metadata_row(1, 3, "0123456789", &[("b", "y")], "{}"),
        &services,
        &mut budget,
        &charge,
    );
    assert!(refused.is_err(), "the group fits, its line does not");
    assert_eq!(budget, 16 - 9 - 3);
    let streams = acc.into_streams();
    assert_eq!(streams.len(), 1);
    assert_eq!(streams[0].entries.len(), 1);
}

#[test]
fn labels_split_by_category_in_their_positions() {
    let labels = owned_pairs(&[("z", "1"), ("app", "x"), ("m", "2"), ("a", "3"), ("tail", "4")]);
    let cats = [
        LabelCategory::Parsed,
        LabelCategory::Stream,
        LabelCategory::StructuredMetadata,
        LabelCategory::Parsed,
    ];
    let (stream, rest) = split_categories(labels, &cats);
    assert_eq!(stream, owned_pairs(&[("app", "x"), ("tail", "4")]));
    assert_eq!(rest.structured_metadata, owned_pairs(&[("m", "2")]));
    assert_eq!(rest.parsed, owned_pairs(&[("a", "3"), ("z", "1")]));
}

#[test]
fn merged_labels_split_where_no_pipeline_ran() {
    let ctx = StructuredMetadataCtx {
        err: "boom".to_string(),
        details: "why".to_string(),
        has_ordinary: true,
        stream_label_count: Some(3),
        sm_over_stream: vec!["b".to_string()],
    };
    let merged = owned_pairs(&[("c", "1"), ("b", "2"), ("a", "3"), ("z", "4"), ("m", "5")]);
    let (stream, rest) = split_merged_categories(merged, &ctx);
    assert_eq!(stream, owned_pairs(&[("a", "3"), ("c", "1")]));
    assert_eq!(rest.structured_metadata, owned_pairs(&[("b", "2"), ("m", "5"), ("z", "4")]));
    assert_eq!(
        rest.parsed,
        owned_pairs(&[("__error__", "boom"), ("__error_details__", "why")])
    );
    let plain = StructuredMetadataCtx {
        err: String::new(),
        details: String::new(),
        has_ordinary: false,
        stream_label_count: None,
        sm_over_stream: vec![],
    };
    let (stream, rest) = split_merged_categories(owned_pairs(&[("b", "1"), ("a", "2")]), &plain);
    assert_eq!(stream, owned_pairs(&[("a", "2"), ("b", "1")]));
    assert!(rest.structured_metadata.is_empty() && rest.parsed.is_empty());
}

#[test]
fn an_evaluated_row_joins_the_group_of_its_labels() {
    let mut groups = FanOutGroups::new();
    let mut budget = 1u64 << 20;
    let row = |cats: Option<Vec<LabelCategory>>| EvaluatedRow {
        line: "l".to_string(),
        labels: owned_pairs(&[("service_name", "s"), ("app", "x"), ("code", "7")]),
        categories: cats,
    };
    let split =
        Some(vec![LabelCategory::Stream, LabelCategory::Stream, LabelCategory::Parsed]);
    let (survived, r) = eval_structured_metadata_row(
        Ok(Some(row(split))),
        &mut groups,
        &mut budget,
        &charge,
        1,
        "fallback",
    );
    assert!(survived && r.is_ok());
    let (survived, r) = eval_structured_metadata_row(
        Ok(Some(row(None))),
        &mut groups,
        &mut budget,
        &charge,
        2,
        "fallback",
    );
    assert!(survived && r.is_ok());
    let (survived, r) =
        eval_structured_metadata_row(Ok(None), &mut groups, &mut budget, &charge, 3, "fallback");
    assert!(!survived && r.is_ok());
    let (survived, r) = eval_structured_metadata_row(
        Err(RowBudgetExceeded { budget: RowBudget::TemplateRender }),
        &mut groups,
        &mut budget,
        &charge,
        4,
        "fallback",
    );
    assert!(!survived);
    match r {
        Err(ReadError::QueryTooBroad(TooBroadReason::RowBudget { budget, .. })) => {
            assert_eq!(budget, RowBudget::TemplateRender);
        }
        other => panic!("{other:?}"),
    }
    let mut none = 0u64;
    let (survived, r) = eval_structured_metadata_row(
        Ok(Some(row(None))),
        &mut groups,
        &mut none,
        &charge,
        5,
        "fallback",
    );
    assert!(!survived && r.is_err());
    let streams = groups.into_streams();
    assert_eq!(streams.len(), 2);
    assert_eq!(streams[0].labels_json, r#"{"app":"x","service_name":"s"}"#);
    assert_eq!(streams[0].service, "s");
    assert_eq!(streams[0].categories[0].parsed, owned_pairs(&[("code", "7")]));
    assert_eq!(streams[1].labels_json, r#"{"app":"x","code":"7","service_name":"s"}"#);
    assert_eq!(streams[1].entries, vec![(2, "l".to_string())]);
}
