//! Which links become part of the statement, and what the others leave.
use pulsus_read::compile::{
    seed_relation, BlockReason, Capability, Dispatcher, DropKeepElem, EvaluatorOnlyLabels,
    Fidelity, Grouping, LabelFilterExpr, LabelFmt, LineFilter, Lql, LqlHandoff, LqlLink, LqlShape,
    LqlSource, NeverReason, ParserStage, Provenance, Relation, SortDir, SortOrder, SourceRef,
    Stage, BODY, LEVEL, LOG_SAMPLES, LOG_STREAMS, LOG_STREAMS_IDX, TIMESTAMP_NS,
};
use pulsus_read::error::ReadError;
use pulsus_read::model::{RangeAggOp, VectorAggOp};

fn base(shape: LqlShape) -> Relation {
    let mut rel = seed_relation();
    rel.shape = shape;
    rel
}

fn with_exact(mut rel: Relation, exact: bool) -> Relation {
    rel.exact = exact;
    rel
}

fn with_col(mut rel: Relation, name: &str, p: Provenance) -> Relation {
    rel.cols.set_provenance(name, p);
    rel
}

fn widened(mut rel: Relation, id: &'static str) -> Relation {
    rel.cols.widen(EvaluatorOnlyLabels(id));
    rel
}

fn ordered(mut rel: Relation, key: &str) -> Relation {
    rel.ordering = Some(SortOrder { keys: vec![(key.to_string(), SortDir::Desc)] });
    rel
}

fn limited(mut rel: Relation, n: u64) -> Relation {
    rel.limit = Some(n);
    rel
}

fn without_col(mut rel: Relation, name: &str) -> Relation {
    rel.cols = rel.cols.without(&vec![name.to_string()]);
    rel
}

fn only_cols(mut rel: Relation, names: &[&str]) -> Relation {
    rel.cols = rel.cols.only(&names.iter().map(|n| n.to_string()).collect());
    rel
}

fn elems(names: &[&str]) -> Vec<DropKeepElem> {
    names.iter().map(|n| DropKeepElem { label: n.to_string() }).collect()
}

fn pushable(sql: &str) -> LqlLink {
    LqlLink::Pipe(Stage::LineFilter(LineFilter { pushable: true, condition: Ok(sql.to_string()) }))
}

fn address_filter() -> LqlLink {
    LqlLink::Pipe(Stage::LineFilter(LineFilter {
        pushable: false,
        condition: Err("no condition for an address".to_string()),
    }))
}

fn label_filter(name: &str) -> LqlLink {
    LqlLink::Pipe(Stage::LabelFilter(LabelFilterExpr::Match { name: name.to_string() }))
}

fn residual(link: &LqlLink, rel: Relation) -> Relation {
    Lql::lower_of(link).residual_effect(link, rel)
}

fn capability(link: &LqlLink, rel: &Relation) -> Capability {
    Lql::lower_of(link).capability(link, rel)
}

/// Two starting states and what a link that is left to the evaluator makes of each.
struct EffectRow {
    name: &'static str,
    link: LqlLink,
    s1: Relation,
    s2: Relation,
    e1: Relation,
    e2: Relation,
}

#[test]
fn every_residual_state_effect_is_the_one_the_document_states() {
    let lines = || base(LqlShape::Lines);
    let samples = || base(LqlShape::Samples);
    let series = || base(LqlShape::Series);
    let owned = || Provenance::EvaluatorOnly;
    let level = |r: Relation| with_col(r, "level", Provenance::Stored);
    let mut rows: Vec<EffectRow> = Vec::new();

    for (name, link) in [("LineFilter", address_filter()), ("LabelFilter", label_filter("level"))] {
        rows.push(EffectRow {
            name,
            link,
            s1: with_exact(lines(), true),
            s2: with_exact(samples(), true),
            e1: with_exact(lines(), false),
            e2: with_exact(samples(), false),
        });
    }
    for (name, parser, id) in [
        ("Parser(Json)", ParserStage::Json, "parser:json"),
        ("Parser(Logfmt)", ParserStage::Logfmt, "parser:logfmt"),
        ("Parser(Regexp)", ParserStage::Regexp("(?P<a>.*)".to_string()), "parser:regexp"),
        ("Parser(Pattern)", ParserStage::Pattern("<a>".to_string()), "parser:pattern"),
    ] {
        rows.push(EffectRow {
            name,
            link: LqlLink::Pipe(Stage::Parser(parser)),
            s1: with_exact(lines(), true),
            s2: with_exact(samples(), false),
            e1: widened(with_exact(lines(), true), id),
            e2: widened(with_exact(samples(), false), id),
        });
    }
    for (name, stage) in [
        ("LineFormat", Stage::LineFormat("{{.msg}}".to_string())),
        ("Decolorize", Stage::Decolorize),
    ] {
        rows.push(EffectRow {
            name,
            link: LqlLink::Pipe(stage),
            s1: with_exact(lines(), true),
            s2: with_exact(samples(), false),
            e1: with_col(with_exact(lines(), true), BODY, owned()),
            e2: with_col(with_exact(samples(), false), BODY, owned()),
        });
    }
    rows.push(EffectRow {
        name: "LabelFormat",
        link: LqlLink::Pipe(Stage::LabelFormat(vec![LabelFmt::Rename {
            dst: "dst".to_string(),
            src: "src".to_string(),
        }])),
        s1: with_exact(lines(), true),
        s2: with_exact(samples(), false),
        e1: with_col(with_exact(lines(), true), "dst", owned()),
        e2: with_col(with_exact(samples(), false), "dst", owned()),
    });
    rows.push(EffectRow {
        name: "Unwrap",
        link: LqlLink::Pipe(Stage::Unwrap("latency".to_string())),
        s1: lines(),
        s2: samples(),
        e1: with_col(lines(), "latency", owned()),
        e2: with_col(samples(), "latency", owned()),
    });
    rows.push(EffectRow {
        name: "Unpack",
        link: LqlLink::Pipe(Stage::Unpack),
        s1: lines(),
        s2: samples(),
        e1: widened(with_col(lines(), BODY, owned()), "unpack:labels"),
        e2: widened(with_col(samples(), BODY, owned()), "unpack:labels"),
    });
    rows.push(EffectRow {
        name: "Drop",
        link: LqlLink::Pipe(Stage::Drop(elems(&["level"]))),
        s1: level(with_exact(lines(), true)),
        s2: level(with_exact(samples(), false)),
        e1: without_col(level(with_exact(lines(), true)), "level"),
        e2: without_col(level(with_exact(samples(), false)), "level"),
    });
    rows.push(EffectRow {
        name: "Keep",
        link: LqlLink::Pipe(Stage::Keep(elems(&["body"]))),
        s1: level(with_exact(lines(), true)),
        s2: level(with_exact(samples(), false)),
        e1: only_cols(level(with_exact(lines(), true)), &[BODY]),
        e2: only_cols(level(with_exact(samples(), false)), &[BODY]),
    });
    rows.push(EffectRow {
        name: "Window",
        link: LqlLink::Window {
            range_ns: 300_000_000_000,
            step_ns: 60_000_000_000,
            offset_ns: 0,
            grid_start_ns: 0,
        },
        s1: lines(),
        s2: samples(),
        e1: with_col(lines(), "__bucket", owned()),
        e2: with_col(samples(), "__bucket", owned()),
    });
    rows.push(EffectRow {
        name: "RangeAgg",
        link: LqlLink::RangeAgg { op: RangeAggOp::CountOverTime, grouping: None, param: None },
        s1: with_exact(lines(), true),
        s2: with_exact(samples(), true),
        e1: with_exact(lines(), false),
        e2: with_exact(samples(), false),
    });
    rows.push(EffectRow {
        name: "VectorAgg",
        link: LqlLink::VectorAgg { op: VectorAggOp::Sum, grouping: None, param: None },
        s1: with_exact(series(), true),
        s2: with_exact(samples(), true),
        e1: with_exact(series(), false),
        e2: with_exact(samples(), false),
    });
    rows.push(EffectRow {
        name: "LabelReplace",
        link: LqlLink::LabelReplace {
            dst: "dst".to_string(),
            replacement: "$1".to_string(),
            src: "src".to_string(),
            regex: "(.*)".to_string(),
        },
        s1: with_exact(series(), true),
        s2: with_exact(samples(), true),
        e1: with_col(with_exact(series(), false), "dst", owned()),
        e2: with_col(with_exact(samples(), false), "dst", owned()),
    });
    rows.push(EffectRow {
        name: "Order",
        link: LqlLink::Order,
        s1: ordered(lines(), "timestamp_ns"),
        s2: ordered(series(), "t"),
        e1: lines(),
        e2: series(),
    });
    rows.push(EffectRow {
        name: "Limit",
        link: LqlLink::Limit(100),
        s1: limited(lines(), 100),
        s2: limited(series(), 101),
        e1: lines(),
        e2: series(),
    });
    rows.push(EffectRow {
        name: "Emit",
        link: LqlLink::Emit,
        s1: lines(),
        s2: series(),
        e1: with_col(lines(), "__response", owned()),
        e2: with_col(series(), "__response", owned()),
    });

    assert_eq!(rows.len(), 20);
    for row in rows {
        assert_ne!(row.s1, row.e1, "{}: the effect shows", row.name);
        assert_ne!(row.s2, row.e2, "{}: the effect shows", row.name);
        assert_eq!(residual(&row.link, row.s1), row.e1, "{}", row.name);
        assert_eq!(residual(&row.link, row.s2), row.e2, "{}", row.name);
    }
}

#[test]
fn drop_and_keep_dispatch_differently_on_the_same_payload_type() {
    let payload = elems(&["level"]);
    assert_eq!(payload.len(), 1);
    assert_eq!(payload[0].label, "level");
    let drop_link = LqlLink::Pipe(Stage::Drop(payload));
    let keep_link = LqlLink::Pipe(Stage::Keep(elems(&["level"])));
    let d = Lql::lower_of(&drop_link);
    let k = Lql::lower_of(&keep_link);
    assert_ne!(d, k, "Drop and Keep must not reach the same dispatcher");

    let seed = || with_col(base(LqlShape::Lines), "level", Provenance::Stored);
    let expected_drop = without_col(seed(), "level");
    let expected_keep = only_cols(seed(), &["level"]);
    assert_eq!(d.residual_effect(&drop_link, seed()), expected_drop);
    assert_eq!(k.residual_effect(&keep_link, seed()), expected_keep);
    assert_ne!(expected_drop, expected_keep);
}

#[test]
fn a_grouping_slot_is_part_of_the_accumulated_state() {
    let mut rel = seed_relation();
    assert!(rel.grouping.is_none());
    rel.grouping = Some(Grouping { keys: vec!["level".to_string()] });
    assert_eq!(rel.grouping.as_ref().map(|g| g.keys.len()), Some(1));
}

#[test]
fn a_filter_between_two_pushable_ones_keeps_neither_out() {
    let rel = seed_relation();
    let first = pushable("first");
    assert_eq!(capability(&first, &rel), Capability::Yes);
    let rel = Lql::lower_of(&first).apply(&first, rel).expect("a condition");
    let between = address_filter();
    assert_eq!(capability(&between, &rel), Capability::No(BlockReason::NotPushable));
    let rel = residual(&between, rel);
    let last = pushable("last");
    assert_eq!(capability(&last, &rel), Capability::Yes);
    let rel = Lql::lower_of(&last).apply(&last, rel).expect("a condition");
    let sql: Vec<&str> = rel.predicate.iter().map(|c| c.sql.as_str()).collect();
    assert_eq!(sql, vec!["first", "last"]);
    assert_eq!(rel.predicate[0].source, SourceRef(LOG_STREAMS_IDX));
    assert!(!rel.exact);
}

#[test]
fn a_limit_needs_an_order_and_exact_rows() {
    let limit = LqlLink::Limit(100);
    let rel = seed_relation();
    assert_eq!(
        capability(&limit, &rel),
        Capability::No(BlockReason::OrderingNotEstablished)
    );
    assert_eq!(capability(&LqlLink::Order, &rel), Capability::Yes);
    let rel = Lql::lower_of(&LqlLink::Order).apply(&LqlLink::Order, rel).expect("ordered");
    assert_eq!(
        rel.ordering,
        Some(SortOrder { keys: vec![(TIMESTAMP_NS.to_string(), SortDir::Desc)] })
    );
    assert_eq!(capability(&limit, &rel), Capability::Yes);
    let rel = Lql::lower_of(&limit).apply(&limit, rel).expect("limited");
    assert_eq!(rel.limit, Some(100));
    let rel = residual(&label_filter("level"), rel);
    assert_eq!(capability(&limit, &rel), Capability::No(BlockReason::NotExact));
}

#[test]
fn an_order_needs_its_column() {
    let rel = without_col(seed_relation(), TIMESTAMP_NS);
    assert_eq!(
        capability(&LqlLink::Order, &rel),
        Capability::No(BlockReason::NameNotResolvable)
    );
}

#[test]
fn a_rewritten_line_blocks_what_reads_it() {
    for rewriter in [
        LqlLink::Pipe(Stage::LineFormat("x".to_string())),
        LqlLink::Pipe(Stage::Decolorize),
        LqlLink::Pipe(Stage::Unpack),
    ] {
        let rel = residual(&rewriter, seed_relation());
        assert_eq!(capability(&pushable("x"), &rel), Capability::No(BlockReason::BodyNotStored));
        assert_eq!(
            capability(&LqlLink::Pipe(Stage::Parser(ParserStage::Json)), &rel),
            Capability::No(BlockReason::BodyNotStored)
        );
    }
    assert_eq!(
        capability(&LqlLink::Pipe(Stage::Parser(ParserStage::Json)), &seed_relation()),
        Capability::No(BlockReason::NotYetLowered)
    );
    assert_eq!(
        capability(&pushable("x"), &without_col(seed_relation(), BODY)),
        Capability::Yes,
        "a line nothing is recorded of is the stored one"
    );
}

#[test]
fn a_label_filter_is_blocked_by_any_name_it_cannot_read() {
    let known = || LabelFilterExpr::Match { name: LEVEL.to_string() };
    let unknown = || LabelFilterExpr::Compare { name: "latency".to_string() };
    let filter = |e| LqlLink::Pipe(Stage::LabelFilter(e));
    let rel = seed_relation();
    assert_eq!(
        capability(&filter(known()), &rel),
        Capability::No(BlockReason::NotYetLowered)
    );
    for e in [
        unknown(),
        LabelFilterExpr::Ip { name: "addr".to_string() },
        LabelFilterExpr::And(Box::new(known()), Box::new(unknown())),
        LabelFilterExpr::Or(Box::new(unknown()), Box::new(known())),
    ] {
        assert_eq!(
            capability(&filter(e), &rel),
            Capability::No(BlockReason::NameNotResolvable)
        );
    }
    let dropped = residual(&LqlLink::Pipe(Stage::Drop(elems(&[LEVEL]))), seed_relation());
    assert_eq!(
        capability(&filter(known()), &dropped),
        Capability::No(BlockReason::NameNotResolvable)
    );
}

#[test]
fn some_links_never_become_part_of_a_statement() {
    let rel = seed_relation();
    let absent =
        LqlLink::RangeAgg { op: RangeAggOp::AbsentOverTime, grouping: None, param: None };
    assert_eq!(
        capability(&absent, &rel),
        Capability::Never(NeverReason::NoRowToComputeFrom)
    );
    let count = LqlLink::RangeAgg { op: RangeAggOp::CountOverTime, grouping: None, param: None };
    assert_eq!(capability(&count, &rel), Capability::No(BlockReason::NotYetLowered));
    assert_eq!(capability(&LqlLink::Emit, &rel), Capability::Never(NeverReason::ResponseBuild));
    assert_eq!(capability(&LqlLink::Source, &rel), Capability::Yes);
    assert_eq!(Dispatcher::Source.fidelity(), Some(Fidelity::Equivalent));
    assert_eq!(Dispatcher::Parser.fidelity(), None);
}

#[test]
fn a_filter_without_a_condition_is_an_error() {
    let link = address_filter();
    match Lql::lower_of(&link).apply(&link, seed_relation()) {
        Err(ReadError::PipelineInvalid { reason }) => {
            assert_eq!(reason, "no condition for an address");
        }
        other => panic!("{other:?}"),
    }
}

#[test]
fn handing_streams_on_costs_text_and_elements() {
    let c = Lql::handoff_cost(3);
    assert_eq!((c.text_bytes, c.ast_elements), (98, 7));
    let rel = seed_relation();
    assert_eq!(Lql::source_of(&LqlLink::Emit, &rel), SourceRef(LOG_STREAMS_IDX));
    assert_eq!(LqlSource::named(SourceRef(LOG_STREAMS)).source_ref(), SourceRef("log_streams"));
    assert_eq!(LOG_SAMPLES, "log_samples");
    assert_eq!(LqlHandoff(vec![1]).0, vec![1]);
    let open = EvaluatorOnlyLabels("parser:json");
    assert_eq!(open.resolve("level"), None);
    assert_eq!(open.id(), "parser:json");
}
