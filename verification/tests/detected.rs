//! Field detection: types, formats, and what is kept.
use pulsus_read::charge::{alloc_block_bytes, grown_alloc_bytes, map_entry_bytes};
use pulsus_read::detected::{
    auto_parse_into, auto_parse_legacy_shape, determine_type, field_entry_bytes,
    is_static_detected_label, json_path_bytes, value_entry_bytes, DetectedFieldOut,
    DetectedFields, DetectedLabelOut, FieldAccumulator, FieldSource, ParserRun, RetentionBudget,
    Unit, MAX_DETECTED_FIELD_BYTES,
};
use pulsus_read::error::{RowBudget, RowBudgetExceeded};
use pulsus_read::literal::{is_float, is_integer};

fn owned(pairs: &[(&str, &str)]) -> Vec<(String, String)> {
    pairs.iter().map(|(k, v)| (k.to_string(), v.to_string())).collect()
}

/// Whether a text is a sequence of numbers, each with a unit of time.
fn is_duration(v: &str) -> bool {
    let mut rest = v.strip_prefix(['-', '+']).unwrap_or(v);
    if rest.is_empty() {
        return false;
    }
    while !rest.is_empty() {
        let digits = rest.len() - rest.trim_start_matches(|c: char| c.is_ascii_digit() || c == '.').len();
        if digits == 0 || rest[..digits].parse::<f64>().is_err() {
            return false;
        }
        rest = &rest[digits..];
        let unit = ["ns", "us", "ms", "s", "m", "h"].iter().find(|u| {
            rest.starts_with(**u)
                && rest[u.len()..].chars().next().is_none_or(|c| !c.is_ascii_alphabetic())
        });
        match unit {
            Some(u) => rest = &rest[u.len()..],
            None => return false,
        }
    }
    true
}

/// Whether a text is a number with a unit of bytes.
fn is_bytes(v: &str) -> bool {
    let digits = v.len() - v.trim_start_matches(|c: char| c.is_ascii_digit() || c == '.').len();
    let unit = v[digits..].to_ascii_lowercase();
    digits > 0
        && v[..digits].parse::<f64>().is_ok()
        && ["b", "kb", "kib", "mb", "mib", "gb", "gib"].contains(&unit.as_str())
}

fn reads(v: &str, unit: Unit) -> bool {
    match unit {
        Unit::Duration => is_duration(v),
        Unit::Bytes => is_bytes(v),
    }
}

fn type_of(v: &str) -> &'static str {
    determine_type(v, &reads)
}

// -- Bare parsers, as a pipeline would run them. -------------------------

type Path = Vec<String>;

struct Json<'a> {
    s: &'a [u8],
    at: usize,
    out: Vec<(String, String, Path)>,
}

impl Json<'_> {
    fn skip(&mut self) {
        while self.at < self.s.len() && self.s[self.at].is_ascii_whitespace() {
            self.at += 1;
        }
    }

    fn take(&mut self, c: u8) -> Option<()> {
        self.skip();
        if self.s.get(self.at) == Some(&c) {
            self.at += 1;
            return Some(());
        }
        None
    }

    fn text(&mut self) -> Option<String> {
        self.take(b'"')?;
        let start = self.at;
        while *self.s.get(self.at)? != b'"' {
            self.at += 1;
        }
        let text = String::from_utf8(self.s[start..self.at].to_vec()).ok()?;
        self.at += 1;
        Some(text)
    }

    fn object(&mut self, path: &mut Path) -> Option<()> {
        self.take(b'{')?;
        if self.take(b'}').is_some() {
            return Some(());
        }
        loop {
            path.push(self.text()?);
            self.take(b':')?;
            self.skip();
            match *self.s.get(self.at)? {
                b'{' => self.object(path)?,
                b'"' => {
                    let v = self.text()?;
                    self.leaf(path, v);
                }
                _ => {
                    let start = self.at;
                    while self.at < self.s.len() && !b",} ".contains(&self.s[self.at]) {
                        self.at += 1;
                    }
                    let v = String::from_utf8(self.s[start..self.at].to_vec()).ok()?;
                    self.leaf(path, v);
                }
            }
            path.pop();
            if self.take(b',').is_none() {
                return self.take(b'}');
            }
        }
    }

    fn leaf(&mut self, path: &Path, value: String) {
        let parts: Vec<String> = path
            .iter()
            .map(|p| p.trim())
            .filter(|p| !p.is_empty())
            .map(|p| {
                p.chars().map(|c| if c.is_ascii_alphanumeric() || c == '_' { c } else { '_' }).collect()
            })
            .collect();
        self.out.push((parts.join("_"), value, path.clone()));
    }
}

fn json_run(line: &str) -> Result<ParserRun, RowBudgetExceeded> {
    let mut p = Json { s: line.as_bytes(), at: 0, out: Vec::new() };
    let parsed = p.object(&mut Vec::new()).is_some();
    let pairs = if parsed { p.out } else { Vec::new() };
    Ok(ParserRun {
        kept: true,
        has_err: !parsed,
        labels: pairs.iter().map(|(k, v, _)| (k.clone(), v.clone())).collect(),
        paths: pairs.into_iter().map(|(_, _, p)| Some(p)).collect(),
    })
}

fn logfmt_run(line: &str) -> Result<ParserRun, RowBudgetExceeded> {
    let labels = line
        .split_whitespace()
        .filter_map(|w| w.split_once('='))
        .filter(|(_, v)| !v.starts_with('"'))
        .map(|(k, v)| (k.to_string(), v.to_string()))
        .collect();
    Ok(ParserRun { kept: true, has_err: false, labels, paths: Vec::new() })
}

fn auto_parse(line: &str) -> Option<(&'static str, Vec<(String, String)>)> {
    let (parser, run) = auto_parse_into(json_run(line), logfmt_run(line)).expect("no breach")?;
    Some((parser, run.labels))
}

type CapturedPair = (String, String, Option<Vec<String>>);

fn auto_parse_paths(line: &str) -> (&'static str, Vec<CapturedPair>) {
    let (parser, run) =
        auto_parse_into(json_run(line), logfmt_run(line)).expect("no breach").expect("parsed");
    let pairs = run
        .labels
        .iter()
        .enumerate()
        .map(|(i, (k, v))| (k.clone(), v.clone(), run.path(i).map(<[String]>::to_vec)))
        .collect();
    (parser, pairs)
}

fn path_of(pairs: &[CapturedPair], label: &str) -> Option<Vec<String>> {
    pairs
        .iter()
        .find(|(l, ..)| l == label)
        .unwrap_or_else(|| panic!("no label {label} in {pairs:?}"))
        .2
        .clone()
}

fn observe_pair(acc: &mut FieldAccumulator, key: &str, value: &str, source: FieldSource<'_>) {
    acc.observe_pair(key, value, source, &reads);
}

fn observe_parsed(acc: &mut FieldAccumulator, pairs: &[(&str, &str)], source: FieldSource<'_>) {
    acc.observe_parsed(&owned(pairs), source, &reads);
}

// -- Types. ---------------------------------------------------------------

#[test]
fn determine_type_detects_ints_before_floats_and_floats_before_strings() {
    assert_eq!(type_of("42"), "int");
    assert_eq!(type_of("-7"), "int");
    assert_eq!(type_of("1.5"), "float");
    assert_eq!(type_of("-0.25"), "float");
    assert_eq!(type_of("hello"), "string");
    assert_eq!(type_of(""), "string");
}

#[test]
fn determine_type_detects_the_parse_bool_token_set() {
    for v in ["t", "T", "TRUE", "true", "True", "f", "F", "FALSE", "false", "False"] {
        assert_eq!(type_of(v), "boolean", "{v}");
    }
    assert_eq!(type_of("1"), "int");
    assert_eq!(type_of("0"), "int");
    assert_eq!(type_of("tRuE"), "string");
}

#[test]
fn determine_type_detects_durations_and_bytes_after_numbers() {
    assert_eq!(type_of("1.5h"), "duration");
    assert_eq!(type_of("250ms"), "duration");
    assert_eq!(type_of("1h30m"), "duration");
    assert_eq!(type_of("42MiB"), "bytes");
    assert_eq!(type_of("512b"), "bytes");
    assert_eq!(type_of("5KB"), "bytes");
}

#[test]
fn a_unit_is_asked_for_only_where_no_plain_type_fits() {
    let everything = |_: &str, _: Unit| true;
    assert_eq!(determine_type("42", &everything), "int");
    assert_eq!(determine_type("inf", &everything), "float");
    assert_eq!(determine_type("true", &everything), "boolean");
    assert_eq!(determine_type("x", &everything), "duration");
    assert_eq!(determine_type("x", &|_: &str, u: Unit| u == Unit::Bytes), "bytes");
}

#[test]
fn texts_spell_numbers_exactly_where_they_parse() {
    let texts = [
        "", "+", "-", "0", "-0", "+7", "007", "--1", "1-", "1 ", " 1", "9223372036854775807",
        "9223372036854775808", "-9223372036854775808", "-9223372036854775809",
        "99999999999999999999999999", "1.", ".5", ".", "1.5", "1..5", "1.5.2", "1e5", "1E+5",
        "1e-5", "1e", "e5", "1e+", "1.e5", ".e5", "inf", "-INF", "+Infinity", "infinit", "NaN",
        "nan", "nano", "0x10", "1_000", "１", "1e5e5", "-.5e-3", "+.5", "-inf1", "1f",
    ];
    for t in texts {
        assert_eq!(is_integer(t), t.parse::<i64>().is_ok(), "{t:?}");
        assert_eq!(is_float(t), t.parse::<f64>().is_ok(), "{t:?}");
    }
}

// -- Formats. ---------------------------------------------------------------

#[test]
fn auto_parse_prefers_json_for_a_valid_json_object() {
    let (parser, pairs) = auto_parse(r#"{"level":"info","count":7}"#).expect("parsed");
    assert_eq!(parser, "json");
    assert!(pairs.contains(&("level".to_string(), "info".to_string())));
    assert!(pairs.contains(&("count".to_string(), "7".to_string())));
}

#[test]
fn auto_parse_falls_back_to_logfmt_on_malformed_json() {
    let (parser, pairs) = auto_parse(r#"method=GET status=200"#).expect("parsed");
    assert_eq!(parser, "logfmt");
    assert!(pairs.contains(&("method".to_string(), "GET".to_string())));
    assert!(pairs.contains(&("status".to_string(), "200".to_string())));
}

#[test]
fn auto_parse_treats_a_lenient_logfmt_line_as_logfmt_even_when_it_extracts_nothing() {
    let (parser, pairs) = auto_parse(r#"plain x="unterminated"#).expect("lenient logfmt");
    assert_eq!(parser, "logfmt");
    assert!(pairs.is_empty(), "no clean fields, got {pairs:?}");
}

#[test]
fn auto_parse_accepts_json_with_an_empty_parsed_error_named_label() {
    let (parser, pairs) = auto_parse(r#"{"__error__":"","foo":"x"}"#).expect("parsed");
    assert_eq!(parser, "json");
    assert!(pairs.contains(&("foo".to_string(), "x".to_string())), "{pairs:?}");
    assert!(pairs.contains(&("__error__".to_string(), String::new())), "{pairs:?}");
}

#[test]
fn auto_parse_accepts_json_with_a_nonempty_parsed_error_named_label() {
    let (parser, pairs) = auto_parse(r#"{"__error__":"mine","foo":"x"}"#).expect("parsed");
    assert_eq!(parser, "json");
    assert!(pairs.contains(&("foo".to_string(), "x".to_string())), "{pairs:?}");
    assert!(pairs.contains(&("__error__".to_string(), "mine".to_string())));
}

#[test]
fn auto_parse_still_falls_back_on_a_genuine_json_slot_error() {
    let (parser, pairs) = auto_parse("foo=x bar=y").expect("parsed");
    assert_eq!(parser, "logfmt");
    assert!(pairs.contains(&("foo".to_string(), "x".to_string())));
    assert!(pairs.contains(&("bar".to_string(), "y".to_string())));
    assert!(!pairs.iter().any(|(k, _)| k == "__error__"), "{pairs:?}");
}

#[test]
fn a_breached_row_budget_is_an_error_and_not_another_format() {
    let breach = || Err(RowBudgetExceeded { budget: RowBudget::JsonFlattenKeys });
    assert_eq!(
        auto_parse_into(breach(), logfmt_run("a=1")).err(),
        Some(RowBudgetExceeded { budget: RowBudget::JsonFlattenKeys })
    );
    assert!(auto_parse_into(json_run("a=1"), breach()).is_err());
    assert_eq!(
        auto_parse_into(json_run(r#"{"a":1}"#), breach()).expect("json wins").map(|(p, _)| p),
        Some("json")
    );
    let (parser, pairs) = auto_parse_legacy_shape(breach(), logfmt_run("a=1")).expect("logfmt");
    assert_eq!((parser, pairs), ("logfmt", owned(&[("a", "1")])));
    assert!(auto_parse_legacy_shape(breach(), breach()).is_none());
    let dropped = || Ok(ParserRun { kept: false, has_err: false, labels: vec![], paths: vec![] });
    assert!(auto_parse_into(dropped(), dropped()).expect("no breach").is_none());
}

#[test]
fn json_path_of_a_top_level_field_is_the_raw_key() {
    let (parser, pairs) = auto_parse_paths(r#"{"msg":"hi","a-b":1}"#);
    assert_eq!(parser, "json");
    assert_eq!(path_of(&pairs, "msg"), Some(vec!["msg".to_string()]));
    assert_eq!(path_of(&pairs, "a_b"), Some(vec!["a-b".to_string()]));
}

#[test]
fn json_path_of_a_nested_field_is_every_component_in_order() {
    let (_, pairs) = auto_parse_paths(r#"{"user":{"id":7,"name":{"first":"a"}}}"#);
    assert_eq!(
        path_of(&pairs, "user_id"),
        Some(vec!["user".to_string(), "id".to_string()])
    );
    assert_eq!(
        path_of(&pairs, "user_name_first"),
        Some(vec!["user".to_string(), "name".to_string(), "first".to_string()])
    );
}

#[test]
fn json_path_keeps_a_component_that_trims_empty() {
    let (_, pairs) = auto_parse_paths(r#"{"x":{"  ":{"b":1}}}"#);
    assert_eq!(
        path_of(&pairs, "x_b"),
        Some(vec!["x".to_string(), "  ".to_string(), "b".to_string()])
    );
}

#[test]
fn a_logfmt_line_captures_no_json_path() {
    let (parser, pairs) = auto_parse_paths("method=GET status=200");
    assert_eq!(parser, "logfmt");
    assert!(pairs.iter().all(|(.., p)| p.is_none()), "{pairs:?}");
}

// -- Fields. ----------------------------------------------------------------

#[test]
fn the_accumulator_keeps_the_last_json_path_and_ignores_other_sources() {
    let path = vec!["user".to_string(), "id".to_string()];
    let mut acc = FieldAccumulator::new(10);
    observe_pair(&mut acc, "user_id", "1", FieldSource::Json { path: Some(&path) });
    observe_pair(&mut acc, "user_id", "2", FieldSource::Logfmt);
    observe_pair(&mut acc, "user_id", "3", FieldSource::Unattributed);
    let (fields, capped) = acc.finish();
    assert!(!capped);
    assert_eq!(fields[0].json_path.as_deref(), Some(&path[..]));

    let mut acc = FieldAccumulator::new(10);
    observe_pair(&mut acc, "user_id", "1", FieldSource::Json { path: Some(&path) });
    observe_pair(&mut acc, "user_id", "2", FieldSource::Json { path: None });
    let (fields, _) = acc.finish();
    assert_eq!(fields[0].json_path, None);
}

#[test]
fn an_unattributed_field_has_no_json_path() {
    let mut acc = FieldAccumulator::new(10);
    observe_pair(&mut acc, "trace_id", "abc", FieldSource::Unattributed);
    let (fields, _) = acc.finish();
    assert_eq!(fields[0].json_path, None);
    assert!(fields[0].parsers.is_empty());
}

#[test]
fn a_json_path_is_charged_once_and_clamps_when_the_budget_refuses() {
    let short = vec!["a".to_string()];
    let longer = vec!["averyverylongcomponentname".to_string(), "second".to_string()];
    let mut acc = FieldAccumulator::new(10);
    observe_pair(&mut acc, "f", "1", FieldSource::Json { path: Some(&short) });
    let after_first = acc.charged();
    observe_pair(&mut acc, "f", "1", FieldSource::Json { path: Some(&short) });
    assert_eq!(acc.charged(), after_first, "an identical path must not be charged again");
    observe_pair(&mut acc, "f", "1", FieldSource::Json { path: Some(&longer) });
    assert!(acc.charged() > after_first, "a longer path charges more");

    let mut acc = FieldAccumulator::with_byte_budget(10, after_first);
    observe_pair(&mut acc, "f", "1", FieldSource::Json { path: Some(&short) });
    observe_pair(&mut acc, "f", "1", FieldSource::Json { path: Some(&longer) });
    let (fields, capped) = acc.finish();
    assert!(capped, "the refused path growth must set retention_capped");
    assert_eq!(fields[0].json_path.as_deref(), Some(&short[..]));
}

#[test]
fn error_labels_are_excluded_from_fields() {
    let mut acc = FieldAccumulator::new(100);
    observe_parsed(
        &mut acc,
        &[("__error__", "JSONParserErr"), ("__error_details__", "x"), ("ok", "1")],
        FieldSource::Unattributed,
    );
    let (fields, _) = acc.finish();
    assert_eq!(fields.len(), 1);
    assert_eq!(fields[0].label, "ok");
}

#[test]
fn field_limit_caps_on_first_seen_names_and_skips_later_names_entirely() {
    let mut acc = FieldAccumulator::new(2);
    observe_parsed(&mut acc, &[("a", "1"), ("b", "2"), ("c", "3")], FieldSource::Unattributed);
    observe_parsed(&mut acc, &[("a", "4"), ("c", "5")], FieldSource::Unattributed);
    let (fields, _) = acc.finish();
    assert_eq!(
        fields.iter().map(|f| f.label.as_str()).collect::<Vec<_>>(),
        vec!["a", "b"],
        "the first 2 distinct names win; `c` is skipped entirely"
    );
    assert_eq!(fields[0].cardinality, 2, "a saw values 1 and 4");
}

#[test]
fn cardinality_is_exact_over_distinct_values() {
    let mut acc = FieldAccumulator::new(100);
    observe_parsed(&mut acc, &[("k", "x")], FieldSource::Unattributed);
    observe_parsed(&mut acc, &[("k", "y")], FieldSource::Unattributed);
    observe_parsed(&mut acc, &[("k", "x")], FieldSource::Unattributed);
    let (fields, _) = acc.finish();
    assert_eq!(fields[0].cardinality, 2);
}

#[test]
fn type_is_re_detected_per_observation_and_the_last_wins() {
    let mut acc = FieldAccumulator::new(100);
    observe_parsed(&mut acc, &[("k", "42")], FieldSource::Unattributed);
    assert_eq!(acc.field("k").expect("a field").field_type, "int");
    observe_parsed(&mut acc, &[("k", "hello")], FieldSource::Unattributed);
    let (fields, _) = acc.finish();
    assert_eq!(fields[0].field_type, "string", "last observation wins");
}

#[test]
fn structured_metadata_fields_carry_no_parser_and_parsed_fields_dedupe_parsers() {
    let mut acc = FieldAccumulator::new(100);
    acc.observe_structured_metadata(&owned(&[("trace_id", "abc")]), &reads);
    observe_parsed(&mut acc, &[("level", "info")], FieldSource::Json { path: None });
    observe_parsed(&mut acc, &[("level", "warn")], FieldSource::Json { path: None });
    observe_parsed(&mut acc, &[("level", "err")], FieldSource::Logfmt);
    let (fields, _) = acc.finish();
    let trace = fields.iter().find(|f| f.label == "trace_id").expect("sm field");
    assert!(trace.parsers.is_empty(), "SM fields have no parser attribution");
    let level = fields.iter().find(|f| f.label == "level").expect("level");
    assert_eq!(level.parsers, vec!["json", "logfmt"], "encounter order, deduped");
}

#[test]
fn finish_sorts_fields_by_label() {
    let mut acc = FieldAccumulator::new(100);
    observe_parsed(&mut acc, &[("zeta", "1"), ("alpha", "2")], FieldSource::Unattributed);
    let (fields, _) = acc.finish();
    assert_eq!(
        fields.iter().map(|f| f.label.as_str()).collect::<Vec<_>>(),
        vec!["alpha", "zeta"]
    );
}

#[test]
fn static_detected_labels_match_the_reference_set() {
    assert!(is_static_detected_label("cluster"));
    assert!(is_static_detected_label("namespace"));
    assert!(is_static_detected_label("instance"));
    assert!(is_static_detected_label("pod"));
    assert!(!is_static_detected_label("env"));
}

#[test]
fn charged_bytes_never_exceed_the_budget_over_any_sequence() {
    let budget = 4 * 1024;
    let mut acc = FieldAccumulator::with_byte_budget(100, budget);
    for i in 0..500u32 {
        observe_pair(
            &mut acc,
            &format!("k{}", i % 7),
            &format!("value-{i}"),
            FieldSource::Unattributed,
        );
        assert!(acc.charged() <= budget, "charged {} at {i}", acc.charged());
    }
    let (_, capped) = acc.finish();
    assert!(capped, "the tiny budget must have refused something");
}

#[test]
fn a_refused_field_admission_is_absent_and_charges_nothing() {
    let first = "alpha";
    let second = "omega";
    let budget = field_entry_bytes(first) + value_entry_bytes("1") + 1;
    assert!(budget < field_entry_bytes(first) + value_entry_bytes("1") + field_entry_bytes(second));
    let mut acc = FieldAccumulator::with_byte_budget(100, budget);
    observe_pair(&mut acc, first, "1", FieldSource::Unattributed);
    let charged_before = acc.charged();
    observe_pair(&mut acc, second, "2", FieldSource::Unattributed);
    assert_eq!(acc.charged(), charged_before);
    let (fields, capped) = acc.finish();
    assert!(capped);
    assert_eq!(fields.len(), 1, "the refused name is absent: {fields:?}");
    assert_eq!(fields[0].label, first);
}

#[test]
fn a_refused_value_is_absent_charges_nothing_and_freezes_the_field() {
    let budget = field_entry_bytes("k") + value_entry_bytes("small") + 1;
    let wide = "w".repeat(4096);
    assert!(
        budget < field_entry_bytes("k") + value_entry_bytes("small") + value_entry_bytes(&wide)
    );
    let mut acc = FieldAccumulator::with_byte_budget(100, budget);
    observe_pair(&mut acc, "k", "small", FieldSource::Unattributed);
    let charged_before = acc.charged();
    observe_pair(&mut acc, "k", &wide, FieldSource::Unattributed);
    assert_eq!(acc.charged(), charged_before);
    assert!(acc.field("k").expect("a field").frozen, "the refusal freezes the field");
    let (fields, capped) = acc.finish();
    assert!(capped);
    assert_eq!(fields[0].cardinality, 1, "the refused value was never inserted");
}

#[test]
fn a_tiny_budget_clamps_and_serves_never_errors() {
    let mut acc = FieldAccumulator::with_byte_budget(100, 4 * 1024);
    for i in 0..500u32 {
        observe_pair(
            &mut acc,
            &format!("field{}", i % 50),
            &format!("v{i}"),
            FieldSource::Unattributed,
        );
    }
    let (fields, capped) = acc.finish();
    assert!(capped, "retention_capped must be set");
    assert!(!fields.is_empty(), "the response still serves");
    let total: u64 = fields.iter().map(|f| f.cardinality).sum();
    assert!(total < 500, "cardinalities must under-report under the clamp, got {total}");
}

#[test]
fn a_frozen_field_still_re_detects_type_and_appends_parsers() {
    let budget = field_entry_bytes("k") + value_entry_bytes("42") + 1;
    let mut acc = FieldAccumulator::with_byte_budget(100, budget);
    observe_pair(&mut acc, "k", "42", FieldSource::Json { path: None });
    assert_eq!(acc.field("k").expect("a field").field_type, "int");
    observe_pair(&mut acc, "k", "hello-world-wide-value", FieldSource::Logfmt);
    assert!(acc.field("k").expect("a field").frozen);
    let (fields, capped) = acc.finish();
    assert!(capped);
    assert_eq!(fields[0].field_type, "string", "type re-detected (last wins)");
    assert_eq!(fields[0].parsers, vec!["json", "logfmt"], "parser appended");
    assert_eq!(fields[0].cardinality, 1, "value set frozen");
}

#[test]
fn field_name_bytes_are_charged_by_length() {
    let short = "a";
    let mid = "a".repeat(64);
    let long = "a".repeat(65_536);
    assert!(field_entry_bytes(short) < field_entry_bytes(&mid));
    assert!(field_entry_bytes(&mid) < field_entry_bytes(&long));
    let budget = 1024 * 1024;
    let mut acc = FieldAccumulator::with_byte_budget(5000, budget);
    for i in 0..512u32 {
        let name = format!("{i:05}-{}", "n".repeat(65_536));
        observe_pair(&mut acc, &name, "v", FieldSource::Unattributed);
    }
    let (fields, capped) = acc.finish();
    assert!(capped, "512 x 64 KiB names must breach 1 MiB");
    let per_name = field_entry_bytes(&format!("{:05}-{}", 0, "n".repeat(65_536)));
    assert!((fields.len() as u64) * per_name <= budget);
}

#[test]
fn charges_are_the_blocks_they_pay_for() {
    assert_eq!(
        value_entry_bytes("abc"),
        map_entry_bytes(std::mem::size_of::<String>()) + alloc_block_bytes(3)
    );
    let path = vec!["a".to_string(), "bcd".to_string()];
    assert_eq!(
        json_path_bytes(&path),
        alloc_block_bytes(48) + alloc_block_bytes(1) + alloc_block_bytes(3)
    );
    assert_eq!(field_entry_bytes("xy") - grown_alloc_bytes(2), field_entry_bytes(""). saturating_sub(grown_alloc_bytes(0)));
}

#[test]
fn a_budget_refuses_and_remembers() {
    let mut b = RetentionBudget::new(10);
    assert!(b.charge(10));
    assert!(!b.charge(1));
    assert!(b.charge(0));
    assert_eq!((b.charged, b.peak, b.capped), (10, 10, true));
    assert!(!b.charge(u64::MAX));
    assert_eq!(b.charged, 10);
    assert_eq!(MAX_DETECTED_FIELD_BYTES, 67_108_864);
}

#[test]
fn answers_are_plain_values() {
    let field = DetectedFieldOut {
        label: "a".to_string(),
        field_type: "int",
        cardinality: 1,
        parsers: vec!["json"],
        json_path: None,
    };
    let fields = DetectedFields { fields: vec![field], truncated: false, retention_capped: true };
    assert_eq!(fields.fields[0].label, "a");
    assert!(!fields.truncated && fields.retention_capped);
    let label = DetectedLabelOut { label: "pod".to_string(), cardinality: 3 };
    assert_eq!((label.label.as_str(), label.cardinality), ("pod", 3));
}

#[test]
fn an_answer_tells_the_first_names_and_all_that_was_observed_under_them() {
    let path = vec!["b".to_string()];
    let mut acc = FieldAccumulator::new(2);
    observe_pair(&mut acc, "b", "1", FieldSource::Json { path: Some(&path) });
    observe_pair(&mut acc, "__error__", "x", FieldSource::Unattributed);
    observe_pair(&mut acc, "a", "true", FieldSource::Logfmt);
    observe_pair(&mut acc, "c", "1", FieldSource::Logfmt);
    observe_pair(&mut acc, "b", "1.5", FieldSource::Logfmt);
    observe_pair(&mut acc, "b", "1", FieldSource::Json { path: Some(&path) });
    observe_pair(&mut acc, "a", "no", FieldSource::Unattributed);
    let (fields, capped) = acc.finish();
    assert!(!capped);
    let told: Vec<(&str, &str, u64, Vec<&str>)> = fields
        .iter()
        .map(|f| (f.label.as_str(), f.field_type, f.cardinality, f.parsers.clone()))
        .collect();
    assert_eq!(
        told,
        vec![("a", "string", 2, vec!["logfmt"]), ("b", "int", 2, vec!["json", "logfmt"])]
    );
    assert_eq!(fields[1].json_path.as_deref(), Some(&path[..]));
}
