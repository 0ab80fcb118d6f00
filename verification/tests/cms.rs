//! The sketch and the retention of label sets.
use std::collections::HashSet;

use pulsus_read::cms::{
    series_key, CountMinSketch, Retention, SeriesKey, CMS_DEPTH, CMS_MAX_LABELS, CMS_WIDTH,
    ESTIMATE_START,
};
use pulsus_read::number::float_lt;

fn plus(a: u64, b: u64) -> u64 {
    (f64::from_bits(a) + f64::from_bits(b)).to_bits()
}

fn add(s: &mut CountMinSketch, key: SeriesKey, count: f64) {
    s.add(key, count.to_bits(), &plus);
}

fn count(s: &CountMinSketch, key: SeriesKey) -> f64 {
    f64::from_bits(s.count(key))
}

fn stable_label_bytes(labels: &[(&str, &str)]) -> Vec<u8> {
    let mut out = vec![0xFEu8];
    for (i, (name, value)) in labels.iter().enumerate() {
        if i > 0 {
            out.push(0xFF);
        }
        out.extend_from_slice(name.as_bytes());
        out.push(0xFF);
        out.extend_from_slice(value.as_bytes());
    }
    out
}

fn owned(labels: &[(&str, &str)]) -> Vec<(String, String)> {
    labels.iter().map(|(k, v)| (k.to_string(), v.to_string())).collect()
}

fn lvl_key(token: &str) -> SeriesKey {
    series_key(&owned(&[("lvl", token)]))
}

fn hashn(key: &[u8]) -> (u32, u32) {
    let mut h1: u32 = 0x811c_9dc5;
    for &b in key {
        h1 = (h1 ^ u32::from(b)).wrapping_mul(0x0100_0193);
    }
    let mut h2: u32 = 0;
    for &b in key {
        h2 = h2.wrapping_add(u32::from(b));
        h2 = h2.wrapping_add(h2 << 10);
        h2 ^= h2 >> 6;
    }
    h2 = h2.wrapping_add(h2 << 3);
    h2 ^= h2 >> 11;
    h2 = h2.wrapping_add(h2 << 15);
    (h1, h2)
}

#[test]
fn sketch_geometry_is_the_reference_constants() {
    assert_eq!(CMS_WIDTH, 27_183);
    assert_eq!(CMS_DEPTH, 7);
    assert_eq!(CMS_MAX_LABELS, 10_000);
    assert_eq!((std::f64::consts::E / 0.0001).ceil() as u32, CMS_WIDTH);
    assert_eq!((0.01f64.ln() / 0.5f64.ln()).ceil() as u32, CMS_DEPTH);
    assert_eq!(CountMinSketch::new().counters.len() * 8, 1_522_248);
}

#[test]
fn stable_label_bytes_matches_the_reference_encoding() {
    assert_eq!(
        stable_label_bytes(&[("lvl", "ctrl")]),
        vec![0xFE, b'l', b'v', b'l', 0xFF, b'c', b't', b'r', b'l'],
    );
    assert_eq!(
        stable_label_bytes(&[("a", "1"), ("b", "2")]),
        vec![0xFE, b'a', 0xFF, b'1', 0xFF, b'b', 0xFF, b'2'],
    );
    for labels in [vec![("lvl", "ctrl")], vec![("a", "1"), ("b", "2")]] {
        let key = series_key(&owned(&labels));
        assert_eq!((key.h1, key.h2), hashn(&stable_label_bytes(&labels)));
    }
}

#[test]
fn series_key_hashes_the_materialized_stable_bytes() {
    for labels in [
        vec![("lvl", "ctrl")],
        vec![("a", "1"), ("b", "2")],
        vec![("app", "x"), ("lvl", "err"), ("region", "eu")],
    ] {
        let bytes = stable_label_bytes(&labels);
        let key = series_key(&owned(&labels));
        assert_eq!((key.h1, key.h2), hashn(&bytes));
        assert_eq!(key.id, xxhash_rust::xxh64::xxh64(&bytes, 0));
    }
}

#[test]
fn keys_of_long_labels_do_not_depend_on_how_they_are_fed() {
    let long = "x".repeat(1000);
    for labels in [vec![("n", long.as_str())], vec![], vec![("", ""), (long.as_str(), "")]] {
        let bytes = stable_label_bytes(&labels);
        let key = series_key(&owned(&labels));
        assert_eq!((key.h1, key.h2), hashn(&bytes));
        assert_eq!(key.id, xxhash_rust::xxh64::xxh64(&bytes, 0));
    }
}

#[test]
fn full_row_collision_reproduces_the_reference_over_estimate() {
    let mut s = CountMinSketch::new();
    add(&mut s, lvl_key("v0095169"), 3.0);
    add(&mut s, lvl_key("v0125949"), 4.0);
    add(&mut s, lvl_key("ctrl"), 5.0);
    assert_eq!(count(&s, lvl_key("v0095169")), 7.0);
    assert_eq!(count(&s, lvl_key("v0125949")), 7.0);
    assert_eq!(count(&s, lvl_key("ctrl")), 5.0);
}

#[test]
fn second_collision_pair_reproduces_the_reference_over_estimate() {
    let mut s = CountMinSketch::new();
    add(&mut s, lvl_key("v0054587"), 2.0);
    add(&mut s, lvl_key("v0156565"), 6.0);
    assert_eq!(count(&s, lvl_key("v0054587")), 8.0);
    assert_eq!(count(&s, lvl_key("v0156565")), 8.0);
}

#[test]
fn partial_collision_ladder_pins_the_min_estimator() {
    let mut s = CountMinSketch::new();
    let colliders: [(&str, f64); 6] = [
        ("c016000", 1.0),
        ("c007375", 2.0),
        ("c071035", 3.0),
        ("c045067", 4.0),
        ("c007616", 5.0),
        ("c001130", 6.0),
    ];
    add(&mut s, lvl_key("pmin"), 10.0);
    for (tok, w) in colliders {
        add(&mut s, lvl_key(tok), w);
    }
    assert_eq!(count(&s, lvl_key("pmin")), 10.0);
    for (tok, w) in colliders {
        assert_eq!(count(&s, lvl_key(tok)), w);
    }
}

#[test]
fn partial_collision_on_the_last_row_pins_min_over_a_row6_port() {
    let mut s = CountMinSketch::new();
    add(&mut s, lvl_key("qmin"), 8.0);
    add(&mut s, lvl_key("c003087"), 3.0);
    assert_eq!(count(&s, lvl_key("qmin")), 8.0);
    assert_eq!(count(&s, lvl_key("c003087")), 3.0);
}

#[test]
fn an_estimate_lies_between_the_true_count_and_the_total() {
    let mut s = CountMinSketch::new();
    let mut total = 0.0;
    let tokens: Vec<String> = (0..2_000).map(|i| format!("t{i}")).collect();
    for (i, token) in tokens.iter().enumerate() {
        let n = (i % 7) as f64;
        add(&mut s, lvl_key(token), n);
        total += n;
    }
    for (i, token) in tokens.iter().enumerate() {
        let estimate = count(&s, lvl_key(token));
        assert!((i % 7) as f64 <= estimate && estimate <= total);
    }
    assert_eq!(count(&CountMinSketch::new(), lvl_key("t0")), 0.0);
}

#[test]
fn an_estimate_never_selects_what_is_not_a_number() {
    let mut s = CountMinSketch::new();
    add(&mut s, lvl_key("x"), f64::NAN);
    assert_eq!(s.count(lvl_key("x")), ESTIMATE_START);
    assert_eq!(f64::from_bits(ESTIMATE_START), u64::MAX as f64);
}

#[test]
fn bit_patterns_compare_as_numbers_do() {
    let values = [
        f64::NEG_INFINITY,
        f64::MIN,
        -1.5,
        -f64::MIN_POSITIVE,
        -0.0,
        0.0,
        5e-324,
        1.0,
        f64::MAX,
        f64::INFINITY,
        f64::NAN,
        -f64::NAN,
    ];
    for a in values {
        for b in values {
            assert_eq!(float_lt(a.to_bits(), b.to_bits()), a < b, "{a} {b}");
        }
    }
}

#[test]
fn retention_dedups_on_the_reference_hash_and_still_adds_to_the_sketch() {
    let mut sketch = CountMinSketch::new();
    let mut retention = Retention::new();
    let key = lvl_key("dup");
    add(&mut sketch, key, 3.0);
    retention.observe(0, key, &sketch, &|_| true);
    add(&mut sketch, key, 4.0);
    retention.observe(1, key, &sketch, &|_| true);
    assert_eq!(count(&sketch, key), 7.0);
    assert_eq!(retention.len(), 1);
    let entries = retention.into_entries();
    assert_eq!(entries, vec![(0, key)], "the FIRST sighting is retained");
}

#[test]
fn retention_cap_is_the_reference_heap_size_and_drops_the_minimum() {
    let mut sketch = CountMinSketch::new();
    let mut retention = Retention::new();
    let n = CMS_MAX_LABELS + 1;
    for i in 0..n {
        let key = lvl_key(&format!("s{i:05}"));
        add(&mut sketch, key, (i + 1) as f64);
        retention.observe(i as u32, key, &sketch, &|_| false);
    }
    assert_eq!(retention.len(), CMS_MAX_LABELS);
    let retained: HashSet<u32> = retention.into_entries().iter().map(|e| e.0).collect();
    assert!(!retained.contains(&0), "the minimum-estimate entry is the one dropped");
    assert_eq!(retained.len(), CMS_MAX_LABELS);
}

#[test]
fn eviction_deletes_the_observed_id_allowing_re_retention() {
    let mut sketch = CountMinSketch::new();
    let mut retention = Retention::new();
    let small = lvl_key("tiny");
    add(&mut sketch, small, 1.0);
    retention.observe(0, small, &sketch, &|_| false);
    for i in 0..CMS_MAX_LABELS {
        let key = lvl_key(&format!("b{i:05}"));
        add(&mut sketch, key, 100.0);
        retention.observe((i + 1) as u32, key, &sketch, &|_| false);
    }
    add(&mut sketch, small, 1_000.0);
    retention.observe(9_999_999, small, &sketch, &|_| false);
    let ids: Vec<u32> = retention.into_entries().iter().map(|e| e.0).collect();
    assert!(ids.contains(&9_999_999), "a re-sighted evicted set must be re-retainable");
    assert!(!ids.contains(&0), "the original sighting stays evicted");
}

#[test]
fn duplicate_of_the_root_refreshes_the_heap_order() {
    let mut sketch = CountMinSketch::new();
    let mut retention = Retention::new();
    let a = lvl_key("root-a");
    let b = lvl_key("other-b");
    add(&mut sketch, a, 1.0);
    retention.observe(0, a, &sketch, &|_| false);
    add(&mut sketch, b, 2.0);
    retention.observe(1, b, &sketch, &|_| false);
    add(&mut sketch, a, 3.0);
    retention.observe(2, a, &sketch, &|root| root == 0);
    let entries = retention.into_entries();
    assert_eq!(entries.len(), 2, "the duplicate is not re-retained");
    assert_eq!(entries[0], (1, b), "the root is the true minimum");
}
