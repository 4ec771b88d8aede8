use mc_translator::batch::{effective_chunk_size, partition_units, SchedulerRun, Unit};
use mc_translator::mapping::{EntryValue, Mapping};

fn mk_map(entries: &[(&str, &str)]) -> Mapping {
    let mut m = Mapping::new();
    for (k, v) in entries {
        m.insert(k.to_string(), EntryValue::Text(v.to_string()));
    }
    m
}

fn text_of(m: &Mapping, key: &str) -> Option<String> {
    match m.get(key) {
        Some(EntryValue::Text(s)) => Some(s.clone()),
        Some(EntryValue::Opaque(s)) => Some(format!("opaque:{}", s)),
        None => None,
    }
}

#[test]
fn effective_chunk_size_clamps_zero() {
    assert_eq!(effective_chunk_size(0), 20);
    assert_eq!(effective_chunk_size(1), 1);
    assert_eq!(effective_chunk_size(200), 200);
}

fn mk_units(n: usize) -> Vec<Unit> {
    let mut units = Vec::new();
    for i in 0..n {
        units.push(Unit { key: format!("k{}", i), text: format!("t{}", i) });
    }
    units
}

#[test]
fn partition_counts_are_ceiling() {
    let cases: &[(usize, usize, usize)] = &[
        (5, 2, 3),
        (4, 2, 2),
        (0, 2, 0),
        (3, 20, 1),
        (1, 1, 1),
        (40, 20, 2),
        (41, 20, 3),
    ];
    for (n, chunk, expected) in cases {
        let batches = partition_units(&mk_units(*n), *chunk);
        assert_eq!(batches.len(), *expected, "n={} chunk={}", n, chunk);
    }
}

#[test]
fn partition_keeps_membership_and_order() {
    let batches = partition_units(&mk_units(5), 2);
    let mut seen = Vec::new();
    for b in &batches {
        assert_eq!(b.keys.len(), b.texts.len());
        assert!(b.keys.len() <= 2 && b.keys.len() >= 1);
        for (k, t) in b.keys.iter().zip(b.texts.iter()) {
            seen.push((k.clone(), t.clone()));
        }
    }
    let expected: Vec<(String, String)> =
        (0..5).map(|i| (format!("k{}", i), format!("t{}", i))).collect();
    assert_eq!(seen, expected);
}

#[test]
fn blank_and_opaque_entries_are_not_pending() {
    let mut m = mk_map(&[("a", "Hello"), ("b", "  "), ("c", "")]);
    m.insert("d".to_string(), EntryValue::Opaque("42".to_string()));
    let run = SchedulerRun::start(&m, 10);
    assert_eq!(run.batch_count(), 1);
    assert_eq!(run.batch_keys(0), &vec!["a".to_string()]);
    assert_eq!(run.batch_texts(0), &vec!["Hello".to_string()]);
}

// Scenario: mapping {"a.b":"Hello","c.d":"  ","e.f":"World"}, chunk size 2,
// an uppercasing stub transform. The blank entry is excluded and survives
// untouched.
#[test]
fn uppercase_stub_scenario() {
    let m = mk_map(&[("a.b", "Hello"), ("c.d", "  "), ("e.f", "World")]);
    let mut run = SchedulerRun::start(&m, 2);
    assert_eq!(run.batch_count(), 1);
    while let Some(i) = run.next_dispatch(false) {
        let reply: Vec<String> = run.batch_texts(i).iter().map(|t| t.to_uppercase()).collect();
        run.record_result(i, Some(&reply));
    }
    let out = run.finish();
    assert_eq!(text_of(&out, "a.b"), Some("HELLO".to_string()));
    assert_eq!(text_of(&out, "e.f"), Some("WORLD".to_string()));
    assert_eq!(text_of(&out, "c.d"), Some("  ".to_string()));
    assert_eq!(out.len(), 3);
}

// An identity transform returns the input mapping unchanged.
#[test]
fn identity_transform_round_trip() {
    let m = mk_map(&[("x", "one"), ("y", "two"), ("z", "three")]);
    let mut run = SchedulerRun::start(&m, 2);
    while let Some(i) = run.next_dispatch(false) {
        let reply: Vec<String> = run.batch_texts(i).clone();
        run.record_result(i, Some(&reply));
    }
    let out = run.finish();
    assert_eq!(out.len(), 3);
    for (k, v) in [("x", "one"), ("y", "two"), ("z", "three")] {
        assert_eq!(text_of(&out, k), Some(v.to_string()));
    }
}

// A response of the wrong length drops every key of its batch from the
// output, never shipping a garbled batch as translated.
#[test]
fn length_mismatch_drops_batch_keys() {
    let m = mk_map(&[("a", "one"), ("b", "two"), ("c", "three")]);
    let mut run = SchedulerRun::start(&m, 3);
    let i = run.next_dispatch(false).unwrap();
    let short = vec!["uno".to_string(), "dos".to_string()];
    run.record_result(i, Some(&short));
    let out = run.finish();
    assert!(text_of(&out, "a").is_none());
    assert!(text_of(&out, "b").is_none());
    assert!(text_of(&out, "c").is_none());
    assert_eq!(out.len(), 0);
}

// A failed call drops its batch's keys, without touching other batches.
#[test]
fn failed_batch_leaves_siblings_alone() {
    let m = mk_map(&[("a", "one"), ("b", "two")]);
    let mut run = SchedulerRun::start(&m, 1);
    assert_eq!(run.batch_count(), 2);
    let first = run.next_dispatch(false).unwrap();
    let second = run.next_dispatch(false).unwrap();
    run.record_result(first, None);
    let reply = vec!["DOS".to_string()];
    run.record_result(second, Some(&reply));
    let out = run.finish();
    assert!(text_of(&out, "a").is_none());
    assert_eq!(text_of(&out, "b"), Some("DOS".to_string()));
}

// Scenario: cancellation after the first of three batches completes. No
// further batch is dispatched; only the completed batch's keys are
// translated, the rest keep their source text in the scheduler's output.
#[test]
fn cancellation_stops_dispatch_keeps_completed() {
    let m = mk_map(&[
        ("k0", "a"),
        ("k1", "b"),
        ("k2", "c"),
        ("k3", "d"),
        ("k4", "e"),
        ("k5", "f"),
    ]);
    let mut run = SchedulerRun::start(&m, 2);
    assert_eq!(run.batch_count(), 3);
    let first = run.next_dispatch(false).unwrap();
    assert_eq!(first, 0);
    let reply: Vec<String> = run.batch_texts(first).iter().map(|t| t.to_uppercase()).collect();
    run.record_result(first, Some(&reply));
    // cancellation is now signalled: no further dispatch happens
    assert!(run.next_dispatch(true).is_none());
    assert!(run.next_dispatch(true).is_none());
    let out = run.finish();
    assert_eq!(text_of(&out, "k0"), Some("A".to_string()));
    assert_eq!(text_of(&out, "k1"), Some("B".to_string()));
    for (k, v) in [("k2", "c"), ("k3", "d"), ("k4", "e"), ("k5", "f")] {
        assert_eq!(text_of(&out, k), Some(v.to_string()), "key {} must keep its source", k);
    }
}

#[test]
fn batches_complete_in_any_order() {
    let m = mk_map(&[("a", "one"), ("b", "two")]);
    let mut run = SchedulerRun::start(&m, 1);
    let b0 = run.next_dispatch(false).unwrap();
    let b1 = run.next_dispatch(false).unwrap();
    let r1: Vec<String> = run.batch_texts(b1).iter().map(|t| t.to_uppercase()).collect();
    run.record_result(b1, Some(&r1));
    let r0: Vec<String> = run.batch_texts(b0).iter().map(|t| t.to_uppercase()).collect();
    run.record_result(b0, Some(&r0));
    let out = run.finish();
    assert_eq!(text_of(&out, "a"), Some("ONE".to_string()));
    assert_eq!(text_of(&out, "b"), Some("TWO".to_string()));
}
