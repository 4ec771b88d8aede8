use mc_translator::config::AppConfig;
use mc_translator::logging::{LogEntry, LogLevel};
use mc_translator::mapping::{EntryValue, Mapping};
use mc_translator::mcmeta::Mcmeta;
use mc_translator::message::{send_log, AppMsg, LogSink};
use mc_translator::pipeline::{finalize_artifact, resolve_incremental};

fn mk_map(entries: &[(&str, &str)]) -> Mapping {
    let mut m = Mapping::new();
    for (k, v) in entries {
        m.insert(k.to_string(), EntryValue::Text(v.to_string()));
    }
    m
}

fn text_of(m: &Mapping, key: &str) -> Option<String> {
    match m.get(key) {
        Some(EntryValue::Text(s)) => Some(s.clone()),
        _ => None,
    }
}

#[test]
fn mapping_basic_operations() {
    let mut m = Mapping::new();
    assert!(m.is_empty());
    m.insert("a".to_string(), EntryValue::Text("1".to_string()));
    m.insert("b".to_string(), EntryValue::Text("2".to_string()));
    m.insert("a".to_string(), EntryValue::Text("updated".to_string()));
    assert_eq!(m.len(), 2);
    assert_eq!(text_of(&m, "a"), Some("updated".to_string()));
    assert!(m.contains_key("b"));
    assert_eq!(m.key_at(0), "a");
    assert_eq!(m.key_at(1), "b");
    m.remove("a");
    assert_eq!(m.len(), 1);
    assert!(!m.contains_key("a"));
    m.remove("never there");
    assert_eq!(m.len(), 1);
}

#[test]
fn mapping_clone_is_equal() {
    let m = mk_map(&[("x", "1"), ("y", "2")]);
    let c = m.clone();
    assert_eq!(c.len(), 2);
    assert_eq!(text_of(&c, "x"), Some("1".to_string()));
    assert_eq!(text_of(&c, "y"), Some("2".to_string()));
}

#[test]
fn incremental_resolution_splits_pending_and_recovered() {
    let src = mk_map(&[("a", "one"), ("b", "two"), ("c", "three"), ("d", "four")]);
    let existing = mk_map(&[("a", "眼")]);
    let builtin = mk_map(&[("b", "二"), ("z", "unused")]);
    let r = resolve_incremental(&src, &existing, &builtin);
    // a is settled, b recovered from the builtin, c and d pending
    assert_eq!(r.recovered, 1);
    assert_eq!(r.pending.len(), 2);
    assert!(r.pending.contains_key("c"));
    assert!(r.pending.contains_key("d"));
    assert_eq!(r.base.len(), 2);
    assert_eq!(text_of(&r.base, "a"), Some("眼".to_string()));
    assert_eq!(text_of(&r.base, "b"), Some("二".to_string()));
    // pending and base never share a key
    for i in 0..r.pending.len() {
        assert!(!r.base.contains_key(r.pending.key_at(i)));
    }
}

// Incremental idempotence: a second run over an unchanged source finds
// nothing pending and nothing to recover, so no remote call is made.
#[test]
fn incremental_second_run_is_noop() {
    let src = mk_map(&[("a", "one"), ("b", "two")]);
    let existing = mk_map(&[]);
    let builtin = mk_map(&[]);
    let first = resolve_incremental(&src, &existing, &builtin);
    assert_eq!(first.pending.len(), 2);
    // a stubbed transform translates everything; the merged output becomes
    // the existing artifact of the second run
    let mut translated = Mapping::new();
    for i in 0..first.pending.len() {
        let k = first.pending.key_at(i).clone();
        let v = match first.pending.value_at(i) {
            EntryValue::Text(s) => s.to_uppercase(),
            EntryValue::Opaque(s) => s.clone(),
        };
        translated.insert(k, EntryValue::Text(v));
    }
    let written = finalize_artifact(first.base, &translated, false).expect("not cancelled");
    let second = resolve_incremental(&src, &written, &builtin);
    assert_eq!(second.pending.len(), 0);
    assert_eq!(second.recovered, 0);
}

#[test]
fn cancelled_run_is_discarded() {
    let base = mk_map(&[("a", "old")]);
    let translated = mk_map(&[("b", "new")]);
    assert!(finalize_artifact(base, &translated, true).is_none());
}

#[test]
fn merge_overwrites_base_entries() {
    let base = mk_map(&[("a", "old"), ("keep", "this")]);
    let translated = mk_map(&[("a", "new"), ("b", "fresh")]);
    let out = finalize_artifact(base, &translated, false).unwrap();
    assert_eq!(text_of(&out, "a"), Some("new".to_string()));
    assert_eq!(text_of(&out, "keep"), Some("this".to_string()));
    assert_eq!(text_of(&out, "b"), Some("fresh".to_string()));
    assert_eq!(out.len(), 3);
}

#[test]
fn config_defaults() {
    let c = AppConfig::default();
    assert_eq!(c.base_url, "https://api.openai.com/v1");
    assert_eq!(c.source_lang, "en_us");
    assert_eq!(c.target_lang, "zh_cn");
    assert_eq!(c.batch_size, 200);
    assert_eq!(c.max_retries, 5);
    assert_eq!(c.retry_delay, 10);
    assert_eq!(c.max_network_concurrency, 10);
    assert!(c.skip_existing);
    assert!(c.prompt.contains("{MOD_ID}"));
    assert_eq!(AppConfig::config_path(), "./MC_Translator/config.json");
}

#[test]
fn log_sink_collects_entries() {
    let mut sink = LogSink::new();
    send_log(&mut sink, LogLevel::Info, "starting".to_string());
    send_log(&mut sink, LogLevel::Error, "failed".to_string());
    assert_eq!(sink.entries.len(), 2);
    assert!(matches!(sink.entries[0].level, LogLevel::Info));
    assert_eq!(sink.entries[0].message, "starting");
    assert!(matches!(sink.entries[1].level, LogLevel::Error));
    assert_eq!(sink.entries[1].message, "failed");
}

#[test]
fn log_entries_carry_level_and_message() {
    let e = LogEntry::new(LogLevel::Warn, "careful".to_string());
    assert!(matches!(e.level, LogLevel::Warn));
    assert_eq!(e.message, "careful");
}

#[test]
fn app_messages_carry_their_payload() {
    let entry = LogEntry::new(LogLevel::Info, "hello".to_string());
    match AppMsg::Log(entry) {
        AppMsg::Log(e) => assert_eq!(e.message, "hello"),
        AppMsg::ModelsFetched(_) => panic!("wrong variant"),
    }
    let models = vec!["m1".to_string(), "m2".to_string()];
    match AppMsg::ModelsFetched(models) {
        AppMsg::ModelsFetched(ms) => assert_eq!(ms.len(), 2),
        AppMsg::Log(_) => panic!("wrong variant"),
    }
}

#[test]
fn mcmeta_construction() {
    let m = Mcmeta::new(3, "pack".to_string());
    assert_eq!(m.pack.pack_format, 3);
    assert_eq!(m.pack.description, "pack");
}
