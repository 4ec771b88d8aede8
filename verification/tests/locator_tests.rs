use mc_translator::locator::{
    apply_translations, extract_document, is_dotted_key_chars, json_escape_chars, merge_spans,
    splice_document, ExtractOutcome, SpanRec,
};
use mc_translator::mapping::{EntryValue, Mapping};
use mc_translator::text::{chars_of, string_of};

fn doc(s: &str) -> Vec<char> {
    chars_of(s)
}

fn span(start: usize, end: usize, key: &str) -> SpanRec {
    SpanRec { start, end, key: key.to_string() }
}

// Scenario: three spans at increasing offsets; spans 1 and 3 get
// replacements of different lengths (shorter and longer), span 2 none. The
// replaced spans change exactly, span 2 and all surrounding text stay
// byte-identical.
#[test]
fn splice_three_spans() {
    //          0123456789012345678901234567
    let d = doc("aa[ONE]bb[TWO]cc[THREE]dd");
    let spans = vec![span(3, 6, "0"), span(10, 13, "1"), span(17, 22, "2")];
    let reps = vec![Some(chars_of("X")), None, Some(chars_of("LONGERTEXT"))];
    let out = string_of(&splice_document(&d, &spans, &reps));
    assert_eq!(out, "aa[X]bb[TWO]cc[LONGERTEXT]dd");
}

#[test]
fn splice_with_no_spans_is_identity() {
    let d = doc("unchanged text");
    let out = string_of(&splice_document(&d, &vec![], &vec![]));
    assert_eq!(out, "unchanged text");
}

#[test]
fn json_escaping_matches_the_document_quoting_rules() {
    let cases = ["plain", "a\"b", "back\\slash", "line\nbreak", "tab\there", "ctl\u{1f}x"];
    for case in cases {
        let escaped = string_of(&json_escape_chars(&chars_of(case)));
        let serde_form = serde_json::to_string(case).unwrap();
        let inner = &serde_form[1..serde_form.len() - 1];
        assert_eq!(escaped, inner, "case {:?}", case);
    }
}

#[test]
fn dotted_keys_recognised() {
    assert!(is_dotted_key_chars(&chars_of("a.b")));
    assert!(is_dotted_key_chars(&chars_of("item.mod_1.name")));
    assert!(!is_dotted_key_chars(&chars_of("plain")));
    assert!(!is_dotted_key_chars(&chars_of(".a")));
    assert!(!is_dotted_key_chars(&chars_of("a.")));
    assert!(!is_dotted_key_chars(&chars_of("a..b")));
    assert!(!is_dotted_key_chars(&chars_of("a b.c")));
    assert!(!is_dotted_key_chars(&chars_of("")));
}

fn extract(s: &str) -> (Vec<SpanRec>, Vec<SpanRec>, Mapping) {
    match extract_document(&doc(s)) {
        ExtractOutcome::Extracted(x) => (x.field_spans, x.block_spans, x.texts),
        ExtractOutcome::Indirect => panic!("unexpected indirection"),
    }
}

fn text_at(m: &Mapping, key: &str) -> String {
    match m.get(key) {
        Some(EntryValue::Text(s)) => s.clone(),
        _ => panic!("missing key {}", key),
    }
}

#[test]
fn extraction_finds_fields_and_blocks() {
    let content = "{\n  title: \"Quest One\"\n  subtitle: \"Step lightly\"\n  description: [\n    \"First line\"\n    \"Second line\"\n  ]\n}";
    let (fields, blocks, texts) = extract(content);
    assert_eq!(fields.len(), 2);
    assert_eq!(blocks.len(), 2);
    assert_eq!(texts.len(), 4);
    assert_eq!(text_at(&texts, "0"), "Quest One");
    assert_eq!(text_at(&texts, "1"), "Step lightly");
    assert_eq!(text_at(&texts, "2"), "First line");
    assert_eq!(text_at(&texts, "3"), "Second line");
}

#[test]
fn extraction_allows_any_white_space_around_colon() {
    // a no-break space between the keyword and the colon still matches
    let content = "title:\u{a0}\"Spaced Out\"";
    let (fields, _, texts) = extract(content);
    assert_eq!(fields.len(), 1);
    assert_eq!(text_at(&texts, "0"), "Spaced Out");
}

#[test]
fn extraction_skips_blank_and_symbol_only_spans() {
    let content = "title: \"  \"\nsubtitle: \"--->\"\ndesc: [\"Real text\"]";
    let (fields, blocks, texts) = extract(content);
    assert_eq!(fields.len(), 0);
    assert_eq!(blocks.len(), 1);
    assert_eq!(texts.len(), 1);
    assert_eq!(text_at(&texts, "0"), "Real text");
}

#[test]
fn extraction_handles_escaped_quotes() {
    let content = "title: \"He said \\\"hi\\\" twice\"";
    let (fields, _, texts) = extract(content);
    assert_eq!(fields.len(), 1);
    assert_eq!(text_at(&texts, "0"), "He said \\\"hi\\\" twice");
}

#[test]
fn indirection_guard_skips_keyed_documents() {
    let content = "title: \"quest.chapter.one\"\ndesc: [\"more.keys.here\"]";
    match extract_document(&doc(content)) {
        ExtractOutcome::Indirect => {},
        ExtractOutcome::Extracted(_) => panic!("dotted first value must skip the document"),
    }
}

#[test]
fn guard_applies_until_first_accepted_span() {
    // the first candidate is blank (skipped without counting), the second is
    // dotted, so the guard still fires
    let content = "title: \" \"\nsubtitle: \"a.b.c\"";
    match extract_document(&doc(content)) {
        ExtractOutcome::Indirect => {},
        ExtractOutcome::Extracted(_) => panic!("guard must still fire"),
    }
}

#[test]
fn guard_does_not_fire_after_acceptance() {
    let content = "title: \"Real Title\"\nsubtitle: \"a.b.c\"";
    let (fields, _, texts) = extract(content);
    // the dotted value is no longer first, so it is just another span
    assert_eq!(fields.len(), 2);
    assert_eq!(text_at(&texts, "0"), "Real Title");
    assert_eq!(text_at(&texts, "1"), "a.b.c");
}

#[test]
fn end_to_end_splice_round_trip() {
    let content = "{\n  title: \"Hello\"\n  description: [\n    \"World\"\n    \"Keep me\"\n  ]\n}";
    let d = doc(content);
    let (fields, blocks, texts) = extract(content);
    // a stub transform uppercases two of the three spans; the third gets an
    // empty translation, which must leave the original text in place
    let mut translated = Mapping::new();
    translated.insert("0".to_string(), EntryValue::Text(text_at(&texts, "0").to_uppercase()));
    translated.insert("1".to_string(), EntryValue::Text(text_at(&texts, "1").to_uppercase()));
    translated.insert("2".to_string(), EntryValue::Text(String::new()));
    let merged = merge_spans(&fields, &blocks, d.len());
    let out = string_of(&apply_translations(&d, &merged, &translated));
    assert_eq!(out, "{\n  title: \"HELLO\"\n  description: [\n    \"WORLD\"\n    \"Keep me\"\n  ]\n}");
}

#[test]
fn absent_translation_keeps_original() {
    let content = "title: \"Alpha\"\nsubtitle: \"Beta\"";
    let d = doc(content);
    let (fields, blocks, _) = extract(content);
    let mut translated = Mapping::new();
    translated.insert("1".to_string(), EntryValue::Text("Zweite".to_string()));
    let merged = merge_spans(&fields, &blocks, d.len());
    let out = string_of(&apply_translations(&d, &merged, &translated));
    assert_eq!(out, "title: \"Alpha\"\nsubtitle: \"Zweite\"");
}

#[test]
fn spliced_translation_is_reescaped() {
    let content = "title: \"Plain\"";
    let d = doc(content);
    let (fields, blocks, _) = extract(content);
    let mut translated = Mapping::new();
    translated.insert("0".to_string(), EntryValue::Text("with \"quotes\"\nand break".to_string()));
    let merged = merge_spans(&fields, &blocks, d.len());
    let out = string_of(&apply_translations(&d, &merged, &translated));
    assert_eq!(out, "title: \"with \\\"quotes\\\"\\nand break\"");
}

#[test]
fn merge_interleaves_by_position() {
    let a = vec![span(0, 2, "0"), span(10, 12, "1")];
    let b = vec![span(4, 6, "2")];
    let merged = merge_spans(&a, &b, 20);
    let starts: Vec<usize> = merged.iter().map(|s| s.start).collect();
    assert_eq!(starts, vec![0, 4, 10]);
}

#[test]
fn merge_drops_overlapping_span() {
    let a = vec![span(0, 5, "0")];
    let b = vec![span(3, 8, "1")];
    let merged = merge_spans(&a, &b, 20);
    assert_eq!(merged.len(), 1);
    assert_eq!(merged[0].start, 0);
}
