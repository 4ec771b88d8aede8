use mc_translator::batch::effective_chunk_size;
use mc_translator::langfmt::{parse_lang_content, render_lang_content};
use mc_translator::mapping::{EntryValue, Mapping};
use mc_translator::pipeline::{
    get_target_filename, json_target_name, lang_target_name, output_rel_path, raw_backup_rel_path,
    should_skip_existing,
};
use mc_translator::sanitize::sanitize_json_content;
use mc_translator::scan::{
    archive_mod_id, archive_sibling_path, classify_file, extract_mod_id, is_allowed_dir_name,
    is_archive_target, split_path_components, FileKind,
};
use mc_translator::translate::{
    clean_response_text, decode_batch_response, normalize_base_url, render_prompt, BatchError,
};
use mc_translator::text::string_of;

#[test]
fn sanitize_strips_comments_and_bom() {
    let input = "\u{feff}{\n// a comment\n\"k\": \"v\" # trailing\n}";
    let out = sanitize_json_content(input);
    assert_eq!(out, "{\n\n\"k\": \"v\" \n}");
}

#[test]
fn sanitize_escapes_raw_newlines_inside_strings() {
    let input = "{\"k\": \"line1\nline2\tend\r\"}";
    let out = sanitize_json_content(input);
    assert_eq!(out, "{\"k\": \"line1\\nline2\\tend\"}");
}

#[test]
fn sanitize_keeps_slashes_inside_strings() {
    let input = "{\"url\": \"https://example\"}";
    let out = sanitize_json_content(input);
    assert_eq!(out, input);
}

#[test]
fn sanitize_backslash_before_newline_becomes_escape() {
    let input = "{\"k\": \"a\\\nb\"}";
    let out = sanitize_json_content(input);
    assert_eq!(out, "{\"k\": \"a\\nb\"}");
}

#[test]
fn sanitize_keeps_slash_before_hash_comment() {
    let out = sanitize_json_content("/#x\ny");
    assert_eq!(out, "/\ny");
}

#[test]
fn sanitize_keeps_lone_slash() {
    let input = "{\"k\": 1} /";
    let out = sanitize_json_content(input);
    assert_eq!(out, "{\"k\": 1} /");
}

#[test]
fn sanitized_comment_file_parses_as_json() {
    let input = "// header\n{\"k\": \"a\nb\"}";
    let out = sanitize_json_content(&input);
    let v: serde_json::Value = serde_json::from_str(&out).expect("sanitized text must parse");
    assert_eq!(v["k"].as_str().unwrap(), "a\nb");
}

#[test]
fn target_filename_replaces_language_tag() {
    assert_eq!(get_target_filename("en_us.json", "en_us", "zh_cn"), "zh_cn.json");
    assert_eq!(get_target_filename("EN_US.lang", "EN_US", "zh_cn"), "zh_cn.lang");
}

#[test]
fn target_filename_prefixes_when_tag_absent() {
    assert_eq!(get_target_filename("custom.json", "en_us", "zh_cn"), "zh_cn_custom.json");
}

#[test]
fn target_filename_case_folds_only_for_detection() {
    // the folded name mentions the tag, so the replace path is taken, but
    // neither the exact nor the folded tag occurs literally in the name
    assert_eq!(get_target_filename("Data_EN_us.json", "en_US", "zh_cn"), "Data_EN_us.json");
}

#[test]
fn json_and_lang_target_names() {
    assert_eq!(json_target_name("en_us.json"), "zh_cn.json");
    assert_eq!(json_target_name("custom.json"), "zh_cn_custom.json");
    assert_eq!(lang_target_name("en_US.lang"), "zh_CN.lang");
    assert_eq!(lang_target_name("en_us.lang"), "zh_cn.lang");
    assert_eq!(lang_target_name("other.lang"), "zh_CN_other.lang");
}

#[test]
fn output_paths() {
    assert_eq!(output_rel_path("mymod", "zh_cn.json"), "assets/mymod/lang/zh_cn.json");
    assert_eq!(raw_backup_rel_path("mymod", "en_us.json"), "raw_content/mymod_en_us.json");
}

#[test]
fn skip_decision() {
    assert!(should_skip_existing(false, true, true));
    assert!(!should_skip_existing(true, true, true));
    assert!(!should_skip_existing(false, false, true));
    assert!(!should_skip_existing(false, true, false));
}

#[test]
fn clean_fences_variants() {
    let fenced = "```json\n[\"a\"]\n```";
    assert_eq!(string_of(&clean_response_text(fenced)), "[\"a\"]");
    let bare = "  [\"a\", \"b\"]  ";
    assert_eq!(string_of(&clean_response_text(bare)), "[\"a\", \"b\"]");
    let plain_fence = "```\n[\"a\"]\n```";
    assert_eq!(string_of(&clean_response_text(plain_fence)), "[\"a\"]");
}

#[test]
fn decode_batch_response_ok() {
    let body = "```json\n[\"uno\", \"dos\"]\n```";
    let out = decode_batch_response(body, 2).expect("must parse");
    assert_eq!(out, vec!["uno".to_string(), "dos".to_string()]);
}

#[test]
fn decode_batch_response_unparseable() {
    let r = decode_batch_response("not json at all", 2);
    assert!(matches!(r, Err(BatchError::Unparseable)));
    // a JSON object is not a list of strings either
    let r2 = decode_batch_response("{\"a\": 1}", 1);
    assert!(matches!(r2, Err(BatchError::Unparseable)));
}

#[test]
fn decode_batch_response_length_mismatch() {
    let r = decode_batch_response("[\"only one\"]", 2);
    assert!(matches!(r, Err(BatchError::LengthMismatch)));
}

#[test]
fn prompt_placeholder_replacement() {
    let p = render_prompt("translating for {MOD_ID} — keep {MOD_ID} codes", "botania");
    assert_eq!(p, "translating for botania — keep botania codes");
}

#[test]
fn base_url_normalisation() {
    assert_eq!(normalize_base_url("https://api.example.com/v1///"), "https://api.example.com/v1");
    assert_eq!(normalize_base_url("https://api.example.com/v1"), "https://api.example.com/v1");
}

fn lang_text(m: &Mapping, key: &str) -> Option<String> {
    match m.get(key) {
        Some(EntryValue::Text(s)) => Some(s.clone()),
        _ => None,
    }
}

#[test]
fn lang_parsing_skips_comments_and_trims() {
    let content = "# header\n key.a = Hello World \n\nkey.b=Two=Signs\nbroken line\n";
    let m = parse_lang_content(content);
    assert_eq!(m.len(), 2);
    assert_eq!(lang_text(&m, "key.a"), Some("Hello World".to_string()));
    assert_eq!(lang_text(&m, "key.b"), Some("Two=Signs".to_string()));
}

#[test]
fn lang_later_duplicate_wins() {
    let m = parse_lang_content("k=first\nk=second");
    assert_eq!(lang_text(&m, "k"), Some("second".to_string()));
    assert_eq!(m.len(), 1);
}

#[test]
fn lang_render_escapes_newlines() {
    let mut m = Mapping::new();
    m.insert("k".to_string(), EntryValue::Text("a\nb\rc".to_string()));
    m.insert("raw".to_string(), EntryValue::Opaque("7".to_string()));
    let out = render_lang_content(&m);
    assert_eq!(out, "k=a\\nbc\n");
}

#[test]
fn lang_round_trip() {
    let mut m = Mapping::new();
    m.insert("a.key".to_string(), EntryValue::Text("Value One".to_string()));
    m.insert("b.key".to_string(), EntryValue::Text("Value Two".to_string()));
    let rendered = render_lang_content(&m);
    let back = parse_lang_content(&rendered);
    assert_eq!(back.len(), 2);
    assert_eq!(lang_text(&back, "a.key"), Some("Value One".to_string()));
    assert_eq!(lang_text(&back, "b.key"), Some("Value Two".to_string()));
}

fn parts(p: &[&str]) -> Vec<String> {
    p.iter().map(|s| s.to_string()).collect()
}

#[test]
fn mod_id_from_path_components() {
    assert_eq!(extract_mod_id(&parts(&["assets", "botania", "lang", "en_us.json"])), "botania");
    assert_eq!(
        extract_mod_id(&parts(&["resources", "dsurround", "data", "chat", "en_us.lang"])),
        "dsurround"
    );
    assert_eq!(extract_mod_id(&parts(&["en_us.json"])), "unknown_mod");
    assert_eq!(extract_mod_id(&parts(&["lang", "en_us.json"])), "unknown_mod");
}

#[test]
fn mod_id_from_archive_entry() {
    assert_eq!(archive_mod_id("assets/botania/lang/en_us.json"), "botania");
    assert_eq!(archive_mod_id("data/whatever/en_us.json"), "unknown");
    assert_eq!(archive_mod_id("assets"), "unknown");
}

#[test]
fn path_components_split() {
    assert_eq!(
        split_path_components("assets/m/lang/x.json"),
        parts(&["assets", "m", "lang", "x.json"])
    );
    assert_eq!(split_path_components("plain"), parts(&["plain"]));
}

#[test]
fn sibling_paths_in_archives() {
    assert_eq!(
        archive_sibling_path("assets/m/lang/en_us.json", "zh_cn.json"),
        "assets/m/lang/zh_cn.json"
    );
    assert_eq!(archive_sibling_path("en_us.json", "zh_cn.json"), "zh_cn.json");
    assert_eq!(archive_sibling_path("dir/", "zh_cn.json"), "dir/zh_cn.json");
}

#[test]
fn allowed_directories() {
    assert!(is_allowed_dir_name("Assets"));
    assert!(is_allowed_dir_name("MODS"));
    assert!(is_allowed_dir_name("kubejs"));
    assert!(!is_allowed_dir_name("textures"));
}

#[test]
fn file_classification() {
    assert!(classify_file("jar") == FileKind::Jar);
    assert!(classify_file("json") == FileKind::Json);
    assert!(classify_file("lang") == FileKind::Lang);
    assert!(classify_file("snbt") == FileKind::Quest);
    assert!(classify_file("png") == FileKind::Unsupported);
}

#[test]
fn archive_targets() {
    assert!(is_archive_target("assets/m/lang/en_us.json", "en_us"));
    assert!(is_archive_target("assets/m/lang/en_us.lang", "en_us"));
    assert!(!is_archive_target("assets/m/lang/zh_cn.json", "en_us"));
    assert!(!is_archive_target("data/m/en_us.json", "en_us"));
    assert!(!is_archive_target("assets/m/textures/en_us.png", "en_us"));
}

#[test]
fn chunk_default_matches_fallback() {
    assert_eq!(effective_chunk_size(0), 20);
}
