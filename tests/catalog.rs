use ism_catalog::ism::{
    entry_from_json, get_ism_detail_from_map, get_ism_list_from_map, parse_ism_map_from_str,
    IsmEntry, IsmMap,
};
use ism_catalog::json::Json;
use ism_catalog::order::natural_cmp;
use ism_catalog::store::IsmState;
use ism_catalog::strmap::StrMap;
use std::cmp::Ordering;

const ONE_ENTRY: &str = r#"{
  "introduction": {"ch_name": "引言", "en_name": "Intro", "axis_list": [], "feature_list": [], "related_list": []},
  "1": {"ch_name": "自由主义", "en_name": "Liberalism", "axis_list": ["a"], "feature_list": ["f1", "f2"], "related_list": ["2"]},
  "2": {"en_name": "No primary name", "axis_list": [], "feature_list": [], "related_list": []}
}"#;

fn entry(ch: &str, en: &str) -> IsmEntry {
    IsmEntry {
        ch_name: ch.to_string(),
        en_name: en.to_string(),
        axis_list: vec![],
        feature_list: vec![],
        related_list: vec![],
    }
}

fn ids(map: &IsmMap) -> Vec<String> {
    get_ism_list_from_map(map).into_iter().map(|i| i.id).collect()
}

#[test]
fn parse_empty_obj() {
    let r = parse_ism_map_from_str("{}");
    assert!(r.is_ok());
    assert!(r.unwrap().len() == 0);
}

#[test]
fn parse_invalid_returns_err() {
    assert!(parse_ism_map_from_str("not json").is_err());
}

#[test]
fn syntax_error_carries_diagnostic() {
    let e = parse_ism_map_from_str("{\"1\": ").unwrap_err();
    assert!(!e.message.is_empty());
}

#[test]
fn store_errors_carry_the_parser_diagnostic() {
    let parsed = parse_ism_map_from_str("{\"1\": ").unwrap_err().message;
    assert_eq!(IsmState::validate("{\"1\": ").unwrap_err().message, parsed);
    let mut s = IsmState::load_initial(None, EMBEDDED).unwrap();
    assert_eq!(s.apply("{\"1\": ").unwrap_err().message, parsed);
    assert_eq!(IsmState::load_initial(None, "{\"1\": ").unwrap_err().message, parsed);
}

#[test]
fn non_object_document_is_syntax_error() {
    assert!(parse_ism_map_from_str("[1, 2]").is_err());
    assert!(parse_ism_map_from_str("null").is_err());
    assert!(parse_ism_map_from_str("").is_err());
}

#[test]
fn parse_keeps_only_well_formed_entries() {
    let m = parse_ism_map_from_str(ONE_ENTRY).unwrap();
    assert_eq!(m.len(), 1);
    let e = get_ism_detail_from_map(&m, "1").unwrap();
    assert_eq!(e.ch_name, "自由主义");
    assert_eq!(e.en_name, "Liberalism");
    assert_eq!(e.axis_list, vec!["a".to_string()]);
    assert_eq!(e.feature_list, vec!["f1".to_string(), "f2".to_string()]);
    assert_eq!(e.related_list, vec!["2".to_string()]);
    assert!(get_ism_detail_from_map(&m, "2").is_none());
    assert!(get_ism_detail_from_map(&m, "introduction").is_none());
}

#[test]
fn parse_drops_entries_with_wrong_types() {
    let doc = r#"{
      "1": {"ch_name": 5, "en_name": "x", "axis_list": [], "feature_list": [], "related_list": []},
      "2": {"ch_name": "b", "en_name": "x", "axis_list": [1], "feature_list": [], "related_list": []},
      "3": {"ch_name": "c", "en_name": "x", "axis_list": [], "feature_list": []},
      "4": "just text",
      "5": {"ch_name": "e", "en_name": "x", "axis_list": [], "feature_list": [], "related_list": [], "extra": 1}
    }"#;
    let m = parse_ism_map_from_str(doc).unwrap();
    assert_eq!(ids(&m), vec!["5".to_string()]);
}

#[test]
fn entry_from_json_reads_object() {
    let v = Json::Object(vec![
        ("ch_name".to_string(), Json::Str("c".to_string())),
        ("en_name".to_string(), Json::Str("e".to_string())),
        ("axis_list".to_string(), Json::Array(vec![Json::Str("x".to_string())])),
        ("feature_list".to_string(), Json::Array(vec![])),
        ("related_list".to_string(), Json::Array(vec![])),
    ]);
    let e = entry_from_json(&v).unwrap();
    assert_eq!(e.axis_list, vec!["x".to_string()]);
    assert!(entry_from_json(&Json::Null).is_none());
}

#[test]
fn natural_numeric_segments() {
    assert_eq!(natural_cmp("1-9", "1-10"), Ordering::Less);
    assert_eq!(natural_cmp("1-10", "1-9"), Ordering::Greater);
    assert_eq!(natural_cmp("10", "9"), Ordering::Greater);
    assert_eq!(natural_cmp("3-2", "3-2"), Ordering::Equal);
    assert_eq!(natural_cmp("01", "1"), Ordering::Equal);
}

#[test]
fn natural_numeric_segments_of_any_width() {
    assert_eq!(natural_cmp("1-9999999999", "1-10000000000"), Ordering::Less);
    assert_eq!(natural_cmp("4294967296", "4294967295"), Ordering::Greater);
    assert_eq!(natural_cmp("00012", "9"), Ordering::Greater);
    assert_eq!(natural_cmp("123456789012345678901234567890", "123456789012345678901234567891"), Ordering::Less);
    assert_eq!(natural_cmp("000", "0"), Ordering::Equal);
}

#[test]
fn natural_signed_segment_is_text() {
    assert_eq!(natural_cmp("+5", "4"), Ordering::Less);
}

#[test]
fn natural_parent_before_child() {
    assert_eq!(natural_cmp("2", "2-1"), Ordering::Less);
    assert_eq!(natural_cmp("2-1", "2-1-1"), Ordering::Less);
    assert_eq!(natural_cmp("2-1-1", "2"), Ordering::Greater);
}

#[test]
fn natural_text_fallback() {
    assert_eq!(natural_cmp("a", "b"), Ordering::Less);
    assert_eq!(natural_cmp("1-b", "1-a-9"), Ordering::Greater);
    assert_eq!(natural_cmp("x-1", "x-2"), Ordering::Equal);
    assert_eq!(natural_cmp("", "1"), Ordering::Less);
    assert_eq!(natural_cmp("10", "9a"), Ordering::Less);
}

#[test]
fn list_is_in_natural_order() {
    let mut m: IsmMap = StrMap::new();
    for id in ["1-10", "2", "1-9", "1", "1-9-1"] {
        m.insert(id.to_string(), entry("c", "e"));
    }
    assert_eq!(ids(&m), vec!["1", "1-9", "1-9-1", "1-10", "2"]);
    let items = get_ism_list_from_map(&m);
    assert_eq!(items[0].ch_name, "c");
    assert_eq!(items[0].en_name, "e");
}

#[test]
fn list_of_empty_catalog() {
    let m: IsmMap = StrMap::new();
    assert!(get_ism_list_from_map(&m).is_empty());
}

#[test]
fn detail_found_and_missing() {
    let mut m: IsmMap = StrMap::new();
    m.insert("1".to_string(), entry("a", "A"));
    m.insert("1".to_string(), entry("b", "B"));
    assert_eq!(m.len(), 1);
    assert_eq!(get_ism_detail_from_map(&m, "1"), Some(entry("b", "B")));
    assert_eq!(get_ism_detail_from_map(&m, "9"), None);
}

const EMBEDDED: &str = r#"{"1": {"ch_name": "e1", "en_name": "E1", "axis_list": [], "feature_list": [], "related_list": []}}"#;
const OVERRIDE: &str = r#"{"7": {"ch_name": "o7", "en_name": "O7", "axis_list": [], "feature_list": [], "related_list": []},
 "7-1": {"ch_name": "o71", "en_name": "O71", "axis_list": [], "feature_list": [], "related_list": []}}"#;

fn state_ids(s: &IsmState) -> Vec<String> {
    s.list().into_iter().map(|i| i.id).collect()
}

#[test]
fn load_initial_prefers_override() {
    let s = IsmState::load_initial(Some(OVERRIDE), EMBEDDED).unwrap();
    assert_eq!(state_ids(&s), vec!["7", "7-1"]);
}

#[test]
fn load_initial_falls_back_to_embedded() {
    let s = IsmState::load_initial(Some("broken {"), EMBEDDED).unwrap();
    assert_eq!(state_ids(&s), vec!["1"]);
    let s = IsmState::load_initial(None, EMBEDDED).unwrap();
    assert_eq!(state_ids(&s), vec!["1"]);
    assert!(IsmState::load_initial(None, "broken").is_err());
}

#[test]
fn validate_counts_and_never_touches_store() {
    let s = IsmState::load_initial(None, EMBEDDED).unwrap();
    assert_eq!(IsmState::validate(OVERRIDE).unwrap().entry_count, 2);
    assert!(IsmState::validate("not json").is_err());
    assert_eq!(state_ids(&s), vec!["1"]);
    assert_eq!(s.detail("1").unwrap().ch_name, "e1");
}

#[test]
fn apply_replaces_and_reload_agrees() {
    let mut s = IsmState::load_initial(None, EMBEDDED).unwrap();
    assert!(s.apply(OVERRIDE).is_ok());
    assert_eq!(state_ids(&s), vec!["7", "7-1"]);
    assert!(s.detail("1").is_none());
    let reloaded = IsmState::load_initial(Some(OVERRIDE), EMBEDDED).unwrap();
    assert_eq!(state_ids(&reloaded), state_ids(&s));
    assert_eq!(reloaded.detail("7-1"), s.detail("7-1"));
}

#[test]
fn failed_apply_keeps_catalog() {
    let mut s = IsmState::load_initial(None, EMBEDDED).unwrap();
    assert!(s.apply("{ nope").is_err());
    assert_eq!(state_ids(&s), vec!["1"]);
    assert_eq!(s.len(), 1);
}
