use ism_catalog::progress::{get_progress, set_progress, ProgressMap};

fn level_of(m: &ProgressMap, id: &str) -> Option<u8> {
    m.get(&id.to_string()).map(|e| e.level)
}

#[test]
fn level_range() {
    let mut m = get_progress(None);
    assert!(set_progress(&mut m, "1".to_string(), 5, "t".to_string()).is_err());
    assert!(set_progress(&mut m, "1".to_string(), 255, "t".to_string()).is_err());
    assert_eq!(m.len(), 0);
    assert!(set_progress(&mut m, "1".to_string(), 0, "t".to_string()).is_ok());
    assert!(set_progress(&mut m, "2".to_string(), 4, "t".to_string()).is_ok());
    assert_eq!(level_of(&m, "1"), Some(0));
    assert_eq!(level_of(&m, "2"), Some(4));
}

#[test]
fn set_then_read_and_reload() {
    let mut m = get_progress(None);
    set_progress(&mut m, "1-1".to_string(), 3, "1700000000".to_string()).unwrap();
    assert_eq!(m.len(), 1);
    let e = m.get(&"1-1".to_string()).unwrap();
    assert_eq!(e.level, 3);
    assert_eq!(e.updated_at, "1700000000");
    let text = r#"{"1-1": {"level": 3, "updated_at": "1700000000"}}"#;
    let reloaded = get_progress(Some(text));
    assert_eq!(reloaded.get(&"1-1".to_string()), Some(e));
}

#[test]
fn last_write_wins() {
    let mut m = get_progress(None);
    set_progress(&mut m, "1".to_string(), 1, "a".to_string()).unwrap();
    set_progress(&mut m, "1".to_string(), 2, "b".to_string()).unwrap();
    assert_eq!(m.len(), 1);
    assert_eq!(m.get(&"1".to_string()).unwrap().updated_at, "b");
}

#[test]
fn missing_or_malformed_progress_reads_empty() {
    assert_eq!(get_progress(None).len(), 0);
    assert_eq!(get_progress(Some("not json")).len(), 0);
    assert_eq!(get_progress(Some("[]")).len(), 0);
    let bad_member = r#"{"1": {"level": 2, "updated_at": "x"}, "2": {"level": 300, "updated_at": "y"}}"#;
    assert_eq!(get_progress(Some(bad_member)).len(), 0);
    let level_above_range = r#"{"1": {"level": 5, "updated_at": "x"}}"#;
    assert_eq!(get_progress(Some(level_above_range)).len(), 0);
    let float_level = r#"{"1": {"level": 2.5, "updated_at": "x"}}"#;
    assert_eq!(get_progress(Some(float_level)).len(), 0);
}

#[test]
fn reads_every_record() {
    let text = r#"{"1": {"level": 2, "updated_at": "x"}, "2-3": {"level": 4, "updated_at": "y", "note": true}}"#;
    let m = get_progress(Some(text));
    assert_eq!(m.len(), 2);
    assert_eq!(level_of(&m, "1"), Some(2));
    assert_eq!(level_of(&m, "2-3"), Some(4));
    assert_eq!(level_of(&m, "9"), None);
}
