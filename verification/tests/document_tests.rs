use secret_store::Document;

#[test]
fn set_then_get() {
    let mut d = Document::new();
    assert!(d.set("api_key".to_string(), "abc123".to_string()));
    assert_eq!(d.get("api_key").unwrap().as_str(), "abc123");
    assert_eq!(d.len(), 1);
}

#[test]
fn set_overwrites_existing_key() {
    let mut d = Document::new();
    assert!(d.set("k".to_string(), "v1".to_string()));
    assert!(d.set("k".to_string(), "v2".to_string()));
    assert_eq!(d.len(), 1);
    assert_eq!(d.get("k").unwrap().as_str(), "v2");
    let all = d.get_all();
    assert_eq!(all.len(), 1);
    assert_eq!(all[0].0.as_str(), "k");
    assert_eq!(all[0].1.as_str(), "v2");
}

#[test]
fn remove_missing_is_noop() {
    let mut d = Document::new();
    assert!(d.set("k".to_string(), "v".to_string()));
    assert!(!d.remove("missing"));
    assert_eq!(d.len(), 1);
    assert_eq!(d.get("k").unwrap().as_str(), "v");
}

#[test]
fn remove_present_key() {
    let mut d = Document::new();
    assert!(d.set("a".to_string(), "1".to_string()));
    assert!(d.set("b".to_string(), "2".to_string()));
    assert!(d.remove("a"));
    assert_eq!(d.len(), 1);
    assert!(d.get("a").is_none());
    assert_eq!(d.get("b").unwrap().as_str(), "2");
}

#[test]
fn blank_keys_are_rejected() {
    let mut d = Document::new();
    assert!(!d.set("".to_string(), "v".to_string()));
    assert!(!d.set("   ".to_string(), "v".to_string()));
    assert!(!d.set(" \t\n ".to_string(), "v".to_string()));
    assert_eq!(d.len(), 0);
}

#[test]
fn unicode_blank_keys_are_rejected() {
    let mut d = Document::new();
    assert!(!d.set("\u{00a0}".to_string(), "v".to_string()));
    assert!(!d.set("\u{2003}\u{3000}\u{1680}".to_string(), "v".to_string()));
    assert!(d.set("\u{00a0}x".to_string(), "v".to_string()));
    assert_eq!(d.len(), 1);
}

#[test]
fn blank_key_test_matches_trimming() {
    let samples = [
        '\t', '\n', '\u{b}', '\u{c}', '\r', ' ', '\u{85}', '\u{a0}', '\u{1680}', '\u{2000}',
        '\u{2005}', '\u{200a}', '\u{2028}', '\u{2029}', '\u{202f}', '\u{205f}', '\u{3000}', 'x',
        '_', '\u{200b}', '\u{feff}',
    ];
    for c in samples {
        let s = c.to_string();
        let mut d = Document::new();
        assert_eq!(d.set(s.clone(), "v".to_string()), !s.trim().is_empty(), "char {c:?}");
    }
}

#[test]
fn key_with_surrounding_space_is_kept_verbatim() {
    let mut d = Document::new();
    assert!(d.set(" k ".to_string(), "v".to_string()));
    assert!(d.get("k").is_none());
    assert_eq!(d.get(" k ").unwrap().as_str(), "v");
}

#[test]
fn empty_document() {
    let d = Document::new();
    assert_eq!(d.len(), 0);
    assert!(d.get("anything").is_none());
    assert!(d.get_all().is_empty());
}
