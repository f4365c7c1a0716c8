use secret_store::codec::{parse_text, render_entries};
use secret_store::Document;

fn pairs(items: &[(&str, &str)]) -> Vec<(String, String)> {
    items.iter().map(|(k, v)| (k.to_string(), v.to_string())).collect()
}

#[test]
fn render_plain_entries() {
    let es = pairs(&[("a", "1"), ("b", "2")]);
    assert_eq!(render_entries(&es), "a=1\nb=2\n");
}

#[test]
fn render_escapes_structural_characters() {
    let es = pairs(&[("a=b", "c\nd"), ("e\\f", "g")]);
    assert_eq!(render_entries(&es), "a\\eb=c\\nd\ne\\\\f=g\n");
}

#[test]
fn render_empty_is_empty() {
    let es: Vec<(String, String)> = Vec::new();
    assert_eq!(render_entries(&es), "");
}

#[test]
fn parse_inverts_render() {
    let es = pairs(&[("a=b", "c\nd"), ("e\\f", "g"), ("plain", ""), ("", "value")]);
    let text = render_entries(&es);
    let back = parse_text(&text).unwrap();
    assert_eq!(back, es);
}

#[test]
fn parse_rejects_unterminated_input() {
    assert!(parse_text("abc").is_none());
    assert!(parse_text("a=b").is_none());
    assert!(parse_text("a=b\nc").is_none());
}

#[test]
fn parse_rejects_bad_escape_and_stray_delimiters() {
    assert!(parse_text("a\\qb=c\n").is_none());
    assert!(parse_text("a=b=c\n").is_none());
    assert!(parse_text("\na=b\n").is_none());
}

#[test]
fn parse_accepts_empty_input() {
    let es = parse_text("").unwrap();
    assert!(es.is_empty());
}

#[test]
fn document_from_pairs_rejects_blank_keys() {
    let ok = Document::from_pairs(pairs(&[("k", "v")]));
    assert!(ok.is_some());
    let bad = Document::from_pairs(pairs(&[("k", "v"), ("  ", "v2")]));
    assert!(bad.is_none());
}

#[test]
fn document_from_pairs_later_entry_wins() {
    let d = Document::from_pairs(pairs(&[("k", "v1"), ("k", "v2")])).unwrap();
    assert_eq!(d.len(), 1);
    assert_eq!(d.get("k").unwrap().as_str(), "v2");
}
