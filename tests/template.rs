use cite::template::{render, replace, replace_all, BIBLIOGRAPHY_KEY, REFERENCE_KEY, TEMPLATE};

#[test]
fn unrelated_text_is_kept() {
    let t = "\\begin{document} <other> text < reference> \u{e9}";
    assert_eq!(render(t, "paper.bib", "key1"), t);
}

#[test]
fn both_reference_occurrences_are_replaced() {
    let t = "a <reference> b <reference> c";
    assert_eq!(render(t, "x.bib", "key1"), "a key1 b key1 c");
}

#[test]
fn default_template_renders() {
    let r = render(TEMPLATE, "/tmp/refs", "key1");
    assert!(r.contains("\\nocite{key1}"));
    assert!(r.contains("\\bibliography{IEEEabrv,/tmp/refs}"));
    assert!(!r.contains("<reference>"));
    assert!(!r.contains("<bibliography>"));
    assert_eq!(r, TEMPLATE.replace("<reference>", "key1").replace("<bibliography>", "/tmp/refs"));
}

#[test]
fn placeholder_keys() {
    assert_eq!(BIBLIOGRAPHY_KEY, "<bibliography>");
    assert_eq!(REFERENCE_KEY, "<reference>");
}

#[test]
fn replace_all_is_left_to_right_without_overlap() {
    assert_eq!(replace_all("aaa", "aa", "b"), "ba");
    assert_eq!(replace_all("abab", "ab", ""), "");
    assert_eq!(replace_all("", "ab", "x"), "");
    assert_eq!(replace_all("a", "ab", "x"), "a");
    assert_eq!(replace_all("xabx", "ab", "ab-ab"), "xab-abx");
}

#[test]
fn replace_all_agrees_with_str_replace() {
    let cases = [("héllo wörld ö", "ö", "oe"), ("<r><r>", "<r>", "<r><r>"), ("aXbXc", "X", "")];
    for (t, k, v) in cases {
        assert_eq!(replace_all(t, k, v), t.replace(k, v));
    }
}

#[test]
fn replace_applies_pairs_in_order() {
    let map = vec![
        ("<a>".to_string(), "1".to_string()),
        ("<b>".to_string(), "2".to_string()),
    ];
    assert_eq!(replace("<a><b><a>", &map), "121");
    let empty: Vec<(String, String)> = Vec::new();
    assert_eq!(replace("<a>", &empty), "<a>");
}

#[test]
fn values_are_not_escaped() {
    assert_eq!(render("{<reference>}", "b", "a_b%c"), "{a_b%c}");
}

#[test]
fn segments_and_placeholders_in_order() {
    let t = "a<bibliography>b<reference>c<bibliography>";
    assert_eq!(render(t, "B", "R"), "aBbRcB");
    assert_eq!(render("<reference><reference>", "B", "R"), "RR");
}
