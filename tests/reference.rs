use cite::reference::{detect_reference, find_reference, is_header, ReferenceNotFound};

fn lines(text: &str) -> Vec<String> {
    text.lines().map(|l| l.to_string()).collect()
}

#[test]
fn single_article_entry_gives_its_key() {
    let bib = lines("@article{key1,\n  title={A Title},\n  author={Someone},\n  year={2001}\n}\n");
    assert_eq!(find_reference(&bib).unwrap(), "key1");
}

#[test]
fn key_is_trimmed() {
    let bib = lines("@book{  key2 , title={X}}\n");
    assert_eq!(find_reference(&bib).unwrap(), "key2");
    assert_eq!(detect_reference("@book{  key2 , title={X}}"), Some("key2".to_string()));
}

#[test]
fn no_header_line_is_not_found() {
    let bib = lines("% a comment\ntitle={X}\n  author = {Y}\n");
    assert_eq!(find_reference(&bib), Err(ReferenceNotFound));
    assert_eq!(find_reference(&Vec::new()), Err(ReferenceNotFound));
}

#[test]
fn not_found_message() {
    assert_eq!(
        ReferenceNotFound.message(),
        "failed to find a reference; try specifying one explicitly"
    );
}

#[test]
fn first_header_wins() {
    let bib = lines("junk\n  @misc{first,\n@misc{second,\n");
    assert_eq!(find_reference(&bib).unwrap(), "first");
}

#[test]
fn header_without_identifier_is_not_found() {
    let bib = lines("@article{,x}\n@book{key2,\n}\n");
    assert_eq!(find_reference(&bib), Err(ReferenceNotFound));
    let bib = lines("% intro\n@comment\n@inproceedings{third, x}\n");
    assert_eq!(find_reference(&bib), Err(ReferenceNotFound));
}

#[test]
fn header_test() {
    assert!(is_header("  @article{k,"));
    assert!(is_header("@"));
    assert!(!is_header("x@"));
    assert!(!is_header("   "));
}

#[test]
fn detect_needs_leading_at() {
    assert_eq!(detect_reference("article{key1,"), None);
    assert_eq!(detect_reference(""), None);
    assert_eq!(detect_reference("   "), None);
    assert_eq!(detect_reference("x @article{key1,"), None);
}

#[test]
fn detect_leading_space_and_tabs() {
    assert_eq!(detect_reference(" \t@article{k,"), Some("k".to_string()));
    assert_eq!(detect_reference("@article{k}\u{3000}"), Some("k}".to_string()));
}

#[test]
fn detect_without_comma_runs_to_end() {
    assert_eq!(detect_reference("@article{abc"), Some("abc".to_string()));
    assert_eq!(detect_reference("@article{abc   "), Some("abc".to_string()));
}

#[test]
fn detect_without_brace_is_none() {
    assert_eq!(detect_reference("@article key1,"), None);
}

#[test]
fn detect_comma_before_brace_is_ignored() {
    assert_eq!(detect_reference("@a,b{c,"), Some("c".to_string()));
    assert_eq!(detect_reference("@misc,x{key3,y}"), Some("key3".to_string()));
    assert_eq!(detect_reference("@misc,x{key3"), Some("key3".to_string()));
    assert_eq!(detect_reference("@article{,"), None);
}

#[test]
fn detect_blank_identifier_is_empty() {
    assert_eq!(detect_reference("@article{  ,"), Some(String::new()));
}

#[test]
fn detect_non_ascii_identifier() {
    assert_eq!(detect_reference("@book{Müller2020, x}"), Some("Müller2020".to_string()));
}
