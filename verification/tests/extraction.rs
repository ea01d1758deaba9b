use url_poller::extract::{extract_from_note, extract_from_payload, extract_urls_from_text, is_url};
use url_poller::models::{EditData, EditNote, PayloadNode};

fn note(id: i32, text: &str) -> EditNote {
    EditNote { id, editor: 1, edit: 1, text: text.to_string(), post_time: None }
}

#[test]
fn payload_extraction_completeness() {
    let payload = PayloadNode::Obj(vec![
        (
            "a".to_string(),
            PayloadNode::Text("see http://example.org/x and http://example.org/y".to_string()),
        ),
        ("b".to_string(), PayloadNode::Num(5)),
    ]);
    let row = EditData { edit: 1, data: payload };
    let urls = extract_from_payload(&row);
    assert_eq!(
        urls,
        vec!["http://example.org/x".to_string(), "http://example.org/y".to_string()]
    );
}

#[test]
fn note_punctuation_stripping() {
    let row = note(1, "Check https://example.com/page.");
    let urls = extract_from_note(&row);
    assert_eq!(urls, vec!["https://example.com/page".to_string()]);
}

#[test]
fn nested_payload_is_walked() {
    let payload = PayloadNode::List(vec![
        PayloadNode::Null,
        PayloadNode::Obj(vec![(
            "inner".to_string(),
            PayloadNode::List(vec![PayloadNode::Text("https://deep.example/z".to_string())]),
        )]),
        PayloadNode::Bool(true),
    ]);
    let row = EditData { edit: 2, data: payload };
    let urls = extract_from_payload(&row);
    assert_eq!(urls, vec!["https://deep.example/z".to_string()]);
}

#[test]
fn payload_without_strings_yields_nothing() {
    let row = EditData { edit: 3, data: PayloadNode::Num(42) };
    assert!(extract_from_payload(&row).is_empty());
    let row = EditData { edit: 4, data: PayloadNode::Null };
    assert!(extract_from_payload(&row).is_empty());
}

#[test]
fn empty_and_whitespace_text_yield_nothing() {
    assert!(extract_from_note(&note(1, "")).is_empty());
    assert!(extract_from_note(&note(2, "   \t\n  ")).is_empty());
    assert!(extract_from_note(&note(3, "no links here")).is_empty());
}

#[test]
fn duplicates_within_one_row_are_suppressed() {
    let row = note(5, "http://a.example/p again http://a.example/p and http://a.example/q");
    let urls = extract_from_note(&row);
    assert_eq!(
        urls,
        vec!["http://a.example/p".to_string(), "http://a.example/q".to_string()]
    );
}

#[test]
fn parenthesised_url_is_stripped() {
    let urls = extract_urls_from_text("(see https://example.com/a).");
    assert_eq!(urls, vec!["https://example.com/a".to_string()]);
}

#[test]
fn bare_scheme_is_not_a_url() {
    assert!(extract_urls_from_text("http:// and https://").is_empty());
    assert!(extract_urls_from_text("http://.").is_empty());
}

#[test]
fn url_wellformedness_check() {
    assert!(is_url("http://example.org"));
    assert!(is_url("https://e"));
    assert!(!is_url("http://"));
    assert!(!is_url("https://"));
    assert!(!is_url("ftp://example.org"));
    assert!(!is_url("example.org"));
    assert!(!is_url(""));
}

#[test]
fn url_in_plain_string_value_is_found() {
    let row = EditData { edit: 9, data: PayloadNode::Text("https://only.example/v".to_string()) };
    let urls = extract_from_payload(&row);
    assert_eq!(urls, vec!["https://only.example/v".to_string()]);
}
