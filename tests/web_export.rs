use kindleclip::note::HighlightType;
use kindleclip::web_export::{get_h3_title, parse, WebExportError};

#[test]
fn find_title_test() {
    let tmp = "<h3 blah>this is the title</h3>";
    assert_eq!("this is the title", get_h3_title(tmp).unwrap());
}

#[test]
fn page_without_title() {
    assert_eq!(get_h3_title("<h2>no</h2>"), None);
    assert_eq!(parse("<span id=\"highlight\">Hi</span>").unwrap_err(), WebExportError::NoTitle);
}

#[test]
fn web_export_two_highlights() {
    let page = "<html><h3 class=\"t\">My Book</h3>\n<div><span class=\"a\" id=\"highlight\">Hi</span></div>\n<span id=\"highlight\">Hi</span></html>";
    let b = parse(page).unwrap();
    assert_eq!(b.title, "My Book");
    assert_eq!(b.highlights.len(), 2);
    for h in &b.highlights {
        assert_eq!(h.highlight_type, HighlightType::Highlight);
        assert_eq!(h.highlight, "Hi");
        assert_eq!(h.pages, None);
        assert_eq!(h.date_added, None);
    }
}

#[test]
fn blank_note_is_discarded() {
    let b = parse("<h3>T</h3><span id=\"note\">\n\n</span>").unwrap();
    assert_eq!(b.title, "T");
    assert_eq!(b.highlights.len(), 0);
}

#[test]
fn multi_line_text_becomes_one_line() {
    let b = parse("<h3>T</h3><span id=\"highlight\">\r\n one\ntwo \n</span><span id=\"note\">mine</span>").unwrap();
    assert_eq!(b.highlights.len(), 2);
    assert_eq!(b.highlights[0].highlight, "one two");
    assert_eq!(b.highlights[1].highlight_type, HighlightType::Comment);
    assert_eq!(b.highlights[1].highlight, "mine");
}

#[test]
fn unmarked_spans_are_ignored() {
    let b = parse("<h3>T</h3><span id=\"other\">x</span>").unwrap();
    assert_eq!(b.highlights.len(), 0);
}
