use kindleclip::my_clippings::{parse, parse_note, RecordError};
use kindleclip::note::HighlightType;
use kindleclip::util::{ordered_titles, recency_order};

fn record_error(s: &str) -> RecordError {
    match parse_note(s) {
        Ok(_) => panic!("record parsed"),
        Err(e) => e,
    }
}

#[test]
fn round_trip_single_highlight() {
    let data = "Book A\r\n- Your Highlight on page 5-6 | Added on Monday\r\n\r\nSome text\r\n==========\r\n";
    let c = parse(data);
    assert_eq!(c.skipped, 0);
    assert_eq!(c.books.len(), 1);
    let b = &c.books[0];
    assert_eq!(b.title, "Book A");
    assert_eq!(b.mru_indice, 0);
    assert_eq!(b.highlights.len(), 1);
    let h = &b.highlights[0];
    assert_eq!(h.highlight_type, HighlightType::Highlight);
    assert_eq!(h.pages, Some(("5".to_string(), "6".to_string())));
    assert_eq!(h.date_added, Some("Monday".to_string()));
    assert_eq!(h.highlight, "Some text");
}

#[test]
fn malformed_record_is_skipped_and_counted() {
    let data = "Broken Book\r\nsome metadata without markers\r\n\r\ntext\r\n==========\r\n\
Good Book\r\n- Your Note at location 120 | Added on Tuesday, 3 May\r\n\r\nmy thought\r\n==========\r\n";
    let c = parse(data);
    assert_eq!(c.skipped, 1);
    assert_eq!(c.books.len(), 1);
    let b = &c.books[0];
    assert_eq!(b.title, "Good Book");
    assert_eq!(b.mru_indice, 1);
    let h = &b.highlights[0];
    assert_eq!(h.highlight_type, HighlightType::Comment);
    assert_eq!(h.pages, Some(("120".to_string(), "120".to_string())));
    assert_eq!(h.date_added, Some("Tuesday, 3 May".to_string()));
    assert_eq!(h.highlight, "my thought");
}

#[test]
fn records_of_one_title_all_land_in_its_book() {
    let data = "A\r\n- Your Highlight on page 1 | Added on x\r\n\r\none\r\n==========\r\n\
B\r\n- Your Highlight on page 2 | Added on y\r\n\r\ntwo\r\n==========\r\n\
A\r\n- Your Highlight on page 3 | Added on z\r\n\r\nthree\r\n==========\r\n\
A\r\nno markers here\r\n\r\nlost\r\n==========\r\n";
    let c = parse(data);
    assert_eq!(c.skipped, 1);
    assert_eq!(c.books.len(), 2);
    assert_eq!(c.books[0].title, "A");
    assert_eq!(c.books[0].highlights.len(), 2);
    assert_eq!(c.books[0].highlights[0].highlight, "one");
    assert_eq!(c.books[0].highlights[1].highlight, "three");
    assert_eq!(c.books[0].mru_indice, 2);
    assert_eq!(c.books[1].title, "B");
    assert_eq!(c.books[1].highlights.len(), 1);
    assert_eq!(c.books[1].mru_indice, 1);
}

#[test]
fn titles_ordered_by_latest_record() {
    let data = "A\r\n- Your Highlight on page 1 | Added on x\r\n\r\none\r\n==========\r\n\
B\r\n- Your Highlight on page 2 | Added on y\r\n\r\ntwo\r\n==========\r\n\
A\r\n- Your Highlight on page 3 | Added on z\r\n\r\nthree\r\n==========\r\n\
C\r\n- Your Highlight on page 4 | Added on w\r\n\r\nfour\r\n==========\r\n";
    let c = parse(data);
    assert_eq!(recency_order(&c.books), vec![1, 0, 2]);
    assert_eq!(ordered_titles(&c.books), vec!["B", "A", "C"]);
    let again = parse(data);
    assert_eq!(ordered_titles(&again.books), ordered_titles(&c.books));
}

#[test]
fn empty_log_gives_no_books() {
    let c = parse("");
    assert_eq!(c.books.len(), 0);
    assert_eq!(c.skipped, 0);
}

#[test]
fn log_without_final_delimiter() {
    let c = parse("T\r\n- Your Highlight on page 9 | Added on d\r\n\r\nlast");
    assert_eq!(c.books.len(), 1);
    assert_eq!(c.books[0].highlights[0].highlight, "last");
}

#[test]
fn title_loses_byte_order_mark_and_spaces() {
    let c = parse("\u{feff}My Title  \r\n- Your Highlight on page 1 | Added on d\r\n\r\nx\r\n==========\r\n");
    assert_eq!(c.books[0].title, "My Title");
}

#[test]
fn body_lines_are_trimmed_and_joined() {
    let c = parse("T\r\n- Your Highlight on page 1 | Added on d\r\n\r\n  first \r\n\r\n second\r\n==========\r\n");
    assert_eq!(c.books[0].highlights[0].highlight, "firstsecond");
}

#[test]
fn empty_body_is_kept() {
    let c = parse("T\r\n- Your Bookmark on page 7 | Added on d\r\n\r\n\r\n==========\r\n");
    assert_eq!(c.skipped, 0);
    assert_eq!(c.books[0].highlights[0].highlight, "");
    assert_eq!(c.books[0].highlights[0].highlight_type, HighlightType::Comment);
}

#[test]
fn page_wins_over_location() {
    let r = parse_note("T\r\n- Your Highlight at location 10-12 on page 3 | Added on d\r\n\r\nx").unwrap();
    assert_eq!(r.1.pages, Some(("3".to_string(), "3".to_string())));
}

#[test]
fn record_error_empty() {
    assert_eq!(record_error(""), RecordError::Empty);
}

#[test]
fn record_error_no_title() {
    assert_eq!(record_error("   \r\n- Your Highlight on page 1 | Added on d\r\n"), RecordError::NoTitle);
}

#[test]
fn record_error_no_metadata() {
    assert_eq!(record_error("Title only\r\n"), RecordError::NoMetadata);
}

#[test]
fn record_error_no_location() {
    assert_eq!(record_error("T\r\n- Your Highlight | Added on d\r\n"), RecordError::NoLocation);
}

#[test]
fn record_error_no_separator() {
    assert_eq!(record_error("T\r\n- Your Highlight on page 4 Added on d\r\n"), RecordError::NoSeparator);
}

#[test]
fn record_error_no_date() {
    assert_eq!(record_error("T\r\n- Your Highlight on page 4 | yesterday\r\n"), RecordError::NoDate);
}

#[test]
fn location_range_keeps_two_values() {
    let r = parse_note("T\r\n- Your Highlight at location 1-2-3 | Added on d\r\n\r\nx").unwrap();
    assert_eq!(r.1.pages, Some(("1".to_string(), "2".to_string())));
}

#[test]
fn separator_right_after_marker_gives_empty_location() {
    let r = parse_note("T\r\n- Your Highlight on page |Added on d\r\n\r\nx").unwrap();
    assert_eq!(r.1.pages, Some((String::new(), String::new())));
    assert_eq!(r.1.date_added, Some("d".to_string()));
}

#[test]
fn date_marker_at_end_of_line_gives_empty_date() {
    let r = parse_note("T\r\n- Your Highlight on page 2 | Added on\r\n\r\nx").unwrap();
    assert_eq!(r.1.date_added, Some(String::new()));
}
