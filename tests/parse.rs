use kindleclip::parse::{myclippings, parse_note, webexport, Note};

#[test]
fn parse_note_highlight() {
    let (t, n) = parse_note("\u{feff}Book\r\n- Your Highlight on page 1 | Added on d\r\n\r\n text \r\n").unwrap();
    assert_eq!(t, "Book");
    assert!(matches!(n, Note::Highlight(ref s) if s == "text"));
}

#[test]
fn parse_note_keeps_empty_body() {
    let (t, n) = parse_note("T\r\n- Your Highlight on page 1 | Added on Monday\r\n\r\n").unwrap();
    assert_eq!(t, "T");
    assert!(matches!(n, Note::Highlight(ref s) if s.is_empty()));
}

#[test]
fn parse_note_skips_malformed_records() {
    assert!(parse_note("Bad\r\nno markers\r\n\r\nx\r\n").is_none());
    assert!(parse_note("   \r\n- Your Highlight on page 1 | Added on d\r\n\r\nx\r\n").is_none());
    assert!(parse_note("").is_none());
}

#[test]
fn myclippings_groups_by_title_in_title_order() {
    let data = "b\r\n- Your Highlight on page 1 | Added on x\r\n\r\none\r\n==========\r\n\
a\r\n- Your Note on page 2 | Added on y\r\n\r\ntwo\r\n==========\r\n\
b\r\n- Your Highlight on page 3 | Added on z\r\n\r\nthree\r\n==========\r\n";
    let gs = myclippings(data);
    assert_eq!(gs.len(), 2);
    assert_eq!(gs[0].0, "a");
    assert!(matches!(gs[0].1[0], Note::Comment(ref s) if s == "two"));
    assert_eq!(gs[1].0, "b");
    assert_eq!(gs[1].1.len(), 2);
    assert!(matches!(gs[1].1[1], Note::Highlight(ref s) if s == "three"));
}

#[test]
fn myclippings_skips_malformed_record() {
    let data = "Book A\r\n- Your Highlight on page 5-6 | Added on Monday\r\n\r\nSome text\r\n==========\r\nBad\r\nno markers\r\n\r\nx\r\n==========\r\n";
    let gs = myclippings(data);
    assert_eq!(gs.len(), 1);
    assert_eq!(gs[0].0, "Book A");
    assert_eq!(gs[0].1.len(), 1);
    assert!(matches!(gs[0].1[0], Note::Highlight(ref s) if s == "Some text"));
}

#[test]
fn myclippings_keeps_record_without_text() {
    let gs = myclippings("T\r\n- Your Highlight on page 1 | Added on Monday\r\n\r\n==========\r\n");
    assert_eq!(gs.len(), 1);
    assert_eq!(gs[0].0, "T");
    assert_eq!(gs[0].1.len(), 1);
}

#[test]
fn myclippings_rejects_blank_title() {
    let gs = myclippings("  \r\n- Your Highlight on page 1 | Added on d\r\n\r\nx\r\n==========\r\n");
    assert_eq!(gs.len(), 0);
}

#[test]
fn webexport_one_group() {
    let gs = webexport("<h3>Title</h3><span id=\"note\">n</span>").unwrap();
    assert_eq!(gs.len(), 1);
    assert_eq!(gs[0].0, "Title");
    assert!(matches!(gs[0].1[0], Note::Comment(ref s) if s == "n"));
}
