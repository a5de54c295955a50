use kindleclip::note::{decimal_of, sanitize, BookNotes, Highlight, HighlightType};

fn book(title: &str, notes: &[(HighlightType, &str)]) -> BookNotes {
    BookNotes {
        title: title.to_string(),
        highlights: notes
            .iter()
            .map(|(k, t)| Highlight { highlight_type: *k, pages: None, date_added: None, highlight: t.to_string() })
            .collect(),
        mru_indice: 0,
    }
}

#[test]
fn sanitize_drops_reserved_and_lowercases() {
    assert_eq!(sanitize("The Book: A (Story), Part 1"), "the-book-a-story-part-1");
}

#[test]
fn sanitize_is_idempotent() {
    let once = sanitize("Hello World-Again");
    assert_eq!(once, "hello-world-again");
    assert_eq!(sanitize(&once), once);
}

#[test]
fn sanitize_lowercases_beyond_ascii() {
    assert_eq!(sanitize("ÉCOLE Ü"), "école-ü");
}

#[test]
fn colliding_titles_share_a_file_name() {
    let a = book("Book: One", &[]);
    let b = book("book one", &[]);
    assert_eq!(a.filestem(), "book-one");
    assert_eq!(a.file_name(), b.file_name());
    assert_eq!(a.file_name(), "book-one.md");
}

#[test]
fn render_as_paragraphs() {
    let b = book("Book A", &[(HighlightType::Highlight, "first"), (HighlightType::Comment, "mine\r")]);
    assert_eq!(b.render(false), "# Book A\n\n## Notes\n\nfirst\n\nNOTE: mine");
}

#[test]
fn render_as_list() {
    let b = book("Book A", &[(HighlightType::Highlight, "first"), (HighlightType::Highlight, "second")]);
    assert_eq!(b.render(true), "# Book A\n\n## Notes\n\n- first\n- second");
}

#[test]
fn render_without_notes() {
    assert_eq!(book("X", &[]).render(true), "# X\n\n## Notes\n\n");
}

#[test]
fn display_marks_notes() {
    let h = Highlight { highlight_type: HighlightType::Comment, pages: None, date_added: None, highlight: "a\rb".to_string() };
    assert_eq!(h.display(), "NOTE: ab");
}

#[test]
fn summary_counts_highlights() {
    let b = book("Book A", &[(HighlightType::Highlight, "x"), (HighlightType::Comment, "y")]);
    assert_eq!(b.summary(), "Book A (2 highlights)");
}

#[test]
fn decimal_forms() {
    assert_eq!(decimal_of(0), "0");
    assert_eq!(decimal_of(7), "7");
    assert_eq!(decimal_of(1203), "1203");
}
