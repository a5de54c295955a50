use kindleclip::util::{filter_titles, title_matches};

#[test]
fn filter_keeps_titles_whose_lowercase_contains_query() {
    let ls = vec!["WAR and Peace".to_string(), "Anna Karenina".to_string(), "The Art of War".to_string()];
    assert_eq!(filter_titles(&ls, "war"), vec!["WAR and Peace", "The Art of War"]);
    assert_eq!(filter_titles(&ls, "WAR"), Vec::<String>::new());
}

#[test]
fn title_matching() {
    assert!(title_matches("the art of war", "of w"));
    assert!(title_matches("anything", ""));
    assert!(!title_matches("short", "shorter"));
}
