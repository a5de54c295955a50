use kindleclip::text::{chars_of, lines_of, trimmed};

fn s(v: &[char]) -> String {
    v.iter().collect()
}

#[test]
fn trim_removes_unicode_white_space() {
    assert_eq!(s(&trimmed(&chars_of("\u{3000} a b\u{a0}\t"))), "a b");
    assert_eq!(s(&trimmed(&chars_of(" \r\n "))), "");
}

#[test]
fn lines_follow_str_lines() {
    let data = "one\r\ntwo\n\nthree\r";
    let got: Vec<String> = lines_of(&chars_of(data)).iter().map(|l| s(l)).collect();
    let want: Vec<String> = data.lines().map(|l| l.to_string()).collect();
    assert_eq!(got, want);
}
