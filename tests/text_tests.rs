use trackr::text::{after_first_chars, contains_chars, split_chars, string_of, to_chars, trim_chars};

fn chars(s: &str) -> Vec<char> {
    to_chars(s)
}

#[test]
fn trim_removes_unicode_white_space_at_both_ends() {
    let t = trim_chars(&chars("\u{3000} \t a b \r\n\u{2028}"));
    assert_eq!(string_of(&t), "a b");
    assert_eq!(string_of(&trim_chars(&chars(" \n "))), "");
}

#[test]
fn split_keeps_empty_pieces() {
    let parts = split_chars(&chars("\"a\"\""), '"');
    let texts: Vec<String> = parts.iter().map(|p| string_of(p)).collect();
    assert_eq!(texts, vec!["", "a", "", ""]);
    assert_eq!(split_chars(&chars(""), '"').len(), 1);
}

#[test]
fn contains_finds_a_pattern_anywhere() {
    assert!(contains_chars(&chars("  \"id\": 1"), &chars("\"id\"")));
    assert!(!contains_chars(&chars("\"idea\""), &chars("\"id\"")));
    assert!(contains_chars(&chars("x"), &chars("")));
    assert!(!contains_chars(&chars("ab"), &chars("abc")));
}

#[test]
fn after_first_takes_the_rest_after_the_first_colon() {
    let r = after_first_chars(&chars("a:b:c"), ':').unwrap();
    assert_eq!(string_of(&r), "b:c");
    assert!(after_first_chars(&chars("abc"), ':').is_none());
}
