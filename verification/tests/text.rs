use press::text::{chars_of, ends_with, push_chars, push_joined, split_chars, starts_with_at, string_of};

fn chars(text: &str) -> Vec<char> {
    text.chars().collect()
}

#[test]
fn text_gives_its_characters() {
    assert_eq!(chars_of("a\u{e9}/"), vec!['a', '\u{e9}', '/']);
    assert_eq!(chars_of(""), Vec::<char>::new());
}

#[test]
fn characters_give_text() {
    let input = chars("hello");
    assert_eq!(string_of(&input, 1, 4), "ell");
    assert_eq!(string_of(&input, 2, 2), "");
    let mut out = "x".to_string();
    push_chars(&mut out, &input, 0, 5);
    assert_eq!(out, "xhello");
}

#[test]
fn split_keeps_empty_pieces() {
    let input = chars("/a//b/");
    assert_eq!(split_chars(&input, input.len(), '/'), vec!["", "a", "", "b", ""]);
    assert_eq!(split_chars(&input, 2, '/'), vec!["", "a"]);
    assert_eq!(split_chars(&input, 0, '/'), vec![""]);
}

#[test]
fn join_undoes_split() {
    let input = chars("a/b//c");
    let pieces = split_chars(&input, input.len(), '/');
    let mut joined = String::new();
    push_joined(&mut joined, &pieces, 0, pieces.len(), '/');
    assert_eq!(joined, "a/b//c");
    let mut part = String::new();
    push_joined(&mut part, &pieces, 1, 3, '/');
    assert_eq!(part, "b/");
}

#[test]
fn prefix_and_suffix_are_found() {
    let input = chars("leaf.txt");
    assert!(ends_with(&input, &chars(".txt")));
    assert!(ends_with(&input, &chars("")));
    assert!(!ends_with(&input, &chars(".md")));
    assert!(!ends_with(&chars("txt"), &chars(".txt")));
    assert!(starts_with_at(&input, 4, &chars(".t")));
    assert!(!starts_with_at(&input, 5, &chars(".t")));
    assert!(!starts_with_at(&input, 6, &chars("xtx")));
    assert!(starts_with_at(&input, 8, &chars("")));
}
