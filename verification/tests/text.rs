use todone::order::{rank_chars, Rank};
use todone::path::{extension, join, parent, rank_paths, relative_to, strip_prefix};
use todone::text::{
    chars_of, cut_chars, decimal_string, first_line_chars, join_strings, split_lines, split_trimmed,
    split_words, string_of, trim_chars,
};

#[test]
fn words_are_split_at_whitespace() {
    assert_eq!(split_words("  code\t--wait \u{3000}x"), vec!["code", "--wait", "x"]);
    assert!(split_words(" \n").is_empty());
}

#[test]
fn pieces_are_split_at_separators() {
    assert_eq!(split_trimmed("a, b ,,c", ','), vec!["a", "b", "", "c"]);
    assert_eq!(split_trimmed("", ','), vec![""]);
}

#[test]
fn strings_are_joined_with_separators() {
    assert_eq!(join_strings(&vec!["a".into(), "b".into(), "c".into()], " - "), "a - b - c");
    assert_eq!(join_strings(&vec![], ","), "");
}

#[test]
fn lines_keep_their_terminators() {
    let source = "a\r\nb\nc";
    let lines = split_lines(&chars_of(source));
    let joined: String = lines
        .iter()
        .map(|l| format!("{}{}", string_of(&l.text), string_of(&l.eol)))
        .collect();
    assert_eq!(joined, source);
    let starts: Vec<_> = lines.iter().map(|l| l.start).collect();
    assert_eq!(starts, vec![0, 3, 5]);
}

#[test]
fn first_lines_have_no_terminator() {
    let first = |s: &str| first_line_chars(&chars_of(s)).map(|l| string_of(&l));
    assert_eq!(first("a\r\nb"), Some("a".into()));
    assert_eq!(first("\nb"), Some("".into()));
    assert_eq!(first(""), None);
}

#[test]
fn cuts_respect_characters() {
    let cut = |s: &str, n| string_of(&cut_chars(&chars_of(s), n));
    assert_eq!(cut("aéb", 3), "aé");
    assert_eq!(cut("aéb", 2), "a");
    assert_eq!(cut("aéb", 9), "aéb");
    assert_eq!(cut("aéb", 0), "");
}

#[test]
fn numbers_print_in_decimal() {
    assert_eq!(decimal_string(0), "0");
    assert_eq!(decimal_string(1070), "1070");
    assert_eq!(decimal_string(usize::MAX), usize::MAX.to_string());
}

#[test]
fn trimming_takes_both_ends() {
    assert_eq!(string_of(&trim_chars(&chars_of("\t a b \u{85}"))), "a b");
}

#[test]
fn texts_are_ordered_by_character() {
    let rank = |a: &str, b: &str| rank_chars(&chars_of(a), &chars_of(b));
    assert!(matches!(rank("a", "b"), Rank::Before));
    assert!(matches!(rank("ab", "a"), Rank::After));
    assert!(matches!(rank("ab", "ab"), Rank::Same));
}

#[test]
fn paths_join_and_split() {
    assert_eq!(join("/repo", "src/a.rs"), "/repo/src/a.rs");
    assert_eq!(join("/repo", "/abs"), "/abs");
    assert_eq!(strip_prefix("/repo/src/a.rs", "/repo").as_deref(), Some("src/a.rs"));
    assert_eq!(strip_prefix("/repo2/a.rs", "/repo"), None);
    assert_eq!(relative_to("/other/a.rs", "/repo"), "/other/a.rs");
    assert_eq!(parent("/repo/src/a.rs").as_deref(), Some("/repo/src"));
    assert_eq!(extension("a.tar.gz").as_deref(), Some("gz"));
}

#[test]
fn paths_are_ordered_by_component() {
    assert!(matches!(rank_paths("a/b", "a-c"), Rank::Before));
    assert!(matches!(rank_paths("a", "a/b"), Rank::Before));
    assert!(matches!(rank_paths("b", "a/b"), Rank::After));
}
