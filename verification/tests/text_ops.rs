use header_comment::text::find_in;
use header_comment::text::is_blank;
use header_comment::text::join_from;
use header_comment::text::split_lines;
use header_comment::text::trim_of;
use header_comment::parser::strip_line;
use header_comment::parser::title_from_line;

#[test]
fn split_lines_at_newlines() {
    assert_eq!(split_lines("a\nb\nc"), vec!["a", "b", "c"]);
    assert_eq!(split_lines("a\nb\n"), vec!["a", "b"]);
    assert_eq!(split_lines(""), Vec::<String>::new());
    assert_eq!(split_lines("\n\n"), vec!["", ""]);
}

#[test]
fn split_lines_takes_crlf_as_one_break() {
    assert_eq!(split_lines("a\r\nb\r\n"), vec!["a", "b"]);
    assert_eq!(split_lines("a\rb\n"), vec!["a\rb"]);
    assert_eq!(split_lines("a\r"), vec!["a\r"]);
}

#[test]
fn join_from_concatenates_without_separator() {
    let v = vec![String::from("ab"), String::from("cd"), String::from("e")];
    assert_eq!(join_from(&v, 0), "abcde");
    assert_eq!(join_from(&v, 1), "cde");
    assert_eq!(join_from(&v, 3), "");
}

#[test]
fn blankness_is_trim_then_empty() {
    assert!(is_blank(""));
    assert!(is_blank("   \t"));
    assert!(is_blank("\u{a0}\u{2003}"));
    assert!(!is_blank(" x "));
}

#[test]
fn trim_drops_leading_and_trailing_whitespace() {
    assert_eq!(trim_of("  a b  "), "a b");
    assert_eq!(trim_of("\t"), "");
    assert_eq!(trim_of("ab"), "ab");
}

#[test]
fn find_in_gives_the_first_occurrence() {
    assert_eq!(find_in("ab*c*", '*'), Some(2));
    assert_eq!(find_in("abc", '*'), None);
}

#[test]
fn strip_line_removes_comment_margins() {
    assert_eq!(strip_line("/* Category/Title"), " Category/Title");
    assert_eq!(strip_line(" *"), "");
    assert_eq!(strip_line(" * text"), " text");
    assert_eq!(strip_line(" */"), "");
    assert_eq!(strip_line("plain"), "plain");
}

#[test]
fn title_is_the_second_slash_segment() {
    assert_eq!(title_from_line(" Category/Title"), Some("Title".to_string()));
    assert_eq!(title_from_line("A/B/C"), Some("B".to_string()));
    assert_eq!(title_from_line("A/"), Some(String::new()));
    assert_eq!(title_from_line("nothing"), None);
}
