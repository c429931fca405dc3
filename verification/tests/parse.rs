use header_comment::parser::parse_title_and_description;
use header_comment::parser::ParseError;

#[test]
fn test_parse_title_and_description() {
    let b = "/* Theming/Multiple Backgrounds\n\
 *\n\
 * Gtk themes are written using CSS.\n\
 *\n\
 */\n\
 \n\
 fn main(){}\n";
    let parsed = parse_title_and_description(b).unwrap();
    println!("{:?}", parsed.title);
    assert_eq!("Multiple Backgrounds", parsed.title);

    println!("{}", parsed.description);
    assert_eq!("Gtk themes are written using CSS.", parsed.description);

    println!("{}", parsed.body);
    assert_eq!("fn main(){}", parsed.body);
}

#[test]
fn decorated_margins_sample() {
    let parsed = parse_title_and_description(
        "/* Category/Title\n *\n * Description line.\n *\n */\n \n body line\n",
    )
    .unwrap();
    assert_eq!(parsed.title, "Title");
    assert_eq!(parsed.description, "Description line.");
    assert_eq!(parsed.body.trim(), "body line");
}

#[test]
fn single_line_header_has_empty_description() {
    let parsed = parse_title_and_description("/* Category/OnlyTitle\n*/\n\nbody").unwrap();
    assert_eq!(parsed.title, "OnlyTitle");
    assert_eq!(parsed.description, "");
    assert_eq!(parsed.body, "body");
}

#[test]
fn spaces_only_line_terminates_like_empty_line() {
    let with_spaces = parse_title_and_description("/* C/T\n * desc\n \nbody").unwrap();
    let with_empty = parse_title_and_description("/* C/T\n * desc\n\nbody").unwrap();
    assert_eq!(with_spaces.title, with_empty.title);
    assert_eq!(with_spaces.description, with_empty.description);
    assert_eq!(with_spaces.body, with_empty.body);
    assert_eq!(with_spaces.body, "body");
}

#[test]
fn body_starts_right_after_first_blank_line() {
    let parsed = parse_title_and_description("/* X/Y\n */\n \n fn main(){}\n").unwrap();
    assert_eq!(parsed.body.trim(), "fn main(){}");

    let many_blanks = parse_title_and_description("/* X/Y\n */\n\n\n\nfn main(){}\n").unwrap();
    assert_eq!(many_blanks.body, "fn main(){}");
}

#[test]
fn description_joins_header_lines_without_separator() {
    let parsed = parse_title_and_description("/* A/B\n * one\n * two\n\nrest").unwrap();
    assert_eq!(parsed.title, "B");
    assert_eq!(parsed.description, "one two");
    assert_eq!(parsed.body, "rest");
}

#[test]
fn title_takes_segment_between_first_and_second_slash() {
    let parsed = parse_title_and_description("/* A/B/C\n*/\n\nx").unwrap();
    assert_eq!(parsed.title, "B");
}

#[test]
fn header_without_comment_marks_is_taken_as_it_stands() {
    let parsed = parse_title_and_description("Category/Title\nmore\n\nbody").unwrap();
    assert_eq!(parsed.title, "Title");
    assert_eq!(parsed.description, "more");
    assert_eq!(parsed.body, "body");
}

#[test]
fn header_may_run_to_the_end_of_the_document() {
    let parsed = parse_title_and_description("/* A/B\n * d").unwrap();
    assert_eq!(parsed.title, "B");
    assert_eq!(parsed.description, "d");
    assert_eq!(parsed.body, "");
}

#[test]
fn crlf_breaks_are_line_breaks() {
    let parsed = parse_title_and_description("/* A/B\r\n * d\r\n\r\nbody\r\n").unwrap();
    assert_eq!(parsed.title, "B");
    assert_eq!(parsed.description, "d");
    assert_eq!(parsed.body, "body");
}

#[test]
fn empty_document_is_malformed() {
    assert!(matches!(
        parse_title_and_description(""),
        Err(ParseError::MalformedHeader)
    ));
}

#[test]
fn document_opening_with_blank_line_is_malformed() {
    assert!(matches!(
        parse_title_and_description("\n/* A/B\n*/\n"),
        Err(ParseError::MalformedHeader)
    ));
    assert!(matches!(
        parse_title_and_description("   \ntext"),
        Err(ParseError::MalformedHeader)
    ));
}

#[test]
fn title_line_without_separator_is_malformed() {
    assert!(matches!(
        parse_title_and_description("/* NoSlashTitle\n*/\n\nbody"),
        Err(ParseError::MalformedHeader)
    ));
}
