use screenwatch::scanner::Parser;

#[test]
fn test_add() {
    let mut parser = Parser::new("screen".to_owned());
    assert_eq!(parser.parse_token("screen"), Some("screen".to_owned()));
}

#[test]
fn parse_u64() {
    let mut parser = Parser::new("64".to_owned());
    assert_eq!(parser.parse_u64(), Some(64));
}

#[test]
fn parse_u64_fail() {
    let mut parser = Parser::new("-64".to_owned());
    assert_eq!(parser.parse_u64(), None);
}

#[test]
fn parse_i64() {
    let mut parser = Parser::new("64".to_owned());
    assert_eq!(parser.parse_i64(), Some(64));
}

#[test]
fn parse_i64_with_space() {
    let mut parser = Parser::new("64 ".to_owned());
    assert_eq!(parser.parse_i64(), Some(64));
}

#[test]
fn parse_i64_negative() {
    let mut parser = Parser::new("-64".to_owned());
    assert_eq!(parser.parse_i64(), Some(-64));
}

#[test]
fn parse_i64_negative_fail() {
    let mut parser = Parser::new("-64-64".to_owned());
    assert_eq!(parser.parse_i64(), None);
}

#[test]
fn test_parse_token() {
    let mut parser = Parser::new("foobar".to_owned());
    assert_eq!(parser.parse_token("foobar"), Some("foobar".to_string()));
    assert_eq!(parser.eof(), true);
}

#[test]
fn test_parse_token_part() {
    let mut parser = Parser::new("foobar".to_owned());
    assert_eq!(parser.parse_token("foo"), Some("foo".to_string()));
    assert_eq!(parser.eof(), false);
}

#[test]
fn test_parse_token_no_match() {
    let mut parser = Parser::new("foobar".to_owned());
    assert_eq!(parser.parse_token("bar"), None);
}

#[test]
fn skip_takes_maximal_run() {
    let mut parser = Parser::new("aaab".to_owned());
    parser.skip(|c| c == 'a');
    assert_eq!(parser.current_text(), "b");
}

#[test]
fn skip_whitespace_then_word() {
    let mut parser = Parser::new("  \t hi".to_owned());
    parser.skip_whitespace();
    assert_eq!(parser.current_text(), "hi");
    assert!(!parser.eof());
    assert_eq!(parser.parse_word1(), Some("hi".to_string()));
    assert!(parser.eof());
}

#[test]
fn skip_one_steps_a_character() {
    let mut parser = Parser::new("ab".to_owned());
    parser.skip_one();
    assert_eq!(parser.current_text(), "b");
}

#[test]
fn skip_eol_absorbs_blank_lines() {
    let mut parser = Parser::new("first\n\n\nsecond".to_owned());
    parser.skip_eol();
    assert_eq!(parser.current_text(), "second");
    // at end of input the operation is a no-op
    let mut done = Parser::new("tail".to_owned());
    done.skip_eol();
    done.skip_eol();
    assert!(done.eof());
}

#[test]
fn parse_eol() {
    let mut parser = Parser::new(
        "-64-64
and another"
            .to_owned(),
    );
    parser.skip_eol();
    assert_eq!(parser.current_text(), "and another");
}
