use glossa_dsl::strings::chars_of;
use glossa_dsl::template::{parse_delimited_braces, ParseFailure};

/// What is left of the input, and the content of the escaped block.
fn parse_delimited(input: &str) -> Result<(String, String), ParseFailure> {
    let chars = chars_of(input);
    let (content, used) = parse_delimited_braces(&chars)?;
    Ok((chars[used..].iter().collect(), content.as_str().to_string()))
}

fn found(rest: &str, content: &str) -> (String, String) {
    (rest.to_string(), content.to_string())
}

#[test]
fn test_parse_delimited() {
    assert_eq!(parse_delimited("{{ aa }}").unwrap(), found("", "aa"));
    assert_eq!(parse_delimited("{{{ {a} }}}").unwrap(), found("", "{a}"));
    assert_eq!(parse_delimited("{{ {a} }}").unwrap(), found("", "{a}"));
    assert_eq!(parse_delimited("{{ {  a } }}").unwrap(), found("", "{  a }"));
    assert_eq!(parse_delimited("{{{{abc}}}}").unwrap(), found("", "abc"));
    assert_eq!(
        parse_delimited(
            "{{{
  {{a}
    }}}"
        )
        .unwrap(),
        found("", "{{a}")
    );
}

#[test]
fn escaped_block_leaves_the_rest() {
    assert_eq!(parse_delimited("{{ a }}} b").unwrap(), found("} b", "a"));
    assert_eq!(parse_delimited("{{}}").unwrap(), found("", ""));
    assert_eq!(parse_delimited("{{ a }}{{ b }}").unwrap(), found("{{ b }}", "a"));
}

#[test]
fn escaped_block_without_end_fails() {
    assert!(matches!(parse_delimited("{{a}"), Err(ParseFailure::UnclosedEscape)));
    assert!(matches!(parse_delimited("{{{ a }}"), Err(ParseFailure::UnclosedEscape)));
    assert!(matches!(parse_delimited("{{"), Err(ParseFailure::UnclosedEscape)));
}

#[test]
fn escaped_block_trims_ascii_white_space_only() {
    assert_eq!(parse_delimited("{{ \t\n\r\x0C a \x0C}}").unwrap(), found("", "a"));
    assert_eq!(parse_delimited("{{\u{a0}a\u{2003}}}").unwrap(), found("", "\u{a0}a\u{2003}"));
}
