use glossa_dsl::error::{ResolverError, ResolverResult};
use glossa_dsl::parsers::branch::parse_branch;
use glossa_dsl::parsers::{parse_conditional, parse_value, parse_value_or_map_err};
use glossa_dsl::part::{TemplatePart, VariableRef};
use glossa_dsl::strings::chars_of;
use glossa_dsl::template::{parse_parts, parse_template, parse_variable, ParseFailure};
use glossa_dsl::{Resolver, Template};

/// The segments of a template written out: `T` for text, `V` for a
/// variable, `P` for a parameter.
fn shown(parts: &[TemplatePart]) -> Vec<String> {
    parts
        .iter()
        .map(|part| match part {
            TemplatePart::Text(text) => format!("T:{text}"),
            TemplatePart::Variable(VariableRef::Variable(name)) => format!("V:{name}"),
            TemplatePart::Variable(VariableRef::Parameter(name)) => format!("P:{name}"),
        })
        .collect()
}

fn parts_of(source: &str) -> Vec<String> {
    shown(parse_template(source).expect("a template").as_slice())
}

#[test]
fn text_and_interpolations_alternate() {
    assert_eq!(parts_of("{h} { $name }! Today is {$day}"), ["V:h", "T: ", "P:name", "T:! Today is ", "P:day"]);
    assert_eq!(parts_of("plain"), ["T:plain"]);
    assert_eq!(parts_of(" kept as it is \n"), ["T: kept as it is \n"]);
    assert_eq!(parts_of(""), Vec::<String>::new());
}

#[test]
fn interpolation_ends_at_the_first_closing_brace() {
    assert_eq!(parts_of("{a}}"), ["V:a", "T:}"]);
    assert_eq!(parts_of("{a{b}c"), ["V:a{b", "T:c"]);
    assert_eq!(parts_of("{}"), ["V:"]);
    assert_eq!(parts_of("{$}"), ["P:"]);
    assert_eq!(parts_of("{ $ x y }"), ["P:x y"]);
    assert_eq!(parts_of("{ a b }"), ["V:a b"]);
    assert_eq!(parts_of("} a"), ["T:} a"]);
}

#[test]
fn interpolation_is_read_only_where_one_begins() {
    for source in ["", "a}", "a", "}", " {a}", "{{a}}", "{{", "{{}", "$x}"] {
        assert!(
            matches!(parse_variable(&chars_of(source)), Err(ParseFailure::NotInterpolation)),
            "{source}"
        );
    }
    for source in ["{", "{a", "{ $a", "{a{"] {
        assert!(
            matches!(parse_variable(&chars_of(source)), Err(ParseFailure::UnclosedInterpolation)),
            "{source}"
        );
    }
    let (var, used) = parse_variable(&chars_of("{ name } and more")).unwrap();
    assert!(matches!(var, VariableRef::Variable(name) if name == "name"));
    assert_eq!(used, 8);
    let (var, used) = parse_variable(&chars_of("{$ day}}")).unwrap();
    assert!(matches!(var, VariableRef::Parameter(name) if name == "day"));
    assert_eq!(used, 7);
    let (var, used) = parse_variable(&chars_of("{}{{")).unwrap();
    assert!(matches!(var, VariableRef::Variable(name) if name == ""));
    assert_eq!(used, 2);
}

#[test]
fn names_are_trimmed_of_all_white_space() {
    assert_eq!(parts_of("{\u{2003}name\u{a0}}"), ["V:name"]);
    assert_eq!(parts_of("{\t$\u{3000}name\n}"), ["P:name"]);
}

#[test]
fn escaped_blocks_are_text() {
    assert_eq!(parts_of("{h}!{{ how_are_you }}? {{    {$name} }}"), ["V:h", "T:!", "T:how_are_you", "T:? ", "T:{$name}"]);
    assert_eq!(parts_of("a{{}}b"), ["T:a", "T:", "T:b"]);
    assert_eq!(parts_of("{{ a }}}"), ["T:a", "T:}"]);
}

#[test]
fn unclosed_braces_are_failures() {
    let chars = chars_of("Hello {name");
    assert!(matches!(parse_parts(&chars), Err(ParseFailure::UnclosedInterpolation)));
    let chars = chars_of("{");
    assert!(matches!(parse_parts(&chars), Err(ParseFailure::UnclosedInterpolation)));
    let chars = chars_of("a {{ b }");
    assert!(matches!(parse_parts(&chars), Err(ParseFailure::UnclosedEscape)));
    assert!(matches!(
        parse_template("{{{ a }}"),
        Err(ResolverError::ParseError(message)) if message == "missing closing braces of an escaped block"
    ));
    assert!(matches!(
        parse_template("{ a"),
        Err(ResolverError::ParseError(message)) if message == "missing closing brace of an interpolation"
    ));
}

#[test]
fn failure_of_an_entry_names_its_key() {
    assert!(matches!(
        parse_value_or_map_err("greeting", "{{a}"),
        Err(ResolverError::ParseError(message))
            if message == "Failed to parse 'greeting': Parse error: missing closing braces of an escaped block"
    ));
    assert!(parse_value_or_map_err("greeting", "{a}").is_ok());
}

fn selector_of(source: &str) -> glossa_dsl::selector::Selector {
    let chars = chars_of(source);
    match parse_value(&chars).expect("a template") {
        Template::Conditional(selector) => selector,
        other => panic!("{other:?}"),
    }
}

fn template_shown(template: &Template) -> Vec<String> {
    match template {
        Template::Parts(parts) => shown(parts.as_slice()),
        Template::Conditional(selector) => vec![format!("S:{}", selector.param)],
    }
}

#[test]
fn selector_keeps_its_cases_in_order() {
    let s = selector_of("$status ->\n  [success] Operation succeeded!\n  [error] Error occurred!\n  *[default] Unknown status: {$status}\n");
    assert_eq!(s.param, "status");
    assert_eq!(s.cases.len(), 2);
    assert_eq!(s.cases[0].0, "success");
    assert_eq!(template_shown(&s.cases[0].1), ["T:Operation succeeded!"]);
    assert_eq!(s.cases[1].0, "error");
    assert_eq!(template_shown(&s.cases[1].1), ["T:Error occurred!"]);
    assert_eq!(template_shown(s.default.as_ref().unwrap()), ["T:Unknown status: ", "P:status"]);
}

#[test]
fn selector_is_read_from_the_trimmed_source() {
    let s = selector_of("\n\n  \t$gender ->\n[male] Mr.\n*[female] Ms.\n  ");
    assert_eq!(s.param, "gender");
    assert_eq!(s.cases.len(), 1);
    assert_eq!(template_shown(s.default.as_ref().unwrap()), ["T:Ms."]);
}

#[test]
fn white_space_around_the_arrow_is_free() {
    let s = selector_of("$a ->[x]X");
    assert_eq!(s.param, "a");
    assert_eq!(s.cases[0].0, "x");
    assert_eq!(template_shown(&s.cases[0].1), ["T:X"]);
    let s = selector_of("$a_1\n->\n\n[x]\tX");
    assert_eq!(s.param, "a_1");
    assert_eq!(template_shown(&s.cases[0].1), ["T:X"]);
}

#[test]
fn hyphen_belongs_to_the_name() {
    let s = selector_of("$time-period -> [x] X");
    assert_eq!(s.param, "time-period");
    let chars = chars_of("$a->[x]X");
    assert!(parse_conditional(&chars).is_none());
    let s = selector_of("$a- ->[x]X");
    assert_eq!(s.param, "a-");
}

#[test]
fn last_default_wins() {
    let s = selector_of("$a ->\n *[x] first\n [y] case\n *[z] second");
    assert_eq!(s.cases.len(), 1);
    assert_eq!(s.cases[0].0, "y");
    assert_eq!(template_shown(s.default.as_ref().unwrap()), ["T:second"]);
}

#[test]
fn case_values_are_trimmed_of_ascii_white_space() {
    let s = selector_of("$a ->\n [  two words \t] X\n [\u{a0}y\u{a0}] Y\n [] Z");
    assert_eq!(s.cases[0].0, "two words");
    assert_eq!(s.cases[1].0, "\u{a0}y\u{a0}");
    assert_eq!(s.cases[2].0, "");
}

#[test]
fn branch_without_content_is_the_empty_template() -> ResolverResult<()> {
    let s = selector_of("$a ->\n [x]\n [y]   \n *[z]");
    assert_eq!(s.cases.len(), 2);
    assert_eq!(template_shown(&s.cases[0].1), Vec::<String>::new());
    assert_eq!(template_shown(&s.cases[1].1), Vec::<String>::new());
    assert_eq!(template_shown(s.default.as_ref().unwrap()), Vec::<String>::new());

    let r = Resolver::try_from_slice(&[("m", "$a ->\n [x]\n *[z] other")])?;
    assert_eq!(r.get_with_context("m", &[("a", "x")])?, "");
    assert_eq!(r.get_with_context("m", &[("a", "y")])?, "other");
    Ok(())
}

#[test]
fn content_ends_with_its_line() {
    let s = selector_of("$a ->\r\n [x] one  \r\n [y] two\r [z] three");
    assert_eq!(template_shown(&s.cases[0].1), ["T:one  "]);
    assert_eq!(template_shown(&s.cases[1].1), ["T:two"]);
    assert_eq!(template_shown(&s.cases[2].1), ["T:three"]);
}

#[test]
fn what_follows_the_branches_is_passed_over() {
    let s = selector_of("$a ->\n [x] X\n and this is no branch\n [y] Y");
    assert_eq!(s.cases.len(), 1);
    assert!(s.default.is_none());
}

#[test]
fn branches_end_at_content_that_is_no_template() {
    let s = selector_of("$a ->\n [x] X\n [y] {{oops\n *[z] Z");
    assert_eq!(s.cases.len(), 1);
    assert!(s.default.is_none());
}

#[test]
fn branch_may_hold_a_selector() -> ResolverResult<()> {
    let s = selector_of("$a ->\n [x] $b -> [y] inner\n *[z] outer");
    assert_eq!(template_shown(&s.cases[0].1), ["S:b"]);
    let r = Resolver::try_from_slice(&[("m", "$a ->\n [x] $b -> [y] inner\n *[z] outer")])?;
    assert_eq!(r.get_with_context("m", &[("a", "x"), ("b", "y")])?, "inner");
    assert_eq!(r.get_with_context("m", &[("b", "y"), ("a", "q")])?, "outer");
    assert!(matches!(
        r.get_with_context("m", &[("a", "x"), ("b", "n")]),
        Err(ResolverError::NoDefaultBranch(name)) if name == "b"
    ));
    Ok(())
}

#[test]
fn what_has_not_the_form_of_a_selector_is_segments() {
    for source in ["$a ->", "$a -> text", "$ -> [x] X", "$a - > [x] X", "a -> [x] X", "$a [x] X", "$a ->\n [x X"] {
        let chars = chars_of(source);
        assert!(parse_conditional(&chars).is_none(), "{source}");
        match parse_value(&chars).expect("a template") {
            Template::Parts(parts) => assert_eq!(shown(parts.as_slice()), [format!("T:{source}")]),
            other => panic!("{other:?}"),
        }
    }
}

#[test]
fn branch_says_how_much_it_takes() {
    let chars = chars_of("\n  *[ b ]  rest of line\nnext");
    let (branch, used) = parse_branch(&chars).expect("a branch");
    assert!(branch.is_default);
    assert_eq!(branch.value, "b");
    assert_eq!(template_shown(&branch.template), ["T:rest of line"]);
    assert_eq!(used, 23);
    assert!(parse_branch(&chars_of("x [a] b")).is_none());
    assert!(parse_branch(&chars_of("")).is_none());
    assert!(parse_branch(&chars_of("**[a] b")).is_none());
}
