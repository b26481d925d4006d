use mygrep::parser::parse_regex;
use mygrep::regex::{search, EngineError, MatchSpan, Node, Sequence};

fn c_locale() -> Option<String> {
    Some(String::from("C"))
}

fn compile(pattern: &str) -> Sequence {
    parse_regex(pattern.as_bytes(), &c_locale()).unwrap()
}

#[test]
fn test_literal_regex() {
    let regex = "test literal";
    let literal_regex = Node::literal(regex.as_bytes());
    assert_eq!(Ok(regex.len()), literal_regex.evaluate("test literal".as_bytes(), 0));
}

#[test]
fn test_literal_regex_non_matching_case() {
    let regex = "test literal";
    let literal_regex = Node::literal(regex.as_bytes());
    assert_eq!(Err(()), literal_regex.evaluate("test non matching literal".as_bytes(), 0));
}

#[test]
fn test_interval_regex() {
    let regex_str = "test{0,1}";
    let res = parse_regex(regex_str.as_bytes(), &c_locale());
    let regex = res.unwrap();
    let data = "testtest";
    assert_eq!(Ok(data.len() - 4), regex.evaluate(data.as_bytes(), 0));
}

#[test]
fn test_compiled_literal() {
    let regex = compile("test literal");
    assert_eq!(Ok(12), regex.evaluate("test literal".as_bytes(), 0));
    assert_eq!(Err(()), regex.evaluate("test non matching literal".as_bytes(), 0));
}

#[test]
fn test_malformed_interval_falls_back_to_literal() {
    let regex = compile("a{x}");
    assert_eq!(Ok(4), regex.evaluate("a{x}".as_bytes(), 0));
    assert_eq!(Err(()), regex.evaluate("aaaa".as_bytes(), 0));
}

#[test]
fn test_bracket_first_close_is_member() {
    let regex = compile("[]a]");
    assert_eq!(Ok(1), regex.evaluate("]".as_bytes(), 0));
    assert_eq!(Ok(1), regex.evaluate("a".as_bytes(), 0));
    assert_eq!(Err(()), regex.evaluate("b".as_bytes(), 0));
}

#[test]
fn test_greedy_repetition_does_not_backtrack() {
    // `a*` consumes all three `a`s and never reconsiders, so the trailing
    // `a` of the pattern finds the subject exhausted: no match at any offset.
    let regex = compile("a*a");
    assert_eq!(None, search(&regex, "aaa".as_bytes()));
}

#[test]
fn test_locale_gate_refuses_non_c_locales() {
    assert_eq!(
        Err(EngineError::LocaleError),
        parse_regex("abc".as_bytes(), &Some(String::from("en_US.UTF-8")))
    );
    assert_eq!(Err(EngineError::LocaleError), parse_regex("abc".as_bytes(), &None));
    assert_eq!(Err(EngineError::LocaleError), parse_regex("".as_bytes(), &None));
    assert!(parse_regex("".as_bytes(), &c_locale()).is_ok());
}

#[test]
fn test_unterminated_constructs_are_parse_errors() {
    assert_eq!(Err(EngineError::ParseError), parse_regex("[ab".as_bytes(), &c_locale()));
    assert_eq!(Err(EngineError::ParseError), parse_regex("a{2".as_bytes(), &c_locale()));
    assert_eq!(Err(EngineError::ParseError), parse_regex("ab\\".as_bytes(), &c_locale()));
}

#[test]
fn test_quantifier_without_operand_is_parse_error() {
    assert_eq!(Err(EngineError::ParseError), parse_regex("?".as_bytes(), &c_locale()));
    assert_eq!(Err(EngineError::ParseError), parse_regex("*ab".as_bytes(), &c_locale()));
    assert_eq!(Err(EngineError::ParseError), parse_regex("{2}".as_bytes(), &c_locale()));
}

#[test]
fn test_wildcard() {
    let regex = compile("a.c");
    assert_eq!(Ok(3), regex.evaluate("abc".as_bytes(), 0));
    assert_eq!(Ok(3), regex.evaluate("axc".as_bytes(), 0));
    assert_eq!(Err(()), regex.evaluate("ac".as_bytes(), 0));
}

#[test]
fn test_escaped_special_byte_is_literal() {
    let regex = compile("a\\.b");
    assert_eq!(Ok(3), regex.evaluate("a.b".as_bytes(), 0));
    assert_eq!(Err(()), regex.evaluate("axb".as_bytes(), 0));
}

#[test]
fn test_optional_wraps_whole_literal_run() {
    let regex = compile("ab?");
    assert_eq!(Ok(2), regex.evaluate("ab".as_bytes(), 0));
    assert_eq!(Ok(0), regex.evaluate("x".as_bytes(), 0));
}

#[test]
fn test_one_or_more() {
    let regex = compile("a+");
    assert_eq!(Ok(3), regex.evaluate("aaa".as_bytes(), 0));
    assert_eq!(Err(()), regex.evaluate("b".as_bytes(), 0));
}

#[test]
fn test_interval_bounds() {
    let regex = compile("a{2,3}");
    assert_eq!(Ok(3), regex.evaluate("aaaa".as_bytes(), 0));
    assert_eq!(Ok(2), regex.evaluate("aa".as_bytes(), 0));
    assert_eq!(Err(()), regex.evaluate("a".as_bytes(), 0));
}

#[test]
fn test_interval_omitted_bounds() {
    let lower_omitted = compile("a{,2}");
    assert_eq!(Ok(2), lower_omitted.evaluate("aaa".as_bytes(), 0));
    let upper_omitted = compile("a{1,}");
    assert_eq!(Ok(3), upper_omitted.evaluate("aaa".as_bytes(), 0));
    assert_eq!(Err(()), upper_omitted.evaluate("b".as_bytes(), 0));
    let exact = compile("a{2}");
    assert_eq!(Ok(2), exact.evaluate("aa".as_bytes(), 0));
}

#[test]
fn test_interval_comma_only_is_literal() {
    let regex = compile("a{,}");
    assert_eq!(Ok(4), regex.evaluate("a{,}".as_bytes(), 0));
}

#[test]
fn test_interval_overflowing_bound_is_literal() {
    let pattern = "a{99999999999999999999999999}";
    let regex = compile(pattern);
    assert_eq!(Ok(pattern.len()), regex.evaluate(pattern.as_bytes(), 0));
    assert_eq!(Err(()), regex.evaluate("aa".as_bytes(), 0));
}

#[test]
fn test_zero_minimum_matches_empty_subject() {
    let star = Node::repeat(Node::literal("a".as_bytes()), false);
    assert_eq!(Ok(0), star.evaluate("".as_bytes(), 0));
    let optional = Node::optional(Node::literal("a".as_bytes()));
    assert_eq!(Ok(0), optional.evaluate("".as_bytes(), 0));
    let interval = Node::interval(Node::literal("a".as_bytes()), 0, 5);
    assert_eq!(Ok(0), interval.evaluate("".as_bytes(), 0));
    let nonempty_literal = Node::literal("a".as_bytes());
    assert_eq!(Err(()), nonempty_literal.evaluate("".as_bytes(), 0));
}

#[test]
fn test_named_class() {
    let digit = Node::char_class("[:digit:]".as_bytes());
    assert_eq!(Ok(1), digit.evaluate("5".as_bytes(), 0));
    assert_eq!(Err(()), digit.evaluate("x".as_bytes(), 0));
    let upper = Node::char_class("[:upper:]".as_bytes());
    assert_eq!(Ok(1), upper.evaluate("Q".as_bytes(), 0));
    assert_eq!(Err(()), upper.evaluate("q".as_bytes(), 0));
}

#[test]
fn test_class_ranges_and_negation() {
    let range = Node::char_class("a-f".as_bytes());
    assert_eq!(Ok(1), range.evaluate("c".as_bytes(), 0));
    assert_eq!(Err(()), range.evaluate("z".as_bytes(), 0));
    let negated = Node::char_class("^abc".as_bytes());
    assert_eq!(Ok(1), negated.evaluate("z".as_bytes(), 0));
    assert_eq!(Err(()), negated.evaluate("a".as_bytes(), 0));
}

#[test]
fn test_class_in_pattern() {
    let regex = compile("x[0-9]y");
    assert_eq!(Ok(3), regex.evaluate("x5y".as_bytes(), 0));
    assert_eq!(Err(()), regex.evaluate("xay".as_bytes(), 0));
}

#[test]
fn test_search_finds_leftmost_match() {
    let regex = compile("ab");
    assert_eq!(
        Some(MatchSpan { start: 2, length: 2 }),
        search(&regex, "xxabab".as_bytes())
    );
    assert_eq!(None, search(&regex, "xxaxbx".as_bytes()));
}

#[test]
fn test_search_anchors() {
    let anchored_start = compile("^ab");
    assert_eq!(Some(MatchSpan { start: 0, length: 2 }), search(&anchored_start, "abx".as_bytes()));
    assert_eq!(None, search(&anchored_start, "xab".as_bytes()));
    let anchored_end = compile("ab$");
    assert_eq!(Some(MatchSpan { start: 1, length: 2 }), search(&anchored_end, "xab".as_bytes()));
    assert_eq!(None, search(&anchored_end, "abx".as_bytes()));
}

#[test]
fn test_compile_twice_behaves_identically() {
    let first = compile("te?st{1,2}");
    let second = compile("te?st{1,2}");
    for subject in ["test", "tst", "testt", "x", ""] {
        assert_eq!(
            first.evaluate(subject.as_bytes(), 0),
            second.evaluate(subject.as_bytes(), 0)
        );
        assert_eq!(search(&first, subject.as_bytes()), search(&second, subject.as_bytes()));
    }
}
