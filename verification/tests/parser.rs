//! The query lexer and the recursive-descent pattern parser.

use rover::search::parser::{lexer, Operation, Pattern, PatternTokens};

#[test]
fn test_lexing() {
    let tokens = lexer("'Hello   ^world | josh$ other").unwrap();

    let expected = vec![
        PatternTokens::Quote,
        PatternTokens::Pattern("Hello".to_owned()),
        PatternTokens::Space,
        PatternTokens::Caret,
        PatternTokens::Pattern("world".to_owned()),
        PatternTokens::Space,
        PatternTokens::Pipe,
        PatternTokens::Space,
        PatternTokens::Pattern("josh".to_owned()),
        PatternTokens::Dollar,
        PatternTokens::Space,
        PatternTokens::Pattern("other".to_owned()),
    ];

    assert_eq!(expected, tokens);
}

#[test]
fn test_fuzzy_parsing() {
    let pattern = "Hello".parse::<Pattern>().unwrap();

    let expected = Pattern::Fuzzy("Hello".to_owned());

    assert_eq!(expected, pattern);
}

#[test]
fn test_exact_parsing() {
    let pattern = "'Hello".parse::<Pattern>().unwrap();

    let expected = Pattern::Exact("Hello".to_owned());

    assert_eq!(expected, pattern);
}

#[test]
fn test_prefix_parsing() {
    let pattern = "^Hello".parse::<Pattern>().unwrap();

    let expected = Pattern::Prefix("Hello".to_owned());

    assert_eq!(expected, pattern);
}

#[test]
fn test_suffix_parsing() {
    let pattern = "Hello$".parse::<Pattern>().unwrap();

    let expected = Pattern::Suffix("Hello".to_owned());

    assert_eq!(expected, pattern);
}

#[test]
fn test_or_parsing() {
    let pattern = "Hello | ^world".parse::<Pattern>().unwrap();

    let expected = Pattern::Group {
        op: Operation::Or,
        left: Box::new(Pattern::Fuzzy("Hello".to_owned())),
        right: Box::new(Pattern::Prefix("world".to_owned())),
    };

    assert_eq!(expected, pattern);
}

#[test]
fn test_and_parsing() {
    let pattern = "Hello ^world".parse::<Pattern>().unwrap();

    let expected = Pattern::Group {
        op: Operation::And,
        left: Box::new(Pattern::Fuzzy("Hello".to_owned())),
        right: Box::new(Pattern::Prefix("world".to_owned())),
    };

    assert_eq!(expected, pattern);
}

#[test]
fn test_order_of_operations() {
    let pattern = "Hello | ^world 'foo".parse::<Pattern>().unwrap();

    let expected = Pattern::Group {
        op: Operation::And,
        left: Box::new(Pattern::Group {
            op: Operation::Or,
            left: Box::new(Pattern::Fuzzy("Hello".to_owned())),
            right: Box::new(Pattern::Prefix("world".to_owned())),
        }),
        right: Box::new(Pattern::Exact("foo".to_owned())),
    };

    assert_eq!(expected, pattern);
}

#[test]
fn test_order_of_operations_with_group() {
    let pattern = "( Hello ^world ) | 'foo".parse::<Pattern>().unwrap();

    let expected = Pattern::Group {
        op: Operation::Or,
        left: Box::new(Pattern::Group {
            op: Operation::And,
            left: Box::new(Pattern::Fuzzy("Hello".to_owned())),
            right: Box::new(Pattern::Prefix("world".to_owned())),
        }),
        right: Box::new(Pattern::Exact("foo".to_owned())),
    };

    assert_eq!(expected, pattern);
}

#[test]
fn test_negated_pattern() {
    let pattern = "!'Hello".parse::<Pattern>().unwrap();

    let expected = Pattern::Negated(Box::new(Pattern::Exact("Hello".to_owned())));

    assert_eq!(expected, pattern);
}

#[test]
fn test_trailing_space() {
    let pattern = "!'Hello  ".parse::<Pattern>().unwrap();

    let expected = Pattern::Negated(Box::new(Pattern::Exact("Hello".to_owned())));

    assert_eq!(expected, pattern);
}

#[test]
fn test_leading_space() {
    let pattern = "   !'Hello".parse::<Pattern>().unwrap();

    let expected = Pattern::Negated(Box::new(Pattern::Exact("Hello".to_owned())));

    assert_eq!(expected, pattern);
}

#[test]
fn test_unclosed_group() {
    let pattern = "(!'Hello".parse::<Pattern>().unwrap();

    let expected = Pattern::Negated(Box::new(Pattern::Exact("Hello".to_owned())));

    assert_eq!(expected, pattern);
}

#[test]
fn test_deref_pattern() {
    let pattern = "!*Hello".parse::<Pattern>().unwrap();

    let expected = Pattern::Negated(Box::new(Pattern::Deref(Box::new(Pattern::Fuzzy(
        "Hello".to_owned(),
    )))));

    assert_eq!(expected, pattern);
}
