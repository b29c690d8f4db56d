use nfa_regex::lexer::{lex, Token};
use nfa_regex::parser::{parse, parse_tokens, Node, ParseError};

#[test]
fn test_parse() {
    assert_eq!(parse(lex("a").unwrap()), Ok(Node::Literal('a')));
    assert_eq!(
        parse(lex("ab").unwrap()),
        Ok(Node::Concat(vec![Node::Literal('a'), Node::Literal('b')]))
    );
    assert_eq!(
        parse(lex("a*").unwrap()),
        Ok(Node::ZeroOrMore(Box::new(Node::Literal('a'))))
    );
    assert_eq!(
        parse(lex("a+").unwrap()),
        Ok(Node::OneOrMore(Box::new(Node::Literal('a'))))
    );
    assert_eq!(
        parse(lex("a?").unwrap()),
        Ok(Node::ZeroOrOne(Box::new(Node::Literal('a'))))
    );
    assert_eq!(
        parse(lex("a*b").unwrap()),
        Ok(Node::Concat(vec![
            Node::ZeroOrMore(Box::new(Node::Literal('a'))),
            Node::Literal('b')
        ]))
    );
    assert_eq!(parse(lex(".").unwrap()), Ok(Node::AnyChar));
    assert_eq!(
        parse(lex(".*").unwrap()),
        Ok(Node::ZeroOrMore(Box::new(Node::AnyChar)))
    );
    assert_eq!(
        parse(lex("a|b").unwrap()),
        Ok(Node::Union(
            Box::new(Node::Literal('a')),
            Box::new(Node::Literal('b'))
        ))
    );
    assert_eq!(
        parse(lex("a|b|c").unwrap()),
        Ok(Node::Union(
            Box::new(Node::Union(
                Box::new(Node::Literal('a')),
                Box::new(Node::Literal('b'))
            )),
            Box::new(Node::Literal('c'))
        ))
    );
    assert_eq!(
        parse(lex("a*|b").unwrap()),
        Ok(Node::Union(
            Box::new(Node::ZeroOrMore(Box::new(Node::Literal('a')))),
            Box::new(Node::Literal('b'))
        ))
    );
    assert_eq!(
        parse(lex("a|([a-c])").unwrap()),
        Ok(Node::Union(
            Box::new(Node::Literal('a')),
            Box::new(Node::Group(Box::new(Node::CharClass(vec!['a', 'b', 'c']))))
        ))
    );
    assert_eq!(
        parse(lex("abc|d").unwrap()),
        Ok(Node::Union(
            Box::new(Node::Concat(vec![
                Node::Literal('a'),
                Node::Literal('b'),
                Node::Literal('c')
            ])),
            Box::new(Node::Literal('d'))
        ))
    );
    assert_eq!(
        parse(lex("(ab)*").unwrap()),
        Ok(Node::ZeroOrMore(Box::new(Node::Group(Box::new(
            Node::Concat(vec![Node::Literal('a'), Node::Literal('b')])
        )))))
    );
    assert_eq!(
        parse(lex("[abc]").unwrap()),
        Ok(Node::CharClass(vec!['a', 'b', 'c']))
    );
    assert_eq!(
        parse(lex("[abc]*").unwrap()),
        Ok(Node::ZeroOrMore(Box::new(Node::CharClass(vec![
            'a', 'b', 'c'
        ]))))
    );
    assert_eq!(
        parse(lex("[abc]+").unwrap()),
        Ok(Node::OneOrMore(Box::new(Node::CharClass(vec![
            'a', 'b', 'c'
        ]))))
    );
    assert_eq!(
        parse(lex("([a-c])").unwrap()),
        Ok(Node::Group(Box::new(Node::CharClass(vec!['a', 'b', 'c']))))
    );
    assert_eq!(
        parse(lex("[(a-c)]").unwrap()),
        Err("Unexpected token: LeftParen".to_string())
    );
}

#[test]
fn parse_no_tokens_is_the_empty_sequence() {
    assert_eq!(parse(vec![]), Ok(Node::Concat(vec![])));
}

#[test]
fn parse_empty_alternative_is_the_empty_sequence() {
    assert_eq!(
        parse(lex("a|").unwrap()),
        Ok(Node::Union(
            Box::new(Node::Literal('a')),
            Box::new(Node::Concat(vec![]))
        ))
    );
}

#[test]
fn parse_ignores_what_follows_the_expression() {
    assert_eq!(parse(lex("a)b").unwrap()), Ok(Node::Literal('a')));
}

#[test]
fn parse_takes_one_repetition_operator_only() {
    assert_eq!(
        parse(lex("a**").unwrap()),
        Err("Unexpected token: Star".to_string())
    );
    assert_eq!(
        parse(lex("a?b").unwrap()),
        Ok(Node::Concat(vec![
            Node::ZeroOrOne(Box::new(Node::Literal('a'))),
            Node::Literal('b')
        ]))
    );
}

#[test]
fn parse_unexpected_tokens() {
    assert_eq!(
        parse_tokens(&vec![Token::Star]),
        Err(ParseError::UnexpectedToken(Token::Star))
    );
    assert_eq!(
        parse(vec![Token::Plus]),
        Err("Unexpected token: Plus".to_string())
    );
    assert_eq!(
        parse(vec![Token::Question]),
        Err("Unexpected token: Question".to_string())
    );
    assert_eq!(
        parse(vec![Token::Hyphen]),
        Err("Unexpected token: Hyphen".to_string())
    );
    assert_eq!(
        parse(vec![Token::RightBracket]),
        Err("Unexpected token: RightBracket".to_string())
    );
    assert_eq!(
        parse(lex("[a.]").unwrap()),
        Err("Unexpected token: Dot".to_string())
    );
    assert_eq!(
        parse(lex("[a|]").unwrap()),
        Err("Unexpected token: Pipe".to_string())
    );
    assert_eq!(
        parse(lex("[a[").unwrap()),
        Err("Unexpected token: LeftBracket".to_string())
    );
    assert_eq!(
        parse(lex("[a)").unwrap()),
        Err("Unexpected token: RightParen".to_string())
    );
}

#[test]
fn parse_unclosed_group() {
    assert_eq!(
        parse_tokens(&lex("(a").unwrap()),
        Err(ParseError::UnclosedGroup)
    );
    assert_eq!(
        parse(lex("(a").unwrap()),
        Err("Unclosed group".to_string())
    );
    assert_eq!(
        parse(lex("((a)").unwrap()),
        Err("Unclosed group".to_string())
    );
}

#[test]
fn parse_hyphen_at_start_of_class() {
    assert_eq!(
        parse_tokens(&lex("[-a]").unwrap()),
        Err(ParseError::HyphenAtStart)
    );
    assert_eq!(
        parse(lex("[-a]").unwrap()),
        Err("Hyphen at the beginning of char class".to_string())
    );
}

#[test]
fn parse_invalid_classes() {
    // A range that runs backwards.
    assert_eq!(
        parse_tokens(&lex("[z-a]").unwrap()),
        Err(ParseError::InvalidCharClass)
    );
    assert_eq!(
        parse(lex("[z-a]").unwrap()),
        Err("invalid char class".to_string())
    );
    // A range without an end.
    assert_eq!(
        parse(lex("[a-").unwrap()),
        Err("invalid char class".to_string())
    );
    // A second hyphen behind a range.
    assert_eq!(
        parse(lex("[a-z-]").unwrap()),
        Err("invalid char class".to_string())
    );
}

#[test]
fn parse_class_ranges() {
    assert_eq!(
        parse(lex("[a-a]").unwrap()),
        Ok(Node::CharClass(vec!['a']))
    );
    assert_eq!(
        parse(lex("[x0-3y]").unwrap()),
        Ok(Node::CharClass(vec!['x', '0', '1', '2', '3', 'y']))
    );
    assert_eq!(
        parse(lex("[ab-d]").unwrap()),
        Ok(Node::CharClass(vec!['a', 'b', 'c', 'd']))
    );
}

#[test]
fn parse_class_range_skips_the_surrogates() {
    let tokens = vec![
        Token::LeftBracket,
        Token::Literal('\u{d7fe}'),
        Token::Hyphen,
        Token::Literal('\u{e001}'),
        Token::RightBracket,
    ];
    assert_eq!(
        parse(tokens),
        Ok(Node::CharClass(vec![
            '\u{d7fe}', '\u{d7ff}', '\u{e000}', '\u{e001}'
        ]))
    );
}

#[test]
fn parse_class_hyphen_before_another_token_skips_it() {
    // The hyphen swallows the bracket, and the class runs to the end.
    assert_eq!(
        parse(lex("[a-]b").unwrap()),
        Ok(Node::CharClass(vec!['a', 'b']))
    );
}

#[test]
fn parse_class_may_end_with_the_tokens() {
    assert_eq!(
        parse(lex("[ab").unwrap()),
        Ok(Node::CharClass(vec!['a', 'b']))
    );
}

#[test]
fn parse_empty_class_and_empty_group() {
    assert_eq!(parse(lex("[]").unwrap()), Ok(Node::CharClass(vec![])));
    assert_eq!(
        parse(lex("()").unwrap()),
        Ok(Node::Group(Box::new(Node::Concat(vec![]))))
    );
}

#[test]
fn error_messages() {
    assert_eq!(
        ParseError::UnexpectedToken(Token::Literal('a')).message(),
        "Unexpected token: Literal('a')"
    );
    assert_eq!(
        ParseError::UnexpectedToken(Token::Literal('\n')).message(),
        "Unexpected token: Literal('\\n')"
    );
    assert_eq!(
        ParseError::UnexpectedToken(Token::Literal('\'')).message(),
        "Unexpected token: Literal('\\'')"
    );
    assert_eq!(
        ParseError::UnexpectedToken(Token::Dot).message(),
        "Unexpected token: Dot"
    );
    assert_eq!(
        ParseError::UnexpectedToken(Token::Pipe).message(),
        "Unexpected token: Pipe"
    );
    assert_eq!(
        ParseError::UnexpectedToken(Token::LeftBracket).message(),
        "Unexpected token: LeftBracket"
    );
    assert_eq!(
        ParseError::UnexpectedToken(Token::RightParen).message(),
        "Unexpected token: RightParen"
    );
    assert_eq!(ParseError::UnclosedGroup.message(), "Unclosed group");
    assert_eq!(
        ParseError::HyphenAtStart.message(),
        "Hyphen at the beginning of char class"
    );
    assert_eq!(ParseError::InvalidCharClass.message(), "invalid char class");
}
