use nfa_regex::lexer::{lex, scan_text, try_lex, Scanned, Token};

#[test]
fn test_lexer() {
    assert_eq!(lex("a").unwrap(), vec![Token::Literal('a')]);
    assert_eq!(lex("Z").unwrap(), vec![Token::Literal('Z')]);
    assert_eq!(
        lex("aa").unwrap(),
        vec![Token::Literal('a'), Token::Literal('a')]
    );
    assert_eq!(lex("a*").unwrap(), vec![Token::Literal('a'), Token::Star]);
    assert_eq!(lex("a+").unwrap(), vec![Token::Literal('a'), Token::Plus]);
    assert_eq!(
        lex("a?").unwrap(),
        vec![Token::Literal('a'), Token::Question]
    );
    assert_eq!(lex("a.").unwrap(), vec![Token::Literal('a'), Token::Dot]);
    assert_eq!(
        lex("a(b)").unwrap(),
        vec![
            Token::Literal('a'),
            Token::LeftParen,
            Token::Literal('b'),
            Token::RightParen
        ]
    );
    assert_eq!(lex(".*").unwrap(), vec![Token::Dot, Token::Star]);
    assert_eq!(
        lex("[a-z]").unwrap(),
        vec![
            Token::LeftBracket,
            Token::Literal('a'),
            Token::Hyphen,
            Token::Literal('z'),
            Token::RightBracket
        ]
    );
    assert_eq!(
        lex(" a-z ").unwrap(),
        vec![Token::Literal('a'), Token::Hyphen, Token::Literal('z')]
    );
    assert_eq!(
        lex("a|b").unwrap(),
        vec![Token::Literal('a'), Token::Pipe, Token::Literal('b')]
    );
    assert_eq!(lex("\\a").unwrap(), vec![Token::Literal('a')]);
    assert_eq!(lex("\\-").unwrap(), vec![Token::Literal('-')]);
}

#[test]
fn lex_empty_text_has_no_tokens() {
    assert_eq!(lex(""), Ok(vec![]));
}

#[test]
fn lex_every_operator() {
    assert_eq!(
        lex("*+?.-|()[]"),
        Ok(vec![
            Token::Star,
            Token::Plus,
            Token::Question,
            Token::Dot,
            Token::Hyphen,
            Token::Pipe,
            Token::LeftParen,
            Token::RightParen,
            Token::LeftBracket,
            Token::RightBracket,
        ])
    );
}

#[test]
fn lex_digits_are_literals() {
    assert_eq!(
        lex("09"),
        Ok(vec![Token::Literal('0'), Token::Literal('9')])
    );
}

#[test]
fn lex_names_the_first_invalid_character() {
    assert_eq!(lex("a#b!"), Err("Invalid character: #".to_string()));
    assert_eq!(lex("_"), Err("Invalid character: _".to_string()));
    assert_eq!(lex("\u{e9}"), Err("Invalid character: \u{e9}".to_string()));
}

#[test]
fn lex_skips_white_space_of_every_kind() {
    assert_eq!(
        lex("\ta\n\u{3000}b\r "),
        Ok(vec![Token::Literal('a'), Token::Literal('b')])
    );
}

#[test]
fn lex_escape_takes_any_character() {
    assert_eq!(lex("\\#"), Ok(vec![Token::Literal('#')]));
    assert_eq!(lex("\\\\"), Ok(vec![Token::Literal('\\')]));
    assert_eq!(lex("\\ "), Ok(vec![Token::Literal(' ')]));
    assert_eq!(
        lex("\\*a"),
        Ok(vec![Token::Literal('*'), Token::Literal('a')])
    );
}

#[test]
fn try_lex_tells_a_dangling_escape() {
    assert_eq!(try_lex("a\\"), None);
    assert_eq!(try_lex("\\"), None);
    assert_eq!(try_lex("\\\\\\"), None);
}

#[test]
fn try_lex_is_lex_elsewhere() {
    assert_eq!(try_lex("a|b"), Some(lex("a|b")));
    assert_eq!(
        try_lex("a$"),
        Some(Err("Invalid character: $".to_string()))
    );
    // The invalid character comes first: the backslash is never reached.
    assert_eq!(
        try_lex("$\\"),
        Some(Err("Invalid character: $".to_string()))
    );
}

#[test]
fn scan_text_gives_the_three_outcomes() {
    assert!(matches!(scan_text("ab"), Scanned::Tokens(t) if t == vec![Token::Literal('a'), Token::Literal('b')]));
    assert!(matches!(scan_text("a%"), Scanned::Invalid('%')));
    assert!(matches!(scan_text("a\\"), Scanned::Unfinished));
}
