//! Turning the text of a pattern into tokens.
use vstd::prelude::*;

verus! {

/// A token of a pattern.
#[derive(Clone, Copy, Debug, PartialEq, Eq, Structural)]
pub enum Token {
    /// A character that stands for itself.
    Literal(char),
    /// `*`
    Star,
    /// `+`
    Plus,
    /// `?`
    Question,
    /// `.`
    Dot,
    /// `-`
    Hyphen,
    /// `|`
    Pipe,
    /// `(`
    LeftParen,
    /// `)`
    RightParen,
    /// `[`
    LeftBracket,
    /// `]`
    RightBracket,
}

/// Whether `c` is white space as `char::is_whitespace` of the standard
/// library tells: whether it has the Unicode property `White_Space`.
pub uninterp spec fn is_whitespace(c: char) -> bool;

/// `char::is_whitespace` of the standard library. Its answer depends on
/// the character alone, and for the blank, the line feed and the no-break
/// space, which its documentation shows, the answer is yes. Nothing else is
/// claimed of it.
pub assume_specification[ char::is_whitespace ](c: char) -> (b: bool)
    ensures
        b == is_whitespace(c),
        c == ' ' || c == '\n' || c == '\u{a0}' ==> b,
;

/// `String::push` of the standard library appends the character to the
/// string.
pub assume_specification[ String::push ](s: &mut String, c: char)
    ensures
        final(s)@ == old(s)@.push(c),
;

/// The token of a character that has a meaning of its own in a pattern.
pub open spec fn operator(c: char) -> Option<Token> {
    if c == '*' {
        Some(Token::Star)
    } else if c == '+' {
        Some(Token::Plus)
    } else if c == '?' {
        Some(Token::Question)
    } else if c == '.' {
        Some(Token::Dot)
    } else if c == '-' {
        Some(Token::Hyphen)
    } else if c == '|' {
        Some(Token::Pipe)
    } else if c == '(' {
        Some(Token::LeftParen)
    } else if c == ')' {
        Some(Token::RightParen)
    } else if c == '[' {
        Some(Token::LeftBracket)
    } else if c == ']' {
        Some(Token::RightBracket)
    } else {
        None
    }
}

/// Whether `c` is an ASCII letter or an ASCII digit.
pub open spec fn is_ascii_alphanumeric(c: char) -> bool {
    ||| 'a' <= c <= 'z'
    ||| 'A' <= c <= 'Z'
    ||| '0' <= c <= '9'
}

/// What scanning a text comes to.
pub enum Scan {
    /// The tokens of the text.
    Tokens(Seq<Token>),
    /// The first character that no token can start with.
    Invalid(char),
    /// The text ends in a backslash that escapes nothing.
    Unfinished,
}

impl Scan {
    /// This outcome behind one more token.
    pub open spec fn after(self, token: Token) -> Scan {
        match self {
            Scan::Tokens(rest) => Scan::Tokens(seq![token] + rest),
            other => other,
        }
    }

    /// This outcome behind the tokens `front`.
    pub open spec fn after_all(self, front: Seq<Token>) -> Scan {
        match self {
            Scan::Tokens(rest) => Scan::Tokens(front + rest),
            other => other,
        }
    }
}

/// The outcome of scanning `input` from position `i` on.
///
/// A backslash makes a literal of the character behind it, whatever that
/// is. The ten operator characters are tokens of their own. ASCII letters
/// and digits are literals, white space is skipped, and any other character
/// is invalid. Scanning stops at the first thing that is wrong.
pub open spec fn scan(input: Seq<char>, i: nat) -> Scan
    decreases input.len() - i,
{
    if i >= input.len() {
        Scan::Tokens(Seq::empty())
    } else {
        let c = input[i as int];
        if c == '\\' {
            if i + 1 >= input.len() {
                Scan::Unfinished
            } else {
                scan(input, i + 2).after(Token::Literal(input[(i + 1) as int]))
            }
        } else if let Some(token) = operator(c) {
            scan(input, i + 1).after(token)
        } else if is_ascii_alphanumeric(c) {
            scan(input, i + 1).after(Token::Literal(c))
        } else if is_whitespace(c) {
            scan(input, i + 1)
        } else {
            Scan::Invalid(c)
        }
    }
}

/// The message for a character that no token can start with.
pub open spec fn invalid_character_message(c: char) -> Seq<char> {
    "Invalid character: "@.push(c)
}

/// The outcome of a scan as a value of the program.
pub enum Scanned {
    Tokens(Vec<Token>),
    Invalid(char),
    Unfinished,
}

impl View for Scanned {
    type V = Scan;

    open spec fn view(&self) -> Scan {
        match self {
            Scanned::Tokens(tokens) => Scan::Tokens(tokens@),
            Scanned::Invalid(c) => Scan::Invalid(*c),
            Scanned::Unfinished => Scan::Unfinished,
        }
    }
}

/// Decides `operator`.
fn operator_token(c: char) -> (r: Option<Token>)
    ensures
        r == operator(c),
{
    if c == '*' {
        Some(Token::Star)
    } else if c == '+' {
        Some(Token::Plus)
    } else if c == '?' {
        Some(Token::Question)
    } else if c == '.' {
        Some(Token::Dot)
    } else if c == '-' {
        Some(Token::Hyphen)
    } else if c == '|' {
        Some(Token::Pipe)
    } else if c == '(' {
        Some(Token::LeftParen)
    } else if c == ')' {
        Some(Token::RightParen)
    } else if c == '[' {
        Some(Token::LeftBracket)
    } else if c == ']' {
        Some(Token::RightBracket)
    } else {
        None
    }
}

/// Decides `is_ascii_alphanumeric`.
fn ascii_alphanumeric(c: char) -> (b: bool)
    ensures
        b == is_ascii_alphanumeric(c),
{
    ('a' <= c && c <= 'z') || ('A' <= c && c <= 'Z') || ('0' <= c && c <= '9')
}

proof fn lemma_after_all_push(rest: Scan, front: Seq<Token>, token: Token)
    ensures
        rest.after(token).after_all(front) == rest.after_all(front.push(token)),
{
    match rest {
        Scan::Tokens(tokens) => {
            assert(front + (seq![token] + tokens) =~= front.push(token) + tokens);
        },
        _ => {},
    }
}

/// Scans all of `input`.
pub fn scan_text(input: &str) -> (r: Scanned)
    ensures
        r@ == scan(input@, 0),
{
    broadcast use vstd::string::group_string_axioms;

    let mut chars: Vec<char> = Vec::new();
    for c in it: input.chars()
        invariant
            it.seq() == input@,
            chars@ == input@.take(it.index() as int),
    {
        chars.push(c);
        assert(chars@ == input@.take(it.index() + 1));
    }
    assert(chars@ == input@);
    let mut tokens: Vec<Token> = Vec::new();
    let mut i: usize = 0;
    assert(scan(input@, 0).after_all(tokens@) == scan(input@, 0)) by {
        match scan(input@, 0) {
            Scan::Tokens(rest) => {
                assert(tokens@ + rest =~= rest);
            },
            _ => {},
        }
    }
    while i < chars.len()
        invariant
            chars@ == input@,
            i <= chars@.len(),
            scan(input@, i as nat).after_all(tokens@) == scan(input@, 0),
        decreases chars@.len() - i,
    {
        let c: char = chars[i];
        let ghost before = tokens@;
        if c == '\\' {
            if i + 1 >= chars.len() {
                return Scanned::Unfinished;
            }
            let escaped: char = chars[i + 1];
            tokens.push(Token::Literal(escaped));
            proof {
                lemma_after_all_push(scan(input@, (i + 2) as nat), before, Token::Literal(escaped));
            }
            i += 2;
        } else {
            match operator_token(c) {
                Some(token) => {
                    tokens.push(token);
                    proof {
                        lemma_after_all_push(scan(input@, (i + 1) as nat), before, token);
                    }
                },
                None => {
                    if ascii_alphanumeric(c) {
                        tokens.push(Token::Literal(c));
                        proof {
                            lemma_after_all_push(
                                scan(input@, (i + 1) as nat),
                                before,
                                Token::Literal(c),
                            );
                        }
                    } else if !c.is_whitespace() {
                        return Scanned::Invalid(c);
                    }
                },
            }
            i += 1;
        }
    }
    proof {
        assert(tokens@ + Seq::<Token>::empty() =~= tokens@);
    }
    Scanned::Tokens(tokens)
}

/// The tokens of a pattern, or the message that names the first character
/// that no token can start with.
///
/// A text that ends in a backslash that escapes nothing has no tokens and
/// no message: `try_lex` tells such a text apart.
pub fn lex(input: &str) -> (r: Result<Vec<Token>, String>)
    requires
        !(scan(input@, 0) is Unfinished),
    ensures
        match scan(input@, 0) {
            Scan::Tokens(tokens) => r matches Ok(v) && v@ == tokens,
            Scan::Invalid(c) => r matches Err(message) && message@ == invalid_character_message(c),
            Scan::Unfinished => false,
        },
{
    match scan_text(input) {
        Scanned::Tokens(tokens) => Ok(tokens),
        Scanned::Invalid(c) => {
            let mut message = String::from_str("Invalid character: ");
            message.push(c);
            Err(message)
        },
        Scanned::Unfinished => vstd::pervasive::unreached(),
    }
}

/// As `lex`, for any text: `None` where the text ends in a backslash that
/// escapes nothing.
pub fn try_lex(input: &str) -> (r: Option<Result<Vec<Token>, String>>)
    ensures
        match scan(input@, 0) {
            Scan::Tokens(tokens) => r matches Some(Ok(v)) && v@ == tokens,
            Scan::Invalid(c) => r matches Some(Err(message)) && message@
                == invalid_character_message(c),
            Scan::Unfinished => r is None,
        },
{
    match scan_text(input) {
        Scanned::Unfinished => None,
        _ => Some(lex(input)),
    }
}

} // verus!
