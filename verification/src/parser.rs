//! The syntax tree of a pattern, and the recursive-descent parser that
//! builds it from tokens.
//!
//! The grammar, loosest binding first: an expression is terms separated by
//! `|`; a term is a run of factors; a factor is a literal, `.`, a group in
//! parentheses or a character class in brackets, with at most one of `*`,
//! `+` and `?` behind it.
use crate::lexer::Token;
use vstd::prelude::*;

verus! {

/// A node of the syntax tree.
#[derive(Debug, PartialEq, Eq)]
pub enum Node {
    /// One occurrence of this character.
    Literal(char),
    /// Any one character.
    AnyChar,
    /// Any one of these characters.
    CharClass(Vec<char>),
    /// One of the two patterns.
    Union(Box<Node>, Box<Node>),
    /// The pattern any number of times.
    ZeroOrMore(Box<Node>),
    /// The pattern once or more.
    OneOrMore(Box<Node>),
    /// The pattern once or not at all.
    ZeroOrOne(Box<Node>),
    /// The pattern itself; a group only scopes.
    Group(Box<Node>),
    /// The patterns one after the other.
    Concat(Vec<Node>),
}

/// The syntax tree as a mathematical value: the model of `Node`.
pub enum Ast {
    Literal(char),
    AnyChar,
    CharClass(Seq<char>),
    Union(Box<Ast>, Box<Ast>),
    ZeroOrMore(Box<Ast>),
    OneOrMore(Box<Ast>),
    ZeroOrOne(Box<Ast>),
    Group(Box<Ast>),
    Concat(Seq<Ast>),
}

/// The model of a node.
pub open spec fn ast_of(node: Node) -> Ast
    decreases node,
{
    match node {
        Node::Literal(c) => Ast::Literal(c),
        Node::AnyChar => Ast::AnyChar,
        Node::CharClass(chars) => Ast::CharClass(chars@),
        Node::Union(left, right) => Ast::Union(Box::new(ast_of(*left)), Box::new(ast_of(*right))),
        Node::ZeroOrMore(inner) => Ast::ZeroOrMore(Box::new(ast_of(*inner))),
        Node::OneOrMore(inner) => Ast::OneOrMore(Box::new(ast_of(*inner))),
        Node::ZeroOrOne(inner) => Ast::ZeroOrOne(Box::new(ast_of(*inner))),
        Node::Group(inner) => Ast::Group(Box::new(ast_of(*inner))),
        Node::Concat(nodes) => Ast::Concat(asts_of(nodes@)),
    }
}

/// The models of a sequence of nodes.
pub open spec fn asts_of(nodes: Seq<Node>) -> Seq<Ast>
    decreases nodes,
{
    Seq::new(
        nodes.len(),
        |i: int|
            if 0 <= i < nodes.len() {
                ast_of(nodes[i])
            } else {
                Ast::AnyChar
            },
    )
}

impl View for Node {
    type V = Ast;

    open spec fn view(&self) -> Ast {
        ast_of(*self)
    }
}

/// Why tokens could not be parsed.
#[derive(Clone, Copy, Debug, PartialEq, Eq, Structural)]
pub enum ParseError {
    /// A token stands where none of its kind can.
    UnexpectedToken(Token),
    /// A `(` has no `)`.
    UnclosedGroup,
    /// A character class starts with `-`.
    HyphenAtStart,
    /// A range in a character class has no end, runs backwards, or is
    /// followed by another `-`.
    InvalidCharClass,
}

/// What a parsing function comes to: the tree and the position behind the
/// tokens that it took, or the error.
pub type Parsed = Result<(Ast, nat), ParseError>;

/// Whether `x` is a Unicode scalar value.
pub open spec fn is_scalar(x: int) -> bool {
    0 <= x <= 0xD7FF || 0xE000 <= x <= 0x10FFFF
}

/// The characters whose code lies between `lo` and `hi`, both included, in
/// rising order.
pub open spec fn scalars(lo: int, hi: int) -> Seq<char>
    decreases hi - lo + 1,
{
    if lo > hi {
        Seq::empty()
    } else if is_scalar(lo) {
        seq![lo as char] + scalars(lo + 1, hi)
    } else {
        scalars(lo + 1, hi)
    }
}

/// The characters from `first` to `last`, both included, in rising order.
pub open spec fn char_range(first: char, last: char) -> Seq<char> {
    scalars(first as int, last as int)
}

/// The factor `node`, with the repetition operator at `pos` applied to it
/// if there is one.
pub open spec fn repetition_at(tokens: Seq<Token>, pos: nat, node: Ast) -> (Ast, nat) {
    if pos < tokens.len() {
        match tokens[pos as int] {
            Token::Star => (Ast::ZeroOrMore(Box::new(node)), pos + 1),
            Token::Plus => (Ast::OneOrMore(Box::new(node)), pos + 1),
            Token::Question => (Ast::ZeroOrOne(Box::new(node)), pos + 1),
            _ => (node, pos),
        }
    } else {
        (node, pos)
    }
}

/// The term made of the factors `items`: a single factor stands for
/// itself, any other number of them is a sequence.
pub open spec fn term_of(items: Seq<Ast>) -> Ast {
    if items.len() == 1 {
        items[0]
    } else {
        Ast::Concat(items)
    }
}

/// The rest of a character class from `pos` on, behind the characters
/// `chars`.
///
/// A literal adds its character. A `-` behind a character and before a
/// literal replaces that character by the range from it to the literal's; a
/// `-` before any other token leaves the characters as they are and skips
/// that token. A `]` ends the class, and so does the end of the tokens.
pub open spec fn class_at(tokens: Seq<Token>, pos: nat, chars: Seq<char>) -> Parsed
    decreases tokens.len() - pos, 0nat,
{
    if pos >= tokens.len() {
        Ok((Ast::CharClass(chars), pos))
    } else {
        match tokens[pos as int] {
            Token::Literal(c) => class_at(tokens, pos + 1, chars.push(c)),
            Token::Hyphen => {
                if chars.len() == 0 {
                    Err(ParseError::HyphenAtStart)
                } else if pos + 1 >= tokens.len() {
                    Err(ParseError::InvalidCharClass)
                } else {
                    let widened: Result<Seq<char>, ParseError> = match tokens[(pos + 1) as int] {
                        Token::Literal(last) => {
                            if chars.last() > last {
                                Err(ParseError::InvalidCharClass)
                            } else {
                                Ok(chars.drop_last() + char_range(chars.last(), last))
                            }
                        },
                        _ => Ok(chars),
                    };
                    match widened {
                        Err(e) => Err(e),
                        Ok(wider) => {
                            if pos + 2 < tokens.len() && tokens[(pos + 2) as int] == Token::Hyphen {
                                Err(ParseError::InvalidCharClass)
                            } else {
                                class_at(tokens, pos + 2, wider)
                            }
                        },
                    }
                }
            },
            Token::RightBracket => Ok((Ast::CharClass(chars), pos + 1)),
            other => Err(ParseError::UnexpectedToken(other)),
        }
    }
}

/// The factor that starts at `pos`.
pub open spec fn factor_at(tokens: Seq<Token>, pos: nat) -> Parsed
    recommends
        pos < tokens.len(),
    decreases tokens.len() - pos, 0nat,
{
    if pos >= tokens.len() {
        Err(ParseError::UnclosedGroup)
    } else {
        let plain: Parsed = match tokens[pos as int] {
            Token::Literal(c) => Ok((Ast::Literal(c), pos + 1)),
            Token::Dot => Ok((Ast::AnyChar, pos + 1)),
            Token::LeftParen => match expr_at(tokens, pos + 1) {
                Err(e) => Err(e),
                Ok((inner, end)) => {
                    if end < tokens.len() && tokens[end as int] == Token::RightParen {
                        Ok((Ast::Group(Box::new(inner)), end + 1))
                    } else {
                        Err(ParseError::UnclosedGroup)
                    }
                },
            },
            Token::LeftBracket => class_at(tokens, pos + 1, Seq::empty()),
            other => Err(ParseError::UnexpectedToken(other)),
        };
        match plain {
            Err(e) => Err(e),
            Ok((node, end)) => Ok(repetition_at(tokens, end, node)),
        }
    }
}

/// The rest of a term from `pos` on, behind the factors `items`.
///
/// A token that a factor can start with adds a factor; `|`, `)` and the
/// end of the tokens end the term; any other token is unexpected.
pub open spec fn items_at(tokens: Seq<Token>, pos: nat, items: Seq<Ast>) -> Parsed
    decreases tokens.len() - pos, 1nat,
{
    if pos >= tokens.len() {
        Ok((term_of(items), pos))
    } else {
        match tokens[pos as int] {
            Token::Literal(_) | Token::Dot | Token::LeftParen | Token::LeftBracket => match factor_at(
                tokens,
                pos,
            ) {
                Err(e) => Err(e),
                Ok((node, end)) => {
                    if pos < end <= tokens.len() {
                        items_at(tokens, end, items.push(node))
                    } else {
                        // Not reached: a factor takes at least one token,
                        // and no more than there are.
                        Ok((term_of(items), pos))
                    }
                },
            },
            Token::Pipe | Token::RightParen => Ok((term_of(items), pos)),
            other => Err(ParseError::UnexpectedToken(other)),
        }
    }
}

/// The term that starts at `pos`.
pub open spec fn term_at(tokens: Seq<Token>, pos: nat) -> Parsed {
    items_at(tokens, pos, Seq::empty())
}

/// The rest of an expression from `pos` on, behind the alternatives that
/// make up `left`: each `|` adds the term behind it as a further
/// alternative, to the right of all before it.
pub open spec fn unions_at(tokens: Seq<Token>, pos: nat, left: Ast) -> Parsed
    decreases tokens.len() - pos, 0nat,
{
    if pos < tokens.len() && tokens[pos as int] == Token::Pipe {
        match items_at(tokens, pos + 1, Seq::empty()) {
            Err(e) => Err(e),
            Ok((right, end)) => {
                if pos < end <= tokens.len() {
                    unions_at(tokens, end, Ast::Union(Box::new(left), Box::new(right)))
                } else {
                    // Not reached: a term ends behind the `|` before it,
                    // and within the tokens.
                    Ok((left, pos))
                }
            },
        }
    } else {
        Ok((left, pos))
    }
}

/// The expression that starts at `pos`.
pub open spec fn expr_at(tokens: Seq<Token>, pos: nat) -> Parsed
    decreases tokens.len() - pos, 2nat,
{
    match items_at(tokens, pos, Seq::empty()) {
        Err(e) => Err(e),
        Ok((left, end)) => {
            if pos <= end <= tokens.len() {
                unions_at(tokens, end, left)
            } else {
                // Not reached: a term ends where it starts or behind,
                // and within the tokens.
                Ok((left, pos))
            }
        },
    }
}

/// The tree of the expression that the tokens start with. Tokens behind
/// that expression are not looked at.
pub open spec fn parse_spec(tokens: Seq<Token>) -> Result<Ast, ParseError> {
    match expr_at(tokens, 0) {
        Ok((ast, _)) => Ok(ast),
        Err(e) => Err(e),
    }
}

/// The text that the standard library's `Debug` formatting gives for a
/// character: the character between single quotes, escaped where it needs
/// it.
pub uninterp spec fn char_debug(c: char) -> Seq<char>;

/// `Debug` formatting of a character by the standard library. Nothing is
/// claimed of the text but that it depends on the character alone.
#[verifier::external_body]
fn debug_char(c: char) -> (s: String)
    ensures
        s@ == char_debug(c),
{
    format!("{:?}", c)
}

/// `char::from_u32` of the standard library gives the character with the
/// given code, where the code is a Unicode scalar value, and nothing
/// otherwise.
pub assume_specification[ char::from_u32 ](i: u32) -> (r: Option<char>)
    ensures
        r == if is_scalar(i as int) {
            Some(i as char)
        } else {
            None::<char>
        },
;

/// The name of a token, with its character where it is a literal.
pub open spec fn token_text(token: Token) -> Seq<char> {
    match token {
        Token::Literal(c) => "Literal("@ + char_debug(c) + ")"@,
        Token::Star => "Star"@,
        Token::Plus => "Plus"@,
        Token::Question => "Question"@,
        Token::Dot => "Dot"@,
        Token::Hyphen => "Hyphen"@,
        Token::Pipe => "Pipe"@,
        Token::LeftParen => "LeftParen"@,
        Token::RightParen => "RightParen"@,
        Token::LeftBracket => "LeftBracket"@,
        Token::RightBracket => "RightBracket"@,
    }
}

/// Writes `token_text`.
fn token_name(token: Token) -> (s: String)
    ensures
        s@ == token_text(token),
{
    match token {
        Token::Literal(c) => {
            let mut s = String::from_str("Literal(");
            let quoted = debug_char(c);
            s.append(quoted.as_str());
            s.append(")");
            s
        },
        Token::Star => String::from_str("Star"),
        Token::Plus => String::from_str("Plus"),
        Token::Question => String::from_str("Question"),
        Token::Dot => String::from_str("Dot"),
        Token::Hyphen => String::from_str("Hyphen"),
        Token::Pipe => String::from_str("Pipe"),
        Token::LeftParen => String::from_str("LeftParen"),
        Token::RightParen => String::from_str("RightParen"),
        Token::LeftBracket => String::from_str("LeftBracket"),
        Token::RightBracket => String::from_str("RightBracket"),
    }
}

impl ParseError {
    /// The error in words.
    pub open spec fn text(self) -> Seq<char> {
        match self {
            ParseError::UnexpectedToken(token) => "Unexpected token: "@ + token_text(token),
            ParseError::UnclosedGroup => "Unclosed group"@,
            ParseError::HyphenAtStart => "Hyphen at the beginning of char class"@,
            ParseError::InvalidCharClass => "invalid char class"@,
        }
    }

    /// Writes `text`.
    pub fn message(&self) -> (s: String)
        ensures
            s@ == self.text(),
    {
        match self {
            ParseError::UnexpectedToken(token) => {
                let mut s = String::from_str("Unexpected token: ");
                let name = token_name(*token);
                s.append(name.as_str());
                s
            },
            ParseError::UnclosedGroup => String::from_str("Unclosed group"),
            ParseError::HyphenAtStart => String::from_str("Hyphen at the beginning of char class"),
            ParseError::InvalidCharClass => String::from_str("invalid char class"),
        }
    }
}

/// The result `r` of a parsing function is what `expected` says.
pub open spec fn agrees(r: Result<(Node, usize), ParseError>, expected: Parsed) -> bool {
    match r {
        Ok((node, end)) => expected == Ok::<(Ast, nat), ParseError>((node@, end as nat)),
        Err(e) => expected == Err::<(Ast, nat), ParseError>(e),
    }
}

proof fn lemma_asts_of_push(nodes: Seq<Node>, node: Node)
    ensures
        asts_of(nodes.push(node)) == asts_of(nodes).push(node@),
{
    assert(asts_of(nodes.push(node)) =~= asts_of(nodes).push(node@));
}

proof fn lemma_scalars_step(lo: int, hi: int, done: Seq<char>)
    requires
        lo <= hi,
    ensures
        is_scalar(lo) ==> done + scalars(lo, hi) == done.push(lo as char) + scalars(lo + 1, hi),
        !is_scalar(lo) ==> scalars(lo, hi) == scalars(lo + 1, hi),
{
    if is_scalar(lo) {
        assert(done + (seq![lo as char] + scalars(lo + 1, hi)) =~= done.push(lo as char) + scalars(
            lo + 1,
            hi,
        ));
    }
}

/// Appends the characters from `first` to `last` to `chars`.
fn push_range(chars: &mut Vec<char>, first: char, last: char)
    requires
        first <= last,
    ensures
        final(chars)@ == old(chars)@ + char_range(first, last),
{
    let hi: u32 = last as u32;
    let mut x: u32 = first as u32;
    while x <= hi
        invariant
            hi == last as u32,
            hi <= 0x10FFFF,
            first as u32 <= x <= hi + 1,
            chars@ + scalars(x as int, hi as int) == old(chars)@ + char_range(first, last),
        decreases hi + 1 - x,
    {
        proof {
            lemma_scalars_step(x as int, hi as int, chars@);
        }
        match char::from_u32(x) {
            Some(c) => {
                chars.push(c);
            },
            None => {},
        }
        x += 1;
    }
    proof {
        assert(chars@ + Seq::<char>::empty() =~= chars@);
    }
}

/// Parses the rest of a character class, behind its `[`.
fn parse_char_class(tokens: &Vec<Token>, pos: usize) -> (r: Result<(Node, usize), ParseError>)
    requires
        pos <= tokens@.len(),
    ensures
        agrees(r, class_at(tokens@, pos as nat, Seq::empty())),
        r matches Ok((_, end)) ==> pos <= end <= tokens@.len(),
{
    let mut chars: Vec<char> = Vec::new();
    let mut i: usize = pos;
    while i < tokens.len()
        invariant
            pos <= i <= tokens@.len(),
            class_at(tokens@, i as nat, chars@) == class_at(tokens@, pos as nat, Seq::empty()),
        decreases tokens@.len() - i,
    {
        let token = tokens[i];
        match token {
            Token::Literal(c) => {
                chars.push(c);
                i += 1;
            },
            Token::Hyphen => {
                if chars.len() == 0 {
                    return Err(ParseError::HyphenAtStart);
                }
                if i + 1 >= tokens.len() {
                    return Err(ParseError::InvalidCharClass);
                }
                match tokens[i + 1] {
                    Token::Literal(last) => {
                        let first: char = chars[chars.len() - 1];
                        if first > last {
                            return Err(ParseError::InvalidCharClass);
                        }
                        chars.pop();
                        push_range(&mut chars, first, last);
                    },
                    _ => {},
                }
                if i + 2 < tokens.len() {
                    match tokens[i + 2] {
                        Token::Hyphen => {
                            return Err(ParseError::InvalidCharClass);
                        },
                        _ => {},
                    }
                }
                i += 2;
            },
            Token::RightBracket => {
                return Ok((Node::CharClass(chars), i + 1));
            },
            other => {
                return Err(ParseError::UnexpectedToken(other));
            },
        }
    }
    Ok((Node::CharClass(chars), i))
}

/// Applies the repetition operator at `pos`, if there is one, to `node`.
fn parse_repetition(tokens: &Vec<Token>, pos: usize, node: Node) -> (r: (Node, usize))
    requires
        pos <= tokens@.len(),
    ensures
        (r.0@, r.1 as nat) == repetition_at(tokens@, pos as nat, node@),
        pos <= r.1 <= tokens@.len(),
{
    if pos < tokens.len() {
        match tokens[pos] {
            Token::Star => (Node::ZeroOrMore(Box::new(node)), pos + 1),
            Token::Plus => (Node::OneOrMore(Box::new(node)), pos + 1),
            Token::Question => (Node::ZeroOrOne(Box::new(node)), pos + 1),
            _ => (node, pos),
        }
    } else {
        (node, pos)
    }
}

/// Parses the factor that starts at `pos`.
fn parse_factor(tokens: &Vec<Token>, pos: usize) -> (r: Result<(Node, usize), ParseError>)
    requires
        pos < tokens@.len(),
    ensures
        agrees(r, factor_at(tokens@, pos as nat)),
        r matches Ok((_, end)) ==> pos < end <= tokens@.len(),
    decreases tokens@.len() - pos, 0nat,
{
    let count: usize = tokens.len();
    let token = tokens[pos];
    let plain: Result<(Node, usize), ParseError> = match token {
        Token::Literal(c) => Ok((Node::Literal(c), pos + 1)),
        Token::Dot => Ok((Node::AnyChar, pos + 1)),
        Token::LeftParen => {
            match parse_expr(tokens, pos + 1) {
                Err(e) => Err(e),
                Ok((expr, end)) => {
                    let closed: bool = if end < tokens.len() {
                        match tokens[end] {
                            Token::RightParen => true,
                            _ => false,
                        }
                    } else {
                        false
                    };
                    if closed {
                        Ok((Node::Group(Box::new(expr)), end + 1))
                    } else {
                        Err(ParseError::UnclosedGroup)
                    }
                },
            }
        },
        Token::LeftBracket => parse_char_class(tokens, pos + 1),
        other => Err(ParseError::UnexpectedToken(other)),
    };
    match plain {
        Err(e) => Err(e),
        Ok((node, end)) => Ok(parse_repetition(tokens, end, node)),
    }
}

/// The term made of the given factors.
fn finish_term(nodes: Vec<Node>) -> (node: Node)
    ensures
        node@ == term_of(asts_of(nodes@)),
{
    let mut nodes = nodes;
    if nodes.len() == 1 {
        match nodes.pop() {
            Some(node) => node,
            None => Node::Concat(nodes),
        }
    } else {
        Node::Concat(nodes)
    }
}

/// Parses the term that starts at `pos`.
fn parse_term(tokens: &Vec<Token>, pos: usize) -> (r: Result<(Node, usize), ParseError>)
    requires
        pos <= tokens@.len(),
    ensures
        agrees(r, term_at(tokens@, pos as nat)),
        r matches Ok((_, end)) ==> pos <= end <= tokens@.len(),
    decreases tokens@.len() - pos, 1nat,
{
    let mut nodes: Vec<Node> = Vec::new();
    let mut i: usize = pos;
    proof {
        assert(asts_of(nodes@) =~= Seq::<Ast>::empty());
    }
    while i < tokens.len()
        invariant
            pos <= i <= tokens@.len(),
            items_at(tokens@, i as nat, asts_of(nodes@)) == term_at(tokens@, pos as nat),
        decreases tokens@.len() - i,
    {
        let token = tokens[i];
        match token {
            Token::Literal(_) | Token::Dot | Token::LeftParen | Token::LeftBracket => {
                match parse_factor(tokens, i) {
                    Err(e) => {
                        return Err(e);
                    },
                    Ok((node, end)) => {
                        proof {
                            lemma_asts_of_push(nodes@, node);
                        }
                        nodes.push(node);
                        i = end;
                    },
                }
            },
            Token::Pipe | Token::RightParen => {
                return Ok((finish_term(nodes), i));
            },
            other => {
                return Err(ParseError::UnexpectedToken(other));
            },
        }
    }
    Ok((finish_term(nodes), i))
}

/// Parses the expression that starts at `pos`.
fn parse_expr(tokens: &Vec<Token>, pos: usize) -> (r: Result<(Node, usize), ParseError>)
    requires
        pos <= tokens@.len(),
    ensures
        agrees(r, expr_at(tokens@, pos as nat)),
        r matches Ok((_, end)) ==> pos <= end <= tokens@.len(),
    decreases tokens@.len() - pos, 2nat,
{
    let (mut left, mut i) = match parse_term(tokens, pos) {
        Err(e) => {
            return Err(e);
        },
        Ok(term) => term,
    };
    while i < tokens.len()
        invariant
            pos <= i <= tokens@.len(),
            unions_at(tokens@, i as nat, left@) == expr_at(tokens@, pos as nat),
        decreases tokens@.len() - i,
    {
        match tokens[i] {
            Token::Pipe => {
                match parse_term(tokens, i + 1) {
                    Err(e) => {
                        return Err(e);
                    },
                    Ok((right, end)) => {
                        left = Node::Union(Box::new(left), Box::new(right));
                        i = end;
                    },
                }
            },
            _ => {
                return Ok((left, i));
            },
        }
    }
    Ok((left, i))
}

/// Parses the expression that the tokens start with. Tokens behind that
/// expression are not looked at.
pub fn parse_tokens(tokens: &Vec<Token>) -> (r: Result<Node, ParseError>)
    ensures
        match r {
            Ok(node) => parse_spec(tokens@) == Ok::<Ast, ParseError>(node@),
            Err(e) => parse_spec(tokens@) == Err::<Ast, ParseError>(e),
        },
{
    match parse_expr(tokens, 0) {
        Ok((node, _)) => Ok(node),
        Err(e) => Err(e),
    }
}

/// Parses the expression that the tokens start with, and words the error
/// where there is one.
pub fn parse(tokens: Vec<Token>) -> (r: Result<Node, String>)
    ensures
        match parse_spec(tokens@) {
            Ok(ast) => r matches Ok(node) && node@ == ast,
            Err(e) => r matches Err(message) && message@ == e.text(),
        },
{
    match parse_tokens(&tokens) {
        Ok(node) => Ok(node),
        Err(e) => Err(e.message()),
    }
}

} // verus!
