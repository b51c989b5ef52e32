//! Tokens, positions and lexical errors, with their mathematical models.
use vstd::prelude::*;

verus! {

/// A source position: 1-based line, and the column of the last character
/// consumed on that line (0 right after a newline).
#[derive(Debug, Clone, Copy, PartialEq, Eq, Structural)]
pub struct Loc {
    pub line: usize,
    pub col: usize,
}

/// The kind of a lexical unit. A float literal keeps its source text; the
/// consumer converts it to a floating-point value.
#[derive(Debug, PartialEq)]
pub enum TokenType {
    OpenParen,
    CloseParen,
    Identifier(String),
    StringLiteral(String),
    IntLiteral(i64),
    FloatLiteral(String),
    Indent(usize),
    Dedent(usize),
    Operator(String),
    LineEnd,
}

#[derive(Debug, PartialEq)]
pub struct Token {
    pub token_type: TokenType,
    pub loc: Loc,
}

#[derive(Debug, PartialEq)]
pub enum LexerErrorType {
    InvalidIntLiteral(String),
    InvalidFloatLiteral(String),
    /// A layout error: a line indented less than the line before it, to a
    /// depth that no open level starts at. It carries that indentation.
    InconsistentDedent(usize),
    /// A layout error: a string literal that the input ends inside. It
    /// carries the text after the opening quote.
    UnterminatedString(String),
}

#[derive(Debug, PartialEq)]
pub struct LexerError {
    pub error_type: LexerErrorType,
    pub loc: Loc,
}

/// What the lexer yields per call.
pub type LexItem = Result<Token, LexerError>;

/// The mathematical model of a token kind or of a lexical error.
pub enum Lexeme {
    OpenParen,
    CloseParen,
    Identifier(Seq<char>),
    StringLiteral(Seq<char>),
    IntLiteral(int),
    FloatLiteral(Seq<char>),
    Indent(nat),
    Dedent(nat),
    Operator(Seq<char>),
    LineEnd,
    BadInt(Seq<char>),
    BadFloat(Seq<char>),
    BadDedent(nat),
    Unterminated(Seq<char>),
}

pub open spec fn kind_view(k: TokenType) -> Lexeme {
    match k {
        TokenType::OpenParen => Lexeme::OpenParen,
        TokenType::CloseParen => Lexeme::CloseParen,
        TokenType::Identifier(s) => Lexeme::Identifier(s@),
        TokenType::StringLiteral(s) => Lexeme::StringLiteral(s@),
        TokenType::IntLiteral(v) => Lexeme::IntLiteral(v as int),
        TokenType::FloatLiteral(s) => Lexeme::FloatLiteral(s@),
        TokenType::Indent(n) => Lexeme::Indent(n as nat),
        TokenType::Dedent(n) => Lexeme::Dedent(n as nat),
        TokenType::Operator(s) => Lexeme::Operator(s@),
        TokenType::LineEnd => Lexeme::LineEnd,
    }
}

pub open spec fn error_view(k: LexerErrorType) -> Lexeme {
    match k {
        LexerErrorType::InvalidIntLiteral(s) => Lexeme::BadInt(s@),
        LexerErrorType::InvalidFloatLiteral(s) => Lexeme::BadFloat(s@),
        LexerErrorType::InconsistentDedent(n) => Lexeme::BadDedent(n as nat),
        LexerErrorType::UnterminatedString(s) => Lexeme::Unterminated(s@),
    }
}

/// The model of one item of the token stream.
pub open spec fn item_view(r: LexItem) -> Lexeme {
    match r {
        Ok(t) => kind_view(t.token_type),
        Err(e) => error_view(e.error_type),
    }
}

pub open spec fn loc_view(l: Loc) -> (int, int) {
    (l.line as int, l.col as int)
}

pub open spec fn item_loc(r: LexItem) -> Loc {
    match r {
        Ok(t) => t.loc,
        Err(e) => e.loc,
    }
}

/// The position carried by a token or an error.
pub fn loc_of(r: &LexItem) -> (l: Loc)
    ensures
        l == item_loc(*r),
{
    match r {
        Ok(t) => t.loc,
        Err(e) => e.loc,
    }
}

/// Relies on `String`'s `FromIterator<&char>`: the string holds exactly the
/// given characters, in order.
#[verifier::external_body]
pub(crate) fn text_of(cs: &[char]) -> (s: String)
    ensures
        s@ == cs@,
{
    String::from_iter(cs.iter())
}

} // verus!
