//! Lexical front end of a small Lisp-family language with significant
//! indentation: a character-level tokenizer and a layout transformer that
//! rewrites indentation into explicit, balanced delimiters.
pub mod blank_lines;
pub mod cursor;
pub mod indent;
pub mod layout;
pub mod lexer;
pub mod literal;
pub mod token;

pub use indent::{dedent_level, get_indent_level};
pub use layout::{new_lexer_no_indent, LexerNoIndent};
pub use lexer::{new_lexer, Lexer};
pub use token::{LexItem, LexerError, LexerErrorType, Loc, Token, TokenType};
