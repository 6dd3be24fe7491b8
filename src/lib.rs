//! Reader for a small S-expression notation: text is split into tokens, and
//! the tokens are parsed into an expression tree.

pub mod lexer;
pub mod parser;
