//! A small recursive-descent parsing library: a lexer for identifiers,
//! decimal numbers and parentheses, a lenient builder of nested token trees,
//! and a strict builder of left-associative `+` expressions.

pub mod cursor;
pub mod lexer;
pub mod tree;
pub mod expr;
