//! Front end of a Django-style template language: a structural lexer over
//! `{{ }}`, `{% %}` and `{# #}` constructs, an expression lexer for
//! variable/filter/argument syntax, and a parser that builds filter chains.
//!
//! All positions are byte offsets into the template buffer.

pub mod lex;
pub mod number;
pub mod parse;
pub mod text;
pub mod variable_lex;
