//! The library's operations and types under one path.

pub use crate::eval::{evaluate, try_evaluate};
pub use crate::pipeline::{evaluate_line, render_line, reversed, tokenize_line};
pub use crate::postfix::convert_to_rpn;
pub use crate::tokenizer::{lex, stringify_token, tokenize_string};
pub use crate::symbols::{Error, Operation, Token};
