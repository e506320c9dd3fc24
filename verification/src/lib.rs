//! Integer expression evaluation: tokenizing text, reordering infix tokens
//! into postfix form, rendering tokens back to text, and evaluating a flat
//! prefix-ordered symbol sequence.

pub mod eval;
pub mod evaluator;
pub mod numeral;
pub mod pipeline;
pub mod postfix;
pub mod symbols;
mod text;
pub mod tokenizer;
