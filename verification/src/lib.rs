//! A verified dice-notation engine.
//!
//! The engine parses expressions such as `"2d6"` or `"d20"` into a
//! [`expr::DiceExpression`], rolls the requested dice with a thread-local
//! random generator, and renders the outcome as text. Parsing, rolling and
//! formatting each carry full contracts: the parser's result is pinned by
//! [`expr::spec_parse`], every roll is proved to lie in `[1, sides]`, and the
//! rendered text is proved equal to its specification character by character.

pub mod expr;
pub mod format;
pub mod rng;
pub mod roll;
