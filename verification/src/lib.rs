//! A lexical scanner for a small scripting language.
//!
//! The scanner turns source text into an ordered list of classified tokens
//! that ends in an end-of-input token. What it produces is defined by the
//! spec functions of [`grammar`]; the executable code in [`scanner`] is proved
//! to compute exactly that.

pub mod decimal;
pub mod diagnostic;
pub mod grammar;
pub mod laws;
pub mod layout;
pub mod scanner;
pub mod text;
pub mod token;
