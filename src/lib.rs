//! A grammar compiler and an explicit-stack backtracking parser.
//!
//! Rules (a name, a sequence of symbols and an optional action) are compiled
//! into a shared-prefix decision forest per nonterminal, and the parser walks
//! that forest over an input with ordered choice, negative lookahead and
//! direct left recursion, keeping all control state on heap stacks.
pub mod result;

pub mod input;

pub mod order;

pub mod rule;

pub mod grammar;

pub mod parse;

pub mod laws;
