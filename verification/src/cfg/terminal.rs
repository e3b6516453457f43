//! Terminals of context-free grammars: input symbols. A grammar has no
//! epsilon terminal; the names of epsilon stand for the empty body.
use crate::input_symbol::{InputSymbol, EPSILON_SYMBOLS};
use vstd::prelude::*;

verus! {

/// A terminal of a grammar.
pub type Terminal = InputSymbol;

/// The names that stand for the empty word in grammar texts.
pub const TERMINAL_EPSILON_SYMBOLS: [&'static str; 5] = EPSILON_SYMBOLS;

} // verus!
