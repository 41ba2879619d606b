//! Exact discrete probability distributions of dice formulas.
//!
//! A formula string such as `"2d6+4"` or `"max(d6,d6)-min(d6,d6)"` is parsed
//! into a [`DiceBuilder`] expression tree, and `build()` evaluates the tree
//! into a [`Dice`]: the exact probability mass function of the formula,
//! together with its mean, variance, median, mode and cumulative
//! distribution.  Probabilities are exact rationals with unbounded
//! numerators and denominators, never floating point.

pub mod dice;
pub mod dice_builder;
pub mod dice_string_parser;
pub mod engine;
pub mod pmf;
pub mod prob;
pub mod rat;

pub use dice::{Dice, ProbAll};
pub use dice_builder::{DiceBuilder, Value};
pub use dice_string_parser::{clean_string, global_scope_contains_operator, graph_seq_to_factor,
    input_symbols_to_graph_seq, partition_input_symbols_bracket_aware, string_to_factor,
    string_to_input_symbols, vec_without_last_and_first, AtomicInputSymbol, ClosingInputSymbol,
    DiceBuildingError, GraphSeq, InputSymbol, OpeningInputSymbol, OperatorInputSymbol,
    SeparatorInputSymbol};
pub use prob::Prob;
pub use rat::Rat;
