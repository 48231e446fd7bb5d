//! Finite automata over abstract state and letter identifiers: deterministic
//! and nondeterministic machines, word acceptance, totalisation with a trap
//! state, subset construction, state merging and minimisation.
//!
//! Every executable function carries a contract over a mathematical model of
//! the automaton (`Dfa`, `Nfa`), and the laws that relate the operations are
//! stated as proof functions next to them.

pub mod complete;
pub mod components;
pub mod dea;
pub mod determinize;
pub mod dfa_model;
pub mod ident;
pub mod merge;
pub mod minimize;
pub mod name;
pub mod naming;
pub mod nea;
pub mod nfa_model;
pub mod parse;

pub use dea::DEA;
pub use dfa_model::Dfa;
pub use ident::Ident;
pub use name::Name;
pub use nea::NEA;
pub use nfa_model::Nfa;
pub use parse::{parse_dea, ParseError};
