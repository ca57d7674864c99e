//! The operations offered to a request-handling layer, on plain descriptions
//! of automata.

pub mod convert;

pub use convert::{convert_nfa_to_dfa, convert_nfa_to_minimized_dfa};
