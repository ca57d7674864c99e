//! Conversion of nondeterministic finite automata into deterministic ones by
//! subset construction, and reduction of deterministic automata to their
//! minimal form, with machine-checked contracts.
//!
//! * [`nfa`] and [`dfa`] hold the two kinds of automata, what they accept,
//!   and the reachability primitives on them.
//! * [`converter`] builds the DFA of an NFA; [`subset_form`] says what that
//!   DFA is and proves that it accepts the same words.
//! * [`minimizer`] reduces a DFA; [`minimal_form`] says what the reduced DFA
//!   is and proves that it accepts the same words, that it is the only one,
//!   and that reducing it again changes nothing. [`table_filling`],
//!   [`pair_table`] and [`union_find`] serve the minimizer.
//! * [`api`] validates plain descriptions of automata and runs the
//!   conversions on them.
//! * [`state_set`] holds sets of states in canonical form.
//!
//! A DFA here has a partial transition function: a missing transition means
//! that the word is rejected, and is told apart from a transition that is
//! there.

pub mod api;
pub mod converter;
pub mod dfa;
pub mod minimal_form;
pub mod minimizer;
pub mod nfa;
pub mod pair_table;
pub mod state_set;
pub mod subset_form;
pub mod table_filling;
pub mod union_find;
