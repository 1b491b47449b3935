//! Deterministic finite automata: construction, evaluation and minimization.
pub mod automaton;
pub mod builder;
pub mod drawing;
pub mod minimization;
pub mod naming;
pub mod partition;
pub mod state;
