//! A small regular-expression engine: patterns over lowercase letters are
//! compiled into a nondeterministic automaton, which answers membership
//! queries by simulating sets of active states.
pub mod state_machine;
pub mod vregex;
