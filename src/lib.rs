//! Declarative script runner: a binding table, an expansion engine for
//! argument texts and the state machine that runs a script's commands.
pub mod expand;
pub mod laws;
pub mod script;
