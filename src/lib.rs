pub mod canon;
pub mod dfa;
pub mod display;
pub mod laws;
pub mod nfa;
pub mod production;
pub mod regex;

pub use dfa::{DfaTransition, DFA};
pub use display::EdgeType;
pub use nfa::{Symbol, Transition, NFA};
pub use production::{Letter, NonTerminal, Production, Terminal};
pub use regex::ReOperator;
