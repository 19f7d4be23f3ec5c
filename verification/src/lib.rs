//! Ternary logic circuits: three-valued gates under Kleene and
//! Łukasiewicz semantics, truth tables, circuit evaluation and
//! double-negation elimination.

pub mod circuit;
pub mod logic;
pub mod minimize;
pub mod minimize_laws;
pub mod trit;
pub mod truth_table;

pub use circuit::{GateInput, GateInstance, TernaryCircuit};
pub use logic::{LogicSystem, TernaryGate};
pub use minimize::minimize_circuit;
pub use trit::Trit;
pub use truth_table::truth_table;
