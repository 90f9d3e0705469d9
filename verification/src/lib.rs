//! Exhaustive search for a wiring of a fixed catalog of logic gates that
//! realizes a target boolean function.
//!
//! The crate has two verified subsystems: a connection-set enumerator that
//! backtracks over all legal wirings while pruning combinational feedback,
//! and a circuit evaluator that propagates values through a wiring to a
//! fixpoint, firing each gate at most once.

pub mod cycle;
pub mod endpoint;
pub mod enumerate;
pub mod eval;
pub mod gate;
pub mod laws;
pub mod search;
pub mod wiring;

pub use cycle::{contains_infinite_loop, contains_infinite_loop_rec};
pub use endpoint::ConnectionIndex;
pub use enumerate::{
    gen_all_connection_sets, gen_remaining_connection_sets, generate_all_connection_indices,
    Connectables,
};
pub use eval::Circuit;
pub use gate::Gate;
pub use laws::{lemma_evaluator_deterministic, lemma_fire_once_bound, lemma_unset_outputs};
pub use search::{
    find_matching_circuit, gen_inputs, lemma_produced_wiring_evaluable, test_circuit,
    xor_desired_truth_table,
};
pub use wiring::Connections;
