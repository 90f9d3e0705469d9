use vstd::prelude::*;

verus! {

/// One wire terminus in a circuit: a primary input or output of the whole
/// circuit, or one pin of a gate.
///
/// The four variants partition endpoints into two disjoint roles: sources
/// (primary inputs and gate output pins), which drive a value onto a wire,
/// and destinations (primary outputs and gate input pins), which each
/// receive the value of exactly one source.
#[derive(Clone, Copy, Debug, PartialEq, Eq, Structural)]
pub enum ConnectionIndex {
    Input(usize),
    Output(usize),
    GateInput { gate_index: usize, io_index: usize },
    GateOutput { gate_index: usize, io_index: usize },
}

impl ConnectionIndex {
    /// An endpoint that may drive a value: a primary input or a gate output pin.
    pub open spec fn is_source(self) -> bool {
        match self {
            ConnectionIndex::Input(_) => true,
            ConnectionIndex::GateOutput { .. } => true,
            ConnectionIndex::Output(_) => false,
            ConnectionIndex::GateInput { .. } => false,
        }
    }

    /// An endpoint that must receive a value: a primary output or a gate input pin.
    pub open spec fn is_destination(self) -> bool {
        match self {
            ConnectionIndex::Output(_) => true,
            ConnectionIndex::GateInput { .. } => true,
            ConnectionIndex::Input(_) => false,
            ConnectionIndex::GateOutput { .. } => false,
        }
    }
}

} // verus!
