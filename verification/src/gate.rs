use vstd::prelude::*;

verus! {

/// A gate kind from the catalog.
///
/// A gate descriptor is an immutable value with an input arity, an output
/// arity, a pure transformation from input values to output values, an
/// enable predicate over its inputs (always true by default), and a flag
/// that moves its output pins into the switch-like source pool.
///
/// `Not` is an inverter: one input, one output, always enabled.
/// `BitSwitch` is a gated pass-through: two inputs, one output; it passes
/// its second input through, but only when its first input is true.
#[derive(Clone, Copy, Debug, PartialEq, Eq, Structural)]
pub enum Gate {
    Not,
    BitSwitch,
}

impl Gate {
    /// How many input pins this gate kind has.
    pub open spec fn spec_num_inputs(self) -> nat {
        match self {
            Gate::Not => 1,
            Gate::BitSwitch => 2,
        }
    }

    /// How many output pins this gate kind has.
    pub open spec fn spec_num_outputs(self) -> nat {
        match self {
            Gate::Not => 1,
            Gate::BitSwitch => 1,
        }
    }

    /// Whether this kind's output pins belong to the switch-like source pool.
    pub open spec fn spec_is_switch(self) -> bool {
        match self {
            Gate::Not => false,
            Gate::BitSwitch => true,
        }
    }

    /// The enable predicate: whether a firing produces outputs on these inputs.
    pub open spec fn spec_is_on(self, inputs: Seq<bool>) -> bool {
        match self {
            Gate::Not => true,
            Gate::BitSwitch => inputs[0],
        }
    }

    /// The pure transformation from input values to output values.
    pub open spec fn spec_trigger(self, inputs: Seq<bool>) -> Seq<bool> {
        match self {
            Gate::Not => seq![!inputs[0]],
            Gate::BitSwitch => seq![inputs[1]],
        }
    }

    pub fn num_inputs(&self) -> (n: usize)
        ensures
            n == self.spec_num_inputs(),
    {
        match self {
            Gate::Not => 1,
            Gate::BitSwitch => 2,
        }
    }

    pub fn num_outputs(&self) -> (n: usize)
        ensures
            n == self.spec_num_outputs(),
    {
        match self {
            Gate::Not => 1,
            Gate::BitSwitch => 1,
        }
    }

    pub fn is_switch(&self) -> (r: bool)
        ensures
            r == self.spec_is_switch(),
    {
        match self {
            Gate::Not => false,
            Gate::BitSwitch => true,
        }
    }

    pub fn is_on(&self, inputs: &Vec<bool>) -> (r: bool)
        requires
            inputs@.len() == self.spec_num_inputs(),
        ensures
            r == self.spec_is_on(inputs@),
    {
        match self {
            Gate::Not => true,
            Gate::BitSwitch => inputs[0],
        }
    }

    pub fn trigger(&self, inputs: &Vec<bool>) -> (r: Vec<bool>)
        requires
            inputs@.len() == self.spec_num_inputs(),
        ensures
            r@ == self.spec_trigger(inputs@),
            r@.len() == self.spec_num_outputs(),
    {
        let mut r: Vec<bool> = Vec::new();
        match self {
            Gate::Not => {
                r.push(!inputs[0]);
            }
            Gate::BitSwitch => {
                r.push(inputs[1]);
            }
        }
        proof {
            assert(r@ =~= self.spec_trigger(inputs@));
        }
        r
    }
}

} // verus!
