use vstd::prelude::*;

use crate::endpoint::ConnectionIndex;
use crate::eval::{
    fire_gate, first_ready_from, init_state, lemma_count_false_all, lemma_fire_gate_shape,
    lemma_first_ready_unfired, lemma_propagate_extra_fuel, lemma_seed_from_props,
    lemma_write_dests_props, propagate, seed_from, seeded_state, spec_run, st_shape, write_dest,
    write_dests, write_gate_outputs, Circuit, EvalState,
};

verus! {

/// Evaluator determinism: the result of an evaluation is a function of the
/// circuit and the input vector alone, so any two evaluations of the same
/// circuit on the same inputs return identical output vectors.
pub proof fn lemma_evaluator_deterministic(
    c: Circuit,
    inputs: Seq<bool>,
    r1: Seq<Option<bool>>,
    r2: Seq<Option<bool>>,
)
    requires
        r1 == spec_run(c, inputs),
        r2 == spec_run(c, inputs),
    ensures
        r1 == r2,
{
}

/// Fire-once bound: every gate fires at most once, so for a circuit with
/// `G` gates the propagation reaches its fixpoint within `G` firing steps —
/// allowing any larger number of steps changes nothing, whatever the
/// wiring's shape.
pub proof fn lemma_fire_once_bound(c: Circuit, inputs: Seq<bool>, fuel: nat)
    requires
        fuel >= c.gates@.len(),
    ensures
        propagate(c, seeded_state(c, inputs), fuel) == propagate(
            c,
            seeded_state(c, inputs),
            c.gates@.len(),
        ),
{
    lemma_seed_from_props(c.connections@, init_state(c), inputs, 0);
    lemma_count_false_all(init_state(c).fired);
    lemma_propagate_extra_fuel(c, seeded_state(c, inputs), c.gates@.len(), fuel);
}

/// Source endpoint `s` drives destination endpoint `d` in wiring `m`.
pub open spec fn drives(
    m: Map<ConnectionIndex, Seq<ConnectionIndex>>,
    s: ConnectionIndex,
    d: ConnectionIndex,
) -> bool {
    m.contains_key(s) && m[s].contains(d)
}

/// Whether `s` is an output pin of a gate in `strand`.
pub open spec fn strand_output(strand: Set<int>, s: ConnectionIndex) -> bool {
    match s {
        ConnectionIndex::GateOutput { gate_index, .. } => strand.contains(gate_index as int),
        _ => false,
    }
}

/// Input pin `p` of gate `g` receives a value from nowhere outside the
/// strand: whatever drives it is an output pin of a strand gate. A pin
/// that nothing drives at all satisfies this vacuously.
pub open spec fn pin_blocked(
    m: Map<ConnectionIndex, Seq<ConnectionIndex>>,
    strand: Set<int>,
    g: int,
    p: int,
) -> bool {
    forall|s: ConnectionIndex|
        #[trigger] drives(m, s, ConnectionIndex::GateInput { gate_index: g as usize, io_index: p as usize })
            ==> strand_output(strand, s)
}

/// Primary output `o` receives a value from nowhere outside the strand.
pub open spec fn out_blocked(
    m: Map<ConnectionIndex, Seq<ConnectionIndex>>,
    strand: Set<int>,
    o: int,
) -> bool {
    forall|s: ConnectionIndex|
        #[trigger] drives(m, s, ConnectionIndex::Output(o as usize)) ==> strand_output(strand, s)
}

/// Every gate of the strand is a gate of the circuit and has a blocked
/// input pin: the set is closed in the sense that each member depends on an
/// unassigned pin or on another member.
pub open spec fn strand_ok(c: Circuit, strand: Set<int>) -> bool {
    forall|g: int|
        #[trigger] strand.contains(g) ==> 0 <= g < c.gates@.len() && exists|p: int|
            0 <= p < c.gates@[g].spec_num_inputs() && #[trigger] pin_blocked(
                c.connections@,
                strand,
                g,
                p,
            )
}

/// During an evaluation, every strand gate still has its blocked pin unset
/// and output `o` is still unset.
pub open spec fn strand_inv(c: Circuit, strand: Set<int>, o: int, st: EvalState) -> bool {
    &&& forall|g: int|
        #[trigger] strand.contains(g) ==> exists|p: int|
            0 <= p < c.gates@[g].spec_num_inputs() && #[trigger] pin_blocked(
                c.connections@,
                strand,
                g,
                p,
            ) && st.gate_inputs[g][p] is None
    &&& st.outputs[o] is None
}

/// Writing to destinations that do not mention a slot leaves the slot as
/// it was.
proof fn lemma_write_dests_untouched_pin(
    st: EvalState,
    dests: Seq<ConnectionIndex>,
    v: bool,
    g: int,
    p: int,
)
    requires
        !dests.contains(
            ConnectionIndex::GateInput { gate_index: g as usize, io_index: p as usize },
        ),
        0 <= g < st.gate_inputs.len(),
        0 <= p < st.gate_inputs[g].len(),
    ensures
        write_dests(st, dests, v).gate_inputs[g][p] == st.gate_inputs[g][p],
    decreases dests.len(),
{
    if dests.len() == 0 {
    } else {
        let st2 = write_dest(st, dests[0], v);
        assert(st2.gate_inputs[g][p] == st.gate_inputs[g][p]) by {
            assert(dests.contains(dests[0]));
            match dests[0] {
                ConnectionIndex::GateInput { gate_index, io_index } => {
                    if gate_index as int == g && io_index as int == p {
                        assert(dests[0] == ConnectionIndex::GateInput {
                            gate_index: g as usize,
                            io_index: p as usize,
                        });
                        assert(false);
                    }
                },
                _ => {},
            }
        }
        assert(!dests.skip(1).contains(
            ConnectionIndex::GateInput { gate_index: g as usize, io_index: p as usize },
        )) by {
            if dests.skip(1).contains(
                ConnectionIndex::GateInput { gate_index: g as usize, io_index: p as usize },
            ) {
                let t = choose|t: int|
                    0 <= t < dests.skip(1).len() && dests.skip(1)[t]
                        == ConnectionIndex::GateInput {
                        gate_index: g as usize,
                        io_index: p as usize,
                    };
                assert(dests[t + 1] == ConnectionIndex::GateInput {
                    gate_index: g as usize,
                    io_index: p as usize,
                });
            }
        }
        lemma_write_dests_untouched_pin(st2, dests.skip(1), v, g, p);
    }
}

/// Writing to destinations that do not mention a primary output leaves its
/// slot as it was.
proof fn lemma_write_dests_untouched_out(
    st: EvalState,
    dests: Seq<ConnectionIndex>,
    v: bool,
    o: int,
)
    requires
        !dests.contains(ConnectionIndex::Output(o as usize)),
        0 <= o < st.outputs.len(),
    ensures
        write_dests(st, dests, v).outputs[o] == st.outputs[o],
    decreases dests.len(),
{
    if dests.len() == 0 {
    } else {
        let st2 = write_dest(st, dests[0], v);
        assert(st2.outputs[o] == st.outputs[o]) by {
            assert(dests.contains(dests[0]));
            match dests[0] {
                ConnectionIndex::Output(i) => {
                    if i as int == o {
                        assert(dests[0] == ConnectionIndex::Output(o as usize));
                        assert(false);
                    }
                },
                _ => {},
            }
        }
        assert(!dests.skip(1).contains(ConnectionIndex::Output(o as usize))) by {
            if dests.skip(1).contains(ConnectionIndex::Output(o as usize)) {
                let t = choose|t: int|
                    0 <= t < dests.skip(1).len() && dests.skip(1)[t] == ConnectionIndex::Output(
                        o as usize,
                    );
                assert(dests[t + 1] == ConnectionIndex::Output(o as usize));
            }
        }
        lemma_write_dests_untouched_out(st2, dests.skip(1), v, o);
    }
}

/// Writing along a source that is no strand output preserves the strand
/// invariant.
proof fn lemma_strand_write(
    c: Circuit,
    strand: Set<int>,
    o: int,
    st: EvalState,
    s: ConnectionIndex,
    v: bool,
)
    requires
        strand_ok(c, strand),
        out_blocked(c.connections@, strand, o),
        strand_inv(c, strand, o, st),
        st_shape(c, st),
        c.connections@.contains_key(s),
        !strand_output(strand, s),
        0 <= o < c.num_outputs,
    ensures
        strand_inv(c, strand, o, write_dests(st, c.connections@[s], v)),
{
    let m = c.connections@;
    let st2 = write_dests(st, m[s], v);
    assert forall|g: int| #[trigger] strand.contains(g) implies exists|p: int|
        0 <= p < c.gates@[g].spec_num_inputs() && #[trigger] pin_blocked(m, strand, g, p)
            && st2.gate_inputs[g][p] is None by {
        let p = choose|p: int|
            0 <= p < c.gates@[g].spec_num_inputs() && #[trigger] pin_blocked(m, strand, g, p)
                && st.gate_inputs[g][p] is None;
        assert(!m[s].contains(
            ConnectionIndex::GateInput { gate_index: g as usize, io_index: p as usize },
        )) by {
            if m[s].contains(
                ConnectionIndex::GateInput { gate_index: g as usize, io_index: p as usize },
            ) {
                assert(drives(
                    m,
                    s,
                    ConnectionIndex::GateInput { gate_index: g as usize, io_index: p as usize },
                ));
            }
        }
        lemma_write_dests_untouched_pin(st, m[s], v, g, p);
        assert(0 <= p < c.gates@[g].spec_num_inputs() && pin_blocked(m, strand, g, p)
            && st2.gate_inputs[g][p] is None);
    }
    assert(st2.outputs[o] is None) by {
        assert(!m[s].contains(ConnectionIndex::Output(o as usize))) by {
            if m[s].contains(ConnectionIndex::Output(o as usize)) {
                assert(drives(m, s, ConnectionIndex::Output(o as usize)));
            }
        }
        lemma_write_dests_untouched_out(st, m[s], v, o);
    }
}

/// Seeding primary inputs preserves the strand invariant: a primary input
/// is no gate output, so it cannot drive a blocked slot.
proof fn lemma_strand_seed(c: Circuit, strand: Set<int>, o: int, st: EvalState, inputs: Seq<bool>, i: int)
    requires
        strand_ok(c, strand),
        out_blocked(c.connections@, strand, o),
        strand_inv(c, strand, o, st),
        st_shape(c, st),
        0 <= o < c.num_outputs,
    ensures
        strand_inv(c, strand, o, seed_from(c.connections@, st, inputs, i)),
    decreases inputs.len() - i,
{
    let m = c.connections@;
    if i < 0 || i >= inputs.len() {
    } else {
        let st2 = if m.contains_key(ConnectionIndex::Input(i as usize)) {
            write_dests(st, m[ConnectionIndex::Input(i as usize)], inputs[i])
        } else {
            st
        };
        if m.contains_key(ConnectionIndex::Input(i as usize)) {
            lemma_strand_write(c, strand, o, st, ConnectionIndex::Input(i as usize), inputs[i]);
            lemma_write_dests_props(st, m[ConnectionIndex::Input(i as usize)], inputs[i]);
        }
        assert(st_shape(c, st2));
        lemma_strand_seed(c, strand, o, st2, inputs, i + 1);
    }
}

/// Firing a gate outside the strand preserves the strand invariant.
proof fn lemma_strand_gate_outputs(
    c: Circuit,
    strand: Set<int>,
    o: int,
    st: EvalState,
    k: usize,
    outs: Seq<bool>,
    oi: int,
)
    requires
        strand_ok(c, strand),
        out_blocked(c.connections@, strand, o),
        strand_inv(c, strand, o, st),
        st_shape(c, st),
        !strand.contains(k as int),
        0 <= o < c.num_outputs,
    ensures
        strand_inv(c, strand, o, write_gate_outputs(st, c.connections@, k, outs, oi)),
    decreases outs.len() - oi,
{
    let m = c.connections@;
    if oi < 0 || oi >= outs.len() {
    } else {
        let key = ConnectionIndex::GateOutput { gate_index: k, io_index: oi as usize };
        let st2 = if m.contains_key(key) {
            write_dests(st, m[key], outs[oi])
        } else {
            st
        };
        if m.contains_key(key) {
            assert(!strand_output(strand, key));
            lemma_strand_write(c, strand, o, st, key, outs[oi]);
            lemma_write_dests_props(st, m[key], outs[oi]);
        }
        assert(st_shape(c, st2));
        lemma_strand_gate_outputs(c, strand, o, st2, k, outs, oi + 1);
    }
}

/// Propagation preserves the strand invariant: a strand gate never has all
/// inputs set, so it never fires, and gates outside the strand never write
/// into blocked slots.
proof fn lemma_strand_propagate(c: Circuit, strand: Set<int>, o: int, st: EvalState, fuel: nat)
    requires
        strand_ok(c, strand),
        out_blocked(c.connections@, strand, o),
        strand_inv(c, strand, o, st),
        st_shape(c, st),
        0 <= o < c.num_outputs,
    ensures
        strand_inv(c, strand, o, propagate(c, st, fuel)),
    decreases fuel,
{
    if fuel == 0 {
    } else {
        match first_ready_from(st, 0) {
            None => {},
            Some(k) => {
                lemma_first_ready_unfired(st, 0);
                assert(0 <= k < st.fired.len());
                assert(vstd::std_specs::vec::spec_vec_len(&c.gates) == c.gates@.len());
                assert((k as usize) as int == k);
                assert(!strand.contains(k)) by {
                    if strand.contains(k) {
                        let p = choose|p: int|
                            0 <= p < c.gates@[k].spec_num_inputs() && #[trigger] pin_blocked(
                                c.connections@,
                                strand,
                                k,
                                p,
                            ) && st.gate_inputs[k][p] is None;
                        assert(st.gate_inputs[k].len() == c.gates@[k].spec_num_inputs());
                        assert(st.gate_inputs[k][p] is Some);
                    }
                }
                let st1 = EvalState {
                    outputs: st.outputs,
                    gate_inputs: st.gate_inputs,
                    fired: st.fired.update(k, true),
                };
                assert(strand_inv(c, strand, o, st1));
                let gate = c.gates@[k];
                let ins = crate::eval::set_vals(st.gate_inputs[k]);
                if gate.spec_is_on(ins) {
                    lemma_strand_gate_outputs(
                        c,
                        strand,
                        o,
                        st1,
                        k as usize,
                        gate.spec_trigger(ins),
                        0,
                    );
                }
                lemma_fire_gate_shape(c, st, k);
                lemma_strand_propagate(c, strand, o, fire_gate(c, st, k), (fuel - 1) as nat);
            },
        }
    }
}

/// Unset-output law: take any set of gates each of which has an input pin
/// that is driven by no source at all, or only by output pins of gates in
/// the set. Then no gate of the set ever fires during an evaluation, and
/// every primary output that is driven only by gates of the set — in
/// particular one whose sole source is such a gate — comes out `None` for
/// every input vector, never a default value.
pub proof fn lemma_unset_outputs(c: Circuit, inputs: Seq<bool>, strand: Set<int>, o: int)
    requires
        strand_ok(c, strand),
        out_blocked(c.connections@, strand, o),
        0 <= o < c.num_outputs,
    ensures
        spec_run(c, inputs)[o] is None,
{
    let st0 = init_state(c);
    assert(st_shape(c, st0));
    assert(strand_inv(c, strand, o, st0)) by {
        assert forall|g: int| #[trigger] strand.contains(g) implies exists|p: int|
            0 <= p < c.gates@[g].spec_num_inputs() && #[trigger] pin_blocked(
                c.connections@,
                strand,
                g,
                p,
            ) && st0.gate_inputs[g][p] is None by {
            let p = choose|p: int|
                0 <= p < c.gates@[g].spec_num_inputs() && #[trigger] pin_blocked(
                    c.connections@,
                    strand,
                    g,
                    p,
                );
            assert(st0.gate_inputs[g][p] is None);
        }
    }
    lemma_strand_seed(c, strand, o, st0, inputs, 0);
    let sst = seeded_state(c, inputs);
    assert(st_shape(c, sst)) by {
        lemma_seed_from_props(c.connections@, st0, inputs, 0);
    }
    lemma_strand_propagate(c, strand, o, sst, c.gates@.len());
}

} // verus!
