use vstd::prelude::*;

use crate::endpoint::ConnectionIndex;
use crate::gate::Gate;
use crate::wiring::Connections;

verus! {

/// A candidate circuit: a gate catalog, a wiring, and the number of primary
/// outputs. The number of primary inputs is given by the input vector that
/// an evaluation receives.
pub struct Circuit {
    pub num_outputs: usize,
    pub gates: Vec<Gate>,
    pub connections: Connections,
}

/// The transient state of one evaluation: the primary output slots, one
/// optional value per gate input pin, and which gates have fired.
pub struct EvalState {
    pub outputs: Seq<Option<bool>>,
    pub gate_inputs: Seq<Seq<Option<bool>>>,
    pub fired: Seq<bool>,
}

/// The state before any value has propagated: everything unset, no gate
/// fired.
pub open spec fn init_state(c: Circuit) -> EvalState {
    EvalState {
        outputs: Seq::new(c.num_outputs as nat, |i: int| None),
        gate_inputs: Seq::new(
            c.gates@.len(),
            |g: int| Seq::new(c.gates@[g].spec_num_inputs(), |p: int| None),
        ),
        fired: Seq::new(c.gates@.len(), |g: int| false),
    }
}

/// Writes value `v` into one destination slot; out-of-range or non-destination
/// endpoints leave the state unchanged (the evaluator's precondition rules
/// them out).
pub open spec fn write_dest(st: EvalState, d: ConnectionIndex, v: bool) -> EvalState {
    match d {
        ConnectionIndex::Output(i) => if i < st.outputs.len() {
            EvalState {
                outputs: st.outputs.update(i as int, Some(v)),
                gate_inputs: st.gate_inputs,
                fired: st.fired,
            }
        } else {
            st
        },
        ConnectionIndex::GateInput { gate_index, io_index } => if gate_index
            < st.gate_inputs.len() && io_index < st.gate_inputs[gate_index as int].len() {
            EvalState {
                outputs: st.outputs,
                gate_inputs: st.gate_inputs.update(
                    gate_index as int,
                    st.gate_inputs[gate_index as int].update(io_index as int, Some(v)),
                ),
                fired: st.fired,
            }
        } else {
            st
        },
        _ => st,
    }
}

/// Writes value `v` into every destination slot in the list, front to back.
pub open spec fn write_dests(st: EvalState, dests: Seq<ConnectionIndex>, v: bool) -> EvalState
    decreases dests.len(),
{
    if dests.len() == 0 {
        st
    } else {
        write_dests(write_dest(st, dests[0], v), dests.skip(1), v)
    }
}

/// Seeds the state with the primary input values from index `i` on: each
/// input value is written into every destination of its input endpoint.
pub open spec fn seed_from(
    m: Map<ConnectionIndex, Seq<ConnectionIndex>>,
    st: EvalState,
    inputs: Seq<bool>,
    i: int,
) -> EvalState
    decreases inputs.len() - i,
{
    if i < 0 || i >= inputs.len() {
        st
    } else {
        let st2 = if m.contains_key(ConnectionIndex::Input(i as usize)) {
            write_dests(st, m[ConnectionIndex::Input(i as usize)], inputs[i])
        } else {
            st
        };
        seed_from(m, st2, inputs, i + 1)
    }
}

/// Every slot in the row has received a value.
pub open spec fn all_set(s: Seq<Option<bool>>) -> bool {
    forall|p: int| 0 <= p < s.len() ==> (#[trigger] s[p]) is Some
}

/// The values of a fully set row.
pub open spec fn set_vals(s: Seq<Option<bool>>) -> Seq<bool> {
    Seq::new(
        s.len(),
        |p: int|
            match s[p] {
                Some(b) => b,
                None => false,
            },
    )
}

/// The lowest-indexed gate at or after `k` that has not fired and has all
/// its input slots set, if any: the evaluator's deterministic tie-break is
/// ascending gate index.
pub open spec fn first_ready_from(st: EvalState, k: int) -> Option<int>
    decreases st.fired.len() - k,
{
    if k < 0 || k >= st.fired.len() {
        None
    } else if !st.fired[k] && all_set(st.gate_inputs[k]) {
        Some(k)
    } else {
        first_ready_from(st, k + 1)
    }
}

/// Writes a fired gate's output values into the destinations of its output
/// pins, pin `oi` onward.
pub open spec fn write_gate_outputs(
    st: EvalState,
    m: Map<ConnectionIndex, Seq<ConnectionIndex>>,
    g: usize,
    outs: Seq<bool>,
    oi: int,
) -> EvalState
    decreases outs.len() - oi,
{
    if oi < 0 || oi >= outs.len() {
        st
    } else {
        let st2 = if m.contains_key(
            ConnectionIndex::GateOutput { gate_index: g, io_index: oi as usize },
        ) {
            write_dests(
                st,
                m[ConnectionIndex::GateOutput { gate_index: g, io_index: oi as usize }],
                outs[oi],
            )
        } else {
            st
        };
        write_gate_outputs(st2, m, g, outs, oi + 1)
    }
}

/// Fires gate `k`: marks it fired, and, when its enable predicate holds,
/// computes its outputs and writes them on. A disabled gate still counts as
/// fired but writes nothing.
pub open spec fn fire_gate(c: Circuit, st: EvalState, k: int) -> EvalState {
    let gate = c.gates@[k];
    let ins = set_vals(st.gate_inputs[k]);
    let st1 = EvalState {
        outputs: st.outputs,
        gate_inputs: st.gate_inputs,
        fired: st.fired.update(k, true),
    };
    if gate.spec_is_on(ins) {
        write_gate_outputs(st1, c.connections@, k as usize, gate.spec_trigger(ins), 0)
    } else {
        st1
    }
}

/// Fires ready gates, lowest index first, until none is ready or the fuel
/// runs out. Each gate fires at most once, so `c.gates@.len()` fuel always
/// reaches the fixpoint.
pub open spec fn propagate(c: Circuit, st: EvalState, fuel: nat) -> EvalState
    decreases fuel,
{
    if fuel == 0 {
        st
    } else {
        match first_ready_from(st, 0) {
            None => st,
            Some(k) => propagate(c, fire_gate(c, st, k), (fuel - 1) as nat),
        }
    }
}

/// The state after seeding all primary inputs.
pub open spec fn seeded_state(c: Circuit, inputs: Seq<bool>) -> EvalState {
    seed_from(c.connections@, init_state(c), inputs, 0)
}

/// The primary output values that evaluating the circuit on `inputs`
/// produces: seed the inputs, then fire gates to the fixpoint. `None`
/// entries are outputs that no source ever drove.
pub open spec fn spec_run(c: Circuit, inputs: Seq<bool>) -> Seq<Option<bool>> {
    propagate(c, seeded_state(c, inputs), c.gates@.len()).outputs
}

/// `d` is a destination endpoint that exists in circuit `c`.
pub open spec fn dest_in_range(c: Circuit, d: ConnectionIndex) -> bool {
    match d {
        ConnectionIndex::Output(i) => i < c.num_outputs,
        ConnectionIndex::GateInput { gate_index, io_index } => gate_index < c.gates@.len()
            && io_index < c.gates@[gate_index as int].spec_num_inputs(),
        _ => false,
    }
}

/// What evaluation requires of a circuit and an input count: the wiring has
/// an entry for every primary input and every gate output pin it may look
/// up, and every listed destination is a destination endpoint of the
/// circuit. The evaluator fails fast on anything else, so such wirings are
/// ruled out here.
pub open spec fn eval_wf(c: Circuit, num_inputs: nat) -> bool {
    &&& c.connections.wf()
    &&& forall|i: usize|
        i < num_inputs ==> #[trigger] c.connections@.contains_key(ConnectionIndex::Input(i))
    &&& forall|g: usize, oi: usize|
        g < c.gates@.len() && oi < c.gates@[g as int].spec_num_outputs()
            ==> #[trigger] c.connections@.contains_key(
            ConnectionIndex::GateOutput { gate_index: g, io_index: oi },
        )
    &&& forall|k: ConnectionIndex, j: int|
        c.connections@.contains_key(k) && 0 <= j < c.connections@[k].len() ==> dest_in_range(
            c,
            #[trigger] c.connections@[k][j],
        )
}

/// The state has the shape that circuit `c` prescribes: one output slot per
/// primary output, one row per gate with one slot per input pin, one fired
/// flag per gate.
pub open spec fn st_shape(c: Circuit, st: EvalState) -> bool {
    &&& st.outputs.len() == c.num_outputs
    &&& st.gate_inputs.len() == c.gates@.len()
    &&& forall|g: int|
        0 <= g < c.gates@.len() ==> (#[trigger] st.gate_inputs[g]).len()
            == c.gates@[g].spec_num_inputs()
    &&& st.fired.len() == c.gates@.len()
}

/// `d` names a slot that exists in state `st`.
pub open spec fn dest_fits(d: ConnectionIndex, st: EvalState) -> bool {
    match d {
        ConnectionIndex::Output(i) => i < st.outputs.len(),
        ConnectionIndex::GateInput { gate_index, io_index } => gate_index < st.gate_inputs.len()
            && io_index < st.gate_inputs[gate_index as int].len(),
        _ => false,
    }
}

/// The executable slot vectors carry exactly the ghost state `st`.
pub open spec fn models_rw(
    st: EvalState,
    outputs: Seq<Option<bool>>,
    gis: Seq<Vec<Option<bool>>>,
) -> bool {
    &&& st.outputs == outputs
    &&& st.gate_inputs.len() == gis.len()
    &&& forall|g: int| 0 <= g < gis.len() ==> (#[trigger] gis[g])@ == st.gate_inputs[g]
}

/// Writing destinations changes no lengths and no fired flags.
pub(crate) proof fn lemma_write_dests_props(st: EvalState, dests: Seq<ConnectionIndex>, v: bool)
    ensures
        write_dests(st, dests, v).fired == st.fired,
        write_dests(st, dests, v).outputs.len() == st.outputs.len(),
        write_dests(st, dests, v).gate_inputs.len() == st.gate_inputs.len(),
        forall|g: int|
            0 <= g < st.gate_inputs.len() ==> (#[trigger] write_dests(
                st,
                dests,
                v,
            ).gate_inputs[g]).len() == st.gate_inputs[g].len(),
    decreases dests.len(),
{
    if dests.len() == 0 {
    } else {
        lemma_write_dests_props(write_dest(st, dests[0], v), dests.skip(1), v);
    }
}

/// Writing a gate's outputs changes no lengths and no fired flags.
pub(crate) proof fn lemma_write_gate_outputs_props(
    st: EvalState,
    m: Map<ConnectionIndex, Seq<ConnectionIndex>>,
    g: usize,
    outs: Seq<bool>,
    oi: int,
)
    ensures
        write_gate_outputs(st, m, g, outs, oi).fired == st.fired,
        write_gate_outputs(st, m, g, outs, oi).outputs.len() == st.outputs.len(),
        write_gate_outputs(st, m, g, outs, oi).gate_inputs.len() == st.gate_inputs.len(),
        forall|g2: int|
            0 <= g2 < st.gate_inputs.len() ==> (#[trigger] write_gate_outputs(
                st,
                m,
                g,
                outs,
                oi,
            ).gate_inputs[g2]).len() == st.gate_inputs[g2].len(),
    decreases outs.len() - oi,
{
    if oi < 0 || oi >= outs.len() {
    } else {
        let key = ConnectionIndex::GateOutput { gate_index: g, io_index: oi as usize };
        let st2 = if m.contains_key(key) {
            write_dests(st, m[key], outs[oi])
        } else {
            st
        };
        if m.contains_key(key) {
            lemma_write_dests_props(st, m[key], outs[oi]);
        }
        lemma_write_gate_outputs_props(st2, m, g, outs, oi + 1);
    }
}

/// Seeding the primary inputs changes no lengths and no fired flags.
pub(crate) proof fn lemma_seed_from_props(
    m: Map<ConnectionIndex, Seq<ConnectionIndex>>,
    st: EvalState,
    inputs: Seq<bool>,
    i: int,
)
    ensures
        seed_from(m, st, inputs, i).fired == st.fired,
        seed_from(m, st, inputs, i).outputs.len() == st.outputs.len(),
        seed_from(m, st, inputs, i).gate_inputs.len() == st.gate_inputs.len(),
        forall|g: int|
            0 <= g < st.gate_inputs.len() ==> (#[trigger] seed_from(
                m,
                st,
                inputs,
                i,
            ).gate_inputs[g]).len() == st.gate_inputs[g].len(),
    decreases inputs.len() - i,
{
    if i < 0 || i >= inputs.len() {
    } else {
        let st2 = if m.contains_key(ConnectionIndex::Input(i as usize)) {
            write_dests(st, m[ConnectionIndex::Input(i as usize)], inputs[i])
        } else {
            st
        };
        if m.contains_key(ConnectionIndex::Input(i as usize)) {
            lemma_write_dests_props(st, m[ConnectionIndex::Input(i as usize)], inputs[i]);
        }
        lemma_seed_from_props(m, st2, inputs, i + 1);
    }
}

/// The number of gates that have not fired.
pub open spec fn count_false(s: Seq<bool>) -> nat
    decreases s.len(),
{
    if s.len() == 0 {
        0
    } else {
        count_false(s.drop_last()) + if s.last() {
            0nat
        } else {
            1nat
        }
    }
}

/// Marking an unfired gate fired lowers the unfired count by one.
pub(crate) proof fn lemma_count_false_update(s: Seq<bool>, k: int)
    requires
        0 <= k < s.len(),
        !s[k],
    ensures
        count_false(s) >= 1,
        count_false(s.update(k, true)) == count_false(s) - 1,
    decreases s.len(),
{
    let t = s.update(k, true);
    if k == s.len() - 1 {
        assert(t.drop_last() =~= s.drop_last());
    } else {
        lemma_count_false_update(s.drop_last(), k);
        assert(t.drop_last() =~= s.drop_last().update(k, true));
        assert(t.last() == s.last());
    }
}

/// In a row of unfired gates, the unfired count is the length.
pub(crate) proof fn lemma_count_false_all(s: Seq<bool>)
    requires
        forall|i: int| 0 <= i < s.len() ==> !(#[trigger] s[i]),
    ensures
        count_false(s) == s.len(),
    decreases s.len(),
{
    if s.len() == 0 {
    } else {
        lemma_count_false_all(s.drop_last());
    }
}

/// Writes value `v` into every slot that the destination list names,
/// mirroring `write_dests` on the ghost state.
fn apply_value(
    outputs: &mut Vec<Option<bool>>,
    gis: &mut Vec<Vec<Option<bool>>>,
    dests: &Vec<ConnectionIndex>,
    v: bool,
    Ghost(st): Ghost<EvalState>,
)
    requires
        models_rw(st, old(outputs)@, old(gis)@),
        forall|t: int| 0 <= t < dests@.len() ==> dest_fits(#[trigger] dests@[t], st),
    ensures
        models_rw(write_dests(st, dests@, v), final(outputs)@, final(gis)@),
{
    let n = dests.len();
    let ghost target = write_dests(st, dests@, v);
    let ghost mut cur: EvalState = st;
    proof {
        assert(dests@.skip(0) =~= dests@);
    }
    for t in 0..n
        invariant
            n == dests@.len(),
            models_rw(cur, outputs@, gis@),
            forall|t2: int| 0 <= t2 < dests@.len() ==> dest_fits(#[trigger] dests@[t2], cur),
            write_dests(cur, dests@.skip(t as int), v) == target,
    {
        let ghost pre = cur;
        proof {
            assert(dests@.skip(t as int)[0] == dests@[t as int]);
            assert(dests@.skip(t as int).skip(1) =~= dests@.skip(t as int + 1));
            cur = write_dest(pre, dests@[t as int], v);
            assert(write_dests(pre, dests@.skip(t as int), v) == write_dests(
                cur,
                dests@.skip(t as int + 1),
                v,
            ));
        }
        match dests[t] {
            ConnectionIndex::Output(i) => {
                outputs[i] = Some(v);
                proof {
                    assert(models_rw(cur, outputs@, gis@));
                }
            },
            ConnectionIndex::GateInput { gate_index, io_index } => {
                let row = &mut gis[gate_index];
                row[io_index] = Some(v);
                proof {
                    assert(gis@[gate_index as int]@ =~= pre.gate_inputs[gate_index as int].update(
                        io_index as int,
                        Some(v),
                    ));
                    assert forall|g: int| 0 <= g < gis@.len() implies (#[trigger] gis@[g])@
                        == cur.gate_inputs[g] by {}
                    assert(models_rw(cur, outputs@, gis@));
                }
            },
            _ => {
                proof {
                    assert(false);
                }
            },
        }
        proof {
            assert forall|t2: int| 0 <= t2 < dests@.len() implies dest_fits(
                #[trigger] dests@[t2],
                cur,
            ) by {
                assert(dest_fits(dests@[t2], pre));
            }
        }
    }
    proof {
        assert(dests@.skip(n as int) =~= Seq::<ConnectionIndex>::empty());
        assert(write_dests(cur, dests@.skip(n as int), v) == cur);
    }
}

/// Whether every slot of the row has received a value.
fn row_all_set(row: &Vec<Option<bool>>) -> (r: bool)
    ensures
        r == all_set(row@),
{
    let n = row.len();
    for p in 0..n
        invariant
            n == row@.len(),
            forall|p2: int| 0 <= p2 < p ==> (#[trigger] row@[p2]) is Some,
    {
        if row[p].is_none() {
            return false;
        }
    }
    true
}

/// The lowest-indexed gate that has not fired and has all inputs set.
fn find_first_ready(
    gis: &Vec<Vec<Option<bool>>>,
    fired: &Vec<bool>,
    Ghost(st): Ghost<EvalState>,
) -> (r: Option<usize>)
    requires
        models_rw(st, st.outputs, gis@),
        st.fired == fired@,
        fired@.len() == gis@.len(),
    ensures
        match r {
            Some(k) => first_ready_from(st, 0) == Some(k as int) && (k as int) < st.fired.len()
                && !st.fired[k as int] && all_set(st.gate_inputs[k as int]),
            None => first_ready_from(st, 0) is None,
        },
{
    let n = fired.len();
    for k in 0..n
        invariant
            models_rw(st, st.outputs, gis@),
            st.fired == fired@,
            n == fired@.len(),
            fired@.len() == gis@.len(),
            first_ready_from(st, 0) == first_ready_from(st, k as int),
    {
        if !fired[k] {
            if row_all_set(&gis[k]) {
                proof {
                    assert(gis@[k as int]@ == st.gate_inputs[k as int]);
                    assert(first_ready_from(st, k as int) == Some(k as int));
                }
                return Some(k);
            }
        }
        proof {
            assert(gis@[k as int]@ == st.gate_inputs[k as int]);
            assert(first_ready_from(st, k as int) == first_ready_from(st, k as int + 1));
        }
    }
    proof {
        assert(first_ready_from(st, n as int) is None);
    }
    None
}

impl Circuit {
    /// Evaluates the circuit on one input vector by event propagation to a
    /// fixpoint: primary inputs are written to their destinations, then the
    /// lowest-indexed unfired gate with all inputs set fires, at most once
    /// per gate, until no gate is ready. Outputs that nothing drove stay
    /// `None`.
    pub fn run(&self, inputs: &Vec<bool>) -> (r: Vec<Option<bool>>)
        requires
            eval_wf(*self, inputs@.len() as nat),
        ensures
            r@ == spec_run(*self, inputs@),
            r@.len() == self.num_outputs,
    {
        let ghost c = *self;
        let num_gates = self.gates.len();
        let mut outputs: Vec<Option<bool>> = vec![None; self.num_outputs];
        let mut set_inputs_by_gate: Vec<Vec<Option<bool>>> = Vec::new();
        for g in 0..num_gates
            invariant
                c == *self,
                num_gates == c.gates@.len(),
                set_inputs_by_gate@.len() == g,
                forall|g2: int|
                    0 <= g2 < g ==> (#[trigger] set_inputs_by_gate@[g2])@ =~= Seq::new(
                        c.gates@[g2].spec_num_inputs(),
                        |p: int| None::<bool>,
                    ),
        {
            let gate = self.gates[g];
            let row: Vec<Option<bool>> = vec![None; gate.num_inputs()];
            proof {
                assert(row@ =~= Seq::new(c.gates@[g as int].spec_num_inputs(), |p: int| None::<bool>));
            }
            set_inputs_by_gate.push(row);
        }
        let mut fired: Vec<bool> = vec![false; num_gates];
        let ghost mut st: EvalState = init_state(c);
        proof {
            assert(st.outputs =~= outputs@);
            assert(st.fired =~= fired@);
            assert forall|g: int| 0 <= g < set_inputs_by_gate@.len() implies (
            #[trigger] set_inputs_by_gate@[g])@ == st.gate_inputs[g] by {
                assert(st.gate_inputs[g] =~= Seq::new(
                    c.gates@[g].spec_num_inputs(),
                    |p: int| None::<bool>,
                ));
            }
            assert(models_rw(st, outputs@, set_inputs_by_gate@));
            assert(st_shape(c, st));
            lemma_count_false_all(st.fired);
        }
        let ni = inputs.len();
        for i in 0..ni
            invariant
                c == *self,
                eval_wf(c, inputs@.len() as nat),
                num_gates == c.gates@.len(),
                ni == inputs@.len(),
                models_rw(st, outputs@, set_inputs_by_gate@),
                st.fired == fired@,
                st_shape(c, st),
                seed_from(c.connections@, st, inputs@, i as int) == seeded_state(c, inputs@),
        {
            let dests = self.connections.get(ConnectionIndex::Input(i)).unwrap();
            proof {
                assert(c.connections@.contains_key(ConnectionIndex::Input(i)));
                assert forall|t: int| 0 <= t < dests@.len() implies dest_fits(
                    #[trigger] dests@[t],
                    st,
                ) by {
                    assert(dest_in_range(c, c.connections@[ConnectionIndex::Input(i)][t]));
                }
            }
            let ghost pre = st;
            apply_value(&mut outputs, &mut set_inputs_by_gate, dests, inputs[i], Ghost(st));
            proof {
                st = write_dests(pre, dests@, inputs@[i as int]);
                lemma_write_dests_props(pre, dests@, inputs@[i as int]);
                assert(seed_from(c.connections@, pre, inputs@, i as int) == seed_from(
                    c.connections@,
                    st,
                    inputs@,
                    i as int + 1,
                ));
            }
        }
        proof {
            assert(seed_from(c.connections@, st, inputs@, ni as int) == st);
            assert(st == seeded_state(c, inputs@));
        }
        let ghost target = propagate(c, seeded_state(c, inputs@), c.gates@.len() as nat);
        proof {
            lemma_seed_from_props(c.connections@, init_state(c), inputs@, 0);
            lemma_count_false_all(init_state(c).fired);
            lemma_propagate_extra_fuel(c, st, count_false(st.fired), c.gates@.len() as nat);
        }
        loop
            invariant
                c == *self,
                eval_wf(c, inputs@.len() as nat),
                num_gates == c.gates@.len(),
                models_rw(st, outputs@, set_inputs_by_gate@),
                st.fired == fired@,
                st_shape(c, st),
                propagate(c, st, count_false(st.fired)) == target,
                target == propagate(c, seeded_state(c, inputs@), c.gates@.len() as nat),
            ensures
                st.outputs == outputs@,
                first_ready_from(st, 0) is None,
                propagate(c, st, count_false(st.fired)) == target,
            decreases count_false(st.fired),
        {
            let ready = find_first_ready(&set_inputs_by_gate, &fired, Ghost(st));
            match ready {
                None => {
                    break ;
                },
                Some(k) => {
                    let ghost st0 = st;
                    let mut ins: Vec<bool> = Vec::new();
                    let rn = set_inputs_by_gate[k].len();
                    for p in 0..rn
                        invariant
                            models_rw(st, outputs@, set_inputs_by_gate@),
                            0 <= k < st.gate_inputs.len(),
                            st == st0,
                            rn == st.gate_inputs[k as int].len(),
                            all_set(st.gate_inputs[k as int]),
                            ins@.len() == p,
                            forall|p2: int|
                                0 <= p2 < p ==> (#[trigger] ins@[p2]) == set_vals(
                                    st.gate_inputs[k as int],
                                )[p2],
                    {
                        proof {
                            assert(set_inputs_by_gate@[k as int]@ == st.gate_inputs[k as int]);
                        }
                        ins.push(set_inputs_by_gate[k][p].unwrap());
                    }
                    proof {
                        assert(ins@ =~= set_vals(st0.gate_inputs[k as int]));
                    }
                    fired[k] = true;
                    let ghost cf0 = count_false(st0.fired);
                    proof {
                        assert(!st0.fired[k as int]);
                        lemma_count_false_update(st0.fired, k as int);
                        st = EvalState {
                            outputs: st0.outputs,
                            gate_inputs: st0.gate_inputs,
                            fired: st0.fired.update(k as int, true),
                        };
                    }
                    let gate = self.gates[k];
                    proof {
                        assert(ins@.len() == gate.spec_num_inputs());
                    }
                    if gate.is_on(&ins) {
                        let outs = gate.trigger(&ins);
                        let ghost st_mid = st;
                        let on = outs.len();
                        for oi in 0..on
                            invariant
                                c == *self,
                                eval_wf(c, inputs@.len() as nat),
                                models_rw(st, outputs@, set_inputs_by_gate@),
                                st.fired == fired@,
                                st_shape(c, st),
                                0 <= k < c.gates@.len(),
                                on == outs@.len(),
                                outs@.len() == c.gates@[k as int].spec_num_outputs(),
                                write_gate_outputs(st, c.connections@, k, outs@, oi as int)
                                    == write_gate_outputs(st_mid, c.connections@, k, outs@, 0),
                        {
                            let key = ConnectionIndex::GateOutput { gate_index: k, io_index: oi };
                            proof {
                                assert(c.connections@.contains_key(key));
                            }
                            let dests = self.connections.get(key).unwrap();
                            proof {
                                assert forall|t: int| 0 <= t < dests@.len() implies dest_fits(
                                    #[trigger] dests@[t],
                                    st,
                                ) by {
                                    assert(dest_in_range(c, c.connections@[key][t]));
                                }
                            }
                            let ghost pre = st;
                            apply_value(
                                &mut outputs,
                                &mut set_inputs_by_gate,
                                dests,
                                outs[oi],
                                Ghost(st),
                            );
                            proof {
                                st = write_dests(pre, dests@, outs@[oi as int]);
                                lemma_write_dests_props(pre, dests@, outs@[oi as int]);
                                assert(write_gate_outputs(pre, c.connections@, k, outs@, oi as int)
                                    == write_gate_outputs(
                                    st,
                                    c.connections@,
                                    k,
                                    outs@,
                                    oi as int + 1,
                                ));
                            }
                        }
                        proof {
                            assert(write_gate_outputs(st, c.connections@, k, outs@, on as int)
                                == st);
                            assert(st == write_gate_outputs(st_mid, c.connections@, k, outs@, 0));
                            assert(st == fire_gate(c, st0, k as int));
                        }
                    } else {
                        proof {
                            assert(st == fire_gate(c, st0, k as int));
                        }
                    }
                    proof {
                        assert(st.fired == st0.fired.update(k as int, true)) by {
                            if c.gates@[k as int].spec_is_on(set_vals(st0.gate_inputs[k as int])) {
                                lemma_write_gate_outputs_props(
                                    EvalState {
                                        outputs: st0.outputs,
                                        gate_inputs: st0.gate_inputs,
                                        fired: st0.fired.update(k as int, true),
                                    },
                                    c.connections@,
                                    k,
                                    c.gates@[k as int].spec_trigger(
                                        set_vals(st0.gate_inputs[k as int]),
                                    ),
                                    0,
                                );
                            }
                        }
                        assert(count_false(st.fired) == cf0 - 1);
                        assert(propagate(c, st0, cf0) == propagate(c, st, (cf0 - 1) as nat));
                        assert(st_shape(c, st)) by {
                            lemma_fire_gate_shape(c, st0, k as int);
                        }
                    }
                },
            }
        }
        proof {
            assert(propagate(c, st, count_false(st.fired)) == st);
            assert(outputs@ == spec_run(c, inputs@));
        }
        outputs
    }
}

/// Firing a gate keeps the state's shape.
pub(crate) proof fn lemma_fire_gate_shape(c: Circuit, st: EvalState, k: int)
    requires
        st_shape(c, st),
        0 <= k < c.gates@.len(),
    ensures
        st_shape(c, fire_gate(c, st, k)),
{
    let st1 = EvalState {
        outputs: st.outputs,
        gate_inputs: st.gate_inputs,
        fired: st.fired.update(k, true),
    };
    let gate = c.gates@[k];
    let ins = set_vals(st.gate_inputs[k]);
    if gate.spec_is_on(ins) {
        lemma_write_gate_outputs_props(st1, c.connections@, k as usize, gate.spec_trigger(ins), 0);
    }
}

/// Once no gate is ready, more fuel changes nothing; since each firing
/// consumes one unfired gate, fuel equal to the number of unfired gates
/// reaches the same fixpoint as any larger amount.
pub(crate) proof fn lemma_propagate_extra_fuel(c: Circuit, st: EvalState, f1: nat, f2: nat)
    requires
        count_false(st.fired) <= f1 <= f2,
    ensures
        propagate(c, st, f1) == propagate(c, st, f2),
    decreases f2,
{
    if f1 == 0 {
        assert(count_false(st.fired) == 0);
        match first_ready_from(st, 0) {
            None => {},
            Some(k) => {
                lemma_first_ready_unfired(st, 0);
                lemma_count_false_update(st.fired, first_ready_from(st, 0).unwrap());
                assert(false);
            },
        }
    } else {
        match first_ready_from(st, 0) {
            None => {},
            Some(k) => {
                lemma_first_ready_unfired(st, 0);
                lemma_count_false_update(st.fired, k);
                assert(fire_gate(c, st, k).fired == st.fired.update(k, true)) by {
                    lemma_fire_gate_fired(c, st, k);
                }
                lemma_propagate_extra_fuel(
                    c,
                    fire_gate(c, st, k),
                    (f1 - 1) as nat,
                    (f2 - 1) as nat,
                );
            },
        }
    }
}

/// Whatever gate `first_ready_from` picks has not fired and is in range.
pub(crate) proof fn lemma_first_ready_unfired(st: EvalState, k: int)
    requires
        first_ready_from(st, k) is Some,
    ensures
        0 <= first_ready_from(st, k).unwrap() < st.fired.len(),
        !st.fired[first_ready_from(st, k).unwrap()],
        all_set(st.gate_inputs[first_ready_from(st, k).unwrap()]),
    decreases st.fired.len() - k,
{
    if k < 0 || k >= st.fired.len() {
    } else if !st.fired[k] && all_set(st.gate_inputs[k]) {
    } else {
        lemma_first_ready_unfired(st, k + 1);
    }
}

/// Firing gate `k` marks exactly gate `k` fired.
pub(crate) proof fn lemma_fire_gate_fired(c: Circuit, st: EvalState, k: int)
    ensures
        fire_gate(c, st, k).fired == st.fired.update(k, true),
{
    let st1 = EvalState {
        outputs: st.outputs,
        gate_inputs: st.gate_inputs,
        fired: st.fired.update(k, true),
    };
    let gate = c.gates@[k];
    let ins = set_vals(st.gate_inputs[k]);
    if gate.spec_is_on(ins) {
        lemma_write_gate_outputs_props(st1, c.connections@, k as usize, gate.spec_trigger(ins), 0);
    }
}


/// Evaluation depends only on the circuit's output count, gate catalog and
/// wiring map, not on which vectors carry them.
pub proof fn lemma_spec_run_congruence(c1: Circuit, c2: Circuit, inputs: Seq<bool>)
    requires
        c1.num_outputs == c2.num_outputs,
        c1.gates@ == c2.gates@,
        c1.connections@ == c2.connections@,
    ensures
        spec_run(c1, inputs) == spec_run(c2, inputs),
{
    assert(init_state(c1) == init_state(c2)) by {
        assert(init_state(c1).outputs =~= init_state(c2).outputs);
        assert(init_state(c1).fired =~= init_state(c2).fired);
        assert forall|g: int| 0 <= g < c1.gates@.len() implies init_state(c1).gate_inputs[g]
            == init_state(c2).gate_inputs[g] by {
            assert(init_state(c1).gate_inputs[g] =~= init_state(c2).gate_inputs[g]);
        }
        assert(init_state(c1).gate_inputs =~= init_state(c2).gate_inputs);
    }
    assert(seeded_state(c1, inputs) == seeded_state(c2, inputs));
    lemma_propagate_congruence(c1, c2, seeded_state(c1, inputs), c1.gates@.len());
}

proof fn lemma_propagate_congruence(c1: Circuit, c2: Circuit, st: EvalState, fuel: nat)
    requires
        c1.num_outputs == c2.num_outputs,
        c1.gates@ == c2.gates@,
        c1.connections@ == c2.connections@,
    ensures
        propagate(c1, st, fuel) == propagate(c2, st, fuel),
    decreases fuel,
{
    if fuel > 0 {
        match first_ready_from(st, 0) {
            None => {},
            Some(k) => {
                assert(fire_gate(c1, st, k) == fire_gate(c2, st, k));
                lemma_propagate_congruence(c1, c2, fire_gate(c1, st, k), (fuel - 1) as nat);
            },
        }
    }
}

} // verus!
