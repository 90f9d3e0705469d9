use vstd::prelude::*;

use crate::endpoint::ConnectionIndex;
use crate::enumerate::{ordinary_source, produced_wiring, space_dest, switch_source, Connectables};
use crate::eval::{dest_in_range, eval_wf, lemma_spec_run_congruence, spec_run, Circuit};
use crate::gate::Gate;
use crate::wiring::{map_assigns, Connections};

verus! {

/// Exclusive-or of all the values, the empty fold being false.
pub open spec fn xor_all(s: Seq<bool>) -> bool
    decreases s.len(),
{
    if s.len() == 0 {
        false
    } else {
        xor_all(s.drop_last()) != s.last()
    }
}

/// The desired behavior of the searched-for circuit: one output carrying
/// the exclusive-or of all the inputs.
pub fn xor_desired_truth_table(inputs: &Vec<bool>) -> (r: Vec<bool>)
    ensures
        r@ == seq![xor_all(inputs@)],
{
    let mut acc: bool = false;
    let n = inputs.len();
    for i in 0..n
        invariant
            n == inputs@.len(),
            acc == xor_all(inputs@.take(i as int)),
    {
        proof {
            assert(inputs@.take(i as int + 1).drop_last() =~= inputs@.take(i as int));
            assert(inputs@.take(i as int + 1).last() == inputs@[i as int]);
        }
        acc = acc != inputs[i];
    }
    proof {
        assert(inputs@.take(n as int) =~= inputs@);
    }
    let mut r: Vec<bool> = Vec::new();
    r.push(acc);
    proof {
        assert(r@ =~= seq![xor_all(inputs@)]);
    }
    r
}

/// The `k`-th input vector of width `n`: entry `i` is bit `i` of `k`.
pub open spec fn input_vector(k: usize, n: nat) -> Seq<bool> {
    Seq::new(n, |i: int| (k >> (i as usize)) & 1 != 0)
}

/// All `2^n` input vectors of width `n`, in ascending order of their index.
pub fn gen_inputs(n: usize) -> (r: Vec<Vec<bool>>)
    requires
        n < 32,
    ensures
        r@.len() == (1usize << n),
        forall|k: int| 0 <= k < r@.len() ==> (#[trigger] r@[k])@ == input_vector(k as usize, n as nat),
{
    let total: usize = 1 << n;
    let mut r: Vec<Vec<bool>> = Vec::new();
    for k in 0..total
        invariant
            total == (1usize << n),
            n < 32,
            r@.len() == k,
            forall|k2: int|
                0 <= k2 < k ==> (#[trigger] r@[k2])@ == input_vector(k2 as usize, n as nat),
    {
        let mut row: Vec<bool> = Vec::new();
        for i in 0..n
            invariant
                n < 32,
                row@.len() == i,
                forall|i2: int| 0 <= i2 < i ==> (#[trigger] row@[i2]) == ((k >> (i2 as usize)) & 1
                    != 0),
        {
            row.push((k >> i) & 1 != 0);
        }
        proof {
            assert(row@ =~= input_vector(k, n as nat));
        }
        r.push(row);
    }
    r
}

/// The circuit reproduces the exclusive-or truth table on the `k`-th input
/// vector of width `n`.
pub open spec fn circuit_matches(c: Circuit, k: usize, n: nat) -> bool {
    spec_run(c, input_vector(k, n)) == seq![Some(xor_all(input_vector(k, n)))]
}

/// The circuit reproduces the truth table on all input vectors of width
/// `num_inputs`.
pub open spec fn matches_all(c: Circuit, num_inputs: usize) -> bool {
    forall|k: usize| k < (1usize << num_inputs) ==> #[trigger] circuit_matches(
        c,
        k,
        num_inputs as nat,
    )
}

/// Whether the optional slots carry exactly the given values.
fn outputs_match(got: &Vec<Option<bool>>, expected: &Vec<bool>) -> (r: bool)
    ensures
        r == (got@ == Seq::new(expected@.len(), |i: int| Some(expected@[i]))),
{
    let ghost want = Seq::new(expected@.len(), |i: int| Some(expected@[i]));
    if got.len() != expected.len() {
        return false;
    }
    let n = got.len();
    for i in 0..n
        invariant
            n == got@.len(),
            got@.len() == expected@.len(),
            want == Seq::new(expected@.len(), |i2: int| Some(expected@[i2])),
            forall|i2: int| 0 <= i2 < i ==> (#[trigger] got@[i2]) == want[i2],
    {
        let matches_here = match got[i] {
            Some(b) => b == expected[i],
            None => false,
        };
        if !matches_here {
            proof {
                assert(got@[i as int] != want[i as int]);
            }
            return false;
        }
    }
    proof {
        assert(got@ =~= want);
    }
    true
}

/// Whether the circuit reproduces the exclusive-or truth table on every one
/// of the `2^num_inputs` input vectors.
pub fn test_circuit(circuit: &Circuit, num_inputs: usize) -> (r: bool)
    requires
        num_inputs < 32,
        eval_wf(*circuit, num_inputs as nat),
    ensures
        r == matches_all(*circuit, num_inputs),
{
    let inputs_list = gen_inputs(num_inputs);
    let total = inputs_list.len();
    for k in 0..total
        invariant
            num_inputs < 32,
            eval_wf(*circuit, num_inputs as nat),
            total == inputs_list@.len(),
            inputs_list@.len() == (1usize << num_inputs),
            forall|k2: int|
                0 <= k2 < inputs_list@.len() ==> (#[trigger] inputs_list@[k2])@ == input_vector(
                    k2 as usize,
                    num_inputs as nat,
                ),
            forall|k2: usize| k2 < k ==> #[trigger] circuit_matches(
                *circuit,
                k2,
                num_inputs as nat,
            ),
    {
        let expected = xor_desired_truth_table(&inputs_list[k]);
        let got = circuit.run(&inputs_list[k]);
        if !outputs_match(&got, &expected) {
            proof {
                assert(got@ == spec_run(*circuit, input_vector(k, num_inputs as nat)));
                assert(Seq::new(expected@.len(), |i: int| Some(expected@[i])) =~= seq![
                    Some(xor_all(input_vector(k, num_inputs as nat))),
                ]);
                assert(!circuit_matches(*circuit, k, num_inputs as nat));
            }
            return false;
        }
        proof {
            assert(Seq::new(expected@.len(), |i: int| Some(expected@[i])) =~= seq![
                Some(xor_all(input_vector(k, num_inputs as nat))),
            ]);
            assert(circuit_matches(*circuit, k, num_inputs as nat));
        }
    }
    true
}

/// The circuit that a candidate wiring describes, for a fixed output count
/// and gate catalog.
pub open spec fn candidate_circuit(num_outputs: usize, gates: Vec<Gate>, w: Connections) -> Circuit {
    Circuit { num_outputs, gates, connections: w }
}

/// A copy of a gate catalog.
fn copy_gates(gates: &Vec<Gate>) -> (r: Vec<Gate>)
    ensures
        r@ == gates@,
{
    let mut r: Vec<Gate> = Vec::new();
    let n = gates.len();
    for i in 0..n
        invariant
            n == gates@.len(),
            r@.len() == i,
            forall|j: int| 0 <= j < i ==> (#[trigger] r@[j]) == gates@[j],
    {
        r.push(gates[i]);
    }
    proof {
        assert(r@ =~= gates@);
    }
    r
}

/// The search driver's core: walks the candidate wirings in order and
/// returns the index of the first whose circuit reproduces the whole truth
/// table, or nothing when no candidate does — the explicit no-solution
/// outcome.
pub fn find_matching_circuit(
    num_outputs: usize,
    gates: &Vec<Gate>,
    num_inputs: usize,
    candidates: &Vec<Connections>,
) -> (r: Option<usize>)
    requires
        num_inputs < 32,
        forall|i: int|
            0 <= i < candidates@.len() ==> (#[trigger] candidates@[i]).wf() && eval_wf(
                (candidate_circuit(num_outputs, *gates, candidates@[i])),
                num_inputs as nat,
            ),
    ensures
        match r {
            Some(i) => {
                &&& (i as int) < candidates@.len()
                &&& matches_all(
                    (candidate_circuit(num_outputs, *gates, candidates@[i as int])),
                    num_inputs,
                )
                &&& forall|j: int|
                    0 <= j < i ==> !matches_all(
                        (candidate_circuit(num_outputs, *gates, #[trigger] candidates@[j])),
                        num_inputs,
                    )
            },
            None => forall|j: int|
                0 <= j < candidates@.len() ==> !matches_all(
                    (candidate_circuit(num_outputs, *gates, #[trigger] candidates@[j])),
                    num_inputs,
                ),
        },
{
    let n = candidates.len();
    for i in 0..n
        invariant
            num_inputs < 32,
            n == candidates@.len(),
            forall|i2: int|
                0 <= i2 < candidates@.len() ==> (#[trigger] candidates@[i2]).wf() && eval_wf(
                    (candidate_circuit(num_outputs, *gates, candidates@[i2])),
                    num_inputs as nat,
                ),
            forall|j: int|
                0 <= j < i ==> !matches_all(
                    (candidate_circuit(num_outputs, *gates, #[trigger] candidates@[j])),
                    num_inputs,
                ),
    {
        let circuit = Circuit {
            num_outputs,
            gates: copy_gates(gates),
            connections: candidates[i].duplicate(),
        };
        let ghost spec_circuit = candidate_circuit(num_outputs, *gates, candidates@[i as int]);
        proof {
            assert(circuit.gates@ == spec_circuit.gates@);
            assert(circuit.connections@ == spec_circuit.connections@);
            assert(eval_wf(spec_circuit, num_inputs as nat));
            assert(eval_wf(circuit, num_inputs as nat)) by {
                lemma_eval_wf_congruence(spec_circuit, circuit, num_inputs as nat);
            }
        }
        let ok = test_circuit(&circuit, num_inputs);
        proof {
            if matches_all(circuit, num_inputs) {
                assert forall|k: usize| k < (1usize << num_inputs) implies #[trigger] circuit_matches(
                    spec_circuit,
                    k,
                    num_inputs as nat,
                ) by {
                    assert(circuit_matches(circuit, k, num_inputs as nat));
                    lemma_spec_run_congruence(
                        circuit,
                        spec_circuit,
                        input_vector(k, num_inputs as nat),
                    );
                }
            } else {
                if matches_all(spec_circuit, num_inputs) {
                    assert forall|k: usize| k < (1usize << num_inputs) implies #[trigger] circuit_matches(
                        circuit,
                        k,
                        num_inputs as nat,
                    ) by {
                        assert(circuit_matches(spec_circuit, k, num_inputs as nat));
                        lemma_spec_run_congruence(
                            circuit,
                            spec_circuit,
                            input_vector(k, num_inputs as nat),
                        );
                    }
                    assert(false);
                }
            }
            assert(matches_all(circuit, num_inputs) == matches_all(spec_circuit, num_inputs));
        }
        if ok {
            return Some(i);
        }
    }
    None
}

/// Two circuits with the same output count, catalog and wiring map make
/// the same demands on evaluation.
proof fn lemma_eval_wf_congruence(c1: Circuit, c2: Circuit, num_inputs: nat)
    requires
        eval_wf(c1, num_inputs),
        c1.num_outputs == c2.num_outputs,
        c1.gates@ == c2.gates@,
        c1.connections@ == c2.connections@,
        c2.connections.wf(),
    ensures
        eval_wf(c2, num_inputs),
{
    assert forall|k: crate::endpoint::ConnectionIndex, j: int|
        c2.connections@.contains_key(k) && 0 <= j < c2.connections@[k].len() implies crate::eval::dest_in_range(
        c2,
        #[trigger] c2.connections@[k][j],
    ) by {
        assert(crate::eval::dest_in_range(c1, c1.connections@[k][j]));
    }
}


/// Every wiring the enumerator produces for the endpoint space of a
/// circuit meets the evaluator's precondition for that circuit: the
/// enumeration and the evaluation fit together without further checks.
pub proof fn lemma_produced_wiring_evaluable(
    cs: Connectables,
    num_inputs: usize,
    num_outputs: usize,
    gates: Vec<Gate>,
    w: Connections,
)
    requires
        w.wf(),
        produced_wiring(cs, w@),
        forall|e: ConnectionIndex|
            #[trigger] cs.sources@.contains(e) <==> ordinary_source(e, num_inputs as int, gates@),
        forall|e: ConnectionIndex|
            #[trigger] cs.switch_sources@.contains(e) <==> switch_source(e, gates@),
        forall|e: ConnectionIndex|
            #[trigger] cs.dests@.contains(e) <==> space_dest(e, num_outputs as int, gates@),
    ensures
        eval_wf((candidate_circuit(num_outputs, gates, w)), num_inputs as nat),
{
    let c = candidate_circuit(num_outputs, gates, w);
    assert forall|i: usize| i < num_inputs implies #[trigger] c.connections@.contains_key(
        ConnectionIndex::Input(i),
    ) by {
        assert(ordinary_source(ConnectionIndex::Input(i), num_inputs as int, gates@));
        assert(cs.sources@.contains(ConnectionIndex::Input(i)));
        assert(cs.is_pool_source(ConnectionIndex::Input(i)));
    }
    assert forall|g: usize, oi: usize|
        g < c.gates@.len() && oi < c.gates@[g as int].spec_num_outputs() implies
        #[trigger] c.connections@.contains_key(
        ConnectionIndex::GateOutput { gate_index: g, io_index: oi },
    ) by {
        let e = ConnectionIndex::GateOutput { gate_index: g, io_index: oi };
        if gates@[g as int].spec_is_switch() {
            assert(switch_source(e, gates@));
            assert(cs.switch_sources@.contains(e));
        } else {
            assert(ordinary_source(e, num_inputs as int, gates@));
            assert(cs.sources@.contains(e));
        }
        assert(cs.is_pool_source(e));
    }
    assert forall|k: ConnectionIndex, j: int|
        c.connections@.contains_key(k) && 0 <= j < c.connections@[k].len() implies dest_in_range(
        c,
        #[trigger] c.connections@[k][j],
    ) by {
        assert(c.connections@[k].contains(c.connections@[k][j]));
        assert(map_assigns(w@, c.connections@[k][j]));
        assert(cs.dests@.contains(c.connections@[k][j]));
        assert(space_dest(c.connections@[k][j], num_outputs as int, gates@));
    }
}

} // verus!
