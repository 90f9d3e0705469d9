use vstd::arithmetic::power::{lemma_pow_increases, pow};
use vstd::prelude::*;

use crate::cycle::{
    contains_infinite_loop, dest_gate, first_hop, gate_edge, has_cycle_from_inputs, has_repeat,
    is_gate_path,
};
use crate::endpoint::ConnectionIndex;
use crate::gate::Gate;
use crate::wiring::{
    dest_unique, keys_are_sources, lemma_push_dest_assigns, map_assigns, values_are_destinations,
    Connections,
};

verus! {

/// The endpoint space of a circuit of a given size: the ordinary source
/// pool, the switch-like source pool, and the destination endpoints. The
/// two source pools are searched identically; the split only allows a
/// biased selection later.
#[derive(Debug)]
pub struct Connectables {
    pub sources: Vec<ConnectionIndex>,
    pub switch_sources: Vec<ConnectionIndex>,
    pub dests: Vec<ConnectionIndex>,
}

impl Connectables {
    /// Endpoint `e` belongs to one of the two source pools.
    pub open spec fn is_pool_source(self, e: ConnectionIndex) -> bool {
        self.sources@.contains(e) || self.switch_sources@.contains(e)
    }

    /// The pools hold source endpoints and the destination list holds
    /// destination endpoints.
    pub open spec fn wf(self) -> bool {
        &&& forall|i: int|
            0 <= i < self.sources@.len() ==> (#[trigger] self.sources@[i]).is_source()
        &&& forall|i: int|
            0 <= i < self.switch_sources@.len() ==> (
            #[trigger] self.switch_sources@[i]).is_source()
        &&& forall|i: int|
            0 <= i < self.dests@.len() ==> (#[trigger] self.dests@[i]).is_destination()
    }

    pub fn new(
        sources: Vec<ConnectionIndex>,
        switch_sources: Vec<ConnectionIndex>,
        dests: Vec<ConnectionIndex>,
    ) -> (r: Connectables)
        ensures
            r.sources == sources,
            r.switch_sources == switch_sources,
            r.dests == dests,
    {
        Connectables { sources, switch_sources, dests }
    }
}

/// `e` is an ordinary source endpoint of the space: a primary input, or an
/// output pin of a gate that is not switch-like.
pub open spec fn ordinary_source(e: ConnectionIndex, num_inputs: int, gates: Seq<Gate>) -> bool {
    match e {
        ConnectionIndex::Input(i) => i < num_inputs,
        ConnectionIndex::GateOutput { gate_index, io_index } => gate_index < gates.len()
            && io_index < gates[gate_index as int].spec_num_outputs() && !gates[
            gate_index as int].spec_is_switch(),
        _ => false,
    }
}

/// `e` is a switch-pool source endpoint: an output pin of a switch-like gate.
pub open spec fn switch_source(e: ConnectionIndex, gates: Seq<Gate>) -> bool {
    match e {
        ConnectionIndex::GateOutput { gate_index, io_index } => gate_index < gates.len()
            && io_index < gates[gate_index as int].spec_num_outputs() && gates[
            gate_index as int].spec_is_switch(),
        _ => false,
    }
}

/// `e` is a destination endpoint of the space: a primary output or a gate
/// input pin.
pub open spec fn space_dest(e: ConnectionIndex, num_outputs: int, gates: Seq<Gate>) -> bool {
    match e {
        ConnectionIndex::Output(i) => i < num_outputs,
        ConnectionIndex::GateInput { gate_index, io_index } => gate_index < gates.len()
            && io_index < gates[gate_index as int].spec_num_inputs(),
        _ => false,
    }
}

/// Appending one endpoint extends the members by exactly that endpoint.
proof fn lemma_push_contains(s: Seq<ConnectionIndex>, x: ConnectionIndex)
    ensures
        forall|e: ConnectionIndex| s.push(x).contains(e) <==> s.contains(e) || e == x,
{
    assert forall|e: ConnectionIndex| s.push(x).contains(e) implies s.contains(e) || e == x by {
        let i = choose|i: int| 0 <= i < s.push(x).len() && s.push(x)[i] == e;
        if i < s.len() {
            assert(s[i] == e);
        }
    }
    assert forall|e: ConnectionIndex| s.contains(e) || e == x implies s.push(x).contains(e) by {
        if s.contains(e) {
            let i = choose|i: int| 0 <= i < s.len() && s[i] == e;
            assert(s.push(x)[i] == e);
        } else {
            assert(s.push(x)[s.len() as int] == e);
        }
    }
}

/// The part of the ordinary source pool built once gate `g`'s output pins
/// before pin `oi` are in: the primary inputs and the earlier non-switch
/// output pins.
pub open spec fn src_built(
    e: ConnectionIndex,
    num_inputs: int,
    gates: Seq<Gate>,
    g: int,
    oi: int,
) -> bool {
    ordinary_source(e, num_inputs, gates) && match e {
        ConnectionIndex::Input(_) => true,
        ConnectionIndex::GateOutput { gate_index, io_index } => gate_index < g || (gate_index == g
            && io_index < oi),
        _ => false,
    }
}

/// The part of the switch source pool built once gate `g`'s output pins
/// before pin `oi` are in.
pub open spec fn sw_built(e: ConnectionIndex, gates: Seq<Gate>, g: int, oi: int) -> bool {
    switch_source(e, gates) && match e {
        ConnectionIndex::GateOutput { gate_index, io_index } => gate_index < g || (gate_index == g
            && io_index < oi),
        _ => false,
    }
}

/// The part of the destination space built once gate `g`'s input pins
/// before pin `p` are in: the primary outputs and the earlier input pins.
pub open spec fn dest_built(
    e: ConnectionIndex,
    num_outputs: int,
    gates: Seq<Gate>,
    g: int,
    p: int,
) -> bool {
    space_dest(e, num_outputs, gates) && match e {
        ConnectionIndex::Output(_) => true,
        ConnectionIndex::GateInput { gate_index, io_index } => gate_index < g || (gate_index == g
            && io_index < p),
        _ => false,
    }
}

/// Enumerates every distinguishable wire endpoint of a circuit with the
/// given numbers of primary inputs and outputs and the given gate catalog:
/// primary inputs and non-switch gate output pins form the ordinary source
/// pool, switch-like gates' output pins form the switch source pool, and
/// primary outputs and gate input pins form the destination space.
pub fn generate_all_connection_indices(
    num_inputs: usize,
    num_outputs: usize,
    gates: &Vec<Gate>,
) -> (r: Connectables)
    ensures
        r.wf(),
        forall|e: ConnectionIndex|
            #[trigger] r.sources@.contains(e) <==> ordinary_source(e, num_inputs as int, gates@),
        forall|e: ConnectionIndex|
            #[trigger] r.switch_sources@.contains(e) <==> switch_source(e, gates@),
        forall|e: ConnectionIndex|
            #[trigger] r.dests@.contains(e) <==> space_dest(e, num_outputs as int, gates@),
{
    let mut sources: Vec<ConnectionIndex> = Vec::new();
    let mut switch_sources: Vec<ConnectionIndex> = Vec::new();
    let mut dests: Vec<ConnectionIndex> = Vec::new();
    for i in 0..num_inputs
        invariant
            forall|e: ConnectionIndex|
                #[trigger] sources@.contains(e) <==> src_built(e, i as int, gates@, 0, 0),
    {
        let ghost prev = sources@;
        sources.push(ConnectionIndex::Input(i));
        proof {
            lemma_push_contains(prev, ConnectionIndex::Input(i));
            assert(forall|e: ConnectionIndex|
                #[trigger] sources@.contains(e) <==> prev.contains(e) || e
                    == ConnectionIndex::Input(i));
        }
    }
    for i in 0..num_outputs
        invariant
            forall|e: ConnectionIndex|
                #[trigger] dests@.contains(e) <==> dest_built(e, i as int, gates@, 0, 0),
    {
        let ghost prev = dests@;
        dests.push(ConnectionIndex::Output(i));
        proof {
            lemma_push_contains(prev, ConnectionIndex::Output(i));
            assert(forall|e: ConnectionIndex|
                #[trigger] dests@.contains(e) <==> prev.contains(e) || e
                    == ConnectionIndex::Output(i));
        }
    }
    let ng = gates.len();
    for g in 0..ng
        invariant
            ng == gates@.len(),
            forall|e: ConnectionIndex|
                #[trigger] sources@.contains(e) <==> src_built(
                    e,
                    num_inputs as int,
                    gates@,
                    g as int,
                    0,
                ),
            forall|e: ConnectionIndex|
                #[trigger] switch_sources@.contains(e) <==> sw_built(e, gates@, g as int, 0),
            forall|e: ConnectionIndex|
                #[trigger] dests@.contains(e) <==> dest_built(
                    e,
                    num_outputs as int,
                    gates@,
                    g as int,
                    0,
                ),
    {
        let gate = gates[g];
        let nin = gate.num_inputs();
        for p in 0..nin
            invariant
                ng == gates@.len(),
                0 <= g < ng,
                gate == gates@[g as int],
                nin == gate.spec_num_inputs(),
                forall|e: ConnectionIndex|
                    #[trigger] dests@.contains(e) <==> dest_built(
                        e,
                        num_outputs as int,
                        gates@,
                        g as int,
                        p as int,
                    ),
        {
            let ghost prev = dests@;
            dests.push(ConnectionIndex::GateInput { gate_index: g, io_index: p });
            proof {
                lemma_push_contains(prev, ConnectionIndex::GateInput { gate_index: g, io_index: p });
                assert(forall|e: ConnectionIndex|
                    #[trigger] dests@.contains(e) <==> prev.contains(e) || e
                        == ConnectionIndex::GateInput { gate_index: g, io_index: p });
            }
        }
        let nout = gate.num_outputs();
        let sw = gate.is_switch();
        for oi in 0..nout
            invariant
                ng == gates@.len(),
                0 <= g < ng,
                gate == gates@[g as int],
                nout == gate.spec_num_outputs(),
                sw == gate.spec_is_switch(),
                nin == gate.spec_num_inputs(),
                forall|e: ConnectionIndex|
                    #[trigger] dests@.contains(e) <==> dest_built(
                        e,
                        num_outputs as int,
                        gates@,
                        g as int,
                        nin as int,
                    ),
                forall|e: ConnectionIndex|
                    #[trigger] sources@.contains(e) <==> src_built(
                        e,
                        num_inputs as int,
                        gates@,
                        g as int,
                        oi as int,
                    ),
                forall|e: ConnectionIndex|
                    #[trigger] switch_sources@.contains(e) <==> sw_built(
                        e,
                        gates@,
                        g as int,
                        oi as int,
                    ),
        {
            let pin = ConnectionIndex::GateOutput { gate_index: g, io_index: oi };
            if sw {
                let ghost prev = switch_sources@;
                switch_sources.push(pin);
                proof {
                    lemma_push_contains(prev, pin);
                    assert(forall|e: ConnectionIndex|
                        #[trigger] switch_sources@.contains(e) <==> prev.contains(e) || e == pin);
                }
            } else {
                let ghost prev = sources@;
                sources.push(pin);
                proof {
                    lemma_push_contains(prev, pin);
                    assert(forall|e: ConnectionIndex|
                        #[trigger] sources@.contains(e) <==> prev.contains(e) || e == pin);
                }
            }
        }
        proof {
            assert(forall|e: ConnectionIndex|
                dest_built(e, num_outputs as int, gates@, g as int, nin as int) == dest_built(
                    e,
                    num_outputs as int,
                    gates@,
                    g as int + 1,
                    0,
                ));
            assert(forall|e: ConnectionIndex|
                src_built(e, num_inputs as int, gates@, g as int, nout as int) == src_built(
                    e,
                    num_inputs as int,
                    gates@,
                    g as int + 1,
                    0,
                ));
            assert(forall|e: ConnectionIndex|
                sw_built(e, gates@, g as int, nout as int) == sw_built(
                    e,
                    gates@,
                    g as int + 1,
                    0,
                ));
        }
    }
    proof {
        assert(forall|e: ConnectionIndex|
            src_built(e, num_inputs as int, gates@, ng as int, 0) == ordinary_source(
                e,
                num_inputs as int,
                gates@,
            ));
        assert(forall|e: ConnectionIndex|
            sw_built(e, gates@, ng as int, 0) == switch_source(e, gates@));
        assert(forall|e: ConnectionIndex|
            dest_built(e, num_outputs as int, gates@, ng as int, 0) == space_dest(
                e,
                num_outputs as int,
                gates@,
            ));
        assert forall|i: int| 0 <= i < sources@.len() implies (
        #[trigger] sources@[i]).is_source() by {
            assert(sources@.contains(sources@[i]));
        }
        assert forall|i: int| 0 <= i < switch_sources@.len() implies (
        #[trigger] switch_sources@[i]).is_source() by {
            assert(switch_sources@.contains(switch_sources@[i]));
        }
        assert forall|i: int| 0 <= i < dests@.len() implies (
        #[trigger] dests@[i]).is_destination() by {
            assert(dests@.contains(dests@[i]));
        }
    }
    Connectables::new(sources, switch_sources, dests)
}

/// A partial wiring the enumerator may still extend: all keys come from the
/// source pools, all assigned destinations come from the destination space
/// and each is assigned at most once.
pub open spec fn partial_wiring(cs: Connectables, m: Map<ConnectionIndex, Seq<ConnectionIndex>>) -> bool {
    &&& forall|k: ConnectionIndex| #[trigger] m.contains_key(k) ==> cs.is_pool_source(k)
    &&& forall|k: ConnectionIndex| #[trigger] m.contains_key(k) ==> m[k].len() > 0
    &&& forall|d: ConnectionIndex| #[trigger] map_assigns(m, d) ==> cs.dests@.contains(d)
    &&& dest_unique(m)
}

/// A wiring the enumerator hands out: every destination endpoint is
/// assigned exactly one source; every source endpoint of either pool is
/// bound, and bound to a nonempty destination list, so it drives at least
/// one destination; nothing outside the endpoint space occurs; and no
/// combinational cycle is reachable from the primary inputs.
pub open spec fn produced_wiring(cs: Connectables, m: Map<ConnectionIndex, Seq<ConnectionIndex>>) -> bool {
    &&& forall|k: ConnectionIndex| #[trigger] m.contains_key(k) ==> cs.is_pool_source(k)
    &&& forall|k: ConnectionIndex| cs.is_pool_source(k) ==> #[trigger] m.contains_key(k)
    &&& forall|k: ConnectionIndex| #[trigger] m.contains_key(k) ==> m[k].len() > 0
    &&& forall|d: ConnectionIndex| #[trigger] map_assigns(m, d) ==> cs.dests@.contains(d)
    &&& forall|d: ConnectionIndex| #[trigger] cs.dests@.contains(d) ==> map_assigns(m, d)
    &&& dest_unique(m)
    &&& !has_cycle_from_inputs(m)
}

/// The number of destination endpoints the partial wiring has not yet
/// assigned: the enumerator's recursion grows the wiring one of these at a
/// time.
pub open spec fn count_unassigned(
    dests: Seq<ConnectionIndex>,
    m: Map<ConnectionIndex, Seq<ConnectionIndex>>,
) -> nat
    decreases dests.len(),
{
    if dests.len() == 0 {
        0
    } else {
        count_unassigned(dests.drop_last(), m) + if map_assigns(m, dests.last()) {
            0nat
        } else {
            1nat
        }
    }
}

/// A wiring that assigns more destinations leaves no more unassigned.
proof fn lemma_count_unassigned_mono(
    dests: Seq<ConnectionIndex>,
    m1: Map<ConnectionIndex, Seq<ConnectionIndex>>,
    m2: Map<ConnectionIndex, Seq<ConnectionIndex>>,
)
    requires
        forall|e: ConnectionIndex| #[trigger] map_assigns(m1, e) ==> map_assigns(m2, e),
    ensures
        count_unassigned(dests, m2) <= count_unassigned(dests, m1),
    decreases dests.len(),
{
    if dests.len() == 0 {
    } else {
        lemma_count_unassigned_mono(dests.drop_last(), m1, m2);
    }
}

/// Assigning one more destination endpoint strictly lowers the unassigned
/// count.
proof fn lemma_count_unassigned_insert(
    dests: Seq<ConnectionIndex>,
    m1: Map<ConnectionIndex, Seq<ConnectionIndex>>,
    m2: Map<ConnectionIndex, Seq<ConnectionIndex>>,
    d: ConnectionIndex,
)
    requires
        forall|e: ConnectionIndex| #[trigger] map_assigns(m2, e) <==> map_assigns(m1, e) || e == d,
        !map_assigns(m1, d),
        dests.contains(d),
    ensures
        count_unassigned(dests, m2) < count_unassigned(dests, m1),
    decreases dests.len(),
{
    assert(dests.len() > 0) by {
        let t = choose|t: int| 0 <= t < dests.len() && dests[t] == d;
    }
    assert forall|e: ConnectionIndex| #[trigger] map_assigns(m1, e) implies map_assigns(m2, e) by {}
    if dests.last() == d {
        lemma_count_unassigned_mono(dests.drop_last(), m1, m2);
        assert(map_assigns(m2, d));
    } else {
        assert(dests.drop_last().contains(d)) by {
            let t = choose|t: int| 0 <= t < dests.len() && dests[t] == d;
            assert(t < dests.len() - 1);
            assert(dests.drop_last()[t] == d);
        }
        lemma_count_unassigned_insert(dests.drop_last(), m1, m2, d);
        assert(map_assigns(m2, dests.last()) == map_assigns(m1, dests.last()));
    }
}

/// Adding a destination that nothing assigned yet keeps every destination
/// assigned at most once.
proof fn lemma_push_dest_unique(
    m1: Map<ConnectionIndex, Seq<ConnectionIndex>>,
    m2: Map<ConnectionIndex, Seq<ConnectionIndex>>,
    source: ConnectionIndex,
    dest: ConnectionIndex,
)
    requires
        m1.contains_key(source) ==> m2 == m1.insert(source, m1[source].push(dest)),
        !m1.contains_key(source) ==> m2 == m1.insert(source, seq![dest]),
        dest_unique(m1),
        !map_assigns(m1, dest),
    ensures
        dest_unique(m2),
{
    let old_len: int = if m1.contains_key(source) {
        m1[source].len() as int
    } else {
        0
    };
    assert forall|k1: ConnectionIndex, j1: int, k2: ConnectionIndex, j2: int|
        m2.contains_key(k1) && 0 <= j1 < m2[k1].len() && m2.contains_key(k2) && 0 <= j2
            < m2[k2].len() && (#[trigger] m2[k1][j1]) == (#[trigger] m2[k2][j2]) implies k1 == k2
        && j1 == j2 by {
        if k1 == source && j1 == old_len {
            if k2 == source && j2 == old_len {
            } else {
                assert(m2[k1][j1] == dest);
                if k2 == source {
                    assert(j2 < old_len);
                    assert(m1.contains_key(source));
                    assert(m1[source][j2] == dest);
                    assert(m1.contains_key(source) && m1[source].contains(dest));
                } else {
                    assert(m1.contains_key(k2) && m1[k2][j2] == dest);
                    assert(m1[k2].contains(dest));
                }
                assert(map_assigns(m1, dest));
                assert(false);
            }
        } else if k2 == source && j2 == old_len {
            assert(m2[k2][j2] == dest);
            if k1 == source {
                assert(j1 < old_len);
                assert(m1.contains_key(source));
                assert(m1[source][j1] == dest);
                assert(m1[source].contains(dest));
            } else {
                assert(m1.contains_key(k1) && m1[k1][j1] == dest);
                assert(m1[k1].contains(dest));
            }
            assert(map_assigns(m1, dest));
            assert(false);
        } else {
            if k1 == source {
                assert(j1 < old_len);
                assert(m1.contains_key(source));
            }
            if k2 == source {
                assert(j2 < old_len);
                assert(m1.contains_key(source));
            }
            assert(m1.contains_key(k1) && m1[k1][j1] == m2[k1][j1]);
            assert(m1.contains_key(k2) && m1[k2][j2] == m2[k2][j2]);
        }
    }
}


/// Which gate's output pin this source endpoint is, if any.
pub open spec fn source_gate(s: ConnectionIndex) -> Option<usize> {
    match s {
        ConnectionIndex::GateOutput { gate_index, .. } => Some(gate_index),
        _ => None,
    }
}

/// An assignment of the endpoint space: one chosen source for every
/// destination endpoint, drawing on both pools and leaving no pool source
/// unused.
#[verifier::opaque]
pub open spec fn legal_assignment(cs: Connectables, f: Map<ConnectionIndex, ConnectionIndex>) -> bool {
    &&& forall|d: ConnectionIndex| #[trigger] f.contains_key(d) <==> cs.dests@.contains(d)
    &&& forall|d: ConnectionIndex| #[trigger] f.contains_key(d) ==> cs.is_pool_source(f[d])
    &&& forall|s: ConnectionIndex|
        #[trigger] cs.is_pool_source(s) ==> exists|d: ConnectionIndex|
            #[trigger] f.contains_key(d) && f[d] == s
}

/// Under assignment `f`, some output pin of gate `a` feeds an input pin of
/// gate `b`.
pub open spec fn assign_edge(f: Map<ConnectionIndex, ConnectionIndex>, a: usize, b: usize) -> bool {
    exists|ii: usize|
        f.contains_key(ConnectionIndex::GateInput { gate_index: b, io_index: ii }) && source_gate(
            #[trigger] f[ConnectionIndex::GateInput { gate_index: b, io_index: ii }],
        ) == Some(a)
}

/// Under assignment `f`, primary input `i` feeds an input pin of gate `b`.
pub open spec fn assign_first_hop(f: Map<ConnectionIndex, ConnectionIndex>, i: usize, b: usize) -> bool {
    exists|ii: usize|
        f.contains_key(ConnectionIndex::GateInput { gate_index: b, io_index: ii }) && (
        #[trigger] f[ConnectionIndex::GateInput { gate_index: b, io_index: ii }])
            == ConnectionIndex::Input(i)
}

/// `p` is a chain of gates under assignment `f`.
pub open spec fn is_assign_path(f: Map<ConnectionIndex, ConnectionIndex>, p: Seq<usize>) -> bool {
    forall|k: int| 0 < k < p.len() ==> assign_edge(f, p[k - 1], #[trigger] p[k])
}

/// The assignment wires a combinational cycle that a forward path from some
/// primary input reaches.
#[verifier::opaque]
pub open spec fn assign_cycle_from_inputs(f: Map<ConnectionIndex, ConnectionIndex>) -> bool {
    exists|i: usize, p: Seq<usize>|
        {
            &&& p.len() > 0
            &&& #[trigger] assign_first_hop(f, i, p[0])
            &&& is_assign_path(f, p)
            &&& has_repeat(p)
        }
}

/// Every binding of the partial wiring agrees with assignment `f`.
#[verifier::opaque]
pub open spec fn consistent_with(
    m: Map<ConnectionIndex, Seq<ConnectionIndex>>,
    f: Map<ConnectionIndex, ConnectionIndex>,
) -> bool {
    forall|k: ConnectionIndex, j: int|
        m.contains_key(k) && 0 <= j < m[k].len() ==> f.contains_key(#[trigger] m[k][j]) && f[m[k][
            j]] == k
}

/// The wiring gives every destination endpoint the source that `f` chose
/// for it.
#[verifier::opaque]
pub open spec fn realizes(
    m: Map<ConnectionIndex, Seq<ConnectionIndex>>,
    f: Map<ConnectionIndex, ConnectionIndex>,
    dests: Seq<ConnectionIndex>,
) -> bool {
    forall|d: ConnectionIndex|
        #[trigger] dests.contains(d) ==> m.contains_key(f[d]) && m[f[d]].contains(d)
}

/// A wiring consistent with `f` can only have input-reachable cycles that
/// `f` itself wires.
proof fn lemma_cycle_transfers(
    m: Map<ConnectionIndex, Seq<ConnectionIndex>>,
    f: Map<ConnectionIndex, ConnectionIndex>,
)
    requires
        consistent_with(m, f),
        has_cycle_from_inputs(m),
    ensures
        assign_cycle_from_inputs(f),
{
    reveal(assign_cycle_from_inputs);
    reveal(consistent_with);
    let (i, p) = choose|i: usize, p: Seq<usize>|
        {
            &&& m.contains_key(ConnectionIndex::Input(i))
            &&& p.len() > 0
            &&& #[trigger] first_hop(m, ConnectionIndex::Input(i), p[0])
            &&& is_gate_path(m, p)
            &&& has_repeat(p)
        };
    assert(assign_first_hop(f, i, p[0])) by {
        let t = choose|t: int|
            0 <= t < m[ConnectionIndex::Input(i)].len() && dest_gate(
                #[trigger] m[ConnectionIndex::Input(i)][t],
            ) == Some(p[0]);
        let d = m[ConnectionIndex::Input(i)][t];
        let ii = d->GateInput_io_index;
        assert(d == ConnectionIndex::GateInput { gate_index: p[0], io_index: ii });
        assert(f.contains_key(d) && f[d] == ConnectionIndex::Input(i));
    }
    assert(is_assign_path(f, p)) by {
        assert forall|k: int| 0 < k < p.len() implies assign_edge(f, p[k - 1], #[trigger] p[k]) by {
            assert(gate_edge(m, p[k - 1], p[k]));
            let (oi, t) = choose|oi: usize, t: int|
                m.contains_key(ConnectionIndex::GateOutput { gate_index: p[k - 1], io_index: oi })
                    && 0 <= t < m[ConnectionIndex::GateOutput {
                    gate_index: p[k - 1],
                    io_index: oi,
                }].len() && dest_gate(
                    #[trigger] m[ConnectionIndex::GateOutput {
                        gate_index: p[k - 1],
                        io_index: oi,
                    }][t],
                ) == Some(p[k]);
            let key = ConnectionIndex::GateOutput { gate_index: p[k - 1], io_index: oi };
            let d = m[key][t];
            let ii = d->GateInput_io_index;
            assert(d == ConnectionIndex::GateInput { gate_index: p[k], io_index: ii });
            assert(f.contains_key(d) && f[d] == key);
            assert(source_gate(f[d]) == Some(p[k - 1]));
        }
    }
    assert(p.len() > 0 && assign_first_hop(f, i, p[0]) && is_assign_path(f, p) && has_repeat(p));
}

/// Binding `d` to the source that `f` chose keeps the wiring consistent
/// with `f`.
proof fn lemma_consistent_push(
    m1: Map<ConnectionIndex, Seq<ConnectionIndex>>,
    m2: Map<ConnectionIndex, Seq<ConnectionIndex>>,
    source: ConnectionIndex,
    dest: ConnectionIndex,
    f: Map<ConnectionIndex, ConnectionIndex>,
)
    requires
        m1.contains_key(source) ==> m2 == m1.insert(source, m1[source].push(dest)),
        !m1.contains_key(source) ==> m2 == m1.insert(source, seq![dest]),
        consistent_with(m1, f),
        f.contains_key(dest),
        f[dest] == source,
    ensures
        consistent_with(m2, f),
{
    reveal(consistent_with);
    let old_len: int = if m1.contains_key(source) {
        m1[source].len() as int
    } else {
        0
    };
    assert forall|k: ConnectionIndex, j: int|
        m2.contains_key(k) && 0 <= j < m2[k].len() implies f.contains_key(#[trigger] m2[k][j])
        && f[m2[k][j]] == k by {
        if k == source {
            if j < old_len {
                assert(m1.contains_key(source));
                assert(m2[k][j] == m1[k][j]);
            } else {
                assert(m2[k][j] == dest);
            }
        } else {
            assert(m1.contains_key(k) && m2[k][j] == m1[k][j]);
        }
    }
}

/// If binding `d` to `s` wires an input-reachable cycle, no acyclic legal
/// assignment chooses `s` for `d` on top of this partial wiring.
proof fn lemma_cycle_blocks_assignments(
    cs: Connectables,
    m1: Map<ConnectionIndex, Seq<ConnectionIndex>>,
    m2: Map<ConnectionIndex, Seq<ConnectionIndex>>,
    s: ConnectionIndex,
    d: ConnectionIndex,
)
    requires
        m1.contains_key(s) ==> m2 == m1.insert(s, m1[s].push(d)),
        !m1.contains_key(s) ==> m2 == m1.insert(s, seq![d]),
        has_cycle_from_inputs(m2),
    ensures
        forall|f: Map<ConnectionIndex, ConnectionIndex>|
            #[trigger] legal_assignment(cs, f) && consistent_with(m1, f) && f.contains_key(d)
                && f[d] == s ==> assign_cycle_from_inputs(f),
{
    assert forall|f: Map<ConnectionIndex, ConnectionIndex>|
        #[trigger] legal_assignment(cs, f) && consistent_with(m1, f) && f.contains_key(d) && f[d]
            == s implies assign_cycle_from_inputs(f) by {
        lemma_consistent_push(m1, m2, s, d, f);
        lemma_cycle_transfers(m2, f);
    }
}

/// Binding `d` to `s` keeps every assignment that chose `s` for `d`
/// consistent with the wiring.
proof fn lemma_push_keeps_assignments(
    cs: Connectables,
    m1: Map<ConnectionIndex, Seq<ConnectionIndex>>,
    m2: Map<ConnectionIndex, Seq<ConnectionIndex>>,
    s: ConnectionIndex,
    d: ConnectionIndex,
)
    requires
        m1.contains_key(s) ==> m2 == m1.insert(s, m1[s].push(d)),
        !m1.contains_key(s) ==> m2 == m1.insert(s, seq![d]),
    ensures
        forall|f: Map<ConnectionIndex, ConnectionIndex>|
            #[trigger] legal_assignment(cs, f) && consistent_with(m1, f) && f.contains_key(d)
                && f[d] == s ==> consistent_with(m2, f),
{
    assert forall|f: Map<ConnectionIndex, ConnectionIndex>|
        #[trigger] legal_assignment(cs, f) && consistent_with(m1, f) && f.contains_key(d) && f[d]
            == s implies consistent_with(m2, f) by {
        lemma_consistent_push(m1, m2, s, d, f);
    }
}

/// Moves copies of all completions into the result list, keeping earlier
/// entries in place.
fn append_all(results: &mut Vec<Connections>, sub: &Vec<Connections>)
    ensures
        final(results)@.len() == old(results)@.len() + sub@.len(),
        forall|i: int| 0 <= i < old(results)@.len() ==> (#[trigger] final(results)@[i]) == old(
            results,
        )@[i],
        forall|i: int|
            old(results)@.len() <= i < final(results)@.len() ==> (#[trigger] final(results)@[i])@
                == sub@[i - old(results)@.len()]@ && (sub@[i - old(results)@.len()].wf()
                ==> final(results)@[i].wf()),
{
    let ns = sub.len();
    for qi in 0..ns
        invariant
            ns == sub@.len(),
            results@.len() == old(results)@.len() + qi,
            forall|i: int|
                0 <= i < old(results)@.len() ==> (#[trigger] results@[i]) == old(results)@[i],
            forall|i: int|
                old(results)@.len() <= i < results@.len() ==> (#[trigger] results@[i])@ == sub@[i
                    - old(results)@.len()]@ && (sub@[i - old(results)@.len()].wf() ==> results@[
                    i].wf()),
    {
        let w = sub[qi].duplicate();
        results.push(w);
    }
}

/// Every binding of `m1` survives in `m2`: each bound source is still
/// bound, and its old destination list is a prefix of the new one — nothing
/// established is removed or reordered, only new destinations are appended.
pub open spec fn extends_wiring(
    m1: Map<ConnectionIndex, Seq<ConnectionIndex>>,
    m2: Map<ConnectionIndex, Seq<ConnectionIndex>>,
) -> bool {
    forall|k: ConnectionIndex|
        #[trigger] m1.contains_key(k) ==> m2.contains_key(k) && m1[k].is_prefix_of(m2[k])
}

/// Every destination endpoint of the space has a source in the wiring.
pub open spec fn all_dests_assigned(cs: Connectables, m: Map<ConnectionIndex, Seq<ConnectionIndex>>) -> bool {
    forall|t: int| 0 <= t < cs.dests@.len() ==> map_assigns(m, #[trigger] cs.dests@[t])
}

/// Every source endpoint of either pool is bound in the wiring.
pub open spec fn all_sources_bound(cs: Connectables, m: Map<ConnectionIndex, Seq<ConnectionIndex>>) -> bool {
    forall|k: ConnectionIndex| cs.is_pool_source(k) ==> #[trigger] m.contains_key(k)
}

/// A wiring extends itself.
proof fn lemma_extends_refl(m: Map<ConnectionIndex, Seq<ConnectionIndex>>)
    ensures
        extends_wiring(m, m),
{
    assert forall|k: ConnectionIndex| #[trigger] m.contains_key(k) implies m.contains_key(k)
        && m[k].is_prefix_of(m[k]) by {
        assert(m[k] =~= m[k].subrange(0, m[k].len() as int));
    }
}

/// Extension of wirings composes.
proof fn lemma_extends_trans(
    m1: Map<ConnectionIndex, Seq<ConnectionIndex>>,
    m2: Map<ConnectionIndex, Seq<ConnectionIndex>>,
    m3: Map<ConnectionIndex, Seq<ConnectionIndex>>,
)
    requires
        extends_wiring(m1, m2),
        extends_wiring(m2, m3),
    ensures
        extends_wiring(m1, m3),
{
    assert forall|k: ConnectionIndex| #[trigger] m1.contains_key(k) implies m3.contains_key(k)
        && m1[k].is_prefix_of(m3[k]) by {
        assert(m2.contains_key(k) && m1[k].is_prefix_of(m2[k]));
        assert(m3.contains_key(k) && m2[k].is_prefix_of(m3[k]));
        assert(m1[k] =~= m3[k].subrange(0, m1[k].len() as int)) by {
            assert forall|j: int| 0 <= j < m1[k].len() implies m1[k][j] == m3[k][j] by {
                assert(m1[k][j] == m2[k].subrange(0, m1[k].len() as int)[j]);
                assert(m2[k][j] == m3[k].subrange(0, m2[k].len() as int)[j]);
            }
        }
    }
}

/// Binding one more destination extends the wiring.
proof fn lemma_push_dest_extends(
    m1: Map<ConnectionIndex, Seq<ConnectionIndex>>,
    m2: Map<ConnectionIndex, Seq<ConnectionIndex>>,
    source: ConnectionIndex,
    dest: ConnectionIndex,
)
    requires
        m1.contains_key(source) ==> m2 == m1.insert(source, m1[source].push(dest)),
        !m1.contains_key(source) ==> m2 == m1.insert(source, seq![dest]),
    ensures
        extends_wiring(m1, m2),
{
    assert forall|k: ConnectionIndex| #[trigger] m1.contains_key(k) implies m2.contains_key(k)
        && m1[k].is_prefix_of(m2[k]) by {
        if k == source {
            assert(m1[source] =~= m1[source].push(dest).subrange(0, m1[source].len() as int));
        } else {
            assert(m1[k] =~= m2[k].subrange(0, m1[k].len() as int));
        }
    }
}

/// The wiring after binding destination `d` to source `s`.
pub open spec fn push_binding(
    m: Map<ConnectionIndex, Seq<ConnectionIndex>>,
    s: ConnectionIndex,
    d: ConnectionIndex,
) -> Map<ConnectionIndex, Seq<ConnectionIndex>> {
    if m.contains_key(s) {
        m.insert(s, m[s].push(d))
    } else {
        m.insert(s, seq![d])
    }
}

/// The index of the first destination endpoint at or after `t` that no
/// source drives yet.
pub open spec fn first_unassigned_from(
    dests: Seq<ConnectionIndex>,
    m: Map<ConnectionIndex, Seq<ConnectionIndex>>,
    t: int,
) -> Option<int>
    decreases dests.len() - t,
{
    if t < 0 || t >= dests.len() {
        None
    } else if !map_assigns(m, dests[t]) {
        Some(t)
    } else {
        first_unassigned_from(dests, m, t + 1)
    }
}

/// Every endpoint of the pool sequence is bound in the wiring.
pub open spec fn seq_sources_bound(
    pool: Seq<ConnectionIndex>,
    m: Map<ConnectionIndex, Seq<ConnectionIndex>>,
) -> bool {
    forall|i: int| 0 <= i < pool.len() ==> m.contains_key(#[trigger] pool[i])
}

/// The completions explored after tentatively binding `d` to `s`: none when
/// the binding is out of order or wires an input-reachable cycle.
pub open spec fn branch_wirings(
    srcs: Seq<ConnectionIndex>,
    sws: Seq<ConnectionIndex>,
    dests: Seq<ConnectionIndex>,
    m: Map<ConnectionIndex, Seq<ConnectionIndex>>,
    s: ConnectionIndex,
    d: ConnectionIndex,
) -> Seq<Map<ConnectionIndex, Seq<ConnectionIndex>>>
    decreases count_unassigned(dests, m), 0int, 0int,
        via branch_wirings_decreases
{
    if !map_assigns(m, d) && dests.contains(d) && !has_cycle_from_inputs(push_binding(m, s, d)) {
        enum_wirings(srcs, sws, dests, push_binding(m, s, d))
    } else {
        Seq::empty()
    }
}

#[via_fn]
proof fn branch_wirings_decreases(
    srcs: Seq<ConnectionIndex>,
    sws: Seq<ConnectionIndex>,
    dests: Seq<ConnectionIndex>,
    m: Map<ConnectionIndex, Seq<ConnectionIndex>>,
    s: ConnectionIndex,
    d: ConnectionIndex,
) {
    if !map_assigns(m, d) && dests.contains(d) && !has_cycle_from_inputs(push_binding(m, s, d)) {
        lemma_push_dest_assigns(m, push_binding(m, s, d), s, d);
        lemma_count_unassigned_insert(dests, m, push_binding(m, s, d), d);
    }
}

/// The branches for the source pool positions from `si` on, in pool order:
/// the ordinary pool first, then the switch pool.
pub open spec fn enum_branches(
    srcs: Seq<ConnectionIndex>,
    sws: Seq<ConnectionIndex>,
    dests: Seq<ConnectionIndex>,
    m: Map<ConnectionIndex, Seq<ConnectionIndex>>,
    d: ConnectionIndex,
    si: int,
) -> Seq<Map<ConnectionIndex, Seq<ConnectionIndex>>>
    decreases count_unassigned(dests, m), 1int, (srcs + sws).len() - si,
{
    if si < 0 || si >= (srcs + sws).len() {
        Seq::empty()
    } else {
        branch_wirings(srcs, sws, dests, m, (srcs + sws)[si], d) + enum_branches(
            srcs,
            sws,
            dests,
            m,
            d,
            si + 1,
        )
    }
}

/// The exact sequence of wirings the enumerator yields for this endpoint
/// space on top of the partial wiring `m`: a pure function of the space and
/// the partial wiring, so the enumeration is deterministic and restartable,
/// every run yielding the same wirings in the same left-to-right branch
/// order.
pub open spec fn enum_wirings(
    srcs: Seq<ConnectionIndex>,
    sws: Seq<ConnectionIndex>,
    dests: Seq<ConnectionIndex>,
    m: Map<ConnectionIndex, Seq<ConnectionIndex>>,
) -> Seq<Map<ConnectionIndex, Seq<ConnectionIndex>>>
    decreases count_unassigned(dests, m), 2int, 0int,
{
    match first_unassigned_from(dests, m, 0) {
        None => if seq_sources_bound(srcs + sws, m) {
            seq![m]
        } else {
            Seq::empty()
        },
        Some(t) => enum_branches(srcs, sws, dests, m, dests[t], 0),
    }
}

/// Raising a nonnegative base to any power stays nonnegative.
proof fn lemma_pow_nonneg(b: int, e: nat)
    requires
        b >= 0,
    ensures
        pow(b, e) >= 0,
    decreases e,
{
    reveal(pow);
    if e > 0 {
        lemma_pow_nonneg(b, (e - 1) as nat);
    }
}

/// A wiring that assigns every destination endpoint leaves none unassigned.
proof fn lemma_count_unassigned_all_assigned(
    dests: Seq<ConnectionIndex>,
    m: Map<ConnectionIndex, Seq<ConnectionIndex>>,
)
    requires
        forall|t: int| 0 <= t < dests.len() ==> map_assigns(m, #[trigger] dests[t]),
    ensures
        count_unassigned(dests, m) == 0,
    decreases dests.len(),
{
    if dests.len() > 0 {
        assert(forall|t: int|
            0 <= t < dests.drop_last().len() ==> (#[trigger] dests.drop_last()[t]) == dests[t]);
        lemma_count_unassigned_all_assigned(dests.drop_last(), m);
        assert(map_assigns(m, dests[dests.len() - 1]));
    }
}

/// The empty wiring leaves every destination endpoint unassigned.
proof fn lemma_count_unassigned_empty(dests: Seq<ConnectionIndex>)
    ensures
        count_unassigned(dests, Map::<ConnectionIndex, Seq<ConnectionIndex>>::empty())
            == dests.len(),
    decreases dests.len(),
{
    let m = Map::<ConnectionIndex, Seq<ConnectionIndex>>::empty();
    if dests.len() > 0 {
        lemma_count_unassigned_empty(dests.drop_last());
        assert(!map_assigns(m, dests.last())) by {
            if map_assigns(m, dests.last()) {
                let k = choose|k: ConnectionIndex|
                    #[trigger] m.contains_key(k) && m[k].contains(dests.last());
            }
        }
    }
}

/// When the scan finds no unassigned destination, all of them are assigned.
proof fn lemma_first_unassigned_all(
    dests: Seq<ConnectionIndex>,
    m: Map<ConnectionIndex, Seq<ConnectionIndex>>,
    t: int,
)
    requires
        first_unassigned_from(dests, m, t) is None,
        0 <= t,
    ensures
        forall|t2: int| t <= t2 < dests.len() ==> map_assigns(m, #[trigger] dests[t2]),
    decreases dests.len() - t,
{
    if t < dests.len() {
        lemma_first_unassigned_all(dests, m, t + 1);
    }
}

/// What the scan returns is an unassigned destination of the space.
proof fn lemma_first_unassigned_some(
    dests: Seq<ConnectionIndex>,
    m: Map<ConnectionIndex, Seq<ConnectionIndex>>,
    t0: int,
)
    requires
        first_unassigned_from(dests, m, t0) is Some,
        0 <= t0,
    ensures
        t0 <= first_unassigned_from(dests, m, t0)->0 < dests.len(),
        !map_assigns(m, dests[first_unassigned_from(dests, m, t0)->0]),
    decreases dests.len() - t0,
{
    if t0 < dests.len() && map_assigns(m, dests[t0]) {
        lemma_first_unassigned_some(dests, m, t0 + 1);
    }
}

/// An unassigned destination of the space keeps the unassigned count
/// positive.
proof fn lemma_count_unassigned_positive(
    dests: Seq<ConnectionIndex>,
    m: Map<ConnectionIndex, Seq<ConnectionIndex>>,
    d: ConnectionIndex,
)
    requires
        dests.contains(d),
        !map_assigns(m, d),
    ensures
        count_unassigned(dests, m) >= 1,
    decreases dests.len(),
{
    if dests.len() > 0 {
        if dests.last() == d {
        } else {
            assert(dests.drop_last().contains(d)) by {
                let t = choose|t: int| 0 <= t < dests.len() && dests[t] == d;
                assert(dests.drop_last()[t] == d);
            }
            lemma_count_unassigned_positive(dests.drop_last(), m, d);
        }
    }
}

/// The enumeration yields at most `|pool|` to the power of the number of
/// still-unassigned destinations: the size of the candidate space before
/// pruning.
pub proof fn lemma_enum_wirings_count(
    srcs: Seq<ConnectionIndex>,
    sws: Seq<ConnectionIndex>,
    dests: Seq<ConnectionIndex>,
    m: Map<ConnectionIndex, Seq<ConnectionIndex>>,
)
    ensures
        enum_wirings(srcs, sws, dests, m).len() <= pow(
            (srcs + sws).len() as int,
            count_unassigned(dests, m),
        ),
    decreases count_unassigned(dests, m), 2int, 0int,
{
    let pool = srcs + sws;
    let cu = count_unassigned(dests, m);
    match first_unassigned_from(dests, m, 0) {
        None => {
            lemma_first_unassigned_all(dests, m, 0);
            lemma_count_unassigned_all_assigned(dests, m);
            reveal(pow);
        },
        Some(t) => {
            lemma_first_unassigned_some(dests, m, 0);
            lemma_count_unassigned_positive(dests, m, dests[t]);
            lemma_enum_branches_count(srcs, sws, dests, m, dests[t], 0);
            assert(pool.len() as int * pow(pool.len() as int, (cu - 1) as nat) == pow(
                pool.len() as int,
                cu,
            )) by {
                reveal(pow);
            }
        },
    }
}

proof fn lemma_enum_branches_count(
    srcs: Seq<ConnectionIndex>,
    sws: Seq<ConnectionIndex>,
    dests: Seq<ConnectionIndex>,
    m: Map<ConnectionIndex, Seq<ConnectionIndex>>,
    d: ConnectionIndex,
    si: int,
)
    requires
        0 <= si <= (srcs + sws).len(),
    ensures
        enum_branches(srcs, sws, dests, m, d, si).len() <= ((srcs + sws).len() - si) * pow(
            (srcs + sws).len() as int,
            (count_unassigned(dests, m) - 1) as nat,
        ),
    decreases count_unassigned(dests, m), 1int, (srcs + sws).len() - si,
{
    let pool = srcs + sws;
    let ln = pool.len() as int;
    let cu = count_unassigned(dests, m);
    let p = pow(ln, (cu - 1) as nat);
    lemma_pow_nonneg(ln, (cu - 1) as nat);
    if si >= pool.len() {
    } else {
        let s = pool[si];
        let m2 = push_binding(m, s, d);
        lemma_enum_branches_count(srcs, sws, dests, m, d, si + 1);
        let here = branch_wirings(srcs, sws, dests, m, s, d);
        assert(here.len() <= p) by {
            if !map_assigns(m, d) && dests.contains(d) && !has_cycle_from_inputs(m2) {
                lemma_push_dest_assigns(m, m2, s, d);
                lemma_count_unassigned_insert(dests, m, m2, d);
                lemma_enum_wirings_count(srcs, sws, dests, m2);
                lemma_pow_increases(
                    pool.len(),
                    count_unassigned(dests, m2),
                    (cu - 1) as nat,
                );
            }
        }
        assert(p + (ln - si - 1) * p == (ln - si) * p) by (nonlinear_arith);
    }
}

/// The index of a destination endpoint that no source drives yet, if any.
fn find_unassigned(cs_dests: &Vec<ConnectionIndex>, conns: &Connections) -> (r: Option<usize>)
    requires
        conns.wf(),
    ensures
        match r {
            Some(t) => (t as int) < cs_dests@.len() && !map_assigns(conns@, cs_dests@[t as int])
                && first_unassigned_from(cs_dests@, conns@, 0) == Some(t as int),
            None => (forall|t: int|
                0 <= t < cs_dests@.len() ==> map_assigns(conns@, #[trigger] cs_dests@[t]))
                && first_unassigned_from(cs_dests@, conns@, 0) is None,
        },
{
    let n = cs_dests.len();
    for t in 0..n
        invariant
            conns.wf(),
            n == cs_dests@.len(),
            forall|t2: int| 0 <= t2 < t ==> map_assigns(conns@, #[trigger] cs_dests@[t2]),
            first_unassigned_from(cs_dests@, conns@, 0) == first_unassigned_from(
                cs_dests@,
                conns@,
                t as int,
            ),
    {
        if !conns.is_assigned(cs_dests[t]) {
            proof {
                assert(first_unassigned_from(cs_dests@, conns@, t as int) == Some(t as int));
            }
            return Some(t);
        }
        proof {
            assert(first_unassigned_from(cs_dests@, conns@, t as int) == first_unassigned_from(
                cs_dests@,
                conns@,
                t as int + 1,
            ));
        }
    }
    proof {
        assert(first_unassigned_from(cs_dests@, conns@, n as int) is None);
    }
    None
}

/// Whether every endpoint of the pool is a key of the wiring.
fn all_keys_present(pool: &Vec<ConnectionIndex>, conns: &Connections) -> (r: bool)
    requires
        conns.wf(),
    ensures
        r == forall|i: int| 0 <= i < pool@.len() ==> conns@.contains_key(#[trigger] pool@[i]),
{
    let n = pool.len();
    for i in 0..n
        invariant
            conns.wf(),
            n == pool@.len(),
            forall|i2: int| 0 <= i2 < i ==> conns@.contains_key(#[trigger] pool@[i2]),
    {
        if !conns.contains_key(pool[i]) {
            return false;
        }
    }
    true
}

/// Tries to bind destination `d` to source `s` on top of `connections`:
/// when the bound wiring stays free of input-reachable cycles, every
/// completion of it is added to `results`.
#[verifier::rlimit(60)]
fn try_source(
    connectables: &Connectables,
    connections: &Connections,
    s: ConnectionIndex,
    d: ConnectionIndex,
    results: &mut Vec<Connections>,
)
    requires
        connectables.wf(),
        connections.wf(),
        partial_wiring(*connectables, connections@),
        connectables.is_pool_source(s),
        connectables.dests@.contains(d),
        !map_assigns(connections@, d),
        forall|i: int|
            0 <= i < old(results)@.len() ==> (#[trigger] old(results)@[i]).wf() && produced_wiring(
                *connectables,
                old(results)@[i]@,
            ),
    ensures
        forall|i: int|
            0 <= i < final(results)@.len() ==> (#[trigger] final(results)@[i]).wf()
                && produced_wiring(*connectables, final(results)@[i]@),
        final(results)@.len() >= old(results)@.len(),
        forall|i: int| 0 <= i < old(results)@.len() ==> final(results)@[i] == old(results)@[i],
        forall|i: int|
            old(results)@.len() <= i < final(results)@.len() ==> extends_wiring(
                connections@,
                (#[trigger] final(results)@[i])@,
            ),
        final(results)@.len() == old(results)@.len() + branch_wirings(
            connectables.sources@,
            connectables.switch_sources@,
            connectables.dests@,
            connections@,
            s,
            d,
        ).len(),
        forall|i: int|
            old(results)@.len() <= i < final(results)@.len() ==> (#[trigger] final(results)@[i])@
                == branch_wirings(
                connectables.sources@,
                connectables.switch_sources@,
                connectables.dests@,
                connections@,
                s,
                d,
            )[i - old(results)@.len()],
        forall|f: Map<ConnectionIndex, ConnectionIndex>|
            #[trigger] legal_assignment(*connectables, f) && !assign_cycle_from_inputs(f)
                && consistent_with(connections@, f) && f.contains_key(d) && f[d] == s
                ==> exists|i: int|
                0 <= i < final(results)@.len() && #[trigger] realizes(
                    final(results)@[i]@,
                    f,
                    connectables.dests@,
                ),
    decreases count_unassigned(connectables.dests@, connections@), 0int,
{
    let mut c2 = connections.duplicate();
    c2.push_dest(s, d);
    proof {
        assert forall|k: ConnectionIndex| #[trigger] c2@.contains_key(k) implies connectables.is_pool_source(
            k,
        ) by {
            if k != s {
                assert(connections@.contains_key(k));
            }
        }
        assert forall|d2: ConnectionIndex| #[trigger] map_assigns(c2@, d2) implies connectables.dests@.contains(
            d2,
        ) by {}
        assert forall|k: ConnectionIndex| #[trigger] c2@.contains_key(k) implies c2@[k].len()
            > 0 by {
            if k != s {
                assert(connections@.contains_key(k));
            }
        }
        lemma_push_dest_unique(connections@, c2@, s, d);
        lemma_push_dest_extends(connections@, c2@, s, d);
        assert(c2@ == push_binding(connections@, s, d));
        assert(keys_are_sources(c2@)) by {
            assert forall|k: ConnectionIndex| #[trigger] c2@.contains_key(k) implies k.is_source() by {
                assert(connectables.is_pool_source(k));
                if connectables.sources@.contains(k) {
                    let i = choose|i: int|
                        0 <= i < connectables.sources@.len() && connectables.sources@[i] == k;
                } else {
                    let i = choose|i: int|
                        0 <= i < connectables.switch_sources@.len()
                            && connectables.switch_sources@[i] == k;
                }
            }
        }
        assert(values_are_destinations(c2@)) by {
            assert forall|k: ConnectionIndex, j: int|
                c2@.contains_key(k) && 0 <= j < c2@[k].len() implies (
            #[trigger] c2@[k][j]).is_destination() by {
                assert(c2@[k].contains(c2@[k][j]));
                assert(map_assigns(c2@, c2@[k][j]));
                let t = choose|t: int|
                    0 <= t < connectables.dests@.len() && connectables.dests@[t] == c2@[k][j];
            }
        }
    }
    if !contains_infinite_loop(&c2) {
        proof {
            lemma_count_unassigned_insert(connectables.dests@, connections@, c2@, d);
        }
        let sub = gen_remaining_connection_sets(connectables, c2);
        let ghost c2_map = c2@;
        let ghost base = results@;
        append_all(results, &sub);
        proof {
            lemma_push_keeps_assignments(*connectables, connections@, c2_map, s, d);
            assert forall|i: int|
                0 <= i < results@.len() implies (#[trigger] results@[i]).wf() && produced_wiring(
                *connectables,
                results@[i]@,
            ) by {
                if i >= base.len() {
                    assert(results@[i]@ == sub@[i - base.len()]@);
                    assert(sub@[i - base.len()].wf());
                }
            }
            assert forall|i: int| base.len() <= i < results@.len() implies extends_wiring(
                connections@,
                (#[trigger] results@[i])@,
            ) by {
                assert(results@[i]@ == sub@[i - base.len()]@);
                assert(extends_wiring(c2_map, sub@[i - base.len()]@));
                lemma_extends_trans(connections@, c2_map, sub@[i - base.len()]@);
            }
            assert(branch_wirings(
                connectables.sources@,
                connectables.switch_sources@,
                connectables.dests@,
                connections@,
                s,
                d,
            ) == enum_wirings(
                connectables.sources@,
                connectables.switch_sources@,
                connectables.dests@,
                c2_map,
            ));
            assert forall|i: int| base.len() <= i < results@.len() implies (
            #[trigger] results@[i])@ == branch_wirings(
                connectables.sources@,
                connectables.switch_sources@,
                connectables.dests@,
                connections@,
                s,
                d,
            )[i - base.len()] by {
                assert(results@[i]@ == sub@[i - base.len()]@);
            }
            assert forall|f: Map<ConnectionIndex, ConnectionIndex>|
                #[trigger] legal_assignment(*connectables, f) && !assign_cycle_from_inputs(f)
                    && consistent_with(connections@, f) && f.contains_key(d) && f[d]
                    == s implies exists|i: int|
                0 <= i < results@.len() && #[trigger] realizes(
                    results@[i]@,
                    f,
                    connectables.dests@,
                ) by {
                assert(consistent_with(c2_map, f));
                let i_sub = choose|i: int|
                    0 <= i < sub@.len() && #[trigger] realizes(sub@[i]@, f, connectables.dests@);
                assert(results@[base.len() + i_sub]@ == sub@[i_sub]@);
                assert(realizes(results@[base.len() + i_sub]@, f, connectables.dests@));
            }
        }
    } else {
        proof {
            assert(branch_wirings(
                connectables.sources@,
                connectables.switch_sources@,
                connectables.dests@,
                connections@,
                s,
                d,
            ) =~= Seq::<Map<ConnectionIndex, Seq<ConnectionIndex>>>::empty());
            lemma_cycle_blocks_assignments(*connectables, connections@, c2@, s, d);
        }
    }
}

/// Every completion of the partial wiring `connections` in which each
/// remaining destination gets exactly one source, every pool source ends up
/// used, and no input-reachable combinational cycle appears.
///
/// Together with an empty starting wiring this yields the full enumeration.
/// Every wiring handed out satisfies `produced_wiring`: it uses every
/// source endpoint at least once, assigns every destination endpoint
/// exactly one source, and is free of input-reachable cycles. Conversely,
/// every legal assignment of sources to the remaining destinations that
/// wires no input-reachable cycle and agrees with the bindings made so far
/// is realized by one of the returned wirings.
pub fn gen_remaining_connection_sets(
    connectables: &Connectables,
    connections: Connections,
) -> (r: Vec<Connections>)
    requires
        connectables.wf(),
        connections.wf(),
        partial_wiring(*connectables, connections@),
        !has_cycle_from_inputs(connections@),
    ensures
        forall|i: int|
            0 <= i < r@.len() ==> (#[trigger] r@[i]).wf() && produced_wiring(
                *connectables,
                r@[i]@,
            ),
        connectables.sources@.len() == 0 && connectables.switch_sources@.len() == 0
            && connectables.dests@.len() == 0 ==> r@.len() == 1,
        connectables.sources@.len() == 0 && connectables.switch_sources@.len() == 0
            && connectables.dests@.len() > 0 ==> r@.len() == 0,
        forall|f: Map<ConnectionIndex, ConnectionIndex>|
            #[trigger] legal_assignment(*connectables, f) && !assign_cycle_from_inputs(f)
                && consistent_with(connections@, f) ==> exists|i: int|
                0 <= i < r@.len() && #[trigger] realizes(r@[i]@, f, connectables.dests@),
        forall|i: int|
            0 <= i < r@.len() ==> extends_wiring(connections@, (#[trigger] r@[i])@),
        all_dests_assigned(*connectables, connections@) && all_sources_bound(
            *connectables,
            connections@,
        ) ==> r@.len() == 1 && r@[0]@ == connections@,
        all_dests_assigned(*connectables, connections@) && !all_sources_bound(
            *connectables,
            connections@,
        ) ==> r@.len() == 0,
        r@.map_values(|c: Connections| c@) == enum_wirings(
            connectables.sources@,
            connectables.switch_sources@,
            connectables.dests@,
            connections@,
        ),
    decreases count_unassigned(connectables.dests@, connections@), 1int,
{
    let next = find_unassigned(&connectables.dests, &connections);
    match next {
        None => {
            let all_used = all_keys_present(&connectables.sources, &connections)
                && all_keys_present(&connectables.switch_sources, &connections);
            if all_used {
                proof {
                    assert forall|k: ConnectionIndex| connectables.is_pool_source(k) implies
                        #[trigger] connections@.contains_key(k) by {
                        if connectables.sources@.contains(k) {
                            let i = choose|i: int|
                                0 <= i < connectables.sources@.len() && connectables.sources@[i]
                                    == k;
                        } else {
                            let i = choose|i: int|
                                0 <= i < connectables.switch_sources@.len()
                                    && connectables.switch_sources@[i] == k;
                        }
                    }
                    assert forall|d: ConnectionIndex|
                        #[trigger] connectables.dests@.contains(d) implies map_assigns(
                        connections@,
                        d,
                    ) by {
                        let t = choose|t: int|
                            0 <= t < connectables.dests@.len() && connectables.dests@[t] == d;
                    }
                    assert(produced_wiring(*connectables, connections@));
                }
                proof {
                    if connectables.dests@.len() > 0 {
                        assert(map_assigns(connections@, connectables.dests@[0]));
                        let k = choose|k: ConnectionIndex|
                            #[trigger] connections@.contains_key(k) && connections@[k].contains(
                                connectables.dests@[0],
                            );
                        assert(connectables.is_pool_source(k));
                        if connectables.sources@.contains(k) {
                            let i = choose|i: int|
                                0 <= i < connectables.sources@.len() && connectables.sources@[i]
                                    == k;
                        } else {
                            let i = choose|i: int|
                                0 <= i < connectables.switch_sources@.len()
                                    && connectables.switch_sources@[i] == k;
                        }
                    }
                }
                proof {
                    assert forall|f: Map<ConnectionIndex, ConnectionIndex>|
                        #[trigger] legal_assignment(*connectables, f) && !assign_cycle_from_inputs(
                            f,
                        ) && consistent_with(connections@, f) implies realizes(
                        connections@,
                        f,
                        connectables.dests@,
                    ) by {
                        reveal(realizes);
                        reveal(consistent_with);
                        assert forall|d2: ConnectionIndex|
                            #[trigger] connectables.dests@.contains(d2) implies connections@.contains_key(
                            f[d2],
                        ) && connections@[f[d2]].contains(d2) by {
                            assert(map_assigns(connections@, d2));
                            let k = choose|k: ConnectionIndex|
                                #[trigger] connections@.contains_key(k) && connections@[
                                    k].contains(d2);
                            let j = choose|j: int|
                                0 <= j < connections@[k].len() && connections@[k][j] == d2;
                            assert(f.contains_key(connections@[k][j]) && f[connections@[k][j]]
                                == k);
                        }
                    }
                }
                proof {
                    assert(all_sources_bound(*connectables, connections@));
                    assert(all_dests_assigned(*connectables, connections@));
                    lemma_extends_refl(connections@);
                    let pool = connectables.sources@ + connectables.switch_sources@;
                    assert(seq_sources_bound(pool, connections@)) by {
                        assert forall|i: int| 0 <= i < pool.len() implies connections@.contains_key(
                            #[trigger] pool[i],
                        ) by {
                            if i < connectables.sources@.len() {
                                assert(pool[i] == connectables.sources@[i]);
                                assert(connectables.sources@.contains(pool[i]));
                            } else {
                                assert(pool[i] == connectables.switch_sources@[i
                                    - connectables.sources@.len()]);
                                assert(connectables.switch_sources@.contains(pool[i]));
                            }
                            assert(connectables.is_pool_source(pool[i]));
                        }
                    }
                }
                let ghost conn_map = connections@;
                let mut out: Vec<Connections> = Vec::new();
                out.push(connections);
                proof {
                    assert(out@[0]@ == conn_map);
                    assert(out@.map_values(|c: Connections| c@) =~= enum_wirings(
                        connectables.sources@,
                        connectables.switch_sources@,
                        connectables.dests@,
                        conn_map,
                    ));
                }
                return out;
            }
            proof {
                assert(!all_sources_bound(*connectables, connections@)) by {
                    if all_sources_bound(*connectables, connections@) {
                        assert forall|i: int|
                            0 <= i < connectables.sources@.len() implies connections@.contains_key(
                            #[trigger] connectables.sources@[i],
                        ) by {
                            assert(connectables.sources@.contains(connectables.sources@[i]));
                            assert(connectables.is_pool_source(connectables.sources@[i]));
                        }
                        assert forall|i: int|
                            0 <= i < connectables.switch_sources@.len() implies connections@.contains_key(
                            #[trigger] connectables.switch_sources@[i],
                        ) by {
                            assert(connectables.switch_sources@.contains(
                                connectables.switch_sources@[i],
                            ));
                            assert(connectables.is_pool_source(
                                connectables.switch_sources@[i],
                            ));
                        }
                        assert(false);
                    }
                }
                assert(all_dests_assigned(*connectables, connections@));
                assert(!seq_sources_bound(
                    connectables.sources@ + connectables.switch_sources@,
                    connections@,
                )) by {
                    let pool = connectables.sources@ + connectables.switch_sources@;
                    if seq_sources_bound(pool, connections@) {
                        assert forall|k: ConnectionIndex| connectables.is_pool_source(k) implies
                            #[trigger] connections@.contains_key(k) by {
                            if connectables.sources@.contains(k) {
                                let i = choose|i: int|
                                    0 <= i < connectables.sources@.len()
                                        && connectables.sources@[i] == k;
                                assert(pool[i] == k);
                            } else {
                                let i = choose|i: int|
                                    0 <= i < connectables.switch_sources@.len()
                                        && connectables.switch_sources@[i] == k;
                                assert(pool[connectables.sources@.len() + i] == k);
                            }
                        }
                        assert(all_sources_bound(*connectables, connections@));
                    }
                }
                assert(Seq::<Connections>::empty().map_values(|c: Connections| c@)
                    =~= enum_wirings(
                    connectables.sources@,
                    connectables.switch_sources@,
                    connectables.dests@,
                    connections@,
                ));
                assert forall|f: Map<ConnectionIndex, ConnectionIndex>|
                    #[trigger] legal_assignment(*connectables, f) && !assign_cycle_from_inputs(f)
                        && consistent_with(connections@, f) implies false by {
                    reveal(legal_assignment);
                    reveal(consistent_with);
                    let pool_missing = !(forall|i: int|
                        0 <= i < connectables.sources@.len() ==> connections@.contains_key(
                            #[trigger] connectables.sources@[i],
                        ));
                    let s0 = if pool_missing {
                        let i0 = choose|i0: int|
                            0 <= i0 < connectables.sources@.len() && !connections@.contains_key(
                                #[trigger] connectables.sources@[i0],
                            );
                        connectables.sources@[i0]
                    } else {
                        let i0 = choose|i0: int|
                            0 <= i0 < connectables.switch_sources@.len()
                                && !connections@.contains_key(
                                #[trigger] connectables.switch_sources@[i0],
                            );
                        connectables.switch_sources@[i0]
                    };
                    assert(connectables.is_pool_source(s0));
                    assert(!connections@.contains_key(s0));
                    let d0 = choose|d0: ConnectionIndex| #[trigger] f.contains_key(d0) && f[d0] == s0;
                    assert(connectables.dests@.contains(d0));
                    assert(map_assigns(connections@, d0));
                    let k = choose|k: ConnectionIndex|
                        #[trigger] connections@.contains_key(k) && connections@[k].contains(d0);
                    let j = choose|j: int|
                        0 <= j < connections@[k].len() && connections@[k][j] == d0;
                    assert(f[connections@[k][j]] == k);
                    assert(k == s0);
                }
            }
            Vec::new()
        },
        Some(t) => {
            let d = connectables.dests[t];
            let ghost srcs = connectables.sources@;
            let ghost sws = connectables.switch_sources@;
            let ghost dests = connectables.dests@;
            let ghost m = connections@;
            let ghost full = enum_branches(srcs, sws, dests, m, d, 0);
            proof {
                assert(!all_dests_assigned(*connectables, connections@)) by {
                    if all_dests_assigned(*connectables, connections@) {
                        assert(map_assigns(connections@, connectables.dests@[t as int]));
                    }
                }
                assert(enum_wirings(srcs, sws, dests, m) == full);
            }
            let mut results: Vec<Connections> = Vec::new();
            proof {
                assert(results@.map_values(|c: Connections| c@) + enum_branches(
                    srcs,
                    sws,
                    dests,
                    m,
                    d,
                    0,
                ) =~= full);
            }
            let n1 = connectables.sources.len();
            for si in 0..n1
                invariant
                    connectables.wf(),
                    connections.wf(),
                    partial_wiring(*connectables, connections@),
                    !has_cycle_from_inputs(connections@),
                    n1 == connectables.sources@.len(),
                    connectables.dests@.contains(d),
                    !map_assigns(connections@, d),
                    connectables.sources@.len() == 0 && connectables.switch_sources@.len() == 0
                        ==> results@.len() == 0,
                    forall|i: int|
                        0 <= i < results@.len() ==> (#[trigger] results@[i]).wf()
                            && produced_wiring(*connectables, results@[i]@),
                    forall|i: int|
                        0 <= i < results@.len() ==> extends_wiring(
                            connections@,
                            (#[trigger] results@[i])@,
                        ),
                    srcs == connectables.sources@,
                    sws == connectables.switch_sources@,
                    dests == connectables.dests@,
                    m == connections@,
                    full == enum_branches(srcs, sws, dests, m, d, 0),
                    results@.map_values(|c: Connections| c@) + enum_branches(
                        srcs,
                        sws,
                        dests,
                        m,
                        d,
                        si as int,
                    ) == full,
                    forall|f: Map<ConnectionIndex, ConnectionIndex>|
                        #[trigger] legal_assignment(*connectables, f) && !assign_cycle_from_inputs(
                            f,
                        ) && consistent_with(connections@, f) && (exists|si2: int|
                            0 <= si2 < si && (#[trigger] connectables.sources@[si2]) == f[d])
                            ==> exists|i: int|
                            0 <= i < results@.len() && #[trigger] realizes(
                                results@[i]@,
                                f,
                                connectables.dests@,
                            ),
            {
                let s = connectables.sources[si];
                proof {
                    assert(connectables.sources@.contains(s));
                    assert((srcs + sws)[si as int] == s);
                }
                let ghost results0 = results@;
                try_source(connectables, &connections, s, d, &mut results);
                proof {
                    let branch = branch_wirings(srcs, sws, dests, m, s, d);
                    assert(results@.map_values(|c: Connections| c@) =~= results0.map_values(
                        |c: Connections| c@,
                    ) + branch);
                    assert(enum_branches(srcs, sws, dests, m, d, si as int) == branch
                        + enum_branches(srcs, sws, dests, m, d, si as int + 1));
                    assert(results@.map_values(|c: Connections| c@) + enum_branches(
                        srcs,
                        sws,
                        dests,
                        m,
                        d,
                        si as int + 1,
                    ) =~= full);
                }
                proof {
                    assert forall|f: Map<ConnectionIndex, ConnectionIndex>|
                        #[trigger] legal_assignment(*connectables, f) && !assign_cycle_from_inputs(
                            f,
                        ) && consistent_with(connections@, f) && (exists|si2: int|
                            0 <= si2 < si + 1 && (#[trigger] connectables.sources@[si2]) == f[
                            d]) implies exists|i: int|
                        0 <= i < results@.len() && #[trigger] realizes(
                            results@[i]@,
                            f,
                            connectables.dests@,
                        ) by {
                        if exists|si2: int|
                            0 <= si2 < si && (#[trigger] connectables.sources@[si2]) == f[d] {
                            let i = choose|i: int|
                                0 <= i < results0.len() && #[trigger] realizes(
                                    results0[i]@,
                                    f,
                                    connectables.dests@,
                                );
                            assert(results@[i] == results0[i]);
                        } else {
                            reveal(legal_assignment);
                            let si2 = choose|si2: int|
                                0 <= si2 < si + 1 && (#[trigger] connectables.sources@[si2]) == f[
                                d];
                            assert(si2 == si);
                            assert(f[d] == s);
                            assert(f.contains_key(d));
                        }
                    }
                }
            }
            let n2 = connectables.switch_sources.len();
            for si in 0..n2
                invariant
                    connectables.wf(),
                    connections.wf(),
                    partial_wiring(*connectables, connections@),
                    !has_cycle_from_inputs(connections@),
                    n2 == connectables.switch_sources@.len(),
                    connectables.dests@.contains(d),
                    !map_assigns(connections@, d),
                    connectables.sources@.len() == 0 && connectables.switch_sources@.len() == 0
                        ==> results@.len() == 0,
                    forall|i: int|
                        0 <= i < results@.len() ==> (#[trigger] results@[i]).wf()
                            && produced_wiring(*connectables, results@[i]@),
                    forall|i: int|
                        0 <= i < results@.len() ==> extends_wiring(
                            connections@,
                            (#[trigger] results@[i])@,
                        ),
                    srcs == connectables.sources@,
                    sws == connectables.switch_sources@,
                    dests == connectables.dests@,
                    m == connections@,
                    full == enum_branches(srcs, sws, dests, m, d, 0),
                    n1 == connectables.sources@.len(),
                    results@.map_values(|c: Connections| c@) + enum_branches(
                        srcs,
                        sws,
                        dests,
                        m,
                        d,
                        n1 as int + si as int,
                    ) == full,
                    forall|f: Map<ConnectionIndex, ConnectionIndex>|
                        #[trigger] legal_assignment(*connectables, f) && !assign_cycle_from_inputs(
                            f,
                        ) && consistent_with(connections@, f) && (connectables.sources@.contains(
                            f[d],
                        ) || (exists|si2: int|
                            0 <= si2 < si && (#[trigger] connectables.switch_sources@[si2]) == f[
                            d])) ==> exists|i: int|
                            0 <= i < results@.len() && #[trigger] realizes(
                                results@[i]@,
                                f,
                                connectables.dests@,
                            ),
            {
                let s = connectables.switch_sources[si];
                proof {
                    assert(connectables.switch_sources@.contains(s));
                    assert((srcs + sws)[n1 as int + si as int] == s);
                }
                let ghost results0 = results@;
                try_source(connectables, &connections, s, d, &mut results);
                proof {
                    let branch = branch_wirings(srcs, sws, dests, m, s, d);
                    assert(results@.map_values(|c: Connections| c@) =~= results0.map_values(
                        |c: Connections| c@,
                    ) + branch);
                    assert(enum_branches(srcs, sws, dests, m, d, n1 as int + si as int) == branch
                        + enum_branches(srcs, sws, dests, m, d, n1 as int + si as int + 1));
                    assert(results@.map_values(|c: Connections| c@) + enum_branches(
                        srcs,
                        sws,
                        dests,
                        m,
                        d,
                        n1 as int + si as int + 1,
                    ) =~= full);
                }
                proof {
                    assert forall|f: Map<ConnectionIndex, ConnectionIndex>|
                        #[trigger] legal_assignment(*connectables, f) && !assign_cycle_from_inputs(
                            f,
                        ) && consistent_with(connections@, f) && (connectables.sources@.contains(
                            f[d],
                        ) || (exists|si2: int|
                            0 <= si2 < si + 1 && (#[trigger] connectables.switch_sources@[si2])
                                == f[d])) implies exists|i: int|
                        0 <= i < results@.len() && #[trigger] realizes(
                            results@[i]@,
                            f,
                            connectables.dests@,
                        ) by {
                        if connectables.sources@.contains(f[d]) || (exists|si2: int|
                            0 <= si2 < si && (#[trigger] connectables.switch_sources@[si2]) == f[
                            d]) {
                            let i = choose|i: int|
                                0 <= i < results0.len() && #[trigger] realizes(
                                    results0[i]@,
                                    f,
                                    connectables.dests@,
                                );
                            assert(results@[i] == results0[i]);
                        } else {
                            reveal(legal_assignment);
                            let si2 = choose|si2: int|
                                0 <= si2 < si + 1 && (#[trigger] connectables.switch_sources@[si2])
                                    == f[d];
                            assert(si2 == si);
                            assert(f[d] == s);
                            assert(f.contains_key(d));
                        }
                    }
                }
            }
            proof {
                assert(enum_branches(srcs, sws, dests, m, d, n1 as int + n2 as int)
                    =~= Seq::<Map<ConnectionIndex, Seq<ConnectionIndex>>>::empty());
                assert(results@.map_values(|c: Connections| c@) =~= full);
                assert forall|f: Map<ConnectionIndex, ConnectionIndex>|
                    #[trigger] legal_assignment(*connectables, f) && !assign_cycle_from_inputs(f)
                        && consistent_with(connections@, f) implies exists|i: int|
                    0 <= i < results@.len() && #[trigger] realizes(
                        results@[i]@,
                        f,
                        connectables.dests@,
                    ) by {
                    reveal(legal_assignment);
                    assert(f.contains_key(d));
                    assert(connectables.is_pool_source(f[d]));
                    if !connectables.sources@.contains(f[d]) {
                        let si2 = choose|si2: int|
                            0 <= si2 < connectables.switch_sources@.len()
                                && (#[trigger] connectables.switch_sources@[si2]) == f[d];
                    }
                }
            }
            results
        },
    }
}

/// Every complete, acyclic wiring of the endpoint space, found by
/// backtracking over destinations: each produced wiring uses every source
/// endpoint of both pools at least once — bound to a nonempty destination
/// list — assigns every destination endpoint exactly one source, and has no
/// combinational cycle reachable from a primary input. The enumeration is
/// also exhaustive: every legal assignment of the space that wires no
/// input-reachable cycle is realized by one of the returned wirings. The
/// returned sequence is pinned to `enum_wirings`, a pure function of the
/// endpoint space, so the enumeration is deterministic and restartable:
/// re-deriving it from the same space yields the same wirings in the same
/// left-to-right branch order. The sequence is finite, holding at most
/// `|sources|` to the power `|destinations|` wirings.
pub fn gen_all_connection_sets(connectables: &Connectables) -> (r: Vec<Connections>)
    requires
        connectables.wf(),
    ensures
        forall|i: int|
            0 <= i < r@.len() ==> (#[trigger] r@[i]).wf() && produced_wiring(
                *connectables,
                r@[i]@,
            ),
        connectables.sources@.len() == 0 && connectables.switch_sources@.len() == 0
            && connectables.dests@.len() == 0 ==> r@.len() == 1,
        connectables.sources@.len() == 0 && connectables.switch_sources@.len() == 0
            && connectables.dests@.len() > 0 ==> r@.len() == 0,
        forall|f: Map<ConnectionIndex, ConnectionIndex>|
            #[trigger] legal_assignment(*connectables, f) && !assign_cycle_from_inputs(f)
                ==> exists|i: int|
                0 <= i < r@.len() && #[trigger] realizes(r@[i]@, f, connectables.dests@),
        r@.map_values(|c: Connections| c@) == enum_wirings(
            connectables.sources@,
            connectables.switch_sources@,
            connectables.dests@,
            Map::empty(),
        ),
        r@.len() <= pow(
            (connectables.sources@.len() + connectables.switch_sources@.len()) as int,
            connectables.dests@.len(),
        ),
{
    let connections = Connections::new();
    proof {
        assert forall|k: ConnectionIndex| #[trigger] connections@.contains_key(k) implies connectables.is_pool_source(
            k,
        ) by {}
        assert forall|d: ConnectionIndex| #[trigger] map_assigns(connections@, d) implies connectables.dests@.contains(
            d,
        ) by {
            let k = choose|k: ConnectionIndex|
                #[trigger] connections@.contains_key(k) && connections@[k].contains(d);
        }
        assert forall|f: Map<ConnectionIndex, ConnectionIndex>|
            #[trigger] consistent_with(connections@, f) by {
            reveal(consistent_with);
        }
        assert(!has_cycle_from_inputs(connections@)) by {
            if has_cycle_from_inputs(connections@) {
                let (i2, p) = choose|i2: usize, p: Seq<usize>|
                    {
                        &&& connections@.contains_key(ConnectionIndex::Input(i2))
                        &&& p.len() > 0
                        &&& #[trigger] crate::cycle::first_hop(
                            connections@,
                            ConnectionIndex::Input(i2),
                            p[0],
                        )
                        &&& crate::cycle::is_gate_path(connections@, p)
                        &&& crate::cycle::has_repeat(p)
                    };
                assert(false);
            }
        }
    }
    let r = gen_remaining_connection_sets(connectables, connections);
    proof {
        lemma_enum_wirings_count(
            connectables.sources@,
            connectables.switch_sources@,
            connectables.dests@,
            Map::empty(),
        );
        lemma_count_unassigned_empty(connectables.dests@);
        assert((connectables.sources@ + connectables.switch_sources@).len()
            == connectables.sources@.len() + connectables.switch_sources@.len());
    }
    r
}

} // verus!
