use vstd::prelude::*;

use crate::endpoint::ConnectionIndex;
use crate::wiring::{
    keys_are_sources, lemma_entries_map_contains, lemma_entries_map_index,
    values_are_destinations, Connections,
};
use vstd::set_lib::{lemma_int_range, lemma_len_subset, set_int_range};

verus! {

/// Which gate's input pin this destination endpoint is, if any.
pub open spec fn dest_gate(d: ConnectionIndex) -> Option<usize> {
    match d {
        ConnectionIndex::GateInput { gate_index, .. } => Some(gate_index),
        _ => None,
    }
}

/// Whether `k` is an output pin of gate `g`.
pub open spec fn is_gate_out_key(k: ConnectionIndex, g: usize) -> bool {
    match k {
        ConnectionIndex::GateOutput { gate_index, .. } => gate_index == g,
        _ => false,
    }
}

/// The wiring sends some output pin of gate `a` into an input pin of gate `b`.
pub open spec fn gate_edge(
    m: Map<ConnectionIndex, Seq<ConnectionIndex>>,
    a: usize,
    b: usize,
) -> bool {
    exists|oi: usize, t: int|
        m.contains_key(ConnectionIndex::GateOutput { gate_index: a, io_index: oi }) && 0 <= t
            < m[ConnectionIndex::GateOutput { gate_index: a, io_index: oi }].len() && dest_gate(
            #[trigger] m[ConnectionIndex::GateOutput { gate_index: a, io_index: oi }][t],
        ) == Some(b)
}

/// The wiring sends source endpoint `from` into an input pin of gate `b`.
pub open spec fn first_hop(
    m: Map<ConnectionIndex, Seq<ConnectionIndex>>,
    from: ConnectionIndex,
    b: usize,
) -> bool {
    m.contains_key(from) && exists|t: int|
        0 <= t < m[from].len() && dest_gate(#[trigger] m[from][t]) == Some(b)
}

/// `p` is a chain of gate indices in which each gate feeds the next one.
pub open spec fn is_gate_path(m: Map<ConnectionIndex, Seq<ConnectionIndex>>, p: Seq<usize>) -> bool {
    forall|k: int| 0 < k < p.len() ==> gate_edge(m, p[k - 1], #[trigger] p[k])
}

/// Some gate index occurs twice on the path.
pub open spec fn has_repeat(p: Seq<usize>) -> bool {
    exists|j: int, k: int| #![trigger p[j], p[k]] 0 <= j < k < p.len() && p[j] == p[k]
}

/// The path repeats no gate and stays away from every gate in `visited`.
pub open spec fn path_clean(p: Seq<usize>, visited: Seq<usize>) -> bool {
    !has_repeat(p) && forall|k: int| 0 <= k < p.len() ==> !visited.contains(#[trigger] p[k])
}

/// A forward path that starts at a primary input revisits a gate before
/// reaching a primary output: the wiring has combinational feedback that is
/// reachable from the circuit's inputs.
pub open spec fn has_cycle_from_inputs(m: Map<ConnectionIndex, Seq<ConnectionIndex>>) -> bool {
    exists|i: usize, p: Seq<usize>|
        {
            &&& m.contains_key(ConnectionIndex::Input(i))
            &&& p.len() > 0
            &&& #[trigger] first_hop(m, ConnectionIndex::Input(i), p[0])
            &&& is_gate_path(m, p)
            &&& has_repeat(p)
        }
}

/// `d` is either no gate input pin, or an input pin of a gate with index
/// below `b`.
pub open spec fn below_gate_bound(d: ConnectionIndex, b: nat) -> bool {
    match d {
        ConnectionIndex::GateInput { gate_index, .. } => gate_index < b,
        _ => true,
    }
}

/// A strict upper bound on every gate index that occurs as an input pin in
/// a destination list.
pub open spec fn value_gate_bound(v: Seq<ConnectionIndex>) -> nat
    decreases v.len(),
{
    if v.len() == 0 {
        0
    } else {
        let rest = value_gate_bound(v.drop_last());
        match v.last() {
            ConnectionIndex::GateInput { gate_index, .. } => if gate_index + 1 > rest {
                (gate_index + 1) as nat
            } else {
                rest
            },
            _ => rest,
        }
    }
}

/// A strict upper bound on every gate index that occurs as an input pin
/// anywhere in a wiring's destination lists.
pub open spec fn entries_gate_bound(s: Seq<(ConnectionIndex, Vec<ConnectionIndex>)>) -> nat
    decreases s.len(),
{
    if s.len() == 0 {
        0
    } else {
        let rest = entries_gate_bound(s.drop_last());
        let vb = value_gate_bound(s.last().1@);
        if vb > rest {
            vb
        } else {
            rest
        }
    }
}

proof fn lemma_value_gate_bound(v: Seq<ConnectionIndex>)
    ensures
        forall|j: int| 0 <= j < v.len() ==> below_gate_bound(#[trigger] v[j], value_gate_bound(v)),
    decreases v.len(),
{
    if v.len() == 0 {
    } else {
        lemma_value_gate_bound(v.drop_last());
        assert forall|j: int| 0 <= j < v.len() implies below_gate_bound(
            #[trigger] v[j],
            value_gate_bound(v),
        ) by {
            if j < v.len() - 1 {
                assert(v.drop_last()[j] == v[j]);
                assert(below_gate_bound(v[j], value_gate_bound(v.drop_last())));
                assert(value_gate_bound(v.drop_last()) <= value_gate_bound(v));
            }
        }
    }
}

proof fn lemma_entries_gate_bound(s: Seq<(ConnectionIndex, Vec<ConnectionIndex>)>)
    ensures
        forall|i: int, j: int|
            0 <= i < s.len() && 0 <= j < s[i].1@.len() ==> below_gate_bound(
                #[trigger] s[i].1@[j],
                entries_gate_bound(s),
            ),
    decreases s.len(),
{
    if s.len() == 0 {
    } else {
        lemma_entries_gate_bound(s.drop_last());
        lemma_value_gate_bound(s.last().1@);
        assert forall|i: int, j: int| 0 <= i < s.len() && 0 <= j < s[i].1@.len() implies below_gate_bound(
            #[trigger] s[i].1@[j],
            entries_gate_bound(s),
        ) by {
            if i < s.len() - 1 {
                assert(s.drop_last()[i] == s[i]);
                assert(below_gate_bound(s[i].1@[j], entries_gate_bound(s.drop_last())));
                assert(entries_gate_bound(s.drop_last()) <= entries_gate_bound(s));
            } else {
                assert(below_gate_bound(s[i].1@[j], value_gate_bound(s.last().1@)));
                assert(value_gate_bound(s.last().1@) <= entries_gate_bound(s));
            }
        }
    }
}

/// Every gate input pin mentioned in the wiring names a gate below the bound.
proof fn lemma_map_gate_bound(c: &Connections)
    requires
        c.wf(),
    ensures
        forall|k: ConnectionIndex, j: int|
            c@.contains_key(k) && 0 <= j < c@[k].len() ==> below_gate_bound(
                #[trigger] c@[k][j],
                entries_gate_bound(c.entries@),
            ),
{
    lemma_entries_gate_bound(c.entries@);
    lemma_entries_map_contains(c.entries@);
    assert forall|k: ConnectionIndex, j: int|
        c@.contains_key(k) && 0 <= j < c@[k].len() implies below_gate_bound(
        #[trigger] c@[k][j],
        entries_gate_bound(c.entries@),
    ) by {
        let i = choose|i: int| 0 <= i < c.entries@.len() && (#[trigger] c.entries@[i]).0 == k;
        lemma_entries_map_index(c.entries@, i);
        assert(c@[k][j] == c.entries@[i].1@[j]);
    }
}

/// A sequence of distinct numbers below `bound` has at most `bound` elements.
proof fn lemma_distinct_bounded_len(s: Seq<usize>, bound: nat)
    requires
        s.no_duplicates(),
        forall|i: int| 0 <= i < s.len() ==> (#[trigger] s[i]) < bound,
    ensures
        s.len() <= bound,
{
    let t = Seq::new(s.len(), |i: int| s[i] as int);
    assert(t.no_duplicates());
    t.unique_seq_to_set();
    lemma_int_range(0, bound as int);
    assert(t.to_set().subset_of(set_int_range(0, bound as int))) by {
        assert forall|x: int| t.to_set().contains(x) implies set_int_range(0, bound as int).contains(
            x,
        ) by {
            let i = choose|i: int| 0 <= i < t.len() && t[i] == x;
            assert(s[i] < bound);
        }
    }
    lemma_len_subset(t.to_set(), set_int_range(0, bound as int));
}

/// Whether the vector holds the number `x`.
fn vec_contains_usize(v: &Vec<usize>, x: usize) -> (r: bool)
    ensures
        r == v@.contains(x),
{
    let n = v.len();
    for i in 0..n
        invariant
            n == v@.len(),
            forall|j: int| 0 <= j < i ==> (#[trigger] v@[j]) != x,
    {
        if v[i] == x {
            return true;
        }
    }
    proof {
        if v@.contains(x) {
            let j = choose|j: int| 0 <= j < v@.len() && v@[j] == x;
            assert(v@[j] != x);
        }
    }
    false
}

/// A copy of a vector of numbers.
fn copy_usize_vec(v: &Vec<usize>) -> (r: Vec<usize>)
    ensures
        r@ == v@,
{
    let mut r: Vec<usize> = Vec::new();
    let n = v.len();
    for i in 0..n
        invariant
            n == v@.len(),
            r@.len() == i,
            forall|j: int| 0 <= j < i ==> (#[trigger] r@[j]) == v@[j],
    {
        r.push(v[i]);
    }
    proof {
        assert(r@ =~= v@);
    }
    r
}

/// If every path leaving every output pin of gate `g` is clean with respect
/// to `visited` extended by `g`, then every path starting at `g` itself is
/// clean with respect to `visited`.
proof fn lemma_extend_clean(
    m: Map<ConnectionIndex, Seq<ConnectionIndex>>,
    g: usize,
    visited: Seq<usize>,
    visited2: Seq<usize>,
)
    requires
        visited2 == visited.push(g),
        !visited.contains(g),
        forall|key: ConnectionIndex, p: Seq<usize>|
            #![trigger first_hop(m, key, p[0]), is_gate_path(m, p)]
            is_gate_out_key(key, g) && p.len() > 0 && first_hop(m, key, p[0]) && is_gate_path(m, p)
                ==> path_clean(p, visited2),
    ensures
        forall|p: Seq<usize>|
            p.len() > 0 && p[0] == g && #[trigger] is_gate_path(m, p) ==> path_clean(p, visited),
{
    assert forall|x: usize| visited2.contains(x) <==> visited.contains(x) || x == g by {
        if visited2.contains(x) {
            let j = choose|j: int| 0 <= j < visited2.len() && visited2[j] == x;
            if j < visited.len() {
                assert(visited[j] == x);
            }
        }
        if visited.contains(x) {
            let j = choose|j: int| 0 <= j < visited.len() && visited[j] == x;
            assert(visited2[j] == x);
        }
        if x == g {
            assert(visited2[visited.len() as int] == x);
        }
    }
    assert forall|p: Seq<usize>| p.len() > 0 && p[0] == g && #[trigger] is_gate_path(m, p) implies path_clean(
        p,
        visited,
    ) by {
        if p.len() == 1 {
            assert(!has_repeat(p)) by {
                if has_repeat(p) {
                    let (j, k) = choose|j: int, k: int|
                        #![trigger p[j], p[k]]
                        0 <= j < k < p.len() && p[j] == p[k];
                    assert(false);
                }
            }
            assert forall|k: int| 0 <= k < p.len() implies !visited.contains(#[trigger] p[k]) by {
                assert(p[0] == g);
            }
        } else {
            assert(gate_edge(m, p[0], p[1]));
            let (oi, t) = choose|oi: usize, t: int|
                m.contains_key(ConnectionIndex::GateOutput { gate_index: g, io_index: oi }) && 0
                    <= t < m[ConnectionIndex::GateOutput { gate_index: g, io_index: oi }].len()
                    && dest_gate(
                    #[trigger] m[ConnectionIndex::GateOutput { gate_index: g, io_index: oi }][t],
                ) == Some(p[1]);
            let key = ConnectionIndex::GateOutput { gate_index: g, io_index: oi };
            let p2 = p.subrange(1, p.len() as int);
            assert(p2[0] == p[1]);
            assert(first_hop(m, key, p2[0]));
            assert(is_gate_path(m, p2)) by {
                assert forall|k: int| 0 < k < p2.len() implies gate_edge(
                    m,
                    p2[k - 1],
                    #[trigger] p2[k],
                ) by {
                    assert(p2[k] == p[k + 1] && p2[k - 1] == p[k]);
                    assert(gate_edge(m, p[k], p[k + 1]));
                }
            }
            assert(is_gate_out_key(key, g));
            assert(path_clean(p2, visited2));
            assert(!has_repeat(p)) by {
                if has_repeat(p) {
                    let (j, k) = choose|j: int, k: int|
                        #![trigger p[j], p[k]]
                        0 <= j < k < p.len() && p[j] == p[k];
                    if j == 0 {
                        // p[k] == g with k >= 1, so p2 reaches g, which visited2 holds
                        assert(p2[k - 1] == g);
                        assert(visited2.contains(g)) by {
                            assert(visited2[visited.len() as int] == g);
                        }
                        assert(!visited2.contains(p2[k - 1]));
                    } else {
                        assert(p2[j - 1] == p2[k - 1]);
                        assert(has_repeat(p2));
                    }
                }
            }
            assert forall|k: int| 0 <= k < p.len() implies !visited.contains(#[trigger] p[k]) by {
                if k == 0 {
                } else {
                    assert(p2[k - 1] == p[k]);
                    assert(!visited2.contains(p2[k - 1]));
                }
            }
        }
    }
}

/// Whether, following the wiring forward from source endpoint `from`, some
/// path reaches a gate already in `visited_gates` or visits a gate twice.
pub fn contains_infinite_loop_rec(
    connections: &Connections,
    from: ConnectionIndex,
    visited_gates: &Vec<usize>,
) -> (r: bool)
    requires
        connections.wf(),
        keys_are_sources(connections@),
        values_are_destinations(connections@),
        connections@.contains_key(from),
        visited_gates@.no_duplicates(),
        forall|t: int|
            0 <= t < visited_gates@.len() ==> (#[trigger] visited_gates@[t]) < entries_gate_bound(
                connections.entries@,
            ),
    ensures
        !r ==> forall|p: Seq<usize>|
            p.len() > 0 && first_hop(connections@, from, p[0]) && #[trigger] is_gate_path(
                connections@,
                p,
            ) ==> path_clean(p, visited_gates@),
        r ==> exists|p: Seq<usize>|
            p.len() > 0 && first_hop(connections@, from, p[0]) && #[trigger] is_gate_path(
                connections@,
                p,
            ) && !path_clean(p, visited_gates@),
    decreases entries_gate_bound(connections.entries@) - visited_gates@.len(),
{
    let ghost m = connections@;
    let ghost bound = entries_gate_bound(connections.entries@);
    proof {
        lemma_map_gate_bound(connections);
    }
    let outs = connections.get(from).unwrap();
    let n = outs.len();
    for j in 0..n
        invariant
            connections.wf(),
            keys_are_sources(m),
            values_are_destinations(m),
            m == connections@,
            bound == entries_gate_bound(connections.entries@),
            m.contains_key(from),
            outs@ == m[from],
            n == outs@.len(),
            visited_gates@.no_duplicates(),
            forall|t: int| 0 <= t < visited_gates@.len() ==> (#[trigger] visited_gates@[t]) < bound,
            forall|k: ConnectionIndex, j2: int|
                m.contains_key(k) && 0 <= j2 < m[k].len() ==> below_gate_bound(
                    #[trigger] m[k][j2],
                    bound,
                ),
            forall|p: Seq<usize>|
                p.len() > 0 && hop_in_prefix(outs@, j as int, p[0]) && #[trigger] is_gate_path(m, p)
                    ==> path_clean(p, visited_gates@),
    {
        let out = outs[j];
        proof {
            assert(m[from][j as int].is_destination());
        }
        match out {
            ConnectionIndex::Output(_) => {
                proof {
                    lemma_prefix_step_no_gate(outs@, j as int);
                }
            },
            ConnectionIndex::GateInput { gate_index: g, .. } => {
                if vec_contains_usize(visited_gates, g) {
                    proof {
                        let p = seq![g];
                        assert(dest_gate(m[from][j as int]) == Some(g));
                        assert(first_hop(m, from, p[0]));
                        assert(!path_clean(p, visited_gates@)) by {
                            assert(visited_gates@.contains(p[0]));
                        }
                        assert(p.len() > 0 && first_hop(m, from, p[0]) && is_gate_path(m, p)
                            && !path_clean(p, visited_gates@));
                    }
                    return true;
                }
                let mut visited2 = copy_usize_vec(visited_gates);
                visited2.push(g);
                proof {
                    assert(visited2@ == visited_gates@.push(g));
                    assert(visited2@.no_duplicates()) by {
                        assert forall|a: int, b: int|
                            0 <= a < visited2@.len() && 0 <= b < visited2@.len() && a
                                != b implies visited2@[a] != visited2@[b] by {
                            if a < visited_gates@.len() && b < visited_gates@.len() {
                            } else if a < visited_gates@.len() {
                                assert(visited2@[b] == g);
                                if visited2@[a] == g {
                                    assert(visited_gates@.contains(g));
                                }
                            } else {
                                assert(visited2@[a] == g);
                                if visited2@[b] == g {
                                    assert(visited_gates@.contains(g));
                                }
                            }
                        }
                    }
                    assert(below_gate_bound(m[from][j as int], bound));
                    assert(g < bound);
                    lemma_distinct_bounded_len(visited2@, bound);
                }
                let en = connections.entries.len();
                for ei in 0..en
                    invariant
                        connections.wf(),
                        keys_are_sources(m),
                        values_are_destinations(m),
                        m == connections@,
                        bound == entries_gate_bound(connections.entries@),
                        en == connections.entries@.len(),
                        m.contains_key(from),
                        outs@ == m[from],
                        0 <= j < outs@.len(),
                        dest_gate(outs@[j as int]) == Some(g),
                        visited2@ == visited_gates@.push(g),
                        visited2@.no_duplicates(),
                        g < bound,
                        forall|t: int| 0 <= t < visited2@.len() ==> (#[trigger] visited2@[t]) < bound,
                        forall|te: int, p: Seq<usize>|
                            #![trigger connections.entries@[te], is_gate_path(m, p)]
                            0 <= te < ei && is_gate_out_key(connections.entries@[te].0, g)
                                && p.len() > 0 && first_hop(m, connections.entries@[te].0, p[0])
                                && is_gate_path(m, p) ==> path_clean(p, visited2@),
                {
                    let key = connections.entries[ei].0;
                    let key_matches = match key {
                        ConnectionIndex::GateOutput { gate_index: g2, .. } => g2 == g,
                        _ => false,
                    };
                    if key_matches {
                        proof {
                            lemma_entries_map_index(connections.entries@, ei as int);
                            lemma_distinct_bounded_len(visited2@, bound);
                        }
                        if contains_infinite_loop_rec(connections, key, &visited2) {
                            proof {
                                let p2 = choose|p2: Seq<usize>|
                                    p2.len() > 0 && first_hop(m, key, p2[0])
                                        && #[trigger] is_gate_path(m, p2) && !path_clean(
                                        p2,
                                        visited2@,
                                    );
                                let p = seq![g] + p2;
                                lemma_witness_through_gate(
                                    m,
                                    from,
                                    j as int,
                                    g,
                                    key,
                                    p2,
                                    visited_gates@,
                                    visited2@,
                                );
                            }
                            return true;
                        }
                    }
                }
                proof {
                    assert forall|key: ConnectionIndex, p: Seq<usize>|
                        #![trigger first_hop(m, key, p[0]), is_gate_path(m, p)]
                        is_gate_out_key(key, g) && p.len() > 0 && first_hop(m, key, p[0])
                            && is_gate_path(m, p) implies path_clean(p, visited2@) by {
                        lemma_entries_map_contains(connections.entries@);
                        let te = choose|te: int|
                            0 <= te < connections.entries@.len() && (
                            #[trigger] connections.entries@[te]).0 == key;
                        assert(is_gate_out_key(connections.entries@[te].0, g));
                    }
                    lemma_extend_clean(m, g, visited_gates@, visited2@);
                    lemma_prefix_step_gate(outs@, j as int, g);
                    assert forall|p: Seq<usize>|
                        p.len() > 0 && hop_in_prefix(outs@, j + 1, p[0]) && #[trigger] is_gate_path(
                            m,
                            p,
                        ) implies path_clean(p, visited_gates@) by {
                        if !hop_in_prefix(outs@, j as int, p[0]) {
                            assert(p[0] == g);
                        }
                    }
                }
            },
            ConnectionIndex::Input(_) => {
                proof {
                    assert(false);
                }
            },
            ConnectionIndex::GateOutput { .. } => {
                proof {
                    assert(false);
                }
            },
        }
        proof {
            if !(m[from][j as int] is GateInput) {
                lemma_prefix_step_no_gate(outs@, j as int);
            }
        }
    }
    proof {
        assert forall|p: Seq<usize>|
            p.len() > 0 && first_hop(m, from, p[0]) && #[trigger] is_gate_path(m, p) implies path_clean(
            p,
            visited_gates@,
        ) by {
            let t = choose|t: int| 0 <= t < m[from].len() && dest_gate(#[trigger] m[from][t])
                == Some(p[0]);
            assert(hop_in_prefix(outs@, n as int, p[0]));
        }
    }
    false
}

/// Destinations before index `j` include an input pin of gate `g`.
pub open spec fn hop_in_prefix(outs: Seq<ConnectionIndex>, j: int, g: usize) -> bool {
    exists|t: int| 0 <= t < j && dest_gate(#[trigger] outs[t]) == Some(g)
}

/// Extending the prefix over a destination that is no gate input adds no hop.
proof fn lemma_prefix_step_no_gate(outs: Seq<ConnectionIndex>, j: int)
    requires
        0 <= j < outs.len(),
        dest_gate(outs[j]) is None,
    ensures
        forall|g: usize| hop_in_prefix(outs, j + 1, g) == hop_in_prefix(outs, j, g),
{
    assert forall|g: usize| hop_in_prefix(outs, j + 1, g) implies hop_in_prefix(outs, j, g) by {
        let t = choose|t: int| 0 <= t < j + 1 && dest_gate(#[trigger] outs[t]) == Some(g);
        assert(t < j);
    }
    assert forall|g: usize| hop_in_prefix(outs, j, g) implies hop_in_prefix(outs, j + 1, g) by {
        let t = choose|t: int| 0 <= t < j && dest_gate(#[trigger] outs[t]) == Some(g);
    }
}

/// Extending the prefix over an input pin of gate `g` adds exactly that hop.
proof fn lemma_prefix_step_gate(outs: Seq<ConnectionIndex>, j: int, g: usize)
    requires
        0 <= j < outs.len(),
        dest_gate(outs[j]) == Some(g),
    ensures
        forall|g2: usize|
            hop_in_prefix(outs, j + 1, g2) == (hop_in_prefix(outs, j, g2) || g2 == g),
{
    assert forall|g2: usize| hop_in_prefix(outs, j + 1, g2) implies (hop_in_prefix(outs, j, g2)
        || g2 == g) by {
        let t = choose|t: int| 0 <= t < j + 1 && dest_gate(#[trigger] outs[t]) == Some(g2);
        if t < j {
        } else {
            assert(dest_gate(outs[j]) == Some(g2));
        }
    }
    assert forall|g2: usize| hop_in_prefix(outs, j, g2) || g2 == g implies hop_in_prefix(
        outs,
        j + 1,
        g2,
    ) by {
        if hop_in_prefix(outs, j, g2) {
            let t = choose|t: int| 0 <= t < j && dest_gate(#[trigger] outs[t]) == Some(g2);
        } else {
            assert(dest_gate(outs[j]) == Some(g2));
        }
    }
}

/// Builds the dirty-path witness for the caller out of a dirty path found
/// behind one of gate `g`'s output pins.
proof fn lemma_witness_through_gate(
    m: Map<ConnectionIndex, Seq<ConnectionIndex>>,
    from: ConnectionIndex,
    j: int,
    g: usize,
    key: ConnectionIndex,
    p2: Seq<usize>,
    visited: Seq<usize>,
    visited2: Seq<usize>,
)
    requires
        m.contains_key(from),
        0 <= j < m[from].len(),
        dest_gate(m[from][j]) == Some(g),
        is_gate_out_key(key, g),
        m.contains_key(key),
        visited2 == visited.push(g),
        p2.len() > 0,
        first_hop(m, key, p2[0]),
        is_gate_path(m, p2),
        !path_clean(p2, visited2),
    ensures
        exists|p: Seq<usize>|
            p.len() > 0 && first_hop(m, from, p[0]) && #[trigger] is_gate_path(m, p)
                && !path_clean(p, visited),
{
    let p = seq![g] + p2;
    assert(p[0] == g);
    assert(first_hop(m, from, p[0]));
    let oi = key->GateOutput_io_index;
    assert(key == ConnectionIndex::GateOutput { gate_index: g, io_index: oi });
    assert(is_gate_path(m, p)) by {
        assert forall|k: int| 0 < k < p.len() implies gate_edge(m, p[k - 1], #[trigger] p[k]) by {
            if k == 1 {
                let t = choose|t: int|
                    0 <= t < m[key].len() && dest_gate(#[trigger] m[key][t]) == Some(p2[0]);
                assert(p[1] == p2[0]);
                assert(gate_edge(m, g, p2[0]));
            } else {
                assert(p[k - 1] == p2[k - 2] && p[k] == p2[k - 1]);
                assert(gate_edge(m, p2[k - 2], p2[k - 1]));
            }
        }
    }
    assert(!path_clean(p, visited)) by {
        if has_repeat(p2) {
            let (a, b) = choose|a: int, b: int|
                #![trigger p2[a], p2[b]]
                0 <= a < b < p2.len() && p2[a] == p2[b];
            assert(p[a + 1] == p[b + 1]);
            assert(has_repeat(p));
        } else {
            let k = choose|k: int| 0 <= k < p2.len() && visited2.contains(#[trigger] p2[k]);
            let t = choose|t: int| 0 <= t < visited2.len() && visited2[t] == p2[k];
            if t < visited.len() {
                assert(visited.contains(p2[k]));
                assert(p[k + 1] == p2[k]);
                assert(!path_clean(p, visited)) by {
                    if path_clean(p, visited) {
                        assert(!visited.contains(p[k + 1]));
                    }
                }
            } else {
                assert(p2[k] == g);
                assert(p[0] == p[k + 1]);
                assert(has_repeat(p));
            }
        }
    }
}

/// Whether the wiring, followed forward from its primary inputs, can visit
/// some gate twice without first passing through a primary output. Such
/// combinational feedback has no well-defined value under fire-once
/// evaluation, so the enumerator rejects wirings with it.
pub fn contains_infinite_loop(connections: &Connections) -> (r: bool)
    requires
        connections.wf(),
        keys_are_sources(connections@),
        values_are_destinations(connections@),
    ensures
        r == has_cycle_from_inputs(connections@),
{
    let ghost m = connections@;
    let n = connections.entries.len();
    for i in 0..n
        invariant
            connections.wf(),
            keys_are_sources(m),
            values_are_destinations(m),
            m == connections@,
            n == connections.entries@.len(),
            forall|t: int, p: Seq<usize>|
                #![trigger connections.entries@[t], is_gate_path(m, p)]
                0 <= t < i && connections.entries@[t].0 is Input && p.len() > 0 && first_hop(
                    m,
                    connections.entries@[t].0,
                    p[0],
                ) && is_gate_path(m, p) ==> path_clean(p, Seq::empty()),
    {
        let key = connections.entries[i].0;
        let is_input = match key {
            ConnectionIndex::Input(_) => true,
            _ => false,
        };
        if is_input {
            proof {
                lemma_entries_map_index(connections.entries@, i as int);
            }
            let visited: Vec<usize> = Vec::new();
            if contains_infinite_loop_rec(connections, key, &visited) {
                proof {
                    let p = choose|p: Seq<usize>|
                        p.len() > 0 && first_hop(m, key, p[0]) && #[trigger] is_gate_path(m, p)
                            && !path_clean(p, Seq::<usize>::empty());
                    assert(has_repeat(p)) by {
                        if !has_repeat(p) {
                            assert forall|k: int| 0 <= k < p.len() implies !Seq::<
                                usize,
                            >::empty().contains(#[trigger] p[k]) by {
                                if Seq::<usize>::empty().contains(p[k]) {
                                    let t = choose|t: int|
                                        0 <= t < Seq::<usize>::empty().len() && Seq::<
                                            usize,
                                        >::empty()[t] == p[k];
                                }
                            }
                        }
                    }
                    let ghost ii = key->Input_0;
                    assert(m.contains_key(ConnectionIndex::Input(ii)) && p.len() > 0 && first_hop(
                        m,
                        ConnectionIndex::Input(ii),
                        p[0],
                    ) && is_gate_path(m, p) && has_repeat(p));
                }
                return true;
            }
        }
    }
    proof {
        if has_cycle_from_inputs(m) {
            let (i2, p) = choose|i2: usize, p: Seq<usize>|
                {
                    &&& m.contains_key(ConnectionIndex::Input(i2))
                    &&& p.len() > 0
                    &&& #[trigger] first_hop(m, ConnectionIndex::Input(i2), p[0])
                    &&& is_gate_path(m, p)
                    &&& has_repeat(p)
                };
            lemma_entries_map_contains(connections.entries@);
            let t = choose|t: int|
                0 <= t < connections.entries@.len() && (#[trigger] connections.entries@[t]).0
                    == ConnectionIndex::Input(i2);
            assert(path_clean(p, Seq::empty()));
            assert(false);
        }
    }
    false
}

} // verus!
