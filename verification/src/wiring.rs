use vstd::prelude::*;

use crate::endpoint::ConnectionIndex;

verus! {

/// A wiring: a mapping from each source endpoint to the destination
/// endpoints it drives. A source may fan out to several destinations; a
/// destination is meant to appear under exactly one source, which the
/// enumerator enforces by construction.
///
/// The mapping is stored as an association list with unique keys and is
/// viewed as a `Map` from source endpoints to the sequence of their
/// destinations.
#[derive(Debug)]
pub struct Connections {
    pub entries: Vec<(ConnectionIndex, Vec<ConnectionIndex>)>,
}

/// The mathematical map described by an association list: later entries win,
/// though `Connections` keeps its keys unique so the order never matters.
pub open spec fn entries_map(
    s: Seq<(ConnectionIndex, Vec<ConnectionIndex>)>,
) -> Map<ConnectionIndex, Seq<ConnectionIndex>>
    decreases s.len(),
{
    if s.len() == 0 {
        Map::empty()
    } else {
        entries_map(s.drop_last()).insert(s.last().0, s.last().1@)
    }
}

/// No key occurs twice in the association list.
pub open spec fn unique_keys(s: Seq<(ConnectionIndex, Vec<ConnectionIndex>)>) -> bool {
    forall|i: int, j: int| 0 <= i < j < s.len() ==> (#[trigger] s[i]).0 != (#[trigger] s[j]).0
}

/// Every key of the wiring is a source endpoint.
pub open spec fn keys_are_sources(m: Map<ConnectionIndex, Seq<ConnectionIndex>>) -> bool {
    forall|k: ConnectionIndex| #[trigger] m.contains_key(k) ==> k.is_source()
}

/// Every endpoint listed under a key is a destination endpoint.
pub open spec fn values_are_destinations(m: Map<ConnectionIndex, Seq<ConnectionIndex>>) -> bool {
    forall|k: ConnectionIndex, j: int|
        m.contains_key(k) && 0 <= j < m[k].len() ==> (#[trigger] m[k][j]).is_destination()
}

/// The wiring gives destination `d` at least one source.
pub open spec fn map_assigns(
    m: Map<ConnectionIndex, Seq<ConnectionIndex>>,
    d: ConnectionIndex,
) -> bool {
    exists|k: ConnectionIndex| #[trigger] m.contains_key(k) && m[k].contains(d)
}

/// No destination occurs twice in the wiring, over all sources: each
/// destination endpoint is driven by at most one source.
pub open spec fn dest_unique(m: Map<ConnectionIndex, Seq<ConnectionIndex>>) -> bool {
    forall|k1: ConnectionIndex, j1: int, k2: ConnectionIndex, j2: int|
        m.contains_key(k1) && 0 <= j1 < m[k1].len() && m.contains_key(k2) && 0 <= j2 < m[k2].len()
            && (#[trigger] m[k1][j1]) == (#[trigger] m[k2][j2]) ==> k1 == k2 && j1 == j2
}

/// A key of the association list is a key of its map, and conversely.
pub proof fn lemma_entries_map_contains(s: Seq<(ConnectionIndex, Vec<ConnectionIndex>)>)
    ensures
        forall|k: ConnectionIndex|
            #[trigger] entries_map(s).contains_key(k) <==> exists|i: int|
                0 <= i < s.len() && (#[trigger] s[i]).0 == k,
    decreases s.len(),
{
    if s.len() == 0 {
    } else {
        let dl = s.drop_last();
        lemma_entries_map_contains(dl);
        assert forall|k: ConnectionIndex| #[trigger] entries_map(s).contains_key(k) implies exists|
            i: int,
        | 0 <= i < s.len() && (#[trigger] s[i]).0 == k by {
            if k == s.last().0 {
                assert((s[s.len() - 1]).0 == k);
            } else {
                assert(entries_map(dl).contains_key(k));
                let i = choose|i: int| 0 <= i < dl.len() && (#[trigger] dl[i]).0 == k;
                assert(dl[i] == s[i]);
                assert((s[i]).0 == k);
            }
        }
        assert forall|k: ConnectionIndex|
            (exists|i: int| 0 <= i < s.len() && (#[trigger] s[i]).0 == k) implies #[trigger] entries_map(
            s,
        ).contains_key(k) by {
            let i = choose|i: int| 0 <= i < s.len() && (#[trigger] s[i]).0 == k;
            if i < s.len() - 1 {
                assert((dl[i]).0 == k);
                assert(entries_map(dl).contains_key(k));
            }
        }
    }
}

/// Under unique keys, entry `i` of the association list gives the map's
/// value at its key.
pub proof fn lemma_entries_map_index(s: Seq<(ConnectionIndex, Vec<ConnectionIndex>)>, i: int)
    requires
        unique_keys(s),
        0 <= i < s.len(),
    ensures
        entries_map(s).contains_key(s[i].0),
        entries_map(s)[s[i].0] == s[i].1@,
    decreases s.len(),
{
    if i == s.len() - 1 {
    } else {
        assert(s[i].0 != s.last().0);
        assert(s.drop_last()[i] == s[i]);
        lemma_entries_map_index(s.drop_last(), i);
    }
}

/// Two association lists with the same keys and the same destination
/// sequences, entry by entry, describe the same map.
pub proof fn lemma_entries_map_congruence(
    s1: Seq<(ConnectionIndex, Vec<ConnectionIndex>)>,
    s2: Seq<(ConnectionIndex, Vec<ConnectionIndex>)>,
)
    requires
        s1.len() == s2.len(),
        forall|i: int|
            0 <= i < s1.len() ==> (#[trigger] s1[i]).0 == (#[trigger] s2[i]).0 && s1[i].1@
                == s2[i].1@,
    ensures
        entries_map(s1) == entries_map(s2),
    decreases s1.len(),
{
    if s1.len() == 0 {
        assert(entries_map(s1) =~= entries_map(s2));
    } else {
        assert(forall|i: int|
            0 <= i < s1.drop_last().len() ==> (#[trigger] s1.drop_last()[i]) == s1[i]
                && (#[trigger] s2.drop_last()[i]) == s2[i]);
        lemma_entries_map_congruence(s1.drop_last(), s2.drop_last());
        assert((s1[s1.len() - 1]).0 == (s2[s2.len() - 1]).0);
        assert(entries_map(s1) =~= entries_map(s2));
    }
}

/// Updating one entry in place, keeping its key, updates the map at that key.
pub proof fn lemma_entries_map_update_value(
    s: Seq<(ConnectionIndex, Vec<ConnectionIndex>)>,
    i: int,
    v: Vec<ConnectionIndex>,
)
    requires
        unique_keys(s),
        0 <= i < s.len(),
    ensures
        unique_keys(s.update(i, (s[i].0, v))),
        entries_map(s.update(i, (s[i].0, v))) == entries_map(s).insert(s[i].0, v@),
    decreases s.len(),
{
    let t = s.update(i, (s[i].0, v));
    assert forall|a: int, b: int| 0 <= a < b < t.len() implies (#[trigger] t[a]).0
        != (#[trigger] t[b]).0 by {
        assert(t[a].0 == s[a].0 && t[b].0 == s[b].0);
    }
    if i == s.len() - 1 {
        assert(t.drop_last() =~= s.drop_last());
        assert(entries_map(t) =~= entries_map(s).insert(s[i].0, v@));
    } else {
        assert(t.drop_last() =~= s.drop_last().update(i, (s[i].0, v)));
        assert(s.drop_last()[i] == s[i]);
        lemma_entries_map_update_value(s.drop_last(), i, v);
        assert(s[i].0 != s.last().0);
        assert(entries_map(t) =~= entries_map(s).insert(s[i].0, v@));
    }
}

/// After adding `dest` under `source`, the assigned destinations are the old
/// ones together with `dest`.
pub(crate) proof fn lemma_push_dest_assigns(
    m1: Map<ConnectionIndex, Seq<ConnectionIndex>>,
    m2: Map<ConnectionIndex, Seq<ConnectionIndex>>,
    source: ConnectionIndex,
    dest: ConnectionIndex,
)
    requires
        m1.contains_key(source) ==> m2 == m1.insert(source, m1[source].push(dest)),
        !m1.contains_key(source) ==> m2 == m1.insert(source, seq![dest]),
    ensures
        forall|e: ConnectionIndex|
            #[trigger] map_assigns(m2, e) <==> map_assigns(m1, e) || e == dest,
{
    let new_val = if m1.contains_key(source) {
        m1[source].push(dest)
    } else {
        seq![dest]
    };
    assert forall|e: ConnectionIndex| #[trigger] map_assigns(m2, e) implies map_assigns(m1, e) || e
        == dest by {
        let k = choose|k: ConnectionIndex| #[trigger] m2.contains_key(k) && m2[k].contains(e);
        if k == source {
            let j = choose|j: int| 0 <= j < m2[k].len() && m2[k][j] == e;
            if m1.contains_key(source) {
                if j < m1[source].len() {
                    assert(m1[source][j] == e);
                    assert(m1.contains_key(source) && m1[source].contains(e));
                }
            }
        } else {
            assert(m1.contains_key(k) && m1[k].contains(e));
        }
    }
    assert forall|e: ConnectionIndex| map_assigns(m1, e) || e == dest implies #[trigger] map_assigns(
        m2,
        e,
    ) by {
        if e == dest {
            assert(m2[source][new_val.len() - 1] == dest);
            assert(m2.contains_key(source) && m2[source].contains(e));
        } else {
            let k = choose|k: ConnectionIndex| #[trigger] m1.contains_key(k) && m1[k].contains(e);
            if k == source {
                let j = choose|j: int| 0 <= j < m1[k].len() && m1[k][j] == e;
                assert(m2[source][j] == e);
                assert(m2.contains_key(source) && m2[source].contains(e));
            } else {
                assert(m2.contains_key(k) && m2[k].contains(e));
            }
        }
    }
}

impl View for Connections {
    type V = Map<ConnectionIndex, Seq<ConnectionIndex>>;

    open spec fn view(&self) -> Map<ConnectionIndex, Seq<ConnectionIndex>> {
        entries_map(self.entries@)
    }
}

impl Connections {
    /// The association list holds each key once.
    pub open spec fn wf(self) -> bool {
        unique_keys(self.entries@)
    }

    /// The empty wiring.
    pub fn new() -> (c: Connections)
        ensures
            c.wf(),
            c@ == Map::<ConnectionIndex, Seq<ConnectionIndex>>::empty(),
    {
        Connections { entries: Vec::new() }
    }

    /// Binds `key` to exactly the given destinations, replacing any earlier
    /// binding of `key`.
    pub fn insert(&mut self, key: ConnectionIndex, dests: Vec<ConnectionIndex>)
        requires
            old(self).wf(),
        ensures
            final(self).wf(),
            final(self)@ == old(self)@.insert(key, dests@),
    {
        let ghost gdests = dests;
        let n = self.entries.len();
        for i in 0..n
            invariant
                self == old(self),
                self.wf(),
                n == self.entries.len(),
                dests == gdests,
                forall|j: int| 0 <= j < i ==> (#[trigger] self.entries@[j]).0 != key,
        {
            if self.entries[i].0 == key {
                let e = self.entries.remove(i);
                let e2 = (e.0, dests);
                let ghost ge2 = e2;
                self.entries.insert(i, e2);
                proof {
                    assert(self.entries@ =~= old(self).entries@.update(
                        i as int,
                        (old(self).entries@[i as int].0, ge2.1),
                    ));
                    lemma_entries_map_update_value(old(self).entries@, i as int, ge2.1);
                }
                return;
            }
        }
        let ghost old_entries = self.entries@;
        self.entries.push((key, dests));
        proof {
            assert(self.entries@.drop_last() =~= old_entries);
            lemma_entries_map_contains(old_entries);
            assert(forall|a: int, b: int|
                0 <= a < b < self.entries@.len() ==> (#[trigger] self.entries@[a]).0
                    != (#[trigger] self.entries@[b]).0);
        }
    }

    /// Looks up the destinations bound to `key`.
    pub fn get(&self, key: ConnectionIndex) -> (r: Option<&Vec<ConnectionIndex>>)
        requires
            self.wf(),
        ensures
            match r {
                Some(v) => self@.contains_key(key) && v@ == self@[key],
                None => !self@.contains_key(key),
            },
    {
        let n = self.entries.len();
        for i in 0..n
            invariant
                n == self.entries.len(),
                self.wf(),
                forall|j: int| 0 <= j < i ==> (#[trigger] self.entries@[j]).0 != key,
        {
            if self.entries[i].0 == key {
                proof {
                    lemma_entries_map_index(self.entries@, i as int);
                }
                return Some(&self.entries[i].1);
            }
        }
        proof {
            lemma_entries_map_contains(self.entries@);
        }
        None
    }

    /// Whether `key` is bound in the wiring.
    pub fn contains_key(&self, key: ConnectionIndex) -> (r: bool)
        requires
            self.wf(),
        ensures
            r == self@.contains_key(key),
    {
        self.get(key).is_some()
    }

    /// Adds `dest` to the destinations driven by `source`, creating the
    /// binding if `source` was unbound.
    pub fn push_dest(&mut self, source: ConnectionIndex, dest: ConnectionIndex)
        requires
            old(self).wf(),
        ensures
            final(self).wf(),
            old(self)@.contains_key(source) ==> final(self)@ == old(self)@.insert(
                source,
                old(self)@[source].push(dest),
            ),
            !old(self)@.contains_key(source) ==> final(self)@ == old(self)@.insert(
                source,
                seq![dest],
            ),
            forall|e: ConnectionIndex|
                #[trigger] map_assigns(final(self)@, e) <==> map_assigns(old(self)@, e) || e
                    == dest,
    {
        let n = self.entries.len();
        for i in 0..n
            invariant
                self == old(self),
                self.wf(),
                n == self.entries.len(),
                forall|j: int| 0 <= j < i ==> (#[trigger] self.entries@[j]).0 != source,
        {
            if self.entries[i].0 == source {
                let e = self.entries.remove(i);
                let (k0, mut row) = e;
                row.push(dest);
                let e2 = (k0, row);
                let ghost ge2 = e2;
                self.entries.insert(i, e2);
                proof {
                    lemma_entries_map_index(old(self).entries@, i as int);
                    assert(old(self).entries@[i as int].0 == source);
                    assert(old(self)@.contains_key(source));
                    assert(old(self)@[source] == old(self).entries@[i as int].1@);
                    assert(self.entries@ =~= old(self).entries@.update(
                        i as int,
                        (old(self).entries@[i as int].0, ge2.1),
                    ));
                    assert(ge2.1@ == old(self).entries@[i as int].1@.push(dest));
                    lemma_entries_map_update_value(old(self).entries@, i as int, ge2.1);
                    assert(self@ == old(self)@.insert(source, ge2.1@));
                    assert(self@ == old(self)@.insert(source, old(self)@[source].push(dest)));
                    lemma_push_dest_assigns(old(self)@, self@, source, dest);
                }
                return;
            }
        }
        let ghost old_entries = self.entries@;
        let v = vec_of_one(dest);
        self.entries.push((source, v));
        proof {
            assert(self.entries@.drop_last() =~= old_entries);
            lemma_entries_map_contains(old_entries);
            assert(forall|a: int, b: int|
                0 <= a < b < self.entries@.len() ==> (#[trigger] self.entries@[a]).0
                    != (#[trigger] self.entries@[b]).0);
            assert(!old(self)@.contains_key(source));
            assert(self@ == old(self)@.insert(source, seq![dest]));
            lemma_push_dest_assigns(old(self)@, self@, source, dest);
        }
    }

    /// Whether some source drives destination `d`.
    pub fn is_assigned(&self, d: ConnectionIndex) -> (r: bool)
        requires
            self.wf(),
        ensures
            r == map_assigns(self@, d),
    {
        let n = self.entries.len();
        for i in 0..n
            invariant
                n == self.entries.len(),
                self.wf(),
                forall|i2: int, j2: int|
                    0 <= i2 < i && 0 <= j2 < self.entries@[i2].1@.len() ==> (
                    #[trigger] self.entries@[i2].1@[j2]) != d,
        {
            let row = &self.entries[i].1;
            let rn = row.len();
            for j in 0..rn
                invariant
                    self.wf(),
                    0 <= i < self.entries@.len(),
                    row@ == self.entries@[i as int].1@,
                    rn == row.len(),
                    forall|j2: int| 0 <= j2 < j ==> (#[trigger] row@[j2]) != d,
            {
                if row[j] == d {
                    proof {
                        lemma_entries_map_index(self.entries@, i as int);
                        assert(self@.contains_key(self.entries@[i as int].0) && self@[self.entries@[
                            i as int].0].contains(d));
                    }
                    return true;
                }
            }
        }
        proof {
            if map_assigns(self@, d) {
                let k = choose|k: ConnectionIndex|
                    #[trigger] self@.contains_key(k) && self@[k].contains(d);
                lemma_entries_map_contains(self.entries@);
                let i = choose|i: int|
                    0 <= i < self.entries@.len() && (#[trigger] self.entries@[i]).0 == k;
                lemma_entries_map_index(self.entries@, i);
                let j = choose|j: int| 0 <= j < self@[k].len() && self@[k][j] == d;
                assert(self.entries@[i].1@[j] == d);
            }
        }
        false
    }

    /// A deep copy of the wiring.
    pub fn duplicate(&self) -> (r: Connections)
        ensures
            r@ == self@,
            self.wf() ==> r.wf(),
    {
        let mut entries: Vec<(ConnectionIndex, Vec<ConnectionIndex>)> = Vec::new();
        let n = self.entries.len();
        for i in 0..n
            invariant
                n == self.entries.len(),
                entries@.len() == i,
                forall|j: int|
                    0 <= j < i ==> (#[trigger] entries@[j]).0 == (#[trigger] self.entries@[j]).0
                        && entries@[j].1@ == self.entries@[j].1@,
        {
            let e = &self.entries[i];
            let mut row: Vec<ConnectionIndex> = Vec::new();
            let rn = e.1.len();
            for j in 0..rn
                invariant
                    rn == e.1.len(),
                    row@.len() == j,
                    forall|j2: int| 0 <= j2 < j ==> (#[trigger] row@[j2]) == e.1@[j2],
            {
                row.push(e.1[j]);
            }
            proof {
                assert(row@ =~= e.1@);
            }
            entries.push((e.0, row));
        }
        proof {
            lemma_entries_map_congruence(entries@, self.entries@);
            if unique_keys(self.entries@) {
                assert forall|a: int, b: int| 0 <= a < b < entries@.len() implies (
                #[trigger] entries@[a]).0 != (#[trigger] entries@[b]).0 by {
                    assert(entries@[a].0 == self.entries@[a].0);
                    assert(entries@[b].0 == self.entries@[b].0);
                    assert(self.entries@[a].0 != self.entries@[b].0);
                }
            }
        }
        Connections { entries }
    }
}

/// A one-element vector.
fn vec_of_one(d: ConnectionIndex) -> (r: Vec<ConnectionIndex>)
    ensures
        r@ == seq![d],
{
    let mut r: Vec<ConnectionIndex> = Vec::new();
    r.push(d);
    proof {
        assert(r@ =~= seq![d]);
    }
    r
}

} // verus!
