//! Address-keyed containers backing the graph: an address-ordered vertex
//! map and a source-to-destinations edge map with set semantics.

use vstd::prelude::*;

use crate::cfg::{NodeModel, VisitingNode};

verus! {

/// The map described by an association list: later entries win.
pub open spec fn map_of<V>(s: Seq<(usize, V)>) -> Map<usize, V>
    decreases s.len(),
{
    if s.len() == 0 {
        Map::empty()
    } else {
        map_of(s.drop_last()).insert(s.last().0, s.last().1)
    }
}

/// Whether some entry of `s` carries the key `k`.
pub open spec fn has_key<V>(s: Seq<(usize, V)>, k: usize) -> bool {
    exists|i: int| 0 <= i < s.len() && s[i].0 == k
}

/// Whether the keys of `s` are pairwise different.
pub open spec fn distinct_keys<V>(s: Seq<(usize, V)>) -> bool {
    forall|i: int, j: int| 0 <= i < j < s.len() ==> s[i].0 != s[j].0
}

pub proof fn lemma_map_of_dom<V>(s: Seq<(usize, V)>)
    ensures
        map_of(s).dom().finite(),
        forall|k: usize| #[trigger] map_of(s).dom().contains(k) ==> has_key(s, k),
        forall|k: usize| has_key(s, k) ==> map_of(s).dom().contains(k),
    decreases s.len(),
{
    if s.len() > 0 {
        lemma_map_of_dom(s.drop_last());
        let last = s.len() - 1;
        assert forall|k: usize| #[trigger] map_of(s).dom().contains(k) implies has_key(s, k) by {
            if k == s.last().0 {
                assert(s[last].0 == k);
            } else {
                assert(map_of(s.drop_last()).dom().contains(k));
                let i = choose|i: int| 0 <= i < s.drop_last().len() && s.drop_last()[i].0 == k;
                assert(s[i].0 == k);
            }
        }
        assert forall|k: usize| has_key(s, k) implies map_of(s).dom().contains(k) by {
            let i = choose|i: int| 0 <= i < s.len() && s[i].0 == k;
            if i < last {
                assert(s.drop_last()[i].0 == k);
                assert(has_key(s.drop_last(), k));
            } else {
                assert(k == s.last().0);
            }
        }
    }
}

pub proof fn lemma_map_of_get<V>(s: Seq<(usize, V)>, i: int)
    requires
        distinct_keys(s),
        0 <= i < s.len(),
    ensures
        map_of(s).dom().contains(s[i].0),
        map_of(s)[s[i].0] == s[i].1,
    decreases s.len(),
{
    lemma_map_of_dom(s);
    assert(has_key(s, s[i].0));
    if i < s.len() - 1 {
        assert(s.drop_last()[i] == s[i]);
        lemma_map_of_get(s.drop_last(), i);
        assert(s.last().0 != s[i].0);
    }
}

pub proof fn lemma_map_of_len<V>(s: Seq<(usize, V)>)
    requires
        distinct_keys(s),
    ensures
        map_of(s).dom().finite(),
        map_of(s).dom().len() == s.len(),
    decreases s.len(),
{
    lemma_map_of_dom(s);
    if s.len() > 0 {
        let d = s.drop_last();
        lemma_map_of_len(d);
        lemma_map_of_dom(d);
        let k = s.last().0;
        assert(!has_key(d, k)) by {
            if has_key(d, k) {
                let i = choose|i: int| 0 <= i < d.len() && d[i].0 == k;
                assert(s[i].0 == s[s.len() - 1].0);
            }
        }
        assert(map_of(s).dom() =~= map_of(d).dom().insert(k));
        vstd::set::axiom_set_insert_len(map_of(d).dom(), k);
    }
}

pub proof fn lemma_map_of_update<V>(s: Seq<(usize, V)>, i: int, v: V)
    requires
        distinct_keys(s),
        0 <= i < s.len(),
    ensures
        map_of(s.update(i, (s[i].0, v))) == map_of(s).insert(s[i].0, v),
        distinct_keys(s.update(i, (s[i].0, v))),
    decreases s.len(),
{
    let k = s[i].0;
    let s2 = s.update(i, (k, v));
    assert(distinct_keys(s2)) by {
        assert(forall|a: int| 0 <= a < s.len() ==> s2[a].0 == s[a].0);
    }
    if i == s.len() - 1 {
        assert(s2.drop_last() =~= s.drop_last());
        assert(map_of(s2) =~= map_of(s).insert(k, v));
    } else {
        assert(s2.drop_last() =~= s.drop_last().update(i, (s.drop_last()[i].0, v)));
        lemma_map_of_update(s.drop_last(), i, v);
        assert(s.last().0 != k);
        assert(map_of(s2) =~= map_of(s).insert(k, v));
    }
}

pub proof fn lemma_map_of_insert_at<V>(s: Seq<(usize, V)>, i: int, k: usize, v: V)
    requires
        distinct_keys(s),
        !has_key(s, k),
        0 <= i <= s.len(),
    ensures
        map_of(s.insert(i, (k, v))) == map_of(s).insert(k, v),
        distinct_keys(s.insert(i, (k, v))),
    decreases s.len(),
{
    let s2 = s.insert(i, (k, v));
    assert(s2.len() == s.len() + 1);
    assert(distinct_keys(s2)) by {
        assert forall|a: int, b: int| 0 <= a < b < s2.len() implies s2[a].0 != s2[b].0 by {
            if a != i && b != i {
                let a0 = if a < i { a } else { a - 1 };
                let b0 = if b < i { b } else { b - 1 };
                assert(s2[a].0 == s[a0].0);
                assert(s2[b].0 == s[b0].0);
            } else if a == i {
                assert(s2[b].0 == s[b - 1].0);
                assert(s[b - 1].0 != k);
            } else {
                assert(s2[a].0 == s[a].0);
                assert(s[a].0 != k);
            }
        }
    }
    if i == s.len() {
        assert(s2.drop_last() =~= s);
        assert(map_of(s2) =~= map_of(s).insert(k, v));
    } else {
        assert(s2.drop_last() =~= s.drop_last().insert(i, (k, v)));
        assert(s2.last() == s.last());
        assert(!has_key(s.drop_last(), k)) by {
            if has_key(s.drop_last(), k) {
                let j = choose|j: int| 0 <= j < s.drop_last().len() && s.drop_last()[j].0 == k;
                assert(s[j].0 == k);
            }
        }
        lemma_map_of_insert_at(s.drop_last(), i, k, v);
        assert(s.last().0 != k) by {
            assert(s[s.len() - 1].0 == s.last().0);
        }
        assert(map_of(s2) =~= map_of(s).insert(k, v));
    }
}

pub proof fn lemma_map_of_remove_at<V>(s: Seq<(usize, V)>, i: int)
    requires
        distinct_keys(s),
        0 <= i < s.len(),
    ensures
        map_of(s.remove(i)) == map_of(s).remove(s[i].0),
        distinct_keys(s.remove(i)),
    decreases s.len(),
{
    let k = s[i].0;
    let s2 = s.remove(i);
    lemma_map_of_dom(s);
    assert(distinct_keys(s2)) by {
        assert forall|a: int, b: int| 0 <= a < b < s2.len() implies s2[a].0 != s2[b].0 by {
            let a0 = if a < i { a } else { a + 1 };
            let b0 = if b < i { b } else { b + 1 };
            assert(s2[a].0 == s[a0].0);
            assert(s2[b].0 == s[b0].0);
        }
    }
    if i == s.len() - 1 {
        assert(s2 =~= s.drop_last());
        let d = s.drop_last();
        lemma_map_of_dom(d);
        assert(!has_key(d, k)) by {
            if has_key(d, k) {
                let j = choose|j: int| 0 <= j < d.len() && d[j].0 == k;
                assert(s[j].0 == s[s.len() - 1].0);
            }
        }
        assert(map_of(s2) =~= map_of(s).remove(k));
    } else {
        assert(s2.drop_last() =~= s.drop_last().remove(i));
        assert(s2.last() == s.last());
        lemma_map_of_remove_at(s.drop_last(), i);
        assert(s.last().0 != k) by {
            assert(s[s.len() - 1].0 == s.last().0);
        }
        assert(map_of(s2) =~= map_of(s).remove(k));
    }
}

/// The vertex map: entries ordered by strictly increasing address, so
/// that the owner of an address can be found by a predecessor lookup.
#[derive(Debug)]
pub struct VertMap {
    entries: Vec<(usize, VisitingNode)>,
}

impl View for VertMap {
    type V = Map<usize, NodeModel>;

    closed spec fn view(&self) -> Map<usize, NodeModel> {
        map_of(self.model_entries())
    }
}

impl VertMap {
    /// The entries as the contracts see them.
    pub closed spec fn model_entries(&self) -> Seq<(usize, NodeModel)> {
        self.entries@.map_values(|p: (usize, VisitingNode)| (p.0, p.1@))
    }

    /// The addresses of the vertices, in increasing order.
    pub closed spec fn key_seq(&self) -> Seq<usize> {
        self.entries@.map_values(|p: (usize, VisitingNode)| p.0)
    }

    /// Entries are sorted by strictly increasing address.
    pub closed spec fn wf(&self) -> bool {
        forall|i: int, j: int|
            0 <= i < j < self.entries@.len() ==> self.entries@[i].0 < self.entries@[j].0
    }

    proof fn lemma_view_has_key(&self)
        ensures
            self@.dom().finite(),
            forall|k: usize|
                #[trigger] self@.dom().contains(k) ==> has_key(self.model_entries(), k),
            forall|k: usize| has_key(self.model_entries(), k) ==> self@.dom().contains(k),
    {
        lemma_map_of_dom(self.model_entries());
    }

    proof fn lemma_wf_distinct(&self)
        requires
            self.wf(),
        ensures
            distinct_keys(self.model_entries()),
    {
        assert forall|i: int, j: int|
            0 <= i < j < self.model_entries().len()
            implies self.model_entries()[i].0 != self.model_entries()[j].0 by {
            assert(self.model_entries()[i].0 == self.entries@[i].0);
            assert(self.model_entries()[j].0 == self.entries@[j].0);
        }
    }

    /// What the ordered address sequence says of the map: it lists the
    /// domain exactly once, in strictly increasing order.
    pub proof fn lemma_keys(&self)
        requires
            self.wf(),
        ensures
            self@.dom().finite(),
            self.key_seq().len() == self@.dom().len(),
            forall|i: int, j: int|
                0 <= i < j < self.key_seq().len() ==> self.key_seq()[i] < self.key_seq()[j],
            forall|i: int|
                0 <= i < self.key_seq().len() ==> self@.dom().contains(#[trigger] self.key_seq()[i]),
            forall|k: usize| self@.dom().contains(k) ==> self.key_seq().contains(k),
    {
        self.lemma_wf_distinct();
        lemma_map_of_dom(self.model_entries());
        lemma_map_of_len(self.model_entries());
        assert forall|i: int|
            0 <= i < self.key_seq().len()
            implies self@.dom().contains(#[trigger] self.key_seq()[i]) by {
            assert(self.model_entries()[i].0 == self.key_seq()[i]);
            assert(has_key(self.model_entries(), self.key_seq()[i]));
        }
        assert forall|k: usize| self@.dom().contains(k) implies self.key_seq().contains(k) by {
            self.lemma_view_has_key();
            assert(has_key(self.model_entries(), k));
            let i = choose|i: int|
                0 <= i < self.model_entries().len() && self.model_entries()[i].0 == k;
            assert(self.model_entries()[i] == (self.entries@[i].0, self.entries@[i].1@));
            assert(self.key_seq()[i] == k);
        }
    }

    pub fn new() -> (r: VertMap)
        ensures
            r.wf(),
            r@ == Map::<usize, NodeModel>::empty(),
            r.key_seq() == Seq::<usize>::empty(),
    {
        let r = VertMap { entries: Vec::new() };
        proof {
            assert(r.model_entries() =~= Seq::<(usize, NodeModel)>::empty());
            assert(r.key_seq() =~= Seq::<usize>::empty());
        }
        r
    }

    /// Number of vertices.
    pub fn len(&self) -> (r: usize)
        requires
            self.wf(),
        ensures
            r as nat == self@.dom().len(),
            r as nat == self.key_seq().len(),
    {
        proof {
            self.lemma_wf_distinct();
            lemma_map_of_len(self.model_entries());
        }
        self.entries.len()
    }

    /// The `i`-th smallest vertex address.
    pub fn key_at(&self, i: usize) -> (r: usize)
        requires
            self.wf(),
            (i as nat) < self.key_seq().len(),
        ensures
            r == self.key_seq()[i as int],
    {
        self.entries[i].0
    }

    /// The vertex with the `i`-th smallest address.
    pub fn node_at(&self, i: usize) -> (r: &VisitingNode)
        requires
            self.wf(),
            (i as nat) < self.key_seq().len(),
        ensures
            self@.dom().contains(self.key_seq()[i as int]),
            r@ == self@[self.key_seq()[i as int]],
    {
        proof {
            self.lemma_wf_distinct();
            lemma_map_of_get(self.model_entries(), i as int);
            assert(self.model_entries()[i as int] == (self.entries@[i as int].0,
                self.entries@[i as int].1@));
        }
        &self.entries[i].1
    }

    fn find_idx(&self, k: usize) -> (r: Option<usize>)
        ensures
            match r {
                Some(i) => i < self.entries@.len() && self.entries@[i as int].0 == k,
                None => forall|i: int| 0 <= i < self.entries@.len() ==> self.entries@[i].0 != k,
            },
    {
        let n = self.entries.len();
        let mut i: usize = 0;
        while i < n && self.entries[i].0 != k
            invariant
                n == self.entries@.len(),
                0 <= i <= n,
                forall|j: int| 0 <= j < i ==> self.entries@[j].0 != k,
            decreases n - i,
        {
            i += 1;
        }
        if i == n {
            None
        } else {
            Some(i)
        }
    }

    pub fn contains_key(&self, k: usize) -> (r: bool)
        ensures
            r == self@.dom().contains(k),
    {
        proof {
            lemma_map_of_dom(self.model_entries());
        }
        let r = self.find_idx(k);
        proof {
            match r {
                Some(i) => {
                    assert(self.model_entries()[i as int].0 == k);
                    assert(has_key(self.model_entries(), k));
                },
                None => {
                    if has_key(self.model_entries(), k) {
                        let i = choose|i: int|
                            0 <= i < self.model_entries().len()
                                && self.model_entries()[i].0 == k;
                        assert(self.entries@[i].0 == k);
                    }
                },
            }
        }
        r.is_some()
    }

    /// Look the vertex at address `k` up.
    pub fn get(&self, k: usize) -> (r: Option<&VisitingNode>)
        requires
            self.wf(),
        ensures
            match r {
                Some(v) => self@.dom().contains(k) && v@ == self@[k],
                None => !self@.dom().contains(k),
            },
    {
        proof {
            lemma_map_of_dom(self.model_entries());
        }
        match self.find_idx(k) {
            Some(i) => {
                proof {
                    self.lemma_wf_distinct();
                    lemma_map_of_get(self.model_entries(), i as int);
                    assert(self.model_entries()[i as int] == (self.entries@[i as int].0,
                        self.entries@[i as int].1@));
                }
                Some(&self.entries[i].1)
            },
            None => {
                proof {
                    if has_key(self.model_entries(), k) {
                        let i = choose|i: int|
                            0 <= i < self.model_entries().len()
                                && self.model_entries()[i].0 == k;
                        assert(self.entries@[i].0 == k);
                    }
                }
                None
            },
        }
    }

    /// Insert the vertex `v` at address `k`, replacing a vertex already
    /// there.
    pub fn insert(&mut self, k: usize, v: VisitingNode)
        requires
            old(self).wf(),
        ensures
            final(self).wf(),
            final(self)@ == old(self)@.insert(k, v@),
    {
        proof {
            self.lemma_wf_distinct();
        }
        let ghost m0 = self.model_entries();
        let n = self.entries.len();
        let mut i: usize = 0;
        while i < n && self.entries[i].0 < k
            invariant
                n == self.entries@.len(),
                0 <= i <= n,
                forall|j: int| 0 <= j < i ==> self.entries@[j].0 < k,
            decreases n - i,
        {
            i += 1;
        }
        if i < n && self.entries[i].0 == k {
            let ghost e0 = self.entries@;
            self.entries.remove(i);
            self.entries.insert(i, (k, v));
            proof {
                assert(self.entries@ =~= e0.update(i as int, (k, v)));
                assert(self.model_entries() =~= m0.update(i as int, (m0[i as int].0, v@)));
                lemma_map_of_update(m0, i as int, v@);
            }
        } else {
            let ghost e0 = self.entries@;
            self.entries.insert(i, (k, v));
            proof {
                assert(self.model_entries() =~= m0.insert(i as int, (k, v@)));
                assert(!has_key(m0, k)) by {
                    if has_key(m0, k) {
                        let j = choose|j: int| 0 <= j < m0.len() && m0[j].0 == k;
                        assert(e0[j].0 == k);
                        if j >= i {
                            assert(e0[i as int].0 <= e0[j].0);
                        }
                    }
                }
                lemma_map_of_insert_at(m0, i as int, k, v@);
                assert forall|a: int, b: int|
                    0 <= a < b < self.entries@.len()
                    implies self.entries@[a].0 < self.entries@[b].0 by {
                    if a != i && b != i {
                        let a0 = if a < i { a } else { a - 1 };
                        let b0 = if b < i { b } else { b - 1 };
                        assert(self.entries@[a].0 == e0[a0].0);
                        assert(self.entries@[b].0 == e0[b0].0);
                    } else if a == i {
                        assert(self.entries@[b].0 == e0[b - 1].0);
                        assert(e0[i as int].0 != k);
                        assert(e0[b - 1].0 >= e0[i as int].0);
                    } else {
                        assert(self.entries@[a].0 == e0[a].0);
                    }
                }
            }
        }
    }

    /// Remove and hand back the vertex at address `k`, if any.
    pub fn remove(&mut self, k: usize) -> (r: Option<VisitingNode>)
        requires
            old(self).wf(),
        ensures
            final(self).wf(),
            final(self)@ == old(self)@.remove(k),
            match r {
                Some(v) => old(self)@.dom().contains(k) && v@ == old(self)@[k],
                None => !old(self)@.dom().contains(k),
            },
    {
        proof {
            self.lemma_wf_distinct();
            lemma_map_of_dom(self.model_entries());
        }
        let ghost m0 = self.model_entries();
        let ghost e0 = self.entries@;
        match self.find_idx(k) {
            Some(i) => {
                proof {
                    lemma_map_of_get(m0, i as int);
                    lemma_map_of_remove_at(m0, i as int);
                    assert(m0[i as int] == (e0[i as int].0, e0[i as int].1@));
                }
                let (_, v) = self.entries.remove(i);
                proof {
                    assert(self.model_entries() =~= m0.remove(i as int));
                    assert forall|a: int, b: int|
                        0 <= a < b < self.entries@.len()
                        implies self.entries@[a].0 < self.entries@[b].0 by {
                        let a0 = if a < i { a } else { a + 1 };
                        let b0 = if b < i { b } else { b + 1 };
                        assert(self.entries@[a].0 == e0[a0].0);
                        assert(self.entries@[b].0 == e0[b0].0);
                    }
                }
                Some(v)
            },
            None => {
                proof {
                    if has_key(m0, k) {
                        let i = choose|i: int| 0 <= i < m0.len() && m0[i].0 == k;
                        assert(e0[i].0 == k);
                    }
                    assert(old(self)@.remove(k) =~= old(self)@);
                }
                None
            },
        }
    }

    /// The greatest vertex address strictly below `a`, if any.
    pub fn pred_below(&self, a: usize) -> (r: Option<usize>)
        requires
            self.wf(),
        ensures
            match r {
                Some(p) => self@.dom().contains(p) && p < a
                    && (forall|q: usize| self@.dom().contains(q) && q < a ==> q <= p),
                None => forall|q: usize| self@.dom().contains(q) ==> q >= a,
            },
    {
        proof {
            self.lemma_wf_distinct();
            lemma_map_of_dom(self.model_entries());
        }
        let n = self.entries.len();
        let mut i: usize = 0;
        while i < n && self.entries[i].0 < a
            invariant
                n == self.entries@.len(),
                0 <= i <= n,
                forall|j: int| 0 <= j < i ==> self.entries@[j].0 < a,
            decreases n - i,
        {
            i += 1;
        }
        if i == 0 {
            proof {
                assert forall|q: usize| self@.dom().contains(q) implies q >= a by {
                    self.lemma_view_has_key();
                    assert(has_key(self.model_entries(), q));
                    let j = choose|j: int|
                        0 <= j < self.model_entries().len() && self.model_entries()[j].0 == q;
                    assert(self.model_entries()[j] == (self.entries@[j].0, self.entries@[j].1@));
                    assert(self.entries@[j].0 == q);
                    if n > 0 {
                        assert(self.entries@[0].0 >= a);
                        if j > 0 {
                            assert(self.entries@[0].0 < self.entries@[j].0);
                        }
                    }
                }
            }
            None
        } else {
            let p = self.entries[i - 1].0;
            proof {
                self.lemma_view_has_key();
                assert(self.model_entries()[i - 1].0 == p);
                assert(has_key(self.model_entries(), p));
                assert forall|q: usize| self@.dom().contains(q) && q < a implies q <= p by {
                    self.lemma_view_has_key();
                    assert(has_key(self.model_entries(), q));
                    let j = choose|j: int|
                        0 <= j < self.model_entries().len() && self.model_entries()[j].0 == q;
                    assert(self.model_entries()[j] == (self.entries@[j].0, self.entries@[j].1@));
                    assert(self.entries@[j].0 == q);
                    if j > i - 1 {
                        if i < n {
                            assert(self.entries@[i as int].0 <= self.entries@[j].0
                                || j == i as int);
                            assert(self.entries@[i as int].0 >= a);
                            if j > i {
                                assert(self.entries@[i as int].0 < self.entries@[j].0);
                            }
                        }
                    } else {
                        if j < i - 1 {
                            assert(self.entries@[j].0 < self.entries@[i - 1].0);
                        }
                    }
                }
            }
            Some(p)
        }
    }
}

/// The set of destinations held by a destination list.
pub open spec fn dset(s: Seq<usize>) -> Set<usize> {
    Set::new(|x: usize| s.contains(x))
}

/// Whether the elements of `s` are pairwise different.
pub open spec fn distinct_elems(s: Seq<usize>) -> bool {
    forall|i: int, j: int| 0 <= i < j < s.len() ==> s[i] != s[j]
}

/// The destination set of `s` in `m`, empty when `s` has no entry.
pub open spec fn edge_dests(m: Map<usize, Set<usize>>, s: usize) -> Set<usize> {
    if m.dom().contains(s) {
        m[s]
    } else {
        Set::empty()
    }
}

/// The edge map after one edge `s -> d` is added.
pub open spec fn edge_add(m: Map<usize, Set<usize>>, s: usize, d: usize) -> Map<
    usize,
    Set<usize>,
> {
    m.insert(s, edge_dests(m, s).insert(d))
}

/// One destination set after every edge to `f` is redirected to `t`.
pub open spec fn retarget_set(s: Set<usize>, f: usize, t: usize) -> Set<usize> {
    if s.contains(f) {
        s.remove(f).insert(t)
    } else {
        s
    }
}

/// The whole edge map after every destination `f` is redirected to `t`.
pub open spec fn retarget_map(m: Map<usize, Set<usize>>, f: usize, t: usize) -> Map<
    usize,
    Set<usize>,
> {
    Map::new(|s: usize| m.dom().contains(s), |s: usize| retarget_set(m[s], f, t))
}

pub proof fn lemma_dset_push(s: Seq<usize>, x: usize)
    ensures
        dset(s.push(x)) == dset(s).insert(x),
{
    assert forall|y: usize| #[trigger] dset(s.push(x)).contains(y)
        implies dset(s).insert(x).contains(y) by {
        let i = choose|i: int| 0 <= i < s.push(x).len() && s.push(x)[i] == y;
        if i < s.len() {
            assert(s[i] == y);
        }
    }
    assert forall|y: usize| dset(s).insert(x).contains(y)
        implies #[trigger] dset(s.push(x)).contains(y) by {
        if y == x {
            assert(s.push(x)[s.len() as int] == y);
        } else {
            let i = choose|i: int| 0 <= i < s.len() && s[i] == y;
            assert(s.push(x)[i] == y);
        }
    }
    assert(dset(s.push(x)) =~= dset(s).insert(x));
}

pub proof fn lemma_dset_remove_at(s: Seq<usize>, i: int)
    requires
        distinct_elems(s),
        0 <= i < s.len(),
    ensures
        dset(s.remove(i)) == dset(s).remove(s[i]),
        distinct_elems(s.remove(i)),
{
    let s2 = s.remove(i);
    assert(distinct_elems(s2)) by {
        assert forall|a: int, b: int| 0 <= a < b < s2.len() implies s2[a] != s2[b] by {
            let a0 = if a < i { a } else { a + 1 };
            let b0 = if b < i { b } else { b + 1 };
            assert(s2[a] == s[a0]);
            assert(s2[b] == s[b0]);
        }
    }
    assert forall|y: usize| #[trigger] dset(s2).contains(y)
        implies dset(s).remove(s[i]).contains(y) by {
        let j = choose|j: int| 0 <= j < s2.len() && s2[j] == y;
        let j0 = if j < i { j } else { j + 1 };
        assert(s[j0] == y);
    }
    assert forall|y: usize| dset(s).remove(s[i]).contains(y)
        implies #[trigger] dset(s2).contains(y) by {
        let j = choose|j: int| 0 <= j < s.len() && s[j] == y;
        if j < i {
            assert(s2[j] == y);
        } else {
            assert(s2[j - 1] == y);
        }
    }
    assert(dset(s2) =~= dset(s).remove(s[i]));
}

/// Whether `x` occurs in `v`.
fn vec_has(v: &Vec<usize>, x: usize) -> (r: bool)
    ensures
        r == v@.contains(x),
{
    let n = v.len();
    let mut i: usize = 0;
    while i < n && v[i] != x
        invariant
            n == v@.len(),
            0 <= i <= n,
            forall|j: int| 0 <= j < i ==> v@[j] != x,
        decreases n - i,
    {
        i += 1;
    }
    if i == n {
        proof {
            if v@.contains(x) {
                let j = choose|j: int| 0 <= j < v@.len() && v@[j] == x;
            }
        }
        false
    } else {
        assert(v@[i as int] == x);
        true
    }
}

/// Redirect the one occurrence of `f` in `v`, if any, to `t`, keeping
/// the list duplicate-free.
fn vec_replace(v: &mut Vec<usize>, f: usize, t: usize)
    requires
        distinct_elems(old(v)@),
    ensures
        distinct_elems(final(v)@),
        dset(final(v)@) == retarget_set(dset(old(v)@), f, t),
{
    let n = v.len();
    let mut i: usize = 0;
    while i < n && v[i] != f
        invariant
            n == v@.len(),
            0 <= i <= n,
            v@ == old(v)@,
            forall|j: int| 0 <= j < i ==> v@[j] != f,
        decreases n - i,
    {
        i += 1;
    }
    if i == n {
        proof {
            if dset(v@).contains(f) {
                let j = choose|j: int| 0 <= j < v@.len() && v@[j] == f;
            }
        }
    } else {
        assert(v@[i as int] == f);
        assert(dset(v@).contains(f));
        proof {
            lemma_dset_remove_at(v@, i as int);
        }
        v.remove(i);
        if !vec_has(v, t) {
            proof {
                lemma_dset_push(v@, t);
            }
            v.push(t);
            proof {
                assert forall|a: int, b: int|
                    0 <= a < b < v@.len() implies v@[a] != v@[b] by {
                    if b == v@.len() - 1 {
                        assert(v@.drop_last()[a] == v@[a]);
                        if v@[a] == v@[b] {
                            assert(v@.drop_last().contains(v@[b])) by {
                                assert(v@.drop_last()[a] == v@[b]);
                            }
                        }
                    }
                }
            }
        } else {
            proof {
                assert(dset(v@).insert(t) =~= dset(v@));
            }
        }
    }
}

/// Append to `dst` the elements of `src` that it is still missing.
pub(crate) fn push_missing(dst: &mut Vec<usize>, src: &Vec<usize>)
    requires
        distinct_elems(old(dst)@),
    ensures
        distinct_elems(final(dst)@),
        dset(final(dst)@) == dset(old(dst)@).union(dset(src@)),
    decreases src@.len(),
{
    let n = src.len();
    let mut j: usize = 0;
    proof {
        assert(dset(src@.take(0)) =~= Set::<usize>::empty());
        assert(dset(dst@).union(dset(src@.take(0))) =~= dset(dst@));
    }
    while j < n
        invariant
            n == src@.len(),
            0 <= j <= n,
            distinct_elems(dst@),
            dset(dst@) == dset(old(dst)@).union(dset(src@.take(j as int))),
        decreases n - j,
    {
        let x = src[j];
        proof {
            assert(src@.take(j + 1) =~= src@.take(j as int).push(x));
            lemma_dset_push(src@.take(j as int), x);
        }
        if !vec_has(dst, x) {
            proof {
                lemma_dset_push(dst@, x);
            }
            dst.push(x);
            proof {
                assert forall|a: int, b: int|
                    0 <= a < b < dst@.len() implies dst@[a] != dst@[b] by {
                    if b == dst@.len() - 1 {
                        assert(dst@.drop_last()[a] == dst@[a]);
                        if dst@[a] == dst@[b] {
                            assert(dset(dst@.drop_last()).contains(dst@[b])) by {
                                assert(dst@.drop_last()[a] == dst@[b]);
                            }
                        }
                    }
                }
                assert(dset(dst@) =~= dset(old(dst)@).union(dset(src@.take(j + 1))));
            }
        } else {
            proof {
                assert(dset(dst@).contains(x));
                assert(dset(dst@) =~= dset(old(dst)@).union(dset(src@.take(j + 1))));
            }
        }
        j += 1;
    }
    proof {
        assert(src@.take(n as int) =~= src@);
    }
}

/// The edge map: each source address with its set of destinations,
/// duplicate edges collapsing under set semantics.
#[derive(Debug)]
pub struct EdgeMap {
    entries: Vec<(usize, Vec<usize>)>,
}

impl View for EdgeMap {
    type V = Map<usize, Set<usize>>;

    closed spec fn view(&self) -> Map<usize, Set<usize>> {
        map_of(self.model_entries())
    }
}

impl EdgeMap {
    /// The entries as the contracts see them.
    pub closed spec fn model_entries(&self) -> Seq<(usize, Set<usize>)> {
        self.entries@.map_values(|p: (usize, Vec<usize>)| (p.0, dset(p.1@)))
    }

    /// The source addresses, in insertion order.
    pub closed spec fn src_seq(&self) -> Seq<usize> {
        self.entries@.map_values(|p: (usize, Vec<usize>)| p.0)
    }

    /// Sources are pairwise different and each destination list is
    /// duplicate-free.
    pub closed spec fn wf(&self) -> bool {
        &&& forall|i: int, j: int|
            0 <= i < j < self.entries@.len() ==> self.entries@[i].0 != self.entries@[j].0
        &&& forall|i: int|
            0 <= i < self.entries@.len() ==> distinct_elems(#[trigger] self.entries@[i].1@)
    }

    proof fn lemma_view_has_key(&self)
        ensures
            self@.dom().finite(),
            forall|k: usize|
                #[trigger] self@.dom().contains(k) ==> has_key(self.model_entries(), k),
            forall|k: usize| has_key(self.model_entries(), k) ==> self@.dom().contains(k),
    {
        lemma_map_of_dom(self.model_entries());
    }

    proof fn lemma_wf_distinct(&self)
        requires
            self.wf(),
        ensures
            distinct_keys(self.model_entries()),
    {
        assert forall|i: int, j: int|
            0 <= i < j < self.model_entries().len()
            implies self.model_entries()[i].0 != self.model_entries()[j].0 by {
            assert(self.model_entries()[i].0 == self.entries@[i].0);
            assert(self.model_entries()[j].0 == self.entries@[j].0);
        }
    }

    /// What the source sequence says of the map: it lists the domain
    /// exactly once.
    pub proof fn lemma_srcs(&self)
        requires
            self.wf(),
        ensures
            self@.dom().finite(),
            self.src_seq().len() == self@.dom().len(),
            forall|i: int, j: int|
                0 <= i < j < self.src_seq().len() ==> self.src_seq()[i] != self.src_seq()[j],
            forall|i: int|
                0 <= i < self.src_seq().len() ==> self@.dom().contains(
                    #[trigger] self.src_seq()[i],
                ),
            forall|k: usize| self@.dom().contains(k) ==> self.src_seq().contains(k),
    {
        self.lemma_wf_distinct();
        lemma_map_of_dom(self.model_entries());
        lemma_map_of_len(self.model_entries());
        assert forall|i: int|
            0 <= i < self.src_seq().len()
            implies self@.dom().contains(#[trigger] self.src_seq()[i]) by {
            assert(self.model_entries()[i].0 == self.src_seq()[i]);
            assert(has_key(self.model_entries(), self.src_seq()[i]));
        }
        assert forall|k: usize| self@.dom().contains(k) implies self.src_seq().contains(k) by {
            self.lemma_view_has_key();
            assert(has_key(self.model_entries(), k));
            let i = choose|i: int|
                0 <= i < self.model_entries().len() && self.model_entries()[i].0 == k;
            assert(self.model_entries()[i].0 == self.entries@[i].0);
            assert(self.src_seq()[i] == k);
        }
    }

    pub fn new() -> (r: EdgeMap)
        ensures
            r.wf(),
            r@ == Map::<usize, Set<usize>>::empty(),
    {
        let r = EdgeMap { entries: Vec::new() };
        proof {
            assert(r.model_entries() =~= Seq::<(usize, Set<usize>)>::empty());
        }
        r
    }

    /// Number of sources that have at least one recorded destination
    /// entry.
    pub fn len(&self) -> (r: usize)
        requires
            self.wf(),
        ensures
            r as nat == self@.dom().len(),
            r as nat == self.src_seq().len(),
    {
        proof {
            self.lemma_wf_distinct();
            lemma_map_of_len(self.model_entries());
        }
        self.entries.len()
    }

    /// The `i`-th source address, in insertion order.
    pub fn src_at(&self, i: usize) -> (r: usize)
        requires
            self.wf(),
            (i as nat) < self.src_seq().len(),
        ensures
            r == self.src_seq()[i as int],
    {
        self.entries[i].0
    }

    /// The destination list of the `i`-th source.
    pub fn dests_at(&self, i: usize) -> (r: &Vec<usize>)
        requires
            self.wf(),
            (i as nat) < self.src_seq().len(),
        ensures
            self@.dom().contains(self.src_seq()[i as int]),
            dset(r@) == self@[self.src_seq()[i as int]],
            distinct_elems(r@),
    {
        proof {
            self.lemma_wf_distinct();
            lemma_map_of_get(self.model_entries(), i as int);
            assert(self.model_entries()[i as int] == (self.entries@[i as int].0,
                dset(self.entries@[i as int].1@)));
        }
        &self.entries[i].1
    }

    fn find_idx(&self, k: usize) -> (r: Option<usize>)
        ensures
            match r {
                Some(i) => i < self.entries@.len() && self.entries@[i as int].0 == k,
                None => forall|i: int| 0 <= i < self.entries@.len() ==> self.entries@[i].0 != k,
            },
    {
        let n = self.entries.len();
        let mut i: usize = 0;
        while i < n && self.entries[i].0 != k
            invariant
                n == self.entries@.len(),
                0 <= i <= n,
                forall|j: int| 0 <= j < i ==> self.entries@[j].0 != k,
            decreases n - i,
        {
            i += 1;
        }
        if i == n {
            None
        } else {
            Some(i)
        }
    }

    proof fn lemma_no_idx_no_key(&self, k: usize)
        requires
            forall|i: int| 0 <= i < self.entries@.len() ==> self.entries@[i].0 != k,
        ensures
            !self@.dom().contains(k),
    {
        self.lemma_view_has_key();
        if has_key(self.model_entries(), k) {
            let i = choose|i: int|
                0 <= i < self.model_entries().len() && self.model_entries()[i].0 == k;
            assert(self.entries@[i].0 == k);
        }
    }

    /// The destination list of source `s`, if it has one.
    pub fn get_dests(&self, s: usize) -> (r: Option<&Vec<usize>>)
        requires
            self.wf(),
        ensures
            match r {
                Some(ds) => self@.dom().contains(s) && dset(ds@) == self@[s]
                    && distinct_elems(ds@),
                None => !self@.dom().contains(s),
            },
    {
        match self.find_idx(s) {
            Some(i) => {
                proof {
                    self.lemma_wf_distinct();
                    self.lemma_view_has_key();
                    lemma_map_of_get(self.model_entries(), i as int);
                    assert(self.model_entries()[i as int] == (self.entries@[i as int].0,
                        dset(self.entries@[i as int].1@)));
                }
                Some(&self.entries[i].1)
            },
            None => {
                proof {
                    self.lemma_no_idx_no_key(s);
                }
                None
            },
        }
    }

    /// Whether source `s` has a recorded destination set.
    pub fn contains_src(&self, s: usize) -> (r: bool)
        ensures
            r == self@.dom().contains(s),
    {
        match self.find_idx(s) {
            Some(i) => {
                proof {
                    self.lemma_view_has_key();
                    assert(has_key(self.model_entries(), s)) by {
                        assert(self.model_entries()[i as int].0 == s);
                    }
                }
                true
            },
            None => {
                proof {
                    self.lemma_no_idx_no_key(s);
                }
                false
            },
        }
    }

    /// Whether the edge `s -> d` is recorded.
    pub fn contains_edge(&self, s: usize, d: usize) -> (r: bool)
        requires
            self.wf(),
        ensures
            r == (self@.dom().contains(s) && self@[s].contains(d)),
    {
        match self.find_idx(s) {
            Some(i) => {
                proof {
                    self.lemma_wf_distinct();
                    lemma_map_of_get(self.model_entries(), i as int);
                    assert(self.model_entries()[i as int] == (self.entries@[i as int].0,
                        dset(self.entries@[i as int].1@)));
                    self.lemma_view_has_key();
                    assert(has_key(self.model_entries(), s)) by {
                        assert(self.model_entries()[i as int].0 == s);
                    }
                }
                vec_has(&self.entries[i].1, d)
            },
            None => {
                proof {
                    self.lemma_no_idx_no_key(s);
                }
                false
            },
        }
    }

    /// Record the edge `s -> d`; a duplicate edge collapses.
    pub fn add_edge(&mut self, s: usize, d: usize)
        requires
            old(self).wf(),
        ensures
            final(self).wf(),
            final(self)@ == edge_add(old(self)@, s, d),
    {
        proof {
            self.lemma_wf_distinct();
            self.lemma_view_has_key();
        }
        let ghost m0 = self.model_entries();
        let ghost e0 = self.entries@;
        match self.find_idx(s) {
            Some(i) => {
                proof {
                    lemma_map_of_get(m0, i as int);
                    assert(m0[i as int] == (e0[i as int].0, dset(e0[i as int].1@)));
                }
                let mut entry = self.entries.remove(i);
                if !vec_has(&entry.1, d) {
                    proof {
                        lemma_dset_push(entry.1@, d);
                    }
                    entry.1.push(d);
                    proof {
                        assert forall|a: int, b: int|
                            0 <= a < b < entry.1@.len() implies entry.1@[a] != entry.1@[b] by {
                            if b == entry.1@.len() - 1 {
                                assert(entry.1@.drop_last()[a] == entry.1@[a]);
                                if entry.1@[a] == entry.1@[b] {
                                    assert(dset(entry.1@.drop_last()).contains(entry.1@[b])) by {
                                        assert(entry.1@.drop_last()[a] == entry.1@[b]);
                                    }
                                }
                            }
                        }
                    }
                } else {
                    proof {
                        assert(dset(entry.1@).insert(d) =~= dset(entry.1@));
                    }
                }
                self.entries.insert(i, entry);
                proof {
                    assert(self.entries@ =~= e0.update(i as int, entry));
                    assert(self.model_entries() =~= m0.update(
                        i as int,
                        (m0[i as int].0, dset(entry.1@)),
                    ));
                    lemma_map_of_update(m0, i as int, dset(entry.1@));
                    assert(dset(entry.1@) == edge_dests(old(self)@, s).insert(d));
                    assert(final(self)@ =~= edge_add(old(self)@, s, d));
                    assert forall|a: int, b: int|
                        0 <= a < b < self.entries@.len()
                        implies self.entries@[a].0 != self.entries@[b].0 by {
                        assert(self.entries@[a].0 == e0[a].0);
                        assert(self.entries@[b].0 == e0[b].0);
                    }
                    assert forall|a: int|
                        0 <= a < self.entries@.len()
                        implies distinct_elems(#[trigger] self.entries@[a].1@) by {
                        if a != i {
                            assert(self.entries@[a] == e0[a]);
                        }
                    }
                }
            },
            None => {
                proof {
                    self.lemma_no_idx_no_key(s);
                }
                let mut ds: Vec<usize> = Vec::new();
                proof {
                    assert(dset(ds@) =~= Set::<usize>::empty());
                    lemma_dset_push(ds@, d);
                }
                ds.push(d);
                let entry = (s, ds);
                self.entries.push(entry);
                proof {
                    assert(self.model_entries() =~= m0.push((s, dset(entry.1@))));
                    assert(self.model_entries().drop_last() =~= m0);
                    assert(dset(entry.1@) =~= Set::<usize>::empty().insert(d));
                    assert(edge_dests(old(self)@, s) =~= Set::<usize>::empty());
                    assert(final(self)@ =~= edge_add(old(self)@, s, d));
                    assert forall|a: int, b: int|
                        0 <= a < b < self.entries@.len()
                        implies self.entries@[a].0 != self.entries@[b].0 by {
                        if b < self.entries@.len() - 1 {
                            assert(self.entries@[a] == e0[a]);
                            assert(self.entries@[b] == e0[b]);
                        } else {
                            assert(self.entries@[a] == e0[a]);
                        }
                    }
                    assert forall|a: int|
                        0 <= a < self.entries@.len()
                        implies distinct_elems(#[trigger] self.entries@[a].1@) by {
                        if a < self.entries@.len() - 1 {
                            assert(self.entries@[a] == e0[a]);
                        }
                    }
                }
            },
        }
    }

    /// Remove the entry of source `s`, handing its destinations back
    /// (empty when `s` had none).
    pub fn take_src(&mut self, s: usize) -> (r: Vec<usize>)
        requires
            old(self).wf(),
        ensures
            final(self).wf(),
            final(self)@ == old(self)@.remove(s),
            distinct_elems(r@),
            dset(r@) == edge_dests(old(self)@, s),
    {
        proof {
            self.lemma_wf_distinct();
            self.lemma_view_has_key();
        }
        let ghost m0 = self.model_entries();
        let ghost e0 = self.entries@;
        match self.find_idx(s) {
            Some(i) => {
                proof {
                    lemma_map_of_get(m0, i as int);
                    lemma_map_of_remove_at(m0, i as int);
                    assert(m0[i as int] == (e0[i as int].0, dset(e0[i as int].1@)));
                    assert(has_key(m0, s)) by {
                        assert(m0[i as int].0 == s);
                    }
                }
                let entry = self.entries.remove(i);
                proof {
                    assert(self.model_entries() =~= m0.remove(i as int));
                    assert forall|a: int, b: int|
                        0 <= a < b < self.entries@.len()
                        implies self.entries@[a].0 != self.entries@[b].0 by {
                        let a0 = if a < i { a } else { a + 1 };
                        let b0 = if b < i { b } else { b + 1 };
                        assert(self.entries@[a].0 == e0[a0].0);
                        assert(self.entries@[b].0 == e0[b0].0);
                    }
                    assert forall|a: int|
                        0 <= a < self.entries@.len()
                        implies distinct_elems(#[trigger] self.entries@[a].1@) by {
                        let a0 = if a < i { a } else { a + 1 };
                        assert(self.entries@[a] == e0[a0]);
                    }
                }
                entry.1
            },
            None => {
                proof {
                    self.lemma_no_idx_no_key(s);
                    assert(old(self)@.remove(s) =~= old(self)@);
                }
                let r: Vec<usize> = Vec::new();
                proof {
                    assert(dset(r@) =~= Set::<usize>::empty());
                }
                r
            },
        }
    }

    /// Store `ds` as the whole destination set of source `s`,
    /// replacing what was there.
    pub fn set_src(&mut self, s: usize, ds: Vec<usize>)
        requires
            old(self).wf(),
            distinct_elems(ds@),
        ensures
            final(self).wf(),
            final(self)@ == old(self)@.insert(s, dset(ds@)),
    {
        proof {
            self.lemma_wf_distinct();
            self.lemma_view_has_key();
        }
        let ghost m0 = self.model_entries();
        let ghost e0 = self.entries@;
        match self.find_idx(s) {
            Some(i) => {
                let ghost k0 = self.entries@[i as int].0;
                self.entries.remove(i);
                self.entries.insert(i, (s, ds));
                proof {
                    assert(self.entries@ =~= e0.update(i as int, (s, ds)));
                    assert(self.model_entries() =~= m0.update(i as int, (k0, dset(ds@))));
                    lemma_map_of_update(m0, i as int, dset(ds@));
                    assert forall|a: int, b: int|
                        0 <= a < b < self.entries@.len()
                        implies self.entries@[a].0 != self.entries@[b].0 by {
                        assert(self.entries@[a].0 == e0[a].0);
                        assert(self.entries@[b].0 == e0[b].0);
                    }
                    assert forall|a: int|
                        0 <= a < self.entries@.len()
                        implies distinct_elems(#[trigger] self.entries@[a].1@) by {
                        if a != i {
                            assert(self.entries@[a] == e0[a]);
                        }
                    }
                }
            },
            None => {
                proof {
                    self.lemma_no_idx_no_key(s);
                    assert(!has_key(m0, s)) by {
                        if has_key(m0, s) {
                            let j = choose|j: int| 0 <= j < m0.len() && m0[j].0 == s;
                            assert(e0[j].0 == s);
                        }
                    }
                    lemma_map_of_insert_at(m0, m0.len() as int, s, dset(ds@));
                }
                self.entries.push((s, ds));
                proof {
                    assert(self.model_entries() =~= m0.insert(m0.len() as int, (s, dset(ds@))));
                    assert forall|a: int, b: int|
                        0 <= a < b < self.entries@.len()
                        implies self.entries@[a].0 != self.entries@[b].0 by {
                        if b < self.entries@.len() - 1 {
                            assert(self.entries@[a] == e0[a]);
                            assert(self.entries@[b] == e0[b]);
                        } else {
                            assert(self.entries@[a] == e0[a]);
                        }
                    }
                    assert forall|a: int|
                        0 <= a < self.entries@.len()
                        implies distinct_elems(#[trigger] self.entries@[a].1@) by {
                        if a < self.entries@.len() - 1 {
                            assert(self.entries@[a] == e0[a]);
                        }
                    }
                }
            },
        }
    }

    /// Redirect every recorded destination `f` to `t`.
    pub fn retarget(&mut self, f: usize, t: usize)
        requires
            old(self).wf(),
        ensures
            final(self).wf(),
            final(self)@ == retarget_map(old(self)@, f, t),
    {
        let ghost e0 = self.entries@;
        let n = self.entries.len();
        let mut e: usize = 0;
        while e < n
            invariant
                n == self.entries@.len(),
                n == e0.len(),
                0 <= e <= n,
                forall|i: int| 0 <= i < n ==> self.entries@[i].0 == e0[i].0,
                forall|i: int| e <= i < n ==> self.entries@[i] == e0[i],
                forall|i: int|
                    0 <= i < e ==> dset(#[trigger] self.entries@[i].1@) == retarget_set(
                        dset(e0[i].1@),
                        f,
                        t,
                    ),
                forall|i: int|
                    0 <= i < n ==> distinct_elems(#[trigger] self.entries@[i].1@),
                forall|i: int, j: int|
                    0 <= i < j < n ==> self.entries@[i].0 != self.entries@[j].0,
            decreases n - e,
        {
            let ghost ecur = self.entries@;
            let mut entry = self.entries.remove(e);
            proof {
                assert(entry == ecur[e as int]);
                assert(distinct_elems(entry.1@));
            }
            vec_replace(&mut entry.1, f, t);
            self.entries.insert(e, entry);
            proof {
                assert(self.entries@ =~= ecur.update(e as int, entry));
                assert(dset(entry.1@) == retarget_set(dset(e0[e as int].1@), f, t)) by {
                    assert(ecur[e as int] == e0[e as int]);
                }
                assert forall|i: int|
                    0 <= i < n implies distinct_elems(#[trigger] self.entries@[i].1@) by {
                    if i != e {
                        assert(self.entries@[i] == ecur[i]);
                    }
                }
                assert forall|i: int, j: int|
                    0 <= i < j < n
                    implies self.entries@[i].0 != self.entries@[j].0 by {
                    assert(self.entries@[i].0 == ecur[i].0);
                    assert(self.entries@[j].0 == ecur[j].0);
                }
            }
            e += 1;
        }
        proof {
            self.lemma_wf_distinct();
            lemma_map_of_dom(self.model_entries());
            let m0 = e0.map_values(|p: (usize, Vec<usize>)| (p.0, dset(p.1@)));
            assert(m0 == old(self).model_entries());
            lemma_map_of_dom(m0);
            assert(distinct_keys(m0)) by {
                assert forall|a: int, b: int|
                    0 <= a < b < m0.len() implies m0[a].0 != m0[b].0 by {
                    assert(m0[a].0 == e0[a].0);
                    assert(m0[b].0 == e0[b].0);
                }
            }
            assert forall|k: usize| #[trigger] final(self)@.dom().contains(k)
                implies retarget_map(old(self)@, f, t).dom().contains(k) by {
                assert(has_key(self.model_entries(), k));
                let i = choose|i: int|
                    0 <= i < self.model_entries().len() && self.model_entries()[i].0 == k;
                assert(m0[i].0 == k);
                assert(has_key(m0, k));
            }
            assert forall|k: usize| #[trigger] retarget_map(old(self)@, f, t).dom().contains(k)
                implies final(self)@.dom().contains(k) && final(self)@[k] == retarget_map(
                old(self)@,
                f,
                t,
            )[k] by {
                assert(old(self)@.dom().contains(k));
                assert(has_key(m0, k));
                let i = choose|i: int| 0 <= i < m0.len() && m0[i].0 == k;
                assert(self.model_entries()[i].0 == self.entries@[i].0);
                assert(has_key(self.model_entries(), k));
                lemma_map_of_get(self.model_entries(), i);
                lemma_map_of_get(m0, i);
                assert(self.model_entries()[i].1 == dset(self.entries@[i].1@));
                assert(m0[i].1 == dset(e0[i].1@));
                assert(final(self)@[k] == retarget_set(old(self)@[k], f, t));
            }
            assert(final(self)@ =~= retarget_map(old(self)@, f, t));
        }
    }
}

} // verus!
