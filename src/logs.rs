use std::collections::HashMap;
use vstd::prelude::*;
use vstd::std_specs::iter::IteratorSpec;

use crate::entity::{is_live, live_in, Entity};

verus! {

broadcast use vstd::std_specs::hash::group_hash_axioms;

/// The map that a sequence of key/value pairs describes; a later pair wins.
pub open spec fn pairs_map<K, V>(s: Seq<(K, V)>) -> Map<K, V>
    decreases s.len(),
{
    if s.len() == 0 {
        Map::empty()
    } else {
        pairs_map(s.drop_last()).insert(s.last().0, s.last().1)
    }
}

/// No key occurs twice among the pairs.
pub open spec fn keys_unique<K, V>(s: Seq<(K, V)>) -> bool {
    forall|i: int, j: int| 0 <= i < j < s.len() ==> s[i].0 != s[j].0
}

/// A key is in the map exactly when some pair carries it.
pub proof fn lemma_pairs_map_dom<K, V>(s: Seq<(K, V)>, k: K)
    ensures
        pairs_map(s).contains_key(k) <==> exists|i: int| 0 <= i < s.len() && s[i].0 == k,
    decreases s.len(),
{
    if s.len() > 0 {
        let t = s.drop_last();
        lemma_pairs_map_dom(t, k);
        if exists|i: int| 0 <= i < t.len() && t[i].0 == k {
            let i = choose|i: int| 0 <= i < t.len() && t[i].0 == k;
            assert(s[i].0 == k);
        }
        if exists|i: int| 0 <= i < s.len() && s[i].0 == k {
            let i = choose|i: int| 0 <= i < s.len() && s[i].0 == k;
            if i < s.len() - 1 {
                assert(t[i].0 == k);
            }
        }
    }
}

/// With unique keys, each pair gives the map's value at its key.
pub proof fn lemma_pairs_map_at<K, V>(s: Seq<(K, V)>, i: int)
    requires
        keys_unique(s),
        0 <= i < s.len(),
    ensures
        pairs_map(s).contains_key(s[i].0),
        pairs_map(s)[s[i].0] == s[i].1,
    decreases s.len(),
{
    if i < s.len() - 1 {
        let t = s.drop_last();
        assert(t[i] == s[i]);
        lemma_pairs_map_at(t, i);
    }
}

/// Pairs with unique keys describe a map `m` when they carry exactly its
/// keys, each with its value in `m`.
pub proof fn lemma_pairs_map_same<K, V>(s: Seq<(K, V)>, m: Map<K, V>)
    requires
        keys_unique(s),
        forall|k: K| m.contains_key(k) <==> exists|i: int| 0 <= i < s.len() && s[i].0 == k,
        forall|i: int| 0 <= i < s.len() ==> m[#[trigger] s[i].0] == s[i].1,
    ensures
        pairs_map(s) == m,
{
    assert forall|k: K| pairs_map(s).contains_key(k) <==> m.contains_key(k) by {
        lemma_pairs_map_dom(s, k);
    }
    assert forall|k: K| m.contains_key(k) implies pairs_map(s)[k] == m[k] by {
        let i = choose|i: int| 0 <= i < s.len() && s[i].0 == k;
        lemma_pairs_map_at(s, i);
    }
    assert(pairs_map(s) =~= m);
}

/// A record of entity slots, each with the generation it was recorded for.
pub struct ChangeLog {
    map: HashMap<usize, usize>,
}

impl View for ChangeLog {
    type V = Map<usize, usize>;

    closed spec fn view(&self) -> Map<usize, usize> {
        self.map@
    }
}

impl ChangeLog {
    /// An empty log.
    pub fn new() -> (r: ChangeLog)
        ensures
            r@ == Map::<usize, usize>::empty(),
    {
        ChangeLog { map: HashMap::new() }
    }

    /// The generation recorded for slot `idx`.
    pub fn get(&self, idx: usize) -> (r: Option<usize>)
        ensures
            r == (if self@.contains_key(idx) { Some(self@[idx]) } else { None::<usize> }),
    {
        match self.map.get(&idx) {
            Some(v) => Some(*v),
            None => None,
        }
    }

    /// Records slot `idx` with generation `uuid`, replacing an earlier record.
    pub fn mark(&mut self, idx: usize, uuid: usize)
        ensures
            final(self)@ == old(self)@.insert(idx, uuid),
    {
        self.map.insert(idx, uuid);
    }

    /// Forgets every record.
    pub fn clear(&mut self)
        ensures
            final(self)@ == Map::<usize, usize>::empty(),
    {
        self.map.clear();
    }

    /// The records as entities, each once.
    pub fn to_entities(&self) -> (r: Vec<Entity>)
        ensures
            r@.no_duplicates(),
            forall|e: Entity| #[trigger]
                r@.contains(e) <==> (self@.contains_key(e.idx) && self@[e.idx] == e.uuid),
    {
        let mut r: Vec<Entity> = Vec::new();
        let ghost s = IteratorSpec::remaining(&self.map.iter());
        for (k, v) in it: self.map.iter()
            invariant
                it.seq() == s,
                r@.len() == it.index(),
                it.index() <= s.len(),
                forall|i: int|
                    0 <= i < r@.len() ==> #[trigger] r@[i] == (Entity {
                        idx: *s[i].0,
                        uuid: *s[i].1,
                    }),
        {
            r.push(Entity { idx: *k, uuid: *v });
        }
        proof {
            assert(r@.len() == s.len());
            assert forall|e: Entity| #[trigger]
                r@.contains(e) <==> (self@.contains_key(e.idx) && self@[e.idx] == e.uuid) by {
                if r@.contains(e) {
                    let i = choose|i: int| 0 <= i < r@.len() && r@[i] == e;
                    assert(self@.contains_key(*s[i].0));
                }
                if self@.contains_key(e.idx) && self@[e.idx] == e.uuid {
                    let k = e.idx;
                    assert(s.contains((&k, &self@[k])));
                    let i = choose|i: int| 0 <= i < s.len() && s[i] == (&k, &self@[k]);
                    assert(r@[i] == e);
                }
            }
            assert forall|a: int, b: int| 0 <= a < r@.len() && 0 <= b < r@.len() && a != b
                implies r@[a] != r@[b] by {
                assert(s[a] != s[b]);
            }
        }
        r
    }
}

/// Parent links: for each child entity, the entity it inherits from.
pub struct ParentLinks {
    entries: Vec<(Entity, Entity)>,
}

impl View for ParentLinks {
    type V = Map<Entity, Entity>;

    closed spec fn view(&self) -> Map<Entity, Entity> {
        pairs_map(self.entries@)
    }
}

impl ParentLinks {
    /// Each child has at most one link.
    pub closed spec fn wf(&self) -> bool {
        keys_unique(self.entries@)
    }

    /// No links.
    pub fn new() -> (r: ParentLinks)
        ensures
            r.wf(),
            r@ == Map::<Entity, Entity>::empty(),
    {
        ParentLinks { entries: Vec::new() }
    }

    /// Position of the link for `child`.
    fn find(&self, child: &Entity) -> (r: Option<usize>)
        requires
            self.wf(),
        ensures
            match r {
                Some(p) => p < self.entries@.len() && self.entries@[p as int].0 == *child,
                None => !self@.contains_key(*child),
            },
    {
        let mut p: usize = 0;
        while p < self.entries.len()
            invariant
                p <= self.entries@.len(),
                forall|i: int| 0 <= i < p ==> self.entries@[i].0 != *child,
            decreases self.entries@.len() - p,
        {
            if self.entries[p].0 == *child {
                return Some(p);
            }
            p = p + 1;
        }
        proof {
            lemma_pairs_map_dom(self.entries@, *child);
        }
        None
    }

    /// The parent linked to `child`.
    pub fn get(&self, child: &Entity) -> (r: Option<Entity>)
        requires
            self.wf(),
        ensures
            r == (if self@.contains_key(*child) { Some(self@[*child]) } else { None::<Entity> }),
    {
        match self.find(child) {
            Some(p) => {
                proof {
                    lemma_pairs_map_at(self.entries@, p as int);
                }
                Some(self.entries[p].1)
            },
            None => None,
        }
    }

    /// Links `child` to `parent`, replacing an earlier link of `child`.
    pub fn set(&mut self, child: Entity, parent: Entity)
        requires
            old(self).wf(),
        ensures
            final(self).wf(),
            final(self)@ == old(self)@.insert(child, parent),
    {
        let ghost m = self@.insert(child, parent);
        let ghost s0 = self.entries@;
        match self.find(&child) {
            Some(p) => {
                self.entries.set(p, (child, parent));
                proof {
                    let s = self.entries@;
                    assert forall|k: Entity|
                        m.contains_key(k) <==> exists|i: int| 0 <= i < s.len() && s[i].0 == k by {
                        lemma_pairs_map_dom(s0, k);
                        if exists|i: int| 0 <= i < s0.len() && s0[i].0 == k {
                            let i = choose|i: int| 0 <= i < s0.len() && s0[i].0 == k;
                            assert(s[i].0 == k);
                        }
                        if k == child {
                            assert(s[p as int].0 == k);
                        }
                        if exists|i: int| 0 <= i < s.len() && s[i].0 == k {
                            let i = choose|i: int| 0 <= i < s.len() && s[i].0 == k;
                            if i != p {
                                assert(s0[i].0 == k);
                            }
                        }
                    }
                    assert forall|i: int| 0 <= i < s.len() implies m[#[trigger] s[i].0] == s[i].1 by {
                        if i != p {
                            lemma_pairs_map_at(s0, i);
                        }
                    }
                    lemma_pairs_map_same(s, m);
                }
            },
            None => {
                self.entries.push((child, parent));
                proof {
                    let s = self.entries@;
                    assert(s.drop_last() =~= s0);
                    assert forall|i: int, j: int| 0 <= i < j < s.len() implies s[i].0 != s[j].0 by {
                        if j == s.len() - 1 {
                            lemma_pairs_map_dom(s0, child);
                            assert(s0[i].0 == s[i].0);
                        } else {
                            assert(s0[i] == s[i] && s0[j] == s[j]);
                        }
                    }
                }
            },
        }
    }

    /// Drops the link of `child`, if there is one.
    pub fn unlink(&mut self, child: &Entity)
        requires
            old(self).wf(),
        ensures
            final(self).wf(),
            final(self)@ == old(self)@.remove(*child),
    {
        let ghost m = self@.remove(*child);
        let ghost s0 = self.entries@;
        match self.find(child) {
            Some(p) => {
                self.entries.remove(p);
                proof {
                    let s = self.entries@;
                    assert forall|i: int| 0 <= i < s.len() implies #[trigger] s[i] == (if i < p {
                        s0[i]
                    } else {
                        s0[i + 1]
                    }) by {}
                    assert forall|i: int, j: int| 0 <= i < j < s.len() implies s[i].0 != s[j].0 by {
                        if i < p && j >= p {
                            assert(s0[i].0 != s0[j + 1].0);
                        }
                    }
                    assert forall|k: Entity|
                        m.contains_key(k) <==> exists|i: int| 0 <= i < s.len() && s[i].0 == k by {
                        lemma_pairs_map_dom(s0, k);
                        if m.contains_key(k) {
                            let i = choose|i: int| 0 <= i < s0.len() && s0[i].0 == k;
                            assert(i != p);
                            if i < p {
                                assert(s[i].0 == k);
                            } else {
                                assert(s[i - 1].0 == k);
                            }
                        }
                        if exists|i: int| 0 <= i < s.len() && s[i].0 == k {
                            let i = choose|i: int| 0 <= i < s.len() && s[i].0 == k;
                            if i < p {
                                assert(s0[i].0 == k);
                                assert(s0[i].0 != s0[p as int].0);
                            } else {
                                assert(s0[i + 1].0 == k);
                                assert(s0[i + 1].0 != s0[p as int].0);
                            }
                        }
                    }
                    assert forall|i: int| 0 <= i < s.len() implies m[#[trigger] s[i].0] == s[i].1 by {
                        if i < p {
                            lemma_pairs_map_at(s0, i);
                            assert(s0[i].0 != s0[p as int].0);
                        } else {
                            lemma_pairs_map_at(s0, i + 1);
                            assert(s0[i + 1].0 != s0[p as int].0);
                        }
                    }
                    lemma_pairs_map_same(s, m);
                }
            },
            None => {
                proof {
                    assert(self@ =~= m);
                }
            },
        }
    }

    /// Keeps only the links whose child and parent are both live in the
    /// slot table `active`.
    pub fn prune(&mut self, active: &Vec<usize>)
        requires
            old(self).wf(),
        ensures
            final(self).wf(),
            forall|c: Entity| #[trigger]
                final(self)@.contains_key(c) <==> (old(self)@.contains_key(c) && is_live(
                    active@,
                    c,
                ) && is_live(active@, old(self)@[c])),
            forall|c: Entity| #[trigger]
                final(self)@.contains_key(c) ==> final(self)@[c] == old(self)@[c],
    {
        let ghost s0 = self.entries@;
        let mut kept: Vec<(Entity, Entity)> = Vec::new();
        let ghost mut src: Seq<int> = Seq::empty();
        let mut p: usize = 0;
        while p < self.entries.len()
            invariant
                self.entries@ == s0,
                keys_unique(s0),
                p <= s0.len(),
                kept@.len() == src.len(),
                forall|i: int| #![trigger src[i]]
                    0 <= i < src.len() ==> 0 <= src[i] < p && kept@[i] == s0[src[i]] && is_live(
                        active@,
                        s0[src[i]].0,
                    ) && is_live(active@, s0[src[i]].1),
                forall|i: int, j: int| 0 <= i < j < src.len() ==> src[i] < src[j],
                forall|j: int| #![trigger s0[j]]
                    0 <= j < p && is_live(active@, s0[j].0) && is_live(active@, s0[j].1)
                        ==> exists|i: int| 0 <= i < src.len() && src[i] == j,
            decreases s0.len() - p,
        {
            let (c, par) = self.entries[p];
            if live_in(active, &c) && live_in(active, &par) {
                kept.push((c, par));
                proof {
                    let src0 = src;
                    src = src.push(p as int);
                    assert forall|j: int| #![trigger s0[j]]
                        0 <= j < p + 1 && is_live(active@, s0[j].0) && is_live(active@, s0[j].1)
                            implies exists|i: int| 0 <= i < src.len() && src[i] == j by {
                        if j < p {
                            let i = choose|i: int| 0 <= i < src0.len() && src0[i] == j;
                            assert(src[i] == j);
                        } else {
                            assert(src[src.len() - 1] == j);
                        }
                    }
                }
            }
            p = p + 1;
        }
        proof {
            let k = kept@;
            assert forall|i: int, j: int| 0 <= i < j < k.len() implies k[i].0 != k[j].0 by {
                assert(src[i] < src[j]);
                assert(s0[src[i]].0 != s0[src[j]].0);
            }
        }
        self.entries = kept;
        proof {
            let k = kept@;
            let m0 = pairs_map(s0);
            assert forall|c: Entity|
                self@.contains_key(c) <==> (m0.contains_key(c) && is_live(active@, c) && is_live(
                    active@,
                    m0[c],
                )) by {
                lemma_pairs_map_dom(k, c);
                lemma_pairs_map_dom(s0, c);
                if self@.contains_key(c) {
                    let i = choose|i: int| 0 <= i < k.len() && k[i].0 == c;
                    lemma_pairs_map_at(s0, src[i]);
                }
                if m0.contains_key(c) && is_live(active@, c) && is_live(active@, m0[c]) {
                    let j = choose|j: int| 0 <= j < s0.len() && s0[j].0 == c;
                    lemma_pairs_map_at(s0, j);
                    assert(is_live(active@, s0[j].0) && is_live(active@, s0[j].1));
                    let i = choose|i: int| 0 <= i < src.len() && src[i] == j;
                    assert(k[i].0 == c);
                }
            }
            assert forall|c: Entity| #[trigger] self@.contains_key(c) implies self@[c] == m0[c] by {
                lemma_pairs_map_dom(k, c);
                let i = choose|i: int| 0 <= i < k.len() && k[i].0 == c;
                lemma_pairs_map_at(k, i);
                lemma_pairs_map_at(s0, src[i]);
            }
        }
    }
}

} // verus!
