use vstd::prelude::*;

use crate::entity::{is_live, live_in, Entity};
use crate::logs::{ChangeLog, ParentLinks};
use crate::store::{parent_component, stored_count, ComponentStore};

verus! {

/// Slot `idx` of a slot table holds an entity that is not among the
/// pending additions.
pub open spec fn visible_in(active: Seq<usize>, added: Map<usize, usize>, idx: int) -> bool {
    &&& 0 <= idx < active.len()
    &&& active[idx] != 0
    &&& !added.contains_key(idx as usize)
}

/// The abstract state of a `World`.
pub struct WorldModel {
    /// For each slot, the generation occupying it, or `0` when free.
    pub active: Seq<usize>,
    /// Freed slots, reused last-in first-out.
    pub free: Seq<usize>,
    /// The index that the next new slot gets.
    pub next_idx: nat,
    /// The generation that the next entity gets.
    pub next_uuid: nat,
    /// The components of each slot.
    pub stores: Seq<ComponentStore>,
    /// Parent links, child to parent.
    pub parents: Map<Entity, Entity>,
    /// Entities created since the last commit, slot to generation.
    pub added: Map<usize, usize>,
    /// Entities staged for removal, slot to generation.
    pub removed: Map<usize, usize>,
    /// Entities whose components changed since the last commit.
    pub changed: Map<usize, usize>,
}

impl WorldModel {
    /// The slot bookkeeping is consistent: every generation in the slot
    /// table or in a parent link was issued already, occupied slots and free
    /// slots lie below `next_idx`, free slots are unoccupied, empty and
    /// listed once, and each pending addition names the generation that
    /// occupies its slot.
    pub open spec fn sound(self) -> bool {
        &&& self.active.len() <= usize::MAX
        &&& self.stores.len() == self.next_idx
        &&& self.next_idx < self.next_uuid
        &&& self.next_idx <= self.active.len()
        &&& forall|i: int| 0 <= i < self.active.len() ==> #[trigger] self.active[i] < self.next_uuid
        &&& forall|i: int|
            0 <= i < self.active.len() && #[trigger] self.active[i] != 0 ==> i < self.next_idx
        &&& self.free.no_duplicates()
        &&& forall|k: int|
            0 <= k < self.free.len() ==> #[trigger] self.free[k] < self.next_idx
                && self.active[self.free[k] as int] == 0
                && stored_count(self.stores[self.free[k] as int]) == 0
                && parent_component(self.stores[self.free[k] as int]) is None
        &&& forall|c: Entity| #[trigger]
            self.parents.contains_key(c) ==> c.uuid < self.next_uuid && self.parents[c].uuid
                < self.next_uuid
        &&& forall|i: usize| #[trigger]
            self.added.contains_key(i) ==> i < self.active.len() && self.active[i as int]
                == self.added[i]
    }

    /// An entity is valid while it is the generation occupying its slot.
    pub open spec fn is_valid(self, e: Entity) -> bool {
        is_live(self.active, e)
    }

    /// The generation occupying slot `idx`, `0` when there is none.
    pub open spec fn uuid_at(self, idx: int) -> usize {
        if 0 <= idx < self.active.len() {
            self.active[idx]
        } else {
            0
        }
    }

    /// Slot `idx` holds an entity whose removal the next commit carries out.
    pub open spec fn doomed(self, idx: int) -> bool {
        &&& 0 <= idx <= usize::MAX
        &&& self.removed.contains_key(idx as usize)
        &&& self.is_valid(Entity { idx: idx as usize, uuid: self.removed[idx as usize] })
    }

    /// Slot `idx` holds a committed entity: listed and iterated.
    pub open spec fn visible(self, idx: int) -> bool {
        visible_in(self.active, self.added, idx)
    }

    /// The entity in slot `idx`.
    pub open spec fn entity_at(self, idx: int) -> Entity {
        Entity { idx: idx as usize, uuid: self.active[idx] }
    }

    /// The committed entities among the first `n` slots, in slot order.
    pub open spec fn listed_upto(self, n: nat) -> Seq<Entity>
        decreases n,
    {
        if n == 0 {
            Seq::empty()
        } else if self.visible(n - 1) {
            self.listed_upto((n - 1) as nat).push(self.entity_at(n - 1))
        } else {
            self.listed_upto((n - 1) as nat)
        }
    }

    /// The committed entities, in slot order.
    pub open spec fn listed(self) -> Seq<Entity> {
        self.listed_upto(self.active.len())
    }

    /// The entity whose components `e` inherits: its parent link, or else
    /// the entity named by its `Parent` component.
    pub open spec fn inherits_from(self, e: Entity) -> Option<Entity> {
        if self.parents.contains_key(e) {
            Some(self.parents[e])
        } else if e.idx < self.stores.len() {
            parent_component(self.stores[e.idx as int])
        } else {
            None
        }
    }

    /// The entities searched for a component of `e`: `e` first, then its
    /// ancestors nearest first, while they are valid, at most `fuel` of them.
    pub open spec fn lineage(self, e: Entity, fuel: nat) -> Seq<Entity>
        decreases fuel,
    {
        if fuel == 0 || !self.is_valid(e) {
            Seq::empty()
        } else {
            seq![e] + match self.inherits_from(e) {
                Some(p) => self.lineage(p, (fuel - 1) as nat),
                None => Seq::empty(),
            }
        }
    }

    /// The search of `lineage`, bounded by the number of slots, so that a
    /// cycle of parent links ends it.
    pub open spec fn ancestry(self, e: Entity) -> Seq<Entity> {
        self.lineage(e, self.active.len())
    }

    /// The parent linked to `e`, while `e` is valid.
    pub open spec fn parent_of(self, e: Entity) -> Option<Entity> {
        if self.is_valid(e) && self.parents.contains_key(e) {
            Some(self.parents[e])
        } else {
            None
        }
    }
}

/// Writing back the value a sequence already holds leaves it as it was.
pub broadcast proof fn lemma_update_same_value<A>(s: Seq<A>, i: int)
    requires
        0 <= i < s.len(),
    ensures
        #[trigger] s.update(i, s[i]) == s,
{
    assert(s.update(i, s[i]) =~= s);
}

/// Grows a slot table with free slots until it covers slot `last`.
fn grow_slots(active: &mut Vec<usize>, last: usize)
    ensures
        final(active)@.len() == if old(active)@.len() > last {
            old(active)@.len() as int
        } else {
            last + 1
        },
        forall|i: int| 0 <= i < old(active)@.len() ==> final(active)@[i] == old(active)@[i],
        forall|i: int|
            old(active)@.len() <= i < final(active)@.len() ==> final(active)@[i] == 0,
{
    while active.len() <= last
        invariant
            active@.len() >= old(active)@.len(),
            active@.len() <= if old(active)@.len() > last {
                old(active)@.len() as int
            } else {
                last + 1
            },
            forall|i: int| 0 <= i < old(active)@.len() ==> active@[i] == old(active)@[i],
            forall|i: int| old(active)@.len() <= i < active@.len() ==> active@[i] == 0,
        decreases last + 1 - active@.len(),
    {
        active.push(0);
    }
}

/// The entity `e` was created from state `o`, giving state `n`: it takes
/// the most recently freed slot, or else a new one, and the next generation,
/// which exceeds every generation in the slot table. It starts with no
/// components and no parent link, and is recorded as added.
pub open spec fn created(o: WorldModel, n: WorldModel, e: Entity) -> bool {
    &&& e.uuid == o.next_uuid
    &&& n.next_uuid == o.next_uuid + 1
    &&& forall|i: int| 0 <= i < o.active.len() ==> #[trigger] o.active[i] < e.uuid
    &&& o.free.len() > 0 ==> {
        &&& e.idx == o.free.last()
        &&& n.free == o.free.drop_last()
        &&& n.next_idx == o.next_idx
        &&& n.stores == o.stores
    }
    &&& o.free.len() == 0 ==> {
        &&& e.idx == o.next_idx
        &&& n.free == o.free
        &&& n.next_idx == o.next_idx + 1
        &&& n.stores.len() == o.stores.len() + 1
        &&& n.stores.drop_last() == o.stores
        &&& stored_count(n.stores.last()) == 0
        &&& parent_component(n.stores.last()) is None
    }
    &&& n.active.len() >= o.active.len()
    &&& forall|i: int|
        0 <= i < n.active.len() ==> #[trigger] n.active[i] == (if i == e.idx {
            e.uuid
        } else if i < o.active.len() {
            o.active[i]
        } else {
            0
        })
    &&& n.is_valid(e)
    &&& stored_count(n.stores[e.idx as int]) == 0
    &&& parent_component(n.stores[e.idx as int]) is None
    &&& !n.parents.contains_key(e)
    &&& forall|c: Entity| #[trigger] n.parents.contains_key(c) ==> n.parents[c] != e
    &&& forall|x: Entity| o.is_valid(x) ==> n.is_valid(x)
    &&& n.added == o.added.insert(e.idx, e.uuid)
    &&& n.removed == o.removed
    &&& n.changed == o.changed
    &&& n.parents == o.parents
}

/// Entity `e` was staged for removal in state `o`, giving state `n`:
/// nothing changes but the record of staged removals.
pub open spec fn staged(o: WorldModel, n: WorldModel, e: Entity) -> bool {
    n == (WorldModel { removed: o.removed.insert(e.idx, e.uuid), ..o })
}

/// State `n` is what a commit makes of state `o`: the slots of the doomed
/// entities are freed, pushed on the free list and emptied; the parent links
/// whose endpoints are both still valid stay; the records are forgotten.
pub open spec fn committed(o: WorldModel, n: WorldModel) -> bool {
    &&& n.active.len() == o.active.len()
    &&& forall|i: int|
        0 <= i < n.active.len() ==> #[trigger] n.active[i] == if o.doomed(i) {
            0
        } else {
            o.active[i]
        }
    &&& n.next_idx == o.next_idx
    &&& n.next_uuid == o.next_uuid
    &&& n.free.len() >= o.free.len()
    &&& n.free.subrange(0, o.free.len() as int) == o.free
    &&& forall|k: int| o.free.len() <= k < n.free.len() ==> o.doomed(#[trigger] n.free[k] as int)
    &&& forall|i: int| #[trigger] o.doomed(i) ==> n.free.contains(i as usize)
    &&& n.stores.len() == o.stores.len()
    &&& forall|i: int|
        0 <= i < n.stores.len() ==> if o.doomed(i) {
            stored_count(#[trigger] n.stores[i]) == 0 && parent_component(n.stores[i]) is None
        } else {
            n.stores[i] == o.stores[i]
        }
    &&& forall|c: Entity| #[trigger]
        n.parents.contains_key(c) <==> (o.parents.contains_key(c) && n.is_valid(c) && n.is_valid(
            o.parents[c],
        ))
    &&& forall|c: Entity| #[trigger] n.parents.contains_key(c) ==> n.parents[c] == o.parents[c]
    &&& n.added.is_empty()
    &&& n.removed.is_empty()
    &&& n.changed.is_empty()
}

/// One operation on a world, as far as the slot table, the generation
/// counter and the pending additions go: a creation, a commit, or an
/// operation that leaves all three as they were. The contract of every `World` operation meets one of these.
pub open spec fn slot_step(o: WorldModel, n: WorldModel) -> bool {
    ||| exists|e: Entity| #[trigger] created(o, n, e)
    ||| committed(o, n)
    ||| n.active == o.active && n.next_uuid == o.next_uuid && n.added == o.added
}

/// A run of states, each reached from the one before by one operation.
pub open spec fn is_history(ws: Seq<WorldModel>) -> bool {
    forall|k: int| 0 <= k < ws.len() - 1 ==> slot_step(#[trigger] ws[k], ws[k + 1])
}

/// Keeps track of entities and their components.
pub struct World {
    next_idx: usize,
    next_uuid: usize,
    active: Vec<usize>,
    reusable_idxs: Vec<usize>,
    components: Vec<ComponentStore>,
    parents: ParentLinks,
    ent_added: ChangeLog,
    ent_remove: ChangeLog,
    ent_changed: ChangeLog,
}

impl View for World {
    type V = WorldModel;

    closed spec fn view(&self) -> WorldModel {
        WorldModel {
            active: self.active@,
            free: self.reusable_idxs@,
            next_idx: self.next_idx as nat,
            next_uuid: self.next_uuid as nat,
            stores: self.components@,
            parents: self.parents@,
            added: self.ent_added@,
            removed: self.ent_remove@,
            changed: self.ent_changed@,
        }
    }
}

impl World {
    /// The world's internal invariant.
    pub closed spec fn wf(&self) -> bool {
        &&& self@.sound()
        &&& self.parents.wf()
    }

    /// A well-formed world has a sound model.
    pub proof fn lemma_sound(&self)
        requires
            self.wf(),
        ensures
            self@.sound(),
    {
    }

    /// An empty world.
    pub fn new() -> (r: World)
        ensures
            r.wf(),
            r@.active.len() == 0,
            r@.free.len() == 0,
            r@.next_idx == 0,
            r@.next_uuid == 1,
            r@.stores.len() == 0,
            r@.parents.is_empty(),
            r@.added.is_empty(),
            r@.removed.is_empty(),
            r@.changed.is_empty(),
    {
        let r = World {
            next_idx: 0,
            next_uuid: 1,
            active: Vec::new(),
            reusable_idxs: Vec::new(),
            components: Vec::new(),
            parents: ParentLinks::new(),
            ent_added: ChangeLog::new(),
            ent_remove: ChangeLog::new(),
            ent_changed: ChangeLog::new(),
        };
        proof {
            assert(r@.parents =~= Map::empty());
            assert(r@.added =~= Map::empty());
            assert(r@.removed =~= Map::empty());
            assert(r@.changed =~= Map::empty());
        }
        r
    }

    /// Adds a new entity, reusing the most recently freed slot if there is
    /// one and opening a new slot otherwise. It gets a generation never
    /// issued before. It is listed and iterated only after the next commit.
    pub fn add_entity(&mut self) -> (e: Entity)
        requires
            old(self).wf(),
            old(self)@.next_uuid < usize::MAX,
        ensures
            final(self).wf(),
            slot_step(old(self)@, final(self)@),
            created(old(self)@, final(self)@, e),
    {
        let ghost o = self@;
        let idx = match self.reusable_idxs.pop() {
            None => {
                let idx = self.next_idx;
                self.next_idx = self.next_idx + 1;
                self.components.push(ComponentStore::new());
                proof {
                    assert(self.components@.drop_last() =~= o.stores);
                }
                idx
            },
            Some(idx) => {
                proof {
                    assert(o.free.last() == o.free[o.free.len() - 1]);
                }
                idx
            },
        };
        let uuid = self.next_uuid;
        self.next_uuid = self.next_uuid + 1;
        grow_slots(&mut self.active, uuid);
        self.active.set(idx, uuid);
        self.ent_added.mark(idx, uuid);
        let e = Entity { idx, uuid };
        proof {
            let n = self@;
            assert forall|x: Entity| o.is_valid(x) implies n.is_valid(x) by {
                if x.idx == idx {
                    if o.free.len() > 0 {
                        assert(o.free[o.free.len() - 1] == idx);
                    }
                }
            }
            assert forall|k: int| 0 <= k < n.free.len() implies #[trigger] n.free[k] < self.next_idx
                && self.active@[n.free[k] as int] == 0 && stored_count(n.stores[n.free[k] as int])
                == 0 && parent_component(n.stores[n.free[k] as int]) is None by {
                if o.free.len() > 0 {
                    assert(n.free[k] == o.free[k]);
                    assert(o.free[k] != o.free[o.free.len() - 1]);
                } else {
                    assert(n.free[k] == o.free[k]);
                    assert(n.stores[o.free[k] as int] == o.stores[o.free[k] as int]);
                }
            }
            assert forall|c: Entity| #[trigger] n.parents.contains_key(c) implies c.uuid
                < n.next_uuid && n.parents[c].uuid < n.next_uuid by {
                assert(o.parents.contains_key(c));
            }
            assert forall|i: usize| #[trigger] n.added.contains_key(i) implies i < n.active.len()
                && n.active[i as int] == n.added[i] by {
                if i != idx {
                    assert(o.added.contains_key(i));
                }
            }
            if o.free.len() > 0 {
                let k = o.free.len() - 1;
                assert(o.free[k] == idx);
                assert(stored_count(o.stores[o.free[k] as int]) == 0);
            }
            assert(n.parents == o.parents);
            if n.parents.contains_key(e) {
                assert(o.parents.contains_key(e));
            }
            assert(n.free.no_duplicates()) by {
                if o.free.len() > 0 {
                    assert forall|a: int, b: int| 0 <= a < n.free.len() && 0 <= b < n.free.len() && a
                        != b implies n.free[a] != n.free[b] by {
                        assert(n.free[a] == o.free[a] && n.free[b] == o.free[b]);
                    }
                }
            }
            assert(created(o, n, e));
        }
        e
    }

    /// Stages an entity for removal; the next commit carries it out.
    pub fn remove_entity(&mut self, entity: Entity)
        requires
            old(self).wf(),
        ensures
            final(self).wf(),
            slot_step(old(self)@, final(self)@),
            staged(old(self)@, final(self)@, entity),
    {
        self.ent_remove.mark(entity.idx, entity.uuid);
        proof {
            let n = self@;
            let o = old(self)@;
            assert(n.parents == o.parents && n.added == o.added);
            assert forall|c: Entity| #[trigger] n.parents.contains_key(c) implies c.uuid
                < n.next_uuid && n.parents[c].uuid < n.next_uuid by {
                assert(o.parents.contains_key(c));
            }
            assert forall|i: usize| #[trigger] n.added.contains_key(i) implies i < n.active.len()
                && n.active[i as int] == n.added[i] by {
                assert(o.added.contains_key(i));
            }
        }
    }

    /// Whether an entity is valid: it is the generation occupying its slot.
    pub fn is_valid_entity(&self, entity: &Entity) -> (r: bool)
        ensures
            r == self@.is_valid(*entity),
    {
        live_in(&self.active, entity)
    }

    /// The generation occupying slot `idx`, `0` when there is none.
    pub fn get_uuid(&self, idx: usize) -> (r: usize)
        ensures
            r == self@.uuid_at(idx as int),
    {
        if idx < self.active.len() {
            self.active[idx]
        } else {
            0
        }
    }

    /// Carries out the staged removals whose entity is still valid: frees
    /// the slot for reuse and drops its components. Then drops every parent
    /// link with an endpoint that is no longer valid, and forgets the
    /// records of added, removed and changed entities.
    pub fn confirm_changes(&mut self)
        requires
            old(self).wf(),
        ensures
            final(self).wf(),
            slot_step(old(self)@, final(self)@),
            committed(old(self)@, final(self)@),
    {
        let ghost o = self@;
        let rem = self.ent_remove.to_entities();
        let ghost mut processed: Set<usize> = Set::empty();
        let mut p: usize = 0;
        while p < rem.len()
            invariant
                rem@.no_duplicates(),
                forall|e: Entity| #[trigger]
                    rem@.contains(e) <==> (o.removed.contains_key(e.idx) && o.removed[e.idx]
                        == e.uuid),
                p <= rem@.len(),
                self.next_idx == o.next_idx,
                self.next_uuid == o.next_uuid,
                self.parents@ == o.parents,
                self.parents.wf(),
                self.active@.len() == o.active.len(),
                self.components@.len() == o.stores.len(),
                o.stores.len() == o.next_idx,
                o.next_idx <= o.active.len(),
                forall|q: int| 0 <= q < p ==> processed.contains(#[trigger] rem@[q].idx),
                forall|i: usize|
                    processed.contains(i) ==> exists|q: int| 0 <= q < p && #[trigger] rem@[q].idx == i,
                forall|i: int|
                    0 <= i < o.active.len() && !processed.contains(i as usize) ==> self.active@[i]
                        == o.active[i],
                forall|i: int|
                    0 <= i < o.stores.len() && !processed.contains(i as usize) ==> self.components@[i]
                        == o.stores[i],
                forall|i: int|
                    0 <= i < o.active.len() && !o.doomed(i) ==> self.active@[i] == o.active[i],
                forall|i: int|
                    0 <= i < o.stores.len() && !o.doomed(i) ==> self.components@[i] == o.stores[i],
                forall|i: int|
                    0 <= i < o.active.len() && o.doomed(i) && processed.contains(i as usize) ==> {
                        &&& self.active@[i] == 0
                        &&& stored_count(self.components@[i]) == 0
                        &&& parent_component(self.components@[i]) is None
                        &&& self.reusable_idxs@.contains(i as usize)
                    },
                self.reusable_idxs@.len() >= o.free.len(),
                self.reusable_idxs@.subrange(0, o.free.len() as int) == o.free,
                forall|k: int|
                    o.free.len() <= k < self.reusable_idxs@.len() ==> o.doomed(
                        #[trigger] self.reusable_idxs@[k] as int,
                    ),
                self.reusable_idxs@.no_duplicates(),
                forall|k: int|
                    0 <= k < self.reusable_idxs@.len() ==> #[trigger] self.reusable_idxs@[k]
                        < self.next_idx && self.active@[self.reusable_idxs@[k] as int] == 0
                        && stored_count(self.components@[self.reusable_idxs@[k] as int]) == 0
                        && parent_component(self.components@[self.reusable_idxs@[k] as int]) is None,
                forall|i: int|
                    0 <= i < self.active@.len() ==> #[trigger] self.active@[i] < self.next_uuid,
                forall|i: int|
                    0 <= i < self.active@.len() && #[trigger] self.active@[i] != 0 ==> i
                        < self.next_idx,
            decreases rem@.len() - p,
        {
            let e = rem[p];
            proof {
                assert(rem@.contains(e));
                if processed.contains(e.idx) {
                    let q = choose|q: int| 0 <= q < p && #[trigger] rem@[q].idx == e.idx;
                    assert(rem@.contains(rem@[q]));
                    assert(rem@[q] == e);
                    assert(false);
                }
            }
            if live_in(&self.active, &e) {
                let ghost f0 = self.reusable_idxs@;
                self.active.set(e.idx, 0);
                self.reusable_idxs.push(e.idx);
                self.components[e.idx].clear();
                proof {
                    assert(o.doomed(e.idx as int));
                    let f = self.reusable_idxs@;
                    assert(f.subrange(0, o.free.len() as int) =~= f0.subrange(0, o.free.len() as int));
                    assert(!f0.contains(e.idx)) by {
                        if f0.contains(e.idx) {
                            let k = choose|k: int| 0 <= k < f0.len() && f0[k] == e.idx;
                            assert(f0[k] < self.next_idx);
                        }
                    }
                    assert forall|a: int, b: int| 0 <= a < f.len() && 0 <= b < f.len() && a != b
                        implies f[a] != f[b] by {
                        if a < f0.len() && b < f0.len() {
                            assert(f[a] == f0[a] && f[b] == f0[b]);
                        } else if a < f0.len() {
                            assert(f[a] == f0[a]);
                        } else if b < f0.len() {
                            assert(f[b] == f0[b]);
                        }
                    }
                    assert forall|i: int|
                        0 <= i < o.active.len() && o.doomed(i) && processed.insert(e.idx).contains(
                            i as usize,
                        ) implies self.reusable_idxs@.contains(i as usize) by {
                        if i != e.idx {
                            assert(f0.contains(i as usize));
                            let k = choose|k: int| 0 <= k < f0.len() && f0[k] == i as usize;
                            assert(f[k] == i as usize);
                        } else {
                            assert(f[f.len() - 1] == e.idx);
                        }
                    }
                }
            } else {
                proof {
                    if 0 <= e.idx < o.active.len() {
                        assert(!o.doomed(e.idx as int));
                    }
                }
            }
            proof {
                processed = processed.insert(e.idx);
                assert forall|i: usize|
                    processed.contains(i) implies exists|q: int| 0 <= q < p + 1 && #[trigger] rem@[q].idx
                        == i by {
                    if i == e.idx {
                        assert(rem@[p as int].idx == i);
                    }
                }
            }
            p = p + 1;
        }
        self.parents.prune(&self.active);
        self.ent_added.clear();
        self.ent_remove.clear();
        self.ent_changed.clear();
        proof {
            let n = self@;
            assert forall|c: Entity| #[trigger] n.parents.contains_key(c) implies c.uuid
                < n.next_uuid && n.parents[c].uuid < n.next_uuid by {
                assert(o.parents.contains_key(c));
            }
            assert forall|i: int| #[trigger] o.doomed(i) implies n.free.contains(i as usize)
                && processed.contains(i as usize) by {
                let e = Entity { idx: i as usize, uuid: o.removed[i as usize] };
                assert(rem@.contains(e));
                let q = choose|q: int| 0 <= q < rem@.len() && rem@[q] == e;
                assert(processed.contains(rem@[q].idx));
            }
        }
    }

    /// Adds a component to a valid entity and records the entity as
    /// changed. A component of the same type that it had is handed back.
    /// An invalid entity is left alone and gets `None`.
    pub fn add_component<T: 'static>(&mut self, entity: &Entity, component: T) -> (r: Option<T>)
        requires
            old(self).wf(),
        ensures
            final(self).wf(),
            slot_step(old(self)@, final(self)@),
            !old(self)@.is_valid(*entity) ==> r is None && final(self)@ == old(self)@,
            old(self)@.is_valid(*entity) ==> {
                &&& final(self)@ == (WorldModel {
                    changed: old(self)@.changed.insert(entity.idx, entity.uuid),
                    stores: final(self)@.stores,
                    ..old(self)@
                })
                &&& final(self)@.stores == old(self)@.stores.update(
                    entity.idx as int,
                    final(self)@.stores[entity.idx as int],
                )
                &&& r is Some ==> stored_count(final(self)@.stores[entity.idx as int])
                    == stored_count(old(self)@.stores[entity.idx as int])
                &&& r is None ==> stored_count(final(self)@.stores[entity.idx as int])
                    == stored_count(old(self)@.stores[entity.idx as int]) + 1
                &&& stored_count(old(self)@.stores[entity.idx as int]) == 0 ==> r is None
            },
    {
        if self.is_valid_entity(entity) {
            self.ent_changed.mark(entity.idx, entity.uuid);
            let r = self.components[entity.idx].insert(component);
            proof {
                assert(self.components@ =~= old(self)@.stores.update(
                    entity.idx as int,
                    self.components@[entity.idx as int],
                ));
            }
            return r;
        }
        None
    }

    /// The entities that a component lookup on `entity` searches, nearest
    /// first; see `WorldModel::ancestry`.
    fn ancestry(&self, entity: &Entity) -> (r: Vec<Entity>)
        requires
            self.wf(),
        ensures
            r@ == self@.ancestry(*entity),
    {
        let ghost target = self@.ancestry(*entity);
        let mut out: Vec<Entity> = Vec::new();
        let mut cur = *entity;
        let mut fuel = self.active.len();
        let mut done = false;
        while !done
            invariant
                self.wf(),
                out@ + (if done {
                    Seq::empty()
                } else {
                    self@.lineage(cur, fuel as nat)
                }) == target,
            decreases fuel + if done {
                0int
            } else {
                1int
            },
        {
            if fuel == 0 || !live_in(&self.active, &cur) {
                proof {
                    assert(out@ + Seq::<Entity>::empty() =~= out@);
                }
                done = true;
            } else {
                let ghost before = out@;
                let ghost rest = self@.lineage(cur, fuel as nat);
                out.push(cur);
                let next = match self.parents.get(&cur) {
                    Some(p) => Some(p),
                    None => self.components[cur.idx].parent(),
                };
                fuel = fuel - 1;
                proof {
                    assert(rest == seq![cur] + match self@.inherits_from(cur) {
                        Some(p) => self@.lineage(p, fuel as nat),
                        None => Seq::<Entity>::empty(),
                    });
                    assert(next == self@.inherits_from(cur));
                }
                match next {
                    Some(p) => {
                        proof {
                            assert(before + rest =~= out@ + self@.lineage(p, fuel as nat));
                        }
                        cur = p;
                    },
                    None => {
                        proof {
                            assert(before + rest =~= out@ + Seq::<Entity>::empty());
                        }
                        done = true;
                    },
                }
            }
        }
        proof {
            assert(out@ + Seq::<Entity>::empty() =~= out@);
        }
        out
    }

    /// Whether a valid entity, or one of its valid ancestors, holds a
    /// component of type `T`. The search covers the entities of
    /// `WorldModel::ancestry`, so it ends also on a cycle of parent links.
    pub fn has_component<T: 'static>(&self, entity: &Entity) -> (r: bool)
        requires
            self.wf(),
        ensures
            !self@.is_valid(*entity) ==> !r,
            r ==> exists|i: int|
                0 <= i < self@.ancestry(*entity).len() && stored_count(
                    #[trigger] self@.stores[self@.ancestry(*entity)[i].idx as int],
                ) > 0,
    {
        let chain = self.ancestry(entity);
        let mut k: usize = 0;
        while k < chain.len()
            invariant
                self.wf(),
                chain@ == self@.ancestry(*entity),
                k <= chain@.len(),
            decreases chain@.len() - k,
        {
            let c = chain[k];
            proof {
                self.lemma_lineage_valid(*entity, self@.active.len(), k as int);
            }
            if self.components[c.idx].contains::<T>() {
                return true;
            }
            k = k + 1;
        }
        false
    }

    /// A component of type `T` of a valid entity, or else of the nearest of
    /// its valid ancestors that holds one (see `has_component`).
    pub fn get_component<T: 'static>(&self, entity: &Entity) -> (r: Option<&T>)
        requires
            self.wf(),
        ensures
            !self@.is_valid(*entity) ==> r is None,
            r is Some ==> exists|i: int|
                0 <= i < self@.ancestry(*entity).len() && stored_count(
                    #[trigger] self@.stores[self@.ancestry(*entity)[i].idx as int],
                ) > 0,
    {
        let chain = self.ancestry(entity);
        let mut k: usize = 0;
        while k < chain.len()
            invariant
                self.wf(),
                chain@ == self@.ancestry(*entity),
                k <= chain@.len(),
            decreases chain@.len() - k,
        {
            let c = chain[k];
            proof {
                self.lemma_lineage_valid(*entity, self@.active.len(), k as int);
            }
            let found = self.components[c.idx].get::<T>();
            if found.is_some() {
                return found;
            }
            k = k + 1;
        }
        None
    }

    /// Every entity of a lineage is valid, so its slot has a store.
    proof fn lemma_lineage_valid(&self, e: Entity, fuel: nat, k: int)
        requires
            self.wf(),
            0 <= k < self@.lineage(e, fuel).len(),
        ensures
            self@.is_valid(self@.lineage(e, fuel)[k]),
            self@.lineage(e, fuel)[k].idx < self.components@.len(),
        decreases fuel,
    {
        let l = self@.lineage(e, fuel);
        if k > 0 {
            match self@.inherits_from(e) {
                Some(p) => {
                    self.lemma_lineage_valid(p, (fuel - 1) as nat, k - 1);
                    assert(l[k] == self@.lineage(p, (fuel - 1) as nat)[k - 1]);
                },
                None => {},
            }
        }
        let x = l[k];
        assert(self.active@[x.idx as int] != 0);
    }

    /// A mutable reference to a component of type `T` that a valid entity
    /// holds itself; ancestors are never searched. When one is handed out,
    /// the entity is recorded as changed.
    pub fn get_mut_component<T: 'static>(&mut self, entity: &Entity) -> (r: Option<&mut T>)
        requires
            old(self).wf(),
        ensures
            final(self).wf(),
            slot_step(old(self)@, final(self)@),
            !old(self)@.is_valid(*entity) ==> r is None && final(self)@ == old(self)@,
            r is None ==> final(self)@ == old(self)@,
            old(self)@.is_valid(*entity) ==> {
                &&& final(self)@ == (WorldModel {
                    changed: if r is Some {
                        old(self)@.changed.insert(entity.idx, entity.uuid)
                    } else {
                        old(self)@.changed
                    },
                    stores: final(self)@.stores,
                    ..old(self)@
                })
                &&& final(self)@.stores == old(self)@.stores.update(
                    entity.idx as int,
                    final(self)@.stores[entity.idx as int],
                )
                &&& stored_count(final(self)@.stores[entity.idx as int]) == stored_count(
                    old(self)@.stores[entity.idx as int],
                )
                &&& r is Some ==> stored_count(old(self)@.stores[entity.idx as int]) > 0
            },
    {
        broadcast use lemma_update_same_value;

        if self.is_valid_entity(entity) {
            let comp = self.components[entity.idx].get_mut::<T>();
            return match comp {
                Some(val) => {
                    self.ent_changed.mark(entity.idx, entity.uuid);
                    Some(val)
                },
                None => None,
            };
        }
        None
    }

    /// Removes a component of type `T` from a valid entity itself (never
    /// from an ancestor) and hands it back. When there was one, the entity
    /// is recorded as changed.
    pub fn remove_component<T: 'static>(&mut self, entity: &Entity) -> (r: Option<T>)
        requires
            old(self).wf(),
        ensures
            final(self).wf(),
            slot_step(old(self)@, final(self)@),
            !old(self)@.is_valid(*entity) ==> r is None && final(self)@ == old(self)@,
            r is None ==> final(self)@ == old(self)@,
            old(self)@.is_valid(*entity) ==> {
                &&& final(self)@ == (WorldModel {
                    changed: if r is Some {
                        old(self)@.changed.insert(entity.idx, entity.uuid)
                    } else {
                        old(self)@.changed
                    },
                    stores: final(self)@.stores,
                    ..old(self)@
                })
                &&& final(self)@.stores == old(self)@.stores.update(
                    entity.idx as int,
                    final(self)@.stores[entity.idx as int],
                )
                &&& r is Some ==> stored_count(final(self)@.stores[entity.idx as int]) + 1
                    == stored_count(old(self)@.stores[entity.idx as int])
            },
    {
        if self.is_valid_entity(entity) {
            let res = self.components[entity.idx].remove::<T>();
            proof {
                assert(self.components@ =~= old(self)@.stores.update(
                    entity.idx as int,
                    self.components@[entity.idx as int],
                ));
            }
            return match res {
                Some(res) => {
                    self.ent_changed.mark(entity.idx, entity.uuid);
                    Some(res)
                },
                None => {
                    proof {
                        assert(self.components@ =~= old(self).components@);
                    }
                    None
                },
            };
        }
        None
    }

    /// Links `entity` to `parent` when both are valid, replacing an earlier
    /// link, and returns whether it did.
    pub fn set_parent(&mut self, entity: &Entity, parent: &Entity) -> (r: bool)
        requires
            old(self).wf(),
        ensures
            final(self).wf(),
            slot_step(old(self)@, final(self)@),
            r == (old(self)@.is_valid(*entity) && old(self)@.is_valid(*parent)),
            r ==> final(self)@ == (WorldModel {
                parents: old(self)@.parents.insert(*entity, *parent),
                ..old(self)@
            }),
            !r ==> final(self)@ == old(self)@,
    {
        if self.is_valid_entity(entity) && self.is_valid_entity(parent) {
            self.parents.set(*entity, *parent);
        } else {
            return false;
        }
        true
    }

    /// The parent linked to a valid entity.
    pub fn get_parent(&self, entity: &Entity) -> (r: Option<Entity>)
        requires
            self.wf(),
        ensures
            r == self@.parent_of(*entity),
    {
        if self.is_valid_entity(entity) {
            if let Some(parent) = self.parents.get(entity) {
                return Some(parent);
            }
        }
        None
    }

    /// Drops the parent link of a valid entity.
    pub fn unlink_parent(&mut self, entity: &Entity)
        requires
            old(self).wf(),
        ensures
            final(self).wf(),
            slot_step(old(self)@, final(self)@),
            old(self)@.is_valid(*entity) ==> final(self)@ == (WorldModel {
                parents: old(self)@.parents.remove(*entity),
                ..old(self)@
            }),
            !old(self)@.is_valid(*entity) ==> final(self)@ == old(self)@,
    {
        if self.is_valid_entity(entity) {
            self.parents.unlink(entity);
        }
    }

    /// A lazy walk over the committed entities, in slot order.
    pub fn iterator(&self) -> (r: EntityIterator<'_>)
        requires
            self.wf(),
        ensures
            r.slots() == self@.active,
            r.pending() == self@.added,
            r.cursor() == 0,
    {
        EntityIterator { active: &self.active, added: &self.ent_added, curr: 0 }
    }

    /// The committed entities, in slot order. Unlike an `EntityIterator`,
    /// the list does not borrow the world.
    pub fn list_entities(&self) -> (r: Vec<Entity>)
        requires
            self.wf(),
        ensures
            r@ == self@.listed(),
            forall|x: Entity| #[trigger]
                r@.contains(x) <==> (self@.is_valid(x) && !(self@.added.contains_key(x.idx)
                    && self@.added[x.idx] == x.uuid)),
            forall|a: int, b: int| 0 <= a < b < r@.len() ==> r@[a].idx < r@[b].idx,
    {
        let mut r: Vec<Entity> = Vec::new();
        let mut i: usize = 0;
        while i < self.active.len()
            invariant
                self.wf(),
                i <= self.active@.len(),
                r@ == self@.listed_upto(i as nat),
                forall|k: int| 0 <= k < r@.len() ==> #[trigger] r@[k].idx < i,
                forall|a: int, b: int| 0 <= a < b < r@.len() ==> r@[a].idx < r@[b].idx,
            decreases self.active@.len() - i,
        {
            let uuid = self.active[i];
            if uuid != 0 && self.ent_added.get(i).is_none() {
                r.push(Entity { idx: i, uuid });
            }
            i = i + 1;
        }
        proof {
            assert forall|x: Entity| #[trigger]
                r@.contains(x) <==> (self@.is_valid(x) && !(self@.added.contains_key(x.idx)
                    && self@.added[x.idx] == x.uuid)) by {
                crate::laws::lemma_listed_contains(self@, x, self@.active.len());
            }
        }
        r
    }

    /// The entities added since the last commit, each once.
    pub fn list_additions(&self) -> (r: Vec<Entity>)
        requires
            self.wf(),
        ensures
            r@.no_duplicates(),
            forall|e: Entity| #[trigger]
                r@.contains(e) <==> (self@.added.contains_key(e.idx) && self@.added[e.idx]
                    == e.uuid),
    {
        self.ent_added.to_entities()
    }

    /// The entities staged for removal, each once.
    pub fn list_removals(&self) -> (r: Vec<Entity>)
        requires
            self.wf(),
        ensures
            r@.no_duplicates(),
            forall|e: Entity| #[trigger]
                r@.contains(e) <==> (self@.removed.contains_key(e.idx) && self@.removed[e.idx]
                    == e.uuid),
    {
        self.ent_remove.to_entities()
    }

    /// The entities whose components changed since the last commit, each once.
    pub fn list_changes(&self) -> (r: Vec<Entity>)
        requires
            self.wf(),
        ensures
            r@.no_duplicates(),
            forall|e: Entity| #[trigger]
                r@.contains(e) <==> (self@.changed.contains_key(e.idx) && self@.changed[e.idx]
                    == e.uuid),
    {
        self.ent_changed.to_entities()
    }
}

/// One step of an iterator over slot table `slots` with pending additions
/// `pending`: from cursor `c0` it yields `r` and moves the cursor to `c1`.
/// It yields the first visible slot at or after `c0` and moves past it, or
/// `None`, leaving the cursor, when no slot from `c0` on is visible.
pub open spec fn advanced(
    slots: Seq<usize>,
    pending: Map<usize, usize>,
    c0: nat,
    r: Option<Entity>,
    c1: nat,
) -> bool {
    match r {
        Some(e) => {
            &&& c0 <= e.idx
            &&& visible_in(slots, pending, e.idx as int)
            &&& e.uuid == slots[e.idx as int]
            &&& forall|i: int| c0 <= i < e.idx ==> !visible_in(slots, pending, i)
            &&& c1 == e.idx + 1
        },
        None => {
            &&& forall|i: int| c0 <= i < slots.len() ==> !visible_in(slots, pending, i)
            &&& c1 == c0
        },
    }
}

/// Walks over the committed entities of the world it was made from, in
/// slot order. It borrows the world, which cannot change meanwhile.
pub struct EntityIterator<'a> {
    active: &'a Vec<usize>,
    added: &'a ChangeLog,
    curr: usize,
}

impl<'a> EntityIterator<'a> {
    /// The slot table walked over.
    pub closed spec fn slots(&self) -> Seq<usize> {
        self.active@
    }

    /// The pending additions, which are skipped.
    pub closed spec fn pending(&self) -> Map<usize, usize> {
        self.added@
    }

    /// The first slot not yet looked at.
    pub closed spec fn cursor(&self) -> nat {
        self.curr as nat
    }

    /// The next committed entity at or after the cursor; the cursor moves
    /// past it. `None` once no slot from the cursor on holds one.
    pub fn next(&mut self) -> (r: Option<Entity>)
        ensures
            final(self).slots() == old(self).slots(),
            final(self).pending() == old(self).pending(),
            advanced(
                old(self).slots(),
                old(self).pending(),
                old(self).cursor(),
                r,
                final(self).cursor(),
            ),
    {
        let mut idx = self.curr;
        while idx < self.active.len()
            invariant
                self.curr == old(self).curr,
                self.active == old(self).active,
                self.added == old(self).added,
                old(self).curr <= idx,
                forall|i: int|
                    old(self).curr <= i < idx ==> !visible_in(self.active@, self.added@, i),
            decreases self.active@.len() - idx,
        {
            let uuid = self.active[idx];
            if uuid != 0 && self.added.get(idx).is_none() {
                self.curr = idx + 1;
                return Some(Entity { idx, uuid });
            }
            idx = idx + 1;
        }
        None
    }
}

} // verus!
