use vstd::prelude::*;

use crate::entity::Entity;
use crate::store::stored_count;
use crate::world::{
    advanced, committed, created, is_history, slot_step, staged, visible_in, WorldModel,
};

verus! {

/// Two valid entities in the same slot are the same entity.
pub proof fn lemma_valid_slot_unique(w: WorldModel, a: Entity, b: Entity)
    requires
        w.is_valid(a),
        w.is_valid(b),
        a.idx == b.idx,
    ensures
        a == b,
{
}

/// Generations are never issued twice: of two entities created one after
/// the other, with any operations between that do not lower the generation
/// counter, the later has the larger generation, so the two differ.
pub proof fn lemma_generations_increase(
    o1: WorldModel,
    n1: WorldModel,
    e1: Entity,
    o2: WorldModel,
    n2: WorldModel,
    e2: Entity,
)
    requires
        created(o1, n1, e1),
        n1.next_uuid <= o2.next_uuid,
        created(o2, n2, e2),
    ensures
        e1.uuid < e2.uuid,
        e1 != e2,
{
}

/// A new entity's generation differs from that of every entity valid
/// before it was created.
pub proof fn lemma_created_is_fresh(o: WorldModel, n: WorldModel, e: Entity, x: Entity)
    requires
        created(o, n, e),
        o.is_valid(x),
    ensures
        x != e,
        x.uuid < e.uuid,
{
}

/// Staging a removal leaves every entity as valid as it was and every
/// component in place.
pub proof fn lemma_staged_removal_keeps(w0: WorldModel, w1: WorldModel, e: Entity, x: Entity)
    requires
        staged(w0, w1, e),
    ensures
        w1.is_valid(x) == w0.is_valid(x),
        w1.stores == w0.stores,
        w1.active == w0.active,
{
}

/// Removing a valid entity and committing invalidates it for good: the next
/// entity created gets another generation, and the old entity stays invalid.
/// When nothing else was staged and no slot was free, the new entity takes
/// the removed entity's slot.
pub proof fn lemma_removed_slot_reused(
    w0: WorldModel,
    w1: WorldModel,
    w2: WorldModel,
    w3: WorldModel,
    e: Entity,
    e3: Entity,
)
    requires
        w0.sound(),
        w0.is_valid(e),
        staged(w0, w1, e),
        committed(w1, w2),
        created(w2, w3, e3),
    ensures
        !w2.is_valid(e),
        !w3.is_valid(e),
        e3.uuid != e.uuid,
        w0.free.len() == 0 && w0.removed.is_empty() ==> e3.idx == e.idx,
{
    assert(w1.doomed(e.idx as int));
    assert(w2.active[e.idx as int] == 0);
    assert(w0.active[e.idx as int] < w0.next_uuid);
    if w0.free.len() == 0 && w0.removed.is_empty() {
        assert(w2.free.contains(e.idx));
        let k = w2.free.len() - 1;
        assert(w1.doomed(w2.free[k] as int));
        assert(w1.removed.contains_key(w2.free[k]));
        assert(w2.free.last() == w2.free[k]);
    }
}

/// A committed entity is listed exactly when its slot is visible.
pub proof fn lemma_listed_contains(w: WorldModel, e: Entity, n: nat)
    requires
        n <= w.active.len(),
        w.active.len() <= usize::MAX,
    ensures
        w.listed_upto(n).contains(e) <==> (e.idx < n && w.visible(e.idx as int) && e.uuid
            == w.active[e.idx as int]),
    decreases n,
{
    if n > 0 {
        lemma_listed_contains(w, e, (n - 1) as nat);
        let prev = w.listed_upto((n - 1) as nat);
        if w.visible(n - 1) {
            let cur = prev.push(w.entity_at(n - 1));
            if cur.contains(e) {
                let k = choose|k: int| 0 <= k < cur.len() && cur[k] == e;
                if k < prev.len() {
                    assert(prev.contains(e));
                }
            }
            if e.idx < n && w.visible(e.idx as int) && e.uuid == w.active[e.idx as int] {
                if e.idx == n - 1 {
                    assert(cur[prev.len() as int] == e);
                } else {
                    assert(prev.contains(e));
                    let k = choose|k: int| 0 <= k < prev.len() && prev[k] == e;
                    assert(cur[k] == e);
                }
            }
        }
    }
}

/// A new entity is neither listed nor iterated until a commit; once the
/// commit has happened it is both, if it is still valid.
pub proof fn lemma_visible_after_commit(
    o: WorldModel,
    n: WorldModel,
    e: Entity,
    c: WorldModel,
)
    requires
        n.sound(),
        created(o, n, e),
        committed(n, c),
        c.is_valid(e),
    ensures
        !n.listed().contains(e),
        !visible_in(n.active, n.added, e.idx as int),
        c.listed().contains(e),
        visible_in(c.active, c.added, e.idx as int),
{
    assert(n.added.contains_key(e.idx));
    lemma_listed_contains(n, e, n.active.len());
    lemma_listed_contains(c, e, c.active.len());
}

/// After a commit, an entity whose link had an endpoint that is no longer
/// valid has no parent.
pub proof fn lemma_commit_prunes_parents(o: WorldModel, n: WorldModel, child: Entity)
    requires
        committed(o, n),
        o.parents.contains_key(child),
        !n.is_valid(child) || !n.is_valid(o.parents[child]),
    ensures
        !n.parents.contains_key(child),
        n.parent_of(child) is None,
{
}

/// Along a history the generation counter never goes down.
pub proof fn lemma_history_counter_rises(ws: Seq<WorldModel>, i: int, j: int)
    requires
        is_history(ws),
        0 <= i <= j < ws.len(),
    ensures
        ws[i].next_uuid <= ws[j].next_uuid,
    decreases j - i,
{
    if i < j {
        lemma_history_counter_rises(ws, i, j - 1);
        assert(slot_step(ws[j - 1], ws[j]));
    }
}

/// Over a whole history, no two creations give equal entities or equal
/// generations: each later creation has a larger generation, and none is
/// below the counter the history started with.
pub proof fn lemma_history_generations_distinct(
    ws: Seq<WorldModel>,
    i: int,
    j: int,
    ei: Entity,
    ej: Entity,
)
    requires
        is_history(ws),
        0 <= i < j,
        j + 1 < ws.len(),
        created(ws[i], ws[i + 1], ei),
        created(ws[j], ws[j + 1], ej),
    ensures
        ei.uuid < ej.uuid,
        ei != ej,
        ws[0].next_uuid <= ei.uuid,
        ei.uuid >= 1,
{
    lemma_history_counter_rises(ws, i + 1, j);
    lemma_history_counter_rises(ws, 0, i);
}

/// An invalid entity whose generation was issued already stays invalid for
/// the rest of a history: its generation is never issued again.
pub proof fn lemma_history_stays_invalid(ws: Seq<WorldModel>, x: Entity, j: int)
    requires
        is_history(ws),
        ws.len() > 0,
        !ws[0].is_valid(x),
        x.uuid < ws[0].next_uuid,
        0 <= j < ws.len(),
    ensures
        !ws[j].is_valid(x),
        x.uuid < ws[j].next_uuid,
    decreases j,
{
    if j > 0 {
        lemma_history_stays_invalid(ws, x, j - 1);
        let o = ws[j - 1];
        let n = ws[j];
        assert(slot_step(o, n));
        if exists|e: Entity| #[trigger] created(o, n, e) {
            let e = choose|e: Entity| #[trigger] created(o, n, e);
            if n.is_valid(x) {
                assert(n.active[x.idx as int] == x.uuid);
            }
        } else if committed(o, n) {
            if n.is_valid(x) {
                assert(n.active[x.idx as int] == x.uuid);
            }
        }
    }
}

/// An entity removed and committed stays invalid from then on, and every
/// entity created afterwards differs from it, also on its old slot.
pub proof fn lemma_removed_never_returns(
    w0: WorldModel,
    w1: WorldModel,
    ws: Seq<WorldModel>,
    e: Entity,
    j: int,
    k: int,
    ek: Entity,
)
    requires
        w0.sound(),
        w0.is_valid(e),
        staged(w0, w1, e),
        ws.len() > 0,
        committed(w1, ws[0]),
        is_history(ws),
        0 <= j < ws.len(),
        0 <= k,
        k + 1 < ws.len(),
        created(ws[k], ws[k + 1], ek),
    ensures
        !ws[j].is_valid(e),
        ek.uuid != e.uuid,
        ek != e,
{
    assert(w1.doomed(e.idx as int));
    assert(ws[0].active[e.idx as int] == 0);
    assert(w0.active[e.idx as int] < w0.next_uuid);
    assert(w1.next_uuid == w0.next_uuid);
    assert(ws[0].next_uuid == w1.next_uuid);
    lemma_history_stays_invalid(ws, e, j);
    lemma_history_counter_rises(ws, 0, k);
    assert(ek.uuid == ws[k].next_uuid);
}

/// A child without a parent link keeps having no parent while no operation
/// links it again.
pub proof fn lemma_history_unlinked_stays(ws: Seq<WorldModel>, c: Entity, j: int)
    requires
        ws.len() > 0,
        !ws[0].parents.contains_key(c),
        forall|k: int|
            0 <= k < ws.len() - 1 && #[trigger] ws[k + 1].parents.contains_key(c)
                ==> ws[k].parents.contains_key(c),
        0 <= j < ws.len(),
    ensures
        !ws[j].parents.contains_key(c),
        ws[j].parent_of(c) is None,
    decreases j,
{
    if j > 0 {
        lemma_history_unlinked_stays(ws, c, j - 1);
        let k = j - 1;
        if ws[k + 1].parents.contains_key(c) {
            assert(ws[k].parents.contains_key(c));
        }
    }
}

/// A new entity takes the most recently freed slot, with a generation
/// that differs from that of the entity which held the slot before.
pub proof fn lemma_reuses_last_freed(o: WorldModel, n: WorldModel, e: Entity, old_e: Entity)
    requires
        o.sound(),
        o.free.len() > 0,
        o.free.last() == old_e.idx,
        old_e.uuid < o.next_uuid,
        created(o, n, e),
    ensures
        e.idx == old_e.idx,
        e.uuid != old_e.uuid,
        e != old_e,
{
}

/// A link whose parent a commit invalidated is gone after the commit, and
/// stays gone, whatever later happens to the parent's slot, while no
/// operation links the child again.
pub proof fn lemma_pruned_link_stays_gone(o: WorldModel, ws: Seq<WorldModel>, c: Entity, j: int)
    requires
        ws.len() > 0,
        committed(o, ws[0]),
        o.parents.contains_key(c),
        !ws[0].is_valid(o.parents[c]),
        forall|k: int|
            0 <= k < ws.len() - 1 && #[trigger] ws[k + 1].parents.contains_key(c)
                ==> ws[k].parents.contains_key(c),
        0 <= j < ws.len(),
    ensures
        ws[j].parent_of(c) is None,
{
    lemma_commit_prunes_parents(o, ws[0], c);
    lemma_history_unlinked_stays(ws, c, j);
}

/// Slots without a committed entity add nothing to the listing.
pub proof fn lemma_listed_skip(w: WorldModel, a: nat, b: nat)
    requires
        a <= b <= w.active.len(),
        forall|i: int| a <= i < b ==> !w.visible(i),
    ensures
        w.listed_upto(b) == w.listed_upto(a),
    decreases b,
{
    if a < b {
        lemma_listed_skip(w, a, (b - 1) as nat);
    }
}

/// After `k` steps of an iterator from the start, it has yielded the
/// committed entities below its cursor.
pub proof fn lemma_iteration_prefix(w: WorldModel, rs: Seq<Entity>, cs: Seq<nat>, k: int)
    requires
        w.active.len() <= usize::MAX,
        cs.len() == rs.len() + 1,
        cs[0] == 0,
        forall|q: int|
            0 <= q < rs.len() ==> advanced(
                w.active,
                w.added,
                #[trigger] cs[q],
                Some(rs[q]),
                cs[q + 1],
            ),
        0 <= k <= rs.len(),
    ensures
        cs[k] <= w.active.len(),
        rs.take(k) == w.listed_upto(cs[k]),
    decreases k,
{
    if k == 0 {
        assert(rs.take(0) =~= w.listed_upto(0));
    } else {
        let p = k - 1;
        lemma_iteration_prefix(w, rs, cs, p);
        let e = rs[p];
        assert(advanced(w.active, w.added, cs[p], Some(e), cs[p + 1]));
        assert forall|i: int| cs[p] <= i < e.idx implies !w.visible(i) by {}
        lemma_listed_skip(w, cs[p], e.idx as nat);
        assert(w.visible(e.idx as int));
        assert(w.entity_at(e.idx as int) == e);
        assert(w.listed_upto((e.idx + 1) as nat) == w.listed_upto(e.idx as nat).push(e));
        assert(rs.take(k) =~= rs.take(p).push(e));
    }
}

/// Driving an iterator from the start until it yields `None` gives the
/// committed entities, each once, in slot order: the same as
/// `World::list_entities`.
pub proof fn lemma_iteration_yields_listed(w: WorldModel, rs: Seq<Entity>, cs: Seq<nat>)
    requires
        w.active.len() <= usize::MAX,
        cs.len() == rs.len() + 1,
        cs[0] == 0,
        forall|k: int|
            0 <= k < rs.len() ==> advanced(
                w.active,
                w.added,
                #[trigger] cs[k],
                Some(rs[k]),
                cs[k + 1],
            ),
        advanced(w.active, w.added, cs[rs.len() as int], None, cs[rs.len() as int]),
    ensures
        rs == w.listed(),
{
    lemma_iteration_prefix(w, rs, cs, rs.len() as int);
    let last = cs[rs.len() as int];
    assert forall|i: int| last <= i < w.active.len() implies !w.visible(i) by {}
    lemma_listed_skip(w, last, w.active.len());
    assert(rs.take(rs.len() as int) =~= rs);
}

/// Along a history, no creation records again an entity whose generation
/// was issued before the history began.
pub proof fn lemma_history_not_readded(ws: Seq<WorldModel>, e: Entity, j: int)
    requires
        is_history(ws),
        ws.len() > 0,
        e.uuid < ws[0].next_uuid,
        !(ws[0].added.contains_key(e.idx) && ws[0].added[e.idx] == e.uuid),
        0 <= j < ws.len(),
    ensures
        !(ws[j].added.contains_key(e.idx) && ws[j].added[e.idx] == e.uuid),
    decreases j,
{
    if j > 0 {
        lemma_history_not_readded(ws, e, j - 1);
        lemma_history_counter_rises(ws, 0, j - 1);
        let o = ws[j - 1];
        let n = ws[j];
        assert(slot_step(o, n));
        if exists|x: Entity| #[trigger] created(o, n, x) {
            let x = choose|x: Entity| #[trigger] created(o, n, x);
            assert(x.uuid == o.next_uuid);
        }
    }
}

/// An entity that is committed (not a pending addition) stays listed for as
/// long as it stays valid, whatever operations follow.
pub proof fn lemma_history_stays_listed(ws: Seq<WorldModel>, e: Entity, j: int)
    requires
        is_history(ws),
        ws.len() > 0,
        e.uuid < ws[0].next_uuid,
        !(ws[0].added.contains_key(e.idx) && ws[0].added[e.idx] == e.uuid),
        0 <= j < ws.len(),
        ws[j].sound(),
        ws[j].is_valid(e),
    ensures
        ws[j].listed().contains(e),
{
    lemma_history_not_readded(ws, e, j);
    lemma_listed_contains(ws[j], e, ws[j].active.len());
    if ws[j].added.contains_key(e.idx) {
        assert(ws[j].added[e.idx] == ws[j].active[e.idx as int]);
    }
}

} // verus!
