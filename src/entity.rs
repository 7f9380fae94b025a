use vstd::prelude::*;

verus! {

/// Entity identifier used to access an entity in the world.
///
/// `idx` selects a storage slot, `uuid` is the generation that occupies it.
/// A `uuid` of `0` never names a live entity.
#[derive(Clone, Copy, PartialEq, Eq, Structural, Hash, Debug)]
pub struct Entity {
    pub idx: usize,
    pub uuid: usize,
}

} // verus!

verus! {

/// Whether `e` names the generation that currently occupies its slot in a
/// slot table (`0` marks a free slot).
pub open spec fn is_live(active: Seq<usize>, e: Entity) -> bool {
    &&& e.uuid != 0
    &&& e.idx < active.len()
    &&& active[e.idx as int] == e.uuid
}

/// Executable form of `is_live`.
pub fn live_in(active: &Vec<usize>, e: &Entity) -> (r: bool)
    ensures
        r == is_live(active@, *e),
{
    if e.idx < active.len() {
        let uuid = active[e.idx];
        uuid != 0 && e.uuid == uuid
    } else {
        false
    }
}

} // verus!
