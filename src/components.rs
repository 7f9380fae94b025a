use vstd::prelude::*;

use crate::entity::Entity;

verus! {

/// Reference to the parent of an entity.
///
/// Attached as a component, it also serves as the entity's parent when
/// components are resolved through ancestors and no explicit parent link
/// is set.
pub struct Parent(pub Entity);

/// Lists the children of a parental entity.
pub struct Children(pub Vec<Entity>);

} // verus!
