use vstd::prelude::*;

use crate::components::Parent;
use crate::entity::Entity;

verus! {

/// The components of one entity slot: at most one value of each type.
///
/// The values live in an `anymap::AnyMap`, which Verus cannot see into; the
/// methods below state what its source shows about each operation.
#[verifier::external_body]
pub struct ComponentStore {
    map: anymap::AnyMap,
}

/// How many component values a store holds.
pub uninterp spec fn stored_count(m: ComponentStore) -> nat;

/// The entity named by a store's `Parent` component, if it holds one.
pub uninterp spec fn parent_component(m: ComponentStore) -> Option<Entity>;

impl ComponentStore {
    /// Relies on anymap's `AnyMap::new`: the new map holds nothing.
    #[verifier::external_body]
    pub(crate) fn new() -> (r: ComponentStore)
        ensures
            stored_count(r) == 0,
            parent_component(r) is None,
    {
        ComponentStore { map: anymap::AnyMap::new() }
    }

    /// Relies on anymap's `Map::clear`: every value is dropped.
    #[verifier::external_body]
    pub(crate) fn clear(&mut self)
        ensures
            stored_count(*final(self)) == 0,
            parent_component(*final(self)) is None,
    {
        self.map.clear()
    }

    /// Relies on anymap's `Map::insert`: the value of type `T` is replaced,
    /// and the old one, if any, handed back.
    #[verifier::external_body]
    pub(crate) fn insert<T: 'static>(&mut self, value: T) -> (r: Option<T>)
        ensures
            r is Some ==> stored_count(*final(self)) == stored_count(*old(self)),
            r is None ==> stored_count(*final(self)) == stored_count(*old(self)) + 1,
            stored_count(*old(self)) == 0 ==> r is None,
    {
        self.map.insert(value)
    }

    /// Relies on anymap's `Map::get`: a reference to the value of type `T`.
    #[verifier::external_body]
    pub(crate) fn get<T: 'static>(&self) -> (r: Option<&T>)
        ensures
            r is Some ==> stored_count(*self) > 0,
    {
        self.map.get::<T>()
    }

    /// Relies on anymap's `Map::get_mut`: a mutable reference to the value
    /// of type `T`; changing that value adds or drops nothing.
    #[verifier::external_body]
    pub(crate) fn get_mut<T: 'static>(&mut self) -> (r: Option<&mut T>)
        ensures
            r is Some ==> stored_count(*old(self)) > 0,
            r is None ==> *final(self) == *old(self),
            stored_count(*final(self)) == stored_count(*old(self)),
    {
        self.map.get_mut::<T>()
    }

    /// Relies on anymap's `Map::remove`: the value of type `T` is taken out.
    #[verifier::external_body]
    pub(crate) fn remove<T: 'static>(&mut self) -> (r: Option<T>)
        ensures
            r is Some ==> stored_count(*old(self)) > 0 && stored_count(*final(self))
                == stored_count(*old(self)) - 1,
            r is None ==> *final(self) == *old(self),
    {
        self.map.remove::<T>()
    }

    /// Relies on anymap's `Map::contains`: whether a value of type `T` is held.
    #[verifier::external_body]
    pub(crate) fn contains<T: 'static>(&self) -> (r: bool)
        ensures
            r ==> stored_count(*self) > 0,
    {
        self.map.contains::<T>()
    }

    /// Relies on anymap's `Map::get` for `Parent`: the entity it names.
    #[verifier::external_body]
    pub(crate) fn parent(&self) -> (r: Option<Entity>)
        ensures
            r == parent_component(*self),
            r is Some ==> stored_count(*self) > 0,
    {
        self.map.get::<Parent>().map(|p| p.0)
    }
}

} // verus!
