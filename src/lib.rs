//! srecs: a simple entity component system.
//!
//! A `World` hands out generational entity identifiers, stores typed
//! components per entity, stages removals until `World::confirm_changes`,
//! and resolves components through chains of parent links.

pub mod components;
pub mod entity;
pub mod laws;
pub mod logs;
pub mod store;
pub mod world;

pub use entity::Entity;
pub use world::EntityIterator;
