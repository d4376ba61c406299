use vstd::prelude::*;

verus! {

/// The recoverable failures of the runtime. Components and events are named
/// by their type key, entities by their id.
#[derive(Clone, Copy, Debug, PartialEq, Eq, Structural)]
pub enum LostLostLandsFaultForgedObject {
    /// No component of this type key sits on the entity.
    TraitNotFound(u64),
    /// The entity already holds a component of this type key.
    TraitAlreadyExists(u64),
    /// No entity in the store carries this id.
    ForgedObjectNotFound(u128),
    /// An entity with this id is already in the store.
    ForgedObjectIdTaken(u128),
    /// The requested re-parenting would make a node its own ancestor.
    InvalidParentCycle,
}

} // verus!
