use vstd::prelude::*;

use crate::destiny_rift::DestinyRift;
use crate::lost_realm::LostRealm;
use crate::EtherealFlow;

verus! {

/// The back-reference from a component to the entity that owns it. The store
/// sets it once, when the component is inserted.
pub trait ForgedHierarchy: EtherealFlow {
    /// The id of the owning entity, once it is set.
    spec fn father(&self) -> Option<u128>;

    fn set_father(&mut self, father_id: u128)
        ensures
            final(self).father() == Some(father_id),
            final(self).key() == old(self).key(),
    ;

    fn get_father(&self) -> (r: Option<u128>)
        ensures
            r == self.father(),
    ;
}

/// A component: type identity, owner back-reference, and two lifecycle hooks
/// that get the world they live in. Both hooks do nothing unless overridden.
pub trait ForgedTrait: ForgedHierarchy + Sized {
    /// The events that this world's components publish and consume.
    type Rift: DestinyRift;

    /// Runs once, when the world starts.
    #[allow(unused_variables)]
    fn start(&mut self, lost_realm: &mut LostRealm<Self>) {
    }

    /// Runs on every tick, with the tick's length in microseconds.
    #[allow(unused_variables)]
    fn update(&mut self, lost_realm: &mut LostRealm<Self>, dt: u64) {
    }
}

/// A world initializer: it gets the world once, to seed entities and events.
pub trait ArcaneWeft<C: ForgedTrait> {
    fn craft(self, lost_realm: &mut LostRealm<C>);
}

} // verus!
