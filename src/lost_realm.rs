use vstd::prelude::*;

use crate::destiny_rift::{consumed, latest, published, swept, DestinyRiftManager};
use crate::eonforge::{saturated_sum, EonForge};
use crate::forged_object::{kind_index, ForgedObject, ForgedObjectView};
use crate::forged_store::{
    first_index, forge_outcome, keys_of, no_components, holding, id_index, named, objects_holding, trait_of, traits_holding,
    ForgedStore,
};
use crate::forged_trait::{ArcaneWeft, ForgedTrait};
use crate::lost_lands_fault::LostLostLandsFaultForgedObject;
use crate::EtherealFlow;
use crate::soul_thread::{
    live_tasks, not_finished, stopped, tick_step, SoulThread, SoulThreadManager, SoulThreadView,
};
use crate::transform::{detached, reaches_up, reparented};

verus! {

/// Relies on uuid::Uuid::new_v4 for a random version-4 UUID, read as a number
/// by Uuid::as_u128: its version nibble is 4 and its variant bits are 10.
/// Nothing else is promised of the value; new_v4 panics only when the system's
/// random source fails.
#[verifier::external_body]
fn new_entity_id() -> (r: u128)
    ensures
        r & 0xF000_C000_0000_0000_0000u128 == 0x4000_8000_0000_0000_0000u128,
{
    uuid::Uuid::new_v4().as_u128()
}

/// The world: the entity store with its transform graph, the clock, the event
/// bus and the task scheduler.
pub struct LostRealm<C: ForgedTrait> {
    forged_objects: ForgedStore<C>,
    eonforge: EonForge,
    destiny_rift_manager: DestinyRiftManager<C::Rift>,
    soul_threads_manager: SoulThreadManager,
}

impl<C: ForgedTrait> LostRealm<C> {
    /// The entity store.
    pub closed spec fn store(&self) -> ForgedStore<C> {
        self.forged_objects
    }

    /// The clock.
    pub closed spec fn clock(&self) -> EonForge {
        self.eonforge
    }

    /// The pending events, by type key.
    pub closed spec fn events(&self) -> Map<u64, Seq<C::Rift>> {
        self.destiny_rift_manager@
    }

    /// The tasks, in the order they were added.
    pub closed spec fn threads(&self) -> Seq<SoulThreadView> {
        self.soul_threads_manager@
    }

    /// An empty world.
    pub fn new() -> (r: Self)
        ensures
            r.store().objects().len() == 0,
            r.store().graph().len() == 0,
            r.clock().elapsed() == 0,
            r.events() == Map::<u64, Seq<C::Rift>>::empty(),
            r.threads() == Seq::<SoulThreadView>::empty(),
    {
        LostRealm {
            forged_objects: ForgedStore::new(),
            eonforge: EonForge::new(),
            destiny_rift_manager: DestinyRiftManager::new(),
            soul_threads_manager: SoulThreadManager::new(),
        }
    }

    /// The entity store, to read.
    pub fn forged_objects(&self) -> (r: &ForgedStore<C>)
        ensures
            *r == self.store(),
    {
        &self.forged_objects
    }

    /// The entity store, to change. The rest of the world stays.
    pub fn forged_objects_mut(&mut self) -> (r: &mut ForgedStore<C>)
        ensures
            *r == old(self).store(),
            final(self).store() == *final(r),
            final(self).clock() == old(self).clock(),
            final(self).events() == old(self).events(),
            final(self).threads() == old(self).threads(),
    {
        &mut self.forged_objects
    }

    /// Runs one hook on every component that the entities hold when the pass
    /// begins, entity by entity in insertion order, then component by component.
    /// Each component is taken out of its entity while its hook runs, so the hook
    /// can reach the whole world without aliasing it; afterwards it goes back in
    /// its place, unless its entity is gone or meanwhile got a component of the
    /// same key.
    fn run_hooks(&mut self, starting: bool, delta: u64)
        ensures
            no_components(old(self).store().objects()) ==> *final(self) == *old(self),
    {
        let ids = self.forged_objects.ids_snapshot();
        let mut a: usize = 0;
        while a < ids.len()
            invariant
                a <= ids@.len(),
                no_components(old(self).store().objects()) ==> *self == *old(self),
            decreases ids@.len() - a,
        {
            let id = ids[a];
            match self.forged_objects.trait_count_of(id) {
                Some(n) => {
                    let mut j: usize = 0;
                    while j < n
                        invariant
                            j <= n,
                            no_components(old(self).store().objects()) ==> *self == *old(self) && n == 0,
                        decreases n - j,
                    {
                        match self.forged_objects.take_trait_of(id, j) {
                            Some((k, c)) => {
                                let mut c = c;
                                if starting {
                                    c.start(self);
                                } else {
                                    c.update(self, delta);
                                }
                                let _ = self.forged_objects.restore_trait_of(id, j, k, c);
                            },
                            None => {},
                        }
                        j += 1;
                    }
                },
                None => {},
            }
            a += 1;
        }
    }

    /// Starts the world: restarts the clock, then runs every component's start
    /// hook. Hooks may change the whole world; where no entity holds a
    /// component, only the clock is restarted.
    pub fn start(&mut self)
        ensures
            no_components(old(self).store().objects()) ==> {
                &&& final(self).clock().elapsed() == 0
                &&& final(self).clock().delta() == old(self).clock().delta()
                &&& final(self).store() == old(self).store()
                &&& final(self).events() == old(self).events()
                &&& final(self).threads() == old(self).threads()
            },
    {
        self.eonforge.start();
        self.run_hooks(true, 0);
    }

    /// One tick of `delta` microseconds: advances the clock, runs every
    /// component's update hook, sweeps the empty event buckets, then updates
    /// the tasks.
    /// Hooks may change the whole world; where no entity holds a component, the
    /// tick is exactly the clock advance, the sweep and the task update.
    pub fn update(&mut self, delta: u64)
        ensures
            forall|k: u64| #[trigger] final(self).events().contains_key(k) ==> final(self).events()[k].len() > 0,
            forall|i: int| 0 <= i < final(self).threads().len() ==> not_finished(#[trigger] final(self).threads()[i]),
            no_components(old(self).store().objects()) ==> {
                &&& final(self).clock().delta() == delta
                &&& final(self).clock().elapsed() == saturated_sum(old(self).clock().elapsed(), delta)
                &&& final(self).store() == old(self).store()
                &&& final(self).events() == swept(old(self).events())
                &&& exists|mid: Seq<SoulThreadView>| #![trigger live_tasks(mid)]
                    mid.len() == old(self).threads().len()
                    && (forall|i: int| 0 <= i < mid.len() ==> tick_step(old(self).threads()[i], delta, #[trigger] mid[i]))
                    && final(self).threads() == live_tasks(mid)
            },
    {
        self.eonforge.update(delta);
        self.run_hooks(false, delta);
        self.destiny_rift_manager.remove_event();
        let ghost before = self.soul_threads_manager@;
        self.soul_threads_manager.update(delta);
        proof {
            let mid = choose|mid: Seq<SoulThreadView>| #[trigger] live_tasks(mid) == self.soul_threads_manager@
                && mid.len() == before.len();
            assert forall|i: int| 0 <= i < self.threads().len() implies not_finished(#[trigger] self.threads()[i]) by {
                mid.lemma_filter_pred(|t: SoulThreadView| not_finished(t), i);
            }
        }
    }

    /// Adds a task to the scheduler.
    pub fn add_soul_thread(&mut self, thread: SoulThread)
        ensures
            final(self).threads() == old(self).threads().push(thread@),
            final(self).store() == old(self).store(),
            final(self).events() == old(self).events(),
    {
        self.soul_threads_manager.add_thread(thread);
    }

    /// Stops every task.
    pub fn stop_all_soul_threads(&mut self)
        ensures
            final(self).threads() == old(self).threads().map_values(|t: SoulThreadView| stopped(t)),
            final(self).store() == old(self).store(),
            final(self).events() == old(self).events(),
    {
        self.soul_threads_manager.stop_all();
    }

    /// Stops the first task named `name`, if any.
    pub fn stop_soul_thread_by_name(&mut self, name: &str)
        ensures
            (forall|i: int| 0 <= i < old(self).threads().len() ==> old(self).threads()[i].name != name@)
                ==> final(self).threads() == old(self).threads(),
            forall|i: int| 0 <= i < old(self).threads().len() && old(self).threads()[i].name == name@
                && (forall|j: int| 0 <= j < i ==> old(self).threads()[j].name != name@)
                ==> final(self).threads() == old(self).threads().update(i, stopped(old(self).threads()[i])),
            final(self).store() == old(self).store(),
            final(self).events() == old(self).events(),
    {
        self.soul_threads_manager.stop_by_name(name);
    }

    /// Publishes `event` under the type key that it reports.
    pub fn add_destiny_rift_event(&mut self, event: C::Rift)
        ensures
            final(self).events() == published(old(self).events(), event.key(), event),
            final(self).store() == old(self).store(),
            final(self).threads() == old(self).threads(),
    {
        self.destiny_rift_manager.add_event(event);
    }

    /// Consumes the newest pending event of key `k`.
    pub fn consume_destiny_rift_event(&mut self, k: u64) -> (r: Option<C::Rift>)
        ensures
            r == latest(old(self).events(), k),
            final(self).events() == consumed(old(self).events(), k),
            final(self).store() == old(self).store(),
            final(self).threads() == old(self).threads(),
    {
        self.destiny_rift_manager.consume_event(k)
    }

    /// Hands the world to an initializer, once.
    pub fn arcane_weft_craft<W: ArcaneWeft<C>>(&mut self, arcane_weft: W) {
        arcane_weft.craft(self);
    }

    /// Creates an entity with the id `id`; see `ForgedStore::forge_new_object`.
    pub fn forge_new_object_with_id(&mut self, name: &str, id: u128, traits: Vec<C>) -> (r: Result<u128, LostLostLandsFaultForgedObject>)
        ensures
            old(self).store().id_used(id) ==> r == Err::<u128, _>(
                LostLostLandsFaultForgedObject::ForgedObjectIdTaken(id),
            ) && final(self).store().same_as(&old(self).store()),
            !old(self).store().id_used(id) ==> forge_outcome(
                &old(self).store(),
                &final(self).store(),
                name@,
                id,
                keys_of(traits@),
                traits@.len(),
                r,
            ),
            final(self).events() == old(self).events(),
            final(self).threads() == old(self).threads(),
    {
        self.forged_objects.forge_new_object(name, id, traits)
    }

    /// Creates an entity with a fresh random id and returns the id. Refused as
    /// `forge_new_object_with_id` refuses, for the id that was drawn.
    pub fn forge_new_object(&mut self, name: &str, traits: Vec<C>) -> (r: Result<u128, LostLostLandsFaultForgedObject>)
        ensures
            exists|id: u128| #![trigger old(self).store().id_used(id)] {
                &&& old(self).store().id_used(id) ==> r == Err::<u128, _>(
                    LostLostLandsFaultForgedObject::ForgedObjectIdTaken(id),
                ) && final(self).store().same_as(&old(self).store())
                &&& !old(self).store().id_used(id) ==> forge_outcome(
                    &old(self).store(),
                    &final(self).store(),
                    name@,
                    id,
                    keys_of(traits@),
                    traits@.len(),
                    r,
                )
            },
            final(self).events() == old(self).events(),
            final(self).threads() == old(self).threads(),
    {
        let id = new_entity_id();
        let r = self.forge_new_object_with_id(name, id, traits);
        assert(old(self).store().id_used(id) || !old(self).store().id_used(id));
        r
    }

    /// The first entity named `name`.
    pub fn get_forged_object(&self, name: &str) -> (r: Option<&ForgedObject<C>>)
        ensures
            match first_index(self.store().objects(), named(name@)) {
                Some(i) => r matches Some(o) && o@ == self.store().objects()[i],
                None => r is None,
            },
    {
        self.forged_objects.get_forged_object(name)
    }

    /// The first entity named `name`, for change.
    pub fn get_mut_forged_object(&mut self, name: &str) -> (r: Option<&mut ForgedObject<C>>)
        ensures
            final(self).store().ids() == old(self).store().ids(),
            final(self).store().nodes() == old(self).store().nodes(),
            final(self).store().graph() == old(self).store().graph(),
            match first_index(old(self).store().objects(), named(name@)) {
                Some(i) => r matches Some(o) && o@ == old(self).store().objects()[i]
                    && final(self).store().objects() == old(self).store().objects().update(i, final(o)@),
                None => r is None && final(self).store().objects() == old(self).store().objects(),
            },
            final(self).events() == old(self).events(),
            final(self).threads() == old(self).threads(),
    {
        self.forged_objects.get_mut_forged_object(name)
    }

    /// The first entity that holds a component of key `k`.
    pub fn get_forged_object_by_trait(&self, k: u64) -> (r: Option<&ForgedObject<C>>)
        ensures
            match first_index(self.store().objects(), holding(k)) {
                Some(i) => r matches Some(o) && o@ == self.store().objects()[i],
                None => r is None,
            },
    {
        self.forged_objects.get_forged_object_by_trait(k)
    }

    /// The component of key `k` on the first entity that holds one.
    pub fn get_trait_by_type(&self, k: u64) -> (r: Option<&C>)
        ensures
            match first_index(self.store().objects(), holding(k)) {
                Some(i) => r == Some(&trait_of(self.store().objects()[i], k)),
                None => r is None,
            },
    {
        self.forged_objects.get_trait_by_type(k)
    }

    /// The component of key `k` on the first entity that holds one, for change.
    pub fn get_mut_trait_by_type(&mut self, k: u64) -> (r: Option<&mut C>)
        ensures
            final(self).store().ids() == old(self).store().ids(),
            final(self).store().graph() == old(self).store().graph(),
            match first_index(old(self).store().objects(), holding(k)) {
                Some(i) => r matches Some(c) && *c == trait_of(old(self).store().objects()[i], k)
                    && final(self).store().objects() == old(self).store().objects().update(
                        i,
                        ForgedObjectView {
                            traits: old(self).store().objects()[i].traits.update(
                                kind_index(old(self).store().objects()[i].kinds, k).unwrap(),
                                *final(c),
                            ),
                            ..old(self).store().objects()[i]
                        },
                    ),
                None => r is None && final(self).store().objects() == old(self).store().objects(),
            },
            final(self).events() == old(self).events(),
            final(self).threads() == old(self).threads(),
    {
        self.forged_objects.get_mut_trait_by_type(k)
    }

    /// The ids of the entities that hold a component of key `k`, in order: with
    /// `get_mut_trait_of` they give each such component for change, one at a
    /// time.
    pub fn ids_by_trait(&self, k: u64) -> (r: Vec<u128>)
        ensures
            r@ == crate::forged_store::ids_holding(
                self.store().ids(),
                self.store().objects(),
                k,
                self.store().objects().len() as int,
            ),
    {
        self.forged_objects.ids_by_trait(k)
    }

    /// The component of key `k` on the entity with id `id`, for change.
    pub fn get_mut_trait_of(&mut self, id: u128, k: u64) -> (r: Result<&mut C, LostLostLandsFaultForgedObject>)
        ensures
            final(self).store().ids() == old(self).store().ids(),
            final(self).store().nodes() == old(self).store().nodes(),
            final(self).store().graph() == old(self).store().graph(),
            match id_index(old(self).store().ids(), id) {
                Some(i) => match kind_index(old(self).store().objects()[i].kinds, k) {
                    Some(j) => r matches Ok(c) && *c == old(self).store().objects()[i].traits[j]
                        && final(self).store().objects() == old(self).store().objects().update(
                            i,
                            ForgedObjectView {
                                traits: old(self).store().objects()[i].traits.update(j, *final(c)),
                                ..old(self).store().objects()[i]
                            },
                        ),
                    None => r == Err::<&mut C, _>(LostLostLandsFaultForgedObject::TraitNotFound(k))
                        && final(self).store().objects() == old(self).store().objects(),
                },
                None => r == Err::<&mut C, _>(LostLostLandsFaultForgedObject::ForgedObjectNotFound(id))
                    && final(self).store().objects() == old(self).store().objects(),
            },
            final(self).events() == old(self).events(),
            final(self).threads() == old(self).threads(),
    {
        self.forged_objects.get_mut_trait_of(id, k)
    }

    /// Every entity that holds a component of key `k`, in order.
    pub fn get_all_forged_objects_by_trait(&self, k: u64) -> (r: Vec<&ForgedObject<C>>)
        ensures
            r@.map_values(|o: &ForgedObject<C>| o@) == objects_holding(
                self.store().objects(),
                k,
                self.store().objects().len() as int,
            ),
    {
        self.forged_objects.get_all_forged_objects_by_trait(k)
    }

    /// The component of key `k` of every entity that holds one, in order.
    pub fn get_all_trait_by_type(&self, k: u64) -> (r: Vec<&C>)
        ensures
            r@.map_values(|c: &C| *c) == traits_holding(
                self.store().objects(),
                k,
                self.store().objects().len() as int,
            ),
    {
        self.forged_objects.get_all_trait_by_type(k)
    }

    /// Destroys the first entity named `name`; the children of its node become
    /// roots.
    pub fn destroy_forged_object(&mut self, name: &str) -> (r: Option<ForgedObject<C>>)
        ensures
            match first_index(old(self).store().objects(), named(name@)) {
                Some(i) => r matches Some(o) && o@ == old(self).store().objects()[i]
                    && final(self).store().objects() == old(self).store().objects().remove(i)
                    && final(self).store().ids() == old(self).store().ids().remove(i)
                    && final(self).store().nodes() == old(self).store().nodes().remove(i)
                    && final(self).store().graph() == detached(old(self).store().graph(), old(self).store().nodes()[i])
                    && final(self).store().retired() == old(self).store().retired().push(old(self).store().ids()[i]),
                None => r is None && final(self).store().same_as(&old(self).store()),
            },
            final(self).events() == old(self).events(),
            final(self).threads() == old(self).threads(),
    {
        self.forged_objects.destroy_forged_object(name)
    }

    /// Destroys the entity with id `id`; the children of its node become roots.
    pub fn destroy_forged_object_by_id(&mut self, id: u128) -> (r: Option<ForgedObject<C>>)
        ensures
            match id_index(old(self).store().ids(), id) {
                Some(i) => r matches Some(o) && o@ == old(self).store().objects()[i]
                    && final(self).store().objects() == old(self).store().objects().remove(i)
                    && final(self).store().ids() == old(self).store().ids().remove(i)
                    && final(self).store().nodes() == old(self).store().nodes().remove(i)
                    && final(self).store().graph() == detached(old(self).store().graph(), old(self).store().nodes()[i])
                    && final(self).store().retired() == old(self).store().retired().push(old(self).store().ids()[i]),
                None => r is None && final(self).store().same_as(&old(self).store()),
            },
            final(self).events() == old(self).events(),
            final(self).threads() == old(self).threads(),
    {
        self.forged_objects.destroy_forged_object_by_id(id)
    }

    /// The entity that owns component `c`, by the owner id that `c` reports.
    pub fn get_parent_forged_object(&self, c: &C) -> (r: Option<&ForgedObject<C>>)
        ensures
            crate::forged_store::owner_found(
                self.store().ids(),
                self.store().objects(),
                c.father(),
                crate::forged_store::found_view(r),
            ),
    {
        self.forged_objects.get_parent_forged_object(c)
    }

    /// The entity that owns component `c`, for change.
    pub fn get_mut_parent_forged_object(&mut self, c: &C) -> (r: Option<&mut ForgedObject<C>>)
        ensures
            final(self).store().ids() == old(self).store().ids(),
            final(self).store().nodes() == old(self).store().nodes(),
            final(self).store().graph() == old(self).store().graph(),
            match c.father() {
                Some(id) => match id_index(old(self).store().ids(), id) {
                    Some(i) => r matches Some(o) && o@ == old(self).store().objects()[i]
                        && final(self).store().objects() == old(self).store().objects().update(i, final(o)@),
                    None => r is None && final(self).store().objects() == old(self).store().objects(),
                },
                None => r is None && final(self).store().objects() == old(self).store().objects(),
            },
            final(self).events() == old(self).events(),
            final(self).threads() == old(self).threads(),
    {
        match c.get_father() {
            Some(id) => {
                self.forged_objects.get_mut_forged_object_by_id(id)
            },
            None => None,
        }
    }

    /// Moves the transform node of entity `child_id` under that of `parent_id`.
    pub fn set_transform_parent(&mut self, child_id: u128, parent_id: u128) -> (r: Result<(), LostLostLandsFaultForgedObject>)
        ensures
            final(self).store().objects() == old(self).store().objects(),
            final(self).store().ids() == old(self).store().ids(),
            final(self).store().nodes() == old(self).store().nodes(),
            id_index(old(self).store().ids(), child_id) is None ==> r == Err::<(), _>(
                LostLostLandsFaultForgedObject::ForgedObjectNotFound(child_id),
            ),
            id_index(old(self).store().ids(), child_id) is Some && id_index(old(self).store().ids(), parent_id) is None
                ==> r == Err::<(), _>(LostLostLandsFaultForgedObject::ForgedObjectNotFound(parent_id)),
            id_index(old(self).store().ids(), child_id) matches Some(c) ==> id_index(old(self).store().ids(), parent_id) matches Some(p)
                ==> ({
                let cn = old(self).store().nodes()[c];
                let pn = old(self).store().nodes()[p];
                &&& r is Err <==> reaches_up(old(self).store().graph(), pn, cn)
                &&& r is Err ==> r == Err::<(), _>(LostLostLandsFaultForgedObject::InvalidParentCycle)
                &&& r is Ok ==> final(self).store().graph() == reparented(old(self).store().graph(), cn, pn)
            }),
            r is Err ==> final(self).store().graph() == old(self).store().graph(),
            final(self).events() == old(self).events(),
            final(self).threads() == old(self).threads(),
    {
        self.forged_objects.set_transform_parent(child_id, parent_id)
    }

    /// The length of the last tick, in microseconds.
    pub fn get_delta_time(&self) -> (r: u64)
        ensures
            r == self.clock().delta(),
    {
        self.eonforge.get_delta_time()
    }

    /// The time accumulated since the world started, in microseconds.
    pub fn get_time_elapsed(&self) -> (r: u64)
        ensures
            r == self.clock().elapsed(),
    {
        self.eonforge.get_time_elapsed_since_start()
    }
}

} // verus!
