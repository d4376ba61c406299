use prime_forge::destiny_rift::{DestinyRift, DestinyRiftManager};
use prime_forge::eonforge::EonForge;
use prime_forge::forged_object::ForgedObject;
use prime_forge::forged_trait::{ArcaneWeft, ForgedHierarchy, ForgedTrait};
use prime_forge::lost_lands_fault::LostLostLandsFaultForgedObject;
use prime_forge::lost_realm::LostRealm;
use prime_forge::soul_thread::{
    EssenceAspect, SoulGenerator, SoulThread, SoulThreadManager, TemporalPause,
};
use prime_forge::transform::TransformGraph;
use prime_forge::EtherealFlow;

const HEALTH: u64 = 1;
const PLAYER: u64 = 2;
const SPAWNER: u64 = 3;
const COLLISION: u64 = 10;
const SCORE: u64 = 11;

#[derive(Debug, Clone, PartialEq)]
pub struct Health {
    pub health: i32,
    pub father: Option<u128>,
}

#[derive(Debug, Clone, PartialEq)]
pub struct Player {
    pub name: String,
    pub father: Option<u128>,
}

#[derive(Debug, Clone, PartialEq)]
pub enum Comp {
    Health(Health),
    Player(Player),
    Spawner(Option<u128>),
}

fn health(h: i32) -> Comp {
    Comp::Health(Health { health: h, father: None })
}

fn player(name: &str) -> Comp {
    Comp::Player(Player { name: name.to_string(), father: None })
}

#[derive(Debug, Clone, PartialEq)]
pub struct Collision(pub bool);

#[derive(Debug, Clone, PartialEq)]
pub enum Ev {
    Collision(Collision),
    Score(u32),
}

impl EtherealFlow for Ev {
    fn key(&self) -> u64 {
        self.kind()
    }

    fn kind(&self) -> u64 {
        match self {
            Ev::Collision(_) => COLLISION,
            Ev::Score(_) => SCORE,
        }
    }
}

impl DestinyRift for Ev {}

impl EtherealFlow for Comp {
    fn key(&self) -> u64 {
        self.kind()
    }

    fn kind(&self) -> u64 {
        match self {
            Comp::Health(_) => HEALTH,
            Comp::Player(_) => PLAYER,
            Comp::Spawner(_) => SPAWNER,
        }
    }
}

impl ForgedHierarchy for Comp {
    fn father(&self) -> Option<u128> {
        self.get_father()
    }

    fn set_father(&mut self, father_id: u128) {
        match self {
            Comp::Health(h) => h.father = Some(father_id),
            Comp::Player(p) => p.father = Some(father_id),
            Comp::Spawner(f) => *f = Some(father_id),
        }
    }

    fn get_father(&self) -> Option<u128> {
        match self {
            Comp::Health(h) => h.father,
            Comp::Player(p) => p.father,
            Comp::Spawner(f) => *f,
        }
    }
}

impl ForgedTrait for Comp {
    type Rift = Ev;

    fn start(&mut self, lost_realm: &mut LostRealm<Self>) {
        if let Comp::Spawner(_) = self {
            lost_realm
                .forge_new_object_with_id("Spawned", 900, vec![health(5)])
                .unwrap();
        }
    }

    fn update(&mut self, lost_realm: &mut LostRealm<Self>, _dt: u64) {
        match self {
            Comp::Health(h) => h.health -= 1,
            Comp::Player(_) => lost_realm.add_destiny_rift_event(Ev::Score(1)),
            Comp::Spawner(_) => {}
        }
    }
}

fn health_of(c: &Comp) -> i32 {
    match c {
        Comp::Health(h) => h.health,
        _ => panic!("not a health component"),
    }
}

fn id_of(realm: &LostRealm<Comp>, name: &str) -> u128 {
    let store = realm.forged_objects();
    let i = store.index_of_name(name).unwrap();
    store.id_at(i)
}

fn node_of(realm: &LostRealm<Comp>, name: &str) -> usize {
    let store = realm.forged_objects();
    let i = store.index_of_name(name).unwrap();
    store.node_at(i)
}

#[test]
fn duplicate_component_is_refused() {
    let mut realm: LostRealm<Comp> = LostRealm::new();
    let id = realm.forge_new_object_with_id("Forged", 1, vec![health(100)]).unwrap();
    let r = realm.forged_objects_mut().add_trait(id, health(50));
    assert_eq!(r, Err(LostLostLandsFaultForgedObject::TraitAlreadyExists(HEALTH)));
    let o = realm.get_forged_object("Forged").unwrap();
    assert_eq!(o.trait_count(), 1);
    assert_eq!(health_of(o.get_trait(HEALTH).unwrap()), 100);
    assert_eq!(realm.forged_objects_mut().add_trait(id, player("p")), Ok(()));
    assert_eq!(realm.get_forged_object("Forged").unwrap().trait_count(), 2);
}

#[test]
fn forge_refuses_repeated_kinds_and_taken_ids() {
    let mut realm: LostRealm<Comp> = LostRealm::new();
    let r = realm.forge_new_object_with_id("Twice", 7, vec![health(1), player("a"), health(2)]);
    assert_eq!(r, Err(LostLostLandsFaultForgedObject::TraitAlreadyExists(HEALTH)));
    assert_eq!(realm.forged_objects().len(), 0);
    assert_eq!(realm.forge_new_object_with_id("A", 7, vec![]), Ok(7));
    assert_eq!(
        realm.forge_new_object_with_id("B", 7, vec![]),
        Err(LostLostLandsFaultForgedObject::ForgedObjectIdTaken(7))
    );
    assert_eq!(realm.forged_objects().len(), 1);
}

#[test]
fn forged_object_keyed_components() {
    let mut o: ForgedObject<Comp> = ForgedObject::new("Solo".to_string());
    assert_eq!(o.add_trait_keyed(HEALTH, health(10)), Ok(()));
    assert_eq!(
        o.add_trait_keyed(HEALTH, health(20)),
        Err(LostLostLandsFaultForgedObject::TraitAlreadyExists(HEALTH))
    );
    assert_eq!(o.get_trait(PLAYER), Err(LostLostLandsFaultForgedObject::TraitNotFound(PLAYER)));
    if let Ok(Comp::Health(h)) = o.get_trait_mut(HEALTH) {
        h.health = 11;
    }
    assert_eq!(health_of(o.get_trait(HEALTH).unwrap()), 11);
    assert_eq!(o.remove_trait(PLAYER), Err(LostLostLandsFaultForgedObject::TraitNotFound(PLAYER)));
    assert_eq!(o.remove_trait(HEALTH), Ok(()));
    assert!(!o.has_trait(HEALTH));
    assert_eq!(o.trait_count(), 0);
}

#[test]
fn events_latest_signal_wins() {
    let mut bus: DestinyRiftManager<Ev> = DestinyRiftManager::new();
    bus.add_event(Ev::Score(1));
    bus.add_event(Ev::Score(2));
    bus.add_event(Ev::Score(3));
    assert_eq!(bus.consume_event(SCORE), Some(Ev::Score(3)));
    assert_eq!(bus.consume_event(SCORE), Some(Ev::Score(2)));
    assert_eq!(bus.consume_event(SCORE), Some(Ev::Score(1)));
    assert_eq!(bus.consume_event(SCORE), None);
    bus.remove_event();
    assert_eq!(bus.consume_event(SCORE), None);
    bus.add_event_keyed(SCORE, Ev::Score(4));
    assert_eq!(bus.consume_event(SCORE), Some(Ev::Score(4)));
}

#[test]
fn events_of_other_keys_are_kept() {
    let mut bus: DestinyRiftManager<Ev> = DestinyRiftManager::new();
    bus.add_event(Ev::Collision(Collision(false)));
    bus.add_event(Ev::Score(9));
    assert_eq!(bus.consume_event(SCORE), Some(Ev::Score(9)));
    bus.remove_event();
    assert_eq!(bus.consume_event(COLLISION), Some(Ev::Collision(Collision(false))));
    assert_eq!(bus.consume_event(99), None);
}

#[test]
fn collision_consumed_once() {
    let mut realm: LostRealm<Comp> = LostRealm::new();
    realm.add_destiny_rift_event(Ev::Collision(Collision(true)));
    let first = realm.consume_destiny_rift_event(COLLISION);
    assert_eq!(first, Some(Ev::Collision(Collision(true))));
    assert_eq!(realm.consume_destiny_rift_event(COLLISION), None);
}

struct Countdown {
    left: u32,
}

impl SoulGenerator for Countdown {
    fn next_aspect(&mut self) -> EssenceAspect {
        self.left -= 1;
        if self.left == 0 {
            EssenceAspect::Finished
        } else {
            EssenceAspect::Yielded(TemporalPause { amount_in_micros: 1_000_000 })
        }
    }
}

fn ticks_until_removed(step: u64) -> u64 {
    let mut manager = SoulThreadManager::new();
    manager.add_thread(SoulThread::new("Soul", Box::new(Countdown { left: 10 })));
    let mut elapsed: u64 = 0;
    while manager.len() > 0 {
        manager.update(step);
        elapsed += step;
        assert!(elapsed <= 20_000_000, "task never finished");
    }
    elapsed
}

#[test]
fn soul_thread_removed_after_whole_second_ticks() {
    let elapsed = ticks_until_removed(1_000_000);
    assert_eq!(elapsed, 10_000_000);
}

#[test]
fn soul_thread_removed_after_half_second_ticks() {
    let elapsed = ticks_until_removed(500_000);
    assert!(elapsed <= 10_000_000);
    assert_eq!(elapsed, 9_500_000);
}

#[test]
fn soul_thread_waits_before_resuming() {
    let mut t = SoulThread::new("w", Box::new(Countdown { left: 3 }));
    t.update(0);
    assert_eq!(t.state(), EssenceAspect::Running);
    t.update(400_000);
    t.update(400_000);
    t.update(199_999);
    assert_eq!(t.state(), EssenceAspect::Running);
    t.update(1);
    t.update(1_000_000);
    assert!(t.is_finished());
    let mut u = SoulThread::new("u", Box::new(Countdown { left: 3 }));
    assert_eq!(u.settle(EssenceAspect::Yielded(TemporalPause { amount_in_micros: 5 })), Some(TemporalPause { amount_in_micros: 5 }));
    assert_eq!(u.state(), EssenceAspect::Running);
    assert_eq!(u.settle(EssenceAspect::Finished), None);
    assert!(u.is_finished());
}

#[test]
fn stopped_threads_leave_on_next_update() {
    let mut realm: LostRealm<Comp> = LostRealm::new();
    realm.add_soul_thread(SoulThread::new("a", Box::new(Countdown { left: 100 })));
    realm.add_soul_thread(SoulThread::new("b", Box::new(Countdown { left: 100 })));
    let mut manager = SoulThreadManager::new();
    manager.add_thread(SoulThread::new("a", Box::new(Countdown { left: 100 })));
    manager.add_thread(SoulThread::new("b", Box::new(Countdown { left: 100 })));
    manager.stop_by_name("b");
    manager.update(1);
    assert_eq!(manager.len(), 1);
    manager.stop_all();
    manager.update(1);
    assert_eq!(manager.len(), 0);
    realm.stop_soul_thread_by_name("a");
    realm.stop_all_soul_threads();
    realm.update(1);
}

#[test]
fn clock_accumulates_deltas() {
    let mut clock = EonForge::new();
    clock.start();
    clock.update(16_666);
    clock.update(16_667);
    assert_eq!(clock.get_delta_time(), 16_667);
    assert_eq!(clock.get_time_elapsed_since_start(), 33_333);
    clock.update(u64::MAX);
    assert_eq!(clock.get_time_elapsed_since_start(), u64::MAX);
    let mut realm: LostRealm<Comp> = LostRealm::new();
    realm.start();
    realm.update(250);
    assert_eq!(realm.get_delta_time(), 250);
    assert_eq!(realm.get_time_elapsed(), 250);
}

fn world_matrix(
    graph: &TransformGraph,
    positions: &[nalgebra_glm::Vec3],
    root: usize,
) -> Vec<nalgebra_glm::Mat4> {
    let mut world = vec![nalgebra_glm::Mat4::identity(); graph.len()];
    let order = graph.recompute_order(root);
    for &n in order.iter() {
        let local = nalgebra_glm::translate(&nalgebra_glm::Mat4::identity(), &positions[n]);
        world[n] = match graph.node(n).get_parent() {
            Some(p) => world[p] * local,
            None => local,
        };
    }
    world
}

#[test]
fn transform_parenting_combines_translation() {
    let mut realm: LostRealm<Comp> = LostRealm::new();
    let forged1 = realm.forge_new_object_with_id("Forged1", 1, vec![health(100)]).unwrap();
    let forged = realm
        .forge_new_object_with_id("Forged", 2, vec![player("Player"), health(100)])
        .unwrap();
    assert_eq!(realm.set_transform_parent(forged1, forged), Ok(()));
    let graph = realm.forged_objects().transforms();
    let mut positions = vec![nalgebra_glm::vec3(0.0, 0.0, 0.0); graph.len()];
    positions[node_of(&realm, "Forged")] += nalgebra_glm::vec3(1.0, 0.0, 0.0);
    let world = world_matrix(graph, &positions, node_of(&realm, "Forged"));
    let child = world[node_of(&realm, "Forged1")];
    assert_eq!(child[(0, 3)], 1.0);
    assert_eq!(child[(1, 3)], 0.0);
    assert_eq!(child[(2, 3)], 0.0);
    let order = realm.forged_objects().transform_order(forged).unwrap();
    assert_eq!(order, vec![node_of(&realm, "Forged"), node_of(&realm, "Forged1")]);
}

#[test]
fn reparenting_moves_between_child_lists() {
    let mut g = TransformGraph::new();
    let a = g.add_node();
    let b = g.add_node();
    let c = g.add_node();
    assert_eq!(g.set_hierarchy(a, c), Ok(()));
    assert_eq!(g.node(a).get_children(), vec![c]);
    assert_eq!(g.set_hierarchy(b, c), Ok(()));
    assert_eq!(g.node(a).get_children(), Vec::<usize>::new());
    assert_eq!(g.node(b).get_children(), vec![c]);
    assert_eq!(g.node(c).get_parent(), Some(b));
    assert_eq!(g.set_hierarchy(c, b), Err(LostLostLandsFaultForgedObject::InvalidParentCycle));
    assert_eq!(g.set_hierarchy(b, b), Err(LostLostLandsFaultForgedObject::InvalidParentCycle));
    assert!(g.reaches(c, b));
    assert!(!g.reaches(b, c));
    assert_eq!(g.set_hierarchy(a, b), Ok(()));
    assert_eq!(g.recompute_order(a), vec![a, b, c]);
    assert_eq!(g.recompute_order(c), vec![c]);
}

#[test]
fn destroying_an_entity_orphans_its_children() {
    let mut realm: LostRealm<Comp> = LostRealm::new();
    let parent = realm.forge_new_object_with_id("Parent", 1, vec![health(1)]).unwrap();
    let child = realm.forge_new_object_with_id("Child", 2, vec![health(2)]).unwrap();
    let grandchild = realm.forge_new_object_with_id("Grandchild", 3, vec![]).unwrap();
    assert_eq!(realm.set_transform_parent(child, parent), Ok(()));
    assert_eq!(realm.set_transform_parent(grandchild, child), Ok(()));
    let child_node = node_of(&realm, "Child");
    let grandchild_node = node_of(&realm, "Grandchild");
    let nodes_before = realm.forged_objects().transforms().len();
    let gone = realm.destroy_forged_object_by_id(parent).unwrap();
    assert_eq!(gone.name(), "Parent");
    let graph = realm.forged_objects().transforms();
    assert_eq!(graph.len(), nodes_before);
    assert_eq!(graph.node(child_node).get_parent(), None);
    assert_eq!(graph.node(child_node).get_children(), vec![grandchild_node]);
    assert_eq!(graph.node(grandchild_node).get_parent(), Some(child_node));
    assert!(realm.get_forged_object("Child").is_some());
    assert!(realm.get_forged_object("Parent").is_none());
    assert!(realm.destroy_forged_object_by_id(parent).is_none());
}

#[test]
fn lookups_by_name_type_and_owner() {
    let mut realm: LostRealm<Comp> = LostRealm::new();
    realm.forge_new_object_with_id("Twin", 1, vec![player("first")]).unwrap();
    realm.forge_new_object_with_id("Twin", 2, vec![health(30), player("second")]).unwrap();
    realm.forge_new_object_with_id("Lone", 3, vec![health(40)]).unwrap();
    assert_eq!(id_of(&realm, "Twin"), 1);
    let first = realm.get_forged_object_by_trait(HEALTH).unwrap();
    assert_eq!(first.get_trait(PLAYER), Ok(&player("second").with_father(2)));
    assert_eq!(health_of(realm.get_trait_by_type(HEALTH).unwrap()), 30);
    let all: Vec<i32> = realm.get_all_trait_by_type(HEALTH).into_iter().map(health_of).collect();
    assert_eq!(all, vec![30, 40]);
    assert_eq!(realm.get_all_forged_objects_by_trait(PLAYER).len(), 2);
    assert_eq!(realm.forged_objects().ids_by_trait(HEALTH), vec![2, 3]);
    if let Some(Comp::Health(h)) = realm.get_mut_trait_by_type(HEALTH) {
        h.health += 100;
    }
    assert_eq!(health_of(realm.get_trait_by_type(HEALTH).unwrap()), 130);
    if let Ok(Comp::Health(h)) = realm.forged_objects_mut().get_mut_trait_of(3, HEALTH) {
        h.health = 1;
    }
    assert_eq!(realm.get_all_trait_by_type(HEALTH).into_iter().map(health_of).collect::<Vec<_>>(), vec![130, 1]);
    let lone_health = realm.forged_objects().get_forged_object_by_id(3).unwrap().get_trait(HEALTH).unwrap().clone();
    let owner = realm.get_parent_forged_object(&lone_health).unwrap();
    assert_eq!(owner.name(), "Lone");
    assert!(realm.get_parent_forged_object(&health(0)).is_none());
    if let Some(o) = realm.get_mut_forged_object("Lone") {
        o.set_name("Renamed".to_string());
    }
    assert!(realm.get_forged_object("Renamed").is_some());
    assert_eq!(realm.destroy_forged_object("Twin").map(|o| o.trait_count()), Some(1));
    assert_eq!(id_of(&realm, "Twin"), 2);
    assert_eq!(
        realm.forged_objects_mut().remove_trait_of(2, PLAYER),
        Ok(())
    );
    assert_eq!(
        realm.forged_objects_mut().remove_trait_of(2, PLAYER),
        Err(LostLostLandsFaultForgedObject::TraitNotFound(PLAYER))
    );
    assert_eq!(
        realm.set_transform_parent(2, 77),
        Err(LostLostLandsFaultForgedObject::ForgedObjectNotFound(77))
    );
}

trait WithFather {
    fn with_father(self, id: u128) -> Self;
}

impl WithFather for Comp {
    fn with_father(mut self, id: u128) -> Self {
        self.set_father(id);
        self
    }
}

#[test]
fn hooks_run_in_order_and_tolerate_spawning() {
    let mut realm: LostRealm<Comp> = LostRealm::new();
    realm
        .forge_new_object_with_id("Hero", 1, vec![Comp::Spawner(None), health(3), player("hero")])
        .unwrap();
    realm.start();
    assert!(realm.get_forged_object("Spawned").is_some());
    realm.update(10);
    realm.update(10);
    let hero = realm.get_forged_object("Hero").unwrap();
    assert_eq!(health_of(hero.get_trait(HEALTH).unwrap()), 1);
    assert_eq!(hero.trait_count(), 3);
    assert_eq!(realm.consume_destiny_rift_event(SCORE), Some(Ev::Score(1)));
    assert_eq!(realm.consume_destiny_rift_event(SCORE), Some(Ev::Score(1)));
    assert_eq!(realm.consume_destiny_rift_event(SCORE), None);
    let spawned = realm.get_forged_object("Spawned").unwrap();
    assert_eq!(health_of(spawned.get_trait(HEALTH).unwrap()), 3);
}

struct Seed;

impl ArcaneWeft<Comp> for Seed {
    fn craft(self, lost_realm: &mut LostRealm<Comp>) {
        lost_realm.add_destiny_rift_event(Ev::Collision(Collision(true)));
        lost_realm
            .forge_new_object_with_id("Player", 5, vec![player("p"), health(10)])
            .unwrap();
    }
}

#[test]
fn initializer_seeds_the_world() {
    let mut realm: LostRealm<Comp> = LostRealm::new();
    realm.arcane_weft_craft(Seed);
    assert!(realm.get_forged_object("Player").is_some());
    assert_eq!(realm.consume_destiny_rift_event(COLLISION), Some(Ev::Collision(Collision(true))));
}

#[test]
fn random_ids_are_version_four() {
    let mut realm: LostRealm<Comp> = LostRealm::new();
    let a = realm.forge_new_object("A", vec![health(1)]).unwrap();
    let b = realm.forge_new_object("B", vec![]).unwrap();
    assert_ne!(a, b);
    assert_eq!((a >> 76) & 0xF, 4);
    assert_eq!((b >> 62) & 0x3, 2);
    assert_eq!(id_of(&realm, "A"), a);
}

#[test]
fn destroyed_ids_are_not_reused() {
    let mut realm: LostRealm<Comp> = LostRealm::new();
    assert_eq!(realm.forge_new_object_with_id("Gone", 42, vec![health(1)]), Ok(42));
    assert!(realm.destroy_forged_object("Gone").is_some());
    assert_eq!(
        realm.forge_new_object_with_id("Again", 42, vec![]),
        Err(LostLostLandsFaultForgedObject::ForgedObjectIdTaken(42))
    );
    assert!(realm.get_forged_object("Again").is_none());
}

#[test]
fn every_component_of_a_type_can_be_changed() {
    let mut realm: LostRealm<Comp> = LostRealm::new();
    realm.forge_new_object_with_id("A", 1, vec![health(10)]).unwrap();
    realm.forge_new_object_with_id("B", 2, vec![player("b")]).unwrap();
    realm.forge_new_object_with_id("C", 3, vec![health(20)]).unwrap();
    let ids = realm.ids_by_trait(HEALTH);
    assert_eq!(ids, vec![1, 3]);
    for id in ids {
        if let Ok(Comp::Health(h)) = realm.get_mut_trait_of(id, HEALTH) {
            h.health *= 2;
        }
    }
    let all: Vec<i32> = realm.get_all_trait_by_type(HEALTH).into_iter().map(health_of).collect();
    assert_eq!(all, vec![20, 40]);
    assert_eq!(
        realm.get_mut_trait_of(2, HEALTH).map(|_| ()),
        Err(LostLostLandsFaultForgedObject::TraitNotFound(HEALTH))
    );
}

#[test]
fn components_know_their_owner() {
    let mut realm: LostRealm<Comp> = LostRealm::new();
    realm.forge_new_object_with_id("Owner", 8, vec![health(1), player("o")]).unwrap();
    let o = realm.get_forged_object("Owner").unwrap();
    assert_eq!(o.get_trait(HEALTH).unwrap().get_father(), Some(8));
    assert_eq!(o.get_trait(PLAYER).unwrap().get_father(), Some(8));
    let p = realm.get_trait_by_type(PLAYER).unwrap().clone();
    if let Some(owner) = realm.get_mut_parent_forged_object(&p) {
        owner.set_name("Owned".to_string());
    }
    assert!(realm.get_forged_object("Owned").is_some());
}
