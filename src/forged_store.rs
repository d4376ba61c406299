use vstd::prelude::*;

use crate::forged_object::{
    kind_index, object_ok, with_trait_at, without_trait_at, ForgedObject, ForgedObjectView,
};
use crate::forged_trait::ForgedHierarchy;
use crate::lost_lands_fault::LostLostLandsFaultForgedObject;
use crate::{same_text, EtherealFlow};
use crate::transform::{detached, edges_consistent, reaches_up, reparented, TransformGraph, TransformNodeView};

verus! {

/// The store's invariant over its parallel lists: one id and one node per
/// entity, no id or node used twice, every node in the graph.
pub open spec fn store_ok(ids: Seq<u128>, nodes: Seq<usize>, count: nat, graph_len: nat) -> bool {
    &&& ids.len() == count
    &&& nodes.len() == count
    &&& ids.no_duplicates()
    &&& nodes.no_duplicates()
    &&& forall|i: int| 0 <= i < nodes.len() ==> #[trigger] nodes[i] < graph_len
}

/// No entity holds a component, so no hook has anything to run.
pub open spec fn no_components<C>(objs: Seq<ForgedObjectView<C>>) -> bool {
    forall|i: int| 0 <= i < objs.len() ==> (#[trigger] objs[i]).traits.len() == 0
}

/// The position of the first entity that satisfies `p`.
pub open spec fn first_index<C>(objs: Seq<ForgedObjectView<C>>, p: spec_fn(ForgedObjectView<C>) -> bool) -> Option<int> {
    if exists|i: int| 0 <= i < objs.len() && p(objs[i]) {
        Some(choose|i: int| 0 <= i < objs.len() && p(objs[i]) && forall|j: int| 0 <= j < i ==> !p(objs[j]))
    } else {
        None
    }
}

/// Entities named `name`.
pub open spec fn named<C>(name: Seq<char>) -> spec_fn(ForgedObjectView<C>) -> bool {
    |o: ForgedObjectView<C>| o.name == name
}

/// Entities that hold a component of type key `k`.
pub open spec fn holding<C>(k: u64) -> spec_fn(ForgedObjectView<C>) -> bool {
    |o: ForgedObjectView<C>| o.kinds.contains(k)
}

/// The component of key `k` of an entity that holds one.
pub open spec fn trait_of<C>(o: ForgedObjectView<C>, k: u64) -> C {
    o.traits[kind_index(o.kinds, k).unwrap()]
}

/// The position of the entity with id `id`.
pub open spec fn id_index(ids: Seq<u128>, id: u128) -> Option<int> {
    if ids.contains(id) {
        Some(choose|i: int| 0 <= i < ids.len() && ids[i] == id)
    } else {
        None
    }
}

/// The ids of the first `n` entities that hold a component of key `k`, in order.
pub open spec fn ids_holding<C>(ids: Seq<u128>, objs: Seq<ForgedObjectView<C>>, k: u64, n: int) -> Seq<u128>
    decreases n,
{
    if n <= 0 {
        Seq::empty()
    } else {
        let prev = ids_holding(ids, objs, k, n - 1);
        if objs[n - 1].kinds.contains(k) {
            prev.push(ids[n - 1])
        } else {
            prev
        }
    }
}

/// The first `n` entities that hold a component of key `k`, in order.
pub open spec fn objects_holding<C>(objs: Seq<ForgedObjectView<C>>, k: u64, n: int) -> Seq<ForgedObjectView<C>>
    decreases n,
{
    if n <= 0 {
        Seq::empty()
    } else {
        let prev = objects_holding(objs, k, n - 1);
        if objs[n - 1].kinds.contains(k) {
            prev.push(objs[n - 1])
        } else {
            prev
        }
    }
}

/// The components of key `k` of the first `n` entities that hold one, in order.
pub open spec fn traits_holding<C>(objs: Seq<ForgedObjectView<C>>, k: u64, n: int) -> Seq<C>
    decreases n,
{
    if n <= 0 {
        Seq::empty()
    } else {
        let prev = traits_holding(objs, k, n - 1);
        if objs[n - 1].kinds.contains(k) {
            prev.push(trait_of(objs[n - 1], k))
        } else {
            prev
        }
    }
}

/// `found` is what a lookup by the owner id `father` gives: the entity with
/// that id, or nothing when there is no id or no such entity.
pub open spec fn owner_found<C>(
    ids: Seq<u128>,
    objs: Seq<ForgedObjectView<C>>,
    father: Option<u128>,
    found: Option<ForgedObjectView<C>>,
) -> bool {
    match father {
        Some(id) => match id_index(ids, id) {
            Some(i) => found == Some(objs[i]),
            None => found is None,
        },
        None => found is None,
    }
}

/// The entity a lookup found, as the contracts see it.
pub open spec fn found_view<C>(r: Option<&ForgedObject<C>>) -> Option<ForgedObjectView<C>> {
    match r {
        Some(o) => Some(o@),
        None => None,
    }
}

proof fn lemma_first_index<C>(objs: Seq<ForgedObjectView<C>>, p: spec_fn(ForgedObjectView<C>) -> bool, i: int)
    requires
        0 <= i < objs.len(),
        p(objs[i]),
        forall|j: int| 0 <= j < i ==> !p(objs[j]),
    ensures
        first_index(objs, p) == Some(i),
{
    let c = choose|c: int| 0 <= c < objs.len() && p(objs[c]) && forall|j: int| 0 <= j < c ==> !p(objs[j]);
    assert(c == i) by {
        if c < i {
            assert(!p(objs[c]));
        } else if c > i {
            assert(!p(objs[i]));
        }
    }
}

proof fn lemma_id_index(ids: Seq<u128>, i: int)
    requires
        ids.no_duplicates(),
        0 <= i < ids.len(),
    ensures
        id_index(ids, ids[i]) == Some(i),
{
    assert(ids.contains(ids[i]));
}

proof fn lemma_remove_no_dup<T>(s: Seq<T>, i: int)
    requires
        s.no_duplicates(),
        0 <= i < s.len(),
    ensures
        s.remove(i).no_duplicates(),
        forall|x: T| s.remove(i).contains(x) ==> s.contains(x),
{
    let r = s.remove(i);
    assert forall|a: int, b: int| 0 <= a < b < r.len() implies r[a] != r[b] by {
        let a0 = if a < i { a } else { a + 1 };
        let b0 = if b < i { b } else { b + 1 };
        assert(r[a] == s[a0]);
        assert(r[b] == s[b0]);
    }
    assert forall|x: T| r.contains(x) implies s.contains(x) by {
        let a = choose|a: int| 0 <= a < r.len() && r[a] == x;
        let a0 = if a < i { a } else { a + 1 };
        assert(s[a0] == x);
    }
}

spec fn objects_view<C>(v: Seq<ForgedObject<C>>) -> Seq<ForgedObjectView<C>> {
    v.map_values(|o: ForgedObject<C>| o@)
}

/// The entity store: the entities in insertion order, beside them their ids
/// and transform nodes, and the transform graph that holds the nodes.
pub struct ForgedStore<C> {
    forged_objects: Vec<ForgedObject<C>>,
    ids: Vec<u128>,
    nodes: Vec<usize>,
    transforms: TransformGraph,
    retired: Vec<u128>,
}

impl<C> ForgedStore<C> {
    /// The entities, in insertion order.
    pub closed spec fn objects(&self) -> Seq<ForgedObjectView<C>> {
        objects_view(self.forged_objects@)
    }

    /// The id of each entity.
    pub closed spec fn ids(&self) -> Seq<u128> {
        self.ids@
    }

    /// The transform node of each entity.
    pub closed spec fn nodes(&self) -> Seq<usize> {
        self.nodes@
    }

    /// The transform graph.
    pub closed spec fn graph(&self) -> Seq<TransformNodeView> {
        self.transforms@
    }

    /// The ids of destroyed entities, never handed out again.
    pub closed spec fn retired(&self) -> Seq<u128> {
        self.retired@
    }

    /// Whether `id` names a live or a destroyed entity.
    pub open spec fn id_used(&self, id: u128) -> bool {
        self.ids().contains(id) || self.retired().contains(id)
    }

    #[verifier::type_invariant]
    spec fn store_wf(&self) -> bool {
        store_ok(self.ids@, self.nodes@, self.forged_objects@.len(), self.transforms@.len())
    }

    /// An empty store.
    pub fn new() -> (r: Self)
        ensures
            r.objects() == Seq::<ForgedObjectView<C>>::empty(),
            r.ids() == Seq::<u128>::empty(),
            r.nodes() == Seq::<usize>::empty(),
            r.graph() == Seq::<TransformNodeView>::empty(),
            r.retired() == Seq::<u128>::empty(),
    {
        let forged_objects: Vec<ForgedObject<C>> = Vec::new();
        assert(objects_view(forged_objects@) =~= Seq::<ForgedObjectView<C>>::empty());
        ForgedStore {
            forged_objects,
            ids: Vec::new(),
            nodes: Vec::new(),
            transforms: TransformGraph::new(),
            retired: Vec::new(),
        }
    }

    /// The number of entities.
    pub fn len(&self) -> (r: usize)
        ensures
            r == self.objects().len(),
            store_ok(self.ids(), self.nodes(), self.objects().len(), self.graph().len()),
    {
        proof { use_type_invariant(self); }
        self.forged_objects.len()
    }

    /// The entity at position `i`.
    pub fn object_at(&self, i: usize) -> (r: &ForgedObject<C>)
        requires
            i < self.objects().len(),
        ensures
            r@ == self.objects()[i as int],
            object_ok(r@),
    {
        let r = &self.forged_objects[i];
        proof { use_type_invariant(r); }
        r
    }

    /// The id of the entity at position `i`.
    pub fn id_at(&self, i: usize) -> (r: u128)
        requires
            i < self.objects().len(),
        ensures
            r == self.ids()[i as int],
    {
        proof { use_type_invariant(self); }
        self.ids[i]
    }

    /// The transform node of the entity at position `i`.
    pub fn node_at(&self, i: usize) -> (r: usize)
        requires
            i < self.objects().len(),
        ensures
            r == self.nodes()[i as int],
            r < self.graph().len(),
    {
        proof { use_type_invariant(self); }
        self.nodes[i]
    }

    /// The transform graph.
    pub fn transforms(&self) -> (r: &TransformGraph)
        ensures
            r@ == self.graph(),
            edges_consistent(self.graph()),
    {
        let _ = self.transforms.len();
        &self.transforms
    }

    /// The position of the entity with id `id`.
    pub fn index_of_id(&self, id: u128) -> (r: Option<usize>)
        ensures
            r matches Some(i) ==> i < self.objects().len() && id_index(self.ids(), id) == Some(i as int)
                && self.ids()[i as int] == id,
            r is None ==> id_index(self.ids(), id) is None,
    {
        proof { use_type_invariant(self); }
        let mut i: usize = 0;
        while i < self.ids.len()
            invariant
                store_ok(self.ids@, self.nodes@, self.forged_objects@.len(), self.transforms@.len()),
                i <= self.ids@.len(),
                forall|j: int| 0 <= j < i ==> self.ids@[j] != id,
            decreases self.ids@.len() - i,
        {
            if self.ids[i] == id {
                proof { lemma_id_index(self.ids@, i as int); }
                return Some(i);
            }
            i += 1;
        }
        None
    }

    /// The position of the first entity named `name`: names need not be
    /// unique, and the first match wins.
    pub fn index_of_name(&self, name: &str) -> (r: Option<usize>)
        ensures
            r matches Some(i) ==> i < self.objects().len() && first_index(self.objects(), named(name@)) == Some(i as int)
                && self.objects()[i as int].name == name@,
            r is None ==> first_index(self.objects(), named(name@)) is None,
    {
        let ghost objs = self.objects();
        let mut i: usize = 0;
        while i < self.forged_objects.len()
            invariant
                objs == self.objects(),
                i <= objs.len(),
                forall|j: int| 0 <= j < i ==> !named(name@)(objs[j]),
            decreases objs.len() - i,
        {
            if same_text(self.forged_objects[i].name().as_str(), name) {
                proof { lemma_first_index(objs, named(name@), i as int); }
                return Some(i);
            }
            i += 1;
        }
        None
    }

    /// The position of the first entity that holds a component of key `k`.
    pub fn index_of_kind(&self, k: u64) -> (r: Option<usize>)
        ensures
            r matches Some(i) ==> i < self.objects().len() && first_index(self.objects(), holding(k)) == Some(i as int)
                && self.objects()[i as int].kinds.contains(k),
            r is None ==> first_index(self.objects(), holding(k)) is None,
    {
        let ghost objs = self.objects();
        let mut i: usize = 0;
        while i < self.forged_objects.len()
            invariant
                objs == self.objects(),
                i <= objs.len(),
                forall|j: int| 0 <= j < i ==> !holding(k)(objs[j]),
            decreases objs.len() - i,
        {
            if self.forged_objects[i].has_trait(k) {
                proof { lemma_first_index(objs, holding(k), i as int); }
                return Some(i);
            }
            i += 1;
        }
        None
    }
    /// The first entity named `name`.
    pub fn get_forged_object(&self, name: &str) -> (r: Option<&ForgedObject<C>>)
        ensures
            match first_index(self.objects(), named(name@)) {
                Some(i) => r matches Some(o) && o@ == self.objects()[i],
                None => r is None,
            },
    {
        match self.index_of_name(name) {
            Some(i) => Some(&self.forged_objects[i]),
            None => None,
        }
    }

    /// The first entity named `name`, for change. Only that entity can change
    /// through the reference; its id and node stay.
    pub fn get_mut_forged_object(&mut self, name: &str) -> (r: Option<&mut ForgedObject<C>>)
        ensures
            final(self).ids() == old(self).ids(),
            final(self).nodes() == old(self).nodes(),
            final(self).graph() == old(self).graph(),
            final(self).retired() == old(self).retired(),
            match first_index(old(self).objects(), named(name@)) {
                Some(i) => r matches Some(o) && o@ == old(self).objects()[i]
                    && final(self).objects() == old(self).objects().update(i, final(o)@),
                None => r is None && final(self).objects() == old(self).objects(),
            },
    {
        proof { use_type_invariant(&*self); }
        match self.index_of_name(name) {
            Some(i) => {
                let r = &mut self.forged_objects[i];
                Some(r)
            },
            None => None,
        }
    }

    /// The entity with id `id`.
    pub fn get_forged_object_by_id(&self, id: u128) -> (r: Option<&ForgedObject<C>>)
        ensures
            match id_index(self.ids(), id) {
                Some(i) => r matches Some(o) && o@ == self.objects()[i],
                None => r is None,
            },
    {
        match self.index_of_id(id) {
            Some(i) => Some(&self.forged_objects[i]),
            None => None,
        }
    }

    /// The entity with id `id`, for change.
    pub fn get_mut_forged_object_by_id(&mut self, id: u128) -> (r: Option<&mut ForgedObject<C>>)
        ensures
            old(self).ids().len() == old(self).objects().len(),
            final(self).ids() == old(self).ids(),
            final(self).nodes() == old(self).nodes(),
            final(self).graph() == old(self).graph(),
            final(self).retired() == old(self).retired(),
            match id_index(old(self).ids(), id) {
                Some(i) => r matches Some(o) && o@ == old(self).objects()[i]
                    && final(self).objects() == old(self).objects().update(i, final(o)@),
                None => r is None && final(self).objects() == old(self).objects(),
            },
    {
        proof { use_type_invariant(&*self); }
        match self.index_of_id(id) {
            Some(i) => {
                let r = &mut self.forged_objects[i];
                Some(r)
            },
            None => None,
        }
    }

    /// The first entity that holds a component of key `k`.
    pub fn get_forged_object_by_trait(&self, k: u64) -> (r: Option<&ForgedObject<C>>)
        ensures
            match first_index(self.objects(), holding(k)) {
                Some(i) => r matches Some(o) && o@ == self.objects()[i],
                None => r is None,
            },
    {
        match self.index_of_kind(k) {
            Some(i) => Some(&self.forged_objects[i]),
            None => None,
        }
    }

    /// The component of key `k` on the first entity that holds one.
    pub fn get_trait_by_type(&self, k: u64) -> (r: Option<&C>)
        ensures
            match first_index(self.objects(), holding(k)) {
                Some(i) => r == Some(&trait_of(self.objects()[i], k)),
                None => r is None,
            },
    {
        match self.index_of_kind(k) {
            Some(i) => match self.forged_objects[i].get_trait(k) {
                Ok(c) => Some(c),
                Err(_) => None,
            },
            None => None,
        }
    }

    /// The component of key `k` on the first entity that holds one, for change.
    /// Only that component can change through the reference.
    pub fn get_mut_trait_by_type(&mut self, k: u64) -> (r: Option<&mut C>)
        ensures
            final(self).ids() == old(self).ids(),
            final(self).nodes() == old(self).nodes(),
            final(self).graph() == old(self).graph(),
            final(self).retired() == old(self).retired(),
            match first_index(old(self).objects(), holding(k)) {
                Some(i) => r matches Some(c) && *c == trait_of(old(self).objects()[i], k)
                    && final(self).objects() == old(self).objects().update(
                        i,
                        ForgedObjectView {
                            traits: old(self).objects()[i].traits.update(
                                kind_index(old(self).objects()[i].kinds, k).unwrap(),
                                *final(c),
                            ),
                            ..old(self).objects()[i]
                        },
                    ),
                None => r is None && final(self).objects() == old(self).objects(),
            },
    {
        proof { use_type_invariant(&*self); }
        match self.index_of_kind(k) {
            Some(i) => {
                let o = &mut self.forged_objects[i];
                match o.get_trait_mut(k) {
                    Ok(c) => Some(c),
                    Err(_) => None,
                }
            },
            None => None,
        }
    }

    /// The component of key `k` on the entity with id `id`, for change.
    pub fn get_mut_trait_of(&mut self, id: u128, k: u64) -> (r: Result<&mut C, LostLostLandsFaultForgedObject>)
        ensures
            final(self).ids() == old(self).ids(),
            final(self).nodes() == old(self).nodes(),
            final(self).graph() == old(self).graph(),
            final(self).retired() == old(self).retired(),
            match id_index(old(self).ids(), id) {
                Some(i) => match kind_index(old(self).objects()[i].kinds, k) {
                    Some(j) => r matches Ok(c) && *c == old(self).objects()[i].traits[j]
                        && final(self).objects() == old(self).objects().update(
                            i,
                            ForgedObjectView {
                                traits: old(self).objects()[i].traits.update(j, *final(c)),
                                ..old(self).objects()[i]
                            },
                        ),
                    None => r == Err::<&mut C, _>(LostLostLandsFaultForgedObject::TraitNotFound(k))
                        && final(self).objects() == old(self).objects(),
                },
                None => r == Err::<&mut C, _>(LostLostLandsFaultForgedObject::ForgedObjectNotFound(id))
                    && final(self).objects() == old(self).objects(),
            },
    {
        proof { use_type_invariant(&*self); }
        match self.index_of_id(id) {
            Some(i) => {
                let o = &mut self.forged_objects[i];
                o.get_trait_mut(k)
            },
            None => Err(LostLostLandsFaultForgedObject::ForgedObjectNotFound(id)),
        }
    }

    /// Removes the component of key `k` from the entity with id `id`.
    pub fn remove_trait_of(&mut self, id: u128, k: u64) -> (r: Result<(), LostLostLandsFaultForgedObject>)
        ensures
            final(self).ids() == old(self).ids(),
            final(self).nodes() == old(self).nodes(),
            final(self).graph() == old(self).graph(),
            final(self).retired() == old(self).retired(),
            match id_index(old(self).ids(), id) {
                Some(i) => match kind_index(old(self).objects()[i].kinds, k) {
                    Some(j) => r is Ok && final(self).objects() == old(self).objects().update(
                        i,
                        without_trait_at(old(self).objects()[i], j),
                    ),
                    None => r == Err::<(), _>(LostLostLandsFaultForgedObject::TraitNotFound(k))
                        && final(self).objects() == old(self).objects(),
                },
                None => r == Err::<(), _>(LostLostLandsFaultForgedObject::ForgedObjectNotFound(id))
                    && final(self).objects() == old(self).objects(),
            },
    {
        proof { use_type_invariant(&*self); }
        match self.index_of_id(id) {
            Some(i) => {
                let o = &mut self.forged_objects[i];
                o.remove_trait(k)
            },
            None => Err(LostLostLandsFaultForgedObject::ForgedObjectNotFound(id)),
        }
    }
    /// Whether `other` holds the same entities, ids, nodes and graph.
    pub open spec fn same_as(&self, other: &Self) -> bool {
        &&& self.objects() == other.objects()
        &&& self.ids() == other.ids()
        &&& self.nodes() == other.nodes()
        &&& self.graph() == other.graph()
        &&& self.retired() == other.retired()
    }

    fn remove_at(&mut self, i: usize) -> (r: ForgedObject<C>)
        requires
            i < old(self).objects().len(),
        ensures
            r@ == old(self).objects()[i as int],
            final(self).objects() == old(self).objects().remove(i as int),
            final(self).ids() == old(self).ids().remove(i as int),
            final(self).nodes() == old(self).nodes().remove(i as int),
            final(self).graph() == detached(old(self).graph(), old(self).nodes()[i as int]),
            final(self).retired() == old(self).retired().push(old(self).ids()[i as int]),
    {
        proof { use_type_invariant(&*self); }
        let mut taken = ForgedStore::new();
        std::mem::swap(&mut taken, self);
        let ForgedStore { mut forged_objects, mut ids, mut nodes, mut transforms, mut retired } = taken;
        let ghost objs0 = forged_objects@;
        let ghost ids0 = ids@;
        let ghost nodes0 = nodes@;
        let o = forged_objects.remove(i);
        let gone = ids.remove(i);
        retired.push(gone);
        let n = nodes.remove(i);
        transforms.detach(n);
        proof {
            lemma_remove_no_dup(ids0, i as int);
            lemma_remove_no_dup(nodes0, i as int);
            assert forall|j: int| 0 <= j < nodes@.len() implies #[trigger] nodes@[j] < transforms@.len() by {
                assert(nodes0.remove(i as int).contains(nodes@[j]));
                let a = choose|a: int| 0 <= a < nodes0.len() && nodes0[a] == nodes@[j];
                assert(nodes0[a] < transforms@.len());
            }
            assert(objects_view(forged_objects@) =~= objects_view(objs0).remove(i as int));
        }
        *self = ForgedStore { forged_objects, ids, nodes, transforms, retired };
        o
    }

    /// Destroys the first entity named `name` and hands it back. Its node is
    /// cut out of the graph; the children of the node become roots.
    pub fn destroy_forged_object(&mut self, name: &str) -> (r: Option<ForgedObject<C>>)
        ensures
            match first_index(old(self).objects(), named(name@)) {
                Some(i) => r matches Some(o) && o@ == old(self).objects()[i]
                    && final(self).objects() == old(self).objects().remove(i)
                    && final(self).ids() == old(self).ids().remove(i)
                    && final(self).nodes() == old(self).nodes().remove(i)
                    && final(self).graph() == detached(old(self).graph(), old(self).nodes()[i])
                    && final(self).retired() == old(self).retired().push(old(self).ids()[i]),
                None => r is None && final(self).same_as(old(self)),
            },
    {
        match self.index_of_name(name) {
            Some(i) => Some(self.remove_at(i)),
            None => None,
        }
    }

    /// Destroys the entity with id `id` and hands it back. Its node is cut out
    /// of the graph; the children of the node become roots.
    pub fn destroy_forged_object_by_id(&mut self, id: u128) -> (r: Option<ForgedObject<C>>)
        ensures
            match id_index(old(self).ids(), id) {
                Some(i) => r matches Some(o) && o@ == old(self).objects()[i]
                    && final(self).objects() == old(self).objects().remove(i)
                    && final(self).ids() == old(self).ids().remove(i)
                    && final(self).nodes() == old(self).nodes().remove(i)
                    && final(self).graph() == detached(old(self).graph(), old(self).nodes()[i])
                    && final(self).retired() == old(self).retired().push(old(self).ids()[i]),
                None => r is None && final(self).same_as(old(self)),
            },
    {
        match self.index_of_id(id) {
            Some(i) => Some(self.remove_at(i)),
            None => None,
        }
    }

    /// Moves the transform node of entity `child_id` under the node of entity
    /// `parent_id`.
    pub fn set_transform_parent(&mut self, child_id: u128, parent_id: u128) -> (r: Result<(), LostLostLandsFaultForgedObject>)
        ensures
            final(self).objects() == old(self).objects(),
            final(self).ids() == old(self).ids(),
            final(self).nodes() == old(self).nodes(),
            final(self).retired() == old(self).retired(),
            id_index(old(self).ids(), child_id) is None ==> r == Err::<(), _>(
                LostLostLandsFaultForgedObject::ForgedObjectNotFound(child_id),
            ) && final(self).graph() == old(self).graph(),
            id_index(old(self).ids(), child_id) is Some && id_index(old(self).ids(), parent_id) is None
                ==> r == Err::<(), _>(LostLostLandsFaultForgedObject::ForgedObjectNotFound(parent_id))
                && final(self).graph() == old(self).graph(),
            id_index(old(self).ids(), child_id) matches Some(c) ==> id_index(old(self).ids(), parent_id) matches Some(p)
                ==> ({
                let cn = old(self).nodes()[c];
                let pn = old(self).nodes()[p];
                &&& r is Err <==> reaches_up(old(self).graph(), pn, cn)
                &&& r is Err ==> r == Err::<(), _>(LostLostLandsFaultForgedObject::InvalidParentCycle)
                    && final(self).graph() == old(self).graph()
                &&& r is Ok ==> final(self).graph() == reparented(old(self).graph(), cn, pn)
            }),
    {
        proof { use_type_invariant(&*self); }
        let c = match self.index_of_id(child_id) {
            Some(c) => c,
            None => return Err(LostLostLandsFaultForgedObject::ForgedObjectNotFound(child_id)),
        };
        let p = match self.index_of_id(parent_id) {
            Some(p) => p,
            None => return Err(LostLostLandsFaultForgedObject::ForgedObjectNotFound(parent_id)),
        };
        let cn = self.nodes[c];
        let pn = self.nodes[p];
        let mut taken = ForgedStore::new();
        std::mem::swap(&mut taken, self);
        proof { use_type_invariant(&taken); }
        let ForgedStore { forged_objects, ids, nodes, mut transforms, retired } = taken;
        let ghost g0 = transforms@;
        let r = transforms.set_hierarchy(pn, cn);
        assert(transforms@.len() == g0.len());
        *self = ForgedStore { forged_objects, ids, nodes, transforms, retired };
        r
    }

    /// The recompute order of the transform node of entity `id`: the node,
    /// then every node below it, each after its parent.
    pub fn transform_order(&self, id: u128) -> (r: Result<Vec<usize>, LostLostLandsFaultForgedObject>)
        ensures
            match id_index(self.ids(), id) {
                Some(i) => r matches Ok(order) && order@.len() >= 1
                    && order@[0] == self.nodes()[i]
                    && order@.no_duplicates()
                    && forall|m: usize| m < self.graph().len() ==> (order@.contains(m)
                        <==> reaches_up(self.graph(), m, self.nodes()[i])),
                None => r == Err::<Vec<usize>, _>(LostLostLandsFaultForgedObject::ForgedObjectNotFound(id)),
            },
    {
        proof { use_type_invariant(self); }
        match self.index_of_id(id) {
            Some(i) => Ok(self.transforms.recompute_order(self.nodes[i])),
            None => Err(LostLostLandsFaultForgedObject::ForgedObjectNotFound(id)),
        }
    }

    /// Every entity that holds a component of key `k`, in order.
    pub fn get_all_forged_objects_by_trait(&self, k: u64) -> (r: Vec<&ForgedObject<C>>)
        ensures
            r@.map_values(|o: &ForgedObject<C>| o@) == objects_holding(self.objects(), k, self.objects().len() as int),
    {
        let mut r: Vec<&ForgedObject<C>> = Vec::new();
        let mut i: usize = 0;
        while i < self.forged_objects.len()
            invariant
                i <= self.objects().len(),
                r@.map_values(|o: &ForgedObject<C>| o@) == objects_holding(self.objects(), k, i as int),
            decreases self.objects().len() - i,
        {
            let ghost r0 = r@;
            if self.forged_objects[i].has_trait(k) {
                r.push(&self.forged_objects[i]);
                assert(r@.map_values(|o: &ForgedObject<C>| o@) =~= r0.map_values(|o: &ForgedObject<C>| o@).push(
                    self.objects()[i as int]));
            }
            i += 1;
        }
        r
    }

    /// The component of key `k` of every entity that holds one, in order.
    pub fn get_all_trait_by_type(&self, k: u64) -> (r: Vec<&C>)
        ensures
            r@.map_values(|c: &C| *c) == traits_holding(self.objects(), k, self.objects().len() as int),
    {
        let mut r: Vec<&C> = Vec::new();
        let mut i: usize = 0;
        while i < self.forged_objects.len()
            invariant
                i <= self.objects().len(),
                r@.map_values(|c: &C| *c) == traits_holding(self.objects(), k, i as int),
            decreases self.objects().len() - i,
        {
            let ghost r0 = r@;
            match self.forged_objects[i].get_trait(k) {
                Ok(c) => {
                    r.push(c);
                    assert(r@.map_values(|c: &C| *c) =~= r0.map_values(|c: &C| *c).push(
                        trait_of(self.objects()[i as int], k)));
                },
                Err(_) => {},
            }
            i += 1;
        }
        r
    }

    /// The ids of all entities, in order.
    pub fn ids_snapshot(&self) -> (r: Vec<u128>)
        ensures
            r@ == self.ids(),
            r@.len() == self.objects().len(),
    {
        proof { use_type_invariant(self); }
        let mut r: Vec<u128> = Vec::new();
        let mut i: usize = 0;
        while i < self.ids.len()
            invariant
                i <= self.ids@.len(),
                r@ == self.ids@.take(i as int),
            decreases self.ids@.len() - i,
        {
            r.push(self.ids[i]);
            i += 1;
            assert(r@ =~= self.ids@.take(i as int));
        }
        assert(self.ids@.take(i as int) =~= self.ids@);
        r
    }

    /// The number of components of the entity with id `id`.
    pub fn trait_count_of(&self, id: u128) -> (r: Option<usize>)
        ensures
            self.ids().len() == self.objects().len(),
            match id_index(self.ids(), id) {
                Some(i) => r == Some(self.objects()[i].traits.len() as usize),
                None => r is None,
            },
    {
        proof { use_type_invariant(self); }
        match self.index_of_id(id) {
            Some(i) => Some(self.forged_objects[i].trait_count()),
            None => None,
        }
    }

    /// Takes the component at position `j` out of the entity with id `id`,
    /// with its key.
    pub fn take_trait_of(&mut self, id: u128, j: usize) -> (r: Option<(u64, C)>)
        ensures
            final(self).ids() == old(self).ids(),
            final(self).nodes() == old(self).nodes(),
            final(self).graph() == old(self).graph(),
            final(self).retired() == old(self).retired(),
            match id_index(old(self).ids(), id) {
                Some(i) => if j < old(self).objects()[i].traits.len() {
                    r == Some((old(self).objects()[i].kinds[j as int], old(self).objects()[i].traits[j as int]))
                        && final(self).objects() == old(self).objects().update(
                        i,
                        without_trait_at(old(self).objects()[i], j as int),
                    )
                } else {
                    r is None && final(self).objects() == old(self).objects()
                },
                None => r is None && final(self).objects() == old(self).objects(),
            },
    {
        proof { use_type_invariant(&*self); }
        let i = match self.index_of_id(id) {
            Some(i) => i,
            None => return None,
        };
        if j >= self.forged_objects[i].trait_count() {
            return None;
        }
        let mut taken = ForgedStore::new();
        std::mem::swap(&mut taken, self);
        proof { use_type_invariant(&taken); }
        let ForgedStore { mut forged_objects, ids, nodes, transforms, retired } = taken;
        let ghost objs0 = forged_objects@;
        let mut o = forged_objects.remove(i);
        let r = o.take_trait_at(j);
        forged_objects.insert(i, o);
        proof {
            assert(objects_view(forged_objects@) =~= objects_view(objs0).update(
                i as int,
                without_trait_at(objects_view(objs0)[i as int], j as int),
            ));
        }
        *self = ForgedStore { forged_objects, ids, nodes, transforms, retired };
        Some(r)
    }

    /// Puts component `c` of key `k` back into the entity with id `id` at
    /// position `j` (at the end when `j` is past it). When the entity is gone
    /// or already holds key `k`, nothing changes and `c` is handed back.
    pub fn restore_trait_of(&mut self, id: u128, j: usize, k: u64, c: C) -> (r: Option<C>)
        ensures
            final(self).ids() == old(self).ids(),
            final(self).nodes() == old(self).nodes(),
            final(self).graph() == old(self).graph(),
            final(self).retired() == old(self).retired(),
            match id_index(old(self).ids(), id) {
                Some(i) => if old(self).objects()[i].kinds.contains(k) {
                    r == Some(c) && final(self).objects() == old(self).objects()
                } else {
                    r is None && final(self).objects() == old(self).objects().update(
                        i,
                        with_trait_at(
                            old(self).objects()[i],
                            if j <= old(self).objects()[i].traits.len() {
                                j as int
                            } else {
                                old(self).objects()[i].traits.len() as int
                            },
                            k,
                            c,
                        ),
                    )
                },
                None => r == Some(c) && final(self).objects() == old(self).objects(),
            },
    {
        proof { use_type_invariant(&*self); }
        let i = match self.index_of_id(id) {
            Some(i) => i,
            None => return Some(c),
        };
        let mut taken = ForgedStore::new();
        std::mem::swap(&mut taken, self);
        proof { use_type_invariant(&taken); }
        let ForgedStore { mut forged_objects, ids, nodes, transforms, retired } = taken;
        let ghost objs0 = forged_objects@;
        let mut o = forged_objects.remove(i);
        let r = o.insert_trait_at(j, k, c);
        forged_objects.insert(i, o);
        proof {
            assert(objects_view(forged_objects@) =~= objects_view(objs0).update(i as int, forged_objects@[i as int]@));
        }
        *self = ForgedStore { forged_objects, ids, nodes, transforms, retired };
        r
    }

    /// The ids of the entities that hold a component of key `k`, in order.
    pub fn ids_by_trait(&self, k: u64) -> (r: Vec<u128>)
        ensures
            r@ == ids_holding(self.ids(), self.objects(), k, self.objects().len() as int),
    {
        proof { use_type_invariant(self); }
        let mut r: Vec<u128> = Vec::new();
        let mut i: usize = 0;
        while i < self.forged_objects.len()
            invariant
                store_ok(self.ids@, self.nodes@, self.forged_objects@.len(), self.transforms@.len()),
                i <= self.objects().len(),
                r@ == ids_holding(self.ids(), self.objects(), k, i as int),
            decreases self.objects().len() - i,
        {
            if self.forged_objects[i].has_trait(k) {
                r.push(self.ids[i]);
            }
            i += 1;
        }
        r
    }
}

/// The type keys that the components `cs` report, in order.
pub open spec fn keys_of<C: EtherealFlow>(cs: Seq<C>) -> Seq<u64> {
    cs.map_values(|c: C| c.key())
}

/// What `forge_new_object` leaves behind when the components report the type
/// keys `ks`: with keys all different, a new entity at the end, holding `count`
/// components of keys `ks` that know their owner `id`, with a new root node;
/// otherwise the refusal of a repeated key, and no change.
pub open spec fn forge_outcome<C: ForgedHierarchy>(
    old: &ForgedStore<C>,
    new: &ForgedStore<C>,
    name: Seq<char>,
    id: u128,
    ks: Seq<u64>,
    count: nat,
    r: Result<u128, LostLostLandsFaultForgedObject>,
) -> bool {
    if ks.no_duplicates() {
        &&& r == Ok::<u128, LostLostLandsFaultForgedObject>(id)
        &&& new.ids() == old.ids().push(id)
        &&& new.nodes() == old.nodes().push(old.graph().len() as usize)
        &&& new.graph() == old.graph().push(TransformNodeView { parent: None, children: Seq::empty() })
        &&& new.retired() == old.retired()
        &&& new.objects().len() == old.objects().len() + 1
        &&& new.objects().drop_last() == old.objects()
        &&& new.objects().last().name == name
        &&& new.objects().last().kinds == ks
        &&& new.objects().last().traits.len() == count
        &&& forall|j: int| 0 <= j < count ==> (#[trigger] new.objects().last().traits[j]).father() == Some(id)
            && new.objects().last().traits[j].key() == ks[j]
    } else {
        &&& r matches Err(LostLostLandsFaultForgedObject::TraitAlreadyExists(k)) && ks.contains(k)
        &&& new.same_as(old)
    }
}

/// What adding a component that reports key `k` to entity `i` leaves behind:
/// the refusal of a key already present and no change, or the component
/// appended under `k` with every other entity untouched.
pub open spec fn added_outcome<C>(
    old: Seq<ForgedObjectView<C>>,
    new: Seq<ForgedObjectView<C>>,
    i: int,
    k: u64,
    r: Result<(), LostLostLandsFaultForgedObject>,
) -> bool {
    if old[i].kinds.contains(k) {
        r == Err::<(), _>(LostLostLandsFaultForgedObject::TraitAlreadyExists(k)) && new == old
    } else {
        &&& r is Ok
        &&& new.len() == old.len()
        &&& forall|j: int| 0 <= j < old.len() && j != i ==> new[j] == old[j]
        &&& new[i].name == old[i].name
        &&& new[i].kinds == old[i].kinds.push(k)
        &&& new[i].traits.drop_last() == old[i].traits
        &&& new[i].traits.len() == old[i].traits.len() + 1
    }
}

fn contains_id(ids: &Vec<u128>, id: u128) -> (r: bool)
    ensures
        r == ids@.contains(id),
{
    let mut i: usize = 0;
    while i < ids.len()
        invariant
            i <= ids@.len(),
            forall|j: int| 0 <= j < i ==> ids@[j] != id,
        decreases ids@.len() - i,
    {
        if ids[i] == id {
            return true;
        }
        i += 1;
    }
    false
}

fn contains_key(ks: &Vec<u64>, k: u64) -> (r: bool)
    ensures
        r == ks@.contains(k),
{
    let mut i: usize = 0;
    while i < ks.len()
        invariant
            i <= ks@.len(),
            forall|j: int| 0 <= j < i ==> ks@[j] != k,
        decreases ks@.len() - i,
    {
        if ks[i] == k {
            return true;
        }
        i += 1;
    }
    false
}

impl<C: ForgedHierarchy> ForgedStore<C> {
    /// Creates an entity named `name` with id `id`, a new root node, and the
    /// components `traits` in order, each told its owner. Refused when `id` is
    /// taken, or when two components report the same type key.
    pub fn forge_new_object(&mut self, name: &str, id: u128, traits: Vec<C>) -> (r: Result<u128, LostLostLandsFaultForgedObject>)
        ensures
            old(self).id_used(id) ==> r == Err::<u128, _>(LostLostLandsFaultForgedObject::ForgedObjectIdTaken(id))
                && final(self).same_as(old(self)),
            !old(self).id_used(id) ==> forge_outcome(old(self), final(self), name@, id, keys_of(traits@), traits@.len(), r),
    {
        proof { use_type_invariant(&*self); }
        if self.index_of_id(id).is_some() || contains_id(&self.retired, id) {
            return Err(LostLostLandsFaultForgedObject::ForgedObjectIdTaken(id));
        }
        assert(!old(self).id_used(id));
        let n = traits.len();
        let ghost keys = keys_of(traits@);
        let mut ks: Vec<u64> = Vec::new();
        let mut i: usize = 0;
        while i < n
            invariant
                n == traits@.len(),
                keys == keys_of(traits@),
                i <= n,
                ks@ == keys.take(i as int),
                ks@.no_duplicates(),
                !old(self).id_used(id),
                self.same_as(old(self)),
            decreases n - i,
        {
            let k = traits[i].kind();
            if contains_key(&ks, k) {
                proof {
                    let j = choose|j: int| 0 <= j < ks@.len() && ks@[j] == k;
                    assert(keys[j] == keys[i as int]);
                    assert(!keys.no_duplicates());
                    assert(keys.contains(k)) by { assert(keys[i as int] == k); }
                }
                return Err(LostLostLandsFaultForgedObject::TraitAlreadyExists(k));
            }
            proof {
                assert forall|a: int, b: int| 0 <= a < b < ks@.len() + 1 implies ks@.push(k)[a] != ks@.push(k)[b] by {
                    if b == ks@.len() {
                        assert(ks@.contains(ks@[a]));
                    }
                }
            }
            ks.push(k);
            i += 1;
            assert(ks@ =~= keys.take(i as int));
        }
        proof { assert(ks@ =~= keys); }
        let mut taken = ForgedStore::new();
        std::mem::swap(&mut taken, self);
        proof { use_type_invariant(&taken); }
        let ForgedStore { mut forged_objects, mut ids, mut nodes, mut transforms, retired } = taken;
        let ghost objs0 = forged_objects@;
        let node = transforms.add_node();
        let mut object: ForgedObject<C> = ForgedObject::new(name.to_owned());
        let mut rest = traits;
        let mut j: usize = 0;
        while j < n
            invariant
                n == ks@.len(),
                ks@ == keys_of(traits@),
                ks@.no_duplicates(),
                j <= n,
                rest@ == traits@.subrange(j as int, n as int),
                object@.name == name@,
                object@.kinds == ks@.take(j as int),
                object@.traits.len() == j,
                forall|a: int| 0 <= a < j ==> (#[trigger] object@.traits[a]).father() == Some(id)
                    && object@.traits[a].key() == ks@[a],
            decreases n - j,
        {
            let ghost rest0 = rest@;
            let mut c = rest.remove(0);
            assert(c == traits@[j as int]);
            c.set_father(id);
            proof {
                assert(!ks@.take(j as int).contains(ks@[j as int])) by {
                    if ks@.take(j as int).contains(ks@[j as int]) {
                        let a = choose|a: int| 0 <= a < j && ks@.take(j as int)[a] == ks@[j as int];
                        assert(ks@[a] == ks@[j as int]);
                    }
                }
                assert(ks@.take(j + 1) =~= ks@.take(j as int).push(ks@[j as int]));
                assert(rest@ =~= traits@.subrange(j + 1, n as int));
            }
            let _ = object.add_trait_keyed(ks[j], c);
            j += 1;
        }
        proof { assert(ks@.take(n as int) =~= ks@); }
        forged_objects.push(object);
        ids.push(id);
        nodes.push(node);
        proof {
            assert forall|a: int, b: int| 0 <= a < b < ids@.len() implies ids@[a] != ids@[b] by {
                if b == ids@.len() - 1 {
                    assert(old(self).ids().contains(ids@[a]));
                }
            }
            assert forall|a: int, b: int| 0 <= a < b < nodes@.len() implies nodes@[a] != nodes@[b] by {
                if b == nodes@.len() - 1 {
                    assert(nodes@[a] < node);
                }
            }
            assert(objects_view(forged_objects@).drop_last() =~= objects_view(objs0));
        }
        *self = ForgedStore { forged_objects, ids, nodes, transforms, retired };
        proof {
            assert(forge_outcome(old(self), self, name@, id, ks@, traits@.len(), Ok::<u128, LostLostLandsFaultForgedObject>(id)));
        }
        Ok(id)
    }

    /// Adds component `c` to the entity with id `id` under the key that `c`
    /// reports, and tells `c` its owner. A second component of a key already
    /// present is refused, and the entity stays as it was.
    pub fn add_trait(&mut self, id: u128, c: C) -> (r: Result<(), LostLostLandsFaultForgedObject>)
        ensures
            final(self).ids() == old(self).ids(),
            final(self).nodes() == old(self).nodes(),
            final(self).graph() == old(self).graph(),
            final(self).retired() == old(self).retired(),
            id_index(old(self).ids(), id) is Some ==> added_outcome(
                old(self).objects(),
                final(self).objects(),
                id_index(old(self).ids(), id).unwrap(),
                c.key(),
                r,
            ),
            id_index(old(self).ids(), id) matches Some(i) ==> !old(self).objects()[i].kinds.contains(c.key()) ==> {
                &&& final(self).objects()[i].traits.last().father() == Some(id)
                &&& final(self).objects()[i].traits.last().key() == c.key()
            },
            id_index(old(self).ids(), id) is None ==> r == Err::<(), _>(
                LostLostLandsFaultForgedObject::ForgedObjectNotFound(id),
            ) && final(self).objects() == old(self).objects(),
    {
        proof { use_type_invariant(&*self); }
        let i = match self.index_of_id(id) {
            Some(i) => i,
            None => return Err(LostLostLandsFaultForgedObject::ForgedObjectNotFound(id)),
        };
        assert(id_index(old(self).ids(), id) == Some(i as int));
        let k = c.kind();
        assert(self.objects()[i as int] == self.forged_objects@[i as int]@);
        if self.forged_objects[i].has_trait(k) {
            let r = Err(LostLostLandsFaultForgedObject::TraitAlreadyExists(k));
            assert(added_outcome(old(self).objects(), self.objects(), id_index(old(self).ids(), id).unwrap(), k, r));
            return r;
        }
        let mut c = c;
        c.set_father(id);
        let ghost c1 = c;
        let mut taken = ForgedStore::new();
        std::mem::swap(&mut taken, self);
        proof { use_type_invariant(&taken); }
        let ForgedStore { mut forged_objects, ids, nodes, transforms, retired } = taken;
        let ghost objs0 = forged_objects@;
        let mut o = forged_objects.remove(i);
        let ghost o0 = o@;
        assert(o0 == objects_view(objs0)[i as int]);
        let r = o.add_trait_keyed(k, c);
        let ghost o1 = o@;
        forged_objects.insert(i, o);
        proof {
            assert(objects_view(forged_objects@) =~= objects_view(objs0).update(i as int, o1));
            assert(o1.traits.drop_last() =~= o0.traits);
            assert(o1.traits.last() == c1);
        }
        *self = ForgedStore { forged_objects, ids, nodes, transforms, retired };
        assert(added_outcome(old(self).objects(), self.objects(), id_index(old(self).ids(), id).unwrap(), k, r));
        r
    }

    /// The entity that owns component `c`, found by the owner id that `c`
    /// reports.
    pub fn get_parent_forged_object(&self, c: &C) -> (r: Option<&ForgedObject<C>>)
        ensures
            owner_found(self.ids(), self.objects(), c.father(), found_view(r)),
    {
        let father = c.get_father();
        let r = match father {
            Some(id) => self.get_forged_object_by_id(id),
            None => None,
        };
        assert(owner_found(self.ids(), self.objects(), father, found_view(r)));
        r
    }
}

} // verus!
