use vstd::prelude::*;

use crate::lost_lands_fault::LostLostLandsFaultForgedObject;

verus! {

/// An entity as the contracts see it.
pub struct ForgedObjectView<C> {
    pub name: Seq<char>,
    /// The type key of each component, in insertion order.
    pub kinds: Seq<u64>,
    /// The components, in insertion order.
    pub traits: Seq<C>,
}

/// No two components of an entity share a type key, and every component has
/// its key.
pub open spec fn object_ok<C>(o: ForgedObjectView<C>) -> bool {
    &&& o.kinds.len() == o.traits.len()
    &&& o.kinds.no_duplicates()
}

/// The position of the component of type key `k`, if the entity has one.
pub open spec fn kind_index(kinds: Seq<u64>, k: u64) -> Option<int> {
    if kinds.contains(k) {
        Some(choose|i: int| 0 <= i < kinds.len() && kinds[i] == k)
    } else {
        None
    }
}

/// The entity after a component `c` of key `k` is appended.
pub open spec fn with_trait<C>(o: ForgedObjectView<C>, k: u64, c: C) -> ForgedObjectView<C> {
    ForgedObjectView { kinds: o.kinds.push(k), traits: o.traits.push(c), ..o }
}

/// The entity without its component at position `i`.
pub open spec fn without_trait_at<C>(o: ForgedObjectView<C>, i: int) -> ForgedObjectView<C> {
    ForgedObjectView { kinds: o.kinds.remove(i), traits: o.traits.remove(i), ..o }
}

/// The entity with a component `c` of key `k` put in at position `i`.
pub open spec fn with_trait_at<C>(o: ForgedObjectView<C>, i: int, k: u64, c: C) -> ForgedObjectView<C> {
    ForgedObjectView { kinds: o.kinds.insert(i, k), traits: o.traits.insert(i, c), ..o }
}

/// The entity after each key of `ks` is offered in turn, with the component of
/// the same position in `cs`: a key already present is refused and changes
/// nothing.
pub open spec fn offered<C>(o: ForgedObjectView<C>, ks: Seq<u64>, cs: Seq<C>) -> ForgedObjectView<C>
    decreases ks.len(),
{
    if ks.len() == 0 || cs.len() == 0 {
        o
    } else {
        let prev = offered(o, ks.drop_last(), cs.drop_last());
        if prev.kinds.contains(ks.last()) {
            prev
        } else {
            with_trait(prev, ks.last(), cs.last())
        }
    }
}

/// Whatever sequence of components is inserted, no two on one entity share a
/// type key.
pub proof fn lemma_offered_keeps_kinds_unique<C>(o: ForgedObjectView<C>, ks: Seq<u64>, cs: Seq<C>)
    requires
        object_ok(o),
    ensures
        object_ok(offered(o, ks, cs)),
    decreases ks.len(),
{
    if ks.len() > 0 && cs.len() > 0 {
        lemma_offered_keeps_kinds_unique(o, ks.drop_last(), cs.drop_last());
        let prev = offered(o, ks.drop_last(), cs.drop_last());
        if !prev.kinds.contains(ks.last()) {
            let nk = prev.kinds.push(ks.last());
            assert forall|i: int, j: int| 0 <= i < j < nk.len() implies nk[i] != nk[j] by {
                if j == nk.len() - 1 {
                    assert(prev.kinds.contains(nk[i]));
                }
            }
        }
    }
}

pub proof fn lemma_kind_index<C>(kinds: Seq<u64>, k: u64, i: int)
    requires
        kinds.no_duplicates(),
        0 <= i < kinds.len(),
        kinds[i] == k,
    ensures
        kind_index(kinds, k) == Some(i),
{
    assert(kinds.contains(k));
}

/// An entity's name and its components in insertion order, at most one per
/// type key. Its id and its transform node are kept by the store.
pub struct ForgedObject<C> {
    name: String,
    kinds: Vec<u64>,
    forged_traits: Vec<C>,
}

impl<C> View for ForgedObject<C> {
    type V = ForgedObjectView<C>;

    closed spec fn view(&self) -> ForgedObjectView<C> {
        ForgedObjectView {
            name: self.name@,
            kinds: self.kinds@,
            traits: self.forged_traits@,
        }
    }
}

impl<C> ForgedObject<C> {
    #[verifier::type_invariant]
    pub(crate) open spec fn kinds_unique(&self) -> bool {
        object_ok(self@)
    }

    /// An entity without components.
    pub fn new(name: String) -> (r: Self)
        ensures
            r@ == (ForgedObjectView::<C> { name: name@, kinds: Seq::empty(), traits: Seq::empty() }),
            object_ok(r@),
    {
        ForgedObject { name, kinds: Vec::new(), forged_traits: Vec::new() }
    }

    pub fn name(&self) -> (r: &String)
        ensures
            r@ == self@.name,
    {
        &self.name
    }

    pub fn trait_count(&self) -> (r: usize)
        ensures
            r == self@.traits.len(),
    {
        proof { use_type_invariant(self); }
        self.forged_traits.len()
    }

    /// The component at position `i`.
    pub fn trait_at(&self, i: usize) -> (r: &C)
        requires
            i < self@.traits.len(),
        ensures
            *r == self@.traits[i as int],
    {
        proof { use_type_invariant(self); }
        &self.forged_traits[i]
    }

    /// The position of the component of type key `k`.
    pub fn find_trait(&self, k: u64) -> (r: Option<usize>)
        ensures
            object_ok(self@),
            r matches Some(i) ==> kind_index(self@.kinds, k) == Some(i as int) && i < self@.traits.len(),
            r is None ==> kind_index(self@.kinds, k) is None,
        no_unwind
    {
        proof { use_type_invariant(self); }
        let mut i: usize = 0;
        while i < self.kinds.len()
            invariant
                object_ok(self@),
                i <= self.kinds@.len(),
                forall|j: int| 0 <= j < i ==> self.kinds@[j] != k,
            decreases self.kinds@.len() - i,
        {
            if self.kinds[i] == k {
                proof { lemma_kind_index::<C>(self.kinds@, k, i as int); }
                return Some(i);
            }
            i += 1;
        }
        None
    }

    /// Renames the entity.
    pub fn set_name(&mut self, name: String)
        ensures
            final(self)@ == (ForgedObjectView { name: name@, ..old(self)@ }),
    {
        proof { use_type_invariant(&*self); }
        self.name = name;
    }

    /// Whether the entity holds a component of type key `k`.
    pub fn has_trait(&self, k: u64) -> (r: bool)
        ensures
            r == self@.kinds.contains(k),
    {
        self.find_trait(k).is_some()
    }

    /// Appends `c` under type key `k`. A second component of a key already
    /// present is refused and the entity is left unchanged.
    pub fn add_trait_keyed(&mut self, k: u64, c: C) -> (r: Result<(), LostLostLandsFaultForgedObject>)
        ensures
            object_ok(final(self)@),
            old(self)@.kinds.contains(k) ==> r == Err::<(), _>(LostLostLandsFaultForgedObject::TraitAlreadyExists(k))
                && final(self)@ == old(self)@,
            !old(self)@.kinds.contains(k) ==> r is Ok && final(self)@ == with_trait(old(self)@, k, c),
    {
        proof { use_type_invariant(&*self); }
        if self.has_trait(k) {
            return Err(LostLostLandsFaultForgedObject::TraitAlreadyExists(k));
        }
        let mut taken = ForgedObject::new(String::new());
        std::mem::swap(&mut taken, self);
        let ForgedObject { name, mut kinds, mut forged_traits } = taken;
        kinds.push(k);
        forged_traits.push(c);
        proof {
            assert forall|i: int, j: int| 0 <= i < j < kinds@.len() implies kinds@[i] != kinds@[j] by {
                if j == kinds@.len() - 1 {
                    assert(old(self)@.kinds.contains(kinds@[i]));
                }
            }
        }
        *self = ForgedObject { name, kinds, forged_traits };
        Ok(())
    }

    /// The component of type key `k`.
    pub fn get_trait(&self, k: u64) -> (r: Result<&C, LostLostLandsFaultForgedObject>)
        ensures
            match kind_index(self@.kinds, k) {
                Some(i) => r == Ok::<&C, LostLostLandsFaultForgedObject>(&self@.traits[i]),
                None => r == Err::<&C, _>(LostLostLandsFaultForgedObject::TraitNotFound(k)),
            },
    {
        match self.find_trait(k) {
            Some(i) => Ok(&self.forged_traits[i]),
            None => Err(LostLostLandsFaultForgedObject::TraitNotFound(k)),
        }
    }

    /// The component of type key `k`, for change. Only that component can
    /// change through the reference.
    pub fn get_trait_mut(&mut self, k: u64) -> (r: Result<&mut C, LostLostLandsFaultForgedObject>)
        ensures
            match kind_index(old(self)@.kinds, k) {
                Some(i) => r matches Ok(c) && *c == old(self)@.traits[i]
                    && final(self)@ == (ForgedObjectView { traits: old(self)@.traits.update(i, *final(c)), ..old(self)@ }),
                None => r == Err::<&mut C, _>(LostLostLandsFaultForgedObject::TraitNotFound(k))
                    && final(self)@ == old(self)@,
            },
        no_unwind
    {
        proof { use_type_invariant(&*self); }
        match self.find_trait(k) {
            Some(i) => Ok(&mut self.forged_traits[i]),
            None => Err(LostLostLandsFaultForgedObject::TraitNotFound(k)),
        }
    }

    /// Takes the component at position `i` out, with its key.
    pub fn take_trait_at(&mut self, i: usize) -> (r: (u64, C))
        requires
            i < old(self)@.traits.len(),
        ensures
            r == (old(self)@.kinds[i as int], old(self)@.traits[i as int]),
            final(self)@ == without_trait_at(old(self)@, i as int),
    {
        proof { use_type_invariant(&*self); }
        let mut taken = ForgedObject::new(String::new());
        std::mem::swap(&mut taken, self);
        let ForgedObject { name, mut kinds, mut forged_traits } = taken;
        let k = kinds.remove(i);
        let c = forged_traits.remove(i);
        proof {
            let k0 = old(self)@.kinds;
            assert forall|a: int, b: int| 0 <= a < b < kinds@.len() implies kinds@[a] != kinds@[b] by {
                let a0 = if a < i { a } else { a + 1 };
                let b0 = if b < i { b } else { b + 1 };
                assert(kinds@[a] == k0[a0]);
                assert(kinds@[b] == k0[b0]);
            }
        }
        *self = ForgedObject { name, kinds, forged_traits };
        (k, c)
    }

    /// Puts component `c` of key `k` in at position `i` (at the end when `i` is
    /// past it). Refused, and `c` handed back, when key `k` is present.
    pub fn insert_trait_at(&mut self, i: usize, k: u64, c: C) -> (r: Option<C>)
        ensures
            old(self)@.kinds.contains(k) ==> r == Some(c) && final(self)@ == old(self)@,
            !old(self)@.kinds.contains(k) ==> r is None && final(self)@ == with_trait_at(
                old(self)@,
                if i <= old(self)@.traits.len() { i as int } else { old(self)@.traits.len() as int },
                k,
                c,
            ),
    {
        proof { use_type_invariant(&*self); }
        if self.has_trait(k) {
            return Some(c);
        }
        let mut taken = ForgedObject::new(String::new());
        std::mem::swap(&mut taken, self);
        let ForgedObject { name, mut kinds, mut forged_traits } = taken;
        let at = if i <= kinds.len() { i } else { kinds.len() };
        kinds.insert(at, k);
        forged_traits.insert(at, c);
        proof {
            let k0 = old(self)@.kinds;
            assert forall|a: int, b: int| 0 <= a < b < kinds@.len() implies kinds@[a] != kinds@[b] by {
                if a == at {
                    assert(k0.contains(kinds@[b]));
                } else if b == at {
                    assert(k0.contains(kinds@[a]));
                } else {
                    let a0 = if a < at { a } else { a - 1 };
                    let b0 = if b < at { b } else { b - 1 };
                    assert(kinds@[a] == k0[a0]);
                    assert(kinds@[b] == k0[b0]);
                }
            }
        }
        *self = ForgedObject { name, kinds, forged_traits };
        None
    }

    /// Removes the component of type key `k`; the others keep their order.
    pub fn remove_trait(&mut self, k: u64) -> (r: Result<(), LostLostLandsFaultForgedObject>)
        ensures
            object_ok(final(self)@),
            match kind_index(old(self)@.kinds, k) {
                Some(i) => r is Ok && final(self)@ == without_trait_at(old(self)@, i),
                None => r == Err::<(), _>(LostLostLandsFaultForgedObject::TraitNotFound(k))
                    && final(self)@ == old(self)@,
            },
    {
        proof { use_type_invariant(&*self); }
        match self.find_trait(k) {
            Some(i) => {
                let mut taken = ForgedObject::new(String::new());
                std::mem::swap(&mut taken, self);
                let ForgedObject { name, mut kinds, mut forged_traits } = taken;
                kinds.remove(i);
                forged_traits.remove(i);
                proof {
                    assert forall|a: int, b: int| 0 <= a < b < kinds@.len() implies kinds@[a]
                        != kinds@[b] by {
                        let a0 = if a < i { a } else { a + 1 };
                        let b0 = if b < i { b } else { b + 1 };
                        assert(kinds@[a] == old(self)@.kinds[a0]);
                        assert(kinds@[b] == old(self)@.kinds[b0]);
                    }
                }
                *self = ForgedObject { name, kinds, forged_traits };
                Ok(())
            },
            None => Err(LostLostLandsFaultForgedObject::TraitNotFound(k)),
        }
    }
}

} // verus!
