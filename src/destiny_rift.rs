use vstd::prelude::*;

use crate::EtherealFlow;

verus! {

/// A one-shot signal, published to and consumed from the bucket of its type key.
pub trait DestinyRift: EtherealFlow {
}

/// The events still pending under key `k`: empty when `k` has no bucket.
pub open spec fn pending<E>(m: Map<u64, Seq<E>>, k: u64) -> Seq<E> {
    if m.contains_key(k) {
        m[k]
    } else {
        Seq::empty()
    }
}

/// The bus after `e` is appended to the bucket of `k` (created when absent).
pub open spec fn published<E>(m: Map<u64, Seq<E>>, k: u64, e: E) -> Map<u64, Seq<E>> {
    m.insert(k, pending(m, k).push(e))
}

/// The event that a consume of `k` hands out: the most recently published one.
pub open spec fn latest<E>(m: Map<u64, Seq<E>>, k: u64) -> Option<E> {
    if pending(m, k).len() > 0 {
        Some(m[k].last())
    } else {
        None
    }
}

/// The bus after a consume of `k`: the newest pending event leaves its bucket;
/// the bucket itself stays, even when it becomes empty.
pub open spec fn consumed<E>(m: Map<u64, Seq<E>>, k: u64) -> Map<u64, Seq<E>> {
    if pending(m, k).len() > 0 {
        m.insert(k, m[k].drop_last())
    } else {
        m
    }
}

/// The bus after a sweep: every empty bucket is gone, the others are untouched.
pub open spec fn swept<E>(m: Map<u64, Seq<E>>) -> Map<u64, Seq<E>> {
    Map::new(|k: u64| m.contains_key(k) && m[k].len() > 0, |k: u64| m[k])
}

/// Latest signal wins. When a key has nothing pending and `a`, `b`, `c` are
/// published under it in that order, consumes hand out `c`, then `b`, then `a`;
/// the next sweep then removes the drained bucket, and a further consume of the
/// key hands out nothing.
pub proof fn lemma_latest_signal_wins<E>(m: Map<u64, Seq<E>>, k: u64, a: E, b: E, c: E)
    requires
        pending(m, k).len() == 0,
    ensures
        ({
            let m3 = published(published(published(m, k, a), k, b), k, c);
            let m4 = consumed(m3, k);
            let m5 = consumed(m4, k);
            let m6 = consumed(m5, k);
            &&& latest(m3, k) == Some(c)
            &&& latest(m4, k) == Some(b)
            &&& latest(m5, k) == Some(a)
            &&& !swept(m6).contains_key(k)
            &&& latest(swept(m6), k) is None
        }),
{
    let m1 = published(m, k, a);
    let m2 = published(m1, k, b);
    let m3 = published(m2, k, c);
    assert(pending(m1, k) =~= seq![a]);
    assert(pending(m2, k) =~= seq![a, b]);
    assert(pending(m3, k) =~= seq![a, b, c]);
    let m4 = consumed(m3, k);
    assert(pending(m4, k) =~= seq![a, b]);
    let m5 = consumed(m4, k);
    assert(pending(m5, k) =~= seq![a]);
    let m6 = consumed(m5, k);
    assert(m6[k] =~= Seq::<E>::empty());
}

spec fn keys_unique<E>(s: Seq<(u64, Seq<E>)>) -> bool {
    forall|i: int, j: int| 0 <= i < j < s.len() ==> s[i].0 != s[j].0
}

spec fn has_key<E>(s: Seq<(u64, Seq<E>)>, k: u64) -> bool {
    exists|i: int| 0 <= i < s.len() && s[i].0 == k
}

spec fn bucket_map<E>(s: Seq<(u64, Seq<E>)>) -> Map<u64, Seq<E>> {
    Map::new(
        |k: u64| has_key(s, k),
        |k: u64| s[choose|i: int| 0 <= i < s.len() && s[i].0 == k].1,
    )
}

proof fn lemma_bucket_at<E>(s: Seq<(u64, Seq<E>)>, i: int)
    requires
        keys_unique(s),
        0 <= i < s.len(),
    ensures
        bucket_map(s).contains_key(s[i].0),
        bucket_map(s)[s[i].0] == s[i].1,
{
    let k = s[i].0;
    assert(has_key(s, k));
    let j = choose|j: int| 0 <= j < s.len() && s[j].0 == k;
    assert(j == i);
}

proof fn lemma_bucket_absent<E>(s: Seq<(u64, Seq<E>)>, k: u64)
    requires
        forall|i: int| 0 <= i < s.len() ==> s[i].0 != k,
    ensures
        !bucket_map(s).contains_key(k),
{
}

/// Shows that two bucket lists with unique keys describe the same bus when
/// they agree on every key.
proof fn lemma_bucket_map_eq<E>(s: Seq<(u64, Seq<E>)>, m: Map<u64, Seq<E>>)
    requires
        keys_unique(s),
        forall|i: int| 0 <= i < s.len() ==> m.contains_key(#[trigger] s[i].0) && m[s[i].0] == s[i].1,
        forall|k: u64| m.contains_key(k) ==> has_key(s, k),
    ensures
        bucket_map(s) == m,
{
    assert forall|k: u64| #[trigger] bucket_map(s).contains_key(k) implies bucket_map(s)[k] == m[k] by {
        let i = choose|i: int| 0 <= i < s.len() && s[i].0 == k;
        lemma_bucket_at(s, i);
    }
    assert(bucket_map(s) =~= m);
}

/// The event bus: one bucket of pending events per type key.
pub struct DestinyRiftManager<E> {
    events: Vec<(u64, Vec<E>)>,
}

impl<E> DestinyRiftManager<E> {
    /// The buckets in storage order, with their events as sequences.
    pub closed spec fn buckets(&self) -> Seq<(u64, Seq<E>)> {
        self.events@.map_values(|b: (u64, Vec<E>)| (b.0, b.1@))
    }

    #[verifier::type_invariant]
    spec fn keys_are_unique(&self) -> bool {
        keys_unique(self.buckets())
    }
}

impl<E> View for DestinyRiftManager<E> {
    type V = Map<u64, Seq<E>>;

    closed spec fn view(&self) -> Map<u64, Seq<E>> {
        bucket_map(self.buckets())
    }
}

impl<E> DestinyRiftManager<E> {
    /// An empty bus.
    pub fn new() -> (r: Self)
        ensures
            r@ == Map::<u64, Seq<E>>::empty(),
    {
        let r = DestinyRiftManager { events: Vec::new() };
        assert(bucket_map(r.buckets()) =~= Map::<u64, Seq<E>>::empty());
        r
    }

    /// The position of the bucket of `k`, if there is one.
    fn find_bucket(events: &Vec<(u64, Vec<E>)>, k: u64) -> (r: Option<usize>)
        ensures
            match r {
                Some(i) => i < events.len() && events@[i as int].0 == k,
                None => forall|i: int| 0 <= i < events.len() ==> events@[i].0 != k,
            },
    {
        let mut i: usize = 0;
        while i < events.len()
            invariant
                i <= events.len(),
                forall|j: int| 0 <= j < i ==> events@[j].0 != k,
            decreases events.len() - i,
        {
            if events[i].0 == k {
                return Some(i);
            }
            i += 1;
        }
        None
    }

    /// Appends `event` to the bucket of key `k`, creating the bucket when absent.
    pub fn add_event_keyed(&mut self, k: u64, event: E)
        ensures
            final(self)@ == published(old(self)@, k, event),
    {
        proof { use_type_invariant(&*self); }
        let ghost s0 = self.buckets();
        let mut events = Vec::new();
        std::mem::swap(&mut events, &mut self.events);
        let found = Self::find_bucket(&events, k);
        match found {
            Some(i) => {
                let (key, mut bucket) = events.remove(i);
                bucket.push(event);
                events.insert(i, (key, bucket));
            },
            None => {
                let mut bucket = Vec::new();
                bucket.push(event);
                events.push((k, bucket));
            },
        }
        let ghost s1 = events@.map_values(|b: (u64, Vec<E>)| (b.0, b.1@));
        proof {
            let m = published(bucket_map(s0), k, event);
            match found {
                Some(i) => {
                    assert(s1 =~= s0.update(i as int, (k, s0[i as int].1.push(event))));
                    lemma_bucket_at(s0, i as int);
                    assert forall|j: int| 0 <= j < s1.len() implies m.contains_key(#[trigger] s1[j].0)
                        && m[s1[j].0] == s1[j].1 by {
                        if j != i {
                            lemma_bucket_at(s0, j);
                        }
                    }
                    assert forall|q: u64| m.contains_key(q) implies has_key(s1, q) by {
                        if q != k {
                            let j = choose|j: int| 0 <= j < s0.len() && s0[j].0 == q;
                            assert(s1[j].0 == q);
                        } else {
                            assert(s1[i as int].0 == q);
                        }
                    }
                },
                None => {
                    assert(s1 =~= s0.push((k, Seq::<E>::empty().push(event))));
                    lemma_bucket_absent(s0, k);
                    assert(pending(bucket_map(s0), k) =~= Seq::<E>::empty());
                    assert forall|j: int| 0 <= j < s1.len() implies m.contains_key(#[trigger] s1[j].0)
                        && m[s1[j].0] == s1[j].1 by {
                        if j < s0.len() {
                            lemma_bucket_at(s0, j);
                        }
                    }
                    assert forall|q: u64| m.contains_key(q) implies has_key(s1, q) by {
                        if q != k {
                            let j = choose|j: int| 0 <= j < s0.len() && s0[j].0 == q;
                            assert(s1[j].0 == q);
                        } else {
                            assert(s1[s0.len() as int].0 == q);
                        }
                    }
                },
            }
            lemma_bucket_map_eq(s1, m);
        }
        self.events = events;
    }

    /// Pops the most recently published pending event of key `k`; `None` when
    /// `k` has no bucket or its bucket is empty. The bucket stays until the
    /// next sweep.
    pub fn consume_event(&mut self, k: u64) -> (r: Option<E>)
        ensures
            r == latest(old(self)@, k),
            final(self)@ == consumed(old(self)@, k),
    {
        proof { use_type_invariant(&*self); }
        let ghost s0 = self.buckets();
        let mut events = Vec::new();
        std::mem::swap(&mut events, &mut self.events);
        let found = Self::find_bucket(&events, k);
        let mut r = None;
        proof {
            match found {
                Some(i) => lemma_bucket_at(s0, i as int),
                None => lemma_bucket_absent(s0, k),
            }
        }
        if let Some(i) = found {
            let (key, mut bucket) = events.remove(i);
            r = bucket.pop();
            events.insert(i, (key, bucket));
            let ghost s1 = events@.map_values(|b: (u64, Vec<E>)| (b.0, b.1@));
            proof {
                let m = consumed(bucket_map(s0), k);
                assert(s1 =~= s0.update(i as int, (k, pending(bucket_map(s0), k).drop_last()))
                    || s1 =~= s0);
                if pending(bucket_map(s0), k).len() > 0 {
                    assert(s1 =~= s0.update(i as int, (k, s0[i as int].1.drop_last())));
                } else {
                    assert(s1 =~= s0);
                }
                assert forall|j: int| 0 <= j < s1.len() implies m.contains_key(#[trigger] s1[j].0)
                    && m[s1[j].0] == s1[j].1 by {
                    lemma_bucket_at(s0, j);
                }
                assert forall|q: u64| m.contains_key(q) implies has_key(s1, q) by {
                    let j = choose|j: int| 0 <= j < s0.len() && s0[j].0 == q;
                    assert(s1[j].0 == q);
                }
                lemma_bucket_map_eq(s1, m);
            }
        }
        self.events = events;
        r
    }

    /// The sweep: removes every bucket that has no pending event.
    pub fn remove_event(&mut self)
        ensures
            final(self)@ == swept(old(self)@),
    {
        proof { use_type_invariant(&*self); }
        let ghost s0 = self.buckets();
        let mut events = Vec::new();
        std::mem::swap(&mut events, &mut self.events);
        let mut kept: Vec<(u64, Vec<E>)> = Vec::new();
        let ghost mut idx: Seq<int> = Seq::empty();
        while events.len() > 0
            invariant
                s0 == old(self).buckets(),
                keys_unique(s0),
                events@.len() <= s0.len(),
                forall|i: int| 0 <= i < events@.len() ==> (#[trigger] events@[i]).0 == s0[i].0
                    && events@[i].1@ == s0[i].1,
                idx.len() == kept@.len(),
                forall|j: int| 0 <= j < idx.len() ==> events@.len() <= #[trigger] idx[j] < s0.len()
                    && kept@[j].0 == s0[idx[j]].0 && kept@[j].1@ == s0[idx[j]].1
                    && s0[idx[j]].1.len() > 0,
                forall|j1: int, j2: int| 0 <= j1 < j2 < idx.len() ==> idx[j1] > idx[j2],
                forall|i: int| events@.len() <= i < s0.len() && s0[i].1.len() > 0 ==> exists|j: int|
                    0 <= j < idx.len() && #[trigger] idx[j] == i,
            decreases events@.len(),
        {
            let ghost n = events@.len() - 1;
            let b = events.pop().unwrap();
            if b.1.len() > 0 {
                kept.push(b);
                proof {
                    let idx0 = idx;
                    idx = idx.push(n);
                    assert forall|i: int| events@.len() <= i < s0.len() && s0[i].1.len() > 0
                        implies exists|j: int| 0 <= j < idx.len() && #[trigger] idx[j] == i by {
                        if i == n {
                            assert(idx[idx0.len() as int] == i);
                        } else {
                            let j = choose|j: int| 0 <= j < idx0.len() && idx0[j] == i;
                            assert(idx[j] == i);
                        }
                    }
                }
            } else {
                proof {
                    assert forall|i: int| events@.len() <= i < s0.len() && s0[i].1.len() > 0
                        implies exists|j: int| 0 <= j < idx.len() && #[trigger] idx[j] == i by {
                        assert(i != n);
                    }
                }
            }
        }
        let ghost s1 = kept@.map_values(|b: (u64, Vec<E>)| (b.0, b.1@));
        proof {
            let m = swept(bucket_map(s0));
            assert forall|j1: int, j2: int| 0 <= j1 < j2 < s1.len() implies s1[j1].0 != s1[j2].0 by {
                assert(idx[j1] > idx[j2]);
                assert(s1[j1].0 == s0[idx[j1]].0);
                assert(s1[j2].0 == s0[idx[j2]].0);
            }
            assert forall|j: int| 0 <= j < s1.len() implies m.contains_key(#[trigger] s1[j].0)
                && m[s1[j].0] == s1[j].1 by {
                lemma_bucket_at(s0, idx[j]);
            }
            assert forall|q: u64| m.contains_key(q) implies has_key(s1, q) by {
                let i = choose|i: int| 0 <= i < s0.len() && s0[i].0 == q;
                lemma_bucket_at(s0, i);
                let j = choose|j: int| 0 <= j < idx.len() && idx[j] == i;
                assert(s1[j].0 == q);
            }
            lemma_bucket_map_eq(s1, m);
        }
        self.events = kept;
    }
}

impl<E> Default for DestinyRiftManager<E> {
    fn default() -> (r: Self)
        ensures
            r@ == Map::<u64, Seq<E>>::empty(),
    {
        DestinyRiftManager::new()
    }
}

impl<E: DestinyRift> DestinyRiftManager<E> {
    /// Publishes `event` under the type key that it reports.
    pub fn add_event(&mut self, event: E)
        ensures
            final(self)@ == published(old(self)@, event.key(), event),
    {
        let k = event.kind();
        self.add_event_keyed(k, event);
    }
}

} // verus!
