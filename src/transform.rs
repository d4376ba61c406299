use vstd::prelude::*;

use crate::lost_lands_fault::LostLostLandsFaultForgedObject;

verus! {

/// A node of the transform graph as the contracts see it: its parent, and its
/// children in the order they were attached.
pub struct TransformNodeView {
    pub parent: Option<usize>,
    pub children: Seq<usize>,
}

/// The node that `k` parent steps lead to from `n`; `None` once the chain has
/// run past a root.
pub open spec fn ancestor_at(g: Seq<TransformNodeView>, n: usize, k: nat) -> Option<usize>
    decreases k,
{
    if k == 0 {
        Some(n)
    } else {
        match ancestor_at(g, n, (k - 1) as nat) {
            Some(m) => if m < g.len() {
                g[m as int].parent
            } else {
                None
            },
            None => None,
        }
    }
}

/// `a` is `n` itself or one of its ancestors.
pub open spec fn reaches_up(g: Seq<TransformNodeView>, n: usize, a: usize) -> bool {
    exists|k: nat| ancestor_at(g, n, k) == Some(a)
}

/// The test "is not `c`".
pub open spec fn other_than(c: usize) -> spec_fn(usize) -> bool {
    |x: usize| x != c
}

/// `s` without the entry `c`.
pub open spec fn without(s: Seq<usize>, c: usize) -> Seq<usize> {
    s.filter(other_than(c))
}

/// The graph after `c` leaves the child list of its parent, if it has one.
pub open spec fn unlinked(g: Seq<TransformNodeView>, c: usize) -> Seq<TransformNodeView> {
    match g[c as int].parent {
        Some(q) => g.update(
            q as int,
            TransformNodeView { children: without(g[q as int].children, c), ..g[q as int] },
        ),
        None => g,
    }
}

/// The graph after `c` is moved under `p`: it leaves its old parent's child
/// list, joins the end of `p`'s, and points back to `p`.
pub open spec fn reparented(g: Seq<TransformNodeView>, c: usize, p: usize) -> Seq<TransformNodeView> {
    let g1 = unlinked(g, c);
    let g2 = g1.update(
        p as int,
        TransformNodeView { children: g1[p as int].children.push(c), ..g1[p as int] },
    );
    g2.update(c as int, TransformNodeView { parent: Some(p), ..g2[c as int] })
}

/// The graph after `n` is cut out of it: `n` leaves its parent's child list,
/// and `n` and each of its children become roots. No node is removed.
pub open spec fn detached(g: Seq<TransformNodeView>, n: usize) -> Seq<TransformNodeView> {
    let g1 = unlinked(g, n);
    Seq::new(
        g.len(),
        |m: int|
            if m == n {
                TransformNodeView { parent: None, children: Seq::empty() }
            } else if g[n as int].children.contains(m as usize) {
                TransformNodeView { parent: None, ..g1[m] }
            } else {
                g1[m]
            },
    )
}

/// Parent links and child lists describe the same edges, every index is in
/// range, and no child list repeats an entry.
pub open spec fn edges_consistent(g: Seq<TransformNodeView>) -> bool {
    &&& forall|n: int| #![trigger g[n].parent]
        0 <= n < g.len() && g[n].parent is Some ==> g[n].parent.unwrap() < g.len()
    &&& forall|n: int, j: int| #![trigger g[n].children[j]]
        0 <= n < g.len() && 0 <= j < g[n].children.len() ==> g[n].children[j] < g.len()
    &&& forall|n: int| #![trigger g[n].children] 0 <= n < g.len() ==> g[n].children.no_duplicates()
    &&& forall|p: usize, c: usize| #![trigger g[p as int].children.contains(c)]
        #![trigger g[c as int].parent, g[p as int].children]
        p < g.len() && c < g.len() ==> (g[c as int].parent == Some(p)
            <==> g[p as int].children.contains(c))
}

/// Re-parenting leaves the node in exactly one child list: that of its new
/// parent.
pub proof fn lemma_reparent_single_parent(g: Seq<TransformNodeView>, c: usize, p: usize)
    requires
        edges_consistent(g),
        c < g.len(),
        p < g.len(),
        !reaches_up(g, p, c),
    ensures
        reparented(g, c, p)[c as int].parent == Some(p),
        forall|q: usize| q < g.len() ==> (#[trigger] reparented(g, c, p)[q as int].children.contains(c) <==> q == p),
{
    let g2 = reparented(g, c, p);
    let q0 = g[c as int].parent;
    assert(ancestor_at(g, c, 0) == Some(c));
    assert forall|q: usize| q < g.len() implies (#[trigger] g2[q as int].children.contains(c) <==> q == p) by {
        lemma_without(g[q as int].children, c);
        assert(g[c as int].parent == Some(q) <==> g[q as int].children.contains(c));
        if q == p {
            assert(g2[q as int].children.last() == c);
        }
    }
}

/// Destroying a node's owner leaves each of its children in the graph, as a
/// root: nothing dangles and nothing else is removed.
pub proof fn lemma_detach_orphans_children(g: Seq<TransformNodeView>, n: usize)
    requires
        edges_consistent(g),
        n < g.len(),
    ensures
        detached(g, n).len() == g.len(),
        detached(g, n)[n as int].parent is None,
        forall|c: usize| #[trigger] g[n as int].children.contains(c) ==> c < detached(g, n).len()
            && detached(g, n)[c as int].parent is None,
        forall|q: usize| q < g.len() ==> !(#[trigger] detached(g, n)[q as int].children).contains(n),
{
    assert forall|c: usize| #[trigger] g[n as int].children.contains(c) implies c < detached(g, n).len()
        && detached(g, n)[c as int].parent is None by {
        let j = choose|j: int| 0 <= j < g[n as int].children.len() && g[n as int].children[j] == c;
        assert(g[n as int].children[j] < g.len());
    }
    assert forall|q: usize| q < g.len() implies !(#[trigger] detached(g, n)[q as int].children).contains(n) by {
        lemma_without(g[q as int].children, n);
        assert(g[n as int].parent == Some(q) <==> g[q as int].children.contains(n));
    }
}

/// Every node lies one level below its parent: parent links form no cycle.
spec fn depth_ok(g: Seq<TransformNodeView>, depth: Seq<nat>) -> bool {
    &&& depth.len() == g.len()
    &&& forall|n: int| #![trigger g[n].parent]
        0 <= n < g.len() && g[n].parent is Some ==> depth[n] == depth[g[n].parent.unwrap() as int] + 1
}

proof fn lemma_ancestor_depth(g: Seq<TransformNodeView>, depth: Seq<nat>, n: usize, k: nat)
    requires
        edges_consistent(g),
        depth_ok(g, depth),
        n < g.len(),
        ancestor_at(g, n, k) is Some,
    ensures
        ancestor_at(g, n, k).unwrap() < g.len(),
        depth[ancestor_at(g, n, k).unwrap() as int] + k == depth[n as int],
    decreases k,
{
    if k > 0 {
        lemma_ancestor_depth(g, depth, n, (k - 1) as nat);
        let m = ancestor_at(g, n, (k - 1) as nat).unwrap();
        assert(g[m as int].parent is Some);
    }
}

proof fn lemma_ancestor_none_stays(g: Seq<TransformNodeView>, n: usize, k: nat, k2: nat)
    requires
        ancestor_at(g, n, k) is None,
        k <= k2,
    ensures
        ancestor_at(g, n, k2) is None,
    decreases k2,
{
    if k2 > k {
        lemma_ancestor_none_stays(g, n, k, (k2 - 1) as nat);
    }
}

proof fn lemma_ancestor_shift(g: Seq<TransformNodeView>, n: usize, q: usize, k: nat)
    requires
        n < g.len(),
        g[n as int].parent == Some(q),
    ensures
        ancestor_at(g, n, k + 1) == ancestor_at(g, q, k),
    decreases k,
{
    if k > 0 {
        lemma_ancestor_shift(g, n, q, (k - 1) as nat);
    }
    assert(((k + 1) - 1) as nat == k);
    assert(ancestor_at(g, n, k + 1) == match ancestor_at(g, n, k) {
        Some(m) => if m < g.len() {
            g[m as int].parent
        } else {
            None
        },
        None => None,
    });
}

/// Away from `c`, a node reaches `c` going up exactly when its parent does.
proof fn lemma_reaches_via_parent(g: Seq<TransformNodeView>, m: usize, q: usize, c: usize)
    requires
        m < g.len(),
        m != c,
        g[m as int].parent == Some(q),
    ensures
        reaches_up(g, m, c) <==> reaches_up(g, q, c),
{
    if reaches_up(g, m, c) {
        let k = choose|k: nat| ancestor_at(g, m, k) == Some(c);
        assert(k > 0);
        lemma_ancestor_shift(g, m, q, (k - 1) as nat);
    }
    if reaches_up(g, q, c) {
        let k = choose|k: nat| ancestor_at(g, q, k) == Some(c);
        lemma_ancestor_shift(g, m, q, k);
    }
}


proof fn lemma_without(s: Seq<usize>, c: usize)
    ensures
        s.no_duplicates() ==> without(s, c).no_duplicates(),
        forall|x: usize| #[trigger] without(s, c).contains(x) <==> s.contains(x) && x != c,
    decreases s.len(),
{
    let pred = other_than(c);
    let w = without(s, c);
    assert forall|x: usize| #[trigger] w.contains(x) <==> s.contains(x) && x != c by {
        if w.contains(x) {
            s.lemma_filter_contains_rev(pred, x);
            let j = choose|j: int| 0 <= j < w.len() && w[j] == x;
            s.lemma_filter_pred(pred, j);
        }
        if s.contains(x) && x != c {
            let i = choose|i: int| 0 <= i < s.len() && s[i] == x;
            s.lemma_filter_contains(pred, i);
        }
    }
    if s.len() > 0 {
        let r = s.drop_last();
        let last = s.last();
        lemma_without(r, c);
        assert(s =~= r.push(last));
        r.lemma_filter_push(last, pred);
        if s.no_duplicates() {
            assert(r.no_duplicates());
            if pred(last) {
                assert(!r.contains(last));
                assert(!without(r, c).contains(last));
                let wr = without(r, c);
                assert(w == wr.push(last));
                assert forall|i: int, j: int| 0 <= i < j < w.len() implies w[i] != w[j] by {
                    if j == wr.len() {
                        assert(w[i] == wr[i]);
                        assert(wr.contains(wr[i]));
                    }
                }
            }
        }
    } else {
        reveal(Seq::filter);
        assert(w =~= s);
    }
}

/// Moving `c` under `p` keeps the graph consistent and acyclic, provided `p`
/// does not already lie below `c`.
proof fn lemma_reparent_ok(g: Seq<TransformNodeView>, c: usize, p: usize)
    requires
        graph_ok(g),
        g.len() <= usize::MAX,
        c < g.len(),
        p < g.len(),
        !reaches_up(g, p, c),
    ensures
        graph_ok(reparented(g, c, p)),
{
    let g2 = reparented(g, c, p);
    let q0 = g[c as int].parent;
    assert(ancestor_at(g, c, 0) == Some(c));
    assert(p != c);
    assert forall|n: int| 0 <= n < g.len() implies #[trigger] g2[n].parent == (if n == c {
        Some(p)
    } else {
        g[n].parent
    }) && g2[n].children == (if n == p {
        (if q0 == Some(p) {
            without(g[n].children, c)
        } else {
            g[n].children
        }).push(c)
    } else if q0 == Some(n as usize) {
        without(g[n].children, c)
    } else {
        g[n].children
    }) by {}
    assert forall|n: int| 0 <= n < g.len() implies (#[trigger] g[n].children).no_duplicates() && (forall|x: usize|
        #[trigger] without(g[n].children, c).contains(x) <==> g[n].children.contains(x) && x != c)
        && without(g[n].children, c).no_duplicates() by {
        lemma_without(g[n].children, c);
    }
    if let Some(q) = q0 {
        assert(g[q as int].children.contains(c));
    }
    assert(!g[p as int].children.contains(c) || q0 == Some(p));
    assert forall|pq: usize, cq: usize| pq < g2.len() && cq < g2.len() implies (g2[cq as int].parent
        == Some(pq) <==> #[trigger] g2[pq as int].children.contains(cq)) by {
        assert(g[cq as int].parent == Some(pq) <==> g[pq as int].children.contains(cq));
        if pq == p {
            if cq != c {
                assert(g2[pq as int].children.contains(cq) <==> g[pq as int].children.contains(cq)) by {
                    if g2[pq as int].children.contains(cq) {
                        let j = choose|j: int| 0 <= j < g2[pq as int].children.len()
                            && g2[pq as int].children[j] == cq;
                        if q0 == Some(p) {
                            assert(without(g[pq as int].children, c)[j] == cq);
                            assert(without(g[pq as int].children, c).contains(cq));
                        } else {
                            assert(g[pq as int].children[j] == cq);
                        }
                    }
                    if g[pq as int].children.contains(cq) {
                        let j = choose|j: int| 0 <= j < g[pq as int].children.len()
                            && g[pq as int].children[j] == cq;
                        if q0 == Some(p) {
                            let w = without(g[pq as int].children, c);
                            assert(w.contains(cq));
                            let i = choose|i: int| 0 <= i < w.len() && w[i] == cq;
                            assert(g2[pq as int].children[i] == cq);
                        } else {
                            assert(g2[pq as int].children[j] == cq);
                        }
                    }
                }
            } else {
                assert(g2[pq as int].children.last() == c);
            }
        }
    }
    assert forall|n: int, j: int| 0 <= n < g2.len() && 0 <= j < g2[n].children.len() implies
        #[trigger] g2[n].children[j] < g2.len() by {
        let x = g2[n].children[j];
        if !(n == p && j == g2[n].children.len() - 1) {
            assert(g2[n].children.contains(x));
            if n == p {
                if q0 == Some(p) {
                    assert(without(g[n].children, c)[j] == x);
                    assert(without(g[n].children, c).contains(x));
                } else {
                    assert(g[n].children[j] == x);
                }
            } else if q0 == Some(n as usize) {
                assert(without(g[n].children, c).contains(x));
            }
            assert(g[n].children.contains(x));
            let i = choose|i: int| 0 <= i < g[n].children.len() && g[n].children[i] == x;
            assert(g[n].children[i] < g.len());
        }
    }
    assert forall|n: int| 0 <= n < g2.len() implies (#[trigger] g2[n].children).no_duplicates() by {
        if n == p {
            let base = if q0 == Some(p) {
                without(g[n].children, c)
            } else {
                g[n].children
            };
            assert(!base.contains(c));
            assert forall|i: int, j: int| 0 <= i < j < g2[n].children.len() implies g2[n].children[i]
                != g2[n].children[j] by {
                if j == base.len() {
                    assert(base[i] == g2[n].children[i]);
                    assert(base.contains(base[i]));
                }
            }
        }
    }
    assert(edges_consistent(g2));
    let d = choose|d: Seq<nat>| depth_ok(g, d);
    let d2 = Seq::new(
        g.len(),
        |m: int|
            if reaches_up(g, m as usize, c) {
                (d[m] - d[c as int] + d[p as int] + 1) as nat
            } else {
                d[m]
            },
    );
    assert forall|m: int| 0 <= m < g2.len() && g2[m].parent is Some implies #[trigger] d2[m] == d2[g2[m].parent.unwrap() as int] + 1 by {
        let mu = m as usize;
        assert(mu as int == m);
        if mu == c {
            assert(reaches_up(g, c, c));
        } else {
            let q = g[m].parent.unwrap();
            lemma_reaches_via_parent(g, mu, q, c);
            if reaches_up(g, m as usize, c) {
                let k = choose|k: nat| #[trigger] ancestor_at(g, mu, k) == Some(c);
                lemma_ancestor_depth(g, d, mu, k);
            }
        }
    }
    assert(depth_ok(g2, d2));
}


spec fn indices_below(n: nat) -> Set<usize> {
    Set::new(|x: usize| x < n)
}

proof fn lemma_indices_below(n: nat)
    ensures
        indices_below(n).finite(),
        indices_below(n).len() <= n,
    decreases n,
{
    if n == 0 {
        assert(indices_below(n) =~= Set::<usize>::empty());
    } else {
        lemma_indices_below((n - 1) as nat);
        if n - 1 <= usize::MAX {
            assert(indices_below(n) =~= indices_below((n - 1) as nat).insert((n - 1) as usize));
        } else {
            assert(indices_below(n) =~= indices_below((n - 1) as nat));
        }
    }
}

/// A list of distinct indices below `n` has at most `n` entries.
proof fn lemma_distinct_bounded(s: Seq<usize>, n: nat)
    requires
        s.no_duplicates(),
        forall|i: int| 0 <= i < s.len() ==> s[i] < n,
    ensures
        s.len() <= n,
{
    s.unique_seq_to_set();
    lemma_indices_below(n);
    assert(s.to_set().subset_of(indices_below(n)));
    vstd::set_lib::lemma_len_subset(s.to_set(), indices_below(n));
}

/// Cutting `n` out of the graph keeps it consistent and acyclic.
proof fn lemma_detach_ok(g: Seq<TransformNodeView>, n: usize)
    requires
        graph_ok(g),
        g.len() <= usize::MAX,
        n < g.len(),
    ensures
        graph_ok(detached(g, n)),
{
    let g2 = detached(g, n);
    let q0 = g[n as int].parent;
    let d = choose|d: Seq<nat>| depth_ok(g, d);
    assert(!g[n as int].children.contains(n));
    assert forall|m: int| 0 <= m < g.len() implies (#[trigger] g[m].children).no_duplicates() && (forall|x: usize|
        #[trigger] without(g[m].children, n).contains(x) <==> g[m].children.contains(x) && x != n)
        && without(g[m].children, n).no_duplicates() by {
        lemma_without(g[m].children, n);
    }
    assert forall|m: int| 0 <= m < g.len() implies #[trigger] g2[m].children == (if m == n {
        Seq::<usize>::empty()
    } else if q0 == Some(m as usize) {
        without(g[m].children, n)
    } else {
        g[m].children
    }) && g2[m].parent == (if m == n || g[n as int].children.contains(m as usize) {
        None
    } else {
        g[m].parent
    }) by {
        assert((m as usize) as int == m);
    }
    assert forall|pq: usize, cq: usize| pq < g2.len() && cq < g2.len() implies (g2[cq as int].parent
        == Some(pq) <==> #[trigger] g2[pq as int].children.contains(cq)) by {
        assert(g[cq as int].parent == Some(pq) <==> g[pq as int].children.contains(cq));
        assert(g[cq as int].parent == Some(n) <==> g[n as int].children.contains(cq));
        if q0 == Some(pq) {
            assert(g[pq as int].children.contains(n));
        }
    }
    assert forall|m: int, j: int| 0 <= m < g2.len() && 0 <= j < g2[m].children.len() implies
        #[trigger] g2[m].children[j] < g2.len() by {
        let x = g2[m].children[j];
        assert(g2[m].children.contains(x));
        assert(g[m].children.contains(x));
        let i = choose|i: int| 0 <= i < g[m].children.len() && g[m].children[i] == x;
        assert(g[m].children[i] < g.len());
    }
    assert(edges_consistent(g2));
    assert(depth_ok(g2, d));
}

spec fn graph_ok(g: Seq<TransformNodeView>) -> bool {
    &&& edges_consistent(g)
    &&& exists|depth: Seq<nat>| depth_ok(g, depth)
}

/// The transform graph: an arena of nodes addressed by index. A parent owns
/// the edges to its children; a child keeps a non-owning index of its parent.
pub struct TransformGraph {
    nodes: Vec<TransformSpecialTrait>,
}

/// One node of the graph.
pub struct TransformSpecialTrait {
    parent: Option<usize>,
    children: Vec<usize>,
}

impl View for TransformSpecialTrait {
    type V = TransformNodeView;

    closed spec fn view(&self) -> TransformNodeView {
        TransformNodeView { parent: self.parent, children: self.children@ }
    }
}

impl TransformSpecialTrait {
    pub fn get_parent(&self) -> (r: Option<usize>)
        ensures
            r == self@.parent,
    {
        self.parent
    }

    pub fn get_children(&self) -> (r: Vec<usize>)
        ensures
            r@ == self@.children,
    {
        self.children.clone()
    }
}

spec fn nodes_view(nodes: Seq<TransformSpecialTrait>) -> Seq<TransformNodeView> {
    nodes.map_values(|n: TransformSpecialTrait| n@)
}

impl View for TransformGraph {
    type V = Seq<TransformNodeView>;

    closed spec fn view(&self) -> Seq<TransformNodeView> {
        nodes_view(self.nodes@)
    }
}

impl TransformGraph {
    #[verifier::type_invariant]
    spec fn graph_wf(&self) -> bool {
        graph_ok(nodes_view(self.nodes@))
    }

    proof fn lemma_empty_ok(nodes: Vec<TransformSpecialTrait>)
        requires
            nodes@.len() == 0,
        ensures
            graph_ok(nodes_view(nodes@)),
    {
        assert(nodes_view(nodes@) =~= Seq::empty());
        assert(depth_ok(nodes_view(nodes@), Seq::empty()));
    }

    /// An empty graph.
    pub fn new() -> (r: Self)
        ensures
            r@ == Seq::<TransformNodeView>::empty(),
    {
        let nodes: Vec<TransformSpecialTrait> = Vec::new();
        proof { Self::lemma_empty_ok(nodes); }
        let r = TransformGraph { nodes };
        assert(r@ =~= Seq::<TransformNodeView>::empty());
        r
    }

    pub fn len(&self) -> (r: usize)
        ensures
            r == self@.len(),
            edges_consistent(self@),
    {
        proof { use_type_invariant(self); }
        self.nodes.len()
    }

    /// The node at `i`.
    pub fn node(&self, i: usize) -> (r: &TransformSpecialTrait)
        requires
            i < self@.len(),
        ensures
            r@ == self@[i as int],
    {
        &self.nodes[i]
    }

    /// Whether `a` is `n` itself or one of its ancestors: a walk up the parent
    /// chain, which ends since the graph has no cycle.
    pub fn reaches(&self, n: usize, a: usize) -> (r: bool)
        requires
            n < self@.len(),
        ensures
            r == reaches_up(self@, n, a),
    {
        proof { use_type_invariant(self); }
        let ghost g = self@;
        let ghost d = choose|d: Seq<nat>| depth_ok(g, d);
        let mut cur = n;
        let ghost mut k: nat = 0;
        loop
            invariant
                g == self@,
                graph_ok(g),
                depth_ok(g, d),
                n < g.len(),
                cur < g.len(),
                ancestor_at(g, n, k) == Some(cur),
                forall|j: nat| j < k ==> ancestor_at(g, n, j) != Some(a),
            decreases d[cur as int],
        {
            if cur == a {
                return true;
            }
            match self.nodes[cur].parent {
                None => {
                    proof {
                        assert(ancestor_at(g, n, k + 1) is None);
                        assert forall|j: nat| ancestor_at(g, n, j) != Some(a) by {
                            if j > k {
                                lemma_ancestor_none_stays(g, n, k + 1, j);
                            }
                        }
                    }
                    return false;
                },
                Some(q) => {
                    proof {
                        assert(g[cur as int].parent == Some(q));
                        assert(ancestor_at(g, n, k + 1) == Some(q));
                        k = k + 1;
                    }
                    cur = q;
                },
            }
        }
    }

    fn replace_children(nodes: &mut Vec<TransformSpecialTrait>, i: usize, children: Vec<usize>)
        requires
            i < old(nodes)@.len(),
        ensures
            final(nodes)@.len() == old(nodes)@.len(),
            nodes_view(final(nodes)@) == nodes_view(old(nodes)@).update(
                i as int,
                TransformNodeView { children: children@, ..nodes_view(old(nodes)@)[i as int] },
            ),
    {
        let parent = nodes[i].parent;
        nodes.set(i, TransformSpecialTrait { parent, children });
        proof {
            assert(nodes_view(nodes@) =~= nodes_view(old(nodes)@).update(
                i as int,
                TransformNodeView { children: children@, ..nodes_view(old(nodes)@)[i as int] },
            ));
        }
    }

    fn copy_indices(v: &Vec<usize>) -> (r: Vec<usize>)
        ensures
            r@ == v@,
    {
        let mut r: Vec<usize> = Vec::new();
        let mut i: usize = 0;
        while i < v.len()
            invariant
                i <= v@.len(),
                r@ == v@.take(i as int),
            decreases v@.len() - i,
        {
            r.push(v[i]);
            i += 1;
            assert(r@ =~= v@.take(i as int));
        }
        assert(v@.take(i as int) =~= v@);
        r
    }

    fn without_child(children: &Vec<usize>, c: usize) -> (r: Vec<usize>)
        ensures
            r@ == without(children@, c),
    {
        let ghost pred = other_than(c);
        let mut r: Vec<usize> = Vec::new();
        let mut i: usize = 0;
        while i < children.len()
            invariant
                i <= children@.len(),
                pred == other_than(c),
                r@ == children@.take(i as int).filter(pred),
            decreases children@.len() - i,
        {
            proof {
                assert(children@.take(i + 1) =~= children@.take(i as int).push(children@[i as int]));
                children@.take(i as int).lemma_filter_push(children@[i as int], pred);
            }
            if children[i] != c {
                r.push(children[i]);
            }
            i += 1;
        }
        assert(children@.take(i as int) =~= children@);
        r
    }

    /// Moves `child` under `parent`: it leaves its old parent's child list and
    /// joins the end of `parent`'s. Fails, changing nothing, when `parent` is
    /// `child` itself or lies below it.
    pub fn set_hierarchy(&mut self, parent: usize, child: usize) -> (r: Result<(), LostLostLandsFaultForgedObject>)
        requires
            parent < old(self)@.len(),
            child < old(self)@.len(),
        ensures
            r is Err <==> reaches_up(old(self)@, parent, child),
            r is Err ==> r == Err::<(), _>(LostLostLandsFaultForgedObject::InvalidParentCycle)
                && final(self)@ == old(self)@,
            r is Ok ==> final(self)@ == reparented(old(self)@, child, parent),
            final(self)@.len() == old(self)@.len(),
            edges_consistent(final(self)@),
    {
        proof { use_type_invariant(&*self); }
        if self.reaches(parent, child) {
            return Err(LostLostLandsFaultForgedObject::InvalidParentCycle);
        }
        let count = self.nodes.len();
        let ghost g0 = self@;
        proof {
            assert(g0.len() == count);
            lemma_reparent_ok(g0, child, parent);
        }
        let mut nodes = Vec::new();
        proof { Self::lemma_empty_ok(nodes); }
        std::mem::swap(&mut nodes, &mut self.nodes);
        match nodes[child].parent {
            Some(q) => {
                let kept = Self::without_child(&nodes[q].children, child);
                Self::replace_children(&mut nodes, q, kept);
            },
            None => {},
        }
        proof {
            assert(nodes_view(nodes@) == unlinked(g0, child));
        }
        let mut joined = Self::copy_indices(&nodes[parent].children);
        joined.push(child);
        Self::replace_children(&mut nodes, parent, joined);
        let old_node = Self::copy_indices(&nodes[child].children);
        nodes.set(child, TransformSpecialTrait { parent: Some(parent), children: old_node });
        proof {
            assert(nodes_view(nodes@) =~= reparented(g0, child, parent));
        }
        self.nodes = nodes;
        Ok(())
    }

    fn replace_parent(nodes: &mut Vec<TransformSpecialTrait>, i: usize, parent: Option<usize>)
        requires
            i < old(nodes)@.len(),
        ensures
            final(nodes)@.len() == old(nodes)@.len(),
            nodes_view(final(nodes)@) == nodes_view(old(nodes)@).update(
                i as int,
                TransformNodeView { parent, ..nodes_view(old(nodes)@)[i as int] },
            ),
    {
        let children = Self::copy_indices(&nodes[i].children);
        nodes.set(i, TransformSpecialTrait { parent, children });
        proof {
            assert(nodes_view(nodes@) =~= nodes_view(old(nodes)@).update(
                i as int,
                TransformNodeView { parent, ..nodes_view(old(nodes)@)[i as int] },
            ));
        }
    }

    /// Cuts `n` out of the graph: it leaves its parent's child list, and it and
    /// each of its children become roots. No node is removed, so the children
    /// stay in the graph with their own subtrees.
    pub fn detach(&mut self, n: usize)
        requires
            n < old(self)@.len(),
        ensures
            final(self)@ == detached(old(self)@, n),
            final(self)@.len() == old(self)@.len(),
            edges_consistent(final(self)@),
    {
        proof { use_type_invariant(&*self); }
        let count = self.nodes.len();
        let ghost g0 = self@;
        proof {
            assert(g0.len() == count);
            lemma_detach_ok(g0, n);
        }
        let mut nodes = Vec::new();
        proof { Self::lemma_empty_ok(nodes); }
        std::mem::swap(&mut nodes, &mut self.nodes);
        match nodes[n].parent {
            Some(q) => {
                let kept = Self::without_child(&nodes[q].children, n);
                Self::replace_children(&mut nodes, q, kept);
            },
            None => {},
        }
        let ghost g1 = unlinked(g0, n);
        proof {
            let d = choose|d: Seq<nat>| depth_ok(g0, d);
            if let Some(q) = g0[n as int].parent {
                assert(d[n as int] == d[q as int] + 1);
                assert(q != n);
            }
            assert(g1[n as int] == g0[n as int]);
            assert(g0[n as int].children.contains(n) <==> g0[n as int].parent == Some(n));
            assert(!g0[n as int].children.contains(n));
            assert(g0[n as int].children.no_duplicates());
        }
        assert(nodes_view(nodes@) == g1);
        assert(nodes@.len() == nodes_view(nodes@).len());
        assert(nodes@.len() == g0.len());
        assert(nodes_view(nodes@)[n as int] == nodes@[n as int]@);
        let children = Self::copy_indices(&nodes[n].children);
        assert(children@ == g0[n as int].children);
        let mut i: usize = 0;
        while i < children.len()
            invariant
                nodes@.len() == g0.len(),
                count == g0.len(),
                graph_ok(g0),
                n < g0.len(),
                children@ == g0[n as int].children,
                !children@.contains(n),
                children@.no_duplicates(),
                g1 == unlinked(g0, n),
                i <= children@.len(),
                forall|m: int| 0 <= m < g0.len() ==> #[trigger] nodes_view(nodes@)[m] == (if m != n
                    && children@.take(i as int).contains(m as usize) {
                    TransformNodeView { parent: None, ..g1[m] }
                } else {
                    g1[m]
                }),
            decreases children@.len() - i,
        {
            let x = children[i];
            assert(g0[n as int].children[i as int] < g0.len());
            proof {
                assert(children@.contains(x));
                assert(x != n);
                assert(!children@.take(i as int).contains(x));
            }
            Self::replace_parent(&mut nodes, x, None);
            proof {
                assert(children@.take(i + 1) =~= children@.take(i as int).push(x));
                assert forall|m: int| 0 <= m < g0.len() implies #[trigger] nodes_view(nodes@)[m] == (if m != n
                    && children@.take(i + 1).contains(m as usize) {
                    TransformNodeView { parent: None, ..g1[m] }
                } else {
                    g1[m]
                }) by {
                    if m == x {
                        assert(children@.take(i + 1)[i as int] == x);
                    }
                    if children@.take(i + 1).contains(m as usize) && m != x {
                        let mu = m as usize;
                        let t = children@.take(i + 1);
                        let j = choose|j: int| 0 <= j < i + 1 && #[trigger] t[j] == mu;
                        assert(children@.take(i as int)[j] == mu);
                    }
                }
            }
            i += 1;
        }
        let ghost pre = nodes@;
        nodes.set(n, TransformSpecialTrait { parent: None, children: Vec::new() });
        proof {
            assert(children@.take(i as int) =~= children@);
            assert forall|m: int| 0 <= m < g0.len() implies #[trigger] nodes_view(nodes@)[m] == detached(g0, n)[m] by {
                assert((m as usize) as int == m);
                assert(nodes_view(nodes@)[m] == nodes@[m]@);
                if m != n {
                    assert(nodes@[m] == pre[m]);
                    assert(nodes_view(pre)[m] == pre[m]@);
                } else {
                    assert(nodes@[m]@.children =~= Seq::<usize>::empty());
                }
            }
            assert(nodes_view(nodes@) =~= detached(g0, n));
        }
        self.nodes = nodes;
    }

    /// The order in which world matrices are recomputed after a change at `n`:
    /// `n` first, then every node below it, each after its parent.
    pub fn recompute_order(&self, n: usize) -> (r: Vec<usize>)
        requires
            n < self@.len(),
        ensures
            r@.len() >= 1,
            r@[0] == n,
            r@.no_duplicates(),
            forall|m: usize| m < self@.len() ==> (r@.contains(m) <==> reaches_up(self@, m, n)),
            forall|j: int| #![trigger self@[r@[j] as int].parent] 1 <= j < r@.len() ==> exists|i: int| 0 <= i < j
                && self@[r@[j] as int].parent == Some(#[trigger] r@[i]),
    {
        proof { use_type_invariant(self); }
        let count = self.nodes.len();
        let ghost g = self@;
        let ghost d = choose|d: Seq<nat>| depth_ok(g, d);
        let mut out: Vec<usize> = Vec::new();
        out.push(n);
        let mut i: usize = 0;
        while i < out.len()
            invariant
                g == self@,
                count == g.len(),
                edges_consistent(g),
                depth_ok(g, d),
                n < g.len(),
                out@.len() >= 1,
                out@[0] == n,
                i <= out@.len(),
                out@.no_duplicates(),
                forall|j: int| 0 <= j < out@.len() ==> #[trigger] out@[j] < g.len(),
                forall|j: int| 0 <= j < out@.len() ==> d[#[trigger] out@[j] as int] >= d[n as int],
                forall|j: int| #![trigger g[out@[j] as int].parent] 1 <= j < out@.len() ==> exists|m: int| 0 <= m < i && m < j
                    && g[out@[j] as int].parent == Some(#[trigger] out@[m]),
                forall|j: int, x: usize| 0 <= j < i && #[trigger] g[out@[j] as int].children.contains(x)
                    ==> out@.contains(x),
            decreases count - i,
        {
            proof { lemma_distinct_bounded(out@, g.len()); }
            let x = out[i];
            let children = &self.nodes[x].children;
            let ghost before = out@;
            let mut k: usize = 0;
            while k < children.len()
                invariant
                    g == self@,
                    edges_consistent(g),
                    depth_ok(g, d),
                    x == before[i as int],
                    i < before.len(),
                    children@ == g[x as int].children,
                    k <= children@.len(),
                    before.len() >= 1,
                    before[0] == n,
                    before.no_duplicates(),
                    out@.no_duplicates(),
                    forall|j: int| 0 <= j < out@.len() ==> #[trigger] out@[j] < g.len(),
                    forall|j: int| 0 <= j < before.len() ==> #[trigger] before[j] < g.len(),
                    forall|j: int| 0 <= j < before.len() ==> d[#[trigger] before[j] as int] >= d[n as int],
                    forall|j: int| #![trigger g[before[j] as int].parent] 1 <= j < before.len() ==> exists|m: int| 0 <= m < i && m < j
                        && g[before[j] as int].parent == Some(#[trigger] before[m]),
                    out@ == before + children@.take(k as int),
                decreases children@.len() - k,
            {
                let c = children[k];
                proof {
                    assert(g[x as int].children.contains(c));
                    assert(g[c as int].parent == Some(x));
                    assert(c < g.len());
                    assert(!out@.contains(c)) by {
                        if out@.contains(c) {
                            let j = choose|j: int| 0 <= j < out@.len() && out@[j] == c;
                            if j >= before.len() {
                                assert(children@[j - before.len()] == c);
                            } else if j == 0 {
                                assert(d[c as int] == d[x as int] + 1);
                            } else {
                                let m = choose|m: int| 0 <= m < i && m < j
                                    && g[before[j] as int].parent == Some(#[trigger] before[m]);
                                assert(before[m] == x);
                            }
                        }
                    }
                }
                out.push(c);
                proof {
                    assert(children@.take(k + 1) =~= children@.take(k as int).push(c));
                }
                k += 1;
            }
            proof {
                assert(children@.take(k as int) =~= children@);
                assert forall|j: int| 0 <= j < out@.len() implies #[trigger] out@[j] < g.len()
                    && d[out@[j] as int] >= d[n as int] by {
                    if j >= before.len() {
                        let c = children@[j - before.len()];
                        assert(g[x as int].children.contains(c));
                    }
                }
                assert forall|j: int| #![trigger g[out@[j] as int].parent] 1 <= j < out@.len() implies exists|m: int| 0 <= m < i + 1 && m < j
                    && g[out@[j] as int].parent == Some(#[trigger] out@[m]) by {
                    if j >= before.len() {
                        let c = children@[j - before.len()];
                        assert(g[x as int].children.contains(c));
                        assert(out@[i as int] == x);
                    } else {
                        let m = choose|m: int| 0 <= m < i && m < j
                            && g[before[j] as int].parent == Some(#[trigger] before[m]);
                        assert(out@[m] == before[m]);
                    }
                }
                assert forall|j: int, y: usize| 0 <= j < i + 1 && #[trigger] g[out@[j] as int].children.contains(y)
                    implies out@.contains(y) by {
                    if j == i {
                        let t = choose|t: int| 0 <= t < children@.len() && children@[t] == y;
                        assert(out@[before.len() + t] == y);
                    } else {
                        assert(before.contains(y));
                        let t = choose|t: int| 0 <= t < before.len() && before[t] == y;
                        assert(out@[t] == y);
                    }
                }
            }
            i += 1;
        }
        proof {
            Self::lemma_order_is_subtree(g, d, n, out@);
        }
        out
    }

    proof fn lemma_order_is_subtree(g: Seq<TransformNodeView>, d: Seq<nat>, n: usize, out: Seq<usize>)
        requires
            edges_consistent(g),
            depth_ok(g, d),
            n < g.len(),
            out.len() >= 1,
            out[0] == n,
            forall|j: int| 0 <= j < out.len() ==> #[trigger] out[j] < g.len(),
            forall|j: int| #![trigger g[out[j] as int].parent] 1 <= j < out.len() ==> exists|m: int| 0 <= m < j
                && g[out[j] as int].parent == Some(#[trigger] out[m]),
            forall|j: int, x: usize| 0 <= j < out.len() && #[trigger] g[out[j] as int].children.contains(x)
                ==> out.contains(x),
        ensures
            forall|m: usize| m < g.len() ==> (out.contains(m) <==> reaches_up(g, m, n)),
    {
        assert forall|j: int| 0 <= j < out.len() implies reaches_up(g, #[trigger] out[j], n) by {
            Self::lemma_prefix_reaches(g, n, out, j);
        }
        assert forall|m: usize| m < g.len() && reaches_up(g, m, n) implies out.contains(m) by {
            let k = choose|k: nat| ancestor_at(g, m, k) == Some(n);
            Self::lemma_reaches_in(g, n, out, m, k);
        }
        assert forall|m: usize| m < g.len() && out.contains(m) implies reaches_up(g, m, n) by {
            let j = choose|j: int| 0 <= j < out.len() && out[j] == m;
            assert(reaches_up(g, out[j], n));
        }
    }

    proof fn lemma_prefix_reaches(g: Seq<TransformNodeView>, n: usize, out: Seq<usize>, j: int)
        requires
            out.len() >= 1,
            out[0] == n,
            0 <= j < out.len(),
            forall|j: int| 0 <= j < out.len() ==> #[trigger] out[j] < g.len(),
            forall|j: int| #![trigger g[out[j] as int].parent] 1 <= j < out.len() ==> exists|m: int| 0 <= m < j
                && g[out[j] as int].parent == Some(#[trigger] out[m]),
        ensures
            reaches_up(g, out[j], n),
        decreases j,
    {
        if j == 0 {
            assert(ancestor_at(g, n, 0) == Some(n));
        } else {
            let m = choose|m: int| 0 <= m < j && g[out[j] as int].parent == Some(#[trigger] out[m]);
            Self::lemma_prefix_reaches(g, n, out, m);
            let k = choose|k: nat| ancestor_at(g, out[m], k) == Some(n);
            lemma_ancestor_shift(g, out[j], out[m], k);
        }
    }

    proof fn lemma_reaches_in(g: Seq<TransformNodeView>, n: usize, out: Seq<usize>, m: usize, k: nat)
        requires
            edges_consistent(g),
            m < g.len(),
            out.contains(n),
            ancestor_at(g, m, k) == Some(n),
            forall|j: int| 0 <= j < out.len() ==> #[trigger] out[j] < g.len(),
            forall|j: int, x: usize| 0 <= j < out.len() && #[trigger] g[out[j] as int].children.contains(x)
                ==> out.contains(x),
        ensures
            out.contains(m),
        decreases k,
    {
        if k > 0 {
            assert(ancestor_at(g, m, 0) == Some(m));
            assert(ancestor_at(g, m, 1) == g[m as int].parent);
            if g[m as int].parent is None {
                lemma_ancestor_none_stays(g, m, 1, k);
            } else {
                let q = g[m as int].parent.unwrap();
                lemma_ancestor_shift(g, m, q, (k - 1) as nat);
                Self::lemma_reaches_in(g, n, out, q, (k - 1) as nat);
                let j = choose|j: int| 0 <= j < out.len() && out[j] == q;
                assert(g[q as int].children.contains(m));
            }
        }
    }

    /// Adds a root without children and returns its index.
    pub fn add_node(&mut self) -> (r: usize)
        ensures
            r == old(self)@.len(),
            final(self)@ == old(self)@.push(TransformNodeView { parent: None, children: Seq::empty() }),
    {
        proof { use_type_invariant(&*self); }
        let ghost g0 = self@;
        let mut nodes = Vec::new();
        proof { Self::lemma_empty_ok(nodes); }
        std::mem::swap(&mut nodes, &mut self.nodes);
        let r = nodes.len();
        nodes.push(TransformSpecialTrait { parent: None, children: Vec::new() });
        let ghost g1 = nodes_view(nodes@);
        let ghost d0 = choose|depth: Seq<nat>| depth_ok(g0, depth);
        let ghost d1 = d0.push(0);
        proof {
            assert(g1 =~= g0.push(TransformNodeView { parent: None, children: Seq::empty() }));
            assert forall|p: usize, c: usize| p < g1.len() && c < g1.len() implies (g1[c as int].parent
                == Some(p) <==> g1[p as int].children.contains(c)) by {
                if p < g0.len() && c < g0.len() {
                    assert(g0[c as int].parent == Some(p) <==> g0[p as int].children.contains(c));
                }
                if c == r && p < g0.len() {
                    if g1[p as int].children.contains(c) {
                        let j = choose|j: int| 0 <= j < g0[p as int].children.len()
                            && g0[p as int].children[j] == c;
                        assert(g0[p as int].children[j] < g0.len());
                    }
                }
            }
            assert(edges_consistent(g1));
            assert(depth_ok(g1, d1));
            assert(graph_ok(g1));
        }
        self.nodes = nodes;
        r
    }
}

} // verus!
