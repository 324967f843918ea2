//! A graph store: a bijection between node names and ids, and an outgoing
//! and an ingoing adjacency that mirror each other.
use vstd::prelude::*;

use crate::adjacency::{edge_view, Adjacency, EdgeView, NodeID, StoredEdge, BLOCK_SIZE};

verus! {

/// A directed edge between two ids, with its label.
#[derive(Debug)]
pub struct Edge {
    pub from: NodeID,
    pub to: NodeID,
    pub label: String,
}

pub open spec fn edge_triple(e: Edge) -> (NodeID, NodeID, Seq<char>) {
    (e.from, e.to, e.label@)
}

pub struct GraphStore {
    pub id2node: Vec<String>,
    pub outgoing: Adjacency,
    pub ingoing: Adjacency,
}

/// Every edge stored in `adj` lies between ids below `n`.
pub open spec fn ids_below(adj: Adjacency, n: int) -> bool {
    &&& forall|u: int| #[trigger] adj.edges_of(u).len() > 0 ==> 0 <= u < n
    &&& forall|u: int, k: int| 0 <= k < adj.edges_of(u).len() ==> #[trigger] adj.edges_of(u)[k].0 < n
}

/// Every edge `u -> v` stored in `from` is stored as `v -> u` in `to`.
pub open spec fn mirrored_in(from: Adjacency, to: Adjacency) -> bool {
    forall|u: int, k: int|
        0 <= u && 0 <= k < from.edges_of(u).len() ==> to.edges_of(
            #[trigger] from.edges_of(u)[k].0 as int,
        ).contains((u as NodeID, from.edges_of(u)[k].1))
}

/// Both adjacencies name ids below `n` and mirror each other.
pub open spec fn mirror_ok(out: Adjacency, inn: Adjacency, n: int) -> bool {
    &&& ids_below(out, n)
    &&& ids_below(inn, n)
    &&& mirrored_in(out, inn)
    &&& mirrored_in(inn, out)
}

pub proof fn lemma_ids_below_grow(a: Adjacency, n: int, m: int)
    requires
        ids_below(a, n),
        n <= m,
    ensures
        ids_below(a, m),
{
}

impl GraphStore {
    /// The node names, indexed by id.
    pub open spec fn names(&self) -> Seq<Seq<char>> {
        self.id2node@.map_values(|s: String| s@)
    }

    pub open spec fn n(&self) -> int {
        self.id2node@.len() as int
    }

    pub open spec fn out_edges(&self, u: int) -> Seq<EdgeView> {
        self.outgoing.edges_of(u)
    }

    pub open spec fn in_edges(&self, u: int) -> Seq<EdgeView> {
        self.ingoing.edges_of(u)
    }

    /// Whether the labeled edge `u -> v` is stored on both sides.
    pub open spec fn mirrored(&self, u: int, v: int, label: Seq<char>) -> bool {
        self.out_edges(u).contains((v as NodeID, label)) && self.in_edges(v).contains(
            (u as NodeID, label),
        )
    }

    pub open spec fn wf(&self) -> bool {
        &&& self.outgoing.wf()
        &&& self.ingoing.wf()
        &&& self.n() < usize::MAX
        &&& forall|i: int, j: int|
            0 <= i < self.n() && 0 <= j < self.n() && i != j ==> self.names()[i]
                != self.names()[j]
        &&& mirror_ok(self.outgoing, self.ingoing, self.n())
    }

    /// Room to assign two more ids.
    pub open spec fn has_room(&self) -> bool {
        self.n() + 2 < usize::MAX
    }

    pub fn new() -> (r: GraphStore)
        ensures
            r.wf(),
            r.n() == 0,
            forall|a: int| #[trigger] r.out_edges(a).len() == 0,
            forall|a: int| #[trigger] r.in_edges(a).len() == 0,
    {
        GraphStore { id2node: Vec::new(), outgoing: Adjacency::new(), ingoing: Adjacency::new() }
    }

    pub fn node_count(&self) -> (r: usize)
        ensures
            r == self.n(),
    {
        self.id2node.len()
    }

    /// Every assigned id, in assignment order.
    pub fn nodes(&self) -> (r: Vec<NodeID>)
        requires
            self.wf(),
        ensures
            r@ == Seq::new(self.n() as nat, |i: int| i as NodeID),
    {
        let n = self.id2node.len();
        let mut r: Vec<NodeID> = Vec::new();
        let mut i: usize = 0;
        while i < n
            invariant
                i <= n,
                n == self.n(),
                r@ == Seq::new(i as nat, |j: int| j as NodeID),
            decreases n - i,
        {
            r.push(i as NodeID);
            i += 1;
            assert(r@ =~= Seq::new(i as nat, |j: int| j as NodeID));
        }
        r
    }

    /// The id of the node named `name`, if it has one.
    pub fn node2id(&self, name: &String) -> (r: Option<NodeID>)
        requires
            self.wf(),
        ensures
            match r {
                Some(id) => id < self.n() && self.names()[id as int] == name@,
                None => forall|i: int| 0 <= i < self.n() ==> self.names()[i] != name@,
            },
    {
        let mut i: usize = 0;
        while i < self.id2node.len()
            invariant
                i <= self.n(),
                forall|j: int| 0 <= j < i ==> self.names()[j] != name@,
            decreases self.n() - i,
        {
            if self.id2node[i] == *name {
                return Some(i as NodeID);
            }
            i += 1;
        }
        None
    }

    /// The name of node `id`, if `id` is assigned.
    pub fn id2node(&self, id: NodeID) -> (r: Option<String>)
        ensures
            match r {
                Some(s) => id < self.n() && s@ == self.names()[id as int],
                None => id >= self.n(),
            },
    {
        if id < self.id2node.len() as u64 {
            Some(self.id2node[id as usize].clone())
        } else {
            None
        }
    }

    /// The id of `name`, assigning the next id when it has none.
    fn assign(&mut self, name: String) -> (r: NodeID)
        requires
            old(self).wf(),
            old(self).n() + 1 < usize::MAX,
        ensures
            final(self).wf(),
            r < final(self).n(),
            final(self).n() <= old(self).n() + 1,
            final(self).names()[r as int] == name@,
            old(self).names().contains(name@) ==> final(self).names() == old(self).names(),
            !old(self).names().contains(name@) ==> final(self).names() == old(self).names().push(
                name@,
            ),
            final(self).outgoing == old(self).outgoing,
            final(self).ingoing == old(self).ingoing,
    {
        match self.node2id(&name) {
            Some(id) => id,
            None => {
                let id = self.id2node.len() as NodeID;
                let ghost old_names = self.names();
                let ghost nv = name@;
                self.id2node.push(name);
                assert(self.names() =~= old_names.push(nv));
                assert forall|i: int, j: int|
                    0 <= i < self.n() && 0 <= j < self.n() && i != j implies self.names()[i]
                        != self.names()[j] by {
                    if i < old_names.len() && j < old_names.len() {
                        assert(self.names()[i] == old_names[i]);
                        assert(self.names()[j] == old_names[j]);
                    }
                }
                assert(!old_names.contains(nv));
                proof {
                    lemma_ids_below_grow(self.outgoing, old_names.len() as int, self.n());
                    lemma_ids_below_grow(self.ingoing, old_names.len() as int, self.n());
                }
                id
            },
        }
    }

    /// Assigns the next id to `name`, which has none yet.
    pub fn push_new(&mut self, name: String) -> (r: NodeID)
        requires
            old(self).wf(),
            old(self).n() + 1 < usize::MAX,
            forall|i: int| 0 <= i < old(self).n() ==> old(self).names()[i] != name@,
        ensures
            final(self).wf(),
            r == old(self).n(),
            final(self).n() == old(self).n() + 1,
            final(self).names() == old(self).names().push(name@),
            final(self).outgoing == old(self).outgoing,
            final(self).ingoing == old(self).ingoing,
    {
        let ghost nv = name@;
        let ghost old_names = self.names();
        let id = self.id2node.len() as NodeID;
        self.id2node.push(name);
        assert(self.names() =~= old_names.push(nv));
        assert forall|i: int, j: int|
            0 <= i < self.n() && 0 <= j < self.n() && i != j implies self.names()[i]
                != self.names()[j] by {
            if i < old_names.len() && j < old_names.len() {
                assert(self.names()[i] == old_names[i]);
                assert(self.names()[j] == old_names[j]);
            }
        }
        proof {
            lemma_ids_below_grow(self.outgoing, old_names.len() as int, self.n());
            lemma_ids_below_grow(self.ingoing, old_names.len() as int, self.n());
        }
        id
    }

    /// Inserts the labeled edge `u -> v` between assigned ids.
    pub fn insert_ids(&mut self, u: NodeID, v: NodeID, label: String)
        requires
            old(self).wf(),
            u < old(self).n(),
            v < old(self).n(),
        ensures
            final(self).wf(),
            final(self).id2node == old(self).id2node,
            final(self).out_edges(u as int) == old(self).out_edges(u as int).push((v, label@)),
            final(self).in_edges(v as int) == old(self).in_edges(v as int).push((u, label@)),
            forall|w: int| w != u ==> #[trigger] final(self).out_edges(w) == old(self).out_edges(w),
            forall|w: int| w != v ==> #[trigger] final(self).in_edges(w) == old(self).in_edges(w),
            final(self).mirrored(u as int, v as int, label@),
    {
        let ghost g1 = *self;
        let ghost lv = label@;
        let back = label.clone();
        self.outgoing.insert(u, StoredEdge { other: v, label });
        self.ingoing.insert(v, StoredEdge { other: u, label: back });
        assert(self.out_edges(u as int)[self.out_edges(u as int).len() - 1] == (v, lv));
        assert(self.in_edges(v as int)[self.in_edges(v as int).len() - 1] == (u, lv));
        assert(self.names() == g1.names());
        assert forall|a: int| #[trigger] self.outgoing.edges_of(a).len() > 0 implies 0 <= a < self.n() by {
            if a != u {
                assert(self.out_edges(a) == g1.out_edges(a));
            }
        }
        assert forall|a: int| #[trigger] self.ingoing.edges_of(a).len() > 0 implies 0 <= a < self.n() by {
            if a != v {
                assert(self.in_edges(a) == g1.in_edges(a));
            }
        }
        assert forall|a: int, k: int|
            0 <= k < self.outgoing.edges_of(a).len() implies #[trigger] self.outgoing.edges_of(a)[k].0 < self.n() by {
            if a != u || k != self.out_edges(a).len() - 1 {
                assert(self.out_edges(a)[k] == g1.out_edges(a)[k]);
            }
        }
        assert forall|a: int, k: int|
            0 <= k < self.ingoing.edges_of(a).len() implies #[trigger] self.ingoing.edges_of(a)[k].0 < self.n() by {
            if a != v || k != self.in_edges(a).len() - 1 {
                assert(self.in_edges(a)[k] == g1.in_edges(a)[k]);
            }
        }
        assert forall|a: int, k: int|
            0 <= a && 0 <= k < self.outgoing.edges_of(a).len() implies self.ingoing.edges_of(
                #[trigger] self.outgoing.edges_of(a)[k].0 as int,
            ).contains((a as NodeID, self.outgoing.edges_of(a)[k].1)) by {
            if a == u && k == self.out_edges(a).len() - 1 {
                assert(self.in_edges(v as int)[self.in_edges(v as int).len() - 1] == (u, lv));
            } else {
                assert(self.out_edges(a)[k] == g1.out_edges(a)[k]);
                let g = g1.outgoing.edges_of(a)[k];
                let b = g.0 as int;
                assert(g1.ingoing.edges_of(b).contains((a as NodeID, g.1)));
                let j = choose|j: int| 0 <= j < g1.in_edges(b).len() && g1.in_edges(b)[j] == (a as NodeID, g.1);
                assert(self.in_edges(b)[j] == g1.in_edges(b)[j]);
            }
        }
        assert forall|a: int, k: int|
            0 <= a && 0 <= k < self.ingoing.edges_of(a).len() implies self.outgoing.edges_of(
                #[trigger] self.ingoing.edges_of(a)[k].0 as int,
            ).contains((a as NodeID, self.ingoing.edges_of(a)[k].1)) by {
            if a == v && k == self.in_edges(a).len() - 1 {
                assert(self.out_edges(u as int)[self.out_edges(u as int).len() - 1] == (v, lv));
            } else {
                assert(self.in_edges(a)[k] == g1.in_edges(a)[k]);
                let g = g1.ingoing.edges_of(a)[k];
                let b = g.0 as int;
                assert(g1.outgoing.edges_of(b).contains((a as NodeID, g.1)));
                let j = choose|j: int| 0 <= j < g1.out_edges(b).len() && g1.out_edges(b)[j] == (a as NodeID, g.1);
                assert(self.out_edges(b)[j] == g1.out_edges(b)[j]);
            }
        }
        assert(self.outgoing.wf());
        assert(self.ingoing.wf());
        assert(mirror_ok(self.outgoing, self.ingoing, self.n()));
        assert(self.mirrored(u as int, v as int, lv));
    }

    /// Whether `insert` of `(from, to, label)` turned `g0` into `g1`.
    pub open spec fn inserted(g0: GraphStore, g1: GraphStore, from: Seq<char>, to: Seq<char>, label: Seq<char>) -> bool {
        &&& g1.n() <= g0.n() + 2
        &&& g1.names().subrange(0, g0.n()) == g0.names()
        &&& forall|x: Seq<char>|
                #[trigger] g1.names().contains(x) <==> (g0.names().contains(x) || x == from || x == to)
        &&& exists|u: int, v: int|
                0 <= u < g1.n() && 0 <= v < g1.n() && g1.names()[u] == from && g1.names()[v] == to
                    && g1.out_edges(u) == g0.out_edges(u).push((v as NodeID, label))
                    && g1.in_edges(v) == g0.in_edges(v).push((u as NodeID, label))
                    && (forall|w: int| w != u ==> #[trigger] g1.out_edges(w) == g0.out_edges(w))
                    && (forall|w: int| w != v ==> #[trigger] g1.in_edges(w) == g0.in_edges(w))
                    && #[trigger] g1.mirrored(u, v, label)
    }

    /// Inserts the labeled edge `from -> to`, assigning ids to new names.
    pub fn insert(&mut self, from: String, to: String, label: String)
        requires
            old(self).wf(),
            old(self).has_room(),
        ensures
            final(self).wf(),
            GraphStore::inserted(*old(self), *final(self), from@, to@, label@),
    {
        let ghost g0 = *self;
        let ghost lv = label@;
        let u = self.assign(from);
        let v = self.assign(to);
        let ghost g1 = *self;
        self.insert_ids(u, v, label);
        assert forall|x: Seq<char>| #[trigger] self.names().contains(x) <==> (g0.names().contains(x)
            || x == from@ || x == to@) by {
            if g0.names().contains(x) {
                let j = choose|j: int| 0 <= j < g0.names().len() && g0.names()[j] == x;
                assert(self.names()[j] == x);
            }
            if x == from@ {
                assert(self.names()[u as int] == x);
            }
            if x == to@ {
                assert(self.names()[v as int] == x);
            }
        }
        assert(self.names().subrange(0, g0.n()) =~= g0.names());
        assert(self.mirrored(u as int, v as int, lv));
    }
}


/// Every edge sequence of `g0` is a prefix of the one in `g1`.
pub open spec fn edges_extend(g0: GraphStore, g1: GraphStore) -> bool {
    forall|a: int|
        #![trigger g1.out_edges(a)]
        g0.out_edges(a).len() <= g1.out_edges(a).len() && g1.out_edges(a).subrange(
            0,
            g0.out_edges(a).len() as int,
        ) == g0.out_edges(a)
}

pub proof fn lemma_extend_contains(g0: GraphStore, g1: GraphStore, a: int, y: EdgeView)
    requires
        edges_extend(g0, g1),
        g0.out_edges(a).contains(y),
    ensures
        g1.out_edges(a).contains(y),
{
    let t = choose|t: int| 0 <= t < g0.out_edges(a).len() && g0.out_edges(a)[t] == y;
    assert(g1.out_edges(a).subrange(0, g0.out_edges(a).len() as int)[t] == y);
    assert(g1.out_edges(a)[t] == y);
}

/// `base` with the names of `add[..k]` that it lacks appended, in order.
pub open spec fn names_after(base: Seq<Seq<char>>, add: Seq<Seq<char>>, k: nat) -> Seq<Seq<char>>
    decreases k,
{
    if k == 0 {
        base
    } else {
        let p = names_after(base, add, (k - 1) as nat);
        if p.contains(add[k - 1]) {
            p
        } else {
            p.push(add[k - 1])
        }
    }
}

/// The position of `x` in `names`.
pub open spec fn index_in(names: Seq<Seq<char>>, x: Seq<char>) -> int {
    choose|i: int| 0 <= i < names.len() && names[i] == x
}

/// The edges leaving `other`'s node `u`, with peers as ids of `names`.
pub open spec fn translated_out(names: Seq<Seq<char>>, other: GraphStore, u: int) -> Seq<EdgeView> {
    other.out_edges(u).map_values(
        |e: EdgeView| (index_in(names, other.names()[e.0 as int]) as NodeID, e.1),
    )
}

/// The edges that merging `other` adds after those of node `a` of `names`.
pub open spec fn merged_out(names: Seq<Seq<char>>, other: GraphStore, a: int) -> Seq<EdgeView> {
    if 0 <= a < names.len() && other.names().contains(names[a]) {
        translated_out(names, other, index_in(other.names(), names[a]))
    } else {
        Seq::empty()
    }
}

/// The edges of `other`'s node `x`, with peers mapped through `ids`.
pub open spec fn mapped_out(other: GraphStore, ids: Seq<NodeID>, x: int) -> Seq<EdgeView> {
    other.out_edges(x).map_values(|e: EdgeView| (ids[e.0 as int], e.1))
}

/// The in-edges of `b` that merging adds from the first `k` edges of
/// `other`'s node `x`, as (source id, label), ids mapped through `ids`.
pub open spec fn into_from(other: GraphStore, ids: Seq<NodeID>, b: int, x: int, k: nat) -> Seq<EdgeView>
    decreases k,
{
    if k == 0 {
        Seq::empty()
    } else {
        let r = into_from(other, ids, b, x, (k - 1) as nat);
        let e = other.out_edges(x)[k - 1];
        if ids[e.0 as int] as int == b {
            r.push((ids[x], e.1))
        } else {
            r
        }
    }
}

/// The in-edges of `b` that merging adds from `other`'s nodes below `u`.
pub open spec fn into_upto(other: GraphStore, ids: Seq<NodeID>, b: int, u: nat) -> Seq<EdgeView>
    decreases u,
{
    if u == 0 {
        Seq::empty()
    } else {
        into_upto(other, ids, b, (u - 1) as nat) + into_from(
            other,
            ids,
            b,
            u - 1,
            other.out_edges(u - 1).len(),
        )
    }
}

/// Where merging into a store named `names` puts each of `other`'s nodes.
pub open spec fn id_map(names: Seq<Seq<char>>, other: GraphStore) -> Seq<NodeID> {
    Seq::new(other.n() as nat, |x: int| index_in(names, other.names()[x]) as NodeID)
}

pub proof fn lemma_index_in(names: Seq<Seq<char>>, i: int)
    requires
        0 <= i < names.len(),
        forall|a: int, b: int| 0 <= a < names.len() && 0 <= b < names.len() && a != b ==> names[a] != names[b],
    ensures
        index_in(names, names[i]) == i,
{
    let j = index_in(names, names[i]);
    assert(0 <= j < names.len() && names[j] == names[i]);
}

impl GraphStore {
    /// Whether an edge `from -> to` with `label` is stored, by names.
    pub open spec fn has_named_edge(&self, from: Seq<char>, to: Seq<char>, label: Seq<char>) -> bool {
        exists|a: int, b: int|
            0 <= a < self.n() && 0 <= b < self.n() && self.names()[a] == from && self.names()[b]
                == to && #[trigger] self.out_edges(a).contains((b as NodeID, label))
    }

    /// Merges `other` into this store: its names are mapped into this
    /// store's ids, new ids assigned as needed, and its edges re-inserted.
    pub fn append(&mut self, other: GraphStore)
        requires
            old(self).wf(),
            other.wf(),
            old(self).n() + other.n() + 1 < usize::MAX,
        ensures
            final(self).wf(),
            final(self).names() == names_after(old(self).names(), other.names(), other.n() as nat),
            forall|a: int|
                #[trigger] final(self).out_edges(a) == old(self).out_edges(a) + merged_out(
                    final(self).names(),
                    other,
                    a,
                ),
            forall|b: int|
                #[trigger] final(self).in_edges(b) == old(self).in_edges(b) + into_upto(
                    other,
                    id_map(final(self).names(), other),
                    b,
                    other.n() as nat,
                ),
            final(self).names().subrange(0, old(self).n()) == old(self).names(),
            forall|u: int| 0 <= u < other.n() ==> final(self).names().contains(#[trigger] other.names()[u]),
            edges_extend(*old(self), *final(self)),
            forall|u: int, k: int|
                0 <= k < other.out_edges(u).len() ==> final(self).has_named_edge(
                    other.names()[u],
                    other.names()[#[trigger] other.out_edges(u)[k].0 as int],
                    other.out_edges(u)[k].1,
                ),
    {
        let ghost g0 = *self;
        let mut ids: Vec<NodeID> = Vec::new();
        let m = other.id2node.len();
        let mut u: usize = 0;
        while u < m
            invariant
                self.wf(),
                other.wf(),
                m == other.n(),
                u <= m,
                g0.n() + other.n() + 1 < usize::MAX,
                self.n() <= g0.n() + u,
                g0.n() <= self.n(),
                self.names().subrange(0, g0.n()) == g0.names(),
                self.outgoing == g0.outgoing,
                self.ingoing == g0.ingoing,
                self.names() == names_after(g0.names(), other.names(), u as nat),
                ids@.len() == u,
                forall|i: int| 0 <= i < u ==> (#[trigger] ids@[i]) < self.n() && self.names()[ids@[i] as int]
                    == other.names()[i],
            decreases m - u,
        {
            let ghost before = *self;
            let nm = other.id2node[u].clone();
            let ghost nv = nm@;
            let id = self.assign(nm);
            ids.push(id);
            assert(nv == other.names()[u as int]);
            assert forall|i: int| 0 <= i < u + 1 implies (#[trigger] ids@[i]) < self.n() && self.names()[ids@[i] as int]
                == other.names()[i] by {
                if i < u {
                    if !before.names().contains(nv) {
                        assert(self.names() == before.names().push(nv));
                    }
                    assert(before.names()[ids@[i] as int] == self.names()[ids@[i] as int]);
                }
            }
            assert(self.names().subrange(0, g0.n()) =~= g0.names()) by {
                assert(self.names().subrange(0, before.n()) == before.names());
                assert(before.names().subrange(0, g0.n()).len() == g0.n());
                assert forall|i: int| 0 <= i < g0.n() implies self.names()[i] == g0.names()[i] by {
                    assert(before.names().subrange(0, g0.n())[i] == g0.names()[i]);
                    if !before.names().contains(nv) {
                        assert(self.names() == before.names().push(nv));
                    }
                    assert(self.names()[i] == before.names()[i]);
                }
            }
            u += 1;
        }
        let ghost g1 = *self;
        assert forall|x: int, y: int| 0 <= x < m && 0 <= y < m && x != y implies ids@[x] != ids@[y] by {
            if ids@[x] == ids@[y] {
                assert(other.names()[x] == other.names()[y]);
            }
        }
        assert(edges_extend(g0, g1)) by {
            assert forall|a: int| #![trigger g1.out_edges(a)] g0.out_edges(a).len() <= g1.out_edges(a).len()
                && g1.out_edges(a).subrange(0, g0.out_edges(a).len() as int) == g0.out_edges(a) by {
                assert(g1.out_edges(a).subrange(0, g0.out_edges(a).len() as int) =~= g0.out_edges(a));
            }
        }
        let mut u: usize = 0;
        while u < m
            invariant
                self.wf(),
                other.wf(),
                m == other.n(),
                u <= m,
                self.id2node == g1.id2node,
                edges_extend(g0, *self),
                ids@.len() == m,
                forall|i: int| 0 <= i < m ==> (#[trigger] ids@[i]) < self.n() && self.names()[ids@[i] as int]
                    == other.names()[i],
                forall|i: int, j: int|
                    0 <= i < u && 0 <= j < other.out_edges(i).len() ==> self.out_edges(ids@[i] as int).contains(
                        (ids@[#[trigger] other.out_edges(i)[j].0 as int], other.out_edges(i)[j].1),
                    ),
                forall|x: int, y: int| 0 <= x < m && 0 <= y < m && x != y ==> ids@[x] != ids@[y],
                forall|x: int|
                    0 <= x < u ==> self.out_edges(#[trigger] ids@[x] as int) == g0.out_edges(ids@[x] as int)
                        + mapped_out(other, ids@, x),
                forall|a: int|
                    (forall|x: int| 0 <= x < u ==> ids@[x] as int != a) ==> #[trigger] self.out_edges(a)
                        == g0.out_edges(a),
                forall|c: int| #[trigger] self.in_edges(c) == g0.in_edges(c) + into_upto(other, ids@, c, u as nat),
            decreases m - u,
        {
            let cnt = other.outgoing.edge_count(u as NodeID);
            let mut k: usize = 0;
            proof {
                let a0 = ids@[u as int] as int;
                assert forall|x: int| 0 <= x < u implies ids@[x] as int != a0 by {
                    assert(ids@[x] != ids@[u as int]);
                }
                assert(self.out_edges(a0) == g0.out_edges(a0));
                assert(mapped_out(other, ids@, u as int).subrange(0, 0) =~= Seq::<EdgeView>::empty());
                assert forall|c: int| #[trigger] self.in_edges(c) == g0.in_edges(c) + into_upto(other, ids@, c, u as nat)
                    + into_from(other, ids@, c, u as int, 0) by {
                    assert(g0.in_edges(c) + into_upto(other, ids@, c, u as nat) + into_from(other, ids@, c, u as int, 0)
                        =~= g0.in_edges(c) + into_upto(other, ids@, c, u as nat));
                }
                assert(self.out_edges(a0) =~= g0.out_edges(a0) + mapped_out(other, ids@, u as int).subrange(0, 0));
                assert forall|a: int| (forall|x: int| 0 <= x <= u ==> ids@[x] as int != a) implies #[trigger] self.out_edges(a)
                    == g0.out_edges(a) by {
                    assert forall|x: int| 0 <= x < u implies ids@[x] as int != a by {
                        assert(0 <= x <= u);
                    }
                }
            }
            while k < cnt
                invariant
                    self.wf(),
                    other.wf(),
                    m == other.n(),
                    u < m,
                    cnt == other.out_edges(u as int).len(),
                    k <= cnt,
                    self.id2node == g1.id2node,
                    edges_extend(g0, *self),
                    ids@.len() == m,
                    forall|i: int| 0 <= i < m ==> (#[trigger] ids@[i]) < self.n() && self.names()[ids@[i] as int]
                        == other.names()[i],
                    forall|i: int, j: int|
                        0 <= i < u && 0 <= j < other.out_edges(i).len() ==> self.out_edges(ids@[i] as int).contains(
                            (ids@[#[trigger] other.out_edges(i)[j].0 as int], other.out_edges(i)[j].1),
                        ),
                    forall|j: int|
                        0 <= j < k ==> self.out_edges(ids@[u as int] as int).contains(
                            (ids@[#[trigger] other.out_edges(u as int)[j].0 as int], other.out_edges(u as int)[j].1),
                        ),
                    forall|x: int, y: int| 0 <= x < m && 0 <= y < m && x != y ==> ids@[x] != ids@[y],
                    forall|x: int|
                        0 <= x < u ==> self.out_edges(#[trigger] ids@[x] as int) == g0.out_edges(ids@[x] as int)
                            + mapped_out(other, ids@, x),
                    self.out_edges(ids@[u as int] as int) == g0.out_edges(ids@[u as int] as int) + mapped_out(
                        other,
                        ids@,
                        u as int,
                    ).subrange(0, k as int),
                    forall|a: int|
                        (forall|x: int| 0 <= x <= u ==> ids@[x] as int != a) ==> #[trigger] self.out_edges(a)
                            == g0.out_edges(a),
                    forall|c: int| #[trigger] self.in_edges(c) == g0.in_edges(c) + into_upto(other, ids@, c, u as nat)
                        + into_from(other, ids@, c, u as int, k as nat),
                decreases cnt - k,
            {
                let e = other.outgoing.edge_at(u as NodeID, k);
                proof {
                    assert(other.out_edges(u as int)[k as int].0 < other.n());
                }
                let a = ids[u];
                let b = ids[e.other as usize];
                let ghost before = *self;
                let ghost lbl = e.label@;
                self.insert_ids(a, b, e.label);
                proof {
                    let mo = mapped_out(other, ids@, u as int);
                    assert(mo[k as int] == (b, lbl));
                    assert(mo.subrange(0, k + 1) =~= mo.subrange(0, k as int).push(mo[k as int]));
                    assert(self.out_edges(a as int) =~= g0.out_edges(a as int) + mo.subrange(0, k + 1));
                    assert forall|x: int| 0 <= x < u implies self.out_edges(#[trigger] ids@[x] as int) == g0.out_edges(
                        ids@[x] as int) + mapped_out(other, ids@, x) by {
                        assert(ids@[x] != ids@[u as int]);
                        assert(self.out_edges(ids@[x] as int) == before.out_edges(ids@[x] as int));
                    }
                    assert forall|c: int| (forall|x: int| 0 <= x <= u ==> ids@[x] as int != c) implies #[trigger] self.out_edges(c)
                        == g0.out_edges(c) by {
                        assert(ids@[u as int] as int != c);
                        assert(self.out_edges(c) == before.out_edges(c));
                    }
                    let pe = other.out_edges(u as int)[k as int];
                    assert(pe.0 == e.other);
                    assert forall|c: int| #[trigger] self.in_edges(c) == g0.in_edges(c) + into_upto(other, ids@, c, u as nat)
                        + into_from(other, ids@, c, u as int, (k + 1) as nat) by {
                        assert(before.in_edges(c) == g0.in_edges(c) + into_upto(other, ids@, c, u as nat)
                            + into_from(other, ids@, c, u as int, k as nat));
                        if c == b as int {
                            assert(self.in_edges(c) == before.in_edges(c).push((a, lbl)));
                            assert(self.in_edges(c) =~= g0.in_edges(c) + into_upto(other, ids@, c, u as nat)
                                + into_from(other, ids@, c, u as int, (k + 1) as nat));
                        } else {
                            assert(self.in_edges(c) == before.in_edges(c));
                        }
                    }
                }
                assert(edges_extend(before, *self)) by {
                    assert forall|x: int| #![trigger self.out_edges(x)] before.out_edges(x).len() <= self.out_edges(x).len()
                        && self.out_edges(x).subrange(0, before.out_edges(x).len() as int) == before.out_edges(x) by {
                        assert(self.out_edges(x).subrange(0, before.out_edges(x).len() as int) =~= before.out_edges(x));
                    }
                }
                assert(edges_extend(g0, *self)) by {
                    assert forall|x: int| #![trigger self.out_edges(x)] g0.out_edges(x).len() <= self.out_edges(x).len()
                        && self.out_edges(x).subrange(0, g0.out_edges(x).len() as int) == g0.out_edges(x) by {
                        assert(before.out_edges(x).subrange(0, g0.out_edges(x).len() as int) == g0.out_edges(x));
                        assert(self.out_edges(x).subrange(0, g0.out_edges(x).len() as int) =~= before.out_edges(x).subrange(0, g0.out_edges(x).len() as int));
                    }
                }
                assert forall|i: int, j: int|
                    0 <= i < u && 0 <= j < other.out_edges(i).len() implies self.out_edges(ids@[i] as int).contains(
                        (ids@[#[trigger] other.out_edges(i)[j].0 as int], other.out_edges(i)[j].1),
                    ) by {
                    lemma_extend_contains(before, *self, ids@[i] as int, (ids@[other.out_edges(i)[j].0 as int], other.out_edges(i)[j].1));
                }
                assert forall|j: int|
                    0 <= j < k + 1 implies self.out_edges(ids@[u as int] as int).contains(
                        (ids@[#[trigger] other.out_edges(u as int)[j].0 as int], other.out_edges(u as int)[j].1),
                    ) by {
                    if j < k {
                        lemma_extend_contains(before, *self, ids@[u as int] as int, (ids@[other.out_edges(u as int)[j].0 as int], other.out_edges(u as int)[j].1));
                    } else {
                        assert(self.out_edges(a as int)[self.out_edges(a as int).len() - 1] == (b, lbl));
                    }
                }
                k += 1;
            }
            proof {
                assert(mapped_out(other, ids@, u as int).subrange(0, cnt as int) =~= mapped_out(other, ids@, u as int));
                assert forall|c: int| #[trigger] self.in_edges(c) == g0.in_edges(c) + into_upto(other, ids@, c, (u + 1) as nat) by {
                    assert(into_upto(other, ids@, c, (u + 1) as nat) == into_upto(other, ids@, c, u as nat) + into_from(
                        other, ids@, c, u as int, cnt as nat));
                    assert(g0.in_edges(c) + into_upto(other, ids@, c, (u + 1) as nat) =~= g0.in_edges(c) + into_upto(
                        other, ids@, c, u as nat) + into_from(other, ids@, c, u as int, cnt as nat));
                }
                assert forall|c: int| (forall|x: int| 0 <= x < u + 1 ==> ids@[x] as int != c) implies #[trigger] self.out_edges(c)
                    == g0.out_edges(c) by {
                    assert forall|x: int| 0 <= x <= u implies ids@[x] as int != c by {
                        assert(0 <= x < u + 1);
                    }
                }
            }
            u += 1;
        }
        proof {
            let nf = self.names();
            assert(ids@ =~= id_map(nf, other)) by {
                assert forall|x: int| 0 <= x < m implies ids@[x] == id_map(nf, other)[x] by {
                    lemma_index_in(nf, ids@[x] as int);
                }
            }
            assert forall|a: int| #[trigger] self.out_edges(a) == g0.out_edges(a) + merged_out(nf, other, a) by {
                if 0 <= a < nf.len() && other.names().contains(nf[a]) {
                    let x = index_in(other.names(), nf[a]);
                    assert(0 <= x < other.n() && other.names()[x] == nf[a]);
                    assert(nf[ids@[x] as int] == nf[a]);
                    assert(ids@[x] as int == a);
                    assert forall|j: int| 0 <= j < other.out_edges(x).len() implies ids@[#[trigger] other.out_edges(x)[j].0 as int]
                        as int == index_in(nf, other.names()[other.out_edges(x)[j].0 as int]) by {
                        let y = other.out_edges(x)[j].0 as int;
                        assert(other.outgoing.edges_of(x)[j].0 < other.n());
                        assert(nf[ids@[y] as int] == other.names()[y]);
                        lemma_index_in(nf, ids@[y] as int);
                    }
                    assert(mapped_out(other, ids@, x) =~= translated_out(nf, other, x));
                    assert(self.out_edges(ids@[x] as int) == g0.out_edges(ids@[x] as int) + mapped_out(other, ids@, x));
                } else {
                    assert forall|x: int| 0 <= x < m implies ids@[x] as int != a by {
                        if ids@[x] as int == a {
                            assert(nf[a] == other.names()[x]);
                            assert(other.names().contains(nf[a]));
                        }
                    }
                    assert(merged_out(nf, other, a) =~= Seq::<EdgeView>::empty());
                    assert(self.out_edges(a) =~= g0.out_edges(a) + merged_out(nf, other, a));
                }
            }
        }
        assert forall|x: int| 0 <= x < other.n() implies self.names().contains(#[trigger] other.names()[x]) by {
            assert(self.names()[ids@[x] as int] == other.names()[x]);
        }
        assert forall|x: int, k: int|
            0 <= k < other.out_edges(x).len() implies self.has_named_edge(
                other.names()[x],
                other.names()[#[trigger] other.out_edges(x)[k].0 as int],
                other.out_edges(x)[k].1,
            ) by {
            assert(0 <= x < other.n());
            let b = other.out_edges(x)[k].0 as int;
            assert(b < other.n());
            assert(self.names()[ids@[x] as int] == other.names()[x]);
            assert(self.names()[ids@[b] as int] == other.names()[b]);
            assert(self.out_edges(ids@[x] as int).contains((ids@[b], other.out_edges(x)[k].1)));
            assert(self.out_edges(ids@[x] as int).contains(((ids@[b] as int) as NodeID, other.out_edges(x)[k].1)));
        }
        assert(self.names().subrange(0, g0.n()) == g1.names().subrange(0, g0.n()));
    }
}

impl GraphStore {
    /// What `append` of `other` made of `g0`.
    pub open spec fn appended(g0: GraphStore, other: GraphStore, g1: GraphStore) -> bool {
        &&& g1.names() == names_after(g0.names(), other.names(), other.n() as nat)
        &&& forall|a: int| #[trigger] g1.out_edges(a) == g0.out_edges(a) + merged_out(g1.names(), other, a)
        &&& forall|b: int|
            #[trigger] g1.in_edges(b) == g0.in_edges(b) + into_upto(
                other,
                id_map(g1.names(), other),
                b,
                other.n() as nat,
            )
        &&& g1.names().subrange(0, g0.n()) == g0.names()
        &&& forall|u: int| 0 <= u < other.n() ==> g1.names().contains(#[trigger] other.names()[u])
        &&& edges_extend(g0, g1)
        &&& forall|u: int, k: int|
            0 <= k < other.out_edges(u).len() ==> g1.has_named_edge(
                other.names()[u],
                other.names()[#[trigger] other.out_edges(u)[k].0 as int],
                other.out_edges(u)[k].1,
            )
    }

    /// The edges that end at `id`, with their sources.
    pub fn ingoing_edges(&self, id: NodeID) -> (r: Vec<Edge>)
        requires
            self.wf(),
        ensures
            r@.len() == self.in_edges(id as int).len(),
            forall|k: int|
                0 <= k < r@.len() ==> (#[trigger] r@[k]).from == self.in_edges(id as int)[k].0
                    && r@[k].to == id && r@[k].label@ == self.in_edges(id as int)[k].1,
    {
        let cnt = self.ingoing.edge_count(id);
        let mut r: Vec<Edge> = Vec::new();
        let mut k: usize = 0;
        while k < cnt
            invariant
                self.wf(),
                cnt == self.in_edges(id as int).len(),
                k <= cnt,
                r@.len() == k,
                forall|j: int|
                    0 <= j < k ==> (#[trigger] r@[j]).from == self.in_edges(id as int)[j].0 && r@[j].to
                        == id && r@[j].label@ == self.in_edges(id as int)[j].1,
            decreases cnt - k,
        {
            let e = self.ingoing.edge_at(id, k);
            r.push(Edge { from: e.other, to: id, label: e.label });
            k += 1;
        }
        r
    }

    /// The edges that start at `id`, with their targets.
    pub fn outgoing_edges(&self, id: NodeID) -> (r: Vec<Edge>)
        requires
            self.wf(),
        ensures
            r@.len() == self.out_edges(id as int).len(),
            forall|k: int|
                0 <= k < r@.len() ==> (#[trigger] r@[k]).from == id && r@[k].to == self.out_edges(
                    id as int,
                )[k].0 && r@[k].label@ == self.out_edges(id as int)[k].1,
    {
        let cnt = self.outgoing.edge_count(id);
        let mut r: Vec<Edge> = Vec::new();
        let mut k: usize = 0;
        while k < cnt
            invariant
                self.wf(),
                cnt == self.out_edges(id as int).len(),
                k <= cnt,
                r@.len() == k,
                forall|j: int|
                    0 <= j < k ==> (#[trigger] r@[j]).from == id && r@[j].to == self.out_edges(
                        id as int,
                    )[j].0 && r@[j].label@ == self.out_edges(id as int)[j].1,
            decreases cnt - k,
        {
            let e = self.outgoing.edge_at(id, k);
            r.push(Edge { from: id, to: e.other, label: e.label });
            k += 1;
        }
        r
    }
}

/// An inserted edge is stored on both sides: the target is among the
/// source's outgoing edges and the source among the target's ingoing
/// edges, both with the edge's label.
pub proof fn lemma_insert_mirrored(
    g0: GraphStore,
    g1: GraphStore,
    from: Seq<char>,
    to: Seq<char>,
    label: Seq<char>,
)
    requires
        GraphStore::inserted(g0, g1, from, to, label),
    ensures
        exists|u: int, v: int|
            0 <= u < g1.n() && 0 <= v < g1.n() && g1.names()[u] == from && g1.names()[v] == to
                && #[trigger] g1.mirrored(u, v, label),
{
}

} // verus!
