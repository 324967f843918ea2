//! A graph store as plain values, for whoever keeps it at its path: the
//! node names in id order and the edges as triples, and the store rebuilt
//! from them.
use vstd::prelude::*;

use crate::adjacency::{Adjacency, EdgeView, NodeID, BLOCK_SIZE, MAX_BLOCKS};
use crate::edge_iter::{
    all_triples, block_triples, range_triples, source_triples, triples_from_block, EdgeIterator,
    EdgeTriple,
};
use crate::graph::GraphStore;

verus! {

/// The edges of `t` that leave `a`, in order.
pub open spec fn edges_from(t: Seq<EdgeTriple>, a: int) -> Seq<EdgeView>
    decreases t.len(),
{
    if t.len() == 0 {
        Seq::empty()
    } else {
        let r = edges_from(t.drop_last(), a);
        if t.last().0 as int == a {
            r.push((t.last().1, t.last().2))
        } else {
            r
        }
    }
}

/// The edges of `t` that enter `b`, as (source, label), in order.
pub open spec fn edges_into(t: Seq<EdgeTriple>, b: int) -> Seq<EdgeView>
    decreases t.len(),
{
    if t.len() == 0 {
        Seq::empty()
    } else {
        let r = edges_into(t.drop_last(), b);
        if t.last().1 as int == b {
            r.push((t.last().0, t.last().2))
        } else {
            r
        }
    }
}

pub open spec fn names_distinct(s: Seq<Seq<char>>) -> bool {
    forall|i: int, j: int| 0 <= i < s.len() && 0 <= j < s.len() && i != j ==> s[i] != s[j]
}

/// Every edge of `t` joins ids below `n`.
pub open spec fn ids_in_range(t: Seq<EdgeTriple>, n: int) -> bool {
    forall|k: int| 0 <= k < t.len() ==> #[trigger] t[k].0 < n && t[k].1 < n
}

pub open spec fn triple_view(e: (NodeID, NodeID, String)) -> EdgeTriple {
    (e.0, e.1, e.2@)
}

pub open spec fn triples_view(v: Seq<(NodeID, NodeID, String)>) -> Seq<EdgeTriple> {
    v.map_values(|e: (NodeID, NodeID, String)| triple_view(e))
}

pub open spec fn strings_view(v: Seq<String>) -> Seq<Seq<char>> {
    v.map_values(|s: String| s@)
}

fn drain_triples(it: &mut EdgeIterator) -> (r: Vec<(NodeID, NodeID, String)>)
    requires
        old(it).wf(),
    ensures
        triples_view(r@) == old(it).remaining(),
{
    let ghost rem0 = it.remaining();
    assert(rem0 == old(it).remaining());
    let mut r: Vec<(NodeID, NodeID, String)> = Vec::new();
    loop
        invariant
            it.wf(),
            rem0 == old(it).remaining(),
            triples_view(r@) + it.remaining() == rem0,
        decreases it.remaining().len(),
    {
        let ghost before = it.remaining();
        match it.next() {
            Some(e) => {
                let ghost prev = r@;
                r.push((e.from, e.to, e.label));
                assert(triples_view(r@) =~= triples_view(prev).push(before[0]));
                assert(before =~= seq![before[0]] + before.drop_first());
                assert(triples_view(r@) + it.remaining() =~= triples_view(prev) + before);
            },
            None => {
                assert(before.len() == 0);
                assert(triples_view(r@) + before =~= triples_view(r@));
                assert(triples_view(r@) =~= rem0);
                assert(triples_view(r@) == old(it).remaining());
                return r;
            },
        }
    }
}

impl GraphStore {
    /// The node names, in id order.
    pub fn node_names(&self) -> (r: Vec<String>)
        ensures
            strings_view(r@) == self.names(),
    {
        let mut r: Vec<String> = Vec::new();
        let mut i: usize = 0;
        while i < self.id2node.len()
            invariant
                i <= self.n(),
                r@.len() == i,
                strings_view(r@) == self.names().subrange(0, i as int),
            decreases self.n() - i,
        {
            let ghost prev = r@;
            r.push(self.id2node[i].clone());
            assert(r@[i as int]@ == self.names()[i as int]);
            assert(strings_view(r@) =~= strings_view(prev).push(self.names()[i as int]));
            i += 1;
            assert(strings_view(r@) =~= self.names().subrange(0, i as int));
        }
        assert(self.names().subrange(0, self.n()) =~= self.names());
        r
    }

    /// The outgoing edges as triples, by source block, source and insertion order.
    pub fn edge_triples(&self) -> (r: Vec<(NodeID, NodeID, String)>)
        requires
            self.wf(),
        ensures
            triples_view(r@) == all_triples(self.outgoing),
    {
        let mut it = self.edges();
        drain_triples(&mut it)
    }

    /// The ingoing edges as (target, source, label), by target block,
    /// target and insertion order.
    pub fn reversed_edge_triples(&self) -> (r: Vec<(NodeID, NodeID, String)>)
        requires
            self.wf(),
        ensures
            triples_view(r@) == all_triples(self.ingoing),
    {
        let mut it = EdgeIterator::new(&self.ingoing);
        drain_triples(&mut it)
    }

    /// The store with `names` as its nodes, in id order, and `edges`
    /// inserted in order; none when two names repeat or an edge names an
    /// id without a node.
    pub fn restore(names: Vec<String>, edges: Vec<(NodeID, NodeID, String)>) -> (r: Option<GraphStore>)
        requires
            names@.len() < usize::MAX,
        ensures
            r.is_some() <==> (names_distinct(strings_view(names@)) && ids_in_range(
                triples_view(edges@),
                names@.len() as int,
            )),
            r.is_some() ==> {
                let g = r.unwrap();
                &&& g.wf()
                &&& g.names() == strings_view(names@)
                &&& forall|a: int| #[trigger] g.out_edges(a) == edges_from(triples_view(edges@), a)
                &&& forall|b: int| #[trigger] g.in_edges(b) == edges_into(triples_view(edges@), b)
            },
    {
        let mut g = GraphStore::new();
        let ghost nv = strings_view(names@);
        let m = names.len();
        let mut i: usize = 0;
        while i < m
            invariant
                g.wf(),
                m == names@.len(),
                m < usize::MAX,
                g.n() == i,
                nv == strings_view(names@),
                i <= m,
                g.names() == nv.subrange(0, i as int),
                names_distinct(nv.subrange(0, i as int)),
                forall|a: int| #[trigger] g.out_edges(a) == Seq::<EdgeView>::empty(),
                forall|b: int| #[trigger] g.in_edges(b) == Seq::<EdgeView>::empty(),
            decreases m - i,
        {
            let name = names[i].clone();
            match g.node2id(&name) {
                Some(j) => {
                    proof {
                        assert(nv[i as int] == names@[i as int]@);
                        assert(nv.subrange(0, i as int)[j as int] == nv[j as int]);
                        assert(nv[j as int] == nv[i as int] && j != i);
                    }
                    return None;
                },
                None => {
                    let ghost before = g;
                    let id = g.push_new(name);
                    i += 1;
                    assert(g.names() =~= nv.subrange(0, i as int));
                    assert forall|a: int| #[trigger] g.out_edges(a) == Seq::<EdgeView>::empty() by {
                        assert(g.out_edges(a) == before.out_edges(a));
                    }
                    assert forall|b: int| #[trigger] g.in_edges(b) == Seq::<EdgeView>::empty() by {
                        assert(g.in_edges(b) == before.in_edges(b));
                    }
                },
            }
        }
        assert(nv.subrange(0, m as int) =~= nv);
        let ghost tv = triples_view(edges@);
        let n = g.node_count();
        let mut k: usize = 0;
        while k < edges.len()
            invariant
                g.wf(),
                n == g.n(),
                n == m,
                m == names@.len(),
                tv == triples_view(edges@),
                g.names() == nv,
                k <= edges@.len(),
                ids_in_range(tv.subrange(0, k as int), n as int),
                forall|a: int| #[trigger] g.out_edges(a) == edges_from(tv.subrange(0, k as int), a),
                forall|b: int| #[trigger] g.in_edges(b) == edges_into(tv.subrange(0, k as int), b),
            decreases edges@.len() - k,
        {
            let e = &edges[k];
            if e.0 >= n as u64 || e.1 >= n as u64 {
                proof {
                    assert(tv[k as int] == triple_view(*e));
                    assert(!(tv[k as int].0 < n && tv[k as int].1 < n));
                    assert(names@.len() == n);
                    assert(!ids_in_range(triples_view(edges@), names@.len() as int));
                }
                return None;
            }
            let ghost before = g;
            g.insert_ids(e.0, e.1, e.2.clone());
            k += 1;
            proof {
                let p = tv.subrange(0, k as int);
                assert(p.drop_last() =~= tv.subrange(0, k - 1));
                assert(p.last() == triple_view(edges@[k - 1]));
                assert forall|a: int| #[trigger] g.out_edges(a) == edges_from(p, a) by {
                    assert(before.out_edges(a) == edges_from(p.drop_last(), a));
                }
                assert forall|b: int| #[trigger] g.in_edges(b) == edges_into(p, b) by {
                    assert(before.in_edges(b) == edges_into(p.drop_last(), b));
                }
                assert forall|j: int| 0 <= j < p.len() implies #[trigger] p[j].0 < n && p[j].1 < n by {
                    if j < k - 1 {
                        assert(p[j] == tv.subrange(0, k - 1)[j]);
                    }
                }
            }
        }
        assert(tv.subrange(0, k as int) =~= tv);
        Some(g)
    }
}

pub proof fn lemma_edges_from_concat(t1: Seq<EdgeTriple>, t2: Seq<EdgeTriple>, a: int)
    ensures
        edges_from(t1 + t2, a) == edges_from(t1, a) + edges_from(t2, a),
    decreases t2.len(),
{
    if t2.len() == 0 {
        assert(t1 + t2 =~= t1);
        assert(edges_from(t1, a) + edges_from(t2, a) =~= edges_from(t1, a));
    } else {
        assert((t1 + t2).drop_last() =~= t1 + t2.drop_last());
        lemma_edges_from_concat(t1, t2.drop_last(), a);
        if t2.last().0 as int == a {
            assert(edges_from(t1, a) + edges_from(t2, a) =~= (edges_from(t1, a) + edges_from(
                t2.drop_last(),
                a,
            )).push((t2.last().1, t2.last().2)));
        }
    }
}

proof fn lemma_edges_from_source(adj: Adjacency, s: int, a: int, k: nat)
    requires
        0 <= s <= u64::MAX,
        k <= adj.edges_of(s).len(),
    ensures
        edges_from(source_triples(adj, s).subrange(0, k as int), a) == if s == a {
            adj.edges_of(s).subrange(0, k as int)
        } else {
            Seq::empty()
        },
    decreases k,
{
    let t = source_triples(adj, s).subrange(0, k as int);
    if k == 0 {
        assert(adj.edges_of(s).subrange(0, 0) =~= Seq::<EdgeView>::empty());
    } else {
        assert(t.drop_last() =~= source_triples(adj, s).subrange(0, k - 1));
        lemma_edges_from_source(adj, s, a, (k - 1) as nat);
        if s == a {
            assert(adj.edges_of(s).subrange(0, k as int) =~= adj.edges_of(s).subrange(0, k - 1).push(
                adj.edges_of(s)[k - 1],
            ));
        }
    }
}

proof fn lemma_edges_from_range(adj: Adjacency, start: int, count: nat, a: int)
    requires
        0 <= start,
        start + count <= u64::MAX + 1,
    ensures
        edges_from(range_triples(adj, start, count), a) == if start <= a < start + count {
            adj.edges_of(a)
        } else {
            Seq::empty()
        },
    decreases count,
{
    if count > 0 {
        let s = start + count - 1;
        lemma_edges_from_range(adj, start, (count - 1) as nat, a);
        lemma_edges_from_concat(range_triples(adj, start, (count - 1) as nat), source_triples(adj, s), a);
        lemma_edges_from_source(adj, s, a, adj.edges_of(s).len());
        assert(source_triples(adj, s).subrange(0, adj.edges_of(s).len() as int) =~= source_triples(adj, s));
        assert(adj.edges_of(s).subrange(0, adj.edges_of(s).len() as int) =~= adj.edges_of(s));
        if start <= a < start + count - 1 {
            assert(edges_from(range_triples(adj, start, count), a) =~= adj.edges_of(a));
        } else if a == s {
            assert(edges_from(range_triples(adj, start, count), a) =~= adj.edges_of(a));
        } else {
            assert(edges_from(range_triples(adj, start, count), a) =~= Seq::<EdgeView>::empty());
        }
    }
}

proof fn lemma_edges_from_blocks(adj: Adjacency, b: int, a: int)
    requires
        adj.wf(),
        0 <= b,
    ensures
        edges_from(triples_from_block(adj, b), a) == if a >= b * BLOCK_SIZE {
            adj.edges_of(a)
        } else {
            Seq::empty()
        },
    decreases adj.blocks@.len() - b,
{
    if b >= adj.blocks@.len() {
        if a >= b * BLOCK_SIZE {
            assert(a / 1024 >= b) by (nonlinear_arith)
                requires a >= b * 1024, b >= 0;
            assert(adj.edges_of(a) =~= Seq::<EdgeView>::empty());
        }
    } else {
        lemma_edges_from_blocks(adj, b + 1, a);
        assert(b * BLOCK_SIZE + BLOCK_SIZE <= u64::MAX + 1) by (nonlinear_arith)
            requires b < MAX_BLOCKS, MAX_BLOCKS == 0x40_0000_0000_0000int, BLOCK_SIZE == 1024;
        lemma_edges_from_range(adj, b * BLOCK_SIZE, BLOCK_SIZE as nat, a);
        lemma_edges_from_concat(block_triples(adj, b), triples_from_block(adj, b + 1), a);
        assert((b + 1) * BLOCK_SIZE == b * BLOCK_SIZE + BLOCK_SIZE) by (nonlinear_arith);
        if a >= (b + 1) * BLOCK_SIZE {
            assert(edges_from(triples_from_block(adj, b), a) =~= adj.edges_of(a));
        } else if a >= b * BLOCK_SIZE {
            assert(edges_from(triples_from_block(adj, b), a) =~= adj.edges_of(a));
        } else {
            assert(edges_from(triples_from_block(adj, b), a) =~= Seq::<EdgeView>::empty());
        }
    }
}

/// What a store exports is what it restores to: rebuilding from
/// `edge_triples` gives every node back exactly its outgoing edge list, so
/// a graph reopened from what a flush wrote answers every read as before.
pub proof fn lemma_export_restore(g: GraphStore, a: int)
    requires
        g.wf(),
    ensures
        edges_from(all_triples(g.outgoing), a) == g.out_edges(a),
{
    lemma_edges_from_blocks(g.outgoing, 0, a);
    if a < 0 {
        assert(g.out_edges(a) =~= Seq::<EdgeView>::empty());
    }
}

} // verus!
