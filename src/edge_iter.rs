//! Iteration over every stored edge, one block at a time.
use vstd::prelude::*;

use crate::adjacency::{Adjacency, NodeID, BLOCK_SIZE};
use crate::graph::{edge_triple, Edge, GraphStore};

verus! {

pub type EdgeTriple = (NodeID, NodeID, Seq<char>);

/// The edges stored under `source`, as triples.
pub open spec fn source_triples(adj: Adjacency, source: int) -> Seq<EdgeTriple> {
    adj.edges_of(source).map_values(|e: (NodeID, Seq<char>)| (source as NodeID, e.0, e.1))
}

/// The edges of the `count` sources from `start`, source by source.
pub open spec fn range_triples(adj: Adjacency, start: int, count: nat) -> Seq<EdgeTriple>
    decreases count,
{
    if count == 0 {
        Seq::empty()
    } else {
        range_triples(adj, start, (count - 1) as nat) + source_triples(adj, start + count - 1)
    }
}

/// The edges of block `b`.
pub open spec fn block_triples(adj: Adjacency, b: int) -> Seq<EdgeTriple> {
    range_triples(adj, b * BLOCK_SIZE, BLOCK_SIZE as nat)
}

/// The edges of the blocks from `b` on, block by block.
pub open spec fn triples_from_block(adj: Adjacency, b: int) -> Seq<EdgeTriple>
    decreases adj.blocks@.len() - b,
{
    if b < 0 || b >= adj.blocks@.len() {
        Seq::empty()
    } else {
        block_triples(adj, b) + triples_from_block(adj, b + 1)
    }
}

/// Every stored edge, by block, then source, then insertion order.
pub open spec fn all_triples(adj: Adjacency) -> Seq<EdgeTriple> {
    triples_from_block(adj, 0)
}

pub open spec fn triples_of(edges: Seq<Edge>) -> Seq<EdgeTriple> {
    edges.map_values(|e: Edge| edge_triple(e))
}

/// A cursor over the edges of an adjacency: the block loaded last, the
/// position inside it, and the id of the next block to load.
pub struct EdgeIterator<'a> {
    pub adjacency: &'a Adjacency,
    pub current_block_id: usize,
    pub current_block: Vec<Edge>,
    pub cursor_in_block: usize,
}

impl<'a> EdgeIterator<'a> {
    pub open spec fn wf(&self) -> bool {
        &&& self.adjacency.wf()
        &&& self.cursor_in_block <= self.current_block@.len()
        &&& self.current_block_id <= self.adjacency.blocks@.len()
    }

    /// The edges still to come, in order.
    pub open spec fn remaining(&self) -> Seq<EdgeTriple> {
        triples_of(self.current_block@).subrange(
            self.cursor_in_block as int,
            self.current_block@.len() as int,
        ) + triples_from_block(*self.adjacency, self.current_block_id as int)
    }

    pub fn new(adjacency: &'a Adjacency) -> (r: EdgeIterator<'a>)
        requires
            adjacency.wf(),
        ensures
            r.wf(),
            r.adjacency == adjacency,
            r.remaining() == all_triples(*adjacency),
    {
        let r = EdgeIterator {
            adjacency,
            current_block_id: 0,
            current_block: Vec::new(),
            cursor_in_block: 0,
        };
        assert(triples_of(r.current_block@).subrange(0, 0) =~= Seq::<EdgeTriple>::empty());
        assert(r.remaining() =~= all_triples(*adjacency));
        r
    }

    /// Loads the next block into memory and moves the cursor to its start.
    fn load_next_block(&mut self)
        requires
            old(self).wf(),
            old(self).current_block_id < old(self).adjacency.blocks@.len(),
        ensures
            final(self).wf(),
            final(self).adjacency == old(self).adjacency,
            final(self).current_block_id == old(self).current_block_id + 1,
            final(self).cursor_in_block == 0,
            triples_of(final(self).current_block@) == block_triples(
                *old(self).adjacency,
                old(self).current_block_id as int,
            ),
    {
        let b = self.current_block_id;
        let adj = self.adjacency;
        let ghost start = b * BLOCK_SIZE;
        let mut edges: Vec<Edge> = Vec::new();
        let mut i: u64 = 0;
        let nb = adj.blocks.len();
        assert(b < nb);
        while i < BLOCK_SIZE
            invariant
                adj.wf(),
                b < adj.blocks@.len(),
                b < crate::adjacency::MAX_BLOCKS,
                i <= BLOCK_SIZE,
                start == b * BLOCK_SIZE,
                triples_of(edges@) == range_triples(*adj, start, i as nat),
            decreases BLOCK_SIZE - i,
        {
            let source: u64 = (b as u64) * BLOCK_SIZE + i;
            let cnt = adj.edge_count(source);
            let ghost before = edges@;
            let mut k: usize = 0;
            while k < cnt
                invariant
                    adj.wf(),
                    cnt == adj.edges_of(source as int).len(),
                    k <= cnt,
                    triples_of(edges@) == triples_of(before) + source_triples(*adj, source as int).subrange(0, k as int),
                decreases cnt - k,
            {
                let e = adj.edge_at(source, k);
                let ghost prev = edges@;
                edges.push(Edge { from: source, to: e.other, label: e.label });
                assert(triples_of(edges@) =~= triples_of(prev).push(edge_triple(edges@[edges@.len() - 1])));
                assert(source_triples(*adj, source as int).subrange(0, k + 1) =~= source_triples(*adj, source as int).subrange(0, k as int).push(source_triples(*adj, source as int)[k as int]));
                assert(triples_of(edges@) =~= triples_of(before) + source_triples(*adj, source as int).subrange(0, k + 1));
                k += 1;
            }
            assert(source_triples(*adj, source as int).subrange(0, cnt as int) =~= source_triples(*adj, source as int));
            assert(source as int == start + (i + 1) - 1);
            i += 1;
        }
        self.current_block = edges;
        self.cursor_in_block = 0;
        self.current_block_id = b + 1;
    }

    /// The next edge, loading further blocks as the loaded one runs out.
    pub fn next(&mut self) -> (r: Option<Edge>)
        requires
            old(self).wf(),
        ensures
            final(self).wf(),
            final(self).adjacency == old(self).adjacency,
            old(self).remaining().len() == 0 ==> r.is_none() && final(self).remaining().len() == 0,
            old(self).remaining().len() > 0 ==> r.is_some() && edge_triple(r.unwrap())
                == old(self).remaining()[0] && final(self).remaining() == old(self).remaining().drop_first(),
    {
        let ghost rem0 = self.remaining();
        loop
            invariant
                self.wf(),
                self.adjacency == old(self).adjacency,
                self.remaining() == rem0,
                rem0 == old(self).remaining(),
            decreases self.adjacency.blocks@.len() - self.current_block_id, self.current_block@.len() - self.cursor_in_block,
        {
            if self.cursor_in_block < self.current_block.len() {
                let e = &self.current_block[self.cursor_in_block];
                let out = Edge { from: e.from, to: e.to, label: e.label.clone() };
                let ghost c = self.cursor_in_block as int;
                let ghost t = triples_of(self.current_block@);
                self.cursor_in_block = self.cursor_in_block + 1;
                assert(t.subrange(c, t.len() as int)[0] == t[c]);
                assert(t.subrange(c + 1, t.len() as int) =~= t.subrange(c, t.len() as int).drop_first());
                assert(self.remaining() =~= rem0.drop_first());
                return Some(out);
            }
            if self.current_block_id >= self.adjacency.blocks.len() {
                assert(triples_of(self.current_block@).subrange(self.cursor_in_block as int, self.current_block@.len() as int) =~= Seq::<EdgeTriple>::empty());
                assert(self.remaining() =~= Seq::<EdgeTriple>::empty());
                return None;
            }
            let ghost b = self.current_block_id as int;
            self.load_next_block();
            assert(self.remaining() =~= rem0) by {
                assert(triples_of(self.current_block@).subrange(0, self.current_block@.len() as int) =~= triples_of(self.current_block@));
            }
        }
    }
}

impl GraphStore {
    /// Every edge of the store, by source block, then source, then
    /// insertion order.
    pub fn edges(&self) -> (r: EdgeIterator<'_>)
        requires
            self.wf(),
        ensures
            r.wf(),
            r.remaining() == all_triples(self.outgoing),
    {
        EdgeIterator::new(&self.outgoing)
    }
}

} // verus!
