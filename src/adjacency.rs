//! Adjacency lists packed into blocks of `BLOCK_SIZE` consecutive source
//! ids, held in a block store indexed by block id.
use vstd::prelude::*;

verus! {

pub type NodeID = u64;

/// Number of consecutive source ids stored together in one block.
pub const BLOCK_SIZE: u64 = 1024;

/// Number of blocks that cover every `u64` source id.
pub const MAX_BLOCKS: u64 = 0x40_0000_0000_0000;

/// An edge as stored under its source: the peer's id and the label.
#[derive(Debug)]
pub struct StoredEdge {
    pub other: NodeID,
    pub label: String,
}

/// One block: the edge sequences of `BLOCK_SIZE` consecutive source ids.
pub struct Block {
    pub sources: Vec<Vec<StoredEdge>>,
}

/// The block store: block `b` holds the sources `b * BLOCK_SIZE ..
/// (b + 1) * BLOCK_SIZE`; sources past the last block have no edges.
pub struct Adjacency {
    pub blocks: Vec<Block>,
}

/// An edge as the store holds it: peer id and label.
pub type EdgeView = (NodeID, Seq<char>);

pub open spec fn edge_view(e: StoredEdge) -> EdgeView {
    (e.other, e.label@)
}

impl Adjacency {
    pub open spec fn wf(&self) -> bool {
        &&& self.blocks@.len() <= MAX_BLOCKS
        &&& forall|b: int|
            0 <= b < self.blocks@.len() ==> #[trigger] self.blocks@[b].sources@.len()
                == BLOCK_SIZE
    }

    /// The edges stored under `source`, in insertion order.
    pub open spec fn edges_of(&self, source: int) -> Seq<EdgeView> {
        let b = source / (BLOCK_SIZE as int);
        let i = source % (BLOCK_SIZE as int);
        if 0 <= source && b < self.blocks@.len() {
            self.blocks@[b].sources@[i]@.map_values(|e: StoredEdge| edge_view(e))
        } else {
            Seq::empty()
        }
    }

    pub fn new() -> (r: Adjacency)
        ensures
            r.wf(),
            forall|s: int| #[trigger] r.edges_of(s) == Seq::<EdgeView>::empty(),
    {
        Adjacency { blocks: Vec::new() }
    }

    fn empty_block() -> (r: Block)
        ensures
            r.sources@.len() == BLOCK_SIZE,
            forall|i: int| 0 <= i < BLOCK_SIZE ==> (#[trigger] r.sources@[i])@.len() == 0,
    {
        let mut sources: Vec<Vec<StoredEdge>> = Vec::new();
        let mut i: u64 = 0;
        while i < BLOCK_SIZE
            invariant
                i <= BLOCK_SIZE,
                sources@.len() == i,
                forall|j: int| 0 <= j < i ==> (#[trigger] sources@[j])@.len() == 0,
            decreases BLOCK_SIZE - i,
        {
            sources.push(Vec::new());
            i += 1;
        }
        Block { sources }
    }

    /// Number of edges stored under `source`.
    pub fn edge_count(&self, source: NodeID) -> (r: usize)
        requires
            self.wf(),
        ensures
            r == self.edges_of(source as int).len(),
    {
        let b = source / BLOCK_SIZE;
        if b < self.blocks.len() as u64 {
            self.blocks[b as usize].sources[(source % BLOCK_SIZE) as usize].len()
        } else {
            0
        }
    }

    /// The peer of the `k`-th edge stored under `source`.
    pub fn peer_at(&self, source: NodeID, k: usize) -> (r: NodeID)
        requires
            self.wf(),
            k < self.edges_of(source as int).len(),
        ensures
            r == self.edges_of(source as int)[k as int].0,
    {
        let bid: u64 = source / BLOCK_SIZE;
        let nb = self.blocks.len();
        assert(bid < nb);
        let b = bid as usize;
        let i = (source % BLOCK_SIZE) as usize;
        assert(self.blocks@[b as int].sources@.len() == BLOCK_SIZE);
        assert(self.edges_of(source as int).len() == self.blocks@[b as int].sources@[i as int]@.len());
        let e = &self.blocks[b].sources[i][k];
        assert(self.edges_of(source as int)[k as int] == edge_view(*e));
        e.other
    }

    /// The `k`-th edge stored under `source`.
    pub fn edge_at(&self, source: NodeID, k: usize) -> (r: StoredEdge)
        requires
            self.wf(),
            k < self.edges_of(source as int).len(),
        ensures
            edge_view(r) == self.edges_of(source as int)[k as int],
    {
        let bid: u64 = source / BLOCK_SIZE;
        let nb = self.blocks.len();
        assert(bid < nb);
        let b = bid as usize;
        let i = (source % BLOCK_SIZE) as usize;
        assert(self.blocks@[b as int].sources@.len() == BLOCK_SIZE);
        assert(i as int == source as int % BLOCK_SIZE as int);
        assert(self.edges_of(source as int).len() == self.blocks@[b as int].sources@[i as int]@.len());
        let e = &self.blocks[b].sources[i][k];
        assert(self.edges_of(source as int)[k as int] == edge_view(*e));
        StoredEdge { other: e.other, label: e.label.clone() }
    }

    /// Appends `edge` to the sequence stored under `source`.
    pub fn insert(&mut self, source: NodeID, edge: StoredEdge)
        requires
            old(self).wf(),
            source / BLOCK_SIZE < usize::MAX,
        ensures
            final(self).wf(),
            final(self).edges_of(source as int) == old(self).edges_of(source as int).push(
                edge_view(edge),
            ),
            forall|s: int|
                s != source ==> #[trigger] final(self).edges_of(s) == old(self).edges_of(s),
    {
        let b = (source / BLOCK_SIZE) as usize;
        let i = (source % BLOCK_SIZE) as usize;
        assert(source / BLOCK_SIZE < MAX_BLOCKS);
        let ghost old_adj = *self;
        while self.blocks.len() <= b
            invariant
                self.wf(),
                b < usize::MAX,
                b < MAX_BLOCKS,
                forall|s: int| #[trigger] self.edges_of(s) == old_adj.edges_of(s),
            decreases b + 1 - self.blocks@.len(),
        {
            let ghost before = *self;
            let blk = Adjacency::empty_block();
            self.blocks.push(blk);
            assert forall|s: int| #[trigger] self.edges_of(s) == old_adj.edges_of(s) by {
                assert(before.edges_of(s) == old_adj.edges_of(s));
                let bb = s / (BLOCK_SIZE as int);
                if 0 <= s && bb == self.blocks@.len() - 1 {
                    assert(self.blocks@[bb].sources@[s % (BLOCK_SIZE as int)]@.len() == 0);
                    assert(self.edges_of(s) =~= Seq::<EdgeView>::empty());
                }
            }
        }
        let ghost mid = *self;
        let ghost e = edge_view(edge);
        self.blocks[b].sources[i].push(edge);
        assert forall|s: int| s != source implies #[trigger] self.edges_of(s) == mid.edges_of(
            s,
        ) by {
            let bb = s / (BLOCK_SIZE as int);
            let ii = s % (BLOCK_SIZE as int);
            if 0 <= s && bb < self.blocks@.len() {
                if bb == b {
                    assert(ii != i);
                    assert(self.blocks@[bb].sources@[ii] == mid.blocks@[bb].sources@[ii]);
                } else {
                    assert(self.blocks@[bb] == mid.blocks@[bb]);
                }
            }
        }
        assert(self.edges_of(source as int) =~= mid.edges_of(source as int).push(e));
    }
}

impl Adjacency {
    /// Merges `other` into this store: each source's edges become its own
    /// followed by those `other` holds for it.
    pub fn append(&mut self, other: Adjacency)
        requires
            old(self).wf(),
            other.wf(),
        ensures
            final(self).wf(),
            forall|s: int| #[trigger] final(self).edges_of(s) == old(self).edges_of(s) + other.edges_of(s),
    {
        let ghost a0 = *self;
        let nb = other.blocks.len();
        let mut b: usize = 0;
        while b < nb
            invariant
                self.wf(),
                other.wf(),
                nb == other.blocks@.len(),
                b <= nb,
                forall|s: int|
                    #![trigger self.edges_of(s)]
                    0 <= s < b * BLOCK_SIZE ==> self.edges_of(s) == a0.edges_of(s) + other.edges_of(s),
                forall|s: int|
                    #![trigger self.edges_of(s)]
                    !(0 <= s < b * BLOCK_SIZE) ==> self.edges_of(s) == a0.edges_of(s),
            decreases nb - b,
        {
            let mut i: u64 = 0;
            while i < BLOCK_SIZE
                invariant
                    self.wf(),
                    other.wf(),
                    nb == other.blocks@.len(),
                    b < nb,
                    b < MAX_BLOCKS,
                    i <= BLOCK_SIZE,
                    forall|s: int|
                        #![trigger self.edges_of(s)]
                        0 <= s < b * BLOCK_SIZE + i ==> self.edges_of(s) == a0.edges_of(s) + other.edges_of(s),
                    forall|s: int|
                        #![trigger self.edges_of(s)]
                        !(0 <= s < b * BLOCK_SIZE + i) ==> self.edges_of(s) == a0.edges_of(s),
                decreases BLOCK_SIZE - i,
            {
                let source: u64 = (b as u64) * BLOCK_SIZE + i;
                let cnt = other.edge_count(source);
                let mut k: usize = 0;
                while k < cnt
                    invariant
                        self.wf(),
                        other.wf(),
                        b < nb,
                        nb == other.blocks@.len(),
                        source == b * BLOCK_SIZE + i,
                        i < BLOCK_SIZE,
                        cnt == other.edges_of(source as int).len(),
                        k <= cnt,
                        self.edges_of(source as int) == a0.edges_of(source as int) + other.edges_of(source as int).subrange(0, k as int),
                        forall|s: int|
                            #![trigger self.edges_of(s)]
                            0 <= s < source ==> self.edges_of(s) == a0.edges_of(s) + other.edges_of(s),
                        forall|s: int|
                            #![trigger self.edges_of(s)]
                            !(0 <= s <= source) ==> self.edges_of(s) == a0.edges_of(s),
                    decreases cnt - k,
                {
                    let e = other.edge_at(source, k);
                    let ghost prev = *self;
                    assert(source / BLOCK_SIZE == b);
                    self.insert(source, e);
                    assert(self.edges_of(source as int) =~= a0.edges_of(source as int) + other.edges_of(source as int).subrange(0, k + 1));
                    assert forall|s: int| 0 <= s < source implies #[trigger] self.edges_of(s) == a0.edges_of(s) + other.edges_of(s) by {
                        assert(self.edges_of(s) == prev.edges_of(s));
                    }
                    assert forall|s: int| !(0 <= s <= source) implies #[trigger] self.edges_of(s) == a0.edges_of(s) by {
                        assert(self.edges_of(s) == prev.edges_of(s));
                    }
                    k += 1;
                }
                assert(other.edges_of(source as int).subrange(0, cnt as int) =~= other.edges_of(source as int));
                i += 1;
            }
            b += 1;
        }
        assert forall|s: int| #[trigger] self.edges_of(s) == a0.edges_of(s) + other.edges_of(s) by {
            if !(0 <= s < b * BLOCK_SIZE) {
                assert(other.edges_of(s) =~= Seq::<EdgeView>::empty());
                assert(self.edges_of(s) =~= a0.edges_of(s) + other.edges_of(s));
            }
        }
    }
}

} // verus!
