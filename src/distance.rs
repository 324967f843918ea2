//! Shortest-path distances over unit-weight edges, forward or reversed.
use vstd::prelude::*;

use crate::adjacency::{EdgeView, NodeID};
use crate::graph::GraphStore;

verus! {

/// Number of entries that hold no distance.
pub open spec fn count_none(s: Seq<Option<usize>>) -> nat
    decreases s.len(),
{
    if s.len() == 0 {
        0
    } else {
        count_none(s.drop_last()) + if s.last().is_none() {
            1nat
        } else {
            0nat
        }
    }
}

pub proof fn lemma_count_none_bound(s: Seq<Option<usize>>)
    ensures
        count_none(s) <= s.len(),
    decreases s.len(),
{
    if s.len() > 0 {
        lemma_count_none_bound(s.drop_last());
    }
}

pub proof fn lemma_count_none_fill(s: Seq<Option<usize>>, i: int, x: usize)
    requires
        0 <= i < s.len(),
        s[i].is_none(),
    ensures
        count_none(s.update(i, Some(x))) + 1 == count_none(s),
    decreases s.len(),
{
    let t = s.update(i, Some(x));
    if i == s.len() - 1 {
        assert(t.drop_last() =~= s.drop_last());
    } else {
        assert(t.drop_last() =~= s.drop_last().update(i, Some(x)));
        lemma_count_none_fill(s.drop_last(), i, x);
    }
}

impl GraphStore {
    /// Number of edges leaving `u` in the direction of travel.
    fn succ_count(&self, forward: bool, u: NodeID) -> (r: usize)
        requires
            self.wf(),
        ensures
            r == self.succ(forward, u as int).len(),
    {
        if forward {
            self.outgoing.edge_count(u)
        } else {
            self.ingoing.edge_count(u)
        }
    }

    /// The peer of the `j`-th edge leaving `u` in the direction of travel.
    fn succ_peer(&self, forward: bool, u: NodeID, j: usize) -> (r: NodeID)
        requires
            self.wf(),
            j < self.succ(forward, u as int).len(),
        ensures
            r == self.succ(forward, u as int)[j as int].0,
    {
        if forward {
            self.outgoing.peer_at(u, j)
        } else {
            self.ingoing.peer_at(u, j)
        }
    }

    /// Peers of stored edges are assigned ids.
    proof fn lemma_succ_in_range(&self, forward: bool, u: int, j: int)
        requires
            self.wf(),
            0 <= j < self.succ(forward, u).len(),
        ensures
            self.succ(forward, u)[j].0 < self.n(),
    {
        if forward {
            assert(self.outgoing.edges_of(u)[j].0 < self.n());
        } else {
            assert(self.ingoing.edges_of(u)[j].0 < self.n());
        }
    }

    /// The edges leaving `u` in the direction of travel.
    pub open spec fn succ(&self, forward: bool, u: int) -> Seq<EdgeView> {
        if forward {
            self.out_edges(u)
        } else {
            self.in_edges(u)
        }
    }

    /// One edge leads from `u` to `v` in the direction of travel.
    pub open spec fn step(&self, forward: bool, u: int, v: int) -> bool {
        exists|j: int| 0 <= j < self.succ(forward, u).len() && #[trigger] self.succ(forward, u)[j].0 == v
    }

    /// `v` can be reached from `s` over at most `k` edges.
    pub open spec fn reach(&self, forward: bool, s: int, k: nat, v: int) -> bool
        decreases k,
    {
        if k == 0 {
            v == s
        } else {
            self.reach(forward, s, (k - 1) as nat, v) || exists|u: int|
                0 <= u < self.n() && self.reach(forward, s, (k - 1) as nat, u)
                    && #[trigger] self.step(forward, u, v)
        }
    }

    /// The shortest path from `s` to `v` has `d` edges.
    pub open spec fn is_distance(&self, forward: bool, s: int, v: int, d: nat) -> bool {
        self.reach(forward, s, d, v) && (d > 0 ==> !self.reach(forward, s, (d - 1) as nat, v))
    }

    pub proof fn lemma_reach_mono(&self, forward: bool, s: int, i: nat, j: nat, v: int)
        requires
            i <= j,
            self.reach(forward, s, i, v),
        ensures
            self.reach(forward, s, j, v),
        decreases j - i,
    {
        if i < j {
            self.lemma_reach_mono(forward, s, i, (j - 1) as nat, v);
        }
    }

    /// Only the source and assigned ids are reached.
    pub proof fn lemma_reach_range(&self, forward: bool, s: int, k: nat, v: int)
        requires
            self.wf(),
            0 <= s < self.n(),
            self.reach(forward, s, k, v),
        ensures
            0 <= v < self.n(),
        decreases k,
    {
        if k > 0 {
            if self.reach(forward, s, (k - 1) as nat, v) {
                self.lemma_reach_range(forward, s, (k - 1) as nat, v);
            } else {
                let u = choose|u: int|
                    0 <= u < self.n() && self.reach(forward, s, (k - 1) as nat, u)
                        && #[trigger] self.step(forward, u, v);
                let j = choose|j: int|
                    0 <= j < self.succ(forward, u).len()
                        && #[trigger] self.succ(forward, u)[j].0 == v;
                self.lemma_succ_in_range(forward, u, j);
            }
        }
    }

    /// When no node is first reached at `k` edges, none is at any later count.
    pub proof fn lemma_reach_stable(&self, forward: bool, s: int, k: nat, j: nat, v: int)
        requires
            k > 0,
            forall|w: int| #[trigger] self.reach(forward, s, k, w) ==> self.reach(forward, s, (k - 1) as nat, w),
            self.reach(forward, s, j, v),
        ensures
            self.reach(forward, s, (k - 1) as nat, v),
        decreases j,
    {
        if j < k {
            self.lemma_reach_mono(forward, s, j, (k - 1) as nat, v);
        } else if j == k {
        } else if self.reach(forward, s, (j - 1) as nat, v) {
            self.lemma_reach_stable(forward, s, k, (j - 1) as nat, v);
        } else {
            assert(exists|u: int|
                0 <= u < self.n() && self.reach(forward, s, (j - 1) as nat, u)
                    && #[trigger] self.step(forward, u, v));
            let u = choose|u: int|
                0 <= u < self.n() && self.reach(forward, s, (j - 1) as nat, u)
                    && #[trigger] self.step(forward, u, v);
            self.lemma_reach_stable(forward, s, k, (j - 1) as nat, u);
            assert(self.reach(forward, s, (k - 1) as nat, u) && self.step(forward, u, v));
            assert(self.reach(forward, s, k, v));
        }
    }
}


impl GraphStore {
    /// Shortest distances from `source`, by breadth-first search level by
    /// level; entry `v` is the distance to `v`, none where `v` is unreachable.
    /// With `forward` false, edges are followed against their direction.
    pub fn shortest_distances(&self, source: NodeID, forward: bool) -> (r: Vec<Option<usize>>)
        requires
            self.wf(),
            source < self.n(),
        ensures
            r@.len() == self.n(),
            forall|v: int|
                0 <= v < self.n() ==> match #[trigger] r@[v] {
                    Some(d) => self.is_distance(forward, source as int, v, d as nat),
                    None => forall|j: nat| !self.reach(forward, source as int, j, v),
                },
    {
        let n = self.id2node.len();
        let ghost s = source as int;
        let mut dist: Vec<Option<usize>> = Vec::new();
        let mut i: usize = 0;
        while i < n
            invariant
                i <= n,
                dist@.len() == i,
                forall|v: int| 0 <= v < i ==> (#[trigger] dist@[v]).is_none(),
            decreases n - i,
        {
            dist.push(None);
            i += 1;
        }
        proof {
            lemma_count_none_bound(dist@);
            lemma_count_none_fill(dist@, s, 0);
        }
        dist.set(source as usize, Some(0));
        let mut frontier: Vec<NodeID> = Vec::new();
        frontier.push(source);
        let mut level: usize = 0;
        assert forall|v: int| 0 <= v < n && #[trigger] dist@[v] == Some(0usize) implies frontier@.contains(
            v as NodeID,
        ) by {
            assert(frontier@[0] == source);
        }
        while frontier.len() > 0
            invariant
                self.wf(),
                n == self.n(),
                0 <= s < n,
                dist@.len() == n,
                forall|v: int|
                    0 <= v < n ==> ((#[trigger] dist@[v]).is_some() <==> self.reach(
                        forward,
                        s,
                        level as nat,
                        v,
                    )),
                forall|v: int|
                    0 <= v < n && (#[trigger] dist@[v]).is_some() ==> dist@[v].unwrap() <= level
                        && self.is_distance(forward, s, v, dist@[v].unwrap() as nat),
                forall|i: int|
                    0 <= i < frontier@.len() ==> (#[trigger] frontier@[i]) < n && dist@[frontier@[
                        i
                    ] as int] == Some(level),
                forall|v: int|
                    0 <= v < n && #[trigger] dist@[v] == Some(level) ==> frontier@.contains(
                        v as NodeID,
                    ),
                forall|u: int, j: int|
                    0 <= u < n && dist@[u].is_some() && dist@[u].unwrap() < level && 0 <= j
                        < self.succ(forward, u).len() ==> dist@[#[trigger] self.succ(
                        forward,
                        u,
                    )[j].0 as int].is_some(),
                frontier@.len() > 0 ==> count_none(dist@) + level + 1 <= n,
            decreases 2 * count_none(dist@) + if frontier@.len() > 0 {
                1int
            } else {
                0int
            },
        {
            let ghost d0 = dist@;
            let ghost k = level as nat;
            let mut next: Vec<NodeID> = Vec::new();
            let mut fi: usize = 0;
            while fi < frontier.len()
                invariant
                    self.wf(),
                    n == self.n(),
                    0 <= s < n,
                    k == level,
                    level + 1 <= n,
                    dist@.len() == n,
                    d0.len() == n,
                    fi <= frontier@.len(),
                    forall|i: int|
                        0 <= i < frontier@.len() ==> (#[trigger] frontier@[i]) < n && d0[frontier@[
                            i
                        ] as int] == Some(level),
                    forall|v: int|
                        0 <= v < n && (#[trigger] d0[v]).is_some() ==> dist@[v] == d0[v],
                    forall|v: int|
                        0 <= v < n && (#[trigger] d0[v]).is_none() ==> (dist@[v].is_none()
                            || dist@[v] == Some((level + 1) as usize)),
                    forall|i: int|
                        0 <= i < next@.len() ==> (#[trigger] next@[i]) < n && d0[next@[
                            i
                        ] as int].is_none() && dist@[next@[i] as int] == Some((level + 1) as usize),
                    forall|v: int|
                        0 <= v < n && d0[v].is_none() && #[trigger] dist@[v] == Some(
                            (level + 1) as usize,
                        ) ==> next@.contains(v as NodeID) && self.reach(forward, s, k + 1, v),
                    forall|v: int|
                        0 <= v < n ==> ((#[trigger] d0[v]).is_some() <==> self.reach(
                            forward,
                            s,
                            k,
                            v,
                        )),
                    forall|i: int, j: int|
                        0 <= i < fi && 0 <= j < self.succ(forward, frontier@[i] as int).len()
                            ==> dist@[#[trigger] self.succ(forward, frontier@[i] as int)[j].0 as int].is_some(),
                    count_none(dist@) + next@.len() == count_none(d0),
                decreases frontier@.len() - fi,
            {
                let u = frontier[fi];
                proof {
                    assert(d0[u as int] == Some(level));
                }
                let cnt = self.succ_count(forward, u);
                let mut ei: usize = 0;
                while ei < cnt
                    invariant
                        self.wf(),
                        n == self.n(),
                        0 <= s < n,
                        k == level,
                        level + 1 <= n,
                        dist@.len() == n,
                        d0.len() == n,
                        fi < frontier@.len(),
                        u == frontier@[fi as int],
                        u < n,
                        self.reach(forward, s, k, u as int),
                        cnt == self.succ(forward, u as int).len(),
                        ei <= cnt,
                        forall|v: int|
                            0 <= v < n && (#[trigger] d0[v]).is_some() ==> dist@[v] == d0[v],
                        forall|v: int|
                            0 <= v < n && (#[trigger] d0[v]).is_none() ==> (dist@[v].is_none()
                                || dist@[v] == Some((level + 1) as usize)),
                        forall|i: int|
                            0 <= i < next@.len() ==> (#[trigger] next@[i]) < n && d0[next@[
                                i
                            ] as int].is_none() && dist@[next@[i] as int] == Some((level + 1) as usize),
                        forall|v: int|
                            0 <= v < n && d0[v].is_none() && #[trigger] dist@[v] == Some(
                                (level + 1) as usize,
                            ) ==> next@.contains(v as NodeID) && self.reach(forward, s, k + 1, v),
                        forall|i: int, j: int|
                            0 <= i < fi && 0 <= j < self.succ(forward, frontier@[i] as int).len()
                                ==> dist@[#[trigger] self.succ(forward, frontier@[i] as int)[j].0 as int].is_some(),
                        forall|j: int|
                            0 <= j < ei ==> dist@[#[trigger] self.succ(forward, u as int)[j].0 as int].is_some(),
                        count_none(dist@) + next@.len() == count_none(d0),
                    decreases cnt - ei,
                {
                    let w = self.succ_peer(forward, u, ei);
                    proof {
                        self.lemma_succ_in_range(forward, u as int, ei as int);
                    }
                    if dist[w as usize].is_none() {
                        proof {
                            lemma_count_none_fill(dist@, w as int, (level + 1) as usize);
                            assert(self.step(forward, u as int, w as int));
                            assert(self.reach(forward, s, k + 1, w as int));
                        }
                        let ghost before = dist@;
                        let ghost old_next = next@;
                        dist.set(w as usize, Some(level + 1));
                        next.push(w);
                        assert forall|v: int|
                            0 <= v < n && d0[v].is_none() && #[trigger] dist@[v] == Some(
                                (level + 1) as usize,
                            ) implies next@.contains(v as NodeID) && self.reach(forward, s, k + 1, v) by {
                            if v == w as int {
                                assert(next@[next@.len() - 1] == w);
                            } else {
                                assert(before[v] == dist@[v]);
                                assert(old_next.contains(v as NodeID));
                                let t = choose|t: int| 0 <= t < old_next.len() && old_next[t] == v as NodeID;
                                assert(next@[t] == old_next[t]);
                            }
                        }
                    }
                    ei += 1;
                }
                fi += 1;
            }
            let ghost d1 = dist@;
            proof {
                assert forall|v: int|
                    0 <= v < n implies ((#[trigger] dist@[v]).is_some() <==> self.reach(
                        forward,
                        s,
                        k + 1,
                        v,
                    )) by {
                    if dist@[v].is_some() {
                        if d0[v].is_some() {
                            assert(self.reach(forward, s, k, v));
                        }
                    }
                    if self.reach(forward, s, k + 1, v) && !self.reach(forward, s, k, v) {
                        let u = choose|u: int|
                            0 <= u < self.n() && self.reach(forward, s, k, u)
                                && #[trigger] self.step(forward, u, v);
                        let j = choose|j: int|
                            0 <= j < self.succ(forward, u).len()
                                && #[trigger] self.succ(forward, u)[j].0 == v;
                        assert(d0[u].is_some());
                        if d0[u].unwrap() < level {
                            assert(dist@[self.succ(forward, u)[j].0 as int].is_some());
                        } else {
                            assert(d0[u] == Some(level));
                            assert(frontier@.contains(u as NodeID));
                            let i = choose|i: int| 0 <= i < frontier@.len() && frontier@[i] == u as NodeID;
                            assert(dist@[self.succ(forward, frontier@[i] as int)[j].0 as int].is_some());
                        }
                    }
                }
                assert forall|v: int|
                    0 <= v < n && (#[trigger] dist@[v]).is_some() implies dist@[v].unwrap() <= level + 1
                        && self.is_distance(forward, s, v, dist@[v].unwrap() as nat) by {
                    if d0[v].is_none() {
                        assert(dist@[v] == Some((level + 1) as usize));
                        assert(self.reach(forward, s, k + 1, v));
                        assert(!self.reach(forward, s, k, v));
                    }
                }
                assert forall|u: int, j: int|
                    0 <= u < n && dist@[u].is_some() && dist@[u].unwrap() < level + 1 && 0 <= j
                        < self.succ(forward, u).len() implies dist@[#[trigger] self.succ(
                        forward,
                        u,
                    )[j].0 as int].is_some() by {
                    self.lemma_succ_in_range(forward, u, j);
                    assert(d0[u].is_some());
                    if d0[u].unwrap() < level {
                        assert(d0[self.succ(forward, u)[j].0 as int].is_some());
                    } else {
                        assert(frontier@.contains(u as NodeID));
                        let i = choose|i: int| 0 <= i < frontier@.len() && frontier@[i] == u as NodeID;
                        assert(dist@[self.succ(forward, frontier@[i] as int)[j].0 as int].is_some());
                    }
                }
                lemma_count_none_bound(dist@);
            }
            frontier = next;
            level += 1;
        }
        proof {
            assert(level > 0) by {
                if level == 0 {
                    assert(self.reach(forward, s, 0, s));
                    assert(dist@[s] == Some(0usize));
                    assert(frontier@.contains(source));
                }
            }
            assert forall|w: int| #[trigger] self.reach(forward, s, level as nat, w) implies self.reach(
                forward,
                s,
                (level - 1) as nat,
                w,
            ) by {
                if 0 <= w < n {
                    assert(dist@[w].is_some());
                    let d = dist@[w].unwrap();
                    if d == level {
                        assert(frontier@.contains(w as NodeID));
                    }
                    assert(self.reach(forward, s, d as nat, w));
                    self.lemma_reach_mono(forward, s, d as nat, (level - 1) as nat, w);
                } else {
                    self.lemma_reach_range(forward, s, level as nat, w);
                }
            }
            assert forall|v: int|
                0 <= v < n && (#[trigger] dist@[v]).is_none() implies forall|j: nat|
                    !self.reach(forward, s, j, v) by {
                assert forall|j: nat| !self.reach(forward, s, j, v) by {
                    if self.reach(forward, s, j, v) {
                        self.lemma_reach_stable(forward, s, level as nat, j, v);
                        self.lemma_reach_mono(forward, s, (level - 1) as nat, level as nat, v);
                    }
                }
            }
        }
        dist
    }
}

} // verus!
