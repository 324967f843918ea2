//! The web graph: a full projection with URLs as nodes and a host
//! projection with hosts as nodes, over the same stream of edges.
use vstd::prelude::*;

use crate::adjacency::NodeID;
use crate::graph::{Edge, GraphStore};
use crate::url::{host_without_specific_subdomains_of, Url};

verus! {

/// A named vertex.
#[derive(Debug, Clone, PartialEq, Eq, PartialOrd, Ord, Hash)]
pub struct Node {
    pub name: String,
}

impl Node {
    /// The node of this node's host, without a `www` subdomain.
    pub fn into_host(self) -> (r: Node)
        ensures
            r.name@ == host_without_specific_subdomains_of(self.name@),
    {
        let url = Url::from(self.name);
        let host = url.host_without_specific_subdomains();
        Node { name: String::from_str(host) }
    }
}

impl From<String> for Node {
    fn from(name: String) -> (r: Node)
        ensures
            r.name == name,
    {
        Node { name }
    }
}

impl vstd::std_specs::convert::FromSpecImpl<String> for Node {
    open spec fn obeys_from_spec() -> bool {
        true
    }

    open spec fn from_spec(v: String) -> Node {
        Node { name: v }
    }
}

impl From<Url> for Node {
    fn from(url: Url) -> (r: Node)
        ensures
            r.name@ == url@,
    {
        Node { name: url.0 }
    }
}

impl vstd::std_specs::convert::FromSpecImpl<Url> for Node {
    open spec fn obeys_from_spec() -> bool {
        true
    }

    open spec fn from_spec(url: Url) -> Node {
        Node { name: url.0 }
    }
}

impl<'a> From<&'a Url> for Node {
    fn from(url: &'a Url) -> (r: Node)
        ensures
            r.name@ == url@,
    {
        Node { name: String::from_str(url.raw()) }
    }
}

impl<'a> vstd::std_specs::convert::FromSpecImpl<&'a Url> for Node {
    open spec fn obeys_from_spec() -> bool {
        false
    }

    open spec fn from_spec(url: &'a Url) -> Node {
        arbitrary()
    }
}

impl<'a> From<&'a str> for Node {
    fn from(name: &'a str) -> (r: Node)
        ensures
            r.name@ == name@,
    {
        Node { name: String::from_str(name) }
    }
}

impl<'a> vstd::std_specs::convert::FromSpecImpl<&'a str> for Node {
    open spec fn obeys_from_spec() -> bool {
        false
    }

    open spec fn from_spec(v: &'a str) -> Node {
        arbitrary()
    }
}

/// Distances from one source, by node name.
pub struct Distances {
    pub entries: Vec<(Node, usize)>,
}

impl Distances {
    /// Whether an entry maps the node named `name` to `d`.
    pub open spec fn maps(&self, name: Seq<char>, d: usize) -> bool {
        exists|i: int|
            0 <= i < self.entries@.len() && #[trigger] self.entries@[i].0.name@ == name
                && self.entries@[i].1 == d
    }

    pub open spec fn names_distinct(&self) -> bool {
        forall|i: int, j: int|
            0 <= i < self.entries@.len() && 0 <= j < self.entries@.len() && i != j
                ==> #[trigger] self.entries@[i].0.name@ != #[trigger] self.entries@[j].0.name@
    }

    /// The distance recorded for `node`, if any.
    pub fn get(&self, node: &Node) -> (r: Option<&usize>)
        ensures
            match r {
                Some(d) => self.maps(node.name@, *d),
                None => forall|d: usize| !self.maps(node.name@, d),
            },
    {
        let mut i: usize = 0;
        while i < self.entries.len()
            invariant
                i <= self.entries@.len(),
                forall|j: int| 0 <= j < i ==> #[trigger] self.entries@[j].0.name@ != node.name@,
            decreases self.entries@.len() - i,
        {
            if self.entries[i].0.name == node.name {
                return Some(&self.entries[i].1);
            }
            i += 1;
        }
        None
    }

    /// Number of nodes with a recorded distance.
    pub fn len(&self) -> (r: usize)
        ensures
            r == self.entries@.len(),
    {
        self.entries.len()
    }
}

impl GraphStore {
    /// `r` holds, for the node named `src`, exactly the nodes it reaches
    /// with their shortest distances; nothing when `src` is unknown.
    pub open spec fn reports_distances(&self, forward: bool, src: Seq<char>, r: Distances) -> bool {
        &&& r.names_distinct()
        &&& !self.names().contains(src) ==> r.entries@.len() == 0
        &&& forall|s: int, name: Seq<char>, d: usize|
            #![trigger self.names()[s], r.maps(name, d)]
            0 <= s < self.n() && self.names()[s] == src && r.maps(name, d) ==> exists|v: int|
                0 <= v < self.n() && self.names()[v] == name && #[trigger] self.is_distance(
                    forward,
                    s,
                    v,
                    d as nat,
                )
        &&& forall|s: int, v: int, d: nat|
            0 <= s < self.n() && self.names()[s] == src && 0 <= v < self.n() && #[trigger] self.is_distance(
                forward,
                s,
                v,
                d,
            ) ==> d <= usize::MAX && r.maps(self.names()[v], d as usize)
    }

    pub proof fn lemma_distance_unique(&self, forward: bool, s: int, v: int, d1: nat, d2: nat)
        requires
            self.is_distance(forward, s, v, d1),
            self.is_distance(forward, s, v, d2),
        ensures
            d1 == d2,
    {
        if d1 < d2 {
            self.lemma_reach_mono(forward, s, d1, (d2 - 1) as nat, v);
        } else if d2 < d1 {
            self.lemma_reach_mono(forward, s, d2, (d1 - 1) as nat, v);
        }
    }

    /// Shortest distances from the node named `source`, by name.
    pub fn name_distances(&self, source: &String, forward: bool) -> (r: Distances)
        requires
            self.wf(),
        ensures
            self.reports_distances(forward, source@, r),
    {
        match self.node2id(source) {
            None => {
                let r = Distances { entries: Vec::new() };
                assert(!self.names().contains(source@));
                assert(r.names_distinct());
                assert(self.reports_distances(forward, source@, r));
                r
            },
            Some(s) => {
                let dist = self.shortest_distances(s, forward);
                let n = self.id2node.len();
                let mut entries: Vec<(Node, usize)> = Vec::new();
                let ghost mut ids: Seq<int> = Seq::empty();
                let mut v: usize = 0;
                while v < n
                    invariant
                        self.wf(),
                        n == self.n(),
                        s < n,
                        self.names()[s as int] == source@,
                        v <= n,
                        dist@.len() == n,
                        forall|x: int|
                            0 <= x < self.n() ==> match #[trigger] dist@[x] {
                                Some(d) => self.is_distance(forward, s as int, x, d as nat),
                                None => forall|j: nat| !self.reach(forward, s as int, j, x),
                            },
                        ids.len() == entries@.len(),
                        forall|i: int|
                            0 <= i < ids.len() ==> 0 <= #[trigger] ids[i] < v && entries@[i].0.name@
                                == self.names()[ids[i]] && dist@[ids[i]] == Some(entries@[i].1),
                        forall|i: int, j: int| 0 <= i < j < ids.len() ==> ids[i] < ids[j],
                        forall|x: int|
                            0 <= x < v && (#[trigger] dist@[x]).is_some() ==> exists|i: int|
                                0 <= i < ids.len() && ids[i] == x,
                    decreases n - v,
                {
                    let ghost old_ids = ids;
                    match dist[v] {
                        Some(d) => {
                            entries.push((Node { name: self.id2node[v].clone() }, d));
                            proof {
                                ids = ids.push(v as int);
                            }
                        },
                        None => {},
                    }
                    proof {
                        assert forall|x: int|
                            0 <= x < v + 1 && (#[trigger] dist@[x]).is_some() implies exists|i: int|
                                0 <= i < ids.len() && ids[i] == x by {
                            if x == v {
                                assert(ids[ids.len() - 1] == x);
                            } else {
                                let i = choose|i: int| 0 <= i < old_ids.len() && old_ids[i] == x;
                                assert(ids[i] == x);
                            }
                        }
                    }
                    v += 1;
                }
                let r = Distances { entries };
                proof {
                    assert(self.names().contains(source@));
                    assert forall|i: int, j: int|
                        0 <= i < r.entries@.len() && 0 <= j < r.entries@.len() && i != j
                            implies #[trigger] r.entries@[i].0.name@ != #[trigger] r.entries@[j].0.name@ by {
                        assert(ids[i] != ids[j]);
                    }
                    assert forall|s2: int, name: Seq<char>, d: usize|
                        #![trigger self.names()[s2], r.maps(name, d)]
                        0 <= s2 < self.n() && self.names()[s2] == source@ && r.maps(name, d)
                            implies exists|x: int|
                            0 <= x < self.n() && self.names()[x] == name && #[trigger] self.is_distance(
                                forward,
                                s2,
                                x,
                                d as nat,
                            ) by {
                        assert(s2 == s as int);
                        let i = choose|i: int|
                            0 <= i < r.entries@.len() && #[trigger] r.entries@[i].0.name@ == name
                                && r.entries@[i].1 == d;
                        let x = ids[i];
                        assert(dist@[x] == Some(r.entries@[i].1));
                        assert(self.names()[x] == r.entries@[i].0.name@);
                    }
                    assert forall|s2: int, x: int, d: nat|
                        0 <= s2 < self.n() && self.names()[s2] == source@ && 0 <= x < self.n() && #[trigger] self.is_distance(
                            forward,
                            s2,
                            x,
                            d,
                        ) implies d <= usize::MAX && r.maps(self.names()[x], d as usize) by {
                        assert(s2 == s as int);
                        match dist@[x] {
                            Some(e) => {
                                self.lemma_distance_unique(forward, s2, x, d, e as nat);
                                let i = choose|i: int| 0 <= i < ids.len() && ids[i] == x;
                                assert(r.entries@[i].0.name@ == self.names()[x]);
                            },
                            None => {
                                assert(!self.reach(forward, s2, d, x));
                            },
                        }
                    }
                    assert(r.names_distinct());
                    assert(self.reports_distances(forward, source@, r));
                }
                r
            },
        }
    }
}

/// An edge between two named nodes.
#[derive(Debug, Clone, PartialEq, Eq)]
pub struct FullEdge {
    pub from: Node,
    pub to: Node,
    pub label: String,
}

/// Which projections a web graph will hold, where they are kept, and the
/// stores already kept there.
pub struct WebgraphBuilder {
    pub path: String,
    pub full_graph_path: Option<String>,
    pub host_graph_path: Option<String>,
    pub read_only: bool,
    /// The full projection's store as loaded from `full_graph_path`, if one
    /// was kept there.
    pub full_store: Option<GraphStore>,
    /// The host projection's store as loaded from `host_graph_path`, if one
    /// was kept there.
    pub host_store: Option<GraphStore>,
}

/// The store that a chosen projection opens with: the one kept at its
/// path, else an empty one.
pub open spec fn opened_store(path: Option<String>, kept: Option<GraphStore>, g: Option<GraphStore>) -> bool {
    match path {
        None => g.is_none(),
        Some(_) => match kept {
            Some(k) => g == Some(k),
            None => g.is_some() && g.unwrap().n() == 0 && forall|a: int|
                #![trigger g.unwrap().out_edges(a)]
                #![trigger g.unwrap().in_edges(a)]
                g.unwrap().out_edges(a).len() == 0 && g.unwrap().in_edges(a).len() == 0,
        },
    }
}

impl WebgraphBuilder {
    pub open spec fn wf(&self) -> bool {
        opt_wf(self.full_store) && opt_wf(self.host_store)
    }

    /// A builder for a graph held in memory only.
    pub fn new_memory() -> (r: Self)
        ensures
            r.wf(),
            r.full_graph_path.is_none(),
            r.host_graph_path.is_none(),
            !r.read_only,
            r.full_store.is_none(),
            r.host_store.is_none(),
    {
        Self::new("memory")
    }

    pub fn new(path: &str) -> (r: Self)
        ensures
            r.wf(),
            r.path@ == path@,
            r.full_graph_path.is_none(),
            r.host_graph_path.is_none(),
            !r.read_only,
            r.full_store.is_none(),
            r.host_store.is_none(),
    {
        Self {
            path: String::from_str(path),
            full_graph_path: None,
            host_graph_path: None,
            read_only: false,
            full_store: None,
            host_store: None,
        }
    }

    /// Adds the full projection, kept under `<path>/full`.
    pub fn with_full_graph(self) -> (r: Self)
        ensures
            r.path == self.path,
            r.full_graph_path.is_some() && r.full_graph_path.unwrap()@ == self.path@ + "/full"@,
            r.host_graph_path == self.host_graph_path,
            r.read_only == self.read_only,
            r.full_store == self.full_store,
            r.host_store == self.host_store,
    {
        let p = self.path.clone().concat("/full");
        Self { full_graph_path: Some(p), ..self }
    }

    /// Adds the host projection, kept under `<path>/host`.
    pub fn with_host_graph(self) -> (r: Self)
        ensures
            r.path == self.path,
            r.host_graph_path.is_some() && r.host_graph_path.unwrap()@ == self.path@ + "/host"@,
            r.full_graph_path == self.full_graph_path,
            r.read_only == self.read_only,
            r.full_store == self.full_store,
            r.host_store == self.host_store,
    {
        let p = self.path.clone().concat("/host");
        Self { host_graph_path: Some(p), ..self }
    }

    pub fn read_only(self, read_only: bool) -> (r: Self)
        ensures
            r.path == self.path,
            r.full_graph_path == self.full_graph_path,
            r.host_graph_path == self.host_graph_path,
            r.read_only == read_only,
            r.full_store == self.full_store,
            r.host_store == self.host_store,
    {
        Self { read_only, ..self }
    }

    /// Hands over the stores found at the projections' paths, as rebuilt by
    /// `GraphStore::restore` from what was kept there.
    pub fn with_stores(self, full_store: Option<GraphStore>, host_store: Option<GraphStore>) -> (r: Self)
        ensures
            r.path == self.path,
            r.full_graph_path == self.full_graph_path,
            r.host_graph_path == self.host_graph_path,
            r.read_only == self.read_only,
            r.full_store == full_store,
            r.host_store == host_store,
    {
        Self { full_store, host_store, ..self }
    }

    fn open_store(path: Option<String>, kept: Option<GraphStore>) -> (r: Option<GraphStore>)
        requires
            opt_wf(kept),
        ensures
            opt_wf(r),
            opened_store(path, kept, r),
    {
        match path {
            Some(_) => match kept {
                Some(k) => Some(k),
                None => Some(GraphStore::new()),
            },
            None => None,
        }
    }

    /// A web graph with each chosen projection holding the store kept at its
    /// path, or an empty store when none was kept there.
    pub fn open(self) -> (r: Webgraph)
        requires
            self.wf(),
        ensures
            r.wf(),
            r.path == self.path,
            r.read_only == self.read_only,
            opened_store(self.full_graph_path, self.full_store, r.full_graph),
            opened_store(self.host_graph_path, self.host_store, r.host_graph),
    {
        let full_graph = WebgraphBuilder::open_store(self.full_graph_path, self.full_store);
        let host_graph = WebgraphBuilder::open_store(self.host_graph_path, self.host_store);
        Webgraph { path: self.path, read_only: self.read_only, full_graph, host_graph }
    }
}

/// A store that is present and well formed, or absent.
pub open spec fn opt_wf(g: Option<GraphStore>) -> bool {
    match g {
        Some(x) => x.wf(),
        None => true,
    }
}

/// Room to insert one more edge.
pub open spec fn opt_room(g: Option<GraphStore>) -> bool {
    match g {
        Some(x) => x.has_room(),
        None => true,
    }
}

/// `g1` is `g0` with `(from, to, label)` inserted, or both are absent.
pub open spec fn opt_inserted(
    g0: Option<GraphStore>,
    g1: Option<GraphStore>,
    from: Seq<char>,
    to: Seq<char>,
    label: Seq<char>,
) -> bool {
    match g0 {
        Some(x) => g1.is_some() && GraphStore::inserted(x, g1.unwrap(), from, to, label),
        None => g1.is_none(),
    }
}

/// Room to merge `o` into `g`.
pub open spec fn opt_merge_room(g: Option<GraphStore>, o: Option<GraphStore>) -> bool {
    match (g, o) {
        (Some(a), Some(b)) => a.n() + b.n() + 1 < usize::MAX,
        _ => true,
    }
}

/// `g1` is `o` merged into `g0`: appended when both are present, `o` when
/// only it is, `g0` otherwise.
pub open spec fn opt_merged(g0: Option<GraphStore>, o: Option<GraphStore>, g1: Option<GraphStore>) -> bool {
    match (g0, o) {
        (Some(a), Some(b)) => g1.is_some() && GraphStore::appended(a, b, g1.unwrap()),
        (None, Some(b)) => g1 == Some(b),
        (_, None) => g1 == g0,
    }
}

/// What a distance query on an optional store returns.
pub open spec fn opt_reports(g: Option<GraphStore>, forward: bool, src: Seq<char>, r: Distances) -> bool {
    match g {
        Some(x) => x.reports_distances(forward, src, r),
        None => r.entries@.len() == 0,
    }
}

/// A full projection with URLs as nodes and a host projection with hosts
/// as nodes; either may be absent.
pub struct Webgraph {
    pub path: String,
    /// Opened only for reading: no insert or merge is made.
    pub read_only: bool,
    pub full_graph: Option<GraphStore>,
    pub host_graph: Option<GraphStore>,
}

impl Webgraph {
    pub open spec fn wf(&self) -> bool {
        opt_wf(self.full_graph) && opt_wf(self.host_graph)
    }

    /// Room to insert one more edge in each projection.
    pub open spec fn has_room(&self) -> bool {
        opt_room(self.full_graph) && opt_room(self.host_graph)
    }

    fn insert_into(graph: &mut Option<GraphStore>, from: String, to: String, label: String)
        requires
            opt_wf(*old(graph)),
            opt_room(*old(graph)),
        ensures
            opt_wf(*final(graph)),
            opt_inserted(*old(graph), *final(graph), from@, to@, label@),
    {
        match graph {
            Some(g) => g.insert(from, to, label),
            None => {},
        }
    }

    /// Inserts `from -> to` into the full projection as given, and into the
    /// host projection between the hosts of `from` and `to`.
    pub fn insert(&mut self, from: Node, to: Node, label: String)
        requires
            old(self).wf(),
            old(self).has_room(),
            !old(self).read_only,
        ensures
            final(self).wf(),
            final(self).path == old(self).path,
            final(self).read_only == old(self).read_only,
            opt_inserted(old(self).full_graph, final(self).full_graph, from.name@, to.name@, label@),
            opt_inserted(
                old(self).host_graph,
                final(self).host_graph,
                host_without_specific_subdomains_of(from.name@),
                host_without_specific_subdomains_of(to.name@),
                label@,
            ),
    {
        Webgraph::insert_into(&mut self.full_graph, from.name.clone(), to.name.clone(), label.clone());
        let from_host = from.into_host();
        let to_host = to.into_host();
        Webgraph::insert_into(&mut self.host_graph, from_host.name, to_host.name, label);
    }

    fn merge_into(graph: &mut Option<GraphStore>, other: Option<GraphStore>)
        requires
            opt_wf(*old(graph)),
            opt_wf(other),
            opt_merge_room(*old(graph), other),
        ensures
            opt_wf(*final(graph)),
            opt_merged(*old(graph), other, *final(graph)),
    {
        match other {
            Some(o) => {
                match graph {
                    Some(g) => g.append(o),
                    None => {
                        *graph = Some(o);
                    },
                }
            },
            None => {},
        }
    }

    /// Merges each projection of `other` into this graph: appended where
    /// both hold it, taken over where only `other` does.
    pub fn merge(&mut self, other: Webgraph)
        requires
            old(self).wf(),
            other.wf(),
            opt_merge_room(old(self).full_graph, other.full_graph),
            opt_merge_room(old(self).host_graph, other.host_graph),
            !old(self).read_only,
        ensures
            final(self).wf(),
            final(self).path == old(self).path,
            final(self).read_only == old(self).read_only,
            opt_merged(old(self).full_graph, other.full_graph, final(self).full_graph),
            opt_merged(old(self).host_graph, other.host_graph, final(self).host_graph),
    {
        Webgraph::merge_into(&mut self.full_graph, other.full_graph);
        Webgraph::merge_into(&mut self.host_graph, other.host_graph);
        self.flush();
    }

    fn distances_in(graph: &Option<GraphStore>, source: &String, forward: bool) -> (r: Distances)
        requires
            opt_wf(*graph),
        ensures
            opt_reports(*graph, forward, source@, r),
    {
        match graph {
            Some(g) => g.name_distances(source, forward),
            None => Distances { entries: Vec::new() },
        }
    }

    /// Distances from `source` along edges of the full projection.
    pub fn distances(&self, source: Node) -> (r: Distances)
        requires
            self.wf(),
        ensures
            opt_reports(self.full_graph, true, source.name@, r),
    {
        Webgraph::distances_in(&self.full_graph, &source.name, true)
    }

    /// Distances to `source` along edges of the full projection.
    pub fn reversed_distances(&self, source: Node) -> (r: Distances)
        requires
            self.wf(),
        ensures
            opt_reports(self.full_graph, false, source.name@, r),
    {
        Webgraph::distances_in(&self.full_graph, &source.name, false)
    }

    /// Distances from `source` along edges of the host projection.
    pub fn host_distances(&self, source: Node) -> (r: Distances)
        requires
            self.wf(),
        ensures
            opt_reports(self.host_graph, true, source.name@, r),
    {
        Webgraph::distances_in(&self.host_graph, &source.name, true)
    }

    /// Distances to `source` along edges of the host projection.
    pub fn host_reversed_distances(&self, source: Node) -> (r: Distances)
        requires
            self.wf(),
        ensures
            opt_reports(self.host_graph, false, source.name@, r),
    {
        Webgraph::distances_in(&self.host_graph, &source.name, false)
    }

    /// The edges of the full projection that end at `node`, with names.
    pub fn ingoing_edges(&self, node: Node) -> (r: Vec<FullEdge>)
        requires
            self.wf(),
        ensures
            match self.full_graph {
                None => r@.len() == 0,
                Some(g) => if g.names().contains(node.name@) {
                    exists|id: int|
                        0 <= id < g.n() && #[trigger] g.names()[id] == node.name@ && r@.len()
                            == g.in_edges(id).len() && forall|k: int|
                            0 <= k < r@.len() ==> (#[trigger] r@[k]).from.name@ == g.names()[g.in_edges(
                                id,
                            )[k].0 as int] && r@[k].to.name@ == node.name@ && r@[k].label@
                                == g.in_edges(id)[k].1
                } else {
                    r@.len() == 0
                },
            },
    {
        match &self.full_graph {
            None => Vec::new(),
            Some(graph) => {
                match graph.node2id(&node.name) {
                    None => Vec::new(),
                    Some(id) => {
                        let edges = graph.ingoing_edges(id);
                        let mut r: Vec<FullEdge> = Vec::new();
                        let mut k: usize = 0;
                        while k < edges.len()
                            invariant
                                graph.wf(),
                                id < graph.n(),
                                graph.names()[id as int] == node.name@,
                                edges@.len() == graph.in_edges(id as int).len(),
                                forall|j: int|
                                    0 <= j < edges@.len() ==> (#[trigger] edges@[j]).from
                                        == graph.in_edges(id as int)[j].0 && edges@[j].to == id
                                        && edges@[j].label@ == graph.in_edges(id as int)[j].1,
                                k <= edges@.len(),
                                r@.len() == k,
                                forall|j: int|
                                    0 <= j < k ==> (#[trigger] r@[j]).from.name@ == graph.names()[graph.in_edges(
                                        id as int,
                                    )[j].0 as int] && r@[j].to.name@ == node.name@ && r@[j].label@
                                        == graph.in_edges(id as int)[j].1,
                            decreases edges@.len() - k,
                        {
                            let e = &edges[k];
                            proof {
                                assert(graph.ingoing.edges_of(id as int)[k as int].0 < graph.n());
                            }
                            let n = graph.id2node.len();
                            assert(e.from < n);
                            r.push(FullEdge {
                                from: Node { name: graph.id2node[e.from as usize].clone() },
                                to: Node { name: graph.id2node[id as usize].clone() },
                                label: e.label.clone(),
                            });
                            k += 1;
                        }
                        assert(graph.names()[id as int] == node.name@);
                        r
                    },
                }
            },
        }
    }

    /// Every insert and merge is applied to the stores as it is made, so
    /// no write is pending in the graph and nothing in it changes here. The
    /// stores become durable when the holder of `path` writes what
    /// `GraphStore::node_names` and `GraphStore::edge_triples` give for each
    /// projection; opening at that path hands them back through
    /// `GraphStore::restore` and `WebgraphBuilder::with_stores`.
    pub fn flush(&self) {
    }
}

/// The values of `s` as natural numbers.
pub open spec fn as_nats(s: Seq<usize>) -> Seq<nat> {
    s.map_values(|d: usize| d as nat)
}

impl GraphStore {
    /// The shortest distance from `u` to `v`, if `u` reaches `v`.
    pub open spec fn distance_to(&self, v: int, u: int) -> Option<nat> {
        if exists|d: nat| self.is_distance(false, v, u, d) {
            Some(choose|d: nat| self.is_distance(false, v, u, d))
        } else {
            None
        }
    }

    /// Distances to `v` from the nodes `u < m` other than `v` that reach it,
    /// in id order: the terms of `v`'s harmonic centrality.
    pub open spec fn centrality_terms_below(&self, v: int, m: nat) -> Seq<nat>
        decreases m,
    {
        if m == 0 {
            Seq::empty()
        } else {
            let t = self.centrality_terms_below(v, (m - 1) as nat);
            let u = m - 1;
            if u != v && self.distance_to(v, u).is_some() {
                t.push(self.distance_to(v, u).unwrap())
            } else {
                t
            }
        }
    }

    pub open spec fn centrality_terms_of(&self, v: int) -> Seq<nat> {
        self.centrality_terms_below(v, self.n() as nat)
    }

    /// The distances into node `v` from every other node that reaches it.
    fn terms_into(&self, v: NodeID) -> (r: Vec<usize>)
        requires
            self.wf(),
            v < self.n(),
        ensures
            as_nats(r@) == self.centrality_terms_of(v as int),
    {
        let dist = self.shortest_distances(v, false);
        let n = self.id2node.len();
        let mut r: Vec<usize> = Vec::new();
        let mut u: usize = 0;
        while u < n
            invariant
                self.wf(),
                n == self.n(),
                v < n,
                u <= n,
                dist@.len() == n,
                forall|x: int|
                    0 <= x < self.n() ==> match #[trigger] dist@[x] {
                        Some(d) => self.is_distance(false, v as int, x, d as nat),
                        None => forall|j: nat| !self.reach(false, v as int, j, x),
                    },
                as_nats(r@) == self.centrality_terms_below(v as int, u as nat),
            decreases n - u,
        {
            let ghost before = r@;
            proof {
                match dist@[u as int] {
                    Some(d) => {
                        self.lemma_distance_unique_all(v as int, u as int, d as nat);
                    },
                    None => {
                        assert forall|d: nat| !self.is_distance(false, v as int, u as int, d) by {
                            assert(!self.reach(false, v as int, d, u as int));
                        }
                    },
                }
            }
            if u as NodeID != v {
                match dist[u] {
                    Some(d) => {
                        r.push(d);
                        assert(as_nats(r@) =~= as_nats(before).push(d as nat));
                    },
                    None => {},
                }
            }
            u += 1;
        }
        r
    }

    pub proof fn lemma_distance_unique_all(&self, v: int, u: int, d: nat)
        requires
            self.is_distance(false, v, u, d),
        ensures
            self.distance_to(v, u) == Some(d),
    {
        let e = choose|e: nat| self.is_distance(false, v, u, e);
        self.lemma_distance_unique(false, v, u, d, e);
    }

    /// `e` names a node and lists the terms of its centrality, of which
    /// there is at least one.
    pub open spec fn centrality_entry(&self, e: (Node, Vec<usize>)) -> bool {
        exists|v: int|
            0 <= v < self.n() && #[trigger] self.names()[v] == e.0.name@ && as_nats(e.1@)
                == self.centrality_terms_of(v) && e.1@.len() > 0
    }

    /// For each node that another node reaches, in id order: its name and
    /// the distances into it, which are the terms of its harmonic
    /// centrality. A node that no other node reaches has centrality zero
    /// and is left out.
    pub fn centrality_terms(&self) -> (r: Vec<(Node, Vec<usize>)>)
        requires
            self.wf(),
        ensures
            entries_distinct(r@),
            forall|i: int| 0 <= i < r@.len() ==> #[trigger] self.centrality_entry(r@[i]),
            forall|v: int|
                0 <= v < self.n() && (#[trigger] self.centrality_terms_of(v)).len() > 0 ==> exists|i: int|
                    0 <= i < r@.len() && r@[i].0.name@ == self.names()[v],
    {
        let n = self.id2node.len();
        let mut r: Vec<(Node, Vec<usize>)> = Vec::new();
        let mut v: usize = 0;
        let ghost mut vs: Seq<int> = Seq::empty();
        while v < n
            invariant
                self.wf(),
                n == self.n(),
                v <= n,
                vs.len() == r@.len(),
                forall|i: int| 0 <= i < vs.len() ==> 0 <= #[trigger] vs[i] < v && self.names()[vs[i]] == r@[i].0.name@,
                forall|i: int, j: int| 0 <= i < j < vs.len() ==> vs[i] < vs[j],
                forall|i: int| 0 <= i < r@.len() ==> #[trigger] self.centrality_entry(r@[i]),
                forall|x: int|
                    0 <= x < v && (#[trigger] self.centrality_terms_of(x)).len() > 0 ==> exists|i: int|
                        0 <= i < r@.len() && r@[i].0.name@ == self.names()[x],
            decreases n - v,
        {
            let terms = self.terms_into(v as NodeID);
            let ghost old_r = r@;
            if terms.len() > 0 {
                r.push((Node { name: self.id2node[v].clone() }, terms));
                proof {
                    vs = vs.push(v as int);
                }
                assert forall|i: int| 0 <= i < vs.len() implies 0 <= #[trigger] vs[i] < v + 1 && self.names()[vs[i]] == r@[i].0.name@ by {
                    if i < old_r.len() {
                        assert(r@[i] == old_r[i]);
                    }
                }
                assert forall|i: int| 0 <= i < r@.len() implies #[trigger] self.centrality_entry(r@[i]) by {
                    if i < old_r.len() {
                        assert(r@[i] == old_r[i]);
                    } else {
                        assert(self.names()[v as int] == r@[i].0.name@);
                    }
                }
                assert forall|x: int|
                    0 <= x < v + 1 && (#[trigger] self.centrality_terms_of(x)).len() > 0 implies exists|i: int|
                        0 <= i < r@.len() && r@[i].0.name@ == self.names()[x] by {
                    if x < v {
                        let i = choose|i: int| 0 <= i < old_r.len() && old_r[i].0.name@ == self.names()[x];
                        assert(r@[i] == old_r[i]);
                    } else {
                        assert(r@[r@.len() - 1].0.name@ == self.names()[x]);
                    }
                }
            } else {
                assert(as_nats(terms@).len() == 0);
            }
            v += 1;
        }
        assert forall|i: int, j: int|
            0 <= i < r@.len() && 0 <= j < r@.len() && i != j implies #[trigger] r@[i].0.name@ != #[trigger] r@[j].0.name@ by {
            assert(vs[i] != vs[j]);
            assert(self.names()[vs[i]] == r@[i].0.name@);
            assert(self.names()[vs[j]] == r@[j].0.name@);
        }
        r
    }
}

/// No two entries name the same node.
pub open spec fn entries_distinct(r: Seq<(Node, Vec<usize>)>) -> bool {
    forall|i: int, j: int|
        0 <= i < r.len() && 0 <= j < r.len() && i != j ==> #[trigger] r[i].0.name@ != #[trigger] r[j].0.name@
}

/// What harmonic centrality is computed from: the number of nodes, and for
/// each node with a nonzero centrality the distances into it.
pub struct CentralityTerms {
    pub node_count: usize,
    pub entries: Vec<(Node, Vec<usize>)>,
}

/// `t` holds the centrality terms of `g`, or nothing when `g` is absent.
pub open spec fn opt_terms(g: Option<GraphStore>, t: CentralityTerms) -> bool {
    match g {
        Some(x) => {
            &&& t.node_count == x.n()
            &&& entries_distinct(t.entries@)
            &&& forall|i: int| 0 <= i < t.entries@.len() ==> #[trigger] x.centrality_entry(t.entries@[i])
            &&& forall|v: int|
                0 <= v < x.n() && (#[trigger] x.centrality_terms_of(v)).len() > 0 ==> exists|i: int|
                    0 <= i < t.entries@.len() && t.entries@[i].0.name@ == x.names()[v]
        },
        None => t.node_count == 0 && t.entries@.len() == 0,
    }
}

impl Webgraph {
    fn terms_in(graph: &Option<GraphStore>) -> (r: CentralityTerms)
        requires
            opt_wf(*graph),
        ensures
            opt_terms(*graph, r),
    {
        match graph {
            Some(g) => {
                let entries = g.centrality_terms();
                let t = CentralityTerms { node_count: g.node_count(), entries };
                assert forall|i: int| 0 <= i < t.entries@.len() implies #[trigger] g.centrality_entry(
                    t.entries@[i],
                ) by {
                    assert(g.centrality_entry(entries@[i]));
                }
                assert forall|v: int|
                    0 <= v < g.n() && (#[trigger] g.centrality_terms_of(v)).len() > 0 implies exists|i: int|
                        0 <= i < t.entries@.len() && t.entries@[i].0.name@ == g.names()[v] by {
                    let i = choose|i: int| 0 <= i < entries@.len() && entries@[i].0.name@ == g.names()[v];
                    assert(t.entries@[i].0.name@ == g.names()[v]);
                }
                t
            },
            None => CentralityTerms { node_count: 0, entries: Vec::new() },
        }
    }

    /// The terms of harmonic centrality over the full projection.
    pub fn centrality_terms(&self) -> (r: CentralityTerms)
        requires
            self.wf(),
        ensures
            opt_terms(self.full_graph, r),
    {
        Webgraph::terms_in(&self.full_graph)
    }

    /// The terms of harmonic centrality over the host projection.
    pub fn host_centrality_terms(&self) -> (r: CentralityTerms)
        requires
            self.wf(),
        ensures
            opt_terms(self.host_graph, r),
    {
        Webgraph::terms_in(&self.host_graph)
    }
}

/// A snapshot of a web graph, taken after a flush: its path and the store
/// of each projection it holds.
pub struct FrozenWebgraph {
    pub path: String,
    pub read_only: bool,
    pub full_graph: Option<GraphStore>,
    pub host_graph: Option<GraphStore>,
}

impl FrozenWebgraph {
    /// Whether the snapshot holds the full projection.
    pub fn has_full(&self) -> (r: bool)
        ensures
            r == self.full_graph.is_some(),
    {
        self.full_graph.is_some()
    }

    /// Whether the snapshot holds the host projection.
    pub fn has_host(&self) -> (r: bool)
        ensures
            r == self.host_graph.is_some(),
    {
        self.host_graph.is_some()
    }
}

/// The snapshot of `graph`.
pub open spec fn frozen_of(graph: Webgraph) -> FrozenWebgraph {
    FrozenWebgraph {
        path: graph.path,
        read_only: graph.read_only,
        full_graph: graph.full_graph,
        host_graph: graph.host_graph,
    }
}

/// The graph that `frozen` opens to: its projections with their stores.
pub open spec fn thawed_of(frozen: FrozenWebgraph) -> Webgraph {
    Webgraph {
        path: frozen.path,
        read_only: frozen.read_only,
        full_graph: frozen.full_graph,
        host_graph: frozen.host_graph,
    }
}

impl From<Webgraph> for FrozenWebgraph {
    fn from(graph: Webgraph) -> (r: FrozenWebgraph)
        ensures
            r == frozen_of(graph),
    {
        graph.flush();
        FrozenWebgraph {
            path: graph.path,
            read_only: graph.read_only,
            full_graph: graph.full_graph,
            host_graph: graph.host_graph,
        }
    }
}

impl vstd::std_specs::convert::FromSpecImpl<Webgraph> for FrozenWebgraph {
    open spec fn obeys_from_spec() -> bool {
        true
    }

    open spec fn from_spec(graph: Webgraph) -> FrozenWebgraph {
        frozen_of(graph)
    }
}

impl From<FrozenWebgraph> for Webgraph {
    /// Opens the snapshot's projections with the snapshot's stores.
    fn from(frozen: FrozenWebgraph) -> (r: Webgraph)
        ensures
            r == thawed_of(frozen),
    {
        Webgraph {
            path: frozen.path,
            read_only: frozen.read_only,
            full_graph: frozen.full_graph,
            host_graph: frozen.host_graph,
        }
    }
}

impl vstd::std_specs::convert::FromSpecImpl<FrozenWebgraph> for Webgraph {
    open spec fn obeys_from_spec() -> bool {
        true
    }

    open spec fn from_spec(frozen: FrozenWebgraph) -> Webgraph {
        thawed_of(frozen)
    }
}

/// Thawing a frozen graph gives back the graph that was frozen: the same
/// path and the same stores, so every distance computed after the thaw
/// equals the one computed before the freeze.
pub proof fn lemma_freeze_thaw(graph: Webgraph, forward: bool, src: Seq<char>, r: Distances)
    ensures
        thawed_of(frozen_of(graph)) == graph,
        opt_reports(graph.full_graph, forward, src, r) <==> opt_reports(
            thawed_of(frozen_of(graph)).full_graph,
            forward,
            src,
            r,
        ),
        opt_reports(graph.host_graph, forward, src, r) <==> opt_reports(
            thawed_of(frozen_of(graph)).host_graph,
            forward,
            src,
            r,
        ),
{
}

/// The host projection receives every edge between the hosts of its
/// endpoints, with `www` stripped: after an insert, both projected names
/// are nodes of the host graph.
pub proof fn lemma_host_projection(g0: Webgraph, g1: Webgraph, from: Node, to: Node, label: Seq<char>)
    requires
        g0.host_graph.is_some(),
        opt_inserted(
            g0.host_graph,
            g1.host_graph,
            host_without_specific_subdomains_of(from.name@),
            host_without_specific_subdomains_of(to.name@),
            label,
        ),
    ensures
        g1.host_graph.is_some(),
        g1.host_graph.unwrap().names().contains(host_without_specific_subdomains_of(from.name@)),
        g1.host_graph.unwrap().names().contains(host_without_specific_subdomains_of(to.name@)),
{
    let h = g1.host_graph.unwrap();
    assert(h.names().contains(host_without_specific_subdomains_of(from.name@)));
}

} // verus!
