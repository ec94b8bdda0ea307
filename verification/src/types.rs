//! The execution graph: functions of a firmware image and the calls between them.
use petgraph::graph::{DiGraph, NodeIndex};
use petgraph::visit::EdgeRef;
use std::collections::HashMap;
use vstd::prelude::*;

verus! {

broadcast use vstd::std_specs::hash::group_hash_axioms;

/// Physical function representation extracted from ELF symbols.
#[derive(Debug, Clone)]
pub struct WcfgNode {
    /// Physical address in executable memory.
    pub physical_address: u64,
    /// ELF symbol name.
    pub symbol_name: String,
    /// Stack frame allocation in bytes.
    pub physical_frame_size_bytes: usize,
    /// Exact size of the function symbol in bytes.
    pub symbol_size_bytes: usize,
}

/// Edge classification for control-flow transitions.
#[derive(Debug, Clone)]
pub enum CallType {
    Direct,
    Indirect,
    HardwareInterrupt(u8),
}

/// Weighted CFG edge.
#[derive(Debug, Clone)]
pub struct WcfgEdge {
    pub call_type: CallType,
}

/// petgraph's `Graph`, opaque to Verus: what a call graph holds is named by `graph_nodes` and
/// `graph_edges`.
#[verifier::external_type_specification]
#[verifier::external_body]
#[verifier::reject_recursive_types(N)]
#[verifier::reject_recursive_types(E)]
#[verifier::reject_recursive_types(Ty)]
#[verifier::reject_recursive_types(Ix)]
pub struct ExGraph<N, E, Ty, Ix>(petgraph::graph::Graph<N, E, Ty, Ix>);

/// petgraph's marker type for directed graphs.
#[verifier::external_type_specification]
#[verifier::external_body]
pub struct ExDirected(petgraph::Directed);

/// The node weights of a call graph, indexed by node index.
pub uninterp spec fn graph_nodes(g: DiGraph<WcfgNode, WcfgEdge>) -> Seq<WcfgNode>;

/// The edges of a call graph as (source, target, weight), in the order they were added.
pub uninterp spec fn graph_edges(g: DiGraph<WcfgNode, WcfgEdge>) -> Seq<(usize, usize, WcfgEdge)>;

/// `Graph::new` from petgraph: a directed graph with no nodes and no edges.
#[verifier::external_body]
pub(crate) fn graph_new() -> (g: DiGraph<WcfgNode, WcfgEdge>)
    ensures
        graph_nodes(g) == Seq::<WcfgNode>::empty(),
        graph_edges(g) == Seq::<(usize, usize, WcfgEdge)>::empty(),
{
    DiGraph::new()
}

/// The targets of the edges leaving `node`, most recently added edge first.
pub open spec fn outgoing(edges: Seq<(usize, usize, WcfgEdge)>, node: usize) -> Seq<usize>
    decreases edges.len(),
{
    if edges.len() == 0 {
        Seq::empty()
    } else {
        let rest = outgoing(edges.drop_last(), node);
        if edges.last().0 == node {
            seq![edges.last().1] + rest
        } else {
            rest
        }
    }
}

/// Both node sequences hold the same functions (addresses, names and sizes), frame sizes aside.
pub open spec fn same_functions(a: Seq<WcfgNode>, b: Seq<WcfgNode>) -> bool {
    &&& a.len() == b.len()
    &&& forall|i: int|
        0 <= i < a.len() ==> (#[trigger] a[i]).physical_address == b[i].physical_address && a[i].symbol_name
            == b[i].symbol_name && a[i].symbol_size_bytes == b[i].symbol_size_bytes
}

/// A function as plain values: its address, name, frame size and symbol size.
pub open spec fn node_model(n: WcfgNode) -> (u64, Seq<char>, usize, usize) {
    (n.physical_address, n.symbol_name@, n.physical_frame_size_bytes, n.symbol_size_bytes)
}

/// Both node sequences hold the same functions, each taken as plain values.
pub open spec fn same_models(a: Seq<WcfgNode>, b: Seq<WcfgNode>) -> bool {
    &&& a.len() == b.len()
    &&& forall|i: int| 0 <= i < a.len() ==> node_model(#[trigger] a[i]) == node_model(b[i])
}

/// Some edge leads from `u` to `v`.
pub open spec fn has_edge(edges: Seq<(usize, usize, WcfgEdge)>, u: usize, v: usize) -> bool {
    exists|k: int| 0 <= k < edges.len() && (#[trigger] edges[k]).0 == u && edges[k].1 == v
}

/// Consecutive entries of `p` are joined by edges.
pub open spec fn is_walk(edges: Seq<(usize, usize, WcfgEdge)>, p: Seq<usize>) -> bool {
    forall|k: int| 0 <= k < p.len() - 1 ==> #[trigger] has_edge(edges, p[k], p[k + 1])
}

/// `v` can be reached from `u` by following zero or more edges.
pub open spec fn reaches(edges: Seq<(usize, usize, WcfgEdge)>, u: usize, v: usize) -> bool {
    exists|p: Seq<usize>| #[trigger] is_walk(edges, p) && p.len() > 0 && p[0] == u && p.last() == v
}

/// `u` and `v` reach each other.
pub open spec fn strongly_connected(edges: Seq<(usize, usize, WcfgEdge)>, u: usize, v: usize) -> bool {
    reaches(edges, u, v) && reaches(edges, v, u)
}

/// Some component of `comps` holds `v`.
pub open spec fn lists_node(comps: Seq<Seq<usize>>, v: usize) -> bool {
    exists|i: int, j: int| 0 <= i < comps.len() && 0 <= j < comps[i].len() && #[trigger] comps[i][j] == v
}

/// `comps` lists the strongly connected components of the graph with nodes `0..n`: every node lies
/// in exactly one component, and two nodes share a component exactly when they reach each other.
pub open spec fn is_scc_partition(
    n: nat,
    edges: Seq<(usize, usize, WcfgEdge)>,
    comps: Seq<Seq<usize>>,
) -> bool {
    &&& forall|i: int| 0 <= i < comps.len() ==> (#[trigger] comps[i]).len() > 0
    &&& forall|i: int, j: int| 0 <= i < comps.len() && 0 <= j < comps[i].len() ==> #[trigger] comps[i][j] < n
    &&& forall|v: usize| v < n ==> #[trigger] lists_node(comps, v)
    &&& forall|i1: int, j1: int, i2: int, j2: int|
        0 <= i1 < comps.len() && 0 <= j1 < comps[i1].len() && 0 <= i2 < comps.len() && 0 <= j2 < comps[i2].len()
            && #[trigger] comps[i1][j1] == #[trigger] comps[i2][j2] ==> i1 == i2 && j1 == j2
    &&& forall|i: int, j1: int, j2: int|
        0 <= i < comps.len() && 0 <= j1 < comps[i].len() && 0 <= j2 < comps[i].len() ==> strongly_connected(
            edges,
            #[trigger] comps[i][j1],
            #[trigger] comps[i][j2],
        )
    &&& forall|i1: int, j1: int, i2: int, j2: int|
        0 <= i1 < comps.len() && 0 <= j1 < comps[i1].len() && 0 <= i2 < comps.len() && 0 <= j2 < comps[i2].len()
            && i1 != i2 ==> !strongly_connected(edges, #[trigger] comps[i1][j1], #[trigger] comps[i2][j2])
}

/// The components that petgraph's `tarjan_scc` lists for a graph with nodes `0..node_count`
/// and the given edges, in the order it lists them.
pub uninterp spec fn tarjan_scc_order(node_count: nat, edges: Seq<(usize, usize, WcfgEdge)>) -> Seq<Seq<usize>>;

/// The components of `sccs`, each as a sequence of node indices.
pub open spec fn component_views(sccs: Seq<Vec<usize>>) -> Seq<Seq<usize>> {
    sccs.map_values(|c: Vec<usize>| c@)
}

/// `petgraph::algo::tarjan_scc`, each node taken by its index. Its documentation promises that each
/// listed element is a strongly connected component; the order of the components and of the nodes
/// within one is left to the name `tarjan_scc_order`.
#[verifier::external_body]
pub(crate) fn graph_tarjan_scc(g: &DiGraph<WcfgNode, WcfgEdge>) -> (sccs: Vec<Vec<usize>>)
    ensures
        component_views(sccs@) == tarjan_scc_order(graph_nodes(*g).len(), graph_edges(*g)),
        is_scc_partition(graph_nodes(*g).len(), graph_edges(*g), component_views(sccs@)),
{
    petgraph::algo::tarjan_scc(g).into_iter().map(|c| c.into_iter().map(|n| n.index()).collect()).collect()
}

/// Every target listed by `outgoing` is the target of some edge.
pub proof fn lemma_outgoing_targets(edges: Seq<(usize, usize, WcfgEdge)>, node: usize, n: nat)
    requires
        forall|k: int| 0 <= k < edges.len() ==> (#[trigger] edges[k]).1 < n,
    ensures
        forall|j: int| 0 <= j < outgoing(edges, node).len() ==> #[trigger] outgoing(edges, node)[j] < n,
    decreases edges.len(),
{
    if edges.len() > 0 {
        let rest = edges.drop_last();
        assert forall|k: int| 0 <= k < rest.len() implies (#[trigger] rest[k]).1 < n by {
            assert(rest[k] == edges[k]);
        }
        lemma_outgoing_targets(rest, node, n);
        assert(edges.last() == edges[edges.len() - 1]);
        let o = outgoing(edges, node);
        let ro = outgoing(rest, node);
        assert forall|j: int| 0 <= j < o.len() implies #[trigger] o[j] < n by {
            if edges.last().0 == node && j > 0 {
                assert(o[j] == ro[j - 1]);
            }
        }
    }
}

/// `outgoing` lists exactly the targets of the edges that leave `node`.
pub proof fn lemma_outgoing_has_edge(edges: Seq<(usize, usize, WcfgEdge)>, node: usize, v: usize)
    ensures
        outgoing(edges, node).contains(v) <==> has_edge(edges, node, v),
    decreases edges.len(),
{
    if edges.len() > 0 {
        let rest = edges.drop_last();
        let o = outgoing(edges, node);
        let ro = outgoing(rest, node);
        let last = edges.last();
        lemma_outgoing_has_edge(rest, node, v);
        assert(last == edges[edges.len() - 1]);
        if has_edge(rest, node, v) {
            let k = choose|k: int| 0 <= k < rest.len() && (#[trigger] rest[k]).0 == node && rest[k].1 == v;
            assert(edges[k] == rest[k]);
        }
        if has_edge(edges, node, v) && !(last.0 == node && last.1 == v) {
            let k = choose|k: int| 0 <= k < edges.len() && (#[trigger] edges[k]).0 == node && edges[k].1 == v;
            assert(k < rest.len());
            assert(rest[k] == edges[k]);
        }
        if last.0 == node {
            if ro.contains(v) {
                let j = choose|j: int| 0 <= j < ro.len() && ro[j] == v;
                assert(o[j + 1] == v);
            }
            if o.contains(v) {
                let j = choose|j: int| 0 <= j < o.len() && o[j] == v;
                if j > 0 {
                    assert(ro[j - 1] == v);
                }
            }
            assert(o[0] == last.1);
        }
    }
}

/// `Graph::add_node` from petgraph: appends the weight as a new node and returns its index.
/// The call panics when the graph already holds `u32::MAX` nodes.
#[verifier::external_body]
pub(crate) fn graph_add_node(g: &mut DiGraph<WcfgNode, WcfgEdge>, weight: WcfgNode) -> (idx: usize)
    requires
        graph_nodes(*old(g)).len() < u32::MAX,
    ensures
        idx == graph_nodes(*old(g)).len(),
        graph_nodes(*final(g)) == graph_nodes(*old(g)).push(weight),
        graph_edges(*final(g)) == graph_edges(*old(g)),
{
    g.add_node(weight).index()
}

/// `Graph::add_edge` from petgraph: appends an edge from `a` to `b` with the given weight.
/// The call panics when an endpoint is not a node or the graph already holds `u32::MAX` edges.
#[verifier::external_body]
pub(crate) fn graph_add_edge(g: &mut DiGraph<WcfgNode, WcfgEdge>, a: usize, b: usize, weight: WcfgEdge)
    requires
        a < graph_nodes(*old(g)).len(),
        b < graph_nodes(*old(g)).len(),
        graph_nodes(*old(g)).len() <= u32::MAX,
        graph_edges(*old(g)).len() < u32::MAX,
    ensures
        graph_nodes(*final(g)) == graph_nodes(*old(g)),
        graph_edges(*final(g)) == graph_edges(*old(g)).push((a, b, weight)),
{
    g.add_edge(NodeIndex::new(a), NodeIndex::new(b), weight);
}

/// `Graph::node_count` from petgraph: the number of nodes.
#[verifier::external_body]
pub(crate) fn graph_node_count(g: &DiGraph<WcfgNode, WcfgEdge>) -> (n: usize)
    ensures
        n == graph_nodes(*g).len(),
{
    g.node_count()
}

/// `Graph::edge_count` from petgraph: the number of edges.
#[verifier::external_body]
pub(crate) fn graph_edge_count(g: &DiGraph<WcfgNode, WcfgEdge>) -> (n: usize)
    ensures
        n == graph_edges(*g).len(),
{
    g.edge_count()
}

/// Indexing a petgraph `Graph` by a node (`Index<NodeIndex>`): the weight of node `i`.
/// The call panics when `i` is not a node.
#[verifier::external_body]
pub(crate) fn graph_node<'a>(g: &'a DiGraph<WcfgNode, WcfgEdge>, i: usize) -> (w: &'a WcfgNode)
    requires
        i < graph_nodes(*g).len(),
        graph_nodes(*g).len() <= u32::MAX,
    ensures
        *w == graph_nodes(*g)[i as int],
{
    &g[NodeIndex::new(i)]
}

/// Assigning through `IndexMut<NodeIndex>` of a petgraph `Graph`: replaces the weight of node `i`.
/// The call panics when `i` is not a node.
#[verifier::external_body]
pub(crate) fn graph_set_node(g: &mut DiGraph<WcfgNode, WcfgEdge>, i: usize, weight: WcfgNode)
    requires
        i < graph_nodes(*old(g)).len(),
        graph_nodes(*old(g)).len() <= u32::MAX,
    ensures
        graph_nodes(*final(g)) == graph_nodes(*old(g)).update(i as int, weight),
        graph_edges(*final(g)) == graph_edges(*old(g)),
{
    g[NodeIndex::new(i)] = weight;
}

/// `Graph::edges_directed(i, Outgoing)` from petgraph, each edge taken by its target.
/// For a directed graph petgraph lists the edges most recently added first.
#[verifier::external_body]
pub(crate) fn graph_outgoing(g: &DiGraph<WcfgNode, WcfgEdge>, i: usize) -> (targets: Vec<usize>)
    requires
        i < graph_nodes(*g).len(),
        graph_nodes(*g).len() <= u32::MAX,
    ensures
        targets@ == outgoing(graph_edges(*g), i),
{
    g.edges_directed(NodeIndex::new(i), petgraph::Direction::Outgoing).map(|e| e.target().index()).collect()
}

/// `Clone` for a petgraph `Graph`: clones the node and edge weights with their own `clone`.
/// Nothing is stated of the result, since those clones are the weight types' own.
pub assume_specification<N, E, Ty, Ix>[<petgraph::Graph<N, E, Ty, Ix> as std::clone::Clone>::clone](
    g: &petgraph::Graph<N, E, Ty, Ix>,
) -> (r: petgraph::Graph<N, E, Ty, Ix>)
    where
        N: std::clone::Clone,
        E: std::clone::Clone,
        Ix: std::marker::Copy,
;

/// Weighted Control-Flow Graph.
#[derive(Debug, Clone)]
pub struct ExecutionGraph {
    pub graph: DiGraph<WcfgNode, WcfgEdge>,
    /// Fast lookup from physical address to the index of its graph node.
    pub address_map: HashMap<u64, usize>,
}

impl ExecutionGraph {
    /// The functions, indexed by node index.
    pub open spec fn nodes(&self) -> Seq<WcfgNode> {
        graph_nodes(self.graph)
    }

    /// The calls as (caller, callee, weight), in the order they were added.
    pub open spec fn edges(&self) -> Seq<(usize, usize, WcfgEdge)> {
        graph_edges(self.graph)
    }

    /// The graph is well formed: indices fit petgraph's index type, every edge joins two
    /// nodes, and the address map sends each address to a node at that address.
    pub open spec fn wf(&self) -> bool {
        &&& self.nodes().len() <= u32::MAX
        &&& self.edges().len() <= u32::MAX
        &&& forall|k: int|
            0 <= k < self.edges().len() ==> (#[trigger] self.edges()[k]).0 < self.nodes().len()
                && self.edges()[k].1 < self.nodes().len()
        &&& forall|a: u64|
            #[trigger] self.address_map@.contains_key(a) ==> self.address_map@[a] < self.nodes().len()
                && self.nodes()[self.address_map@[a] as int].physical_address == a
    }

    /// The graph as plain values: its functions, its calls and its address map.
    pub open spec fn model(&self) -> (Seq<(u64, Seq<char>, usize, usize)>, Seq<(usize, usize, WcfgEdge)>, Map<u64, usize>) {
        (self.nodes().map_values(|n: WcfgNode| node_model(n)), self.edges(), self.address_map@)
    }

    /// The call targets of node `i`, in the order a traversal visits them.
    pub open spec fn succ(&self, i: usize) -> Seq<usize> {
        outgoing(self.edges(), i)
    }

    /// Every call target of a node of a well-formed graph is a node.
    pub proof fn lemma_succ_in_bounds(&self, i: usize)
        requires
            self.wf(),
        ensures
            forall|j: int| 0 <= j < self.succ(i).len() ==> #[trigger] self.succ(i)[j] < self.nodes().len(),
    {
        lemma_outgoing_targets(self.edges(), i, self.nodes().len());
    }

    /// The index of the first function named `name`, if any.
    pub fn find_symbol(&self, name: &String) -> (r: Option<usize>)
        requires
            self.wf(),
        ensures
            match r {
                Some(i) => i < self.nodes().len() && self.nodes()[i as int].symbol_name@ == name@ && forall|j: int|
                    0 <= j < i ==> (#[trigger] self.nodes()[j]).symbol_name@ != name@,
                None => forall|j: int| 0 <= j < self.nodes().len() ==> (#[trigger] self.nodes()[j]).symbol_name@ != name@,
            },
    {
        let n = graph_node_count(&self.graph);
        let mut i: usize = 0;
        while i < n
            invariant
                self.wf(),
                n == self.nodes().len(),
                i <= n,
                forall|j: int| 0 <= j < i ==> (#[trigger] self.nodes()[j]).symbol_name@ != name@,
            decreases n - i,
        {
            if graph_node(&self.graph, i).symbol_name == *name {
                return Some(i);
            }
            i += 1;
        }
        None
    }

    /// An empty graph.
    pub fn new() -> (eg: Self)
        ensures
            eg.nodes() == Seq::<WcfgNode>::empty(),
            eg.edges() == Seq::<(usize, usize, WcfgEdge)>::empty(),
            eg.address_map@ == Map::<u64, usize>::empty(),
            eg.wf(),
    {
        ExecutionGraph { graph: graph_new(), address_map: HashMap::new() }
    }
}

} // verus!
