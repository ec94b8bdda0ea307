//! Detection of recursion cycles: strongly connected components that contain a call cycle.
use crate::types::{
    ExecutionGraph, component_views, graph_node, graph_outgoing, graph_tarjan_scc, has_edge, is_scc_partition,
    is_walk, lemma_outgoing_has_edge, lists_node, reaches, strongly_connected, tarjan_scc_order,
};
use crate::sdt::abstract_interpreter::{
    closes_cycle, is_call_path, is_simple_call_path, law_unbounded_iff_recursion_reachable, reaches_recursion,
    wcsd_search,
};
use vstd::prelude::*;

verus! {

/// Information about a detected recursion cycle.
#[derive(Debug)]
pub struct CycleInfo {
    /// Physical addresses participating in the cycle.
    pub participating_addresses: Vec<u64>,
    /// Symbol names participating in the cycle.
    pub symbols: Vec<String>,
}

pub struct CycleDetector;

/// A component is recursive when it has several functions, or one function that calls itself.
pub open spec fn is_recursive_component(eg: ExecutionGraph, c: Seq<usize>) -> bool {
    ||| c.len() > 1
    ||| c.len() == 1 && has_edge(eg.edges(), c[0], c[0])
}

/// The recursive components among `comps`, in their order.
pub open spec fn recursive_components(eg: ExecutionGraph, comps: Seq<Seq<usize>>) -> Seq<Seq<usize>>
    decreases comps.len(),
{
    if comps.len() == 0 {
        Seq::empty()
    } else {
        let rest = recursive_components(eg, comps.drop_last());
        if is_recursive_component(eg, comps.last()) {
            rest.push(comps.last())
        } else {
            rest
        }
    }
}

/// The recursive components of the graph, in the order petgraph's Tarjan search lists them.
pub open spec fn cycle_components(eg: ExecutionGraph) -> Seq<Seq<usize>> {
    recursive_components(eg, tarjan_scc_order(eg.nodes().len(), eg.edges()))
}

/// The addresses of the functions of `c`.
pub open spec fn component_addresses(eg: ExecutionGraph, c: Seq<usize>) -> Seq<u64> {
    c.map_values(|i: usize| eg.nodes()[i as int].physical_address)
}

/// The symbol names of the functions of `c`.
pub open spec fn component_symbols(eg: ExecutionGraph, c: Seq<usize>) -> Seq<String> {
    c.map_values(|i: usize| eg.nodes()[i as int].symbol_name)
}

/// The k-th address and the k-th name of a component belong to its k-th member: each reported
/// function is named by its own symbol.
pub proof fn law_component_members(eg: ExecutionGraph, c: Seq<usize>)
    ensures
        component_addresses(eg, c).len() == c.len(),
        component_symbols(eg, c).len() == c.len(),
        forall|k: int|
            0 <= k < c.len() ==> (#[trigger] component_addresses(eg, c)[k]) == eg.nodes()[c[k] as int].physical_address
                && component_symbols(eg, c)[k] == eg.nodes()[c[k] as int].symbol_name,
{
}

/// Function `v` lies on a call cycle: following one or more calls from `v` leads back to `v`.
pub open spec fn on_cycle(eg: ExecutionGraph, v: usize) -> bool {
    exists|p: Seq<usize>| #[trigger] is_walk(eg.edges(), p) && p.len() >= 2 && p[0] == v && p.last() == v
}

/// A node is listed by the recursive components exactly when it lies in a recursive component.
proof fn lemma_recursive_components_list(eg: ExecutionGraph, comps: Seq<Seq<usize>>, v: usize)
    ensures
        lists_node(recursive_components(eg, comps), v) <==> exists|i: int|
            0 <= i < comps.len() && is_recursive_component(eg, #[trigger] comps[i]) && comps[i].contains(v),
    decreases comps.len(),
{
    if comps.len() > 0 {
        let rest = comps.drop_last();
        let rr = recursive_components(eg, rest);
        let r = recursive_components(eg, comps);
        lemma_recursive_components_list(eg, rest, v);
        if lists_node(r, v) {
            let (i, j) = choose|i: int, j: int| 0 <= i < r.len() && 0 <= j < r[i].len() && #[trigger] r[i][j] == v;
            if i < rr.len() {
                assert(r[i] == rr[i]);
                assert(lists_node(rr, v));
                let i2 = choose|i2: int| 0 <= i2 < rest.len() && is_recursive_component(eg, #[trigger] rest[i2]) && rest[i2].contains(v);
                assert(comps[i2] == rest[i2]);
            } else {
                assert(r[i] == comps.last());
                assert(comps[comps.len() - 1].contains(v));
            }
        }
        if exists|i: int| 0 <= i < comps.len() && is_recursive_component(eg, #[trigger] comps[i]) && comps[i].contains(v) {
            let i = choose|i: int| 0 <= i < comps.len() && is_recursive_component(eg, #[trigger] comps[i]) && comps[i].contains(v);
            let j = choose|j: int| 0 <= j < comps[i].len() && comps[i][j] == v;
            if i < rest.len() {
                assert(rest[i] == comps[i]);
                assert(lists_node(rr, v));
                let (i3, j3) = choose|i3: int, j3: int| 0 <= i3 < rr.len() && 0 <= j3 < rr[i3].len() && #[trigger] rr[i3][j3] == v;
                assert(r[i3] == rr[i3]);
            } else {
                assert(r[rr.len() as int] == comps[i]);
            }
        }
    }
}

/// One step of a walk.
proof fn lemma_walk_step(eg: ExecutionGraph, p: Seq<usize>, k: int)
    requires
        is_walk(eg.edges(), p),
        0 <= k < p.len() - 1,
    ensures
        has_edge(eg.edges(), p[k], p[k + 1]),
{
}

/// Two walks that meet make one walk.
proof fn lemma_walk_concat(eg: ExecutionGraph, p: Seq<usize>, q: Seq<usize>)
    requires
        is_walk(eg.edges(), p),
        is_walk(eg.edges(), q),
        p.len() > 0,
        q.len() > 0,
        p.last() == q[0],
    ensures
        is_walk(eg.edges(), p + q.drop_first()),
        (p + q.drop_first()).len() == p.len() + q.len() - 1,
        (p + q.drop_first())[0] == p[0],
        (p + q.drop_first()).last() == q.last(),
{
    let w = p + q.drop_first();
    assert forall|k: int| 0 <= k < w.len() - 1 implies #[trigger] has_edge(eg.edges(), w[k], w[k + 1]) by {
        if k < p.len() - 1 {
            assert(w[k] == p[k] && w[k + 1] == p[k + 1]);
        } else {
            let m = k - (p.len() - 1);
            assert(w[k] == q[m] && w[k + 1] == q[m + 1]);
        }
    }
}

/// In any listing of the strongly connected components, the functions in recursive components are
/// exactly the functions that lie on a call cycle.
pub proof fn law_recursive_components_are_cycles(eg: ExecutionGraph, comps: Seq<Seq<usize>>, v: usize)
    requires
        eg.wf(),
        is_scc_partition(eg.nodes().len(), eg.edges(), comps),
        v < eg.nodes().len(),
    ensures
        lists_node(recursive_components(eg, comps), v) <==> on_cycle(eg, v),
{
    let edges = eg.edges();
    lemma_recursive_components_list(eg, comps, v);
    assert(lists_node(comps, v));
    let (i, j) = choose|i: int, j: int| 0 <= i < comps.len() && 0 <= j < comps[i].len() && #[trigger] comps[i][j] == v;
    let c = comps[i];
    if on_cycle(eg, v) {
        let p = choose|p: Seq<usize>| #[trigger] is_walk(edges, p) && p.len() >= 2 && p[0] == v && p.last() == v;
        let w = p[1];
        lemma_walk_step(eg, p, 0);
        if w == v {
            if c.len() == 1 {
                assert(c[0] == v);
            }
        } else {
            let q = seq![v, w];
            assert(is_walk(edges, q)) by {
                assert forall|k: int| 0 <= k < q.len() - 1 implies #[trigger] has_edge(edges, q[k], q[k + 1]) by {
                    assert(k == 0);
                }
            }
            assert(reaches(edges, v, w));
            let r = p.drop_first();
            assert(is_walk(edges, r)) by {
                assert forall|k: int| 0 <= k < r.len() - 1 implies #[trigger] has_edge(edges, r[k], r[k + 1]) by {
                    assert(r[k] == p[k + 1] && r[k + 1] == p[k + 2]);
                    lemma_walk_step(eg, p, k + 1);
                }
            }
            assert(reaches(edges, w, v));
            assert(w < eg.nodes().len()) by {
                let k = choose|k: int| 0 <= k < edges.len() && (#[trigger] edges[k]).0 == p[0] && edges[k].1 == p[1];
            }
            assert(lists_node(comps, w));
            let (i2, j2) = choose|i2: int, j2: int| 0 <= i2 < comps.len() && 0 <= j2 < comps[i2].len() && #[trigger] comps[i2][j2] == w;
            assert(strongly_connected(edges, comps[i][j], comps[i2][j2]));
            assert(i2 == i);
            assert(j2 != j);
            assert(c.contains(v));
        }
        assert(c.contains(v));
        assert(is_recursive_component(eg, comps[i]));
    }
    if lists_node(recursive_components(eg, comps), v) {
        let i1 = choose|i1: int| 0 <= i1 < comps.len() && is_recursive_component(eg, #[trigger] comps[i1]) && comps[i1].contains(v);
        let j1 = choose|j1: int| 0 <= j1 < comps[i1].len() && comps[i1][j1] == v;
        assert(i1 == i && j1 == j);
        if c.len() > 1 {
            let j2 = if j == 0 { 1int } else { 0int };
            let w = c[j2];
            assert(w != v) by {
                if w == v {
                    assert(comps[i][j2] == comps[i][j]);
                }
            }
            assert(strongly_connected(edges, comps[i][j], comps[i][j2]));
            let p = choose|p: Seq<usize>| #[trigger] is_walk(edges, p) && p.len() > 0 && p[0] == v && p.last() == w;
            let q = choose|q: Seq<usize>| #[trigger] is_walk(edges, q) && q.len() > 0 && q[0] == w && q.last() == v;
            lemma_walk_concat(eg, p, q);
            assert(p.len() >= 2);
            assert(is_walk(edges, p + q.drop_first()));
        } else {
            let q = seq![v, v];
            assert(c[0] == v);
            assert(is_walk(edges, q)) by {
                assert forall|k: int| 0 <= k < q.len() - 1 implies #[trigger] has_edge(edges, q[k], q[k + 1]) by {
                    assert(k == 0);
                }
            }
        }
    }
}

/// A function on a call cycle can be reached from `entry`.
pub open spec fn reaches_call_cycle(eg: ExecutionGraph, entry: usize) -> bool {
    exists|v: usize| #[trigger] on_cycle(eg, v) && reaches(eg.edges(), entry, v)
}

/// A call path is a walk along the edges.
proof fn lemma_call_path_is_walk(eg: ExecutionGraph, p: Seq<usize>)
    requires
        is_call_path(eg, p),
    ensures
        is_walk(eg.edges(), p),
{
    assert forall|k: int| 0 <= k < p.len() - 1 implies #[trigger] has_edge(eg.edges(), p[k], p[k + 1]) by {
        assert(eg.succ(p[k]).contains(p[k + 1]));
        lemma_outgoing_has_edge(eg.edges(), p[k], p[k + 1]);
    }
}

/// A walk from a node of a well-formed graph is a call path.
proof fn lemma_walk_is_call_path(eg: ExecutionGraph, p: Seq<usize>)
    requires
        eg.wf(),
        is_walk(eg.edges(), p),
        p.len() > 0,
        p[0] < eg.nodes().len(),
    ensures
        is_call_path(eg, p),
{
    assert forall|k: int| 0 <= k < p.len() - 1 implies #[trigger] eg.succ(p[k]).contains(p[k + 1]) by {
        lemma_walk_step(eg, p, k);
        lemma_outgoing_has_edge(eg.edges(), p[k], p[k + 1]);
    }
    assert forall|k: int| 0 <= k < p.len() implies (#[trigger] p[k]) < eg.nodes().len() by {
        if k > 0 {
            lemma_walk_step(eg, p, k - 1);
            let e = choose|e: int| 0 <= e < eg.edges().len() && (#[trigger] eg.edges()[e]).0 == p[k - 1] && eg.edges()[e].1 == p[k];
        }
    }
}

/// A prefix of a walk is a walk.
proof fn lemma_walk_prefix(eg: ExecutionGraph, p: Seq<usize>, n: int)
    requires
        is_walk(eg.edges(), p),
        0 <= n <= p.len(),
    ensures
        is_walk(eg.edges(), p.take(n)),
{
    let q = p.take(n);
    assert forall|k: int| 0 <= k < q.len() - 1 implies #[trigger] has_edge(eg.edges(), q[k], q[k + 1]) by {
        lemma_walk_step(eg, p, k);
    }
}

/// A sequence with a repeated entry has a first repeat: a prefix without repeats whose next
/// entry already occurs in it.
proof fn lemma_first_repeat(w: Seq<usize>)
    requires
        !w.no_duplicates(),
    ensures
        exists|j: int| 0 < j < w.len() && w.take(j).no_duplicates() && #[trigger] w.take(j).contains(w[j]),
    decreases w.len(),
{
    let d = w.drop_last();
    if !d.no_duplicates() {
        lemma_first_repeat(d);
        let j = choose|j: int| 0 < j < d.len() && d.take(j).no_duplicates() && #[trigger] d.take(j).contains(d[j]);
        assert(d.take(j) =~= w.take(j));
        assert(w.take(j).contains(w[j]));
    } else {
        let (a, b) = choose|a: int, b: int| 0 <= a < w.len() && 0 <= b < w.len() && a != b && w[a] == w[b];
        let j = w.len() - 1;
        assert(d =~= w.take(j));
        if a < j && b < j {
            assert(d[a] == d[b]);
        }
        let i = if a < j { a } else { b };
        assert(w.take(j)[i] == w[j]);
        assert(w.take(j).contains(w[j]));
    }
}

/// The stack depth search reports unbounded growth exactly when a function on a call cycle can be
/// reached from the entry.
pub proof fn law_unbounded_iff_cycle_reachable(eg: ExecutionGraph, entry: usize)
    requires
        eg.wf(),
        entry < eg.nodes().len(),
    ensures
        wcsd_search(eg, entry).1 <==> reaches_call_cycle(eg, entry),
{
    let edges = eg.edges();
    law_unbounded_iff_recursion_reachable(eg, entry);
    if reaches_recursion(eg, entry) {
        let p = choose|p: Seq<usize>| #[trigger] is_simple_call_path(eg, entry, p) && closes_cycle(eg, p);
        let i = choose|i: int| 0 <= i < p.len() && #[trigger] eg.succ(p.last()).contains(p[i]);
        let v = p[i];
        lemma_call_path_is_walk(eg, p);
        let c = p.subrange(i, p.len() as int).push(v);
        assert(is_walk(edges, c)) by {
            lemma_outgoing_has_edge(edges, p.last(), v);
            assert forall|k: int| 0 <= k < c.len() - 1 implies #[trigger] has_edge(edges, c[k], c[k + 1]) by {
                if k < c.len() - 2 {
                    assert(c[k] == p[i + k] && c[k + 1] == p[i + k + 1]);
                    lemma_walk_step(eg, p, i + k);
                } else {
                    assert(c[k] == p.last());
                }
            }
        }
        assert(on_cycle(eg, v));
        lemma_walk_prefix(eg, p, i + 1);
        assert(p.take(i + 1).last() == v);
        assert(reaches(edges, entry, v));
    }
    if reaches_call_cycle(eg, entry) {
        let v = choose|v: usize| #[trigger] on_cycle(eg, v) && reaches(edges, entry, v);
        let c = choose|c: Seq<usize>| #[trigger] is_walk(edges, c) && c.len() >= 2 && c[0] == v && c.last() == v;
        let r = choose|r: Seq<usize>| #[trigger] is_walk(edges, r) && r.len() > 0 && r[0] == entry && r.last() == v;
        lemma_walk_concat(eg, r, c);
        let w = r + c.drop_first();
        assert(w[r.len() - 1] == v && w[w.len() - 1] == v);
        assert(!w.no_duplicates());
        lemma_first_repeat(w);
        let j = choose|j: int| 0 < j < w.len() && w.take(j).no_duplicates() && #[trigger] w.take(j).contains(w[j]);
        let q = w.take(j);
        lemma_walk_prefix(eg, w, j);
        lemma_walk_is_call_path(eg, q);
        assert(is_simple_call_path(eg, entry, q));
        let i = choose|i: int| 0 <= i < q.len() && q[i] == w[j];
        lemma_walk_step(eg, w, j - 1);
        lemma_outgoing_has_edge(edges, w[j - 1], w[j]);
        assert(q.last() == w[j - 1]);
        assert(eg.succ(q.last()).contains(q[i]));
        assert(closes_cycle(eg, q));
    }
}

/// The stack depth search from `entry` reports unbounded growth exactly when a recursive component
/// of the strongly connected components holds a function reachable from `entry`.
pub proof fn law_unbounded_iff_reported_cycle_reachable(eg: ExecutionGraph, entry: usize, comps: Seq<Seq<usize>>)
    requires
        eg.wf(),
        entry < eg.nodes().len(),
        is_scc_partition(eg.nodes().len(), eg.edges(), comps),
    ensures
        wcsd_search(eg, entry).1 <==> exists|v: usize|
            v < eg.nodes().len() && reaches(eg.edges(), entry, v) && #[trigger] lists_node(
                recursive_components(eg, comps),
                v,
            ),
{
    law_unbounded_iff_cycle_reachable(eg, entry);
    if reaches_call_cycle(eg, entry) {
        let v = choose|v: usize| #[trigger] on_cycle(eg, v) && reaches(eg.edges(), entry, v);
        let c = choose|c: Seq<usize>| #[trigger] is_walk(eg.edges(), c) && c.len() >= 2 && c[0] == v && c.last() == v;
        lemma_walk_step(eg, c, 0);
        let k = choose|k: int| 0 <= k < eg.edges().len() && (#[trigger] eg.edges()[k]).0 == c[0] && eg.edges()[k].1 == c[1];
        law_recursive_components_are_cycles(eg, comps, v);
        assert(lists_node(recursive_components(eg, comps), v));
    }
    if exists|v: usize|
        v < eg.nodes().len() && reaches(eg.edges(), entry, v) && #[trigger] lists_node(recursive_components(eg, comps), v) {
        let v = choose|v: usize|
            v < eg.nodes().len() && reaches(eg.edges(), entry, v) && #[trigger] lists_node(recursive_components(eg, comps), v);
        law_recursive_components_are_cycles(eg, comps, v);
        assert(on_cycle(eg, v));
    }
}

impl CycleDetector {
    /// Whether function `node` calls itself.
    fn calls_itself(eg: &ExecutionGraph, node: usize) -> (r: bool)
        requires
            eg.wf(),
            node < eg.nodes().len(),
        ensures
            r == has_edge(eg.edges(), node, node),
    {
        let targets = graph_outgoing(&eg.graph, node);
        proof {
            lemma_outgoing_has_edge(eg.edges(), node, node);
        }
        let mut k: usize = 0;
        while k < targets.len()
            invariant
                k <= targets.len(),
                forall|j: int| 0 <= j < k ==> targets@[j] != node,
                targets@.contains(node) <==> has_edge(eg.edges(), node, node),
            decreases targets.len() - k,
        {
            if targets[k] == node {
                proof {
                    assert(targets@.contains(node));
                }
                return true;
            }
            k += 1;
        }
        false
    }

    /// Detect recursion cycles in the execution graph.
    pub fn detect_cycles(eg: &ExecutionGraph) -> (found_cycles: Vec<CycleInfo>)
        requires
            eg.wf(),
        ensures
            found_cycles.len() == cycle_components(*eg).len(),
            forall|i: int|
                0 <= i < found_cycles.len() ==> (#[trigger] found_cycles[i]).participating_addresses@
                    == component_addresses(*eg, cycle_components(*eg)[i]) && found_cycles[i].symbols@
                    == component_symbols(*eg, cycle_components(*eg)[i]),
            forall|v: usize|
                v < eg.nodes().len() ==> (lists_node(cycle_components(*eg), v) <==> #[trigger] on_cycle(*eg, v)),
            is_scc_partition(eg.nodes().len(), eg.edges(), tarjan_scc_order(eg.nodes().len(), eg.edges())),
            forall|i: int, k: int|
                0 <= i < found_cycles.len() && 0 <= k < cycle_components(*eg)[i].len() ==> {
                    &&& found_cycles[i].participating_addresses@.len() == cycle_components(*eg)[i].len()
                    &&& found_cycles[i].symbols@.len() == cycle_components(*eg)[i].len()
                    &&& #[trigger] found_cycles[i].symbols@[k] == eg.nodes()[cycle_components(*eg)[i][k] as int].symbol_name
                    &&& found_cycles[i].participating_addresses@[k] == eg.nodes()[cycle_components(
                        *eg,
                    )[i][k] as int].physical_address
                },
            found_cycles.len() == 0 ==> forall|entry: usize|
                entry < eg.nodes().len() ==> !(#[trigger] wcsd_search(*eg, entry)).1,
    {
        let mut found_cycles: Vec<CycleInfo> = Vec::new();
        // Strongly Connected Components
        let sccs = graph_tarjan_scc(&eg.graph);
        let ghost comps = component_views(sccs@);
        let ghost n = eg.nodes().len();
        proof {
            assert forall|v: usize| v < n implies (lists_node(cycle_components(*eg), v) <==> #[trigger] on_cycle(*eg, v)) by {
                law_recursive_components_are_cycles(*eg, comps, v);
            }
        }
        let mut i: usize = 0;
        while i < sccs.len()
            invariant
                eg.wf(),
                n == eg.nodes().len(),
                i <= sccs.len(),
                comps == component_views(sccs@),
                is_scc_partition(n, eg.edges(), comps),
                ({
                    let rc = recursive_components(*eg, comps.take(i as int));
                    &&& found_cycles.len() == rc.len()
                    &&& forall|m: int|
                        0 <= m < found_cycles.len() ==> (#[trigger] found_cycles[m]).participating_addresses@
                            == component_addresses(*eg, rc[m]) && found_cycles[m].symbols@ == component_symbols(
                            *eg,
                            rc[m],
                        )
                }),
            decreases sccs.len() - i,
        {
            let scc = &sccs[i];
            let ghost c = comps[i as int];
            assert(scc@ == c);
            assert(comps.take(i + 1).drop_last() =~= comps.take(i as int));
            assert(comps.take(i + 1).last() == c);
            let is_multi_node = scc.len() > 1;
            // Detect self-recursion
            let is_self_loop = if scc.len() == 1 {
                let node_idx = scc[0];
                proof {
                    assert(comps[i as int][0] < n);
                }
                Self::calls_itself(eg, node_idx)
            } else {
                false
            };
            if is_multi_node || is_self_loop {
                let mut addresses: Vec<u64> = Vec::new();
                let mut symbols: Vec<String> = Vec::new();
                let mut j: usize = 0;
                while j < scc.len()
                    invariant
                        eg.wf(),
                        n == eg.nodes().len(),
                        j <= scc.len(),
                        scc@ == c,
                        forall|k: int| 0 <= k < c.len() ==> #[trigger] c[k] < n,
                        addresses@ == component_addresses(*eg, c.take(j as int)),
                        symbols@ == component_symbols(*eg, c.take(j as int)),
                    decreases scc.len() - j,
                {
                    let node = graph_node(&eg.graph, scc[j]);
                    addresses.push(node.physical_address);
                    symbols.push(node.symbol_name.clone());
                    proof {
                        assert(c.take(j + 1) =~= c.take(j as int).push(c[j as int]));
                        assert(component_addresses(*eg, c.take(j + 1)) =~= component_addresses(*eg, c.take(j as int)).push(
                            eg.nodes()[c[j as int] as int].physical_address,
                        ));
                        assert(component_symbols(*eg, c.take(j + 1)) =~= component_symbols(*eg, c.take(j as int)).push(
                            eg.nodes()[c[j as int] as int].symbol_name,
                        ));
                    }
                    j += 1;
                }
                proof {
                    assert(c.take(j as int) =~= c);
                }
                found_cycles.push(CycleInfo { participating_addresses: addresses, symbols });
            }
            i += 1;
        }
        proof {
            assert(comps.take(i as int) =~= comps);
            assert(comps == tarjan_scc_order(n, eg.edges()));
            if found_cycles.len() == 0 {
                assert forall|entry: usize| entry < n implies !(#[trigger] wcsd_search(*eg, entry)).1 by {
                    law_unbounded_iff_reported_cycle_reachable(*eg, entry, comps);
                    assert forall|v: usize| !lists_node(recursive_components(*eg, comps), v) by {
                        if lists_node(recursive_components(*eg, comps), v) {
                            let (a, b) = choose|a: int, b: int|
                                0 <= a < recursive_components(*eg, comps).len() && 0 <= b
                                    < recursive_components(*eg, comps)[a].len() && #[trigger] recursive_components(
                                    *eg,
                                    comps,
                                )[a][b] == v;
                        }
                    }
                }
            }
        }
        found_cycles
    }
}

} // verus!
