//! A rule graph: nodes, and edges between their ports.

use vstd::prelude::*;
use crate::nodes::{Node, NodeId};

verus! {

/// A connection from an output port of one node to an input port of another.
#[derive(Debug, Clone, Copy, PartialEq, Eq, Structural)]
pub struct Edge {
    pub from_node: NodeId,
    pub from_port: u8,
    pub to_node: NodeId,
    pub to_port: u8,
}

/// Errors of graph edits and graph ordering.
#[derive(Debug, Clone, Copy, PartialEq, Eq, Structural)]
pub enum GraphError {
    NodeNotFound(NodeId),
    CycleDetected,
    PortNotFound,
}

/// A complete security rule graph.
#[derive(Debug)]
pub struct Graph {
    /// Name of this rule set.
    pub name: String,
    pub description: String,
    pub nodes: Vec<Node>,
    pub edges: Vec<Edge>,
    /// The id the next added node receives; it only grows.
    pub next_id: NodeId,
}

/// Some node of `nodes` has id `id`.
pub open spec fn has_node(nodes: Seq<Node>, id: NodeId) -> bool {
    exists|i: int| 0 <= i < nodes.len() && (#[trigger] nodes[i]).id == id
}

/// Index of the first node of `nodes` with id `id`.
pub open spec fn node_index(nodes: Seq<Node>, id: NodeId) -> Option<int>
    decreases nodes.len(),
{
    if nodes.len() == 0 {
        None
    } else if nodes[0].id == id {
        Some(0)
    } else {
        match node_index(nodes.drop_first(), id) {
            Some(i) => Some(i + 1),
            None => None,
        }
    }
}

/// The nodes of `nodes` whose id is not `id`, in order.
pub open spec fn without_node(nodes: Seq<Node>, id: NodeId) -> Seq<Node>
    decreases nodes.len(),
{
    if nodes.len() == 0 {
        nodes
    } else {
        let rest = without_node(nodes.drop_last(), id);
        if nodes.last().id == id { rest } else { rest.push(nodes.last()) }
    }
}

/// The edges of `edges` for which `keep` holds, in order.
pub open spec fn edges_where(edges: Seq<Edge>, keep: spec_fn(Edge) -> bool) -> Seq<Edge>
    decreases edges.len(),
{
    if edges.len() == 0 {
        edges
    } else {
        let rest = edges_where(edges.drop_last(), keep);
        if keep(edges.last()) { rest.push(edges.last()) } else { rest }
    }
}

/// Edges that end at node `id`, in order.
pub open spec fn edges_into(edges: Seq<Edge>, id: NodeId) -> Seq<Edge> {
    edges_where(edges, |e: Edge| e.to_node == id)
}

/// Edges that start at node `id`, in order.
pub open spec fn edges_out_of(edges: Seq<Edge>, id: NodeId) -> Seq<Edge> {
    edges_where(edges, |e: Edge| e.from_node == id)
}

/// Edges that do not end at input port `port` of node `id`, in order.
pub open spec fn edges_not_into_port(edges: Seq<Edge>, id: NodeId, port: u8) -> Seq<Edge> {
    edges_where(edges, |e: Edge| !(e.to_node == id && e.to_port == port))
}

/// Edges that touch neither end of them node `id`, in order.
pub open spec fn edges_avoiding(edges: Seq<Edge>, id: NodeId) -> Seq<Edge> {
    edges_where(edges, |e: Edge| e.from_node != id && e.to_node != id)
}

/// `s` together with every node that an edge leads to from a node in `s`.
pub open spec fn step(edges: Seq<Edge>, s: Set<NodeId>) -> Set<NodeId> {
    s.union(Set::new(|b: NodeId| exists|j: int| 0 <= j < edges.len() && s.contains(#[trigger] edges[j].from_node) && edges[j].to_node == b))
}

/// Nodes reachable from `start` along at most `k` edges.
pub open spec fn reach(edges: Seq<Edge>, start: NodeId, k: nat) -> Set<NodeId>
    decreases k,
{
    if k == 0 {
        set![start]
    } else {
        step(edges, reach(edges, start, (k - 1) as nat))
    }
}

/// Every node is reachable from itself.
pub proof fn lemma_reach_contains_start(edges: Seq<Edge>, start: NodeId, k: nat)
    ensures
        reach(edges, start, k).contains(start),
    decreases k,
{
    if k > 0 {
        lemma_reach_contains_start(edges, start, (k - 1) as nat);
    }
}

/// A new edge from `from` to `to` closes a cycle: `from` is `to` itself, or
/// can be reached from `to` along at most as many edges as the graph holds,
/// which a path that visits no node twice never exceeds.
pub open spec fn closes_cycle(edges: Seq<Edge>, from: NodeId, to: NodeId) -> bool {
    reach(edges, to, edges.len()).contains(from)
}


/// Depth-first placement of `id` after every node it depends on (the sources
/// of its incoming edges, in edge order). `path` holds the ids being placed
/// further up, `done` the ids placed so far. `None` means a cycle was met, or
/// the nesting went deeper than `fuel`.
pub open spec fn visit(edges: Seq<Edge>, id: NodeId, path: Seq<NodeId>, done: Seq<NodeId>, fuel: nat) -> Option<Seq<NodeId>>
    decreases fuel, 0nat,
{
    if path.contains(id) {
        None
    } else if done.contains(id) {
        Some(done)
    } else if fuel == 0 {
        None
    } else {
        match visit_sources(edges, edges_into(edges, id), path.push(id), done, (fuel - 1) as nat) {
            Some(d) => Some(d.push(id)),
            None => None,
        }
    }
}

/// [`visit`] of the source of each edge of `ins`, in order.
pub open spec fn visit_sources(edges: Seq<Edge>, ins: Seq<Edge>, path: Seq<NodeId>, done: Seq<NodeId>, fuel: nat) -> Option<Seq<NodeId>>
    decreases fuel, ins.len() + 1,
{
    if ins.len() == 0 {
        Some(done)
    } else {
        match visit(edges, ins[0].from_node, path, done, fuel) {
            Some(d) => visit_sources(edges, ins.drop_first(), path, d, fuel),
            None => None,
        }
    }
}

/// [`visit`] of each node of `nodes` in order, from an empty path.
pub open spec fn visit_nodes(edges: Seq<Edge>, nodes: Seq<Node>, done: Seq<NodeId>, fuel: nat) -> Option<Seq<NodeId>>
    decreases nodes.len(),
{
    if nodes.len() == 0 {
        Some(done)
    } else {
        match visit(edges, nodes[0].id, seq![], done, fuel) {
            Some(d) => visit_nodes(edges, nodes.drop_first(), d, fuel),
            None => None,
        }
    }
}

/// Nesting bound of the ordering: one more than the number of edges, which
/// every acyclic graph stays within (`lemma_acyclic_has_order`).
pub open spec fn order_fuel(edges: Seq<Edge>) -> nat {
    if edges.len() < usize::MAX { edges.len() + 1 } else { edges.len() }
}

/// The execution order of a graph: every node after the nodes it depends on.
pub open spec fn topo_order(g: Graph) -> Option<Seq<NodeId>> {
    visit_nodes(g.edges@, g.nodes@, seq![], order_fuel(g.edges@))
}

/// Every edge into an id of `done` comes from an id placed before it.
pub open spec fn sources_first(edges: Seq<Edge>, done: Seq<NodeId>) -> bool {
    forall|i: int, j: int| 0 <= i < done.len() && 0 <= j < edges.len() && #[trigger] edges[j].to_node == #[trigger] done[i]
        ==> exists|k: int| 0 <= k < i && done[k] == edges[j].from_node
}

proof fn lemma_edges_where_complete(edges: Seq<Edge>, keep: spec_fn(Edge) -> bool, j: int)
    requires
        0 <= j < edges.len(),
        keep(edges[j]),
    ensures
        edges_where(edges, keep).contains(edges[j]),
    decreases edges.len(),
{
    if j < edges.len() - 1 {
        lemma_edges_where_complete(edges.drop_last(), keep, j);
        let rest = edges_where(edges.drop_last(), keep);
        let k = choose|k: int| 0 <= k < rest.len() && rest[k] == edges[j];
        if keep(edges.last()) {
            assert(edges_where(edges, keep)[k] == rest[k]);
        }
    } else {
        let w = edges_where(edges, keep);
        assert(w[w.len() - 1] == edges[j]);
    }
}

proof fn lemma_prefix_keeps(done: Seq<NodeId>, d: Seq<NodeId>, x: NodeId)
    requires
        done.len() <= d.len(),
        d.subrange(0, done.len() as int) == done,
        done.contains(x),
    ensures
        d.contains(x),
{
    let k = choose|k: int| 0 <= k < done.len() && done[k] == x;
    assert(d[k] == d.subrange(0, done.len() as int)[k]);
}

/// No id occurs twice.
pub open spec fn distinct(s: Seq<NodeId>) -> bool {
    forall|i: int, j: int| 0 <= i < j < s.len() ==> s[i] != s[j]
}

proof fn lemma_visit_sound(edges: Seq<Edge>, id: NodeId, path: Seq<NodeId>, done: Seq<NodeId>, fuel: nat)
    requires
        sources_first(edges, done),
        visit(edges, id, path, done, fuel) is Some,
    ensures
        ({
            let d = visit(edges, id, path, done, fuel)->0;
            &&& sources_first(edges, d)
            &&& done.len() <= d.len() && d.subrange(0, done.len() as int) == done
            &&& d.contains(id)
            &&& distinct(done) ==> distinct(d)
            &&& forall|x: NodeId| d.contains(x) && !done.contains(x) ==> !path.contains(x)
        }),
    decreases fuel, 0nat,
{
    if done.contains(id) {
        assert(done.subrange(0, done.len() as int) =~= done);
    } else {
        let ins = edges_into(edges, id);
        lemma_sources_sound(edges, ins, path.push(id), done, (fuel - 1) as nat);
        let d = visit_sources(edges, ins, path.push(id), done, (fuel - 1) as nat)->0;
        let out = d.push(id);
        assert(out[d.len() as int] == id);
        assert(path.push(id).contains(id)) by {
            assert(path.push(id)[path.len() as int] == id);
        }
        assert(!d.contains(id));
        if distinct(done) {
            assert forall|a: int, b: int| 0 <= a < b < out.len() implies out[a] != out[b] by {
                if b == d.len() {
                    assert(out[a] == d[a]);
                    assert(d.contains(d[a]));
                } else {
                    assert(out[a] == d[a] && out[b] == d[b]);
                }
            }
        }
        assert forall|x: NodeId| out.contains(x) && !done.contains(x) implies !path.contains(x) by {
            let k = choose|k: int| 0 <= k < out.len() && out[k] == x;
            if k < d.len() {
                assert(d[k] == x);
                assert(d.contains(x));
                if path.contains(x) {
                    let q = choose|q: int| 0 <= q < path.len() && path[q] == x;
                    assert(path.push(id)[q] == x);
                }
            }
        }
        assert(out.subrange(0, done.len() as int) =~= d.subrange(0, done.len() as int));
        assert forall|i: int, j: int| 0 <= i < out.len() && 0 <= j < edges.len() && #[trigger] edges[j].to_node == #[trigger] out[i]
            implies exists|k: int| 0 <= k < i && out[k] == edges[j].from_node by {
            if i < d.len() {
                assert(out[i] == d[i]);
                let k = choose|k: int| 0 <= k < i && d[k] == edges[j].from_node;
                assert(out[k] == d[k]);
            } else {
                lemma_edges_where_complete(edges, |e: Edge| e.to_node == id, j);
                assert(ins.contains(edges[j]));
                let k = choose|k: int| 0 <= k < d.len() && d[k] == edges[j].from_node;
                assert(out[k] == d[k]);
            }
        }
    }
}

proof fn lemma_sources_sound(edges: Seq<Edge>, ins: Seq<Edge>, path: Seq<NodeId>, done: Seq<NodeId>, fuel: nat)
    requires
        sources_first(edges, done),
        visit_sources(edges, ins, path, done, fuel) is Some,
    ensures
        ({
            let d = visit_sources(edges, ins, path, done, fuel)->0;
            &&& sources_first(edges, d)
            &&& done.len() <= d.len() && d.subrange(0, done.len() as int) == done
            &&& forall|m: int| 0 <= m < ins.len() ==> d.contains(#[trigger] ins[m].from_node)
            &&& distinct(done) ==> distinct(d)
            &&& forall|x: NodeId| d.contains(x) && !done.contains(x) ==> !path.contains(x)
        }),
    decreases fuel, ins.len() + 1,
{
    if ins.len() == 0 {
        assert(done.subrange(0, done.len() as int) =~= done);
    } else {
        lemma_visit_sound(edges, ins[0].from_node, path, done, fuel);
        let d1 = visit(edges, ins[0].from_node, path, done, fuel)->0;
        lemma_sources_sound(edges, ins.drop_first(), path, d1, fuel);
        let d = visit_sources(edges, ins.drop_first(), path, d1, fuel)->0;
        assert(d.subrange(0, done.len() as int) =~= d.subrange(0, d1.len() as int).subrange(0, done.len() as int));
        lemma_prefix_keeps(d1, d, ins[0].from_node);
        assert forall|m: int| 0 <= m < ins.len() implies d.contains(#[trigger] ins[m].from_node) by {
            if m > 0 {
                assert(ins[m] == ins.drop_first()[m - 1]);
            }
        }
        assert forall|x: NodeId| d.contains(x) && !done.contains(x) implies !path.contains(x) by {
            if d1.contains(x) {
            } else {
            }
        }
    }
}

proof fn lemma_visit_nodes_sound(edges: Seq<Edge>, nodes: Seq<Node>, done: Seq<NodeId>, fuel: nat)
    requires
        sources_first(edges, done),
        visit_nodes(edges, nodes, done, fuel) is Some,
    ensures
        sources_first(edges, visit_nodes(edges, nodes, done, fuel)->0),
        distinct(done) ==> distinct(visit_nodes(edges, nodes, done, fuel)->0),
        forall|x: NodeId| done.contains(x) ==> visit_nodes(edges, nodes, done, fuel)->0.contains(x),
        forall|m: int| 0 <= m < nodes.len() ==> visit_nodes(edges, nodes, done, fuel)->0.contains(#[trigger] nodes[m].id),
    decreases nodes.len(),
{
    if nodes.len() > 0 {
        lemma_visit_sound(edges, nodes[0].id, seq![], done, fuel);
        let d1 = visit(edges, nodes[0].id, seq![], done, fuel)->0;
        lemma_visit_nodes_sound(edges, nodes.drop_first(), d1, fuel);
        assert forall|x: NodeId| done.contains(x) implies d1.contains(x) by {
            lemma_prefix_keeps(done, d1, x);
        }
        assert forall|m: int| 0 <= m < nodes.len() implies visit_nodes(edges, nodes, done, fuel)->0.contains(#[trigger] nodes[m].id) by {
            if m > 0 {
                assert(nodes[m] == nodes.drop_first()[m - 1]);
            }
        }
    }
}

/// The execution order is topological: it holds every node of the graph
/// once, and the source of every edge into a node of the order comes before it.
pub proof fn lemma_topo_order_sound(g: Graph)
    requires
        topo_order(g) is Some,
    ensures
        distinct(topo_order(g)->0),
        forall|m: int| 0 <= m < g.nodes@.len() ==> topo_order(g)->0.contains(#[trigger] g.nodes@[m].id),
        sources_first(g.edges@, topo_order(g)->0),
{
    lemma_visit_nodes_sound(g.edges@, g.nodes@, seq![], order_fuel(g.edges@));
}

/// No edge closes a cycle: the source of each edge is out of reach of its target.
pub open spec fn acyclic(edges: Seq<Edge>) -> bool {
    forall|j: int| 0 <= j < edges.len() ==> !closes_cycle(edges, (#[trigger] edges[j]).from_node, edges[j].to_node)
}

/// Some edge starts at `x`.
pub open spec fn is_source(edges: Seq<Edge>, x: NodeId) -> bool {
    exists|j: int| 0 <= j < edges.len() && (#[trigger] edges[j]).from_node == x
}

/// Some edge leads from `a` to `b`.
pub open spec fn feeds(edges: Seq<Edge>, a: NodeId, b: NodeId) -> bool {
    exists|j: int| 0 <= j < edges.len() && (#[trigger] edges[j]).from_node == a && edges[j].to_node == b
}

/// Each id of `path` after the first feeds the one before it along an edge.
pub open spec fn feeds_back(edges: Seq<Edge>, path: Seq<NodeId>) -> bool {
    forall|m: int| 0 <= m < path.len() - 1 ==> #[trigger] feeds(edges, path[m + 1], path[m])
}

proof fn lemma_reach_grows(edges: Seq<Edge>, x: NodeId, k: nat, k2: nat)
    requires
        k <= k2,
    ensures
        reach(edges, x, k).subset_of(reach(edges, x, k2)),
    decreases k2,
{
    if k < k2 {
        lemma_reach_grows(edges, x, k, (k2 - 1) as nat);
    }
}

proof fn lemma_chain_reach(edges: Seq<Edge>, path: Seq<NodeId>, a: int, n: nat)
    requires
        feeds_back(edges, path),
        0 <= a - n,
        a < path.len(),
    ensures
        reach(edges, path[a], n).contains(path[a - n]),
    decreases n,
{
    if n > 0 {
        lemma_chain_reach(edges, path, a, (n - 1) as nat);
        let m = a - n;
        assert(feeds(edges, path[m + 1], path[m]));
        let j = choose|j: int| 0 <= j < edges.len() && (#[trigger] edges[j]).from_node == path[m + 1] && edges[j].to_node == path[m];
        assert(reach(edges, path[a], (n - 1) as nat).contains(edges[j].from_node));
    }
}

proof fn lemma_sources_bound(edges: Seq<Edge>, q: Seq<NodeId>)
    requires
        distinct(q),
        forall|m: int| 0 <= m < q.len() ==> is_source(edges, #[trigger] q[m]),
    ensures
        q.len() <= edges.len(),
{
    broadcast use vstd::seq_lib::seq_to_set_is_finite;
    let srcs = edges.map_values(|e: Edge| e.from_node);
    srcs.lemma_cardinality_of_set();
    assert(q.no_duplicates()) by {
        assert forall|i: int, j: int| 0 <= i < q.len() && 0 <= j < q.len() && i != j implies q[i] != q[j] by {
            if i < j {
            } else {
            }
        }
    }
    q.unique_seq_to_set();
    assert forall|x: NodeId| q.to_set().contains(x) implies srcs.to_set().contains(x) by {
        let m = choose|m: int| 0 <= m < q.len() && q[m] == x;
        assert(is_source(edges, q[m]));
        let j = choose|j: int| 0 <= j < edges.len() && (#[trigger] edges[j]).from_node == x;
        assert(srcs[j] == x);
    }
    vstd::set_lib::lemma_len_subset(q.to_set(), srcs.to_set());
}

proof fn lemma_visit_total(edges: Seq<Edge>, id: NodeId, path: Seq<NodeId>, done: Seq<NodeId>, fuel: nat)
    requires
        acyclic(edges),
        distinct(path),
        feeds_back(edges, path),
        path.len() > 0 ==> feeds(edges, id, path.last()),
        forall|m: int| 1 <= m < path.len() ==> is_source(edges, #[trigger] path[m]),
        fuel + path.len() >= edges.len() + 1,
    ensures
        visit(edges, id, path, done, fuel) is Some,
    decreases fuel, 0nat,
{
    let last = path.len() - 1;
    let rest = path.subrange(1, path.len() as int);
    if path.len() > 0 {
        assert forall|m: int| 0 <= m < rest.len() implies is_source(edges, #[trigger] rest[m]) by {
            assert(rest[m] == path[m + 1]);
        }
        lemma_sources_bound(edges, rest);
    }
    if path.contains(id) {
        let m = choose|m: int| 0 <= m < path.len() && path[m] == id;
        let j = choose|j: int| 0 <= j < edges.len() && (#[trigger] edges[j]).from_node == id && edges[j].to_node == path.last();
        lemma_chain_reach(edges, path, last, (last - m) as nat);
        lemma_reach_grows(edges, path[last], (last - m) as nat, edges.len());
        assert(closes_cycle(edges, edges[j].from_node, edges[j].to_node));
    }
    if !done.contains(id) {
        if path.len() > 0 {
            let q = rest.push(id);
            let j = choose|j: int| 0 <= j < edges.len() && (#[trigger] edges[j]).from_node == id && edges[j].to_node == path.last();
            assert forall|m: int| 0 <= m < q.len() implies is_source(edges, #[trigger] q[m]) by {
                if m < rest.len() {
                    assert(q[m] == path[m + 1]);
                }
            }
            assert forall|a: int, b: int| 0 <= a < b < q.len() implies q[a] != q[b] by {
                if b == rest.len() {
                    assert(q[a] == path[a + 1]);
                } else {
                    assert(q[a] == path[a + 1] && q[b] == path[b + 1]);
                }
            }
            lemma_sources_bound(edges, q);
        }
        let p2 = path.push(id);
        let ins = edges_into(edges, id);
        lemma_edges_where_sub(edges, |e: Edge| e.to_node == id);
        assert forall|a: int, b: int| 0 <= a < b < p2.len() implies p2[a] != p2[b] by {
            if b == path.len() {
                assert(p2[a] == path[a]);
            } else {
                assert(p2[a] == path[a] && p2[b] == path[b]);
            }
        }
        assert forall|m: int| 0 <= m < p2.len() - 1 implies #[trigger] feeds(edges, p2[m + 1], p2[m]) by {
            if m + 1 < path.len() {
                assert(p2[m] == path[m] && p2[m + 1] == path[m + 1]);
            } else {
                assert(p2[m + 1] == id && p2[m] == path.last());
            }
        }
        assert forall|m: int| 1 <= m < p2.len() implies is_source(edges, #[trigger] p2[m]) by {
            if m < path.len() {
                assert(p2[m] == path[m]);
            } else {
                let j = choose|j: int| 0 <= j < edges.len() && (#[trigger] edges[j]).from_node == id && edges[j].to_node == path.last();
            }
        }
        assert(p2.last() == id);
        lemma_sources_total(edges, ins, p2, done, (fuel - 1) as nat);
    }
}

proof fn lemma_sources_total(edges: Seq<Edge>, ins: Seq<Edge>, path: Seq<NodeId>, done: Seq<NodeId>, fuel: nat)
    requires
        acyclic(edges),
        distinct(path),
        feeds_back(edges, path),
        path.len() > 0,
        forall|m: int| 0 <= m < ins.len() ==> (#[trigger] ins[m]).to_node == path.last() && edges.contains(ins[m]),
        forall|m: int| 1 <= m < path.len() ==> is_source(edges, #[trigger] path[m]),
        fuel + path.len() >= edges.len() + 1,
    ensures
        visit_sources(edges, ins, path, done, fuel) is Some,
    decreases fuel, ins.len() + 1,
{
    if ins.len() > 0 {
        assert(ins[0].to_node == path.last() && edges.contains(ins[0]));
        let j = choose|j: int| 0 <= j < edges.len() && edges[j] == ins[0];
        assert(edges[j].from_node == ins[0].from_node && edges[j].to_node == path.last());
        assert(feeds(edges, ins[0].from_node, path.last()));
        lemma_visit_total(edges, ins[0].from_node, path, done, fuel);
        let d1 = visit(edges, ins[0].from_node, path, done, fuel)->0;
        assert forall|m: int| 0 <= m < ins.drop_first().len() implies (#[trigger] ins.drop_first()[m]).to_node == path.last()
            && edges.contains(ins.drop_first()[m]) by {
            assert(ins.drop_first()[m] == ins[m + 1]);
        }
        lemma_sources_total(edges, ins.drop_first(), path, d1, fuel);
    }
}

proof fn lemma_nodes_total(edges: Seq<Edge>, nodes: Seq<Node>, done: Seq<NodeId>, fuel: nat)
    requires
        acyclic(edges),
        fuel >= edges.len() + 1,
    ensures
        visit_nodes(edges, nodes, done, fuel) is Some,
    decreases nodes.len(),
{
    if nodes.len() > 0 {
        lemma_visit_total(edges, nodes[0].id, seq![], done, fuel);
        let d1 = visit(edges, nodes[0].id, seq![], done, fuel)->0;
        lemma_nodes_total(edges, nodes.drop_first(), d1, fuel);
    }
}

/// A graph in which no edge closes a cycle always has an execution order.
pub proof fn lemma_acyclic_has_order(g: Graph)
    requires
        acyclic(g.edges@),
        g.edges@.len() < usize::MAX,
    ensures
        topo_order(g) is Some,
{
    lemma_nodes_total(g.edges@, g.nodes@, seq![], order_fuel(g.edges@));
}

/// Which edges a selection keeps.
enum EdgeSelection {
    Into,
    OutOf,
    NotIntoPort,
    Avoiding,
}

spec fn keeps(sel: EdgeSelection, id: NodeId, port: u8) -> spec_fn(Edge) -> bool {
    match sel {
        EdgeSelection::Into => |e: Edge| e.to_node == id,
        EdgeSelection::OutOf => |e: Edge| e.from_node == id,
        EdgeSelection::NotIntoPort => |e: Edge| !(e.to_node == id && e.to_port == port),
        EdgeSelection::Avoiding => |e: Edge| e.from_node != id && e.to_node != id,
    }
}

fn select_edges(edges: &Vec<Edge>, id: NodeId, port: u8, sel: EdgeSelection) -> (r: Vec<Edge>)
    ensures
        r@ == edges_where(edges@, keeps(sel, id, port)),
{
    let mut r: Vec<Edge> = Vec::new();
    let mut i: usize = 0;
    while i < edges.len()
        invariant
            i <= edges@.len(),
            r@ == edges_where(edges@.subrange(0, i as int), keeps(sel, id, port)),
        decreases edges@.len() - i,
    {
        let e = edges[i];
        let keep = match sel {
            EdgeSelection::Into => e.to_node == id,
            EdgeSelection::OutOf => e.from_node == id,
            EdgeSelection::NotIntoPort => !(e.to_node == id && e.to_port == port),
            EdgeSelection::Avoiding => e.from_node != id && e.to_node != id,
        };
        proof {
            assert(edges@.subrange(0, i + 1).drop_last() =~= edges@.subrange(0, i as int));
        }
        if keep {
            r.push(e);
        }
        i += 1;
    }
    assert(edges@.subrange(0, edges@.len() as int) =~= edges@);
    r
}

/// Every edge kept by `edges_where` is an edge of the input that satisfies `keep`.
pub proof fn lemma_edges_where_sub(edges: Seq<Edge>, keep: spec_fn(Edge) -> bool)
    ensures
        forall|j: int| 0 <= j < edges_where(edges, keep).len() ==> {
            &&& keep(#[trigger] edges_where(edges, keep)[j])
            &&& edges.contains(edges_where(edges, keep)[j])
        },
    decreases edges.len(),
{
    if edges.len() > 0 {
        lemma_edges_where_sub(edges.drop_last(), keep);
        let rest = edges_where(edges.drop_last(), keep);
        assert forall|j: int| 0 <= j < rest.len() implies edges.contains(#[trigger] rest[j]) by {
            let k = choose|k: int| 0 <= k < edges.drop_last().len() && edges.drop_last()[k] == rest[j];
            assert(edges[k] == rest[j]);
        }
        assert(edges[edges.len() - 1] == edges.last());
    }
}

impl Graph {
    /// Node ids are unique and below the next id; every edge joins existing nodes.
    pub open spec fn wf(&self) -> bool {
        &&& forall|i: int, j: int| 0 <= i < j < self.nodes@.len() ==> self.nodes@[i].id != self.nodes@[j].id
        &&& forall|i: int| 0 <= i < self.nodes@.len() ==> (#[trigger] self.nodes@[i]).id < self.next_id
        &&& forall|j: int| 0 <= j < self.edges@.len() ==> has_node(self.nodes@, (#[trigger] self.edges@[j]).from_node)
            && has_node(self.nodes@, self.edges@[j].to_node)
    }

    /// A new empty graph.
    pub fn new(name: &str) -> (r: Self)
        ensures
            r.wf(),
            r.name@ == name@,
            r.description@.len() == 0,
            r.nodes@.len() == 0,
            r.edges@.len() == 0,
            r.next_id == 0,
    {
        Graph { name: name.to_owned(), description: String::new(), nodes: Vec::new(), edges: Vec::new(), next_id: 0 }
    }

    /// Adds a node under the next id, and returns that id.
    pub fn add_node(&mut self, node: Node) -> (r: NodeId)
        requires
            old(self).wf(),
            old(self).next_id < u32::MAX,
        ensures
            final(self).wf(),
            r == old(self).next_id,
            final(self).next_id == r + 1,
            !has_node(old(self).nodes@, r),
            has_node(final(self).nodes@, r),
            final(self).nodes@ == old(self).nodes@.push(Node { id: r, ..node }),
            final(self).edges@ == old(self).edges@,
            final(self).name == old(self).name,
            final(self).description == old(self).description,
    {
        let id = self.next_id;
        self.next_id = self.next_id + 1;
        let mut node = node;
        node.id = id;
        self.nodes.push(node);
        proof {
            assert(self.nodes@[self.nodes@.len() - 1].id == id);
            assert forall|k: NodeId| has_node(old(self).nodes@, k) implies has_node(self.nodes@, k) by {
                let i = choose|i: int| 0 <= i < old(self).nodes@.len() && (#[trigger] old(self).nodes@[i]).id == k;
                assert(self.nodes@[i] == old(self).nodes@[i]);
            }
        }
        id
    }

    /// Connects output `from_port` of `from_node` to input `to_port` of
    /// `to_node`, replacing the edge that fed that input before.
    pub fn connect(&mut self, from_node: NodeId, from_port: u8, to_node: NodeId, to_port: u8) -> (r: Result<(), GraphError>)
        requires
            old(self).wf(),
        ensures
            final(self).wf(),
            !has_node(old(self).nodes@, from_node) ==> r == Err::<(), GraphError>(GraphError::NodeNotFound(from_node)),
            has_node(old(self).nodes@, from_node) && !has_node(old(self).nodes@, to_node) ==> r == Err::<(), GraphError>(GraphError::NodeNotFound(to_node)),
            has_node(old(self).nodes@, from_node) && has_node(old(self).nodes@, to_node) && closes_cycle(old(self).edges@, from_node, to_node)
                ==> r == Err::<(), GraphError>(GraphError::CycleDetected),
            has_node(old(self).nodes@, from_node) && from_node == to_node ==> r == Err::<(), GraphError>(GraphError::CycleDetected),
            has_node(old(self).nodes@, from_node) && has_node(old(self).nodes@, to_node) && !closes_cycle(old(self).edges@, from_node, to_node)
                ==> r is Ok,
            r is Err ==> final(self).edges@ == old(self).edges@,
            r is Ok ==> final(self).edges@ == edges_not_into_port(old(self).edges@, to_node, to_port).push(
                Edge { from_node, from_port, to_node, to_port },
            ),
            final(self).nodes@ == old(self).nodes@,
            final(self).next_id == old(self).next_id,
            final(self).name == old(self).name,
            final(self).description == old(self).description,
    {
        proof {
            lemma_reach_contains_start(self.edges@, to_node, self.edges@.len());
        }
        if !self.contains_node(from_node) {
            return Err(GraphError::NodeNotFound(from_node));
        }
        if !self.contains_node(to_node) {
            return Err(GraphError::NodeNotFound(to_node));
        }
        if self.reaches(to_node, from_node) {
            return Err(GraphError::CycleDetected);
        }
        let mut kept = select_edges(&self.edges, to_node, to_port, EdgeSelection::NotIntoPort);
        proof {
            lemma_edges_where_sub(self.edges@, keeps(EdgeSelection::NotIntoPort, to_node, to_port));
        }
        kept.push(Edge { from_node, from_port, to_node, to_port });
        self.edges = kept;
        Ok(())
    }

    /// Removes the edge that feeds input `to_port` of `to_node`, if any.
    pub fn disconnect(&mut self, to_node: NodeId, to_port: u8)
        requires
            old(self).wf(),
        ensures
            final(self).wf(),
            final(self).edges@ == edges_not_into_port(old(self).edges@, to_node, to_port),
            final(self).nodes@ == old(self).nodes@,
            final(self).next_id == old(self).next_id,
    {
        let kept = select_edges(&self.edges, to_node, to_port, EdgeSelection::NotIntoPort);
        proof {
            lemma_edges_where_sub(self.edges@, keeps(EdgeSelection::NotIntoPort, to_node, to_port));
        }
        self.edges = kept;
    }

    /// Edges that end at `node_id`, in order.
    pub fn get_incoming_edges(&self, node_id: NodeId) -> (r: Vec<Edge>)
        ensures
            r@ == edges_into(self.edges@, node_id),
    {
        let r = select_edges(&self.edges, node_id, 0, EdgeSelection::Into);
        assert(keeps(EdgeSelection::Into, node_id, 0) == (|e: Edge| e.to_node == node_id));
        r
    }

    /// Edges that start at `node_id`, in order.
    pub fn get_outgoing_edges(&self, node_id: NodeId) -> (r: Vec<Edge>)
        ensures
            r@ == edges_out_of(self.edges@, node_id),
    {
        let r = select_edges(&self.edges, node_id, 0, EdgeSelection::OutOf);
        assert(keeps(EdgeSelection::OutOf, node_id, 0) == (|e: Edge| e.from_node == node_id));
        r
    }

    /// The node with id `id`.
    pub fn get_node(&self, id: NodeId) -> (r: Option<&Node>)
        ensures
            match node_index(self.nodes@, id) {
                Some(i) => r == Some(&self.nodes@[i]),
                None => r is None,
            },
    {
        let mut i: usize = 0;
        assert(self.nodes@.subrange(0, self.nodes@.len() as int) =~= self.nodes@);
        while i < self.nodes.len()
            invariant
                i <= self.nodes@.len(),
                node_index(self.nodes@, id) == match node_index(self.nodes@.subrange(i as int, self.nodes@.len() as int), id) {
                    Some(k) => Some(k + i),
                    None => None::<int>,
                },
            decreases self.nodes@.len() - i,
        {
            let ghost rest = self.nodes@.subrange(i as int, self.nodes@.len() as int);
            assert(rest.drop_first() =~= self.nodes@.subrange(i + 1, self.nodes@.len() as int));
            if self.nodes[i].id == id {
                return Some(&self.nodes[i]);
            }
            i += 1;
        }
        None
    }

    /// The node with id `id`, to change in place.
    pub fn get_node_mut(&mut self, id: NodeId) -> (r: Option<&mut Node>)
        ensures
            match node_index(old(self).nodes@, id) {
                Some(i) => r is Some && *r->0 == old(self).nodes@[i]
                    && final(self).nodes@ == old(self).nodes@.update(i, *final(r->0)),
                None => r is None && final(self).nodes@ == old(self).nodes@,
            },
            final(self).edges@ == old(self).edges@,
            final(self).next_id == old(self).next_id,
    {
        let mut i: usize = 0;
        assert(self.nodes@.subrange(0, self.nodes@.len() as int) =~= self.nodes@);
        while i < self.nodes.len()
            invariant
                i <= self.nodes@.len(),
                self.nodes@ == old(self).nodes@,
                self.edges@ == old(self).edges@,
                self.next_id == old(self).next_id,
                node_index(self.nodes@, id) == match node_index(self.nodes@.subrange(i as int, self.nodes@.len() as int), id) {
                    Some(k) => Some(k + i),
                    None => None::<int>,
                },
            decreases self.nodes@.len() - i,
        {
            let ghost rest = self.nodes@.subrange(i as int, self.nodes@.len() as int);
            assert(rest.drop_first() =~= self.nodes@.subrange(i + 1, self.nodes@.len() as int));
            if self.nodes[i].id == id {
                return Some(&mut self.nodes[i]);
            }
            i += 1;
        }
        None
    }

    /// Removes the node with id `node_id` and every edge that touches it.
    pub fn remove_node(&mut self, node_id: NodeId)
        requires
            old(self).wf(),
        ensures
            final(self).wf(),
            final(self).nodes@ == without_node(old(self).nodes@, node_id),
            final(self).edges@ == edges_avoiding(old(self).edges@, node_id),
            final(self).next_id == old(self).next_id,
            final(self).name == old(self).name,
            final(self).description == old(self).description,
    {
        let ghost orig = self.nodes@;
        let mut rest: Vec<Node> = Vec::new();
        std::mem::swap(&mut self.nodes, &mut rest);
        let mut kept: Vec<Node> = Vec::new();
        let ghost mut k: int = 0;
        while rest.len() > 0
            invariant
                0 <= k <= orig.len(),
                rest@ == orig.subrange(k, orig.len() as int),
                kept@ == without_node(orig.subrange(0, k), node_id),
            decreases rest@.len(),
        {
            let n = rest.remove(0);
            proof {
                assert(orig.subrange(0, k + 1).drop_last() =~= orig.subrange(0, k));
                assert(orig.subrange(0, k + 1).last() == n);
                assert(rest@ =~= orig.subrange(k + 1, orig.len() as int));
                k = k + 1;
            }
            if n.id != node_id {
                kept.push(n);
            }
        }
        proof {
            assert(orig.subrange(0, k) =~= orig);
            lemma_without_node(orig, node_id);
        }
        self.nodes = kept;
        let edges = select_edges(&self.edges, node_id, 0, EdgeSelection::Avoiding);
        proof {
            lemma_edges_where_sub(self.edges@, keeps(EdgeSelection::Avoiding, node_id, 0));
            assert(keeps(EdgeSelection::Avoiding, node_id, 0) == (|e: Edge| e.from_node != node_id && e.to_node != node_id));
            assert forall|j: int| 0 <= j < edges@.len() implies has_node(self.nodes@, (#[trigger] edges@[j]).from_node)
                && has_node(self.nodes@, edges@[j].to_node) by {
                let e = edges@[j];
                let m = choose|m: int| 0 <= m < old(self).edges@.len() && old(self).edges@[m] == e;
                assert(has_node(orig, old(self).edges@[m].from_node));
                assert(has_node(orig, old(self).edges@[m].to_node));
            }
        }
        self.edges = edges;
    }

    /// Node ids in an order where every node comes after the sources of its
    /// incoming edges; `CycleDetected` when there is none.
    pub fn topological_sort(&self) -> (r: Result<Vec<NodeId>, GraphError>)
        ensures
            match topo_order(*self) {
                Some(order) => r is Ok && r->Ok_0@ == order,
                None => r == Err::<Vec<NodeId>, GraphError>(GraphError::CycleDetected),
            },
    {
        let mut result: Vec<NodeId> = Vec::new();
        let mut path: Vec<NodeId> = Vec::new();
        let fuel: usize = if self.edges.len() < usize::MAX { self.edges.len() + 1 } else { self.edges.len() };
        let mut i: usize = 0;
        assert(self.nodes@.subrange(0, self.nodes@.len() as int) =~= self.nodes@);
        while i < self.nodes.len()
            invariant
                i <= self.nodes@.len(),
                path@ == Seq::<NodeId>::empty(),
                fuel as nat == order_fuel(self.edges@),
                topo_order(*self) == visit_nodes(self.edges@, self.nodes@.subrange(i as int, self.nodes@.len() as int), result@, fuel as nat),
            decreases self.nodes@.len() - i,
        {
            let ghost rest = self.nodes@.subrange(i as int, self.nodes@.len() as int);
            assert(rest.drop_first() =~= self.nodes@.subrange(i + 1, self.nodes@.len() as int));
            let id = self.nodes[i].id;
            if !vec_contains(&result, id) {
                let v = self.visit_node(id, &mut path, &mut result, fuel);
                if v.is_err() {
                    return Err(GraphError::CycleDetected);
                }
            }
            i += 1;
        }
        Ok(result)
    }

    fn visit_node(&self, node_id: NodeId, path: &mut Vec<NodeId>, result: &mut Vec<NodeId>, fuel: usize) -> (r: Result<(), GraphError>)
        ensures
            match visit(self.edges@, node_id, old(path)@, old(result)@, fuel as nat) {
                Some(d) => r is Ok && final(result)@ == d && final(path)@ == old(path)@,
                None => r == Err::<(), GraphError>(GraphError::CycleDetected),
            },
        decreases fuel, 0nat,
    {
        if vec_contains(path, node_id) {
            return Err(GraphError::CycleDetected);
        }
        if vec_contains(result, node_id) {
            return Ok(());
        }
        if fuel == 0 {
            return Err(GraphError::CycleDetected);
        }
        path.push(node_id);
        let ins = self.get_incoming_edges(node_id);
        let ghost p = path@;
        let ghost start = result@;
        let mut i: usize = 0;
        assert(ins@.subrange(0, ins@.len() as int) =~= ins@);
        assert(p == old(path)@.push(node_id));
        while i < ins.len()
            invariant
                i <= ins@.len(),
                ins@ == edges_into(self.edges@, node_id),
                path@ == p,
                fuel > 0,
                p == old(path)@.push(node_id),
                start == old(result)@,
                !old(path)@.contains(node_id),
                !old(result)@.contains(node_id),
                visit_sources(self.edges@, ins@, p, start, (fuel - 1) as nat)
                    == visit_sources(self.edges@, ins@.subrange(i as int, ins@.len() as int), p, result@, (fuel - 1) as nat),
            decreases ins@.len() - i,
        {
            let ghost rest = ins@.subrange(i as int, ins@.len() as int);
            assert(rest.drop_first() =~= ins@.subrange(i + 1, ins@.len() as int));
            assert(rest[0] == ins@[i as int]);
            let ghost before = result@;
            let v = self.visit_node(ins[i].from_node, path, result, fuel - 1);
            if v.is_err() {
                assert(visit(self.edges@, rest[0].from_node, p, before, (fuel - 1) as nat) is None);
                assert(visit_sources(self.edges@, rest, p, before, (fuel - 1) as nat) is None);
                assert(visit_sources(self.edges@, ins@, p, start, (fuel - 1) as nat) is None);
                return Err(GraphError::CycleDetected);
            }
            i += 1;
        }
        assert(ins@.subrange(ins@.len() as int, ins@.len() as int) =~= Seq::<Edge>::empty());
        assert(ins@.subrange(0, ins@.len() as int) =~= ins@);
        path.pop();
        assert(path@ =~= old(path)@);
        result.push(node_id);
        Ok(())
    }

    /// Whether a node has id `id`.
    pub fn contains_node(&self, id: NodeId) -> (r: bool)
        ensures
            r == has_node(self.nodes@, id),
    {
        let mut i: usize = 0;
        while i < self.nodes.len()
            invariant
                i <= self.nodes@.len(),
                forall|k: int| 0 <= k < i ==> (#[trigger] self.nodes@[k]).id != id,
            decreases self.nodes@.len() - i,
        {
            if self.nodes[i].id == id {
                return true;
            }
            i += 1;
        }
        false
    }

    /// Whether `target` lies within `self.edges.len()` edges of `start`.
    fn reaches(&self, start: NodeId, target: NodeId) -> (r: bool)
        ensures
            r == reach(self.edges@, start, self.edges@.len()).contains(target),
    {
        let mut seen: Vec<NodeId> = vec![start];
        proof {
            assert forall|x: NodeId| seen@.contains(x) <==> reach(self.edges@, start, 0).contains(x) by {
                if x == start { assert(seen@[0] == x); }
            }
        }
        let mut round: usize = 0;
        while round < self.edges.len()
            invariant
                round <= self.edges@.len(),
                forall|x: NodeId| seen@.contains(x) <==> reach(self.edges@, start, round as nat).contains(x),
            decreases self.edges@.len() - round,
        {
            let ghost before = reach(self.edges@, start, round as nat);
            let mut next: Vec<NodeId> = Vec::new();
            let mut n: usize = 0;
            while n < seen.len()
                invariant
                    n <= seen@.len(),
                    next@ == seen@.subrange(0, n as int),
                decreases seen@.len() - n,
            {
                next.push(seen[n]);
                n += 1;
            }
            assert(next@ =~= seen@);
            let mut j: usize = 0;
            while j < self.edges.len()
                invariant
                    j <= self.edges@.len(),
                    forall|x: NodeId| seen@.contains(x) <==> before.contains(x),
                    forall|x: NodeId| #[trigger] next@.contains(x) <==> (before.contains(x) || exists|k: int|
                        0 <= k < j && before.contains(#[trigger] self.edges@[k].from_node) && self.edges@[k].to_node == x),
                decreases self.edges@.len() - j,
            {
                let e = self.edges[j];
                let ghost prev = next@;
                let a = vec_contains(&seen, e.from_node);
                let b = vec_contains(&next, e.to_node);
                if a && !b {
                    next.push(e.to_node);
                }
                proof {
                    assert forall|x: NodeId| next@.contains(x) <==> (prev.contains(x) || (a && x == e.to_node)) by {
                        if a && !b {
                            assert(next@ == prev.push(e.to_node));
                            if prev.contains(x) {
                                let i = choose|i: int| 0 <= i < prev.len() && prev[i] == x;
                                assert(next@[i] == x);
                            }
                            if x == e.to_node {
                                assert(next@[prev.len() as int] == x);
                            }
                            if next@.contains(x) {
                                let i = choose|i: int| 0 <= i < next@.len() && next@[i] == x;
                                if i < prev.len() {
                                    assert(prev[i] == x);
                                }
                            }
                        }
                    }
                    assert forall|x: NodeId| #[trigger] next@.contains(x) <==> (before.contains(x) || exists|k: int|
                        0 <= k < j + 1 && before.contains(#[trigger] self.edges@[k].from_node) && self.edges@[k].to_node == x) by {
                        let was = exists|k: int| 0 <= k < j && before.contains(#[trigger] self.edges@[k].from_node) && self.edges@[k].to_node == x;
                        let now = exists|k: int| 0 <= k < j + 1 && before.contains(#[trigger] self.edges@[k].from_node) && self.edges@[k].to_node == x;
                        assert(prev.contains(x) <==> (before.contains(x) || was));
                        if was {
                            let k = choose|k: int| 0 <= k < j && before.contains(#[trigger] self.edges@[k].from_node) && self.edges@[k].to_node == x;
                            assert(0 <= k < j + 1 && before.contains(self.edges@[k].from_node) && self.edges@[k].to_node == x);
                        }
                        if a && x == e.to_node {
                            assert(self.edges@[j as int] == e);
                            assert(seen@.contains(e.from_node));
                            assert(before.contains(e.from_node));
                            assert(0 <= j < j + 1 && before.contains(self.edges@[j as int].from_node) && self.edges@[j as int].to_node == x);
                        }
                        if now {
                            let k = choose|k: int| 0 <= k < j + 1 && before.contains(#[trigger] self.edges@[k].from_node) && self.edges@[k].to_node == x;
                            if k < j {
                                assert(was);
                            } else {
                                assert(self.edges@[k] == e);
                                assert(seen@.contains(e.from_node));
                            }
                        }
                    }
                }
                j += 1;
            }
            proof {
                let after = reach(self.edges@, start, (round + 1) as nat);
                assert(after == step(self.edges@, before));
                assert forall|x: NodeId| next@.contains(x) <==> after.contains(x) by {
                    if after.contains(x) && !before.contains(x) {
                        let k = choose|k: int| 0 <= k < self.edges@.len() && before.contains(#[trigger] self.edges@[k].from_node) && self.edges@[k].to_node == x;
                        assert(next@.contains(x));
                    }
                }
            }
            seen = next;
            round += 1;
        }
        vec_contains(&seen, target)
    }
}

/// Removing the nodes with one id keeps the others, in order, and keeps ids distinct.
proof fn lemma_without_node(nodes: Seq<Node>, id: NodeId)
    ensures
        forall|k: NodeId| k != id && has_node(nodes, k) ==> has_node(without_node(nodes, id), k),
        forall|j: int| 0 <= j < without_node(nodes, id).len() ==> nodes.contains(#[trigger] without_node(nodes, id)[j]),
        (forall|i: int, j: int| 0 <= i < j < nodes.len() ==> nodes[i].id != nodes[j].id) ==> (forall|i: int, j: int|
            0 <= i < j < without_node(nodes, id).len() ==> without_node(nodes, id)[i].id != without_node(nodes, id)[j].id),
    decreases nodes.len(),
{
    if nodes.len() > 0 {
        let init = nodes.drop_last();
        lemma_without_node(init, id);
        let rest = without_node(init, id);
        let w = without_node(nodes, id);
        assert forall|k: NodeId| k != id && has_node(nodes, k) implies has_node(w, k) by {
            let i = choose|i: int| 0 <= i < nodes.len() && (#[trigger] nodes[i]).id == k;
            if i < nodes.len() - 1 {
                assert(init[i] == nodes[i]);
                assert(has_node(init, k));
                let m = choose|m: int| 0 <= m < rest.len() && (#[trigger] rest[m]).id == k;
                assert(w[m] == rest[m]);
            } else {
                assert(w[w.len() - 1] == nodes.last());
            }
        }
        assert forall|j: int| 0 <= j < w.len() implies nodes.contains(#[trigger] w[j]) by {
            if j < rest.len() {
                assert(w[j] == rest[j]);
                let m = choose|m: int| 0 <= m < init.len() && init[m] == rest[j];
                assert(nodes[m] == init[m]);
            } else {
                assert(w[j] == nodes[nodes.len() - 1]);
            }
        }
        if forall|i: int, j: int| 0 <= i < j < nodes.len() ==> nodes[i].id != nodes[j].id {
            assert forall|i: int, j: int| 0 <= i < j < init.len() implies init[i].id != init[j].id by {
                assert(init[i] == nodes[i] && init[j] == nodes[j]);
            }
            assert forall|i: int, j: int| 0 <= i < j < w.len() implies w[i].id != w[j].id by {
                if j >= rest.len() {
                    assert(w[i] == rest[i]);
                    let m = choose|m: int| 0 <= m < init.len() && init[m] == rest[i];
                    assert(nodes[m] == init[m]);
                    assert(w[j] == nodes[nodes.len() - 1]);
                } else {
                    assert(w[i] == rest[i] && w[j] == rest[j]);
                }
            }
        }
    }
}

/// Whether `v` holds `x`.
pub fn vec_contains(v: &Vec<NodeId>, x: NodeId) -> (r: bool)
    ensures
        r == v@.contains(x),
{
    let mut i: usize = 0;
    while i < v.len()
        invariant
            i <= v@.len(),
            forall|k: int| 0 <= k < i ==> v@[k] != x,
        decreases v@.len() - i,
    {
        if v[i] == x {
            return true;
        }
        i += 1;
    }
    false
}

} // verus!
