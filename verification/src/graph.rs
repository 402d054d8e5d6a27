//! The `petgraph` graph that holds a PDAG, seen through its node weights and
//! its edge list, and the few `petgraph` operations the library calls.

use vstd::prelude::*;

use petgraph::graph::{Graph, NodeIndex};
use petgraph::{Directed, Direction};

use crate::pdag::NodeData;

verus! {

#[verifier::external_type_specification]
#[verifier::external_body]
#[verifier::reject_recursive_types(N)]
#[verifier::reject_recursive_types(E)]
#[verifier::reject_recursive_types(Ty)]
#[verifier::reject_recursive_types(Ix)]
pub struct ExGraph<N, E, Ty, Ix>(Graph<N, E, Ty, Ix>);

#[verifier::external_type_specification]
#[verifier::external_body]
pub struct ExDirected(Directed);

/// The node weights of a PDAG graph, by node index.
pub uninterp spec fn graph_nodes(g: Graph<NodeData, (), Directed, u32>) -> Seq<NodeData>;

/// The edges of a PDAG graph, by edge index, as `(source, target)` node
/// indices.
pub uninterp spec fn graph_edges(g: Graph<NodeData, (), Directed, u32>) -> Seq<(usize, usize)>;

// ─── Adjacency as seen from the edge list ───────────────────────────────────

/// The targets of the edges leaving `a`, most recently added edge first
/// (the order in which `petgraph` lists the outgoing neighbours of a node).
pub open spec fn out_targets(edges: Seq<(usize, usize)>, a: usize) -> Seq<usize>
    decreases edges.len(),
{
    if edges.len() == 0 {
        Seq::empty()
    } else {
        let rest = out_targets(edges.drop_last(), a);
        if edges.last().0 == a {
            seq![edges.last().1] + rest
        } else {
            rest
        }
    }
}

/// The sources of the edges entering `b`, most recently added edge first.
pub open spec fn in_sources(edges: Seq<(usize, usize)>, b: usize) -> Seq<usize>
    decreases edges.len(),
{
    if edges.len() == 0 {
        Seq::empty()
    } else {
        let rest = in_sources(edges.drop_last(), b);
        if edges.last().1 == b {
            seq![edges.last().0] + rest
        } else {
            rest
        }
    }
}

/// A walk along edges that visits at least two nodes.
pub open spec fn is_walk(edges: Seq<(usize, usize)>, w: Seq<usize>) -> bool {
    &&& w.len() >= 2
    &&& forall|k: int| 0 <= k < w.len() - 1 ==> edges.contains((#[trigger] w[k], w[k + 1]))
}

/// The edges contain a directed cycle: a walk that ends where it starts.
pub open spec fn has_cycle(edges: Seq<(usize, usize)>) -> bool {
    exists|w: Seq<usize>| is_walk(edges, w) && w[0] == w.last()
}

/// An edge pushed from `a` puts its target first among `a`'s children.
pub proof fn lemma_out_targets_push(edges: Seq<(usize, usize)>, e: (usize, usize), a: usize)
    ensures
        out_targets(edges.push(e), a) == if e.0 == a {
            seq![e.1] + out_targets(edges, a)
        } else {
            out_targets(edges, a)
        },
{
    assert(edges.push(e).drop_last() =~= edges);
}

/// `t` is an outgoing neighbour of `a` exactly when an edge goes from `a`
/// to `t`.
pub proof fn lemma_out_targets_contains(edges: Seq<(usize, usize)>, a: usize, t: usize)
    ensures
        out_targets(edges, a).contains(t) <==> edges.contains((a, t)),
    decreases edges.len(),
{
    if edges.len() > 0 {
        let rest = edges.drop_last();
        lemma_out_targets_contains(rest, a, t);
        assert(edges =~= rest.push(edges.last()));
        if edges.contains((a, t)) {
            let k = choose|k: int| 0 <= k < edges.len() && edges[k] == (a, t);
            if k < rest.len() {
                assert(rest[k] == (a, t));
            }
        }
        if rest.contains((a, t)) {
            let k = choose|k: int| 0 <= k < rest.len() && rest[k] == (a, t);
            assert(edges[k] == (a, t));
        }
        if edges.last().0 == a {
            let s = seq![edges.last().1] + out_targets(rest, a);
            if s.contains(t) {
                let k = choose|k: int| 0 <= k < s.len() && s[k] == t;
                if k > 0 {
                    assert(out_targets(rest, a)[k - 1] == t);
                }
            }
            if out_targets(rest, a).contains(t) {
                let k = choose|k: int| 0 <= k < out_targets(rest, a).len() && out_targets(rest, a)[k]
                    == t;
                assert(s[k + 1] == t);
            }
            if edges.last() == (a, t) {
                assert(s[0] == t);
            }
        }
    }
}

/// `s` is an incoming neighbour of `b` exactly when an edge goes from `s`
/// to `b`.
pub proof fn lemma_in_sources_contains(edges: Seq<(usize, usize)>, b: usize, s: usize)
    ensures
        in_sources(edges, b).contains(s) <==> edges.contains((s, b)),
    decreases edges.len(),
{
    if edges.len() > 0 {
        let rest = edges.drop_last();
        lemma_in_sources_contains(rest, b, s);
        assert(edges =~= rest.push(edges.last()));
        if edges.contains((s, b)) {
            let k = choose|k: int| 0 <= k < edges.len() && edges[k] == (s, b);
            if k < rest.len() {
                assert(rest[k] == (s, b));
            }
        }
        if rest.contains((s, b)) {
            let k = choose|k: int| 0 <= k < rest.len() && rest[k] == (s, b);
            assert(edges[k] == (s, b));
        }
        if edges.last().1 == b {
            let q = seq![edges.last().0] + in_sources(rest, b);
            if q.contains(s) {
                let k = choose|k: int| 0 <= k < q.len() && q[k] == s;
                if k > 0 {
                    assert(in_sources(rest, b)[k - 1] == s);
                }
            }
            if in_sources(rest, b).contains(s) {
                let k = choose|k: int| 0 <= k < in_sources(rest, b).len() && in_sources(rest, b)[k]
                    == s;
                assert(q[k + 1] == s);
            }
            if edges.last() == (s, b) {
                assert(q[0] == s);
            }
        }
    }
}

// ─── petgraph operations ────────────────────────────────────────────────────

/// `Graph::new`: a graph with no nodes and no edges.
#[verifier::external_body]
pub(crate) fn new_graph() -> (g: Graph<NodeData, (), Directed, u32>)
    ensures
        graph_nodes(g) == Seq::<NodeData>::empty(),
        graph_edges(g) == Seq::<(usize, usize)>::empty(),
{
    Graph::new()
}

/// `Graph::add_node`: appends a node and returns its index.  petgraph
/// panics when the node count reaches `u32::MAX`, the end marker of its
/// 32-bit indices; `requires` leaves that out.
#[verifier::external_body]
pub(crate) fn add_node(g: &mut Graph<NodeData, (), Directed, u32>, weight: NodeData) -> (i: usize)
    requires
        graph_nodes(*old(g)).len() < u32::MAX,
    ensures
        i == graph_nodes(*old(g)).len(),
        graph_nodes(*final(g)) == graph_nodes(*old(g)).push(weight),
        graph_edges(*final(g)) == graph_edges(*old(g)),
{
    g.add_node(weight).index()
}

/// `Graph::add_edge`: appends the edge `a → b`.  petgraph panics when an
/// endpoint is not a node or when the edge count reaches `u32::MAX`.
#[verifier::external_body]
pub(crate) fn add_edge(g: &mut Graph<NodeData, (), Directed, u32>, a: usize, b: usize)
    requires
        a < graph_nodes(*old(g)).len(),
        b < graph_nodes(*old(g)).len(),
        graph_edges(*old(g)).len() < u32::MAX,
    ensures
        graph_nodes(*final(g)) == graph_nodes(*old(g)),
        graph_edges(*final(g)) == graph_edges(*old(g)).push((a, b)),
{
    g.add_edge(NodeIndex::new(a), NodeIndex::new(b), ());
}

/// `Index<NodeIndex>`: the weight of node `i` (petgraph panics when `i` is
/// not a node).
#[verifier::external_body]
pub(crate) fn node_weight(g: &Graph<NodeData, (), Directed, u32>, i: usize) -> (w: &NodeData)
    requires
        i < graph_nodes(*g).len(),
    ensures
        *w == graph_nodes(*g)[i as int],
{
    &g[NodeIndex::new(i)]
}

/// `Graph::node_count`.  With 32-bit indices a graph never holds more than
/// `u32::MAX` nodes: `Graph::add_node` asserts that the new node's index is
/// not `u32::MAX`, the end marker.
#[verifier::external_body]
pub(crate) fn node_count(g: &Graph<NodeData, (), Directed, u32>) -> (n: usize)
    ensures
        n == graph_nodes(*g).len(),
        n <= u32::MAX,
{
    g.node_count()
}

/// `Graph::edge_count`.
#[verifier::external_body]
pub(crate) fn edge_count(g: &Graph<NodeData, (), Directed, u32>) -> (n: usize)
    ensures
        n == graph_edges(*g).len(),
{
    g.edge_count()
}

/// `Graph::neighbors_directed(a, Outgoing)`, collected: for a directed
/// graph, the targets of the edges leaving `a`, most recently added first;
/// nothing when `a` is not a node.  Edge endpoints are always nodes.
#[verifier::external_body]
pub(crate) fn outgoing(g: &Graph<NodeData, (), Directed, u32>, a: usize) -> (r: Vec<usize>)
    requires
        a <= u32::MAX,
    ensures
        a < graph_nodes(*g).len() ==> r@ == out_targets(graph_edges(*g), a),
        a >= graph_nodes(*g).len() ==> r@.len() == 0,
        forall|k: int| 0 <= k < r@.len() ==> #[trigger] r@[k] < graph_nodes(*g).len(),
{
    g.neighbors_directed(NodeIndex::new(a), Direction::Outgoing).map(|n| n.index()).collect()
}

/// `Graph::neighbors_directed(b, Incoming)`, collected: for a directed
/// graph, the sources of the edges entering `b`, most recently added first;
/// nothing when `b` is not a node.  Edge endpoints are always nodes.
#[verifier::external_body]
pub(crate) fn incoming(g: &Graph<NodeData, (), Directed, u32>, b: usize) -> (r: Vec<usize>)
    requires
        b <= u32::MAX,
    ensures
        b < graph_nodes(*g).len() ==> r@ == in_sources(graph_edges(*g), b),
        b >= graph_nodes(*g).len() ==> r@.len() == 0,
        forall|k: int| 0 <= k < r@.len() ==> #[trigger] r@[k] < graph_nodes(*g).len(),
{
    g.neighbors_directed(NodeIndex::new(b), Direction::Incoming).map(|n| n.index()).collect()
}

/// `Graph::contains_edge`: whether an edge goes from `a` to `b` (never when
/// `a` is not a node).  Both indices are taken as 32-bit indices, so they
/// must fit in one.
#[verifier::external_body]
pub(crate) fn contains_edge(g: &Graph<NodeData, (), Directed, u32>, a: usize, b: usize) -> (r: bool)
    requires
        a <= u32::MAX,
        b <= u32::MAX,
    ensures
        a < graph_nodes(*g).len() ==> r == graph_edges(*g).contains((a, b)),
        a >= graph_nodes(*g).len() ==> !r,
{
    g.contains_edge(NodeIndex::new(a), NodeIndex::new(b))
}

/// `petgraph::algo::is_cyclic_directed`: whether the graph has a directed
/// cycle.  The search is recursive, so its stack depth grows with the
/// length of the longest path.
#[verifier::external_body]
pub(crate) fn is_cyclic(g: &Graph<NodeData, (), Directed, u32>) -> (r: bool)
    ensures
        r == has_cycle(graph_edges(*g)),
{
    petgraph::algo::is_cyclic_directed(g)
}

} // verus!
