//! Probabilistic DAG (PDAG) builder.
//!
//! A PDAG is a layered directed acyclic graph whose nodes carry gate-type and
//! probability metadata; fault trees and event trees are derived from it.
//!
//! The builder works layer by layer:
//! 1. Layer 0 holds the single root node.
//! 2. Each further layer holds between `nodes_per_layer_min` and
//!    `nodes_per_layer_max` nodes; the nodes of the last layer are basic
//!    events, the others gates.
//! 3. Every node of a layer gets a parent in the layer above (assigned round
//!    robin), and every parent is then given children at random until it has
//!    a drawn target of between `children_per_node_min` and
//!    `children_per_node_max` children, or has every node of the layer below.
//! 4. A fraction of the basic events is shared with further parents of the
//!    penultimate layer, to model common-cause failures.
//!
//! All randomness comes from a ChaCha8 generator seeded with the
//! configuration's seed.  Drawing basic-event probabilities, choosing gate
//! types by their weights and sizing the shared fraction take floating-point
//! values, so the caller supplies those three steps as functions; every other
//! decision is made here.

use vstd::prelude::*;

use petgraph::graph::Graph;
use petgraph::Directed;
use rand_chacha::ChaCha8Rng;

use crate::config::{builds_ok, check_topology, topology_check, topology_error_text, Topology};
use crate::graph::{
    has_cycle, is_walk,
    add_edge, add_node, contains_edge, edge_count, graph_edges, graph_nodes, in_sources, incoming,
    lemma_in_sources_contains, lemma_out_targets_contains,
    lemma_out_targets_push, new_graph, node_count, node_weight, out_targets, outgoing,
};
use crate::rng::{draw_below, draw_inclusive, seeded_generator, seeded_rng};
use crate::fault_tree::distinct_names;
use crate::text::{decimal, lemma_decimal_digits, lemma_decimal_injective, owned, push_decimal};
use vstd::set_lib::{lemma_int_range, lemma_len_subset, set_int_range};

verus! {

// ─── Node data ───────────────────────────────────────────────────────────────

/// The logical operator of a gate node.
#[derive(Debug, Clone, Copy, PartialEq, Eq)]
pub enum GateType {
    And,
    Or,
    /// K-of-N (atleast) gate: true when at least this many children are.
    KofN(usize),
}

/// The type of a node in the PDAG.
#[derive(Debug, Clone, Copy, PartialEq, Eq)]
pub enum NodeKind {
    /// The root gate, the single entry point of the fault tree.
    Root,
    /// An intermediate gate.
    Gate(GateType),
    /// A leaf: a basic event.
    BasicEvent,
}

/// Data stored at each node of the PDAG.
#[derive(Debug, Clone)]
pub struct NodeData {
    /// Identifier such as `"G-1-0"` or `"BE-4-2"`.
    pub name: String,
    /// What kind of node this is.
    pub kind: NodeKind,
    /// For basic events, the failure probability as the bit pattern of an
    /// IEEE-754 double (`f64::to_bits`); `None` for gates.
    pub probability: Option<u64>,
    /// Layer index, 0 for the root.
    pub layer: usize,
    /// Index within the layer.
    pub index_in_layer: usize,
}

/// Which band of a gate-weight distribution a uniform draw fell into.
#[derive(Debug, Clone, Copy, PartialEq, Eq)]
pub enum GateDraw {
    And,
    Or,
    KofN,
}

// ─── PDAG ────────────────────────────────────────────────────────────────────

/// A built PDAG.  Edges point from parent to child.
pub struct Pdag {
    /// The underlying directed graph.
    pub graph: Graph<NodeData, (), Directed, u32>,
    /// The index of the root node.
    pub root: usize,
}

impl Pdag {
    /// The nodes of the graph.
    pub open spec fn nodes(&self) -> Seq<NodeData> {
        graph_nodes(self.graph)
    }

    /// The edges of the graph.
    pub open spec fn edges(&self) -> Seq<(usize, usize)> {
        graph_edges(self.graph)
    }

    /// The indices of all basic-event nodes, in increasing order.
    pub fn basic_events(&self) -> (r: Vec<usize>)
        ensures
            forall|a: int, b: int| 0 <= a < b < r@.len() ==> r@[a] < r@[b],
            forall|i: usize|
                r@.contains(i) <==> (i < self.nodes().len() && self.nodes()[i as int].kind
                    == NodeKind::BasicEvent),
    {
        self.nodes_where(true)
    }

    /// The indices of all gate nodes (the root included), in increasing
    /// order.
    pub fn gates(&self) -> (r: Vec<usize>)
        ensures
            forall|a: int, b: int| 0 <= a < b < r@.len() ==> r@[a] < r@[b],
            forall|i: usize|
                r@.contains(i) <==> (i < self.nodes().len() && self.nodes()[i as int].kind
                    != NodeKind::BasicEvent),
    {
        self.nodes_where(false)
    }

    fn nodes_where(&self, basic: bool) -> (r: Vec<usize>)
        ensures
            forall|a: int, b: int| 0 <= a < b < r@.len() ==> r@[a] < r@[b],
            forall|i: usize|
                r@.contains(i) <==> (i < self.nodes().len() && ((self.nodes()[i as int].kind
                    == NodeKind::BasicEvent) == basic)),
    {
        let n = node_count(&self.graph);
        let mut r: Vec<usize> = Vec::new();
        let mut i: usize = 0;
        while i < n
            invariant
                n == self.nodes().len(),
                i <= n,
                forall|a: int, b: int| 0 <= a < b < r@.len() ==> r@[a] < r@[b],
                forall|k: int| 0 <= k < r@.len() ==> r@[k] < i,
                forall|j: usize|
                    r@.contains(j) <==> (j < i && ((self.nodes()[j as int].kind
                        == NodeKind::BasicEvent) == basic)),
            decreases n - i,
        {
            let is_basic = match node_weight(&self.graph, i).kind {
                NodeKind::BasicEvent => true,
                _ => false,
            };
            let ghost before = r@;
            if is_basic == basic {
                r.push(i);
                assert forall|j: usize|
                    r@.contains(j) <==> (j < i + 1 && ((self.nodes()[j as int].kind
                        == NodeKind::BasicEvent) == basic)) by {
                    if j == i {
                        assert(r@[before.len() as int] == j);
                    }
                    if r@.contains(j) && j != i {
                        let k = choose|k: int| 0 <= k < r@.len() && r@[k] == j;
                        assert(before[k] == j);
                    }
                    if before.contains(j) {
                        let k = choose|k: int| 0 <= k < before.len() && before[k] == j;
                        assert(r@[k] == j);
                    }
                }
            } else {
                assert forall|j: usize|
                    r@.contains(j) <==> (j < i + 1 && ((self.nodes()[j as int].kind
                        == NodeKind::BasicEvent) == basic)) by {
                    if r@.contains(j) {
                        let k = choose|k: int| 0 <= k < r@.len() && r@[k] == j;
                        assert(r@[k] < i);
                    }
                }
            }
            i = i + 1;
        }
        r
    }

    /// The children of `node`, most recently added edge first.
    pub fn children(&self, node: usize) -> (r: Vec<usize>)
        requires
            node <= u32::MAX,
        ensures
            node < self.nodes().len() ==> r@ == out_targets(self.edges(), node),
            node >= self.nodes().len() ==> r@.len() == 0,
    {
        outgoing(&self.graph, node)
    }

    /// The parents of `node`, most recently added edge first.
    pub fn parents(&self, node: usize) -> (r: Vec<usize>)
        requires
            node <= u32::MAX,
        ensures
            node < self.nodes().len() ==> r@ == in_sources(self.edges(), node),
            node >= self.nodes().len() ==> r@.len() == 0,
    {
        incoming(&self.graph, node)
    }

    /// The number of nodes.
    pub fn node_count(&self) -> (n: usize)
        ensures
            n == self.nodes().len(),
            n <= u32::MAX,
    {
        node_count(&self.graph)
    }

    /// The number of edges.
    pub fn edge_count(&self) -> (n: usize)
        ensures
            n == self.edges().len(),
    {
        edge_count(&self.graph)
    }
}

// ─── Errors ──────────────────────────────────────────────────────────────────

/// Errors that can occur during PDAG construction.
#[derive(Debug, Clone, PartialEq, Eq)]
pub enum PdagError {
    /// The configuration broke a rule; the message says which.
    InvalidConfig(String),
    /// Construction failed.
    BuildError(String),
}

impl PdagError {
    /// The human-readable description of the error.
    pub fn message(&self) -> (s: String)
        ensures
            s@ == match self {
                PdagError::InvalidConfig(m) => "config validation failed: "@ + m@,
                PdagError::BuildError(m) => "PDAG construction failed: "@ + m@,
            },
    {
        match self {
            PdagError::InvalidConfig(m) => {
                let mut s = owned("config validation failed: ");
                s.append(m.as_str());
                s
            },
            PdagError::BuildError(m) => {
                let mut s = owned("PDAG construction failed: ");
                s.append(m.as_str());
                s
            },
        }
    }
}

// ─── Shape of a built PDAG ───────────────────────────────────────────────────

/// The largest `k` a K-of-N gate may get: `max(children_per_node_min, 2)`.
pub open spec fn kmax(t: Topology) -> nat {
    if t.children_per_node_min >= 2 {
        t.children_per_node_min as nat
    } else {
        2
    }
}

/// The name of gate `index` of layer `layer`: `G-{layer}-{index}`.
pub open spec fn gate_name(layer: nat, index: nat) -> Seq<char> {
    "G-"@ + decimal(layer) + "-"@ + decimal(index)
}

/// The name of basic event `index` of layer `layer`: `BE-{layer}-{index}`.
pub open spec fn basic_event_name(layer: nat, index: nat) -> Seq<char> {
    "BE-"@ + decimal(layer) + "-"@ + decimal(index)
}

/// The root node: named `root`, in layer 0 at index 0, without probability.
pub open spec fn is_root_node(n: NodeData) -> bool {
    &&& n.name@ == "root"@
    &&& n.kind == NodeKind::Root
    &&& n.probability is None
    &&& n.layer == 0
    &&& n.index_in_layer == 0
}

/// A node below the root: the nodes of the last layer are basic events with
/// a probability, the others gates without one, each named after its place.
pub open spec fn node_fits(t: Topology, n: NodeData) -> bool {
    &&& 1 <= n.layer < t.layers
    &&& n.index_in_layer < t.nodes_per_layer_max
    &&& if n.layer + 1 == t.layers {
        &&& n.kind == NodeKind::BasicEvent
        &&& n.probability is Some
        &&& n.name@ == basic_event_name(n.layer as nat, n.index_in_layer as nat)
    } else {
        &&& n.probability is None
        &&& n.name@ == gate_name(n.layer as nat, n.index_in_layer as nat)
        &&& match n.kind {
            NodeKind::Gate(GateType::KofN(k)) => 2 <= k <= kmax(t),
            NodeKind::Gate(_) => true,
            _ => false,
        }
    }
}

/// Node `b` comes right after node `a`: next in the same layer, or first in
/// the next layer.
pub open spec fn follows(a: NodeData, b: NodeData) -> bool {
    ||| (b.layer == a.layer && b.index_in_layer == a.index_in_layer + 1)
    ||| (b.layer == a.layer + 1 && b.index_in_layer == 0)
}

/// Node `i + 1` comes right after node `i`.
pub open spec fn next_follows(nodes: Seq<NodeData>, i: int) -> bool {
    follows(nodes[i], nodes[i + 1])
}

/// Node `i` is the last node of its layer.
pub open spec fn ends_layer(nodes: Seq<NodeData>, i: int) -> bool {
    i + 1 == nodes.len() || nodes[i + 1].layer != nodes[i].layer
}

/// The layer structure of the nodes: the root alone in layer 0, then layers
/// `1 ..= top`, each holding between `nodes_per_layer_min` and
/// `nodes_per_layer_max` nodes numbered from 0, in order.
pub open spec fn chained(t: Topology, nodes: Seq<NodeData>, top: nat) -> bool {
    &&& nodes.len() >= 1
    &&& nodes[0].layer == 0
    &&& nodes[0].index_in_layer == 0
    &&& forall|i: int|
        1 <= i < nodes.len() ==> 1 <= (#[trigger] nodes[i]).layer && nodes[i].index_in_layer
            < t.nodes_per_layer_max
    &&& forall|i: int| 0 <= i < nodes.len() - 1 ==> #[trigger] next_follows(nodes, i)
    &&& nodes.last().layer == top
    &&& forall|i: int|
        1 <= i < nodes.len() && #[trigger] ends_layer(nodes, i) ==> t.nodes_per_layer_min
            <= nodes[i].index_in_layer + 1
}

/// The nodes form the layers `0 ..= top`: the root first, then gates, then
/// (in layer `layers - 1`) basic events.
pub open spec fn layered_upto(t: Topology, nodes: Seq<NodeData>, top: nat) -> bool {
    &&& chained(t, nodes, top)
    &&& is_root_node(nodes[0])
    &&& forall|i: int| 1 <= i < nodes.len() ==> node_fits(t, #[trigger] nodes[i])
}

/// The nodes of a finished PDAG: all `layers` layers.
pub open spec fn is_layered(t: Topology, nodes: Seq<NodeData>) -> bool {
    layered_upto(t, nodes, (t.layers - 1) as nat)
}

/// An edge goes from a node to a node of the next layer.
pub open spec fn edge_between_layers(nodes: Seq<NodeData>, e: (usize, usize)) -> bool {
    &&& e.0 < nodes.len()
    &&& e.1 < nodes.len()
    &&& nodes[e.1 as int].layer == nodes[e.0 as int].layer + 1
}

/// Some edge enters node `i`.
pub open spec fn has_parent(edges: Seq<(usize, usize)>, i: usize) -> bool {
    exists|k: int| 0 <= k < edges.len() && (#[trigger] edges[k]).1 == i
}

/// Node `p` has at least `children_per_node_min` children, or every node of
/// the next layer as a child.
pub open spec fn has_enough_children(
    t: Topology,
    nodes: Seq<NodeData>,
    edges: Seq<(usize, usize)>,
    p: usize,
) -> bool {
    ||| out_targets(edges, p).len() >= t.children_per_node_min
    ||| forall|c: usize|
        c < nodes.len() && nodes[c as int].layer == nodes[p as int].layer + 1 ==> edges.contains(
            (p, c),
        )
}

/// The edges of a PDAG whose layers below `top` are connected: no edge twice,
/// every edge from a layer to the next, every node below the root with a
/// parent, every node above layer `top` with enough children.
pub open spec fn edges_fit_upto(
    t: Topology,
    nodes: Seq<NodeData>,
    edges: Seq<(usize, usize)>,
    top: nat,
) -> bool {
    &&& edges.no_duplicates()
    &&& forall|k: int| 0 <= k < edges.len() ==> edge_between_layers(nodes, #[trigger] edges[k])
    &&& forall|i: usize| 1 <= i < nodes.len() ==> #[trigger] has_parent(edges, i)
    &&& forall|p: usize|
        p < nodes.len() && nodes[p as int].layer < top ==> #[trigger] has_enough_children(
            t,
            nodes,
            edges,
            p,
        )
}

/// The edges of a finished PDAG.
pub open spec fn edges_fit(t: Topology, nodes: Seq<NodeData>, edges: Seq<(usize, usize)>) -> bool {
    edges_fit_upto(t, nodes, edges, (t.layers - 1) as nat)
}

/// The graph sizes stay within petgraph's 32-bit indices whatever the random
/// draws: at most `1 + (layers - 1) * nodes_per_layer_max` nodes, and at
/// most `nodes_per_layer_max * (1 + children_per_node_max)` edges per
/// connected layer plus `nodes_per_layer_max²` shared-event edges.
pub open spec fn within_index_limits(t: Topology) -> bool {
    &&& 1 + (t.layers - 1) * t.nodes_per_layer_max < u32::MAX
    &&& (t.layers - 1) * (t.nodes_per_layer_max + t.nodes_per_layer_max * t.children_per_node_max)
        + t.nodes_per_layer_max * t.nodes_per_layer_max < u32::MAX
}

/// Every probability that a node carries is a value that `sample` can
/// return.
pub open spec fn probabilities_drawn_by<P: Fn(&mut ChaCha8Rng) -> u64>(nodes: Seq<NodeData>, sample: P) -> bool {
    forall|i: int|
        0 <= i < nodes.len() && (#[trigger] nodes[i]).probability is Some ==> exists|r: &mut ChaCha8Rng|
            sample.ensures((r,), nodes[i].probability->0)
}

/// The probabilities of the nodes from `start` on, in node order.
pub open spec fn probabilities_from(nodes: Seq<NodeData>, start: int) -> Seq<u64> {
    Seq::new((nodes.len() - start) as nat, |j: int| nodes[start + j].probability->0)
}

/// Gate type `g` fits the band `d`: an AND band gives an AND gate, an OR
/// band an OR gate, a K-of-N band a K-of-N gate with `k` between 2 and
/// `kmax(t)`.
pub open spec fn gate_type_of_draw(t: Topology, d: GateDraw, g: GateType) -> bool {
    match d {
        GateDraw::And => g == GateType::And,
        GateDraw::Or => g == GateType::Or,
        GateDraw::KofN => g matches GateType::KofN(k) && 2 <= k <= kmax(t),
    }
}

/// Every gate node's type comes from a band that `sample` can return.
pub open spec fn gate_types_drawn_by<G: Fn(&mut ChaCha8Rng) -> GateDraw>(
    t: Topology,
    nodes: Seq<NodeData>,
    sample: G,
) -> bool {
    forall|i: int|
        0 <= i < nodes.len() && (#[trigger] nodes[i]).kind is Gate ==> exists|
            r: &mut ChaCha8Rng,
            d: GateDraw,
        | sample.ensures((r,), d) && gate_type_of_draw(t, d, nodes[i].kind->Gate_0)
}

/// Whether a topology that the builder accepts stays within petgraph's
/// 32-bit indices (see [`within_index_limits`]); building a larger one
/// would make petgraph panic.
pub fn index_limits_hold(t: &Topology) -> (r: bool)
    requires
        builds_ok(*t),
    ensures
        r == within_index_limits(*t),
{
    let limit: u128 = 0xFFFF_FFFF;
    let below = (t.layers - 1) as u128;
    let n = t.nodes_per_layer_max as u128;
    let c = t.children_per_node_max as u128;
    assert(below * n <= 0xFFFF_FFFF_FFFF_FFFFu128 * 0xFFFF_FFFF_FFFF_FFFFu128) by (nonlinear_arith)
        requires
            below <= 0xFFFF_FFFF_FFFF_FFFFu128,
            n <= 0xFFFF_FFFF_FFFF_FFFFu128,
    ;
    let nodes_total = 1 + below * n;
    if nodes_total >= limit {
        return false;
    }
    assert(n * c <= 0xFFFF_FFFF_FFFF_FFFFu128 * 0xFFFF_FFFF_FFFF_FFFFu128) by (nonlinear_arith)
        requires
            c <= 0xFFFF_FFFF_FFFF_FFFFu128,
            n <= 0xFFFF_FFFF_FFFF_FFFFu128,
    ;
    assert(n * n <= 0xFFFF_FFFF_FFFF_FFFFu128 * 0xFFFF_FFFF_FFFF_FFFFu128) by (nonlinear_arith)
        requires
            n <= 0xFFFF_FFFF_FFFF_FFFFu128,
    ;
    let per_layer = n + n * c;
    let shared = n * n;
    if shared >= limit {
        assert(below * per_layer >= 0) by (nonlinear_arith)
            requires
                below >= 0,
                per_layer >= 0,
        ;
        return false;
    }
    if below > 0 && per_layer >= limit {
        assert(below * per_layer >= per_layer) by (nonlinear_arith)
            requires
                below >= 1,
                per_layer >= 0,
        ;
        return false;
    }
    assert(below * per_layer <= 0xFFFF_FFFF_FFFF_FFFFu128 * 0xFFFF_FFFFu128) by (nonlinear_arith)
        requires
            below <= 0xFFFF_FFFF_FFFF_FFFFu128,
            below == 0 || per_layer < 0xFFFF_FFFFu128,
    ;
    below * per_layer + shared < limit
}

/// `v` lists the integers `start, start + 1, …, start + len - 1`.
pub open spec fn is_run(v: Seq<usize>, start: int, len: int) -> bool {
    &&& v.len() == len
    &&& forall|k: int| 0 <= k < len ==> #[trigger] v[k] == start + k
}

// ─── Builder helpers ─────────────────────────────────────────────────────────

/// Edges added after position `base` all leave `a`; they change nothing
/// about the children of another node `p`.
proof fn lemma_out_targets_extend(edges: Seq<(usize, usize)>, base: int, a: usize, p: usize)
    requires
        0 <= base <= edges.len(),
        forall|k: int| base <= k < edges.len() ==> (#[trigger] edges[k]).0 == a,
        p != a,
    ensures
        out_targets(edges, p) == out_targets(edges.subrange(0, base), p),
    decreases edges.len(),
{
    if edges.len() > base {
        let rest = edges.drop_last();
        assert forall|k: int| base <= k < rest.len() implies (#[trigger] rest[k]).0 == a by {
            assert(rest[k] == edges[k]);
        }
        lemma_out_targets_extend(rest, base, a, p);
        assert(rest.subrange(0, base) =~= edges.subrange(0, base));
    } else {
        assert(edges.subrange(0, base) =~= edges);
    }
}

fn vec_contains(v: &Vec<usize>, x: usize) -> (r: bool)
    ensures
        r == v@.contains(x),
{
    let mut k: usize = 0;
    while k < v.len()
        invariant
            k <= v@.len(),
            forall|j: int| 0 <= j < k ==> v@[j] != x,
        decreases v@.len() - k,
    {
        if v[k] == x {
            return true;
        }
        k = k + 1;
    }
    false
}

proof fn lemma_push_no_duplicates<A>(s: Seq<A>, x: A)
    requires
        s.no_duplicates(),
        !s.contains(x),
    ensures
        s.push(x).no_duplicates(),
{
    assert forall|i: int, j: int|
        0 <= i < s.push(x).len() && 0 <= j < s.push(x).len() && i != j implies s.push(x)[i]
        != s.push(x)[j] by {
        if i == s.len() {
            assert(s[j] == s.push(x)[j]);
        } else if j == s.len() {
            assert(s[i] == s.push(x)[i]);
        }
    }
}

/// How many of `n_children` children fall to parent `j` of `n_parents`
/// when child `k` goes to parent `k % n_parents`.
pub open spec fn round_robin_count(n_children: int, n_parents: int, j: int) -> int {
    (n_children + n_parents - 1 - j) / n_parents
}

/// One more child adds one to the count of the parent it falls to.
proof fn lemma_round_robin_step(i: int, n: int, j: int)
    requires
        0 <= i,
        0 <= j < n,
    ensures
        round_robin_count(i + 1, n, j) == round_robin_count(i, n, j) + if i % n == j {
            1int
        } else {
            0int
        },
{
    let q = i / n;
    let r = i % n;
    vstd::arithmetic::div_mod::lemma_fundamental_div_mod(i, n);
    assert(n * q == q * n) by (nonlinear_arith);
    assert((q + 1) * n == q * n + n) by (nonlinear_arith);
    assert(0 <= r < n);
    if r == j {
        vstd::arithmetic::div_mod::lemma_fundamental_div_mod_converse(i + n - 1 - j, n, q, n - 1);
        vstd::arithmetic::div_mod::lemma_fundamental_div_mod_converse(i + n - j, n, q + 1, 0);
    } else if r > j {
        vstd::arithmetic::div_mod::lemma_fundamental_div_mod_converse(
            i + n - 1 - j,
            n,
            q + 1,
            r - j - 1,
        );
        vstd::arithmetic::div_mod::lemma_fundamental_div_mod_converse(i + n - j, n, q + 1, r - j);
    } else {
        vstd::arithmetic::div_mod::lemma_fundamental_div_mod_converse(
            i + n - 1 - j,
            n,
            q,
            n + r - j - 1,
        );
        vstd::arithmetic::div_mod::lemma_fundamental_div_mod_converse(i + n - j, n, q, n + r - j);
    }
}

/// No parent gets more than `m` children round robin when there are at
/// most `m` children per parent.
proof fn lemma_round_robin_bound(nc: int, n: int, j: int, m: int)
    requires
        0 <= j < n,
        0 <= nc <= n * m,
    ensures
        round_robin_count(nc, n, j) <= m,
{
    let x = nc + n - 1 - j;
    vstd::arithmetic::div_mod::lemma_fundamental_div_mod(x, n);
    let d = x / n;
    let r = x % n;
    assert(0 <= r);
    assert(n * (m + 1) == n * m + n) by (nonlinear_arith);
    assert(d <= m) by (nonlinear_arith)
        requires
            x == n * d + r,
            0 <= r,
            x < n * (m + 1),
            n > 0,
    ;
}

/// Gives every node of `children` a parent of `parents`, round robin, then
/// gives every parent children at random until it has a drawn target of
/// between `children_per_node_min` and `children_per_node_max` children or
/// has all of `children`.
fn connect_layers(
    t: &Topology,
    rng: &mut ChaCha8Rng,
    graph: &mut Graph<NodeData, (), Directed, u32>,
    parents: &Vec<usize>,
    children: &Vec<usize>,
    Ghost(ps): Ghost<int>,
    Ghost(cs): Ghost<int>,
)
    requires
        builds_ok(*t),
        0 <= ps < cs,
        is_run(parents@, ps, cs - ps),
        is_run(children@, cs, graph_nodes(*old(graph)).len() - cs),
        children@.len() >= 1,
        graph_nodes(*old(graph)).len() < u32::MAX,
        graph_edges(*old(graph)).no_duplicates(),
        forall|k: int|
            0 <= k < graph_edges(*old(graph)).len() ==> (#[trigger] graph_edges(*old(graph))[k]).0
                < ps && graph_edges(*old(graph))[k].1 < cs,
        graph_edges(*old(graph)).len() + children@.len() + parents@.len()
            * t.children_per_node_max < u32::MAX,
    ensures
        graph_nodes(*final(graph)) == graph_nodes(*old(graph)),
        graph_edges(*final(graph)).len() <= graph_edges(*old(graph)).len() + children@.len()
            + parents@.len() * t.children_per_node_max,
        graph_edges(*final(graph)).len() >= graph_edges(*old(graph)).len(),
        graph_edges(*final(graph)).subrange(0, graph_edges(*old(graph)).len() as int)
            == graph_edges(*old(graph)),
        graph_edges(*final(graph)).no_duplicates(),
        forall|k: int|
            graph_edges(*old(graph)).len() <= k < graph_edges(*final(graph)).len() ==> {
                let e = #[trigger] graph_edges(*final(graph))[k];
                ps <= e.0 < cs && cs <= e.1 < graph_nodes(*old(graph)).len()
            },
        forall|c: usize|
            cs <= c < graph_nodes(*old(graph)).len() ==> #[trigger] has_parent(
                graph_edges(*final(graph)),
                c,
            ),
        forall|p: usize|
            ps <= p < cs ==> #[trigger] out_targets(graph_edges(*final(graph)), p).len()
                >= t.children_per_node_min || forall|c: usize|
                cs <= c < graph_nodes(*old(graph)).len() ==> graph_edges(
                    *final(graph),
                ).contains((p, c)),
        graph_edges(*final(graph)).len() >= graph_edges(*old(graph)).len() + children@.len(),
        forall|k: int|
            0 <= k < children@.len() ==> #[trigger] graph_edges(*final(graph))[graph_edges(
                *old(graph),
            ).len() + k] == (parents@[k % parents@.len() as int], children@[k]),
        forall|p: usize|
            ps <= p < cs ==> #[trigger] out_targets(graph_edges(*final(graph)), p).len()
                <= round_robin_count(children@.len() as int, parents@.len() as int, p - ps)
                || out_targets(graph_edges(*final(graph)), p).len() <= t.children_per_node_max,
{
    let ghost nodes0 = graph_nodes(*graph);
    let ghost edges0 = graph_edges(*graph);
    let ghost e0 = edges0.len() as int;
    let ghost total = nodes0.len() as int;
    let np = parents.len();
    let nc = children.len();

    proof {
        assert forall|p: usize| ps <= p < cs implies #[trigger] out_targets(edges0, p).len()
            == round_robin_count(0, np as int, p - ps) by {
            let o = out_targets(edges0, p);
            if o.len() > 0 {
                lemma_out_targets_contains(edges0, p, o[0]);
                assert(o.contains(o[0]));
                let k = choose|k: int| 0 <= k < edges0.len() && edges0[k] == (p, o[0]);
                assert(edges0[k].0 < ps);
            }
            assert(round_robin_count(0, np as int, p - ps) == 0) by {
                vstd::arithmetic::div_mod::lemma_fundamental_div_mod_converse(
                    np - 1 - (p - ps),
                    np as int,
                    0,
                    np - 1 - (p - ps),
                );
            }
        }
    }
    // Guarantee every child is referenced by at least one parent.
    let mut i: usize = 0;
    while i < nc
        invariant
            np == parents@.len(),
            nc == children@.len(),
            np >= 1,
            is_run(parents@, ps, np as int),
            is_run(children@, cs, nc as int),
            ps + np == cs,
            cs + nc == total,
            total == nodes0.len(),
            total < u32::MAX,
            e0 == edges0.len(),
            i <= nc,
            graph_nodes(*graph) == nodes0,
            graph_edges(*graph).len() == e0 + i,
            graph_edges(*graph).subrange(0, e0) == edges0,
            forall|k: int|
                0 <= k < i ==> #[trigger] graph_edges(*graph)[e0 + k] == (
                    (ps + k % (np as int)) as usize,
                    (cs + k) as usize,
                ),
            edges0.no_duplicates(),
            forall|k: int| 0 <= k < e0 ==> (#[trigger] edges0[k]).0 < ps && edges0[k].1 < cs,
            e0 + nc + np * t.children_per_node_max < u32::MAX,
            forall|p: usize|
                ps <= p < cs ==> #[trigger] out_targets(graph_edges(*graph), p).len()
                    == round_robin_count(i as int, np as int, p - ps),
        decreases nc - i,
    {
        let parent = parents[i % np];
        assert(i % np < np);
        let ghost before = graph_edges(*graph);
        add_edge(graph, parent, children[i]);
        proof {
            let after = graph_edges(*graph);
            assert(after =~= before.push((parent, children@[i as int])));
            assert forall|p: usize| ps <= p < cs implies #[trigger] out_targets(after, p).len()
                == round_robin_count(i + 1, np as int, p - ps) by {
                lemma_out_targets_push(before, (parent, children@[i as int]), p);
                lemma_round_robin_step(i as int, np as int, p - ps);
            }
            assert(after.subrange(0, e0) =~= before.subrange(0, e0));
            assert forall|k: int| 0 <= k < i + 1 implies #[trigger] after[e0 + k] == (
                (ps + k % (np as int)) as usize,
                (cs + k) as usize,
            ) by {
                if k < i {
                    assert(after[e0 + k] == before[e0 + k]);
                }
            }
        }
        i = i + 1;
    }
    proof {
        let edges = graph_edges(*graph);
        assert forall|a: int, b: int|
            0 <= a < edges.len() && 0 <= b < edges.len() && a != b implies edges[a] != edges[b] by {
            if a < e0 {
                assert(edges.subrange(0, e0)[a] == edges[a]);
            }
            if b < e0 {
                assert(edges.subrange(0, e0)[b] == edges[b]);
            }
            if a >= e0 {
                assert(edges[e0 + (a - e0)] == ((ps + (a - e0) % (np as int)) as usize, (cs + (a
                    - e0)) as usize));
            }
            if b >= e0 {
                assert(edges[e0 + (b - e0)] == ((ps + (b - e0) % (np as int)) as usize, (cs + (b
                    - e0)) as usize));
            }
            if a < e0 && b < e0 {
                assert(edges0[a] != edges0[b]);
            } else if a < e0 {
                assert(edges0[a].1 < cs);
            } else if b < e0 {
                assert(edges0[b].1 < cs);
            }
        }
        assert forall|c: usize| cs <= c < total implies #[trigger] has_parent(
            graph_edges(*graph),
            c,
        ) by {
            assert(graph_edges(*graph)[e0 + (c - cs)].1 == c);
        }
        assert forall|k: int| e0 <= k < edges.len() implies {
            let e = #[trigger] edges[k];
            ps <= e.0 < cs && cs <= e.1 < total
        } by {
            assert(edges[e0 + (k - e0)] == ((ps + (k - e0) % (np as int)) as usize, (cs + (k
                - e0)) as usize));
        }
    }

    let ghost rr = graph_edges(*graph);
    // Give every parent children at random up to its drawn target.
    let mut j: usize = 0;
    while j < np
        invariant
            rr.len() == e0 + nc,
            forall|k: int|
                0 <= k < nc ==> #[trigger] rr[e0 + k] == (
                    (ps + k % (np as int)) as usize,
                    (cs + k) as usize,
                ),
            graph_edges(*graph).len() >= e0 + nc,
            graph_edges(*graph).subrange(0, e0 + nc) == rr,
            forall|p: usize|
                ps <= p < cs ==> #[trigger] out_targets(graph_edges(*graph), p).len()
                    <= round_robin_count(nc as int, np as int, p - ps) || out_targets(
                    graph_edges(*graph),
                    p,
                ).len() <= t.children_per_node_max,
            np == parents@.len(),
            nc == children@.len(),
            np >= 1,
            builds_ok(*t),
            is_run(parents@, ps, np as int),
            is_run(children@, cs, nc as int),
            ps + np == cs,
            cs + nc == total,
            total == nodes0.len(),
            total < u32::MAX,
            e0 == edges0.len(),
            j <= np,
            graph_nodes(*graph) == nodes0,
            graph_edges(*graph).subrange(0, e0) == edges0,
            graph_edges(*graph).len() >= e0,
            graph_edges(*graph).len() <= e0 + nc + j * t.children_per_node_max,
            e0 + nc + np * t.children_per_node_max < u32::MAX,
            graph_edges(*graph).no_duplicates(),
            forall|k: int|
                e0 <= k < graph_edges(*graph).len() ==> {
                    let e = #[trigger] graph_edges(*graph)[k];
                    ps <= e.0 < cs && cs <= e.1 < total
                },
            forall|c: usize| cs <= c < total ==> #[trigger] has_parent(graph_edges(*graph), c),
            forall|p: usize|
                ps <= p < ps + j ==> #[trigger] out_targets(graph_edges(*graph), p).len()
                    >= t.children_per_node_min || forall|c: usize|
                    cs <= c < total ==> graph_edges(*graph).contains((p, c)),
        decreases np - j,
    {
        let parent = parents[j];
        let mut connected = outgoing(graph, parent);
        let current = connected.len();
        let target = draw_inclusive(rng, t.children_per_node_min, t.children_per_node_max);
        let ghost ej = graph_edges(*graph).len() as int;
        let ghost edges_j = graph_edges(*graph);
        proof {
            assert((j + 1) * t.children_per_node_max <= np * t.children_per_node_max) by (nonlinear_arith)
                requires
                    j + 1 <= np,
            ;
            assert((j + 1) * t.children_per_node_max == j * t.children_per_node_max
                + t.children_per_node_max) by (nonlinear_arith);
        }
        if current < target {
            let mut done = false;
            while !done && connected.len() < target
                invariant
                    nc == children@.len(),
                    is_run(children@, cs, nc as int),
                    cs + nc == total,
                    total == nodes0.len(),
                    e0 == edges0.len(),
                    ps <= parent < cs,
                    graph_nodes(*graph) == nodes0,
                    graph_edges(*graph).subrange(0, e0) == edges0,
                    graph_edges(*graph).len() >= ej,
                    ej >= e0,
                    graph_edges(*graph).subrange(0, ej) == edges_j,
                    graph_edges(*graph).len() - ej == connected@.len() - current,
                    current <= connected@.len() <= target,
                    target <= t.children_per_node_max,
                    ej + target - current < u32::MAX,
                    connected@.len() == out_targets(graph_edges(*graph), parent).len(),
                    forall|x: usize|
                        connected@.contains(x) <==> out_targets(graph_edges(*graph), parent).contains(
                            x,
                        ),
                    graph_edges(*graph).no_duplicates(),
                    forall|k: int|
                        e0 <= k < graph_edges(*graph).len() ==> {
                            let e = #[trigger] graph_edges(*graph)[k];
                            ps <= e.0 < cs && cs <= e.1 < total
                        },
                    forall|k: int|
                        ej <= k < graph_edges(*graph).len() ==> (#[trigger] graph_edges(
                            *graph,
                        )[k]).0 == parent,
                    done ==> forall|c: usize| cs <= c < total ==> connected@.contains(c),
                decreases target - connected@.len(), if done {
                    0int
                } else {
                    1int
                },
            {
                let mut candidates: Vec<usize> = Vec::new();
                let mut k: usize = 0;
                while k < nc
                    invariant
                        nc == children@.len(),
                        is_run(children@, cs, nc as int),
                        k <= nc,
                        forall|m: int|
                            0 <= m < candidates@.len() ==> cs <= #[trigger] candidates@[m] < cs + nc
                                && !connected@.contains(candidates@[m]),
                        forall|m: int|
                            0 <= m < k && !connected@.contains(#[trigger] children@[m])
                                ==> candidates@.contains(children@[m]),
                    decreases nc - k,
                {
                    let c = children[k];
                    if !vec_contains(&connected, c) {
                        let ghost before = candidates@;
                        candidates.push(c);
                        assert(candidates@[candidates@.len() - 1] == c);
                        assert forall|x: usize| before.contains(x) implies candidates@.contains(x) by {
                            let q = choose|q: int| 0 <= q < before.len() && before[q] == x;
                            assert(candidates@[q] == x);
                        }
                    }
                    k = k + 1;
                }
                if candidates.len() == 0 {
                    done = true;
                    assert forall|c: usize| cs <= c < total implies connected@.contains(c) by {
                        assert(children@[c - cs] == c);
                    }
                } else {
                    let child = candidates[draw_below(rng, candidates.len())];
                    let ghost before = graph_edges(*graph);
                    proof {
                        lemma_out_targets_contains(before, parent, child);
                    }
                    add_edge(graph, parent, child);
                    let ghost conn_before = connected@;
                    connected.push(child);
                    proof {
                        let after = graph_edges(*graph);
                        lemma_push_no_duplicates(before, (parent, child));
                        lemma_out_targets_push(before, (parent, child), parent);
                        assert(after.subrange(0, e0) =~= before.subrange(0, e0));
                        assert(after.subrange(0, ej) =~= before.subrange(0, ej));
                        assert forall|x: usize|
                            connected@.contains(x) <==> out_targets(after, parent).contains(x) by {
                            let o = out_targets(before, parent);
                            assert(out_targets(after, parent) =~= seq![child] + o);
                            if connected@.contains(x) {
                                let m = choose|m: int| 0 <= m < connected@.len() && connected@[m] == x;
                                if m < connected@.len() - 1 {
                                    assert(conn_before[m] == x);
                                    assert(conn_before.contains(x));
                                    assert(o.contains(x));
                                    let q = choose|q: int| 0 <= q < o.len() && o[q] == x;
                                    assert(out_targets(after, parent)[q + 1] == x);
                                } else {
                                    assert(out_targets(after, parent)[0] == x);
                                }
                            }
                            if out_targets(after, parent).contains(x) {
                                let q = choose|q: int|
                                    0 <= q < out_targets(after, parent).len() && out_targets(
                                        after,
                                        parent,
                                    )[q] == x;
                                if q == 0 {
                                    assert(connected@[connected@.len() - 1] == x);
                                } else {
                                    assert(o[q - 1] == x);
                                    assert(conn_before.contains(x));
                                    let m = choose|m: int|
                                        0 <= m < conn_before.len() && conn_before[m] == x;
                                    assert(connected@[m] == x);
                                }
                            }
                        }
                        assert forall|k: int| e0 <= k < after.len() implies {
                            let e = #[trigger] after[k];
                            ps <= e.0 < cs && cs <= e.1 < total
                        } by {
                            if k < before.len() {
                                assert(after[k] == before[k]);
                            }
                        }
                        assert forall|k: int| ej <= k < after.len() implies (#[trigger] after[k]).0
                            == parent by {
                            if k < before.len() {
                                assert(after[k] == before[k]);
                            }
                        }
                    }
                }
            }
        }
        proof {
            let edges = graph_edges(*graph);
            assert forall|k: int| 0 <= k < ej implies edges[k] == edges_j[k] by {
                assert(edges.subrange(0, ej)[k] == edges[k]);
            }
            assert(edges.subrange(0, e0 + nc) =~= rr) by {
                assert forall|k: int| 0 <= k < e0 + nc implies edges[k] == rr[k] by {
                    assert(edges_j.subrange(0, e0 + nc)[k] == edges_j[k]);
                }
            }
            assert forall|p: usize| ps <= p < cs implies #[trigger] out_targets(edges, p).len()
                <= round_robin_count(nc as int, np as int, p - ps) || out_targets(edges, p).len()
                <= t.children_per_node_max by {
                if p == parent {
                    if connected@.len() > t.children_per_node_max {
                        assert(edges == edges_j);
                    }
                } else {
                    lemma_out_targets_extend(edges, ej, parent, p);
                    assert(edges.subrange(0, ej) =~= edges_j);
                }
            }
            assert(edges.len() <= e0 + nc + (j + 1) * t.children_per_node_max);
            assert forall|c: usize| cs <= c < total implies #[trigger] has_parent(edges, c) by {
                assert(has_parent(edges_j, c));
                let k = choose|k: int| 0 <= k < edges_j.len() && (#[trigger] edges_j[k]).1 == c;
                assert(edges.subrange(0, ej)[k] == edges[k]);
            }
            assert forall|p: usize| ps <= p < ps + j + 1 implies #[trigger] out_targets(edges, p).len()
                >= t.children_per_node_min || forall|c: usize|
                cs <= c < total ==> edges.contains((p, c)) by {
                if p == parent {
                    if connected@.len() < t.children_per_node_min {
                        assert forall|c: usize| cs <= c < total implies edges.contains((p, c)) by {
                            assert(connected@.contains(c));
                            lemma_out_targets_contains(edges, p, c);
                        }
                    }
                } else {
                    lemma_out_targets_extend(edges, ej, parent, p);
                    assert(edges.subrange(0, ej) == edges_j);
                    if out_targets(edges_j, p).len() < t.children_per_node_min {
                        assert forall|c: usize| cs <= c < total implies edges.contains((p, c)) by {
                            assert(edges_j.contains((p, c)));
                            let m = choose|m: int| 0 <= m < edges_j.len() && edges_j[m] == (p, c);
                            assert(edges[m] == (p, c));
                        }
                    }
                }
            }
        }
        j = j + 1;
    }
    proof {
        let edges = graph_edges(*graph);
        assert forall|k: int| 0 <= k < nc implies #[trigger] edges[e0 + k] == (
            parents@[k % (np as int)],
            children@[k],
        ) by {
            assert(edges.subrange(0, e0 + nc)[e0 + k] == edges[e0 + k]);
            assert(0 <= k % (np as int) < np);
        }
    }
}

/// Inserts `x` into a strictly increasing list of indices, unless it is
/// there.
fn insert_index(set: &mut Vec<usize>, x: usize)
    requires
        forall|a: int, b: int| 0 <= a < b < old(set)@.len() ==> old(set)@[a] < old(set)@[b],
    ensures
        forall|a: int, b: int| 0 <= a < b < final(set)@.len() ==> final(set)@[a] < final(set)@[b],
        forall|y: usize| #[trigger] final(set)@.contains(y) <==> (old(set)@.contains(y) || y == x),
{
    let ghost before = set@;
    let n = set.len();
    let mut p: usize = 0;
    while p < n && set[p] < x
        invariant
            n == set@.len(),
            set@ == before,
            p <= n,
            forall|a: int| 0 <= a < p ==> set@[a] < x,
        decreases n - p,
    {
        p = p + 1;
    }
    if p < n && set[p] == x {
        assert forall|y: usize| #[trigger] set@.contains(y) <==> (before.contains(y) || y == x) by {
            if y == x {
                assert(set@[p as int] == y);
            }
        }
        return;
    }
    set.insert(p, x);
    proof {
        let after = set@;
        assert(after =~= before.insert(p as int, x));
        assert forall|a: int, b: int| 0 <= a < b < after.len() implies after[a] < after[b] by {
            if b < p {
                assert(after[a] == before[a] && after[b] == before[b]);
            } else if b == p {
                assert(after[a] == before[a]);
            } else if a == p {
                assert(after[b] == before[b - 1]);
                if b - 1 > p {
                    assert(before[p as int] < before[b - 1]);
                }
            } else if a < p {
                assert(after[a] == before[a]);
                assert(after[b] == before[b - 1]);
                assert(before[a] < x);
                if b - 1 > p {
                    assert(before[p as int] < before[b - 1]);
                }
            } else {
                assert(after[a] == before[a - 1] && after[b] == before[b - 1]);
            }
        }
        assert forall|y: usize| #[trigger] after.contains(y) implies (before.contains(y) || y == x) by {
            let k = choose|k: int| 0 <= k < after.len() && after[k] == y;
            if k < p {
                assert(before[k] == y);
            } else if k > p {
                assert(before[k - 1] == y);
            }
        }
        assert forall|y: usize| (before.contains(y) || y == x) implies #[trigger] after.contains(y) by {
            if y == x {
                assert(after[p as int] == y);
            } else {
                let k = choose|k: int| 0 <= k < before.len() && before[k] == y;
                if k < p {
                    assert(after[k] == y);
                } else {
                    assert(after[k + 1] == y);
                }
            }
        }
    }
}

/// The position of the pair `(a, b)` in a row-major grid of `width`
/// columns: distinct pairs of the grid have distinct positions.
proof fn lemma_grid_position(a0: int, b0: int, a1: int, b1: int, width: int)
    requires
        0 <= a0,
        0 <= a1,
        0 <= b0 < width,
        0 <= b1 < width,
        a0 * width + b0 == a1 * width + b1,
    ensures
        a0 == a1,
        b0 == b1,
{
    if a0 < a1 {
        assert(a0 * width + b0 < a1 * width) by (nonlinear_arith)
            requires
                a0 < a1,
                0 <= b0 < width,
        ;
    } else if a1 < a0 {
        assert(a1 * width + b1 < a0 * width) by (nonlinear_arith)
            requires
                a1 < a0,
                0 <= b1 < width,
        ;
    }
}

/// The nodes from which an edge enters one of `leaves`.
pub open spec fn leaf_parents(edges: Seq<(usize, usize)>, leaves: Seq<usize>) -> Set<usize> {
    Set::new(
        |p: usize|
            exists|k: int, m: int|
                0 <= k < edges.len() && 0 <= m < leaves.len() && #[trigger] edges[k] == (
                p,
                #[trigger] leaves[m],
            ),
    )
}

/// How many further parents each shared basic event is offered.
pub open spec fn extra_parent_count(t: Topology) -> nat {
    if t.common_basic_event_parents >= 1 {
        (t.common_basic_event_parents - 1) as nat
    } else {
        0
    }
}

/// The edges once the drawn parents are linked, in order: draw `d` links
/// `draws[d]` to the leaf `leaves[(d / per_leaf) % leaves.len()]`, unless
/// that edge is already there.
pub open spec fn edges_after_draws(
    edges: Seq<(usize, usize)>,
    draws: Seq<usize>,
    leaves: Seq<usize>,
    per_leaf: nat,
) -> Seq<(usize, usize)>
    decreases draws.len(),
{
    if draws.len() == 0 {
        edges
    } else {
        let before = edges_after_draws(edges, draws.drop_last(), leaves, per_leaf);
        let d = draws.len() - 1;
        let e = (draws.last(), leaves[(d / per_leaf as int) % leaves.len() as int]);
        if before.contains(e) {
            before
        } else {
            before.push(e)
        }
    }
}

/// `edges` is what sharing the leaves `leaves` makes of `connected`: with
/// `c` a count that `common_count` gives for the number of leaves, `c`
/// leaves taken round robin are each offered `per_leaf` parents drawn among
/// the parents of the leaves (no draw when the leaves have no parent), and
/// each drawn parent is linked to its leaf unless it already is.
pub open spec fn shared_by_draws<C: Fn(usize) -> usize>(
    connected: Seq<(usize, usize)>,
    leaves: Seq<usize>,
    edges: Seq<(usize, usize)>,
    per_leaf: nat,
    common_count: C,
) -> bool {
    exists|c: usize, draws: Seq<usize>|
        #![trigger common_count.ensures((leaves.len() as usize,), c), draws.len()]
        {
            &&& common_count.ensures((leaves.len() as usize,), c)
            &&& draws.len() == if leaf_parents(connected, leaves).is_empty() {
                0
            } else {
                c * per_leaf
            }
            &&& forall|d: int|
                0 <= d < draws.len() ==> leaf_parents(connected, leaves).contains(#[trigger] draws[d])
            &&& edges == edges_after_draws(connected, draws, leaves, per_leaf)
        }
}

/// The node indices `start, start + 1, …, end - 1`.
pub open spec fn index_run(start: int, end: int) -> Seq<usize> {
    Seq::new((end - start) as nat, |k: int| (start + k) as usize)
}

/// The edges of a built PDAG: the layers' edges `connected`, which fit the
/// topology (and give no node more than `children_per_node_max` children
/// when no layer can have more nodes than that), and then, with two layers
/// or more, the leaves (the nodes from `leaf_start` on, the last layer)
/// shared with further parents.
pub open spec fn built_edges<C: Fn(usize) -> usize>(
    t: Topology,
    nodes: Seq<NodeData>,
    connected: Seq<(usize, usize)>,
    leaf_start: int,
    edges: Seq<(usize, usize)>,
    common_count: C,
) -> bool {
    &&& 0 <= leaf_start < nodes.len()
    &&& forall|i: int|
        0 <= i < nodes.len() ==> ((#[trigger] nodes[i]).layer == t.layers - 1) == (leaf_start <= i)
    &&& edges_fit(t, nodes, connected)
    &&& t.nodes_per_layer_max <= t.children_per_node_max ==> (forall|g: usize|
        g < leaf_start ==> #[trigger] out_targets(connected, g).len() <= t.children_per_node_max)
    &&& if t.layers >= 2 {
        shared_by_draws(
            connected,
            index_run(leaf_start, nodes.len() as int),
            edges,
            extra_parent_count(t),
            common_count,
        )
    } else {
        edges == connected
    }
}

/// Shares basic events with further parents: for each of the first
/// `common_count(leaf count)` leaves (taken round robin), draws
/// `common_basic_event_parents - 1` parents among the parents of the leaves
/// and adds each drawn parent's edge to the leaf unless it exists.
fn introduce_common_events<C: Fn(usize) -> usize>(
    t: &Topology,
    rng: &mut ChaCha8Rng,
    graph: &mut Graph<NodeData, (), Directed, u32>,
    leaf_layer: &Vec<usize>,
    common_count: &C,
    Ghost(ps): Ghost<int>,
    Ghost(ls): Ghost<int>,
)
    requires
        0 <= ps < ls,
        is_run(leaf_layer@, ls, graph_nodes(*old(graph)).len() - ls),
        leaf_layer@.len() >= 1,
        graph_nodes(*old(graph)).len() < u32::MAX,
        graph_edges(*old(graph)).no_duplicates(),
        forall|k: int|
            0 <= k < graph_edges(*old(graph)).len() && (#[trigger] graph_edges(*old(graph))[k]).1
                >= ls ==> ps <= graph_edges(*old(graph))[k].0 < ls,
        graph_edges(*old(graph)).len() + (ls - ps) * leaf_layer@.len() < u32::MAX,
        forall|n: usize| common_count.requires((n,)),
    ensures
        graph_nodes(*final(graph)) == graph_nodes(*old(graph)),
        graph_edges(*final(graph)).len() <= graph_edges(*old(graph)).len() + (ls - ps)
            * leaf_layer@.len(),
        graph_edges(*final(graph)).len() >= graph_edges(*old(graph)).len(),
        graph_edges(*final(graph)).subrange(0, graph_edges(*old(graph)).len() as int)
            == graph_edges(*old(graph)),
        graph_edges(*final(graph)).no_duplicates(),
        forall|k: int|
            graph_edges(*old(graph)).len() <= k < graph_edges(*final(graph)).len() ==> {
                let e = #[trigger] graph_edges(*final(graph))[k];
                ps <= e.0 < ls <= e.1 < graph_nodes(*old(graph)).len()
            },
        shared_by_draws(
            graph_edges(*old(graph)),
            leaf_layer@,
            graph_edges(*final(graph)),
            extra_parent_count(*t),
            *common_count,
        ),
{
    let ghost nodes0 = graph_nodes(*graph);
    let ghost edges0 = graph_edges(*graph);
    let ghost e0 = edges0.len() as int;
    let ghost total = nodes0.len() as int;
    let nl = leaf_layer.len();
    let n_common = common_count(nl);

    // The parents of the leaves, in increasing order.
    let mut penultimate: Vec<usize> = Vec::new();
    let mut k: usize = 0;
    while k < nl
        invariant
            nl == leaf_layer@.len(),
            is_run(leaf_layer@, ls, nl as int),
            ls + nl == total,
            total == graph_nodes(*graph).len(),
            total < u32::MAX,
            forall|a: int, b: int|
                0 <= a < b < penultimate@.len() ==> penultimate@[a] < penultimate@[b],
            forall|m: int| 0 <= m < penultimate@.len() ==> ps <= #[trigger] penultimate@[m] < ls,
            forall|q: int|
                0 <= q < graph_edges(*graph).len() && (#[trigger] graph_edges(*graph)[q]).1 >= ls
                    ==> ps <= graph_edges(*graph)[q].0 < ls,
            graph_edges(*graph) == edges0,
            common_count.ensures((nl,), n_common),
            forall|y: usize|
                #[trigger] penultimate@.contains(y) ==> leaf_parents(edges0, leaf_layer@).contains(y),
            forall|r: int, m: int|
                #![trigger edges0[r], leaf_layer@[m]]
                0 <= r < edges0.len() && 0 <= m < k && edges0[r].1 == leaf_layer@[m]
                    ==> penultimate@.contains(edges0[r].0),
        decreases nl - k,
    {
        let leaf = leaf_layer[k];
        let sources = incoming(graph, leaf);
        let mut q: usize = 0;
        while q < sources.len()
            invariant
                ls <= leaf < total,
                total == graph_nodes(*graph).len(),
                sources@ == in_sources(graph_edges(*graph), leaf),
                q <= sources@.len(),
                forall|a: int, b: int|
                    0 <= a < b < penultimate@.len() ==> penultimate@[a] < penultimate@[b],
                forall|m: int| 0 <= m < penultimate@.len() ==> ps <= #[trigger] penultimate@[m] < ls,
                forall|r: int|
                    0 <= r < graph_edges(*graph).len() && (#[trigger] graph_edges(*graph)[r]).1
                        >= ls ==> ps <= graph_edges(*graph)[r].0 < ls,
                graph_edges(*graph) == edges0,
                k < nl,
                nl == leaf_layer@.len(),
                leaf == leaf_layer@[k as int],
                forall|y: usize|
                    #[trigger] penultimate@.contains(y) ==> leaf_parents(edges0, leaf_layer@).contains(y),
                forall|r: int, m: int|
                    #![trigger edges0[r], leaf_layer@[m]]
                    0 <= r < edges0.len() && 0 <= m < k && edges0[r].1 == leaf_layer@[m]
                        ==> penultimate@.contains(edges0[r].0),
                forall|x: int| 0 <= x < q ==> penultimate@.contains(#[trigger] sources@[x]),
            decreases sources@.len() - q,
        {
            let src = sources[q];
            proof {
                assert(sources@.contains(src));
                lemma_in_sources_contains(graph_edges(*graph), leaf, src);
                let r = choose|r: int|
                    0 <= r < graph_edges(*graph).len() && graph_edges(*graph)[r] == (src, leaf);
                assert(graph_edges(*graph)[r].1 >= ls);
                assert(edges0[r] == (src, leaf_layer@[k as int]));
                assert(leaf_parents(edges0, leaf_layer@).contains(src));
            }
            let ghost before = penultimate@;
            insert_index(&mut penultimate, src);
            assert forall|m: int| 0 <= m < penultimate@.len() implies ps <= #[trigger] penultimate@[m]
                < ls by {
                assert(penultimate@.contains(penultimate@[m]));
                if penultimate@[m] != src {
                    assert(before.contains(penultimate@[m]));
                    let b = choose|b: int| 0 <= b < before.len() && before[b] == penultimate@[m];
                }
            }
            q = q + 1;
        }
        proof {
            assert forall|r: int, m: int|
                #![trigger edges0[r], leaf_layer@[m]]
                0 <= r < edges0.len() && 0 <= m < k + 1 && edges0[r].1 == leaf_layer@[m]
                    implies penultimate@.contains(edges0[r].0) by {
                if m == k {
                    let s = edges0[r].0;
                    assert(edges0[r] == (s, leaf));
                    lemma_in_sources_contains(edges0, leaf, s);
                    let x = choose|x: int| 0 <= x < sources@.len() && sources@[x] == s;
                }
            }
        }
        k = k + 1;
    }
    if penultimate.len() == 0 {
        assert(graph_edges(*graph).subrange(0, e0) =~= edges0);
        proof {
            if !leaf_parents(edges0, leaf_layer@).is_empty() {
                let p = leaf_parents(edges0, leaf_layer@).choose();
                assert(leaf_parents(edges0, leaf_layer@).contains(p));
                let (r, m) = choose|r: int, m: int|
                    0 <= r < edges0.len() && 0 <= m < leaf_layer@.len() && #[trigger] edges0[r] == (
                    p,
                    #[trigger] leaf_layer@[m],
                );
                assert(penultimate@.contains(edges0[r].0));
                assert(false);
            }
            let draws: Seq<usize> = Seq::empty();
            assert(graph_edges(*graph) == edges_after_draws(
                edges0,
                draws,
                leaf_layer@,
                extra_parent_count(*t),
            ));
            assert(draws.len() == 0);
            assert(common_count.ensures((leaf_layer@.len() as usize,), n_common));
        }
        return ;
    }

    let extra_parents = t.common_basic_event_parents.saturating_sub(1);
    let ghost width = nl as int;
    let ghost rows = ls - ps;
    let ghost mut codes: Set<int> = Set::empty();
    let ghost mut draws: Seq<usize> = Seq::empty();
    let mut i: usize = 0;
    while i < n_common
        invariant
            extra_parents as nat == extra_parent_count(*t),
            common_count.ensures((nl,), n_common),
            i <= n_common,
            draws.len() == i as int * extra_parents as int,
            forall|d: int|
                0 <= d < draws.len() ==> leaf_parents(edges0, leaf_layer@).contains(
                    #[trigger] draws[d],
                ),
            forall|y: usize|
                #[trigger] penultimate@.contains(y) ==> leaf_parents(edges0, leaf_layer@).contains(y),
            graph_edges(*graph) == edges_after_draws(
                edges0,
                draws,
                leaf_layer@,
                extra_parents as nat,
            ),
            nl == leaf_layer@.len(),
            nl >= 1,
            width == nl,
            rows == ls - ps,
            rows >= 1,
            is_run(leaf_layer@, ls, nl as int),
            ls + nl == total,
            total == nodes0.len(),
            e0 == edges0.len(),
            total < u32::MAX,
            penultimate@.len() >= 1,
            forall|m: int| 0 <= m < penultimate@.len() ==> ps <= #[trigger] penultimate@[m] < ls,
            graph_nodes(*graph) == nodes0,
            graph_edges(*graph).subrange(0, e0) == edges0,
            graph_edges(*graph).len() == e0 + codes.len(),
            e0 + rows * width < u32::MAX,
            graph_edges(*graph).no_duplicates(),
            codes.finite(),
            codes.subset_of(vstd::set_lib::set_int_range(0, rows * width)),
            forall|r: int|
                e0 <= r < graph_edges(*graph).len() ==> {
                    let e = #[trigger] graph_edges(*graph)[r];
                    &&& ps <= e.0 < ls <= e.1 < total
                    &&& codes.contains((e.0 - ps) * width + (e.1 - ls))
                },
            forall|x: int|
                #[trigger] codes.contains(x) ==> exists|r: int|
                    e0 <= r < graph_edges(*graph).len() && x == (graph_edges(*graph)[r].0 - ps)
                        * width + (graph_edges(*graph)[r].1 - ls),
        decreases n_common - i,
    {
        let leaf = leaf_layer[i % nl];
        assert(i % nl < nl);
        let mut e: usize = 0;
        while e < extra_parents
            invariant
                common_count.ensures((nl,), n_common),
                i < n_common,
                e <= extra_parents,
                leaf == leaf_layer@[(i % nl) as int],
                draws.len() == i as int * extra_parents as int + e as int,
                forall|d: int|
                    0 <= d < draws.len() ==> leaf_parents(edges0, leaf_layer@).contains(
                        #[trigger] draws[d],
                    ),
                forall|y: usize|
                    #[trigger] penultimate@.contains(y) ==> leaf_parents(edges0, leaf_layer@).contains(
                        y,
                    ),
                graph_edges(*graph) == edges_after_draws(
                    edges0,
                    draws,
                    leaf_layer@,
                    extra_parents as nat,
                ),
                nl == leaf_layer@.len(),
                width == nl,
                rows == ls - ps,
                rows >= 1,
                ls <= leaf < total,
                total == nodes0.len(),
                e0 == edges0.len(),
                total < u32::MAX,
                ls + nl == total,
                penultimate@.len() >= 1,
                forall|m: int| 0 <= m < penultimate@.len() ==> ps <= #[trigger] penultimate@[m] < ls,
                graph_nodes(*graph) == nodes0,
                graph_edges(*graph).subrange(0, e0) == edges0,
                graph_edges(*graph).len() == e0 + codes.len(),
                e0 + rows * width < u32::MAX,
                graph_edges(*graph).no_duplicates(),
                codes.finite(),
                codes.subset_of(vstd::set_lib::set_int_range(0, rows * width)),
                forall|r: int|
                    e0 <= r < graph_edges(*graph).len() ==> {
                        let e = #[trigger] graph_edges(*graph)[r];
                        &&& ps <= e.0 < ls <= e.1 < total
                        &&& codes.contains((e.0 - ps) * width + (e.1 - ls))
                    },
                forall|x: int|
                    #[trigger] codes.contains(x) ==> exists|r: int|
                        e0 <= r < graph_edges(*graph).len() && x == (graph_edges(*graph)[r].0 - ps)
                            * width + (graph_edges(*graph)[r].1 - ls),
            decreases extra_parents - e,
        {
            let drawn = draw_below(rng, penultimate.len());
            let parent = penultimate[drawn];
            let ghost linked = graph_edges(*graph);
            if !contains_edge(graph, parent, leaf) {
                let ghost before = graph_edges(*graph);
                let ghost code = (parent - ps) * width + (leaf - ls);
                proof {
                    assert(0 <= code < rows * width) by (nonlinear_arith)
                        requires
                            code == (parent - ps) * width + (leaf - ls),
                            0 <= parent - ps < rows,
                            0 <= leaf - ls < width,
                    ;
                    if codes.contains(code) {
                        let r = choose|r: int|
                            e0 <= r < before.len() && code == (before[r].0 - ps) * width + (
                            before[r].1 - ls);
                        assert(ps <= before[r].0 < ls <= before[r].1 < total);
                        lemma_grid_position(
                            before[r].0 - ps,
                            before[r].1 - ls,
                            parent - ps,
                            leaf - ls,
                            width,
                        );
                        assert(before[r] == (parent, leaf));
                        assert(before.contains((parent, leaf)));
                    }
                    let bigger = codes.insert(code);
                    vstd::set_lib::lemma_int_range(0, rows * width);
                    vstd::set_lib::lemma_len_subset(
                        bigger,
                        vstd::set_lib::set_int_range(0, rows * width),
                    );
                    assert(bigger.len() == codes.len() + 1);
                    lemma_push_no_duplicates(before, (parent, leaf));
                }
                add_edge(graph, parent, leaf);
                proof {
                    let after = graph_edges(*graph);
                    assert(after.subrange(0, e0) =~= before.subrange(0, e0));
                    let old_codes = codes;
                    codes = codes.insert(code);
                    assert forall|r: int| e0 <= r < after.len() implies {
                        let e = #[trigger] after[r];
                        &&& ps <= e.0 < ls <= e.1 < total
                        &&& codes.contains((e.0 - ps) * width + (e.1 - ls))
                    } by {
                        if r < before.len() {
                            assert(after[r] == before[r]);
                        }
                    }
                    assert forall|x: int| #[trigger] codes.contains(x) implies exists|r: int|
                        e0 <= r < after.len() && x == (after[r].0 - ps) * width + (after[r].1 - ls) by {
                        if x == code {
                            assert(after[before.len() as int] == (parent, leaf));
                        } else {
                            assert(old_codes.contains(x));
                            let r = choose|r: int|
                                e0 <= r < before.len() && x == (before[r].0 - ps) * width + (
                                before[r].1 - ls);
                            assert(after[r] == before[r]);
                        }
                    }
                }
            }
            proof {
                let d = draws.len() as int;
                vstd::arithmetic::div_mod::lemma_fundamental_div_mod_converse(
                    d,
                    extra_parents as int,
                    i as int,
                    e as int,
                );
                assert(penultimate@.contains(penultimate@[drawn as int]));
                let longer = draws.push(parent);
                assert(longer.drop_last() =~= draws);
                assert(graph_edges(*graph) == if linked.contains((parent, leaf)) {
                    linked
                } else {
                    linked.push((parent, leaf))
                });
                draws = longer;
            }
            e = e + 1;
        }
        proof {
            assert(draws.len() == (i + 1) as int * extra_parents as int) by (nonlinear_arith)
                requires
                    draws.len() == i as int * extra_parents as int + extra_parents as int,
            ;
        }
        i = i + 1;
    }
    proof {
        vstd::set_lib::lemma_int_range(0, rows * width);
        vstd::set_lib::lemma_len_subset(codes, vstd::set_lib::set_int_range(0, rows * width));
        assert(penultimate@.contains(penultimate@[0]));
        assert(leaf_parents(edges0, leaf_layer@).contains(penultimate@[0]));
        assert(!leaf_parents(edges0, leaf_layer@).is_empty());
        assert(draws.len() == n_common * extra_parent_count(*t));
        assert(common_count.ensures((leaf_layer@.len() as usize,), n_common));
    }
}

/// Edges added after position `base` leave nodes other than `p`; they change
/// nothing about the children of `p`.
proof fn lemma_out_targets_unchanged(edges: Seq<(usize, usize)>, base: int, p: usize)
    requires
        0 <= base <= edges.len(),
        forall|k: int| base <= k < edges.len() ==> (#[trigger] edges[k]).0 != p,
    ensures
        out_targets(edges, p) == out_targets(edges.subrange(0, base), p),
    decreases edges.len(),
{
    if edges.len() > base {
        let rest = edges.drop_last();
        assert forall|k: int| base <= k < rest.len() implies (#[trigger] rest[k]).0 != p by {
            assert(rest[k] == edges[k]);
        }
        lemma_out_targets_unchanged(rest, base, p);
        assert(rest.subrange(0, base) =~= edges.subrange(0, base));
    } else {
        assert(edges.subrange(0, base) =~= edges);
    }
}

/// Adding edges never takes children away.
proof fn lemma_out_targets_grow(edges: Seq<(usize, usize)>, base: int, p: usize)
    requires
        0 <= base <= edges.len(),
    ensures
        out_targets(edges, p).len() >= out_targets(edges.subrange(0, base), p).len(),
    decreases edges.len(),
{
    if edges.len() > base {
        let rest = edges.drop_last();
        lemma_out_targets_grow(rest, base, p);
        assert(rest.subrange(0, base) =~= edges.subrange(0, base));
    } else {
        assert(edges.subrange(0, base) =~= edges);
    }
}

/// Appending a full layer `l` of `n` nodes to layers `0 ..= l - 1` gives
/// layers `0 ..= l`.
proof fn lemma_layers_extend(
    t: Topology,
    old_nodes: Seq<NodeData>,
    nodes: Seq<NodeData>,
    l: nat,
    n: nat,
)
    requires
        l >= 1,
        layered_upto(t, old_nodes, (l - 1) as nat),
        t.nodes_per_layer_min <= n <= t.nodes_per_layer_max,
        n >= 1,
        nodes.len() == old_nodes.len() + n,
        nodes.subrange(0, old_nodes.len() as int) == old_nodes,
        forall|j: int|
            0 <= j < n ==> {
                let d = #[trigger] nodes[old_nodes.len() + j];
                &&& d.layer == l
                &&& d.index_in_layer == j
                &&& node_fits(t, d)
            },
    ensures
        layered_upto(t, nodes, l),
{
    let cs = old_nodes.len() as int;
    assert forall|i: int| 0 <= i < cs implies nodes[i] == old_nodes[i] by {
        assert(nodes.subrange(0, cs)[i] == nodes[i]);
    }
    assert forall|i: int| 1 <= i < nodes.len() implies node_fits(t, #[trigger] nodes[i]) by {
        if i >= cs {
            assert(nodes[cs + (i - cs)] == nodes[i]);
        }
    }
    assert forall|i: int| 0 <= i < nodes.len() - 1 implies #[trigger] next_follows(nodes, i) by {
        if i >= cs {
            assert(nodes[cs + (i + 1 - cs)] == nodes[i + 1]);
            assert(nodes[cs + (i - cs)] == nodes[i]);
        } else if i == cs - 1 {
            assert(nodes[cs + 0] == nodes[i + 1]);
            assert(old_nodes.last() == nodes[i]);
        } else {
            assert(next_follows(old_nodes, i));
            assert(nodes[i + 1] == old_nodes[i + 1]);
        }
    }
    assert(nodes[cs + (n - 1)] == nodes.last());
    assert forall|i: int|
        1 <= i < nodes.len() && #[trigger] ends_layer(nodes, i) implies t.nodes_per_layer_min
        <= nodes[i].index_in_layer + 1 by {
        if i >= cs {
            assert(nodes[cs + (i - cs)] == nodes[i]);
            if i + 1 < nodes.len() {
                assert(nodes[cs + (i + 1 - cs)] == nodes[i + 1]);
            }
        } else if i == cs - 1 {
            assert(ends_layer(old_nodes, i));
        } else {
            assert(nodes[i + 1] == old_nodes[i + 1]);
            assert(ends_layer(old_nodes, i));
        }
    }
}

/// After the layer `l` nodes `[cs, len)` are connected below the layer
/// `l - 1` nodes `[ps, cs)`, the layers below `l` are connected.
proof fn lemma_edges_after_connect(
    t: Topology,
    nodes: Seq<NodeData>,
    old_edges: Seq<(usize, usize)>,
    edges: Seq<(usize, usize)>,
    l: nat,
    ps: int,
    cs: int,
)
    requires
        l >= 1,
        0 <= ps < cs < nodes.len(),
        edges_fit_upto(t, nodes.subrange(0, cs), old_edges, (l - 1) as nat),
        forall|i: int| 0 <= i < nodes.len() ==> (#[trigger] nodes[i]).layer <= l,
        forall|i: int| 0 <= i < nodes.len() ==> ((#[trigger] nodes[i]).layer == l) == (cs <= i),
        forall|i: int|
            0 <= i < nodes.len() ==> ((#[trigger] nodes[i]).layer + 1 == l) == (ps <= i < cs),
        old_edges.len() <= edges.len(),
        edges.subrange(0, old_edges.len() as int) == old_edges,
        edges.no_duplicates(),
        forall|k: int|
            old_edges.len() <= k < edges.len() ==> {
                let e = #[trigger] edges[k];
                ps <= e.0 < cs && cs <= e.1 < nodes.len()
            },
        forall|c: usize| cs <= c < nodes.len() ==> #[trigger] has_parent(edges, c),
        forall|p: usize|
            ps <= p < cs ==> #[trigger] out_targets(edges, p).len() >= t.children_per_node_min
                || forall|c: usize| cs <= c < nodes.len() ==> edges.contains((p, c)),
    ensures
        edges_fit_upto(t, nodes, edges, l),
{
    let old_nodes = nodes.subrange(0, cs);
    let e0 = old_edges.len() as int;
    assert forall|i: int| 0 <= i < cs implies old_nodes[i] == nodes[i] by {}
    assert forall|k: int| 0 <= k < edges.len() implies edge_between_layers(nodes, #[trigger] edges[k]) by {
        if k < e0 {
            assert(edges.subrange(0, e0)[k] == edges[k]);
            assert(edge_between_layers(old_nodes, old_edges[k]));
        } else {
            let e = edges[k];
            assert(nodes[e.0 as int].layer + 1 == l);
            assert(nodes[e.1 as int].layer == l);
        }
    }
    assert forall|i: usize| 1 <= i < nodes.len() implies #[trigger] has_parent(edges, i) by {
        if i < cs {
            assert(has_parent(old_edges, i));
            let k = choose|k: int| 0 <= k < old_edges.len() && (#[trigger] old_edges[k]).1 == i;
            assert(edges.subrange(0, e0)[k] == edges[k]);
        }
    }
    assert forall|p: usize| p < nodes.len() && nodes[p as int].layer < l implies #[trigger] has_enough_children(
        t,
        nodes,
        edges,
        p,
    ) by {
        if ps <= p < cs {
            if out_targets(edges, p).len() < t.children_per_node_min {
                assert forall|c: usize|
                    c < nodes.len() && nodes[c as int].layer == nodes[p as int].layer + 1 implies edges.contains(
                    (p, c),
                ) by {}
            }
        } else {
            assert(p < ps);
            assert(nodes[p as int].layer + 1 < l);
            assert(has_enough_children(t, old_nodes, old_edges, p));
            assert forall|k: int| e0 <= k < edges.len() implies (#[trigger] edges[k]).0 != p by {}
            lemma_out_targets_unchanged(edges, e0, p);
            if out_targets(old_edges, p).len() < t.children_per_node_min {
                assert forall|c: usize|
                    c < nodes.len() && nodes[c as int].layer == nodes[p as int].layer + 1 implies edges.contains(
                    (p, c),
                ) by {
                    assert(c < cs);
                    assert(old_nodes[c as int] == nodes[c as int]);
                    assert(old_edges.contains((p, c)));
                    let k = choose|k: int| 0 <= k < old_edges.len() && old_edges[k] == (p, c);
                    assert(edges.subrange(0, e0)[k] == edges[k]);
                }
            }
        }
    }
}

/// Turns the weight band drawn for a gate into its type; a K-of-N gate gets
/// `k` drawn between 2 and `max(children_per_node_min, 2)`.
fn sample_gate_type<G: Fn(&mut ChaCha8Rng) -> GateDraw>(
    t: &Topology,
    rng: &mut ChaCha8Rng,
    sample_gate: &G,
) -> (g: GateType)
    requires
        forall|r: &mut ChaCha8Rng| sample_gate.requires((r,)),
    ensures
        g matches GateType::KofN(k) ==> 2 <= k <= kmax(*t),
        exists|r: &mut ChaCha8Rng, d: GateDraw|
            sample_gate.ensures((r,), d) && gate_type_of_draw(*t, d, g),
{
    let band = sample_gate(rng);
    assert(exists|r: &mut ChaCha8Rng| sample_gate.ensures((r,), band));
    match band {
        GateDraw::And => GateType::And,
        GateDraw::Or => GateType::Or,
        GateDraw::KofN => {
            let hi = if t.children_per_node_min >= 2 {
                t.children_per_node_min
            } else {
                2
            };
            GateType::KofN(draw_inclusive(rng, 2, hi))
        },
    }
}

/// `{prefix}{layer}-{index}`.
fn place_name(prefix: &str, layer: usize, index: usize) -> (s: String)
    ensures
        s@ == prefix@ + decimal(layer as nat) + "-"@ + decimal(index as nat),
{
    let mut s = owned(prefix);
    push_decimal(&mut s, layer as u64);
    s.append("-");
    push_decimal(&mut s, index as u64);
    s
}

// ─── Builder ─────────────────────────────────────────────────────────────────

/// Builds a [`Pdag`] from a validated [`Topology`].
pub struct PdagBuilder {
    topology: Topology,
    rng: ChaCha8Rng,
}

impl PdagBuilder {
    #[verifier::type_invariant]
    closed spec fn valid(&self) -> bool {
        builds_ok(self.topology)
    }

    /// The topology the builder was made with.
    pub closed spec fn topology(&self) -> Topology {
        self.topology
    }

    /// The generator the builder draws from.
    pub closed spec fn generator(&self) -> ChaCha8Rng {
        self.rng
    }

    /// Creates a builder after checking the configuration rules;
    /// `gate_weights_nonzero` tells whether some gate weight is positive.
    /// The generator is seeded with `topology.seed`.
    pub fn new(topology: Topology, gate_weights_nonzero: bool) -> (r: Result<Self, PdagError>)
        ensures
            match topology_check(topology, gate_weights_nonzero) {
                Ok(_) => r matches Ok(b) && b.topology() == topology && b.generator()
                    == seeded_generator(topology.seed),
                Err(e) => r matches Err(PdagError::InvalidConfig(m)) && m@ == topology_error_text(e),
            },
    {
        match check_topology(&topology, gate_weights_nonzero) {
            Ok(()) => Ok(PdagBuilder { topology, rng: seeded_rng(topology.seed) }),
            Err(e) => Err(PdagError::InvalidConfig(e.message())),
        }
    }

    /// Builds the PDAG.  `sample_probability` draws a basic-event
    /// probability (as `f64` bits), `sample_gate` draws the weight band of a
    /// gate type, and `common_count` gives the number of shared basic events
    /// for a leaf layer of the given size.
    ///
    /// Each layer's nodes get parents of the layer above round robin, then
    /// further children at random; the leaves are then shared with further
    /// parents (see [`built_edges`]).  When no layer can have more nodes than
    /// `children_per_node_max`, no node gets more children than that before
    /// the leaves are shared.
    pub fn build<P, G, C>(self, sample_probability: &P, sample_gate: &G, common_count: &C) -> (r:
        Result<Pdag, PdagError>) where
        P: Fn(&mut ChaCha8Rng) -> u64,
        G: Fn(&mut ChaCha8Rng) -> GateDraw,
        C: Fn(usize) -> usize,

        requires
            within_index_limits(self.topology()),
            forall|r: &mut ChaCha8Rng| sample_probability.requires((r,)),
            forall|r: &mut ChaCha8Rng| sample_gate.requires((r,)),
            forall|n: usize| common_count.requires((n,)),
        ensures
            r matches Ok(pdag) && {
                &&& pdag.root == 0
                &&& is_layered(self.topology(), pdag.nodes())
                &&& edges_fit(self.topology(), pdag.nodes(), pdag.edges())
                &&& probabilities_drawn_by(pdag.nodes(), *sample_probability)
                &&& gate_types_drawn_by(self.topology(), pdag.nodes(), *sample_gate)
            },
        r matches Ok(pdag) ==> exists|leaf_start: int, calls: Seq<&mut ChaCha8Rng>|
            #![trigger probabilities_from(pdag.nodes(), leaf_start), calls.len()]
            {
                &&& 0 <= leaf_start <= pdag.nodes().len()
                &&& forall|i: int|
                    0 <= i < pdag.nodes().len() ==> ((#[trigger] pdag.nodes()[i]).kind
                        == NodeKind::BasicEvent <==> leaf_start <= i)
                &&& calls.len() == pdag.nodes().len() - leaf_start
                &&& forall|j: int|
                    0 <= j < calls.len() ==> sample_probability.ensures(
                        (#[trigger] calls[j],),
                        probabilities_from(pdag.nodes(), leaf_start)[j],
                    )
                &&& forall|j: int| 0 <= j < calls.len() - 1 ==> *final(#[trigger] calls[j]) == *calls[j + 1]
            },
        r matches Ok(pdag) ==> exists|connected: Seq<(usize, usize)>, leaf_start: int|
            #[trigger] built_edges(
                self.topology(),
                pdag.nodes(),
                connected,
                leaf_start,
                pdag.edges(),
                *common_count,
            ),
    {
        proof {
            use_type_invariant(&self);
        }
        let t = self.topology;
        let mut rng = self.rng;
        let nmax = t.nodes_per_layer_max;
        let cmax = t.children_per_node_max;
        let ghost budget = nmax + nmax * cmax;

        let mut graph = new_graph();
        let root = add_node(
            &mut graph,
            NodeData {
                name: owned("root"),
                kind: NodeKind::Root,
                probability: None,
                layer: 0,
                index_in_layer: 0,
            },
        );
        let mut prev_layer: Vec<usize> = Vec::new();
        prev_layer.push(root);
        let ghost mut prev_start: int = 0;
        let ghost mut pen_start: int = 0;
        proof {
            assert(is_root_node(graph_nodes(graph)[0]));
            assert(graph_edges(graph).no_duplicates());
        }

        let total_layers = t.layers;
        let mut layer_idx: usize = 1;
        while layer_idx < total_layers
            invariant
                builds_ok(t),
                within_index_limits(t),
                total_layers == t.layers,
                nmax == t.nodes_per_layer_max,
                cmax == t.children_per_node_max,
                budget == nmax + nmax * cmax,
                1 <= layer_idx <= total_layers,
                root == 0,
                layered_upto(t, graph_nodes(graph), (layer_idx - 1) as nat),
                edges_fit_upto(t, graph_nodes(graph), graph_edges(graph), (layer_idx - 1) as nat),
                0 <= prev_start < graph_nodes(graph).len(),
                is_run(prev_layer@, prev_start, graph_nodes(graph).len() - prev_start),
                prev_layer@.len() <= nmax,
                forall|i: int|
                    0 <= i < graph_nodes(graph).len() ==> (#[trigger] graph_nodes(graph)[i]).layer
                        <= layer_idx - 1,
                forall|i: int|
                    0 <= i < graph_nodes(graph).len() ==> ((#[trigger] graph_nodes(graph)[i]).layer
                        == layer_idx - 1) == (prev_start <= i),
                layer_idx >= 2 ==> 0 <= pen_start < prev_start,
                layer_idx == t.layers && t.layers >= 2 ==> exists|calls: Seq<&mut ChaCha8Rng>|
                    #![trigger calls.len()]
                    {
                        &&& calls.len() == graph_nodes(graph).len() - prev_start
                        &&& forall|j: int|
                            0 <= j < calls.len() ==> sample_probability.ensures(
                                (#[trigger] calls[j],),
                                graph_nodes(graph)[prev_start + j].probability->0,
                            )
                        &&& forall|j: int|
                            0 <= j < calls.len() - 1 ==> *final(#[trigger] calls[j]) == *calls[j + 1]
                    },
                layer_idx >= 2 ==> forall|i: int|
                    0 <= i < graph_nodes(graph).len() ==> ((#[trigger] graph_nodes(graph)[i]).layer
                        + 2 == layer_idx) == (pen_start <= i < prev_start),
                layer_idx >= 2 ==> prev_start - pen_start <= nmax,
                graph_nodes(graph).len() <= 1 + (layer_idx - 1) * nmax,
                graph_edges(graph).len() <= (layer_idx - 1) * budget,
                forall|r: &mut ChaCha8Rng| sample_probability.requires((r,)),
                forall|r: &mut ChaCha8Rng| sample_gate.requires((r,)),
                probabilities_drawn_by(graph_nodes(graph), *sample_probability),
                gate_types_drawn_by(t, graph_nodes(graph), *sample_gate),
                t.nodes_per_layer_max <= t.children_per_node_max ==> forall|p: usize|
                    p < prev_start ==> #[trigger] out_targets(graph_edges(graph), p).len()
                        <= t.children_per_node_max,
            decreases total_layers - layer_idx,
        {
            let is_leaf_layer = layer_idx == total_layers - 1;
            let n_nodes = draw_inclusive(&mut rng, t.nodes_per_layer_min, t.nodes_per_layer_max);
            let ghost old_nodes = graph_nodes(graph);
            let ghost old_edges = graph_edges(graph);
            let cur_start = node_count(&graph);
            proof {
                assert((layer_idx - 1) * nmax + nmax == layer_idx * nmax) by (nonlinear_arith);
                assert(layer_idx * nmax <= (t.layers - 1) * nmax) by (nonlinear_arith)
                    requires
                        layer_idx <= t.layers - 1,
                ;
            }

            // Create the nodes of this layer.
            proof {
                let no_calls = Seq::<&mut ChaCha8Rng>::empty();
                assert(no_calls.len() == 0);
            }
            let mut current_layer: Vec<usize> = Vec::new();
            let mut node_idx: usize = 0;
            while node_idx < n_nodes
                invariant
                    builds_ok(t),
                    1 <= layer_idx < t.layers,
                    is_leaf_layer == (layer_idx == t.layers - 1),
                    n_nodes <= nmax,
                    nmax == t.nodes_per_layer_max,
                    cur_start == old_nodes.len(),
                    cur_start + n_nodes < u32::MAX,
                    node_idx <= n_nodes,
                    graph_nodes(graph).len() == cur_start + node_idx,
                    graph_nodes(graph).subrange(0, cur_start as int) == old_nodes,
                    graph_edges(graph) == old_edges,
                    is_run(current_layer@, cur_start as int, node_idx as int),
                    forall|j: int|
                        0 <= j < node_idx ==> {
                            let d = #[trigger] graph_nodes(graph)[cur_start + j];
                            &&& d.layer == layer_idx
                            &&& d.index_in_layer == j
                            &&& node_fits(t, d)
                        },
                    forall|r: &mut ChaCha8Rng| sample_probability.requires((r,)),
                    forall|r: &mut ChaCha8Rng| sample_gate.requires((r,)),
                    probabilities_drawn_by(graph_nodes(graph), *sample_probability),
                gate_types_drawn_by(t, graph_nodes(graph), *sample_gate),
                    is_leaf_layer ==> exists|calls: Seq<&mut ChaCha8Rng>|
                        #![trigger calls.len()]
                        {
                            &&& calls.len() == node_idx
                            &&& node_idx > 0 ==> *final(calls.last()) == rng
                            &&& forall|j: int|
                                0 <= j < node_idx ==> sample_probability.ensures(
                                    (#[trigger] calls[j],),
                                    graph_nodes(graph)[cur_start + j].probability->0,
                                )
                            &&& forall|j: int|
                                0 <= j < node_idx - 1 ==> *final(#[trigger] calls[j]) == *calls[j + 1]
                        },
                decreases n_nodes - node_idx,
            {
                let ghost rng_before = rng;
                let ghost nodes_before = graph_nodes(graph);
                let data = if is_leaf_layer {
                    let probability = sample_probability(&mut rng);
                    proof {
                        let calls = choose|calls: Seq<&mut ChaCha8Rng>|
                            #![trigger calls.len()]
                            {
                                &&& calls.len() == node_idx
                                &&& node_idx > 0 ==> *final(calls.last()) == rng_before
                                &&& forall|j: int|
                                    0 <= j < node_idx ==> sample_probability.ensures(
                                        (#[trigger] calls[j],),
                                        nodes_before[cur_start + j].probability->0,
                                    )
                                &&& forall|j: int|
                                    0 <= j < node_idx - 1 ==> *final(#[trigger] calls[j]) == *calls[j + 1]
                            };
                        let call = choose|g: &mut ChaCha8Rng|
                            *g == rng_before && *final(g) == rng && sample_probability.ensures(
                                (g,),
                                probability,
                            );
                        let next = calls.push(call);
                        assert(next.len() == node_idx + 1);
                        assert(forall|j: int|
                            0 <= j < node_idx ==> sample_probability.ensures(
                                (#[trigger] next[j],),
                                nodes_before[cur_start + j].probability->0,
                            )) by {
                            assert(forall|j: int| 0 <= j < node_idx ==> next[j] == calls[j]);
                        }
                        assert(sample_probability.ensures((next[node_idx as int],), probability));
                        assert(forall|j: int|
                            0 <= j < node_idx ==> *final(#[trigger] next[j]) == *next[j + 1]) by {
                            assert(forall|j: int| 0 <= j < node_idx ==> next[j] == calls[j]);
                        }
                        assert(*final(next.last()) == rng);
                        assert(exists|c: Seq<&mut ChaCha8Rng>|
                            #![trigger c.len()]
                            {
                                &&& c.len() == node_idx + 1
                                &&& *final(c.last()) == rng
                                &&& forall|j: int|
                                    0 <= j < node_idx ==> sample_probability.ensures(
                                        (#[trigger] c[j],),
                                        nodes_before[cur_start + j].probability->0,
                                    )
                                &&& sample_probability.ensures((c[node_idx as int],), probability)
                                &&& forall|j: int| 0 <= j < node_idx ==> *final(#[trigger] c[j]) == *c[j + 1]
                            });
                    }
                    let d = NodeData {
                        name: place_name("BE-", layer_idx, node_idx),
                        kind: NodeKind::BasicEvent,
                        probability: Some(probability),
                        layer: layer_idx,
                        index_in_layer: node_idx,
                    };
                    assert(exists|r: &mut ChaCha8Rng| sample_probability.ensures((r,), probability));
                    assert(d.probability->0 == probability);
                    d
                } else {
                    let gate_type = sample_gate_type(&t, &mut rng, sample_gate);
                    NodeData {
                        name: place_name("G-", layer_idx, node_idx),
                        kind: NodeKind::Gate(gate_type),
                        probability: None,
                        layer: layer_idx,
                        index_in_layer: node_idx,
                    }
                };
                let ghost before = graph_nodes(graph);
                let ghost added = data;
                assert(added.kind is Gate ==> exists|r: &mut ChaCha8Rng, d: GateDraw|
                    sample_gate.ensures((r,), d) && gate_type_of_draw(t, d, added.kind->Gate_0));
                assert(added.probability is Some ==> exists|r: &mut ChaCha8Rng|
                    sample_probability.ensures((r,), added.probability->0));
                let idx = add_node(&mut graph, data);
                current_layer.push(idx);
                proof {
                    let after = graph_nodes(graph);
                    assert forall|i: int|
                        0 <= i < after.len() && (#[trigger] after[i]).probability is Some implies exists|
                        r: &mut ChaCha8Rng,
                    | sample_probability.ensures((r,), after[i].probability->0) by {
                        if i < before.len() {
                            assert(after[i] == before[i]);
                        } else {
                            assert(after[i] == added);
                        }
                    }
                    assert forall|i: int|
                        0 <= i < after.len() && (#[trigger] after[i]).kind is Gate implies exists|
                        r: &mut ChaCha8Rng,
                        d: GateDraw,
                    | sample_gate.ensures((r,), d) && gate_type_of_draw(t, d, after[i].kind->Gate_0) by {
                        if i < before.len() {
                            assert(after[i] == before[i]);
                        } else {
                            assert(after[i] == added);
                        }
                    }
                    assert(after.subrange(0, cur_start as int) =~= before.subrange(0, cur_start as int));
                    assert forall|j: int| 0 <= j < node_idx + 1 implies {
                        let d = #[trigger] after[cur_start + j];
                        &&& d.layer == layer_idx
                        &&& d.index_in_layer == j
                        &&& node_fits(t, d)
                    } by {
                        if j < node_idx {
                            assert(after[cur_start + j] == before[cur_start + j]);
                        }
                    }
                    if is_leaf_layer {
                        let c = choose|c: Seq<&mut ChaCha8Rng>|
                            #![trigger c.len()]
                            {
                                &&& c.len() == node_idx + 1
                                &&& *final(c.last()) == rng
                                &&& forall|j: int|
                                    0 <= j < node_idx ==> sample_probability.ensures(
                                        (#[trigger] c[j],),
                                        before[cur_start + j].probability->0,
                                    )
                                &&& sample_probability.ensures((c[node_idx as int],), added.probability->0)
                                &&& forall|j: int| 0 <= j < node_idx ==> *final(#[trigger] c[j]) == *c[j + 1]
                            };
                        assert forall|j: int| 0 <= j < node_idx + 1 implies sample_probability.ensures(
                            (#[trigger] c[j],),
                            after[cur_start + j].probability->0,
                        ) by {
                            if j < node_idx {
                                assert(after[cur_start + j] == before[cur_start + j]);
                            } else {
                                assert(after[cur_start + j] == added);
                            }
                        }
                        assert(c.len() == node_idx + 1);
                    }
                }
                node_idx = node_idx + 1;
            }
            let ghost layer_nodes = graph_nodes(graph);
            let ghost rng_at_layer_end = rng;

            proof {
                lemma_layers_extend(t, old_nodes, graph_nodes(graph), layer_idx as nat, n_nodes as nat);
                let nodes = graph_nodes(graph);
                assert forall|i: int| 0 <= i < cur_start implies nodes[i] == old_nodes[i] by {
                    assert(nodes.subrange(0, cur_start as int)[i] == nodes[i]);
                }
                assert forall|i: int| cur_start <= i < nodes.len() implies nodes[i].layer == layer_idx by {
                    assert(nodes[cur_start + (i - cur_start)] == nodes[i]);
                }
                assert(old_nodes =~= nodes.subrange(0, cur_start as int));
                assert forall|k: int| 0 <= k < old_edges.len() implies (#[trigger] old_edges[k]).0
                    < prev_start && old_edges[k].1 < cur_start by {
                    assert(edge_between_layers(old_nodes, old_edges[k]));
                }
                assert(prev_layer@.len() * cmax <= nmax * cmax) by (nonlinear_arith)
                    requires
                        prev_layer@.len() <= nmax,
                ;
                assert((layer_idx - 1) * budget + budget == layer_idx * budget) by (nonlinear_arith);
                assert(layer_idx * budget <= (t.layers - 1) * budget) by (nonlinear_arith)
                    requires
                        layer_idx <= t.layers - 1,
                        budget >= 0,
                ;
            }

            // Connect every node of the previous layer to children here.
            let ghost before_connect = graph_edges(graph);
            connect_layers(
                &t,
                &mut rng,
                &mut graph,
                &prev_layer,
                &current_layer,
                Ghost(prev_start),
                Ghost(cur_start as int),
            );

            proof {
                let nodes = graph_nodes(graph);
                assert forall|i: int| 0 <= i < nodes.len() implies ((#[trigger] nodes[i]).layer + 1
                    == layer_idx) == (prev_start <= i < cur_start) by {
                    if i >= cur_start {
                        assert(nodes[cur_start + (i - cur_start)] == nodes[i]);
                    } else {
                        assert(nodes[i] == old_nodes[i]);
                    }
                }
                assert forall|i: int| 0 <= i < nodes.len() implies ((#[trigger] nodes[i]).layer
                    == layer_idx) == (cur_start <= i) by {
                    if i >= cur_start {
                        assert(nodes[cur_start + (i - cur_start)] == nodes[i]);
                    } else {
                        assert(nodes[i] == old_nodes[i]);
                    }
                }
                assert forall|i: int| 0 <= i < nodes.len() implies (#[trigger] nodes[i]).layer
                    <= layer_idx by {
                    if i >= cur_start {
                        assert(nodes[cur_start + (i - cur_start)] == nodes[i]);
                    } else {
                        assert(nodes[i] == old_nodes[i]);
                    }
                }
                lemma_edges_after_connect(
                    t,
                    nodes,
                    old_edges,
                    graph_edges(graph),
                    layer_idx as nat,
                    prev_start,
                    cur_start as int,
                );
            }
            proof {
                let edges = graph_edges(graph);
                let e0 = before_connect.len() as int;
                if t.nodes_per_layer_max <= t.children_per_node_max {
                    assert forall|p: usize| p < cur_start implies #[trigger] out_targets(edges, p).len()
                        <= t.children_per_node_max by {
                        if p < prev_start {
                            lemma_out_targets_unchanged(edges, e0, p);
                            assert(edges.subrange(0, e0) == before_connect);
                        } else {
                            assert(prev_layer@.len() * t.children_per_node_max >= t.children_per_node_max) by (nonlinear_arith)
                                requires
                                    prev_layer@.len() >= 1,
                            ;
                            lemma_round_robin_bound(
                                current_layer@.len() as int,
                                prev_layer@.len() as int,
                                p - prev_start,
                                t.children_per_node_max as int,
                            );
                        }
                    }
                }
            }

            proof {
                if is_leaf_layer {
                    let calls = choose|calls: Seq<&mut ChaCha8Rng>|
                        #![trigger calls.len()]
                        {
                            &&& calls.len() == n_nodes
                            &&& n_nodes > 0 ==> *final(calls.last()) == rng_at_layer_end
                            &&& forall|j: int|
                                0 <= j < n_nodes ==> sample_probability.ensures(
                                    (#[trigger] calls[j],),
                                    layer_nodes[cur_start + j].probability->0,
                                )
                            &&& forall|j: int|
                                0 <= j < n_nodes - 1 ==> *final(#[trigger] calls[j]) == *calls[j + 1]
                        };
                    assert(graph_nodes(graph) == layer_nodes);
                    assert(calls.len() == graph_nodes(graph).len() - cur_start);
                }
                pen_start = prev_start;
                prev_start = cur_start as int;
            }
            prev_layer = current_layer;
            layer_idx = layer_idx + 1;
        }

        let ghost connected = graph_edges(graph);
        let ghost leaf_start = prev_start;
        let ghost exit_nodes = graph_nodes(graph);
        proof {
            assert(prev_layer@ =~= index_run(prev_start, graph_nodes(graph).len() as int));
        }
        // Share a fraction of the basic events with further parents.
        if t.layers > 1 {
            let ghost old_edges = graph_edges(graph);
            let ghost nodes = graph_nodes(graph);
            proof {
                assert forall|k: int| 0 <= k < old_edges.len() && (#[trigger] old_edges[k]).1
                    >= prev_start implies pen_start <= old_edges[k].0 < prev_start by {
                    assert(edge_between_layers(nodes, old_edges[k]));
                }
                assert((prev_start - pen_start) * prev_layer@.len() <= nmax * nmax) by (nonlinear_arith)
                    requires
                        prev_start - pen_start <= nmax,
                        prev_layer@.len() <= nmax,
                        prev_start - pen_start >= 0,
                ;
                assert((t.layers - 1) * budget + nmax * nmax < u32::MAX);
            }
            introduce_common_events(
                &t,
                &mut rng,
                &mut graph,
                &prev_layer,
                common_count,
                Ghost(pen_start),
                Ghost(prev_start),
            );
            proof {
                let edges = graph_edges(graph);
                let e0 = old_edges.len() as int;
                assert forall|k: int| 0 <= k < edges.len() implies edge_between_layers(
                    nodes,
                    #[trigger] edges[k],
                ) by {
                    if k < e0 {
                        assert(edges.subrange(0, e0)[k] == edges[k]);
                        assert(edge_between_layers(nodes, old_edges[k]));
                    }
                }
                assert forall|i: usize| 1 <= i < nodes.len() implies #[trigger] has_parent(edges, i) by {
                    assert(has_parent(old_edges, i));
                    let k = choose|k: int| 0 <= k < old_edges.len() && (#[trigger] old_edges[k]).1 == i;
                    assert(edges.subrange(0, e0)[k] == edges[k]);
                }
                assert forall|p: usize|
                    p < nodes.len() && nodes[p as int].layer < t.layers - 1 implies #[trigger] has_enough_children(
                    t,
                    nodes,
                    edges,
                    p,
                ) by {
                    assert(has_enough_children(t, nodes, old_edges, p));
                    lemma_out_targets_grow(edges, e0, p);
                    assert(edges.subrange(0, e0) == old_edges);
                    if out_targets(edges, p).len() < t.children_per_node_min {
                        assert forall|c: usize|
                            c < nodes.len() && nodes[c as int].layer == nodes[p as int].layer + 1 implies edges.contains(
                            (p, c),
                        ) by {
                            assert(old_edges.contains((p, c)));
                            let k = choose|k: int| 0 <= k < old_edges.len() && old_edges[k] == (p, c);
                            assert(edges.subrange(0, e0)[k] == edges[k]);
                        }
                    }
                }
            }
        }
        let ghost nodes = graph_nodes(graph);
        let ghost draws_start = if t.layers >= 2 {
            leaf_start
        } else {
            nodes.len() as int
        };
        proof {
            assert(nodes == exit_nodes);
            assert forall|i: int| 0 <= i < nodes.len() implies ((#[trigger] nodes[i]).kind
                == NodeKind::BasicEvent <==> draws_start <= i) by {
                if i >= 1 {
                    assert(node_fits(t, nodes[i]));
                } else {
                    assert(is_root_node(nodes[0]));
                }
            }
        }
        let built: Result<Pdag, PdagError> = Ok(Pdag { graph, root });
        proof {
            assert(t == self.topology());
            assert(built_edges(
                self.topology(),
                built->Ok_0.nodes(),
                connected,
                leaf_start,
                built->Ok_0.edges(),
                *common_count,
            ));
            let bn = built->Ok_0.nodes();
            assert(bn == nodes);
            assert forall|i: int| 0 <= i < bn.len() implies ((#[trigger] bn[i]).kind
                == NodeKind::BasicEvent <==> draws_start <= i) by {
                assert(bn[i] == nodes[i]);
            }
            let calls = if t.layers >= 2 {
                choose|calls: Seq<&mut ChaCha8Rng>|
                    #![trigger calls.len()]
                    {
                        &&& calls.len() == exit_nodes.len() - leaf_start
                        &&& forall|j: int|
                            0 <= j < calls.len() ==> sample_probability.ensures(
                                (#[trigger] calls[j],),
                                exit_nodes[leaf_start + j].probability->0,
                            )
                        &&& forall|j: int|
                            0 <= j < calls.len() - 1 ==> *final(#[trigger] calls[j]) == *calls[j + 1]
                    }
            } else {
                Seq::<&mut ChaCha8Rng>::empty()
            };
            assert(calls.len() == bn.len() - draws_start);
            assert(probabilities_from(bn, draws_start).len() == calls.len());
            assert forall|j: int| 0 <= j < calls.len() implies sample_probability.ensures(
                (#[trigger] calls[j],),
                probabilities_from(bn, draws_start)[j],
            ) by {
                assert(probabilities_from(bn, draws_start)[j] == exit_nodes[leaf_start + j].probability->0);
            }
        }
        built
    }
}

// ─── Laws of a built PDAG ────────────────────────────────────────────────────

proof fn lemma_walk_climbs(nodes: Seq<NodeData>, edges: Seq<(usize, usize)>, w: Seq<usize>, k: int)
    requires
        forall|q: int| 0 <= q < edges.len() ==> edge_between_layers(nodes, #[trigger] edges[q]),
        is_walk(edges, w),
        0 <= k < w.len(),
    ensures
        w[k] < nodes.len(),
        nodes[w[k] as int].layer == nodes[w[0] as int].layer + k,
    decreases k,
{
    if k == 0 {
        assert(edges.contains((w[0], w[1])));
        let q = choose|q: int| 0 <= q < edges.len() && edges[q] == (w[0], w[1]);
        assert(edge_between_layers(nodes, edges[q]));
    } else {
        lemma_walk_climbs(nodes, edges, w, k - 1);
        assert(edges.contains((w[k - 1], w[k])));
        let q = choose|q: int| 0 <= q < edges.len() && edges[q] == (w[k - 1], w[k]);
        assert(edge_between_layers(nodes, edges[q]));
    }
}

/// A built PDAG has no directed cycle: every edge leads one layer down.
pub proof fn law_built_pdag_is_acyclic(t: Topology, nodes: Seq<NodeData>, edges: Seq<(usize, usize)>)
    requires
        is_layered(t, nodes),
        edges_fit(t, nodes, edges),
    ensures
        !has_cycle(edges),
{
    if has_cycle(edges) {
        let w = choose|w: Seq<usize>| is_walk(edges, w) && w[0] == w.last();
        lemma_walk_climbs(nodes, edges, w, w.len() - 1);
    }
}

/// Every layer from the root's down to node `i`'s holds a node at or
/// before `i`.
proof fn lemma_layers_reached(t: Topology, nodes: Seq<NodeData>, top: nat, i: int, l: nat)
    requires
        chained(t, nodes, top),
        0 <= i < nodes.len(),
        l <= nodes[i].layer,
    ensures
        exists|j: int| 0 <= j <= i && (#[trigger] nodes[j]).layer == l,
    decreases i,
{
    if i == 0 {
        assert(nodes[0].layer == l);
    } else if nodes[i].layer == l {
    } else {
        assert(next_follows(nodes, i - 1));
        lemma_layers_reached(t, nodes, top, i - 1, l);
        let j = choose|j: int| 0 <= j <= i - 1 && (#[trigger] nodes[j]).layer == l;
    }
}

/// The nodes just before node `i` in its layer are its layer-mates, with
/// indices counting down to 0.
proof fn lemma_layer_run(t: Topology, nodes: Seq<NodeData>, top: nat, i: int, j: int)
    requires
        chained(t, nodes, top),
        1 <= i < nodes.len(),
        0 <= j <= nodes[i].index_in_layer,
    ensures
        i - j >= 1,
        nodes[i - j].layer == nodes[i].layer,
        nodes[i - j].index_in_layer == nodes[i].index_in_layer - j,
    decreases j,
{
    if j > 0 {
        lemma_layer_run(t, nodes, top, i, j - 1);
        let m = i - (j - 1);
        assert(next_follows(nodes, m - 1));
    }
}

/// A layer `l` below the root that holds a node ends with a node whose
/// index is at least `nodes_per_layer_min - 1`.
proof fn lemma_layer_size(t: Topology, nodes: Seq<NodeData>, top: nat, i: int)
    requires
        chained(t, nodes, top),
        1 <= i < nodes.len(),
    ensures
        exists|e: int|
            i <= e < nodes.len() && (#[trigger] nodes[e]).layer == nodes[i].layer && nodes[e].index_in_layer
                + 1 >= t.nodes_per_layer_min && nodes[e].index_in_layer - nodes[i].index_in_layer
                == e - i,
    decreases nodes.len() - i,
{
    if ends_layer(nodes, i) {
    } else {
        assert(next_follows(nodes, i));
        lemma_layer_size(t, nodes, top, i + 1);
        let e = choose|e: int|
            i + 1 <= e < nodes.len() && (#[trigger] nodes[e]).layer == nodes[i + 1].layer
                && nodes[e].index_in_layer + 1 >= t.nodes_per_layer_min && nodes[e].index_in_layer
                - nodes[i + 1].index_in_layer == e - (i + 1);
    }
}

/// A node with every node of the next layer as a child has at least
/// `nodes_per_layer_min` children.
proof fn lemma_full_layer_children(
    t: Topology,
    nodes: Seq<NodeData>,
    edges: Seq<(usize, usize)>,
    top: nat,
    p: usize,
)
    requires
        chained(t, nodes, top),
        nodes.len() <= usize::MAX,
        p < nodes.len(),
        nodes[p as int].layer < top,
        forall|c: usize|
            c < nodes.len() && nodes[c as int].layer == nodes[p as int].layer + 1 ==> edges.contains(
                (p, c),
            ),
    ensures
        out_targets(edges, p).len() >= t.nodes_per_layer_min,
{
    let l = nodes[p as int].layer;
    let last = nodes.len() - 1;
    lemma_layers_reached(t, nodes, top, last, (l + 1) as nat);
    let f = choose|f: int| 0 <= f <= last && (#[trigger] nodes[f]).layer == l + 1;
    assert(f >= 1);
    lemma_layer_size(t, nodes, top, f);
    let e = choose|e: int|
        f <= e < nodes.len() && (#[trigger] nodes[e]).layer == nodes[f].layer
            && nodes[e].index_in_layer + 1 >= t.nodes_per_layer_min && nodes[e].index_in_layer
            - nodes[f].index_in_layer == e - f;
    let start = e - nodes[e].index_in_layer;
    lemma_layer_run(t, nodes, top, e, nodes[e].index_in_layer as int);
    let targets = out_targets(edges, p);
    assert forall|c: int| start <= c < e + 1 implies #[trigger] targets.contains(c as usize) by {
        lemma_layer_run(t, nodes, top, e, e - c);
        let cu = c as usize;
        assert(cu as int == c);
        assert(nodes[cu as int].layer == nodes[p as int].layer + 1);
        assert(edges.contains((p, cu)));
        lemma_out_targets_contains(edges, p, cu);
    }
    lemma_run_in_seq(targets, start, e + 1);
}

/// A sequence that holds every integer of `[start, end)` has at least
/// `end - start` elements.
proof fn lemma_run_in_seq(s: Seq<usize>, start: int, end: int)
    requires
        0 <= start <= end <= usize::MAX,
        forall|c: int| start <= c < end ==> #[trigger] s.contains(c as usize),
    ensures
        s.len() >= end - start,
{
    let run = set_int_range(start, end);
    let as_int = s.to_set().map(|x: usize| x as int);
    assert forall|c: int| run.contains(c) implies as_int.contains(c) by {
        assert(s.contains(c as usize));
        assert(s.to_set().contains(c as usize));
        assert((c as usize) as int == c);
    }
    vstd::seq_lib::seq_to_set_is_finite(s);
    vstd::set_lib::lemma_map_size_bound(s.to_set(), as_int, |x: usize| x as int);
    lemma_int_range(start, end);
    lemma_len_subset(run, as_int);
    s.lemma_cardinality_of_set();
}

/// In a built PDAG every node above the last layer has at least
/// `min(children_per_node_min, nodes_per_layer_min)` children (all distinct),
/// and with two or more layers the childless nodes are exactly the basic
/// events.
pub proof fn law_gates_have_children(
    t: Topology,
    nodes: Seq<NodeData>,
    edges: Seq<(usize, usize)>,
    p: usize,
)
    requires
        builds_ok(t),
        is_layered(t, nodes),
        edges_fit(t, nodes, edges),
        nodes.len() <= usize::MAX,
        p < nodes.len(),
    ensures
        nodes[p as int].layer + 1 < t.layers ==> out_targets(edges, p).len() >= t.children_per_node_min
            || out_targets(edges, p).len() >= t.nodes_per_layer_min,
        t.layers >= 2 ==> (out_targets(edges, p).len() == 0 <==> nodes[p as int].kind
            == NodeKind::BasicEvent),
{
    let top = (t.layers - 1) as nat;
    let l = nodes[p as int].layer;
    if l + 1 < t.layers {
        assert(has_enough_children(t, nodes, edges, p));
        if out_targets(edges, p).len() < t.children_per_node_min {
            lemma_full_layer_children(t, nodes, edges, top, p);
        }
    }
    if t.layers >= 2 {
        if nodes[p as int].kind == NodeKind::BasicEvent {
            if p == 0 {
                assert(is_root_node(nodes[0]));
            }
            assert(node_fits(t, nodes[p as int]));
            lemma_out_targets_nonempty_from_layer(nodes, edges, p);
        } else {
            if p >= 1 {
                assert(node_fits(t, nodes[p as int]));
            }
            assert(l + 1 < t.layers);
            assert(has_enough_children(t, nodes, edges, p));
            if out_targets(edges, p).len() < t.children_per_node_min {
                let last = nodes.len() - 1;
                lemma_layers_reached(t, nodes, top, last, (l + 1) as nat);
                let f = choose|f: int| 0 <= f <= last && (#[trigger] nodes[f]).layer == l + 1;
                assert(edges.contains((p, f as usize)));
                lemma_out_targets_contains(edges, p, f as usize);
            }
        }
    }
}

/// A node of the last layer has no children: every edge leads one layer
/// down and there is no layer below.
proof fn lemma_out_targets_nonempty_from_layer(
    nodes: Seq<NodeData>,
    edges: Seq<(usize, usize)>,
    p: usize,
)
    requires
        forall|q: int| 0 <= q < edges.len() ==> edge_between_layers(nodes, #[trigger] edges[q]),
        forall|i: int| 0 <= i < nodes.len() ==> (#[trigger] nodes[i]).layer <= nodes[p as int].layer,
        p < nodes.len(),
    ensures
        out_targets(edges, p).len() == 0,
{
    let targets = out_targets(edges, p);
    if targets.len() > 0 {
        assert(targets.contains(targets[0]));
        lemma_out_targets_contains(edges, p, targets[0]);
        let q = choose|q: int| 0 <= q < edges.len() && edges[q] == (p, targets[0]);
        assert(edge_between_layers(nodes, edges[q]));
    }
}

/// Along a chained node sequence, places strictly increase: a later node is
/// in a later layer, or further along the same layer.
proof fn lemma_places_increase(t: Topology, nodes: Seq<NodeData>, top: nat, i: int, j: int)
    requires
        chained(t, nodes, top),
        0 <= i < j < nodes.len(),
    ensures
        nodes[j].layer > nodes[i].layer || (nodes[j].layer == nodes[i].layer
            && nodes[j].index_in_layer > nodes[i].index_in_layer),
    decreases j - i,
{
    assert(next_follows(nodes, j - 1));
    if j > i + 1 {
        lemma_places_increase(t, nodes, top, i, j - 1);
    }
}

/// A place name `{prefix}{layer}-{index}` gives back its layer and index.
proof fn lemma_place_name_injective(prefix: Seq<char>, l1: nat, i1: nat, l2: nat, i2: nat)
    requires
        prefix + decimal(l1) + "-"@ + decimal(i1) == prefix + decimal(l2) + "-"@ + decimal(i2),
    ensures
        l1 == l2,
        i1 == i2,
{
    reveal_strlit("-");
    let a1 = decimal(l1);
    let a2 = decimal(l2);
    let b1 = decimal(i1);
    let b2 = decimal(i2);
    let s1 = prefix + a1 + "-"@ + b1;
    let s2 = prefix + a2 + "-"@ + b2;
    let n = prefix.len() as int;
    lemma_decimal_digits(l1);
    lemma_decimal_digits(l2);
    assert(s1[n + a1.len()] == '-');
    assert(s2[n + a2.len()] == '-');
    if a1.len() < a2.len() {
        assert(s2[n + a1.len()] == a2[a1.len() as int]);
        assert('0' <= a2[a1.len() as int]);
    } else if a2.len() < a1.len() {
        assert(s1[n + a2.len()] == a1[a2.len() as int]);
        assert('0' <= a1[a2.len() as int]);
    }
    assert(a1.len() == a2.len());
    assert(s1.subrange(n, n + a1.len()) =~= a1);
    assert(s2.subrange(n, n + a2.len()) =~= a2);
    lemma_decimal_injective(l1, l2);
    assert(s1.subrange(n + a1.len() + 1, s1.len() as int) =~= b1);
    assert(s2.subrange(n + a2.len() + 1, s2.len() as int) =~= b2);
    lemma_decimal_injective(i1, i2);
}

/// The nodes of a built PDAG have distinct names: `root`, then `G-{l}-{i}`
/// and `BE-{l}-{i}` for distinct places.
pub proof fn law_built_pdag_names_distinct(t: Topology, nodes: Seq<NodeData>)
    requires
        is_layered(t, nodes),
    ensures
        distinct_names(nodes),
{
    reveal_strlit("root");
    reveal_strlit("G-");
    reveal_strlit("BE-");
    let top = (t.layers - 1) as nat;
    assert forall|i: int, j: int| 0 <= i < j < nodes.len() implies (#[trigger] nodes[i]).name@
        != (#[trigger] nodes[j]).name@ by {
        assert(node_fits(t, nodes[j]));
        let nj = nodes[j];
        let gj = gate_name(nj.layer as nat, nj.index_in_layer as nat);
        let bj = basic_event_name(nj.layer as nat, nj.index_in_layer as nat);
        assert(gj[0] == 'G');
        assert(bj[0] == 'B');
        if i == 0 {
            assert(is_root_node(nodes[0]));
            assert(nodes[0].name@[0] == 'r');
        } else {
            assert(node_fits(t, nodes[i]));
            let ni = nodes[i];
            let gi = gate_name(ni.layer as nat, ni.index_in_layer as nat);
            let bi = basic_event_name(ni.layer as nat, ni.index_in_layer as nat);
            assert(gi[0] == 'G');
            assert(bi[0] == 'B');
            lemma_places_increase(t, nodes, top, i, j);
            if ni.name@ == nj.name@ {
                if ni.layer + 1 == t.layers && nj.layer + 1 == t.layers {
                    lemma_place_name_injective(
                        "BE-"@,
                        ni.layer as nat,
                        ni.index_in_layer as nat,
                        nj.layer as nat,
                        nj.index_in_layer as nat,
                    );
                } else if ni.layer + 1 != t.layers && nj.layer + 1 != t.layers {
                    lemma_place_name_injective(
                        "G-"@,
                        ni.layer as nat,
                        ni.index_in_layer as nat,
                        nj.layer as nat,
                        nj.index_in_layer as nat,
                    );
                }
            }
        }
    }
}

} // verus!
