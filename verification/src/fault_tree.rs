//! The fault-tree model and its derivation from a PDAG.
//!
//! A [`FaultTree`] is stored as flat maps in code-point order of their names
//! (gates, basic events, house events); the hierarchy is implied by each
//! gate's `inputs`.  [`FaultTreeMapper::from_pdag`] walks the PDAG's nodes
//! in index order: the root and all gate nodes become gates over the sorted
//! names of their children, the basic-event nodes become basic events.

use vstd::prelude::*;

use crate::graph::{node_weight, out_targets, outgoing};
use crate::names::{
    entry_keys, has_entry, has_key, insert_name, sort_names, sorted, strictly_sorted, text_views,
    NameMap,
};
use crate::pdag::{GateType as PdagGateType, NodeData, NodeKind, Pdag};
use crate::text::{joined, lemma_lex_irreflexive, lex_lt, owned};
use vstd::relations::injective_on;
use vstd::set_lib::{lemma_int_range, lemma_len_subset, lemma_map_size, set_int_range};

verus! {

// ─── Model types ─────────────────────────────────────────────────────────────

/// The logical operator of a fault-tree gate.
#[derive(Debug, Clone, Copy, PartialEq, Eq)]
pub enum GateType {
    /// All inputs must occur.
    And,
    /// At least one input must occur.
    Or,
    /// At least this many of the inputs must occur.
    KofN(usize),
}

/// A logical gate: a name, an operator and the sorted names of its inputs
/// (gates or basic events).
#[derive(Debug, Clone, PartialEq)]
pub struct Gate {
    pub name: String,
    pub gate_type: GateType,
    pub inputs: Vec<String>,
}

/// A leaf failure event.
#[derive(Debug, Clone, PartialEq)]
pub struct BasicEvent {
    pub name: String,
    /// The failure probability, in `[0, 1]`, as the bit pattern of an
    /// IEEE-754 double (`f64::to_bits`).
    pub probability: u64,
}

/// A boundary condition whose state is fixed for the analysis.
#[derive(Debug, Clone, PartialEq, Eq)]
pub struct HouseEvent {
    pub name: String,
    /// Whether the condition holds.
    pub state: bool,
}

/// A complete fault tree: named maps of gates, basic events and house
/// events, and the name of the top gate.
#[derive(Debug, PartialEq)]
pub struct FaultTree {
    /// The tree's name (the XML `name` attribute).
    pub name: String,
    /// The name of the top gate.
    pub top_gate: String,
    pub gates: NameMap<Gate>,
    pub basic_events: NameMap<BasicEvent>,
    pub house_events: NameMap<HouseEvent>,
}

// ─── Errors ──────────────────────────────────────────────────────────────────

/// Errors of mapping a PDAG to a fault tree, or of writing the XML.
#[derive(Debug, Clone, PartialEq, Eq)]
pub enum FaultTreeError {
    /// The PDAG holds no gate node.
    NoGates,
    /// A basic-event node (named here) has no probability.
    MissingProbability(String),
    /// The XML writer failed.
    Xml(String),
    /// The written bytes were not UTF-8.
    Utf8(String),
}

/// The text of a fault-tree error.
pub open spec fn fault_tree_error_text(e: FaultTreeError) -> Seq<char> {
    match e {
        FaultTreeError::NoGates => "invalid PDAG: no gates were generated"@,
        FaultTreeError::MissingProbability(n) => "invalid PDAG: basic event node `"@ + n@
            + "` missing probability"@,
        FaultTreeError::Xml(m) => "XML write error: "@ + m@,
        FaultTreeError::Utf8(m) => "UTF-8 conversion error: "@ + m@,
    }
}

impl FaultTreeError {
    /// The human-readable description of the error.
    pub fn message(&self) -> (s: String)
        ensures
            s@ == fault_tree_error_text(*self),
    {
        match self {
            FaultTreeError::NoGates => owned("invalid PDAG: no gates were generated"),
            FaultTreeError::MissingProbability(n) => {
                let mut s = joined("invalid PDAG: basic event node `", n.as_str());
                s.append("` missing probability");
                s
            },
            FaultTreeError::Xml(m) => joined("XML write error: ", m.as_str()),
            FaultTreeError::Utf8(m) => joined("UTF-8 conversion error: ", m.as_str()),
        }
    }
}

// ─── The mapping, stated ─────────────────────────────────────────────────────

/// Whether a node of this kind becomes a gate (the root and the gates do).
pub open spec fn is_gate_kind(k: NodeKind) -> bool {
    k != NodeKind::BasicEvent
}

/// The fault-tree operator of a gate node: the root is an OR gate, a gate
/// keeps its operator.
pub open spec fn mapped_gate_type(k: NodeKind) -> GateType {
    match k {
        NodeKind::Gate(PdagGateType::And) => GateType::And,
        NodeKind::Gate(PdagGateType::KofN(n)) => GateType::KofN(n),
        _ => GateType::Or,
    }
}

/// The index of the first basic-event node without a probability, or -1.
pub open spec fn first_missing_probability(nodes: Seq<NodeData>) -> int
    decreases nodes.len(),
{
    if nodes.len() == 0 {
        -1
    } else {
        let m = first_missing_probability(nodes.drop_last());
        if m >= 0 {
            m
        } else if nodes.last().kind == NodeKind::BasicEvent && nodes.last().probability is None {
            nodes.len() - 1
        } else {
            -1
        }
    }
}

/// The index of the last node named `k` that is a gate node (`gate`) or a
/// basic-event node (`!gate`), or -1: when names repeat, the last node
/// visited wins.
pub open spec fn last_named(nodes: Seq<NodeData>, k: Seq<char>, gate: bool) -> int
    decreases nodes.len(),
{
    if nodes.len() == 0 {
        -1
    } else if is_gate_kind(nodes.last().kind) == gate && nodes.last().name@ == k {
        nodes.len() - 1
    } else {
        last_named(nodes.drop_last(), k, gate)
    }
}

/// The names of the nodes listed in `targets`.
pub open spec fn child_names(nodes: Seq<NodeData>, targets: Seq<usize>) -> Seq<Seq<char>> {
    targets.map_values(|c: usize| nodes[c as int].name@)
}

/// `g` is a gate made from node `i`: its name, its operator, and the
/// names of its children, sorted (repeats kept).
pub open spec fn gate_of_node(
    g: Gate,
    nodes: Seq<NodeData>,
    edges: Seq<(usize, usize)>,
    i: int,
) -> bool {
    &&& g.name@ == nodes[i].name@
    &&& g.gate_type == mapped_gate_type(nodes[i].kind)
    &&& sorted(text_views(g.inputs@))
    &&& text_views(g.inputs@).to_multiset() == child_names(nodes, out_targets(edges, i as usize)).to_multiset()
}

/// `b` is the basic event made from node `n`.
pub open spec fn basic_event_of_node(b: BasicEvent, n: NodeData) -> bool {
    b.name@ == n.name@ && n.probability == Some(b.probability)
}

/// The gates of `m` are those made from gate nodes of `nodes`, one per
/// name, from the last node of that name.
pub open spec fn gates_of_nodes(
    m: Seq<(Seq<char>, Gate)>,
    nodes: Seq<NodeData>,
    edges: Seq<(usize, usize)>,
) -> bool {
    &&& forall|k: Seq<char>| #[trigger] has_key(m, k) <==> last_named(nodes, k, true) >= 0
    &&& forall|p: int|
        0 <= p < m.len() ==> gate_of_node(
            (#[trigger] m[p]).1,
            nodes,
            edges,
            last_named(nodes, m[p].0, true),
        )
}

/// The basic events of `m` are those made from the basic-event nodes of
/// `nodes`, one per name, from the last node of that name.
pub open spec fn basic_events_of_nodes(m: Seq<(Seq<char>, BasicEvent)>, nodes: Seq<NodeData>) -> bool {
    &&& forall|k: Seq<char>| #[trigger] has_key(m, k) <==> last_named(nodes, k, false) >= 0
    &&& forall|p: int|
        0 <= p < m.len() ==> basic_event_of_node(
            (#[trigger] m[p]).1,
            nodes[last_named(nodes, m[p].0, false)],
        )
}

/// Some node is named `x`.
pub open spec fn node_named(nodes: Seq<NodeData>, x: Seq<char>) -> bool {
    exists|c: int| 0 <= c < nodes.len() && (#[trigger] nodes[c]).name@ == x
}

/// Every name of `xs` is the name of a node.
pub open spec fn names_nodes(xs: Seq<Seq<char>>, nodes: Seq<NodeData>) -> bool {
    forall|q: int| 0 <= q < xs.len() ==> #[trigger] node_named(nodes, xs[q])
}

/// Every input of every gate of `ft` names a gate or a basic event of `ft`.
pub open spec fn inputs_defined(ft: FaultTree) -> bool {
    forall|p: int, q: int|
        0 <= p < ft.gates@.len() && 0 <= q < ft.gates@[p].1.inputs@.len() ==> {
            let x = (#[trigger] ft.gates@[p].1.inputs@[q])@;
            has_key(ft.gates@, x) || has_key(ft.basic_events@, x)
        }
}

/// Some node is a gate node.
pub open spec fn has_gate_node(nodes: Seq<NodeData>) -> bool {
    exists|i: int| 0 <= i < nodes.len() && is_gate_kind((#[trigger] nodes[i]).kind)
}

/// `ft` is the fault tree named after `model_name` that maps the PDAG with
/// these nodes, edges and root.
pub open spec fn maps_pdag(
    ft: FaultTree,
    model_name: Seq<char>,
    nodes: Seq<NodeData>,
    edges: Seq<(usize, usize)>,
    root: usize,
) -> bool {
    &&& ft.name@ == model_name + "-fault-tree"@
    &&& ft.top_gate@ == nodes[root as int].name@
    &&& gates_of_nodes(ft.gates@, nodes, edges)
    &&& basic_events_of_nodes(ft.basic_events@, nodes)
    &&& ft.house_events@.len() == 0
}

// ─── Facts about the stated mapping ──────────────────────────────────────────

pub(crate) proof fn lemma_last_named(nodes: Seq<NodeData>, k: Seq<char>, gate: bool)
    ensures
        last_named(nodes, k, gate) < nodes.len(),
        last_named(nodes, k, gate) >= 0 ==> (is_gate_kind(nodes[last_named(nodes, k, gate)].kind)
            == gate && nodes[last_named(nodes, k, gate)].name@ == k),
        forall|j: int|
            0 <= j < nodes.len() && is_gate_kind((#[trigger] nodes[j]).kind) == gate && nodes[j].name@
                == k ==> j <= last_named(nodes, k, gate),
    decreases nodes.len(),
{
    if nodes.len() > 0 {
        lemma_last_named(nodes.drop_last(), k, gate);
        assert forall|j: int|
            0 <= j < nodes.len() && is_gate_kind((#[trigger] nodes[j]).kind) == gate && nodes[j].name@
                == k implies j <= last_named(nodes, k, gate) by {
            if j < nodes.len() - 1 {
                assert(nodes.drop_last()[j] == nodes[j]);
            }
        }
    }
}

/// No two nodes share a name.
pub open spec fn distinct_names(nodes: Seq<NodeData>) -> bool {
    forall|i: int, j: int| 0 <= i < j < nodes.len() ==> (#[trigger] nodes[i]).name@ != (#[trigger] nodes[j]).name@
}

/// The indices of all gate nodes (`gate`) or of all basic-event nodes.
pub open spec fn kind_indices(nodes: Seq<NodeData>, gate: bool) -> Set<int> {
    Set::new(|i: int| 0 <= i < nodes.len() && is_gate_kind(nodes[i].kind) == gate)
}

/// A map with one name per node of a kind holds, when the nodes' names are
/// distinct, as many entries as there are nodes of that kind.
proof fn lemma_one_entry_per_node<V>(m: Seq<(Seq<char>, V)>, nodes: Seq<NodeData>, gate: bool)
    requires
        strictly_sorted(entry_keys(m)),
        forall|k: Seq<char>| #[trigger] has_key(m, k) <==> last_named(nodes, k, gate) >= 0,
        distinct_names(nodes),
    ensures
        m.len() == kind_indices(nodes, gate).len(),
{
    let idx = kind_indices(nodes, gate);
    let f = |i: int| nodes[i].name@;
    let keys = entry_keys(m);
    lemma_int_range(0, nodes.len() as int);
    assert(idx.subset_of(set_int_range(0, nodes.len() as int)));
    lemma_len_subset(idx, set_int_range(0, nodes.len() as int));
    assert(injective_on(f, idx)) by {
        assert forall|x1: int, x2: int|
            idx.contains(x1) && idx.contains(x2) && #[trigger] f(x1) == #[trigger] f(x2) implies x1 == x2 by {
            if x1 < x2 {
                assert(nodes[x1].name@ != nodes[x2].name@);
            } else if x2 < x1 {
                assert(nodes[x2].name@ != nodes[x1].name@);
            }
        }
    }
    assert(keys.to_set() =~= idx.map(f)) by {
        assert forall|k: Seq<char>| keys.to_set().contains(k) implies idx.map(f).contains(k) by {
            let p = choose|p: int| 0 <= p < keys.len() && keys[p] == k;
            assert(m[p].0 == k);
            assert(has_key(m, k));
            lemma_last_named(nodes, k, gate);
            let i = last_named(nodes, k, gate);
            assert(idx.contains(i) && f(i) == k);
        }
        assert forall|k: Seq<char>| idx.map(f).contains(k) implies keys.to_set().contains(k) by {
            let i = choose|i: int| idx.contains(i) && f(i) == k;
            lemma_last_named(nodes, k, gate);
            assert(nodes[i].name@ == k);
            assert(has_key(m, k));
            let p = choose|p: int| 0 <= p < m.len() && (#[trigger] m[p]).0 == k;
            assert(keys[p] == k);
        }
    }
    assert(keys.no_duplicates()) by {
        assert forall|i: int, j: int| 0 <= i < keys.len() && 0 <= j < keys.len() && i != j implies keys[i]
            != keys[j] by {
            if i < j {
                assert(lex_lt(keys[i], keys[j]));
                lemma_lex_irreflexive(keys[i]);
            } else {
                assert(lex_lt(keys[j], keys[i]));
                lemma_lex_irreflexive(keys[j]);
            }
        }
    }
    keys.unique_seq_to_set();
    lemma_map_size(idx, keys.to_set(), f);
}

// ─── PDAG → fault tree ───────────────────────────────────────────────────────

/// Maps a PDAG to a fault tree.
pub struct FaultTreeMapper;

/// The names of the children of node `i`, sorted.
fn sorted_child_names(pdag: &Pdag, i: usize) -> (r: Vec<String>)
    requires
        i < pdag.nodes().len(),
        pdag.nodes().len() <= u32::MAX,
    ensures
        sorted(text_views(r@)),
        text_views(r@).to_multiset() == child_names(pdag.nodes(), out_targets(pdag.edges(), i)).to_multiset(),
        names_nodes(text_views(r@), pdag.nodes()),
{
    let targets = outgoing(&pdag.graph, i);
    let ghost nodes = pdag.nodes();
    let mut names: Vec<String> = Vec::new();
    let mut j: usize = 0;
    while j < targets.len()
        invariant
            nodes == pdag.nodes(),
            forall|k: int| 0 <= k < targets@.len() ==> #[trigger] targets@[k] < nodes.len(),
            j <= targets@.len(),
            names@.len() == j,
            forall|k: int| 0 <= k < j ==> (#[trigger] names@[k])@ == nodes[targets@[k] as int].name@,
        decreases targets@.len() - j,
    {
        let c = targets[j];
        names.push(node_weight(&pdag.graph, c).name.clone());
        j = j + 1;
    }
    assert(text_views(names@) =~= child_names(nodes, targets@));
    let ghost unsorted = text_views(names@);
    assert(names_nodes(unsorted, nodes)) by {
        assert forall|q: int| 0 <= q < unsorted.len() implies #[trigger] node_named(nodes, unsorted[q]) by {
            let c = targets@[q] as int;
            assert(nodes[c].name@ == unsorted[q]);
        }
    }
    let r = sort_names(names);
    proof {
        lemma_names_nodes_permuted(unsorted, text_views(r@), nodes);
    }
    r
}

/// Reordering names keeps them names of nodes.
proof fn lemma_names_nodes_permuted(a: Seq<Seq<char>>, b: Seq<Seq<char>>, nodes: Seq<NodeData>)
    requires
        names_nodes(a, nodes),
        b.to_multiset() == a.to_multiset(),
    ensures
        names_nodes(b, nodes),
{
    broadcast use vstd::seq_lib::group_to_multiset_ensures;

    assert forall|q: int| 0 <= q < b.len() implies #[trigger] node_named(nodes, b[q]) by {
        assert(b.to_multiset().count(b[q]) > 0);
        assert(a.contains(b[q]));
        let p = choose|p: int| 0 <= p < a.len() && a[p] == b[q];
        assert(node_named(nodes, a[p]));
    }
}

/// `g` has the operator that a fault tree gives the node kind `k`: an AND
/// node gives an AND gate, an OR node an OR gate, a K-of-N node a K-of-N
/// gate with the same `k`, and the root an OR gate.
pub open spec fn keeps_operator(k: NodeKind, g: GateType) -> bool {
    &&& k == NodeKind::Gate(PdagGateType::And) ==> g == GateType::And
    &&& k == NodeKind::Gate(PdagGateType::Or) ==> g == GateType::Or
    &&& forall|n: usize| k == NodeKind::Gate(PdagGateType::KofN(n)) ==> g == GateType::KofN(n)
    &&& k == NodeKind::Root ==> g == GateType::Or
    &&& k != NodeKind::BasicEvent
}

/// A fault tree that maps a PDAG keeps every gate's operator: each gate is
/// made from a gate node (or the root) of its name and has that node's
/// operator, the root's gate being an OR gate; and each gate node that is
/// the last of its name has a gate of its name with its operator.
pub proof fn law_gate_operators_kept(
    ft: FaultTree,
    model_name: Seq<char>,
    nodes: Seq<NodeData>,
    edges: Seq<(usize, usize)>,
    root: usize,
)
    requires
        maps_pdag(ft, model_name, nodes, edges, root),
    ensures
        forall|p: int|
            0 <= p < ft.gates@.len() ==> exists|i: int|
                0 <= i < nodes.len() && nodes[i].name@ == (#[trigger] ft.gates@[p]).0 && keeps_operator(
                    nodes[i].kind,
                    ft.gates@[p].1.gate_type,
                ),
        forall|i: int|
            0 <= i < nodes.len() && (#[trigger] nodes[i]).kind != NodeKind::BasicEvent && last_named(
                nodes,
                nodes[i].name@,
                true,
            ) == i ==> exists|p: int|
                0 <= p < ft.gates@.len() && ft.gates@[p].0 == nodes[i].name@ && keeps_operator(
                    nodes[i].kind,
                    #[trigger] ft.gates@[p].1.gate_type,
                ),
{
    assert forall|p: int| 0 <= p < ft.gates@.len() implies exists|i: int|
        0 <= i < nodes.len() && nodes[i].name@ == (#[trigger] ft.gates@[p]).0 && keeps_operator(
            nodes[i].kind,
            ft.gates@[p].1.gate_type,
        ) by {
        let k = ft.gates@[p].0;
        assert(has_key(ft.gates@, k));
        lemma_last_named(nodes, k, true);
        let i = last_named(nodes, k, true);
        assert(gate_of_node(ft.gates@[p].1, nodes, edges, i));
    }
    assert forall|i: int|
        0 <= i < nodes.len() && (#[trigger] nodes[i]).kind != NodeKind::BasicEvent && last_named(
            nodes,
            nodes[i].name@,
            true,
        ) == i implies exists|p: int|
        0 <= p < ft.gates@.len() && ft.gates@[p].0 == nodes[i].name@ && keeps_operator(
            nodes[i].kind,
            #[trigger] ft.gates@[p].1.gate_type,
        ) by {
        let k = nodes[i].name@;
        assert(has_key(ft.gates@, k));
        let p = choose|p: int| 0 <= p < ft.gates@.len() && (#[trigger] ft.gates@[p]).0 == k;
        assert(gate_of_node(ft.gates@[p].1, nodes, edges, i));
    }
}

/// The fault-tree operator of a gate node.
fn gate_type_of(kind: NodeKind) -> (t: GateType)
    ensures
        t == mapped_gate_type(kind),
{
    match kind {
        NodeKind::Gate(PdagGateType::And) => GateType::And,
        NodeKind::Gate(PdagGateType::KofN(n)) => GateType::KofN(n),
        _ => GateType::Or,
    }
}

impl FaultTreeMapper {
    /// Converts a PDAG to the fault tree named `"{model_name}-fault-tree"`.
    ///
    /// Visiting the nodes in index order, the root becomes an OR gate and
    /// each gate node a gate of its operator, over the sorted names of its
    /// children; each basic-event node becomes a basic event with its
    /// probability.  The first basic-event node without a probability stops
    /// the mapping with `MissingProbability`; a PDAG without gate nodes gives
    /// `NoGates`.  The top gate is the root node's name.
    pub fn from_pdag(model_name: &str, pdag: &Pdag) -> (r: Result<FaultTree, FaultTreeError>)
        requires
            first_missing_probability(pdag.nodes()) < 0 && has_gate_node(pdag.nodes()) ==> pdag.root
                < pdag.nodes().len(),
        ensures
            match r {
                Err(FaultTreeError::MissingProbability(name)) => first_missing_probability(
                    pdag.nodes(),
                ) >= 0 && name@ == pdag.nodes()[first_missing_probability(pdag.nodes())].name@,
                Err(FaultTreeError::NoGates) => first_missing_probability(pdag.nodes()) < 0
                    && !has_gate_node(pdag.nodes()),
                Err(_) => false,
                Ok(ft) => first_missing_probability(pdag.nodes()) < 0 && has_gate_node(pdag.nodes())
                    && maps_pdag(ft, model_name@, pdag.nodes(), pdag.edges(), pdag.root),
            },
            r matches Ok(ft) ==> inputs_defined(ft),
            distinct_names(pdag.nodes()) ==> (r matches Ok(ft) ==> ft.gates@.len() == kind_indices(
                pdag.nodes(),
                true,
            ).len() && ft.basic_events@.len() == kind_indices(pdag.nodes(), false).len()),
    {
        let ghost nodes = pdag.nodes();
        let ghost edges = pdag.edges();
        let n = crate::graph::node_count(&pdag.graph);
        let mut gates: NameMap<Gate> = NameMap::new();
        let mut basic_events: NameMap<BasicEvent> = NameMap::new();
        let mut i: usize = 0;
        while i < n
            invariant
                nodes == pdag.nodes(),
                edges == pdag.edges(),
                n == nodes.len(),
                n <= u32::MAX,
                i <= n,
                first_missing_probability(nodes.take(i as int)) < 0,
                forall|k: Seq<char>, g: Gate|
                    #[trigger] has_entry(gates@, k, g) ==> gate_of_node(
                        g,
                        nodes,
                        edges,
                        last_named(nodes.take(i as int), k, true),
                    ),
                forall|k: Seq<char>|
                    #[trigger] has_key(gates@, k) <==> last_named(nodes.take(i as int), k, true) >= 0,
                forall|k: Seq<char>, g: Gate|
                    #[trigger] has_entry(gates@, k, g) ==> names_nodes(text_views(g.inputs@), nodes),
                forall|k: Seq<char>, b: BasicEvent|
                    #[trigger] has_entry(basic_events@, k, b) ==> basic_event_of_node(
                        b,
                        nodes[last_named(nodes.take(i as int), k, false)],
                    ),
                forall|k: Seq<char>|
                    #[trigger] has_key(basic_events@, k) <==> last_named(nodes.take(i as int), k, false)
                        >= 0,
            decreases n - i,
        {
            let ghost before = nodes.take(i as int);
            let ghost after = nodes.take(i + 1);
            assert(after.drop_last() =~= before);
            assert(after.last() == nodes[i as int]);
            let node = node_weight(&pdag.graph, i);
            let ghost old_gates = gates@;
            let ghost old_events = basic_events@;
            proof {
                lemma_last_named(before, node.name@, true);
                lemma_last_named(before, node.name@, false);
            }
            match node.kind {
                NodeKind::BasicEvent => {
                    match node.probability {
                        None => {
                            assert(first_missing_probability(after) == i);
                            assert(first_missing_probability(nodes) == i) by {
                                lemma_first_missing_prefix(nodes, i as int);
                            }
                            return Err(FaultTreeError::MissingProbability(node.name.clone()));
                        },
                        Some(p) => {
                            let be = BasicEvent { name: node.name.clone(), probability: p };
                            let ghost bv = be;
                            basic_events.insert(node.name.clone(), be);
                            proof {
                                lemma_insert_keys(old_events, basic_events@, node.name@, bv);
                                assert forall|k: Seq<char>, b: BasicEvent|
                                    #[trigger] has_entry(basic_events@, k, b) implies basic_event_of_node(
                                    b,
                                    nodes[last_named(after, k, false)],
                                ) by {
                                    if k != node.name@ {
                                        assert(has_entry(old_events, k, b));
                                    }
                                }
                                assert forall|k: Seq<char>, g: Gate|
                                    #[trigger] has_entry(gates@, k, g) implies gate_of_node(
                                    g,
                                    nodes,
                                    edges,
                                    last_named(after, k, true),
                                ) && names_nodes(text_views(g.inputs@), nodes) by {
                                    assert(has_entry(old_gates, k, g));
                                }
                            }
                        },
                    }
                },
                _ => {
                    let inputs = sorted_child_names(pdag, i);
                    let gate_type = gate_type_of(node.kind);
                    let gate = Gate { name: node.name.clone(), gate_type, inputs };
                    let ghost gv = gate;
                    gates.insert(node.name.clone(), gate);
                    proof {
                        lemma_insert_keys(old_gates, gates@, node.name@, gv);
                        assert forall|k: Seq<char>, g: Gate|
                            #[trigger] has_entry(gates@, k, g) implies gate_of_node(
                            g,
                            nodes,
                            edges,
                            last_named(after, k, true),
                        ) && names_nodes(text_views(g.inputs@), nodes) by {
                            if k != node.name@ {
                                assert(has_entry(old_gates, k, g));
                            }
                        }
                        assert forall|k: Seq<char>, b: BasicEvent|
                            #[trigger] has_entry(basic_events@, k, b) implies basic_event_of_node(
                            b,
                            nodes[last_named(after, k, false)],
                        ) by {
                            assert(has_entry(old_events, k, b));
                        }
                    }
                },
            }
            i = i + 1;
        }
        assert(nodes.take(n as int) =~= nodes);
        proof {
            if has_gate_node(nodes) {
                let j = choose|j: int| 0 <= j < nodes.len() && is_gate_kind((#[trigger] nodes[j]).kind);
                lemma_last_named(nodes, nodes[j].name@, true);
                assert(has_key(gates@, nodes[j].name@));
            }
            if gates@.len() > 0 {
                assert(has_key(gates@, gates@[0].0));
                lemma_last_named(nodes, gates@[0].0, true);
            }
        }
        if gates.is_empty() {
            return Err(FaultTreeError::NoGates);
        }
        gates.ordered();
        basic_events.ordered();
        proof {
            if distinct_names(nodes) {
                lemma_one_entry_per_node(gates@, nodes, true);
                lemma_one_entry_per_node(basic_events@, nodes, false);
            }
        }
        let top_gate = node_weight(&pdag.graph, pdag.root).name.clone();
        let ft = FaultTree {
            name: joined(model_name, "-fault-tree"),
            top_gate,
            gates,
            basic_events,
            house_events: NameMap::new(),
        };
        proof {
            assert forall|p: int, q: int|
                0 <= p < ft.gates@.len() && 0 <= q < ft.gates@[p].1.inputs@.len() implies {
                let x = (#[trigger] ft.gates@[p].1.inputs@[q])@;
                has_key(ft.gates@, x) || has_key(ft.basic_events@, x)
            } by {
                let g = ft.gates@[p].1;
                assert(has_entry(ft.gates@, ft.gates@[p].0, g));
                let x = g.inputs@[q]@;
                assert(text_views(g.inputs@)[q] == x);
                assert(node_named(nodes, x));
                let c = choose|c: int| 0 <= c < nodes.len() && (#[trigger] nodes[c]).name@ == x;
                lemma_last_named(nodes, x, is_gate_kind(nodes[c].kind));
            }
            assert forall|p: int| 0 <= p < ft.gates@.len() implies gate_of_node(
                (#[trigger] ft.gates@[p]).1,
                nodes,
                edges,
                last_named(nodes, ft.gates@[p].0, true),
            ) by {
                assert(has_entry(ft.gates@, ft.gates@[p].0, ft.gates@[p].1));
            }
            assert forall|p: int| 0 <= p < ft.basic_events@.len() implies basic_event_of_node(
                (#[trigger] ft.basic_events@[p]).1,
                nodes[last_named(nodes, ft.basic_events@[p].0, false)],
            ) by {
                assert(has_entry(ft.basic_events@, ft.basic_events@[p].0, ft.basic_events@[p].1));
            }
        }
        Ok(ft)
    }
}

/// Stepping past a node that is not a basic event without probability keeps
/// the first such node's index, and once found it stays found.
proof fn lemma_first_missing_prefix(nodes: Seq<NodeData>, i: int)
    requires
        0 <= i < nodes.len(),
        first_missing_probability(nodes.take(i + 1)) == i,
    ensures
        first_missing_probability(nodes) == i,
    decreases nodes.len(),
{
    if nodes.len() == i + 1 {
        assert(nodes.take(i + 1) =~= nodes);
    } else {
        assert(nodes.drop_last().take(i + 1) =~= nodes.take(i + 1));
        lemma_first_missing_prefix(nodes.drop_last(), i);
    }
}

/// After `insert(key, _)` the names of a map are the old ones and `key`.
proof fn lemma_insert_keys<V>(
    old_m: Seq<(Seq<char>, V)>,
    new_m: Seq<(Seq<char>, V)>,
    key: Seq<char>,
    value: V,
)
    requires
        forall|k: Seq<char>, v: V|
            #[trigger] has_entry(new_m, k, v) <==> ((k == key && v == value) || (k != key
                && has_entry(old_m, k, v))),
    ensures
        forall|k: Seq<char>| #[trigger] has_key(new_m, k) <==> (k == key || has_key(old_m, k)),
{
    assert(has_entry(new_m, key, value));
    assert forall|k: Seq<char>| #[trigger] has_key(new_m, k) <==> (k == key || has_key(old_m, k)) by {
        if k == key {
            let i = choose|i: int| 0 <= i < new_m.len() && #[trigger] new_m[i] == (key, value);
            assert(new_m[i].0 == k);
        }
        if has_key(new_m, k) {
            let i = choose|i: int| 0 <= i < new_m.len() && (#[trigger] new_m[i]).0 == k;
            assert(has_entry(new_m, k, new_m[i].1));
        }
        if k != key && has_key(old_m, k) {
            let i = choose|i: int| 0 <= i < old_m.len() && (#[trigger] old_m[i]).0 == k;
            assert(has_entry(old_m, k, old_m[i].1));
            assert(has_entry(new_m, k, old_m[i].1));
        }
    }
}

// ─── Names defined by a fault tree ───────────────────────────────────────────

impl FaultTree {
    /// All names the tree defines: its gates, basic events and house events,
    /// each once, in code-point order.
    pub fn all_references(&self) -> (r: Vec<String>)
        ensures
            strictly_sorted(text_views(r@)),
            forall|k: Seq<char>|
                text_views(r@).contains(k) <==> (has_key(self.gates@, k) || has_key(
                    self.basic_events@,
                    k,
                ) || has_key(self.house_events@, k)),
    {
        let mut r: Vec<String> = Vec::new();
        let g = self.gates.keys();
        let b = self.basic_events.keys();
        let h = self.house_events.keys();
        add_all(&mut r, &g);
        add_all(&mut r, &b);
        add_all(&mut r, &h);
        proof {
            lemma_keys_contains(self.gates@);
            lemma_keys_contains(self.basic_events@);
            lemma_keys_contains(self.house_events@);
            assert forall|k: Seq<char>|
                text_views(r@).contains(k) <==> (has_key(self.gates@, k) || has_key(
                    self.basic_events@,
                    k,
                ) || has_key(self.house_events@, k)) by {
                assert(text_views(r@).to_set().contains(k) == text_views(r@).contains(k));
            }
        }
        r
    }
}

/// The names of a map's entries are exactly its keys.
proof fn lemma_keys_contains<V>(m: Seq<(Seq<char>, V)>)
    ensures
        forall|k: Seq<char>| #[trigger] entry_keys(m).contains(k) <==> has_key(m, k),
{
    assert forall|k: Seq<char>| #[trigger] entry_keys(m).contains(k) <==> has_key(m, k) by {
        if entry_keys(m).contains(k) {
            let i = choose|i: int| 0 <= i < entry_keys(m).len() && entry_keys(m)[i] == k;
            assert(m[i].0 == k);
        }
        if has_key(m, k) {
            let i = choose|i: int| 0 <= i < m.len() && (#[trigger] m[i]).0 == k;
            assert(entry_keys(m)[i] == k);
        }
    }
}

/// Adds every name of `names` to the sorted name set `set`.
fn add_all(set: &mut Vec<String>, names: &Vec<String>)
    requires
        strictly_sorted(text_views(old(set)@)),
    ensures
        strictly_sorted(text_views(final(set)@)),
        text_views(final(set)@).to_set() == text_views(old(set)@).to_set().union(
            text_views(names@).to_set(),
        ),
{
    let ghost start = text_views(set@).to_set();
    let mut i: usize = 0;
    while i < names.len()
        invariant
            i <= names@.len(),
            strictly_sorted(text_views(set@)),
            text_views(set@).to_set() == start.union(text_views(names@.take(i as int)).to_set()),
        decreases names@.len() - i,
    {
        insert_name(set, names[i].clone());
        assert(text_views(names@.take(i + 1)) =~= text_views(names@.take(i as int)).push(names@[i as int]@));
        assert(text_views(set@).to_set() =~= start.union(text_views(names@.take(i + 1)).to_set())) by {
            broadcast use vstd::seq_lib::group_seq_properties;
        }
        i = i + 1;
    }
    assert(names@.take(names@.len() as int) =~= names@);
}

} // verus!
