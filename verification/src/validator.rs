//! Checks run on generated models: the structure of a PDAG, the
//! probabilities of a fault tree, and the names an event tree refers to.

use vstd::prelude::*;

use crate::config::{builds_ok, Topology};
use crate::event_tree::{is_event_tree_for, EventTree};
use crate::fault_tree::{is_gate_kind, last_named, lemma_last_named, maps_pdag, FaultTree};
use crate::graph::{has_cycle, is_cyclic, node_weight, out_targets, outgoing};
use crate::names::{has_key, text_views};
use crate::pdag::{
    edges_fit, is_layered, is_root_node, law_built_pdag_is_acyclic, law_gates_have_children,
    node_fits, NodeData, NodeKind, Pdag,
};
use crate::text::{decimal, joined, owned, push_decimal, str_eq};

verus! {

// ─── Errors ──────────────────────────────────────────────────────────────────

/// The check that failed, with what it found.
#[derive(Debug, Clone, PartialEq, Eq)]
pub enum ValidationError {
    Structure(String),
    Probabilistic(String),
    Reference(String),
}

/// The text of a validation error.
pub open spec fn validation_error_text(e: ValidationError) -> Seq<char> {
    match e {
        ValidationError::Structure(m) => "structural validation failed: "@ + m@,
        ValidationError::Probabilistic(m) => "probabilistic validation failed: "@ + m@,
        ValidationError::Reference(m) => "reference integrity validation failed: "@ + m@,
    }
}

impl ValidationError {
    /// The human-readable description of the error.
    pub fn message(&self) -> (s: String)
        ensures
            s@ == validation_error_text(*self),
    {
        match self {
            ValidationError::Structure(m) => joined("structural validation failed: ", m.as_str()),
            ValidationError::Probabilistic(m) => joined(
                "probabilistic validation failed: ",
                m.as_str(),
            ),
            ValidationError::Reference(m) => joined(
                "reference integrity validation failed: ",
                m.as_str(),
            ),
        }
    }
}

// ─── Structure of a PDAG ─────────────────────────────────────────────────────

/// Node `i` is a gate (or the root) with fewer than two children.
pub open spec fn is_thin_gate(nodes: Seq<NodeData>, edges: Seq<(usize, usize)>, i: int) -> bool {
    nodes[i].kind != NodeKind::BasicEvent && out_targets(edges, i as usize).len() < 2
}

/// The first of nodes `0 .. n` that is a thin gate, or -1.
pub open spec fn first_thin_gate(nodes: Seq<NodeData>, edges: Seq<(usize, usize)>, n: int) -> int
    decreases n,
{
    if n <= 0 {
        -1
    } else {
        let m = first_thin_gate(nodes, edges, n - 1);
        if m >= 0 {
            m
        } else if is_thin_gate(nodes, edges, n - 1) {
            n - 1
        } else {
            -1
        }
    }
}

/// The outcome of the structural check: a cycle fails it, then the first
/// gate with fewer than two children.
pub open spec fn structural_check(nodes: Seq<NodeData>, edges: Seq<(usize, usize)>) -> Result<
    (),
    Seq<char>,
> {
    if has_cycle(edges) {
        Err("PDAG must be acyclic"@)
    } else if first_thin_gate(nodes, edges, nodes.len() as int) >= 0 {
        let i = first_thin_gate(nodes, edges, nodes.len() as int);
        Err(
            "gate "@ + nodes[i].name@ + " has "@ + decimal(out_targets(edges, i as usize).len())
                + " children (< 2)"@,
        )
    } else {
        Ok(())
    }
}

proof fn lemma_first_thin_gate(nodes: Seq<NodeData>, edges: Seq<(usize, usize)>, n: int)
    requires
        0 <= n,
    ensures
        first_thin_gate(nodes, edges, n) < n,
        first_thin_gate(nodes, edges, n) >= 0 ==> is_thin_gate(
            nodes,
            edges,
            first_thin_gate(nodes, edges, n),
        ),
        first_thin_gate(nodes, edges, n) < 0 ==> forall|j: int|
            0 <= j < n ==> !#[trigger] is_thin_gate(nodes, edges, j),
    decreases n,
{
    if n > 0 {
        lemma_first_thin_gate(nodes, edges, n - 1);
    }
}

/// The structural check passes exactly when the edges have no directed
/// cycle and every node that is not a basic event, the root included, has
/// at least two children; a gate with no child or one child always fails
/// it.
pub proof fn law_structural_check_passes(nodes: Seq<NodeData>, edges: Seq<(usize, usize)>)
    ensures
        structural_check(nodes, edges) is Ok <==> (!has_cycle(edges) && forall|i: int|
            0 <= i < nodes.len() && (#[trigger] nodes[i]).kind != NodeKind::BasicEvent ==> out_targets(
                edges,
                i as usize,
            ).len() >= 2),
        forall|i: int|
            0 <= i < nodes.len() && (#[trigger] nodes[i]).kind != NodeKind::BasicEvent && out_targets(
                edges,
                i as usize,
            ).len() <= 1 ==> structural_check(nodes, edges) is Err,
{
    lemma_first_thin_gate(nodes, edges, nodes.len() as int);
    if first_thin_gate(nodes, edges, nodes.len() as int) >= 0 {
        let g = first_thin_gate(nodes, edges, nodes.len() as int);
        assert(is_thin_gate(nodes, edges, g));
        assert(nodes[g].kind != NodeKind::BasicEvent);
    } else {
        assert forall|i: int| 0 <= i < nodes.len() && (#[trigger] nodes[i]).kind != NodeKind::BasicEvent
            implies out_targets(edges, i as usize).len() >= 2 by {
            assert(!is_thin_gate(nodes, edges, i));
        }
    }
    assert forall|i: int|
        0 <= i < nodes.len() && (#[trigger] nodes[i]).kind != NodeKind::BasicEvent && out_targets(
            edges,
            i as usize,
        ).len() <= 1 implies structural_check(nodes, edges) is Err by {
        if first_thin_gate(nodes, edges, nodes.len() as int) < 0 {
            assert(!is_thin_gate(nodes, edges, i));
        }
    }
}

/// Checks a PDAG's structure.
pub struct StructuralValidator;

impl StructuralValidator {
    /// Checks that the PDAG has no directed cycle and that every gate (the
    /// root included) has at least two children.  A cycle is reported
    /// first, then the first gate in node order with fewer children.
    pub fn validate_pdag(pdag: &Pdag) -> (r: Result<(), ValidationError>)
        ensures
            match structural_check(pdag.nodes(), pdag.edges()) {
                Ok(()) => r is Ok,
                Err(m) => r matches Err(ValidationError::Structure(s)) && s@ == m,
            },
    {
        let ghost nodes = pdag.nodes();
        let ghost edges = pdag.edges();
        if is_cyclic(&pdag.graph) {
            return Err(ValidationError::Structure(owned("PDAG must be acyclic")));
        }
        let gates = pdag.gates();
        let n = pdag.node_count();
        proof {
            lemma_first_thin_gate(nodes, edges, nodes.len() as int);
        }
        let mut k: usize = 0;
        while k < gates.len()
            invariant
                nodes == pdag.nodes(),
                edges == pdag.edges(),
                n == nodes.len(),
                n <= u32::MAX,
                !has_cycle(edges),
                k <= gates@.len(),
                forall|a: int, b: int| 0 <= a < b < gates@.len() ==> gates@[a] < gates@[b],
                forall|i: usize|
                    gates@.contains(i) <==> (i < nodes.len() && nodes[i as int].kind
                        != NodeKind::BasicEvent),
                k > 0 ==> forall|j: int| 0 <= j <= gates@[k - 1] ==> !#[trigger] is_thin_gate(nodes, edges, j),
                first_thin_gate(nodes, edges, nodes.len() as int) < nodes.len(),
                first_thin_gate(nodes, edges, nodes.len() as int) >= 0 ==> is_thin_gate(
                    nodes,
                    edges,
                    first_thin_gate(nodes, edges, nodes.len() as int),
                ),
                first_thin_gate(nodes, edges, nodes.len() as int) < 0 ==> forall|j: int|
                    0 <= j < nodes.len() ==> !#[trigger] is_thin_gate(nodes, edges, j),
            decreases gates@.len() - k,
        {
            let node = gates[k];
            assert(gates@.contains(node));
            let children = outgoing(&pdag.graph, node);
            if children.len() < 2 {
                let mut m = owned("gate ");
                m.append(node_weight(&pdag.graph, node).name.as_str());
                m.append(" has ");
                push_decimal(&mut m, children.len() as u64);
                m.append(" children (< 2)");
                proof {
                    assert(is_thin_gate(nodes, edges, node as int));
                    lemma_first_is_least(nodes, edges, gates@, k as int);
                }
                return Err(ValidationError::Structure(m));
            }
            proof {
                assert forall|j: int| 0 <= j <= gates@[k as int] implies !#[trigger] is_thin_gate(
                    nodes,
                    edges,
                    j,
                ) by {
                    if j < gates@[k as int] && nodes[j].kind != NodeKind::BasicEvent {
                        assert(gates@.contains(j as usize));
                        let q = choose|q: int| 0 <= q < gates@.len() && gates@[q] == j as usize;
                        if q >= k {
                            assert(gates@[k as int] <= gates@[q]);
                        }
                    }
                }
            }
            k = k + 1;
        }
        proof {
            if first_thin_gate(nodes, edges, nodes.len() as int) >= 0 {
                let f = first_thin_gate(nodes, edges, nodes.len() as int);
                assert(gates@.contains(f as usize));
                let q = choose|q: int| 0 <= q < gates@.len() && gates@[q] == f as usize;
                assert(gates@[q] <= gates@[gates@.len() - 1]);
                assert(!is_thin_gate(nodes, edges, f));
            }
        }
        let basics = pdag.basic_events();
        let mut b: usize = 0;
        while b < basics.len()
            invariant
                b <= basics@.len(),
                forall|i: usize|
                    basics@.contains(i) <==> (i < pdag.nodes().len() && pdag.nodes()[i as int].kind
                        == NodeKind::BasicEvent),
            decreases basics@.len() - b,
        {
            assert(basics@.contains(basics@[b as int]));
            let is_basic = match node_weight(&pdag.graph, basics[b]).kind {
                NodeKind::BasicEvent => true,
                _ => false,
            };
            if !is_basic {
                return Err(
                    ValidationError::Structure(
                        owned("non-basic-event returned from basic_event iterator"),
                    ),
                );
            }
            b = b + 1;
        }
        Ok(())
    }
}

/// When gate `gates[k]` is thin and no gate before it is, it is the first
/// thin gate.
proof fn lemma_first_is_least(
    nodes: Seq<NodeData>,
    edges: Seq<(usize, usize)>,
    gates: Seq<usize>,
    k: int,
)
    requires
        0 <= k < gates.len(),
        gates[k] < nodes.len(),
        is_thin_gate(nodes, edges, gates[k] as int),
        forall|a: int, b: int| 0 <= a < b < gates.len() ==> gates[a] < gates[b],
        forall|i: usize|
            gates.contains(i) <==> (i < nodes.len() && nodes[i as int].kind != NodeKind::BasicEvent),
        k > 0 ==> forall|j: int| 0 <= j <= gates[k - 1] ==> !#[trigger] is_thin_gate(nodes, edges, j),
    ensures
        first_thin_gate(nodes, edges, nodes.len() as int) == gates[k] as int,
{
    let g = gates[k] as int;
    assert forall|j: int| 0 <= j < g implies !#[trigger] is_thin_gate(nodes, edges, j) by {
        if nodes[j].kind != NodeKind::BasicEvent {
            assert(gates.contains(j as usize));
            let q = choose|q: int| 0 <= q < gates.len() && gates[q] == j as usize;
            if q >= k {
                if q > k {
                    assert(gates[k] < gates[q]);
                }
            }
        }
    }
    lemma_first_thin_from(nodes, edges, g, nodes.len() as int);
}

/// If node `g` is the first thin gate, every prefix longer than `g` finds it.
proof fn lemma_first_thin_from(nodes: Seq<NodeData>, edges: Seq<(usize, usize)>, g: int, n: int)
    requires
        0 <= g < n,
        is_thin_gate(nodes, edges, g),
        forall|j: int| 0 <= j < g ==> !#[trigger] is_thin_gate(nodes, edges, j),
    ensures
        first_thin_gate(nodes, edges, n) == g,
    decreases n,
{
    if n > g + 1 {
        lemma_first_thin_from(nodes, edges, g, n - 1);
    } else {
        lemma_first_thin_none(nodes, edges, g);
    }
}

/// Without a thin gate among nodes `0 .. n`, none is found there.
proof fn lemma_first_thin_none(nodes: Seq<NodeData>, edges: Seq<(usize, usize)>, n: int)
    requires
        forall|j: int| 0 <= j < n ==> !#[trigger] is_thin_gate(nodes, edges, j),
    ensures
        first_thin_gate(nodes, edges, n) == -1,
    decreases n,
{
    if n > 0 {
        lemma_first_thin_none(nodes, edges, n - 1);
    }
}

// ─── Probabilities of a fault tree ───────────────────────────────────────────

/// The double with bit pattern `bits` lies in `[0, 1]`: it is +0.0, -0.0,
/// or a positive double at most 1.0 (whose bit pattern is
/// `0x3FF0000000000000`); positive doubles are ordered as their bit
/// patterns, and NaNs are in no interval.
pub open spec fn in_unit_interval(bits: u64) -> bool {
    bits <= 0x3FF0_0000_0000_0000 || bits == 0x8000_0000_0000_0000
}

/// The position of the first basic event whose probability is outside
/// `[0, 1]`, or -1.
pub open spec fn first_out_of_range(ft: FaultTree, n: int) -> int
    decreases n,
{
    if n <= 0 {
        -1
    } else {
        let m = first_out_of_range(ft, n - 1);
        if m >= 0 {
            m
        } else if !in_unit_interval(ft.basic_events@[n - 1].1.probability) {
            n - 1
        } else {
            -1
        }
    }
}

/// With every probability in range, none is found out of range.
pub(crate) proof fn lemma_none_out_of_range(ft: FaultTree, n: int)
    requires
        n <= ft.basic_events@.len(),
        forall|p: int|
            0 <= p < ft.basic_events@.len() ==> in_unit_interval(
                (#[trigger] ft.basic_events@[p]).1.probability,
            ),
    ensures
        first_out_of_range(ft, n) == -1,
    decreases n,
{
    if n > 0 {
        lemma_none_out_of_range(ft, n - 1);
        assert(in_unit_interval(ft.basic_events@[n - 1].1.probability));
    }
}

/// Checks the probabilities of a fault tree.
pub struct ProbabilisticValidator;

impl ProbabilisticValidator {
    /// Checks that the fault tree has a basic event and that every basic
    /// event's probability lies in `[0, 1]`.  The first basic event (in name
    /// order) outside it is reported, its probability as `probability_text`
    /// writes it.
    pub fn validate_fault_tree<F: Fn(u64) -> String>(ft: &FaultTree, probability_text: &F) -> (r:
        Result<(), ValidationError>)
        requires
            forall|b: u64| probability_text.requires((b,)),
        ensures
            ft.basic_events@.len() == 0 ==> (r matches Err(ValidationError::Probabilistic(m)) && m@
                == "fault tree contains no basic events"@),
            ft.basic_events@.len() > 0 && first_out_of_range(*ft, ft.basic_events@.len() as int) < 0
                ==> r is Ok,
            ft.basic_events@.len() > 0 && first_out_of_range(*ft, ft.basic_events@.len() as int) >= 0
                ==> (r matches Err(ValidationError::Probabilistic(m)) && exists|t: String|
                #[trigger] probability_text.ensures(
                    (ft.basic_events@[first_out_of_range(*ft, ft.basic_events@.len() as int)].1.probability,),
                    t,
                ) && m@ == "basic event "@ + ft.basic_events@[first_out_of_range(
                    *ft,
                    ft.basic_events@.len() as int,
                )].1.name@ + " probability "@ + t@ + " is outside [0,1]"@),
    {
        let n = ft.basic_events.len();
        if n == 0 {
            return Err(
                ValidationError::Probabilistic(owned("fault tree contains no basic events")),
            );
        }
        let mut p: usize = 0;
        while p < n
            invariant
                forall|b: u64| probability_text.requires((b,)),
                n == ft.basic_events@.len(),
                p <= n,
                first_out_of_range(*ft, p as int) < 0,
            decreases n - p,
        {
            let be = ft.basic_events.value_at(p);
            let bits = be.probability;
            if !(bits <= 0x3FF0_0000_0000_0000u64 || bits == 0x8000_0000_0000_0000u64) {
                let t = probability_text(bits);
                let mut m = joined("basic event ", be.name.as_str());
                m.append(" probability ");
                m.append(t.as_str());
                m.append(" is outside [0,1]");
                proof {
                    assert(first_out_of_range(*ft, p + 1) == p);
                    lemma_first_out_of_range_stays(*ft, p as int, n as int);
                }
                return Err(ValidationError::Probabilistic(m));
            }
            p = p + 1;
        }
        Ok(())
    }
}

/// Once found among the first `p + 1` basic events, the first one out of
/// range stays the first among more.
proof fn lemma_first_out_of_range_stays(ft: FaultTree, p: int, n: int)
    requires
        0 <= p < n,
        first_out_of_range(ft, p + 1) == p,
    ensures
        first_out_of_range(ft, n) == p,
    decreases n,
{
    if n > p + 1 {
        lemma_first_out_of_range_stays(ft, p, n - 1);
    }
}

// ─── Names an event tree refers to ───────────────────────────────────────────

/// The position of the first functional event that does not reference the
/// fault tree `name`, or -1.
pub open spec fn first_foreign_reference(et: EventTree, name: Seq<char>, n: int) -> int
    decreases n,
{
    if n <= 0 {
        -1
    } else {
        let m = first_foreign_reference(et, name, n - 1);
        if m >= 0 {
            m
        } else if et.functional_events@[n - 1].fault_tree_ref@ != name {
            n - 1
        } else {
            -1
        }
    }
}

/// The outcome of the reference check: the top gate must be a name the
/// fault tree defines, the initiating event must point at it, and every
/// functional event must reference the fault tree.
pub open spec fn reference_check(ft: FaultTree, et: EventTree) -> Result<(), Seq<char>> {
    let top = ft.top_gate@;
    let n = et.functional_events@.len() as int;
    if !(has_key(ft.gates@, top) || has_key(ft.basic_events@, top) || has_key(ft.house_events@, top)) {
        Err("top gate "@ + top + " is not defined"@)
    } else if et.initiating_event.top_gate_ref@ != top {
        Err(
            "initiating event top gate ref "@ + et.initiating_event.top_gate_ref@
                + " does not match fault tree top gate "@ + top,
        )
    } else if first_foreign_reference(et, ft.name@, n) >= 0 {
        let j = first_foreign_reference(et, ft.name@, n);
        Err(
            "functional event "@ + et.functional_events@[j].name@
                + " references undefined fault tree "@ + et.functional_events@[j].fault_tree_ref@,
        )
    } else {
        Ok(())
    }
}

/// Checks the names an event tree refers to.
pub struct ReferenceIntegrityValidator;

impl ReferenceIntegrityValidator {
    /// Checks that the fault tree defines its top gate, that the event
    /// tree's initiating event points at that gate, and that every
    /// functional event references this fault tree; the first failure is
    /// reported.
    pub fn validate(ft: &FaultTree, et: &EventTree) -> (r: Result<(), ValidationError>)
        ensures
            match reference_check(*ft, *et) {
                Ok(()) => r is Ok,
                Err(m) => r matches Err(ValidationError::Reference(s)) && s@ == m,
            },
    {
        let refs = ft.all_references();
        let mut found = false;
        let mut i: usize = 0;
        while i < refs.len()
            invariant
                i <= refs@.len(),
                found <==> exists|q: int| 0 <= q < i && (#[trigger] refs@[q])@ == ft.top_gate@,
            decreases refs@.len() - i,
        {
            if str_eq(refs[i].as_str(), ft.top_gate.as_str()) {
                found = true;
            }
            i = i + 1;
        }
        proof {
            assert(found <==> text_views(refs@).contains(ft.top_gate@)) by {
                if found {
                    let q = choose|q: int| 0 <= q < refs@.len() && (#[trigger] refs@[q])@ == ft.top_gate@;
                    assert(text_views(refs@)[q] == ft.top_gate@);
                }
                if text_views(refs@).contains(ft.top_gate@) {
                    let q = choose|q: int| 0 <= q < refs@.len() && text_views(refs@)[q] == ft.top_gate@;
                    assert(refs@[q]@ == ft.top_gate@);
                }
            }
        }
        if !found {
            let mut m = joined("top gate ", ft.top_gate.as_str());
            m.append(" is not defined");
            return Err(ValidationError::Reference(m));
        }
        if !str_eq(et.initiating_event.top_gate_ref.as_str(), ft.top_gate.as_str()) {
            let mut m = joined(
                "initiating event top gate ref ",
                et.initiating_event.top_gate_ref.as_str(),
            );
            m.append(" does not match fault tree top gate ");
            m.append(ft.top_gate.as_str());
            return Err(ValidationError::Reference(m));
        }
        let mut j: usize = 0;
        while j < et.functional_events.len()
            invariant
                j <= et.functional_events@.len(),
                first_foreign_reference(*et, ft.name@, j as int) < 0,
                has_key(ft.gates@, ft.top_gate@) || has_key(ft.basic_events@, ft.top_gate@) || has_key(
                    ft.house_events@,
                    ft.top_gate@,
                ),
                et.initiating_event.top_gate_ref@ == ft.top_gate@,
            decreases et.functional_events@.len() - j,
        {
            let fe = &et.functional_events[j];
            if !str_eq(fe.fault_tree_ref.as_str(), ft.name.as_str()) {
                let mut m = joined("functional event ", fe.name.as_str());
                m.append(" references undefined fault tree ");
                m.append(fe.fault_tree_ref.as_str());
                proof {
                    assert(first_foreign_reference(*et, ft.name@, j + 1) == j);
                    lemma_first_foreign_stays(*et, ft.name@, j as int, et.functional_events@.len() as int);
                }
                return Err(ValidationError::Reference(m));
            }
            j = j + 1;
        }
        Ok(())
    }
}

/// Once found, the first foreign reference stays the first.
proof fn lemma_first_foreign_stays(et: EventTree, name: Seq<char>, j: int, n: int)
    requires
        0 <= j < n,
        first_foreign_reference(et, name, j + 1) == j,
    ensures
        first_foreign_reference(et, name, n) == j,
    decreases n,
{
    if n > j + 1 {
        lemma_first_foreign_stays(et, name, j, n - 1);
    }
}

// ─── Laws ────────────────────────────────────────────────────────────────────

/// A PDAG built with at least two layers and at least two nodes per layer
/// passes the structural check: it has no cycle, and every gate has at
/// least two children.
pub proof fn law_built_pdag_passes_structural_check(
    t: Topology,
    nodes: Seq<NodeData>,
    edges: Seq<(usize, usize)>,
)
    requires
        builds_ok(t),
        is_layered(t, nodes),
        edges_fit(t, nodes, edges),
        nodes.len() <= usize::MAX,
        t.layers >= 2,
        t.nodes_per_layer_min >= 2,
    ensures
        structural_check(nodes, edges) is Ok,
{
    law_built_pdag_is_acyclic(t, nodes, edges);
    assert forall|j: int| 0 <= j < nodes.len() implies !#[trigger] is_thin_gate(nodes, edges, j) by {
        if nodes[j].kind != NodeKind::BasicEvent {
            law_gates_have_children(t, nodes, edges, j as usize);
            if j == 0 {
                assert(is_root_node(nodes[0]));
            } else {
                assert(node_fits(t, nodes[j]));
            }
        }
    }
    lemma_first_thin_none(nodes, edges, nodes.len() as int);
}

/// Every functional event referencing `name` leaves no foreign reference.
pub(crate) proof fn lemma_no_foreign_reference(et: EventTree, name: Seq<char>, n: int)
    requires
        0 <= n <= et.functional_events@.len(),
        forall|j: int|
            0 <= j < et.functional_events@.len() ==> (#[trigger] et.functional_events@[j]).fault_tree_ref@
                == name,
    ensures
        first_foreign_reference(et, name, n) == -1,
    decreases n,
{
    if n > 0 {
        lemma_no_foreign_reference(et, name, n - 1);
        assert(et.functional_events@[n - 1].fault_tree_ref@ == name);
    }
}

/// The event tree built for a fault tree mapped from a PDAG, from the fault
/// tree's name and top gate, passes the reference check: the top gate (the
/// root node's name) is one of the fault tree's gates, the initiating event
/// points at it, and every functional event references the fault tree.
pub proof fn law_generated_model_references_resolve(
    ft: FaultTree,
    et: EventTree,
    model_name: Seq<char>,
    event_model_name: Seq<char>,
    functional_events: nat,
    nodes: Seq<NodeData>,
    edges: Seq<(usize, usize)>,
    root: usize,
)
    requires
        maps_pdag(ft, model_name, nodes, edges, root),
        root < nodes.len(),
        is_gate_kind(nodes[root as int].kind),
        is_event_tree_for(et, event_model_name, functional_events, ft.name@, ft.top_gate@),
    ensures
        reference_check(ft, et) is Ok,
{
    let top = ft.top_gate@;
    lemma_last_named(nodes, top, true);
    assert(last_named(nodes, top, true) >= 0);
    assert(has_key(ft.gates@, top));
    assert forall|j: int|
        0 <= j < et.functional_events@.len() implies (#[trigger] et.functional_events@[j]).fault_tree_ref@
        == ft.name@ by {
        assert(j < functional_events);
    }
    lemma_no_foreign_reference(et, ft.name@, et.functional_events@.len() as int);
}

} // verus!
