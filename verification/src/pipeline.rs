//! The model pipeline of the `generate` and `batch` commands: build a PDAG,
//! check its structure, map it to a fault tree, check its probabilities,
//! and, when asked, build an event tree and check its references; a batch
//! runs this for models with consecutive seeds, then makes basic events
//! common to all of its fault trees and renders each model as XML.
//!
//! Each step that can fail reports which step it was ([`Stage`]) and the
//! failing component's message.

use vstd::prelude::*;

use rand_chacha::ChaCha8Rng;

use crate::commands::{batch_file_name, batch_seed, batch_tree_name};
use crate::config::{topology_check, topology_error_text, Topology};
use crate::connector::{promotes, SharedEvent, TreeConnector};
use crate::event_tree::{is_event_tree_for, EventTree, EventTreeMapper};
use crate::fault_tree::{
    basic_event_of_node, first_missing_probability, inputs_defined, is_gate_kind, kind_indices,
    last_named, lemma_last_named, maps_pdag, FaultTree, FaultTreeMapper,
};
use crate::mef::{model_items, XmlSerializer};
use crate::names::{entry_keys, has_key, text_views};
use crate::pdag::{
    built_edges, edges_fit, gate_types_drawn_by, is_layered, is_root_node, law_built_pdag_names_distinct, node_fits,
    probabilities_drawn_by, within_index_limits, GateDraw, NodeData, Pdag, PdagBuilder,
};
use crate::validator::{
    first_out_of_range, in_unit_interval, law_built_pdag_passes_structural_check,
    lemma_no_foreign_reference, lemma_none_out_of_range, reference_check, structural_check,
    ProbabilisticValidator, ReferenceIntegrityValidator, StructuralValidator,
};
use crate::xml::rendered;

verus! {

/// The step of the pipeline that failed.
#[derive(Debug, Clone, Copy, PartialEq, Eq)]
pub enum Stage {
    /// The configuration broke a rule.
    Builder,
    /// The structural check of the PDAG failed.
    Structure,
    /// The PDAG could not be mapped to a fault tree.
    FaultTree,
    /// The probabilistic check of the fault tree failed.
    Probabilities,
    /// The event tree could not be built.
    EventTree,
    /// The reference check of the event tree failed.
    References,
    /// The XML could not be written.
    Xml,
}

/// What a failing step reports.
#[derive(Debug, Clone, PartialEq, Eq)]
pub struct StageError {
    pub stage: Stage,
    /// The failing component's message.
    pub message: String,
}

impl Stage {
    /// What the step was doing, as a run reports it.
    pub fn context(&self) -> (s: &'static str)
        ensures
            s@ == match *self {
                Stage::Builder => "create PDAG builder"@,
                Stage::Structure => "structural validation"@,
                Stage::FaultTree => "map PDAG to fault tree"@,
                Stage::Probabilities => "probabilistic validation"@,
                Stage::EventTree => "build event tree"@,
                Stage::References => "reference integrity validation"@,
                Stage::Xml => "serialize Open-PSA MEF XML"@,
            },
    {
        match *self {
            Stage::Builder => "create PDAG builder",
            Stage::Structure => "structural validation",
            Stage::FaultTree => "map PDAG to fault tree",
            Stage::Probabilities => "probabilistic validation",
            Stage::EventTree => "build event tree",
            Stage::References => "reference integrity validation",
            Stage::Xml => "serialize Open-PSA MEF XML",
        }
    }
}

/// The step of an error, if there is one.
pub open spec fn failed_at<T>(r: Result<T, StageError>, stage: Stage) -> bool {
    r matches Err(e) && e.stage == stage
}

/// A checked model: its PDAG and its fault tree.
pub struct CheckedModel {
    pub pdag: Pdag,
    pub fault_tree: FaultTree,
}

/// The basic events of a built PDAG all have a probability.
proof fn lemma_built_pdag_has_probabilities(t: Topology, nodes: Seq<NodeData>, n: int)
    requires
        is_layered(t, nodes),
        0 <= n <= nodes.len(),
    ensures
        first_missing_probability(nodes.take(n)) == -1,
    decreases n,
{
    if n > 0 {
        lemma_built_pdag_has_probabilities(t, nodes, n - 1);
        assert(nodes.take(n).drop_last() =~= nodes.take(n - 1));
        if n - 1 == 0 {
            assert(is_root_node(nodes[0]));
        } else {
            assert(node_fits(t, nodes[n - 1]));
        }
    }
}

/// Builds a PDAG from `topology`, checks its structure, maps it to the
/// fault tree named after `tree_model_name`, and checks its probabilities.
///
/// The configuration rules decide whether the builder is made; building
/// and mapping then always succeed.  With at least two layers and two nodes
/// per layer the structural check passes too.
pub fn build_checked_model<P, G, C, F>(
    topology: Topology,
    gate_weights_nonzero: bool,
    tree_model_name: &str,
    sample_probability: &P,
    sample_gate: &G,
    common_count: &C,
    probability_text: &F,
) -> (r: Result<CheckedModel, StageError>) where
    P: Fn(&mut ChaCha8Rng) -> u64,
    G: Fn(&mut ChaCha8Rng) -> GateDraw,
    C: Fn(usize) -> usize,
    F: Fn(u64) -> String,

    requires
        topology_check(topology, gate_weights_nonzero) is Ok ==> within_index_limits(topology),
        forall|r: &mut ChaCha8Rng| sample_probability.requires((r,)),
        forall|r: &mut ChaCha8Rng| sample_gate.requires((r,)),
        forall|n: usize| common_count.requires((n,)),
        forall|b: u64| probability_text.requires((b,)),
    ensures
        topology_check(topology, gate_weights_nonzero) is Err <==> failed_at(r, Stage::Builder),
        topology_check(topology, gate_weights_nonzero) matches Err(e) ==> (r matches Err(se)
            && se.message@ == "config validation failed: "@ + topology_error_text(e)),
        !failed_at(r, Stage::FaultTree),
        topology.layers >= 2 && topology.nodes_per_layer_min >= 2 ==> !failed_at(r, Stage::Structure),
        topology.layers >= 2 && (forall|g: &mut ChaCha8Rng, b: u64|
            #[trigger] sample_probability.ensures((g,), b) ==> in_unit_interval(b)) ==> !failed_at(
            r,
            Stage::Probabilities,
        ),
        topology_check(topology, gate_weights_nonzero) is Ok && topology.layers >= 2
            && topology.nodes_per_layer_min >= 2 && (forall|g: &mut ChaCha8Rng, b: u64|
            #[trigger] sample_probability.ensures((g,), b) ==> in_unit_interval(b)) ==> r is Ok,
        r is Err ==> (failed_at(r, Stage::Builder) || failed_at(r, Stage::Structure) || failed_at(
            r,
            Stage::Probabilities,
        )),
        r matches Ok(m) ==> {
            &&& m.pdag.root == 0
            &&& is_layered(topology, m.pdag.nodes())
            &&& probabilities_drawn_by(m.pdag.nodes(), *sample_probability)
            &&& gate_types_drawn_by(topology, m.pdag.nodes(), *sample_gate)
            &&& exists|connected: Seq<(usize, usize)>, leaf_start: int|
                built_edges(
                    topology,
                    m.pdag.nodes(),
                    connected,
                    leaf_start,
                    m.pdag.edges(),
                    *common_count,
                )
            &&& edges_fit(topology, m.pdag.nodes(), m.pdag.edges())
            &&& structural_check(m.pdag.nodes(), m.pdag.edges()) is Ok
            &&& maps_pdag(m.fault_tree, tree_model_name@, m.pdag.nodes(), m.pdag.edges(), 0)
            &&& inputs_defined(m.fault_tree)
            &&& m.fault_tree.gates@.len() == kind_indices(m.pdag.nodes(), true).len()
            &&& m.fault_tree.basic_events@.len() == kind_indices(m.pdag.nodes(), false).len()
            &&& m.fault_tree.basic_events@.len() > 0
            &&& first_out_of_range(m.fault_tree, m.fault_tree.basic_events@.len() as int) < 0
        },
{
    let builder = match PdagBuilder::new(topology, gate_weights_nonzero) {
        Ok(b) => b,
        Err(e) => {
            return Err(StageError { stage: Stage::Builder, message: e.message() });
        },
    };
    let pdag = match builder.build(sample_probability, sample_gate, common_count) {
        Ok(p) => p,
        Err(e) => {
            return Err(StageError { stage: Stage::Builder, message: e.message() });
        },
    };
    let ghost nodes = pdag.nodes();
    let ghost edges = pdag.edges();
    // The node count that petgraph reports bounds the PDAG's size.
    let node_count = pdag.node_count();
    proof {
        law_built_pdag_names_distinct(topology, nodes);
        lemma_built_pdag_has_probabilities(topology, nodes, nodes.len() as int);
        assert(nodes.take(nodes.len() as int) =~= nodes);
        assert(is_root_node(nodes[0]));
        assert(is_gate_kind(nodes[0].kind));
        if topology.layers >= 2 && topology.nodes_per_layer_min >= 2 {
            law_built_pdag_passes_structural_check(topology, nodes, edges);
        }
    }
    match StructuralValidator::validate_pdag(&pdag) {
        Ok(()) => {},
        Err(e) => {
            return Err(StageError { stage: Stage::Structure, message: e.message() });
        },
    }
    let fault_tree = match FaultTreeMapper::from_pdag(tree_model_name, &pdag) {
        Ok(ft) => ft,
        Err(e) => {
            return Err(StageError { stage: Stage::FaultTree, message: e.message() });
        },
    };
    proof {
        if topology.layers >= 2 && (forall|g: &mut ChaCha8Rng, b: u64|
            #[trigger] sample_probability.ensures((g,), b) ==> in_unit_interval(b)) {
            lemma_probabilities_in_range(
                fault_tree,
                tree_model_name@,
                topology,
                nodes,
                edges,
                *sample_probability,
            );
        }
    }
    match ProbabilisticValidator::validate_fault_tree(&fault_tree, probability_text) {
        Ok(()) => {},
        Err(e) => {
            return Err(StageError { stage: Stage::Probabilities, message: e.message() });
        },
    }
    Ok(CheckedModel { pdag, fault_tree })
}

/// The fault tree of a PDAG of two or more layers, whose probabilities
/// were drawn by a sampler that stays in `[0, 1]`, has basic events, all in
/// range.
proof fn lemma_probabilities_in_range<P: Fn(&mut ChaCha8Rng) -> u64>(
    ft: FaultTree,
    model_name: Seq<char>,
    t: Topology,
    nodes: Seq<NodeData>,
    edges: Seq<(usize, usize)>,
    sample: P,
)
    requires
        maps_pdag(ft, model_name, nodes, edges, 0),
        is_layered(t, nodes),
        t.layers >= 2,
        probabilities_drawn_by(nodes, sample),
        forall|g: &mut ChaCha8Rng, b: u64| #[trigger] sample.ensures((g,), b) ==> in_unit_interval(b),
    ensures
        ft.basic_events@.len() > 0,
        first_out_of_range(ft, ft.basic_events@.len() as int) < 0,
{
    let last = nodes.len() - 1;
    assert(nodes.last().layer == t.layers - 1);
    assert(last >= 1);
    assert(node_fits(t, nodes[last]));
    lemma_last_named(nodes, nodes[last].name@, false);
    assert(has_key(ft.basic_events@, nodes[last].name@));
    assert forall|p: int|
        0 <= p < ft.basic_events@.len() implies in_unit_interval(
        (#[trigger] ft.basic_events@[p]).1.probability,
    ) by {
        let k = ft.basic_events@[p].0;
        assert(has_key(ft.basic_events@, k));
        lemma_last_named(nodes, k, false);
        let i = last_named(nodes, k, false);
        assert(0 <= i < nodes.len());
        assert(basic_event_of_node(ft.basic_events@[p].1, nodes[i]));
        let b = ft.basic_events@[p].1.probability;
        assert(nodes[i].probability == Some(b));
        assert(exists|g: &mut ChaCha8Rng| sample.ensures((g,), nodes[i].probability->0));
        let g = choose|g: &mut ChaCha8Rng| sample.ensures((g,), nodes[i].probability->0);
        assert(sample.ensures((g,), b));
    }
    lemma_none_out_of_range(ft, ft.basic_events@.len() as int);
}

/// Builds the event tree of a model with `functional_events` functional
/// events for fault tree `ft`, and checks its references.
pub fn build_checked_event_tree(model_name: &str, functional_events: usize, ft: &FaultTree) -> (r:
    Result<EventTree, StageError>)
    requires
        functional_events < usize::BITS,
    ensures
        functional_events == 0 <==> failed_at(r, Stage::EventTree),
        r is Err ==> failed_at(r, Stage::EventTree) || failed_at(r, Stage::References),
        r matches Ok(et) ==> is_event_tree_for(
            et,
            model_name@,
            functional_events as nat,
            ft.name@,
            ft.top_gate@,
        ) && reference_check(*ft, et) is Ok,
        functional_events > 0 ==> (r is Ok <==> (has_key(ft.gates@, ft.top_gate@) || has_key(
            ft.basic_events@,
            ft.top_gate@,
        ) || has_key(ft.house_events@, ft.top_gate@))),
{
    let et = match EventTreeMapper::build(model_name, functional_events, &ft.name, &ft.top_gate) {
        Ok(et) => et,
        Err(e) => {
            return Err(StageError { stage: Stage::EventTree, message: e.message() });
        },
    };
    proof {
        lemma_event_tree_references(*ft, et, model_name@, functional_events as nat);
    }
    match ReferenceIntegrityValidator::validate(ft, &et) {
        Ok(()) => {},
        Err(e) => {
            return Err(StageError { stage: Stage::References, message: e.message() });
        },
    }
    Ok(et)
}

/// An event tree built from a fault tree's name and top gate passes the
/// reference check exactly when the fault tree defines its top gate.
proof fn lemma_event_tree_references(ft: FaultTree, et: EventTree, model: Seq<char>, n: nat)
    requires
        is_event_tree_for(et, model, n, ft.name@, ft.top_gate@),
    ensures
        reference_check(ft, et) is Ok <==> (has_key(ft.gates@, ft.top_gate@) || has_key(
            ft.basic_events@,
            ft.top_gate@,
        ) || has_key(ft.house_events@, ft.top_gate@)),
{
    if has_key(ft.gates@, ft.top_gate@) || has_key(ft.basic_events@, ft.top_gate@) || has_key(
        ft.house_events@,
        ft.top_gate@,
    ) {
        assert forall|j: int|
            0 <= j < et.functional_events@.len() implies (#[trigger] et.functional_events@[j]).fault_tree_ref@
            == ft.name@ by {
            assert(j < n);
        }
        lemma_no_foreign_reference(et, ft.name@, et.functional_events@.len() as int);
    }
}

/// The models of a batch, ready to be written.
pub struct Batch {
    /// The PDAG of each model.
    pub pdags: Vec<Pdag>,
    /// The fault tree of each model, after basic events were made common.
    pub trees: Vec<FaultTree>,
    /// The seed of each model.
    pub seeds: Vec<u64>,
    /// The basic events common to all trees.
    pub shared_events: Vec<SharedEvent>,
    /// The file name of each model.
    pub file_names: Vec<String>,
    /// The XML document of each model.
    pub documents: Vec<String>,
}

/// `doc` is the document of `tree` that `XmlSerializer::serialize_model`
/// writes, with the event tree of `functional_events` functional events
/// named after `model_name` when `with_event_tree`, and the probabilities as
/// `probability_text` writes them.
pub open spec fn renders_model<F: Fn(u64) -> String>(
    doc: Seq<char>,
    tree: FaultTree,
    with_event_tree: bool,
    model_name: Seq<char>,
    functional_events: nat,
    probability_text: F,
) -> bool {
    exists|et: Option<EventTree>, texts: Seq<String>|
        #![trigger rendered(model_items(tree, et, text_views(texts)), 2, 32)]
        {
            &&& (with_event_tree ==> (et matches Some(e) && is_event_tree_for(
                e,
                model_name,
                functional_events,
                tree.name@,
                tree.top_gate@,
            )))
            &&& (!with_event_tree ==> et is None)
            &&& texts.len() == tree.basic_events@.len()
            &&& forall|p: int|
                0 <= p < texts.len() ==> probability_text.ensures(
                    (tree.basic_events@[p].1.probability,),
                    #[trigger] texts[p],
                )
            &&& doc == rendered(model_items(tree, et, text_views(texts)), 2, 32)
        }
}

/// Builds the `count` models of a batch: model `i` gets seed `seed + i` and
/// the fault tree named after `{model_name}-{i+1}`; then basic events are
/// made common to all trees (with `shared_count_for` and the topology's
/// seed), and each model is rendered as XML, with an event tree when
/// `with_event_trees`, under the file name `{model_name}_{i+1}.xml`.
pub fn build_batch<P, G, C, S, F>(
    topology: Topology,
    gate_weights_nonzero: bool,
    model_name: &str,
    count: usize,
    with_event_trees: bool,
    sample_probability: &P,
    sample_gate: &G,
    common_count: &C,
    shared_count_for: &S,
    probability_text: &F,
) -> (r: Result<Batch, StageError>) where
    P: Fn(&mut ChaCha8Rng) -> u64,
    G: Fn(&mut ChaCha8Rng) -> GateDraw,
    C: Fn(usize) -> usize,
    S: Fn(usize) -> usize,
    F: Fn(u64) -> String,

    requires
        topology_check(topology, gate_weights_nonzero) is Ok ==> within_index_limits(topology),
        count > 0 ==> topology.seed + count - 1 <= u64::MAX,
        count < usize::MAX,
        with_event_trees ==> topology.number_of_functional_events < usize::BITS,
        forall|r: &mut ChaCha8Rng| sample_probability.requires((r,)),
        forall|r: &mut ChaCha8Rng| sample_gate.requires((r,)),
        forall|n: usize| common_count.requires((n,)),
        forall|m: usize| shared_count_for.requires((m,)),
        forall|b: u64| probability_text.requires((b,)),
    ensures
        count > 0 ==> (topology_check(topology, gate_weights_nonzero) is Err <==> failed_at(
            r,
            Stage::Builder,
        )),
        !failed_at(r, Stage::FaultTree),
        topology.layers >= 2 && topology.nodes_per_layer_min >= 2 ==> !failed_at(r, Stage::Structure),
        topology_check(topology, gate_weights_nonzero) is Ok && topology.layers >= 2
            && topology.nodes_per_layer_min >= 2 && (forall|g: &mut ChaCha8Rng, b: u64|
            #[trigger] sample_probability.ensures((g,), b) ==> in_unit_interval(b)) ==> r is Ok,
        r matches Ok(b) ==> exists|built: Seq<FaultTree>|
            {
                &&& built.len() == count
                &&& forall|i: int|
                    0 <= i < count ==> maps_pdag(
                        #[trigger] built[i],
                        model_name@ + "-"@ + crate::text::decimal((i + 1) as nat),
                        b.pdags@[i].nodes(),
                        b.pdags@[i].edges(),
                        0,
                    )
                &&& promotes(built, b.trees@, b.shared_events@, *shared_count_for)
            },
        r matches Ok(b) ==> {
            &&& b.pdags@.len() == count
            &&& b.trees@.len() == count
            &&& b.documents@.len() == count
            &&& b.seeds@.len() == count
            &&& b.file_names@.len() == count
            &&& forall|i: int| 0 <= i < count ==> #[trigger] b.seeds@[i] == topology.seed + i
            &&& forall|i: int|
                0 <= i < count ==> (#[trigger] b.file_names@[i])@ == model_name@ + "_"@
                    + crate::text::decimal((i + 1) as nat) + ".xml"@
            &&& forall|i: int|
                0 <= i < count ==> {
                    &&& is_layered(
                        Topology { seed: b.seeds@[i], ..topology },
                        (#[trigger] b.pdags@[i]).nodes(),
                    )
                    &&& structural_check(b.pdags@[i].nodes(), b.pdags@[i].edges()) is Ok
                    &&& b.trees@[i].name@ == model_name@ + "-"@ + crate::text::decimal((i + 1) as nat)
                        + "-fault-tree"@
                    &&& inputs_defined(b.trees@[i])
                    &&& renders_model(
                        b.documents@[i]@,
                        b.trees@[i],
                        with_event_trees,
                        model_name@,
                        topology.number_of_functional_events as nat,
                        *probability_text,
                    )
                }
        },
{
    let ghost good = topology_check(topology, gate_weights_nonzero) is Ok && topology.layers >= 2
        && topology.nodes_per_layer_min >= 2 && (forall|g: &mut ChaCha8Rng, b: u64|
        #[trigger] sample_probability.ensures((g,), b) ==> in_unit_interval(b));
    let mut pdags: Vec<Pdag> = Vec::new();
    let mut trees: Vec<FaultTree> = Vec::new();
    let mut seeds: Vec<u64> = Vec::new();
    let mut i: usize = 0;
    while i < count
        invariant
            good == (topology_check(topology, gate_weights_nonzero) is Ok && topology.layers >= 2
                && topology.nodes_per_layer_min >= 2 && (forall|g: &mut ChaCha8Rng, b: u64|
                #[trigger] sample_probability.ensures((g,), b) ==> in_unit_interval(b))),
            forall|j: int| 0 <= j < i ==> #[trigger] has_key(trees@[j].gates@, trees@[j].top_gate@),
            i <= count,
            count < usize::MAX,
            count > 0 ==> topology.seed + count - 1 <= u64::MAX,
            topology_check(topology, gate_weights_nonzero) is Ok ==> within_index_limits(topology),
            forall|r: &mut ChaCha8Rng| sample_probability.requires((r,)),
            forall|r: &mut ChaCha8Rng| sample_gate.requires((r,)),
            forall|n: usize| common_count.requires((n,)),
            forall|b: u64| probability_text.requires((b,)),
            i > 0 ==> topology_check(topology, gate_weights_nonzero) is Ok,
            pdags@.len() == i,
            trees@.len() == i,
            seeds@.len() == i,
            forall|j: int| 0 <= j < i ==> #[trigger] seeds@[j] == topology.seed + j,
            forall|j: int|
                0 <= j < i ==> {
                    &&& is_layered(
                        Topology { seed: seeds@[j], ..topology },
                        (#[trigger] pdags@[j]).nodes(),
                    )
                    &&& structural_check(pdags@[j].nodes(), pdags@[j].edges()) is Ok
                    &&& trees@[j].name@ == model_name@ + "-"@ + crate::text::decimal((j + 1) as nat)
                        + "-fault-tree"@
                    &&& inputs_defined(trees@[j])
                    &&& maps_pdag(
                        trees@[j],
                        model_name@ + "-"@ + crate::text::decimal((j + 1) as nat),
                        pdags@[j].nodes(),
                        pdags@[j].edges(),
                        0,
                    )
                },
        decreases count - i,
    {
        let seed = batch_seed(topology.seed, i);
        let t = Topology { seed, ..topology };
        assert(topology_check(t, gate_weights_nonzero) == topology_check(topology, gate_weights_nonzero));
        let tree_model_name = batch_tree_name(model_name, i);
        let model = build_checked_model(
            t,
            gate_weights_nonzero,
            tree_model_name.as_str(),
            sample_probability,
            sample_gate,
            common_count,
            probability_text,
        )?;
        proof {
            let nodes = model.pdag.nodes();
            assert(is_root_node(nodes[0]));
            crate::fault_tree::lemma_last_named(nodes, nodes[0].name@, true);
            assert(has_key(model.fault_tree.gates@, model.fault_tree.top_gate@));
        }
        let ghost trees_before = trees@;
        pdags.push(model.pdag);
        trees.push(model.fault_tree);
        seeds.push(seed);
        proof {
            assert forall|j: int| 0 <= j < i + 1 implies #[trigger] has_key(
                trees@[j].gates@,
                trees@[j].top_gate@,
            ) by {
                if j < i {
                    assert(trees@[j] == trees_before[j]);
                }
            }
        }
        i = i + 1;
    }
    let ghost built = trees@;
    let shared_events = TreeConnector::promote_shared_events(&mut trees, shared_count_for, topology.seed);
    assert(promotes(built, trees@, shared_events@, *shared_count_for));
    assert forall|j: int| 0 <= j < count implies #[trigger] inputs_defined(trees@[j]) by {
        assert(structural_check(pdags@[j].nodes(), pdags@[j].edges()) is Ok);
        assert(inputs_defined(built[j]));
        assert(trees@[j].name == built[j].name);
    }
    assert forall|j: int| 0 <= j < count implies #[trigger] has_key(trees@[j].gates@, trees@[j].top_gate@) by {
        assert(has_key(built[j].gates@, built[j].top_gate@));
        let q = choose|q: int| 0 <= q < built[j].gates@.len() && (#[trigger] built[j].gates@[q]).0
            == built[j].top_gate@;
        assert(entry_keys(built[j].gates@)[q] == built[j].top_gate@);
        assert(entry_keys(trees@[j].gates@) == entry_keys(built[j].gates@));
        assert(entry_keys(trees@[j].gates@).len() == trees@[j].gates@.len());
        assert(entry_keys(built[j].gates@).len() == built[j].gates@.len());
        assert(entry_keys(trees@[j].gates@)[q] == trees@[j].gates@[q].0);
        assert(trees@[j].top_gate == built[j].top_gate);
    }
    let mut file_names: Vec<String> = Vec::new();
    let mut documents: Vec<String> = Vec::new();
    let mut k: usize = 0;
    while k < count
        invariant
            k <= count,
            count < usize::MAX,
            count > 0 ==> topology_check(topology, gate_weights_nonzero) is Ok,
            good ==> topology.number_of_functional_events >= 1,
            forall|j: int| 0 <= j < count ==> #[trigger] has_key(trees@[j].gates@, trees@[j].top_gate@),
            trees@.len() == count,
            forall|j: int| 0 <= j < count ==> #[trigger] inputs_defined(trees@[j]),
            with_event_trees ==> topology.number_of_functional_events < usize::BITS,
            forall|b: u64| probability_text.requires((b,)),
            file_names@.len() == k,
            documents@.len() == k,
            forall|j: int|
                0 <= j < k ==> (#[trigger] file_names@[j])@ == model_name@ + "_"@ + crate::text::decimal(
                    (j + 1) as nat,
                ) + ".xml"@,
            forall|j: int|
                0 <= j < k ==> renders_model(
                    (#[trigger] documents@[j])@,
                    trees@[j],
                    with_event_trees,
                    model_name@,
                    topology.number_of_functional_events as nat,
                    *probability_text,
                ),
        decreases count - k,
    {
        let tree = &trees[k];
        let ghost mut chosen: Option<EventTree> = None;
        let document = if with_event_trees {
            let et = build_checked_event_tree(model_name, topology.number_of_functional_events, tree)?;
            proof {
                crate::event_tree::lemma_one_outcome_per_functional_event(
                    et,
                    model_name@,
                    topology.number_of_functional_events as nat,
                    tree.name@,
                    tree.top_gate@,
                );
                chosen = Some(et);
            }
            XmlSerializer::serialize_model(tree, Some(&et), probability_text)
        } else {
            XmlSerializer::serialize_model(tree, None, probability_text)
        };
        let document = match document {
            Ok(d) => d,
            Err(e) => {
                return Err(StageError { stage: Stage::Xml, message: e.message() });
            },
        };
        proof {
            let texts = choose|texts: Seq<String>|
                {
                    &&& texts.len() == tree.basic_events@.len()
                    &&& forall|p: int|
                        0 <= p < texts.len() ==> probability_text.ensures(
                            (tree.basic_events@[p].1.probability,),
                            #[trigger] texts[p],
                        )
                    &&& document@ == rendered(model_items(*tree, chosen, text_views(texts)), 2, 32)
                };
            assert(document@ == rendered(model_items(*tree, chosen, text_views(texts)), 2, 32));
        }
        let ghost documents_before = documents@;
        file_names.push(batch_file_name(model_name, k));
        documents.push(document);
        proof {
            assert forall|j: int|
                0 <= j < k + 1 implies renders_model(
                (#[trigger] documents@[j])@,
                trees@[j],
                with_event_trees,
                model_name@,
                topology.number_of_functional_events as nat,
                *probability_text,
            ) by {
                if j < k {
                    assert(documents@[j] == documents_before[j]);
                }
            }
        }
        k = k + 1;
    }
    Ok(Batch { pdags, trees, seeds, shared_events, file_names, documents })
}

} // verus!
