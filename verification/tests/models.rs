use model_generator::connector::TreeConnector;
use model_generator::event_tree::EventTreeMapper;
use model_generator::fault_tree::{
    BasicEvent, FaultTree, FaultTreeError, FaultTreeMapper, Gate, GateType, HouseEvent,
};
use model_generator::config::Topology;
use model_generator::pdag::{GateDraw, NodeKind, Pdag, PdagBuilder, PdagError};
use model_generator::mef::XmlSerializer;
use model_generator::pipeline::{build_batch, build_checked_event_tree, build_checked_model, Stage};
use model_generator::validator::{
    ProbabilisticValidator, ReferenceIntegrityValidator, StructuralValidator, ValidationError,
};

use petgraph::Direction;
use quick_xml::events::Event;
use quick_xml::Reader;
use rand::Rng;
use rand_chacha::ChaCha8Rng;

/// Probability bounds, gate weights (and, or, k-of-n) and shared fraction
/// of the default configuration.
const MIN_PROB: f64 = 0.01;
const MAX_PROB: f64 = 0.1;
const WEIGHTS: (f64, f64, f64) = (1.0, 1.0, 0.0);
const FRACTION: f64 = 0.3;

fn build_with(t: Topology, min_prob: f64, max_prob: f64, w: (f64, f64, f64), fraction: f64) -> Result<Pdag, PdagError> {
    let nonzero = w.0 > 0.0 || w.1 > 0.0 || w.2 > 0.0;
    let builder = PdagBuilder::new(t, nonzero)?;
    let total = w.0 + w.1 + w.2;
    let cdf = [w.0 / total, (w.0 + w.1) / total, 1.0];
    builder.build(
        &|rng: &mut ChaCha8Rng| rng.gen_range(min_prob..=max_prob).to_bits(),
        &|rng: &mut ChaCha8Rng| {
            let r: f64 = rng.gen();
            if r < cdf[0] {
                GateDraw::And
            } else if r < cdf[1] {
                GateDraw::Or
            } else {
                GateDraw::KofN
            }
        },
        &|n: usize| (n as f64 * fraction).round() as usize,
    )
}

fn default_pdag() -> Pdag {
    build_with(Topology::default(), MIN_PROB, MAX_PROB, WEIGHTS, FRACTION).expect("build")
}

fn pdag_with_seed(seed: u64) -> Pdag {
    let mut t = Topology::default();
    t.seed = seed;
    build_with(t, MIN_PROB, MAX_PROB, WEIGHTS, FRACTION).unwrap()
}

fn probability_text(bits: u64) -> String {
    format!("{:.12}", f64::from_bits(bits))
}

fn sample_fault_tree() -> FaultTree {
    FaultTreeMapper::from_pdag("model", &default_pdag()).unwrap()
}

// ── PDAG ──────────────────────────────────────────────────────────────────────

#[test]
fn builds_without_error() {
    let pdag = default_pdag();
    assert!(pdag.node_count() > 0);
}

#[test]
fn root_node_exists() {
    let pdag = default_pdag();
    assert_eq!(pdag.graph[petgraph::graph::NodeIndex::new(pdag.root)].kind, NodeKind::Root);
}

#[test]
fn graph_is_acyclic() {
    let pdag = default_pdag();
    assert!(!petgraph::algo::is_cyclic_directed(&pdag.graph), "PDAG must be acyclic");
}

#[test]
fn all_leaf_nodes_are_basic_events() {
    let pdag = default_pdag();
    for idx in pdag.graph.node_indices() {
        let has_children = pdag.graph.neighbors_directed(idx, Direction::Outgoing).next().is_some();
        if !has_children {
            assert!(
                matches!(pdag.graph[idx].kind, NodeKind::BasicEvent),
                "leaf node {:?} is not a BasicEvent",
                pdag.graph[idx].name
            );
        }
    }
}

#[test]
fn basic_event_probabilities_in_range() {
    let (min, max) = (MIN_PROB, MAX_PROB);
    let pdag = default_pdag();
    for idx in pdag.basic_events() {
        let prob = f64::from_bits(
            pdag.graph[petgraph::graph::NodeIndex::new(idx)]
                .probability
                .expect("basic event must have a probability"),
        );
        assert!(prob >= min && prob <= max, "probability {} out of [{}, {}]", prob, min, max);
    }
}

#[test]
fn same_seed_produces_identical_graphs() {
    let p1 = default_pdag();
    let p2 = default_pdag();
    assert_eq!(p1.node_count(), p2.node_count());
    assert_eq!(p1.edge_count(), p2.edge_count());
    let names1: Vec<_> = p1.graph.node_indices().map(|i| p1.graph[i].name.clone()).collect();
    let names2: Vec<_> = p2.graph.node_indices().map(|i| p2.graph[i].name.clone()).collect();
    assert_eq!(names1, names2);
}

#[test]
fn different_seeds_produce_different_graphs() {
    let mut t1 = Topology::default();
    let mut t2 = Topology::default();
    t2.seed = t1.seed + 1;
    t1.nodes_per_layer_min = 2;
    t1.nodes_per_layer_max = 10;
    t2.nodes_per_layer_min = 2;
    t2.nodes_per_layer_max = 10;
    let p1 = build_with(t1, MIN_PROB, MAX_PROB, WEIGHTS, FRACTION).unwrap();
    let p2 = build_with(t2, MIN_PROB, MAX_PROB, WEIGHTS, FRACTION).unwrap();
    assert!(p1.node_count() > 0);
    assert!(p2.node_count() > 0);
}

#[test]
fn invalid_config_rejected_at_builder_creation() {
    let mut t = Topology::default();
    t.layers = 0;
    let result = PdagBuilder::new(t, true);
    assert!(matches!(result, Err(PdagError::InvalidConfig(_))));
    if let Err(e) = result {
        assert_eq!(e.message(), "config validation failed: layers must be ≥ 1, got 0");
    }
}

#[test]
fn single_layer_produces_only_root_and_leaves() {
    let mut t = Topology::default();
    t.layers = 2; // root layer + 1 leaf layer
    let pdag = build_with(t, MIN_PROB, MAX_PROB, WEIGHTS, FRACTION).unwrap();
    for idx in pdag.graph.node_indices() {
        if idx.index() == pdag.root {
            continue;
        }
        assert!(
            matches!(pdag.graph[idx].kind, NodeKind::BasicEvent),
            "expected BasicEvent, got {:?}",
            pdag.graph[idx].kind
        );
    }
}

#[test]
fn every_gate_has_minimum_children() {
    let min_children = Topology::default().children_per_node_min;
    let pdag = default_pdag();
    for idx in pdag.gates() {
        let child_count = pdag
            .graph
            .neighbors_directed(petgraph::graph::NodeIndex::new(idx), Direction::Outgoing)
            .count();
        assert!(
            child_count >= min_children,
            "gate {:?} has only {} children (min {})",
            pdag.graph[petgraph::graph::NodeIndex::new(idx)].name,
            child_count,
            min_children
        );
    }
}

#[test]
fn node_names_follow_layer_and_index() {
    let pdag = default_pdag();
    for idx in pdag.graph.node_indices() {
        let n = &pdag.graph[idx];
        let expected = match n.kind {
            NodeKind::Root => "root".to_string(),
            NodeKind::Gate(_) => format!("G-{}-{}", n.layer, n.index_in_layer),
            NodeKind::BasicEvent => format!("BE-{}-{}", n.layer, n.index_in_layer),
        };
        assert_eq!(n.name, expected);
    }
}

#[test]
fn children_and_parents_mirror_each_other() {
    let pdag = default_pdag();
    for p in 0..pdag.node_count() {
        for c in pdag.children(p) {
            assert!(pdag.parents(c).contains(&p));
        }
    }
    assert!(pdag.parents(pdag.root).is_empty());
}

// ── Fault tree ────────────────────────────────────────────────────────────────

#[test]
fn round_trip_node_count_consistency() {
    let pdag = default_pdag();
    let ft = FaultTreeMapper::from_pdag("model", &pdag).unwrap();
    assert_eq!(ft.basic_events.len(), pdag.basic_events().len());
    assert_eq!(ft.gates.len(), pdag.gates().len());
}

#[test]
fn fault_tree_mapping_details() {
    let pdag = default_pdag();
    let ft = FaultTreeMapper::from_pdag("model", &pdag).unwrap();
    assert_eq!(ft.name, "model-fault-tree");
    assert_eq!(ft.top_gate, "root");
    assert!(ft.house_events.is_empty());
    let root = ft.gates.get("root").unwrap();
    assert_eq!(root.gate_type, GateType::Or);
    let mut expected: Vec<String> = pdag
        .children(pdag.root)
        .into_iter()
        .map(|c| pdag.graph[petgraph::graph::NodeIndex::new(c)].name.clone())
        .collect();
    expected.sort();
    assert_eq!(root.inputs, expected);
    let keys = ft.gates.keys();
    let mut sorted = keys.clone();
    sorted.sort();
    assert_eq!(keys, sorted);
    for i in 0..ft.basic_events.len() {
        let be = ft.basic_events.value_at(i);
        assert_eq!(&be.name, ft.basic_events.key_at(i));
    }
}

#[test]
fn missing_probability_is_reported() {
    let mut pdag = default_pdag();
    let first_be = pdag.basic_events()[0];
    let node = petgraph::graph::NodeIndex::new(first_be);
    pdag.graph[node].probability = None;
    let name = pdag.graph[node].name.clone();
    let err = FaultTreeMapper::from_pdag("model", &pdag).unwrap_err();
    assert_eq!(err, FaultTreeError::MissingProbability(name.clone()));
    assert_eq!(err.message(), format!("invalid PDAG: basic event node `{}` missing probability", name));
}

#[test]
fn pdag_without_gates_is_rejected() {
    let mut pdag = default_pdag();
    pdag.graph.retain_nodes(|g, n| matches!(g[n].kind, NodeKind::BasicEvent));
    let err = FaultTreeMapper::from_pdag("model", &pdag).unwrap_err();
    assert_eq!(err, FaultTreeError::NoGates);
    assert_eq!(err.message(), "invalid PDAG: no gates were generated");
}

#[test]
fn all_references_lists_every_defined_name() {
    let ft = sample_fault_tree();
    let refs = ft.all_references();
    assert_eq!(refs.len(), ft.gates.len() + ft.basic_events.len());
    assert!(refs.contains(&"root".to_string()));
    let mut sorted = refs.clone();
    sorted.sort();
    sorted.dedup();
    assert_eq!(refs, sorted);
}

// ── XML ───────────────────────────────────────────────────────────────────────

#[test]
fn xml_is_well_formed() {
    let ft = sample_fault_tree();
    let xml = XmlSerializer::serialize_fault_tree(&ft, &probability_text).unwrap();
    let mut reader = Reader::from_str(&xml);
    reader.config_mut().trim_text(true);
    let mut saw_root = false;
    loop {
        match reader.read_event() {
            Ok(Event::Start(e)) if e.name().as_ref() == b"opsa-mef" => saw_root = true,
            Ok(Event::Eof) => break,
            Ok(_) => {}
            Err(e) => panic!("xml parse failed: {e}"),
        }
    }
    assert!(saw_root);
}

#[test]
fn xml_output_is_deterministic() {
    let ft = sample_fault_tree();
    let a = XmlSerializer::serialize_fault_tree(&ft, &probability_text).unwrap();
    let b = XmlSerializer::serialize_fault_tree(&ft, &probability_text).unwrap();
    assert_eq!(a, b);
}

#[test]
fn xml_layout_of_a_small_model() {
    let mut t = Topology::default();
    t.layers = 2;
    t.nodes_per_layer_min = 2;
    t.nodes_per_layer_max = 2;
    let pdag = build_with(t, 0.5, 0.5, WEIGHTS, 0.0).unwrap();
    let ft = FaultTreeMapper::from_pdag("m", &pdag).unwrap();
    let et = EventTreeMapper::build("m", 1, &ft.name, &ft.top_gate).unwrap();
    let xml = XmlSerializer::serialize_model(&ft, Some(&et), &probability_text).unwrap();
    let expected = "<?xml version=\"1.0\" encoding=\"UTF-8\"?>
<opsa-mef version=\"2.0\">
  <define-fault-tree name=\"m-fault-tree\">
    <top-gate name=\"root\"/>
    <define-gate name=\"root\" type=\"or\">
      <input ref=\"BE-1-0\"/>
      <input ref=\"BE-1-1\"/>
    </define-gate>
    <define-basic-event name=\"BE-1-0\">
      <float value=\"0.500000000000\"/>
    </define-basic-event>
    <define-basic-event name=\"BE-1-1\">
      <float value=\"0.500000000000\"/>
    </define-basic-event>
  </define-fault-tree>
  <define-event-tree name=\"m-event-tree\">
    <initiating-event name=\"m-initiator\" top-gate-ref=\"root\"/>
    <branch-set name=\"m-branch-set\">
      <functional-event name=\"FE-1\" fault-tree-ref=\"m-fault-tree\"/>
      <sequence id=\"SEQ-0\">
        <outcome functional-event-ref=\"FE-1\" state=\"failure\"/>
      </sequence>
      <sequence id=\"SEQ-1\">
        <outcome functional-event-ref=\"FE-1\" state=\"success\"/>
      </sequence>
    </branch-set>
  </define-event-tree>
</opsa-mef>";
    assert_eq!(xml, expected);
}

#[test]
fn xml_escapes_attribute_values_and_writes_kofn() {
    let mut ft = sample_fault_tree();
    ft.gates.insert(
        "G<&>".to_string(),
        Gate { name: "G<&>".to_string(), gate_type: GateType::KofN(2), inputs: vec!["a\"b".to_string()] },
    );
    ft.house_events.insert("H".to_string(), HouseEvent { name: "H".to_string(), state: true });
    let xml = XmlSerializer::serialize_fault_tree(&ft, &probability_text).unwrap();
    assert!(xml.contains("<define-gate name=\"G&lt;&amp;&gt;\" type=\"kofn\" k=\"2\">"));
    assert!(xml.contains("<input ref=\"a&quot;b\"/>"));
    assert!(xml.contains("<define-house-event name=\"H\" state=\"true\"/>"));
}

// ── Validators ────────────────────────────────────────────────────────────────

#[test]
fn validators_pass_for_generated_model() {
    let pdag = default_pdag();
    let ft = FaultTreeMapper::from_pdag("model", &pdag).unwrap();
    let et = EventTreeMapper::build("model", 4, &ft.name, &ft.top_gate).unwrap();
    StructuralValidator::validate_pdag(&pdag).unwrap();
    ProbabilisticValidator::validate_fault_tree(&ft, &probability_text).unwrap();
    ReferenceIntegrityValidator::validate(&ft, &et).unwrap();
}

#[test]
fn thin_gate_is_reported() {
    let mut t = Topology::default();
    t.layers = 1;
    let pdag = build_with(t, MIN_PROB, MAX_PROB, WEIGHTS, FRACTION).unwrap();
    let err = StructuralValidator::validate_pdag(&pdag).unwrap_err();
    assert_eq!(err, ValidationError::Structure("gate root has 0 children (< 2)".to_string()));
    assert_eq!(err.message(), "structural validation failed: gate root has 0 children (< 2)");
}

#[test]
fn cycle_is_reported() {
    let mut pdag = default_pdag();
    let leaf = petgraph::graph::NodeIndex::new(pdag.basic_events()[0]);
    pdag.graph.add_edge(leaf, petgraph::graph::NodeIndex::new(pdag.root), ());
    let err = StructuralValidator::validate_pdag(&pdag).unwrap_err();
    assert_eq!(err, ValidationError::Structure("PDAG must be acyclic".to_string()));
}

#[test]
fn probability_outside_unit_interval_is_reported() {
    let mut ft = sample_fault_tree();
    let name = ft.basic_events.key_at(0).clone();
    ft.basic_events.insert(name.clone(), BasicEvent { name: name.clone(), probability: 1.5f64.to_bits() });
    let err = ProbabilisticValidator::validate_fault_tree(&ft, &|b: u64| format!("{}", f64::from_bits(b))).unwrap_err();
    assert_eq!(
        err,
        ValidationError::Probabilistic(format!("basic event {} probability 1.5 is outside [0,1]", name))
    );
    // The bounds themselves, and negative zero, are inside.
    for p in [0.0f64, -0.0, 1.0] {
        ft.basic_events.insert(name.clone(), BasicEvent { name: name.clone(), probability: p.to_bits() });
        assert!(ProbabilisticValidator::validate_fault_tree(&ft, &probability_text).is_ok());
    }
    for p in [-0.1f64, f64::NAN, 1.0000001] {
        ft.basic_events.insert(name.clone(), BasicEvent { name: name.clone(), probability: p.to_bits() });
        assert!(ProbabilisticValidator::validate_fault_tree(&ft, &probability_text).is_err());
    }
}

#[test]
fn fault_tree_without_basic_events_is_reported() {
    let mut ft = sample_fault_tree();
    for name in ft.basic_events.keys() {
        ft.basic_events.remove(&name);
    }
    let err = ProbabilisticValidator::validate_fault_tree(&ft, &probability_text).unwrap_err();
    assert_eq!(err.message(), "probabilistic validation failed: fault tree contains no basic events");
}

#[test]
fn broken_references_are_reported() {
    let ft = sample_fault_tree();
    let et = EventTreeMapper::build("model", 2, &ft.name, "nowhere").unwrap();
    assert_eq!(
        ReferenceIntegrityValidator::validate(&ft, &et).unwrap_err(),
        ValidationError::Reference(
            "initiating event top gate ref nowhere does not match fault tree top gate root".to_string()
        )
    );
    let et = EventTreeMapper::build("model", 2, "other", &ft.top_gate).unwrap();
    assert_eq!(
        ReferenceIntegrityValidator::validate(&ft, &et).unwrap_err(),
        ValidationError::Reference("functional event FE-1 references undefined fault tree other".to_string())
    );
    let mut ft2 = sample_fault_tree();
    ft2.top_gate = "missing".to_string();
    let et = EventTreeMapper::build("model", 2, &ft2.name, "missing").unwrap();
    assert_eq!(
        ReferenceIntegrityValidator::validate(&ft2, &et).unwrap_err().message(),
        "reference integrity validation failed: top gate missing is not defined"
    );
}

// ── Connector ─────────────────────────────────────────────────────────────────

fn build_tree(name: &str, seed: u64) -> FaultTree {
    FaultTreeMapper::from_pdag(name, &pdag_with_seed(seed)).unwrap()
}

fn shared_count(fraction: f64) -> impl Fn(usize) -> usize {
    move |m: usize| ((m as f64) * fraction).round().clamp(0.0, m as f64) as usize
}

#[test]
fn shared_event_names_appear_in_both_trees() {
    let mut trees = vec![build_tree("a", 1), build_tree("b", 2)];
    let shared = TreeConnector::promote_shared_events(&mut trees, &shared_count(0.2), 123);
    assert!(!shared.is_empty());
    for se in shared {
        assert!(trees[0].basic_events.contains_key(&se.name));
        assert!(trees[1].basic_events.contains_key(&se.name));
    }
}

#[test]
fn shared_events_are_numbered_and_list_every_tree() {
    let mut trees = vec![build_tree("a", 1), build_tree("b", 2), build_tree("c", 3)];
    let before: Vec<usize> = trees.iter().map(|t| t.basic_events.len()).collect();
    let shared = TreeConnector::promote_shared_events(&mut trees, &shared_count(0.3), 7);
    let min = *before.iter().min().unwrap();
    assert_eq!(shared.len(), ((min as f64) * 0.3).round() as usize);
    for (k, se) in shared.iter().enumerate() {
        assert_eq!(se.name, format!("SHARED-BE-{}", k + 1));
        assert_eq!(se.tree_indices, vec![0, 1, 2]);
    }
    let last = &shared.last().unwrap().name;
    for t in &trees {
        assert!(t.basic_events.contains_key(last));
        for i in 0..t.gates.len() {
            let inputs = &t.gates.value_at(i).inputs;
            let mut sorted = inputs.clone();
            sorted.sort();
            sorted.dedup();
            assert_eq!(inputs, &sorted);
        }
    }
}

#[test]
fn fewer_than_two_trees_share_nothing() {
    let mut trees = vec![build_tree("a", 1)];
    assert!(TreeConnector::promote_shared_events(&mut trees, &shared_count(1.0), 1).is_empty());
    let mut none: Vec<FaultTree> = Vec::new();
    assert!(TreeConnector::promote_shared_events(&mut none, &shared_count(1.0), 1).is_empty());
}

#[test]
fn rename_basic_event_renames_event_and_inputs() {
    let mut ft = sample_fault_tree();
    let old_name = ft.basic_events.key_at(0).clone();
    let prob = ft.basic_events.value_at(0).probability;
    TreeConnector::rename_basic_event(&mut ft, &old_name, "NEW");
    assert!(!ft.basic_events.contains_key(&old_name));
    let be = ft.basic_events.get("NEW").unwrap();
    assert_eq!(be.name, "NEW");
    assert_eq!(be.probability, prob);
    for i in 0..ft.gates.len() {
        assert!(!ft.gates.value_at(i).inputs.contains(&old_name));
    }
    let before = ft.basic_events.len();
    TreeConnector::rename_basic_event(&mut ft, "NEW", "NEW");
    assert_eq!(ft.basic_events.len(), before);
    assert!(ft.basic_events.contains_key("NEW"));
}

// ── Pipeline ──────────────────────────────────────────────────────────────────

#[test]
fn pipeline_builds_a_checked_model() {
    let cdf = [0.5f64, 1.0, 1.0];
    let model = build_checked_model(
        Topology::default(),
        true,
        "model",
        &|rng: &mut ChaCha8Rng| rng.gen_range(MIN_PROB..=MAX_PROB).to_bits(),
        &|rng: &mut ChaCha8Rng| {
            let r: f64 = rng.gen();
            if r < cdf[0] { GateDraw::And } else if r < cdf[1] { GateDraw::Or } else { GateDraw::KofN }
        },
        &|n: usize| (n as f64 * FRACTION).round() as usize,
        &probability_text,
    )
    .unwrap();
    assert_eq!(model.fault_tree.name, "model-fault-tree");
    assert_eq!(model.fault_tree.gates.len(), model.pdag.gates().len());
    let et = build_checked_event_tree("model", 3, &model.fault_tree).unwrap();
    assert_eq!(et.sequences.len(), 8);
    let err = build_checked_event_tree("model", 0, &model.fault_tree).unwrap_err();
    assert_eq!(err.stage, Stage::EventTree);
}

#[test]
fn pipeline_reports_the_failing_stage() {
    let mut t = Topology::default();
    t.children_per_node_min = 1;
    let err = build_checked_model(
        t,
        true,
        "model",
        &|_: &mut ChaCha8Rng| 0u64,
        &|_: &mut ChaCha8Rng| GateDraw::Or,
        &|_: usize| 0usize,
        &probability_text,
    )
    .err()
    .unwrap();
    assert_eq!(err.stage, Stage::Builder);
    assert_eq!(err.stage.context(), "create PDAG builder");
    assert_eq!(
        err.message,
        "config validation failed: children_per_node_min (1) must be ≥ 2 and ≤ children_per_node_max (4)"
    );
    let mut t = Topology::default();
    t.layers = 1;
    let err = build_checked_model(
        t,
        true,
        "model",
        &|_: &mut ChaCha8Rng| 0u64,
        &|_: &mut ChaCha8Rng| GateDraw::Or,
        &|_: usize| 0usize,
        &probability_text,
    )
    .err()
    .unwrap();
    assert_eq!(err.stage, Stage::Structure);
    assert_eq!(err.message, "structural validation failed: gate root has 0 children (< 2)");
}

#[test]
fn batch_builds_named_models_with_consecutive_seeds() {
    let batch = build_batch(
        Topology::default(),
        true,
        "model",
        3,
        true,
        &|rng: &mut ChaCha8Rng| rng.gen_range(MIN_PROB..=MAX_PROB).to_bits(),
        &|rng: &mut ChaCha8Rng| if rng.gen::<f64>() < 0.5 { GateDraw::And } else { GateDraw::Or },
        &|n: usize| (n as f64 * FRACTION).round() as usize,
        &shared_count(0.3),
        &probability_text,
    )
    .ok()
    .unwrap();
    assert_eq!(batch.seeds, vec![123, 124, 125]);
    assert_eq!(batch.file_names, vec!["model_1.xml", "model_2.xml", "model_3.xml"]);
    assert_eq!(batch.trees[1].name, "model-2-fault-tree");
    assert_eq!(batch.documents.len(), 3);
    assert!(batch.documents[0].contains("<define-event-tree name=\"model-event-tree\">"));
    assert!(!batch.shared_events.is_empty());
    let last = &batch.shared_events.last().unwrap().name;
    for (tree, doc) in batch.trees.iter().zip(batch.documents.iter()) {
        assert!(tree.basic_events.contains_key(last));
        assert!(doc.contains(&format!("<define-basic-event name=\"{}\">", last)));
    }
}

#[test]
fn pipeline_reports_probability_and_reference_failures() {
    let err = build_checked_model(
        Topology::default(),
        true,
        "model",
        &|_: &mut ChaCha8Rng| 2.0f64.to_bits(),
        &|_: &mut ChaCha8Rng| GateDraw::Or,
        &|_: usize| 0usize,
        &|b: u64| format!("{}", f64::from_bits(b)),
    )
    .err()
    .unwrap();
    assert_eq!(err.stage, Stage::Probabilities);
    assert_eq!(err.stage.context(), "probabilistic validation");
    assert!(err.message.ends_with("probability 2 is outside [0,1]"));

    let mut ft = sample_fault_tree();
    ft.top_gate = "elsewhere".to_string();
    let err = build_checked_event_tree("model", 2, &ft).unwrap_err();
    assert_eq!(err.stage, Stage::References);
    assert_eq!(
        err.message,
        "reference integrity validation failed: top gate elsewhere is not defined"
    );
}

fn assert_inputs_defined(ft: &FaultTree) {
    for p in 0..ft.gates.len() {
        for input in &ft.gates.value_at(p).inputs {
            assert!(
                ft.gates.contains_key(input) || ft.basic_events.contains_key(input),
                "input {} of gate {} is not defined",
                input,
                ft.gates.key_at(p)
            );
        }
    }
}

#[test]
fn gate_inputs_stay_defined_through_promotion() {
    let mut trees = vec![build_tree("a", 4), build_tree("b", 5), build_tree("c", 6)];
    for t in &trees {
        assert_inputs_defined(t);
    }
    let shared = TreeConnector::promote_shared_events(&mut trees, &shared_count(0.5), 99);
    assert!(!shared.is_empty());
    for t in &trees {
        assert_inputs_defined(t);
    }
}

#[test]
fn every_shared_event_stays_in_every_tree() {
    let mut trees = vec![build_tree("a", 1), build_tree("b", 2), build_tree("c", 3)];
    let before: Vec<usize> = trees.iter().map(|t| t.basic_events.len()).collect();
    let originals = vec![build_tree("a", 1), build_tree("b", 2), build_tree("c", 3)];
    let shared = TreeConnector::promote_shared_events(&mut trees, &shared_count(1.0), 5);
    assert_eq!(shared.len(), *before.iter().min().unwrap());
    for (t, o) in trees.iter().zip(originals.iter()) {
        assert_eq!(t.gates.len(), o.gates.len());
        for p in 0..t.gates.len() {
            assert_eq!(t.gates.key_at(p), o.gates.key_at(p));
            assert_eq!(t.gates.value_at(p).gate_type, o.gates.value_at(p).gate_type);
            assert_eq!(t.gates.value_at(p).inputs.len(), o.gates.value_at(p).inputs.len());
        }
        for i in 0..t.basic_events.len() {
            assert_eq!(&t.basic_events.value_at(i).name, t.basic_events.key_at(i));
        }
        let mut after: Vec<u64> =
            (0..t.basic_events.len()).map(|i| t.basic_events.value_at(i).probability).collect();
        let mut before: Vec<u64> =
            (0..o.basic_events.len()).map(|i| o.basic_events.value_at(i).probability).collect();
        after.sort();
        before.sort();
        assert_eq!(after, before);
    }
    for (t, n) in trees.iter().zip(before.iter()) {
        assert_eq!(t.basic_events.len(), *n);
        for se in &shared {
            assert!(t.basic_events.contains_key(&se.name));
        }
    }
}

#[test]
fn zero_shared_count_leaves_trees_unchanged() {
    let mut trees = vec![build_tree("a", 1), build_tree("b", 2)];
    let copy = vec![build_tree("a", 1), build_tree("b", 2)];
    let shared = TreeConnector::promote_shared_events(&mut trees, &|_m: usize| 0, 5);
    assert!(shared.is_empty());
    assert_eq!(trees, copy);
}

#[test]
fn children_stay_within_the_maximum_when_layers_are_small() {
    for seed in 0..20u64 {
        let mut t = Topology::default();
        t.seed = seed;
        t.layers = 4;
        t.nodes_per_layer_min = 2;
        t.nodes_per_layer_max = 3;
        t.children_per_node_min = 2;
        t.children_per_node_max = 3;
        let pdag = build_with(t, MIN_PROB, MAX_PROB, WEIGHTS, 0.0).unwrap();
        for g in pdag.gates() {
            let n = pdag.children(g).len();
            assert!(n >= 2 && n <= 3, "node {} has {} children", g, n);
        }
    }
}

#[test]
fn fault_tree_alone_serializes_as_a_model_without_event_tree() {
    let ft = sample_fault_tree();
    let a = XmlSerializer::serialize_fault_tree(&ft, &probability_text).unwrap();
    let b = XmlSerializer::serialize_model(&ft, None, &probability_text).unwrap();
    assert_eq!(a, b);
    assert!(a.starts_with("<?xml version=\"1.0\" encoding=\"UTF-8\"?>\n<opsa-mef version=\"2.0\">\n  <define-fault-tree"));
    assert!(a.ends_with("\n</opsa-mef>"));
}

#[test]
fn gate_types_follow_the_drawn_band() {
    let kinds = [((1.0, 0.0, 0.0), 0), ((0.0, 1.0, 0.0), 1), ((0.0, 0.0, 1.0), 2)];
    for (w, which) in kinds.iter() {
        let t = Topology::default();
        let pdag = build_with(t, MIN_PROB, MAX_PROB, *w, FRACTION).unwrap();
        let mut gates = 0;
        for idx in pdag.graph.node_indices() {
            if let NodeKind::Gate(g) = pdag.graph[idx].kind {
                gates += 1;
                match (*which, g) {
                    (0, model_generator::pdag::GateType::And)
                    | (1, model_generator::pdag::GateType::Or) => {}
                    (2, model_generator::pdag::GateType::KofN(k)) => assert!(k >= 2 && k <= t.children_per_node_min.max(2)),
                    _ => panic!("gate type {:?} does not follow the band", g),
                }
            }
        }
        assert!(gates > 0);
    }
}
