use model_generator::config::{
    check_topology, profile_topology, GenerationProfile, Topology, TopologyError,
};

fn valid_topology() -> Topology {
    Topology::default()
}

#[test]
fn default_config_is_valid() {
    assert!(check_topology(&valid_topology(), true).is_ok());
}

#[test]
fn zero_layers_invalid() {
    let mut cfg = valid_topology();
    cfg.layers = 0;
    assert_eq!(check_topology(&cfg, true).unwrap_err(), TopologyError::InvalidLayers(0));
}

#[test]
fn zero_min_nodes_invalid() {
    let mut cfg = valid_topology();
    cfg.nodes_per_layer_min = 0;
    assert!(matches!(
        check_topology(&cfg, true).unwrap_err(),
        TopologyError::InvalidNodesPerLayer { .. }
    ));
}

#[test]
fn min_nodes_gt_max_nodes_invalid() {
    let mut cfg = valid_topology();
    cfg.nodes_per_layer_min = 10;
    cfg.nodes_per_layer_max = 5;
    assert!(matches!(
        check_topology(&cfg, true).unwrap_err(),
        TopologyError::InvalidNodesPerLayer { .. }
    ));
}

#[test]
fn children_min_lt_two_invalid() {
    let mut cfg = valid_topology();
    cfg.children_per_node_min = 1;
    assert!(matches!(
        check_topology(&cfg, true).unwrap_err(),
        TopologyError::InvalidChildrenPerNode { .. }
    ));
}

#[test]
fn children_min_gt_max_invalid() {
    let mut cfg = valid_topology();
    cfg.children_per_node_min = 5;
    cfg.children_per_node_max = 3;
    assert!(matches!(
        check_topology(&cfg, true).unwrap_err(),
        TopologyError::InvalidChildrenPerNode { .. }
    ));
}

#[test]
fn all_zero_gate_weights_invalid() {
    // Gate weights (0.0, 0.0, 0.0) have no positive weight.
    let weights = [0.0f64, 0.0, 0.0];
    let nonzero = weights.iter().any(|w| *w > 0.0);
    assert_eq!(
        check_topology(&valid_topology(), nonzero).unwrap_err(),
        TopologyError::AllZeroGateWeights
    );
}

#[test]
fn zero_functional_events_invalid() {
    let mut cfg = valid_topology();
    cfg.number_of_functional_events = 0;
    assert_eq!(
        check_topology(&cfg, true).unwrap_err(),
        TopologyError::InvalidFunctionalEvents(0)
    );
}

#[test]
fn rules_are_checked_in_order() {
    let mut cfg = valid_topology();
    cfg.layers = 0;
    cfg.nodes_per_layer_min = 0;
    assert_eq!(check_topology(&cfg, false).unwrap_err(), TopologyError::InvalidLayers(0));
    cfg.layers = 1;
    assert!(matches!(
        check_topology(&cfg, false).unwrap_err(),
        TopologyError::InvalidNodesPerLayer { min: 0, max: 8 }
    ));
}

#[test]
fn error_messages() {
    assert_eq!(TopologyError::InvalidLayers(0).message(), "layers must be ≥ 1, got 0");
    assert_eq!(
        TopologyError::InvalidNodesPerLayer { min: 10, max: 5 }.message(),
        "nodes_per_layer_min (10) must be ≥ 1 and ≤ nodes_per_layer_max (5)"
    );
    assert_eq!(
        TopologyError::InvalidChildrenPerNode { min: 1, max: 4 }.message(),
        "children_per_node_min (1) must be ≥ 2 and ≤ children_per_node_max (4)"
    );
    assert_eq!(TopologyError::AllZeroGateWeights.message(), "gate weights must not all be zero");
    assert_eq!(
        TopologyError::InvalidFunctionalEvents(0).message(),
        "number_of_functional_events must be ≥ 1, got 0"
    );
}

#[test]
fn profile_large_values_are_sensible() {
    let cfg = profile_topology(GenerationProfile::Large);
    assert_eq!(cfg.layers, 10);
    assert_eq!(cfg.nodes_per_layer_min, 10);
    assert_eq!(cfg.nodes_per_layer_max, 20);
}

#[test]
fn profiles_are_valid_and_medium_is_default() {
    for p in [
        GenerationProfile::Small,
        GenerationProfile::Medium,
        GenerationProfile::Large,
        GenerationProfile::Stress,
    ] {
        assert!(check_topology(&profile_topology(p), true).is_ok());
    }
    assert_eq!(profile_topology(GenerationProfile::Medium), Topology::default());
    let small = profile_topology(GenerationProfile::Small);
    assert_eq!((small.layers, small.nodes_per_layer_min, small.nodes_per_layer_max), (3, 2, 4));
    let stress = profile_topology(GenerationProfile::Stress);
    assert_eq!((stress.layers, stress.nodes_per_layer_min, stress.nodes_per_layer_max), (12, 20, 30));
    assert_eq!(stress.number_of_functional_events, 10);
}

#[test]
fn shared_event_parents_below_two_invalid() {
    let mut cfg = valid_topology();
    cfg.common_basic_event_parents = 1;
    let err = check_topology(&cfg, true).unwrap_err();
    assert_eq!(err, TopologyError::InvalidCommonEventParents(1));
    assert_eq!(err.message(), "common_basic_event_parents must be ≥ 2, got 1");
    cfg.common_basic_event_parents = 0;
    assert_eq!(
        check_topology(&cfg, true).unwrap_err(),
        TopologyError::InvalidCommonEventParents(0)
    );
}
