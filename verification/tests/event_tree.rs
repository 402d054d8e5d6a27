use model_generator::event_tree::{EventTreeError, EventTreeMapper};

#[test]
fn creates_expected_sequence_count() {
    // 4 functional events → 2^4 = 16 sequences
    let et = EventTreeMapper::build("m", 4, "m-ft", "root").unwrap();
    assert_eq!(et.sequences.len(), 16);
}

#[test]
fn all_functional_events_reference_fault_tree() {
    let et = EventTreeMapper::build("m", 3, "m-ft", "root").unwrap();
    assert!(et
        .functional_events
        .iter()
        .all(|fe| fe.fault_tree_ref == "m-ft"));
}

#[test]
fn zero_functional_events_rejected() {
    let err = EventTreeMapper::build("m", 0, "m-ft", "root").unwrap_err();
    assert_eq!(err, EventTreeError::InvalidFunctionalEventCount(0));
    assert_eq!(err.message(), "number_of_functional_events must be >= 1, got 0");
}

#[test]
fn names_follow_the_model_name() {
    let et = EventTreeMapper::build("plant", 2, "plant-fault-tree", "root").unwrap();
    assert_eq!(et.name, "plant-event-tree");
    assert_eq!(et.initiating_event.name, "plant-initiator");
    assert_eq!(et.initiating_event.top_gate_ref, "root");
    assert_eq!(et.branch_set.name, "plant-branch-set");
    assert_eq!(et.branch_set.functional_event_refs, vec!["FE-1".to_string(), "FE-2".to_string()]);
    let names: Vec<&str> = et.functional_events.iter().map(|fe| fe.name.as_str()).collect();
    assert_eq!(names, vec!["FE-1", "FE-2"]);
}

#[test]
fn sequence_ids_are_padded_binary() {
    let et = EventTreeMapper::build("m", 3, "m-ft", "root").unwrap();
    let ids: Vec<&str> = et.sequences.iter().map(|s| s.id.as_str()).collect();
    assert_eq!(
        ids,
        vec!["SEQ-000", "SEQ-001", "SEQ-010", "SEQ-011", "SEQ-100", "SEQ-101", "SEQ-110", "SEQ-111"]
    );
    // Sequence 3 = 0b011: functional events 1 and 2 succeed, 3 fails.
    assert_eq!(et.sequences[3].outcomes, vec![true, true, false]);
    assert_eq!(et.sequences[4].outcomes, vec![false, false, true]);
}

#[test]
fn each_outcome_combination_occurs_once() {
    let et = EventTreeMapper::build("m", 5, "m-ft", "root").unwrap();
    let mut seen = std::collections::BTreeSet::new();
    for s in &et.sequences {
        assert_eq!(s.outcomes.len(), 5);
        assert!(seen.insert(s.outcomes.clone()));
    }
    assert_eq!(seen.len(), 32);
}

#[test]
fn referenced_fault_trees_are_distinct_and_sorted() {
    let mut et = EventTreeMapper::build("m", 3, "m-ft", "root").unwrap();
    assert_eq!(et.referenced_fault_trees(), vec!["m-ft".to_string()]);
    et.functional_events[0].fault_tree_ref = "z-ft".to_string();
    et.functional_events[2].fault_tree_ref = "a-ft".to_string();
    assert_eq!(
        et.referenced_fault_trees(),
        vec!["a-ft".to_string(), "m-ft".to_string(), "z-ft".to_string()]
    );
}
