//! The integer-valued part of a PDAG configuration: the seed and the
//! topology parameters, the rules they must obey, and the built-in profiles.
//! The probability bounds and gate weights of a configuration are
//! floating-point values and are checked by the caller before these rules.

use vstd::prelude::*;

use crate::text::{decimal, owned, push_decimal};

verus! {

/// Seed and topology of a PDAG configuration.
#[derive(Debug, Clone, Copy, PartialEq, Eq)]
pub struct Topology {
    /// Seed of the random number generator; equal seeds give equal models.
    pub seed: u64,
    /// Number of layers, root and leaf layers included (at least 1).
    pub layers: usize,
    /// Minimum number of nodes per layer below the root (at least 1).
    pub nodes_per_layer_min: usize,
    /// Maximum number of nodes per layer below the root.
    pub nodes_per_layer_max: usize,
    /// Minimum number of children per gate (at least 2).
    pub children_per_node_min: usize,
    /// Maximum number of children per gate.
    pub children_per_node_max: usize,
    /// Number of parents each shared basic event is given.
    pub common_basic_event_parents: usize,
    /// Number of functional events of the event tree (at least 1).
    pub number_of_functional_events: usize,
}

impl Default for Topology {
    /// Seed 123, 5 layers of 3 to 8 nodes, 2 to 4 children per gate, shared
    /// basic events with 2 parents, 4 functional events.
    fn default() -> (t: Self)
        ensures
            t == (Topology {
                seed: 123,
                layers: 5,
                nodes_per_layer_min: 3,
                nodes_per_layer_max: 8,
                children_per_node_min: 2,
                children_per_node_max: 4,
                common_basic_event_parents: 2,
                number_of_functional_events: 4,
            }),
    {
        Topology {
            seed: 123,
            layers: 5,
            nodes_per_layer_min: 3,
            nodes_per_layer_max: 8,
            children_per_node_min: 2,
            children_per_node_max: 4,
            common_basic_event_parents: 2,
            number_of_functional_events: 4,
        }
    }
}

/// A rule of [`check_topology`] that a configuration breaks.
#[derive(Debug, Clone, Copy, PartialEq, Eq)]
pub enum TopologyError {
    /// `layers` is 0.
    InvalidLayers(usize),
    /// `nodes_per_layer_min` is 0 or above `nodes_per_layer_max`.
    InvalidNodesPerLayer { min: usize, max: usize },
    /// `children_per_node_min` is below 2 or above `children_per_node_max`.
    InvalidChildrenPerNode { min: usize, max: usize },
    /// All gate weights are zero.
    AllZeroGateWeights,
    /// `common_basic_event_parents` is below 2.
    InvalidCommonEventParents(usize),
    /// `number_of_functional_events` is 0.
    InvalidFunctionalEvents(usize),
}

/// The topology rules that the PDAG builder relies on.
pub open spec fn builds_ok(t: Topology) -> bool {
    &&& t.layers >= 1
    &&& 1 <= t.nodes_per_layer_min <= t.nodes_per_layer_max
    &&& 2 <= t.children_per_node_min <= t.children_per_node_max
}

/// The outcome of the configuration rules, checked in order: layers, nodes
/// per layer, children per node, gate weights, parents of shared basic
/// events, functional events.
pub open spec fn topology_check(t: Topology, gate_weights_nonzero: bool) -> Result<(), TopologyError> {
    if t.layers < 1 {
        Err(TopologyError::InvalidLayers(t.layers))
    } else if t.nodes_per_layer_min < 1 || t.nodes_per_layer_min > t.nodes_per_layer_max {
        Err(
            TopologyError::InvalidNodesPerLayer {
                min: t.nodes_per_layer_min,
                max: t.nodes_per_layer_max,
            },
        )
    } else if t.children_per_node_min < 2 || t.children_per_node_min > t.children_per_node_max {
        Err(
            TopologyError::InvalidChildrenPerNode {
                min: t.children_per_node_min,
                max: t.children_per_node_max,
            },
        )
    } else if !gate_weights_nonzero {
        Err(TopologyError::AllZeroGateWeights)
    } else if t.common_basic_event_parents < 2 {
        Err(TopologyError::InvalidCommonEventParents(t.common_basic_event_parents))
    } else if t.number_of_functional_events < 1 {
        Err(TopologyError::InvalidFunctionalEvents(t.number_of_functional_events))
    } else {
        Ok(())
    }
}

/// Checks the integer rules of a configuration; `gate_weights_nonzero`
/// tells whether at least one gate weight is positive.
pub fn check_topology(t: &Topology, gate_weights_nonzero: bool) -> (r: Result<(), TopologyError>)
    ensures
        r == topology_check(*t, gate_weights_nonzero),
        r is Ok ==> builds_ok(*t),
{
    if t.layers < 1 {
        return Err(TopologyError::InvalidLayers(t.layers));
    }
    if t.nodes_per_layer_min < 1 || t.nodes_per_layer_min > t.nodes_per_layer_max {
        return Err(
            TopologyError::InvalidNodesPerLayer {
                min: t.nodes_per_layer_min,
                max: t.nodes_per_layer_max,
            },
        );
    }
    if t.children_per_node_min < 2 || t.children_per_node_min > t.children_per_node_max {
        return Err(
            TopologyError::InvalidChildrenPerNode {
                min: t.children_per_node_min,
                max: t.children_per_node_max,
            },
        );
    }
    if !gate_weights_nonzero {
        return Err(TopologyError::AllZeroGateWeights);
    }
    if t.common_basic_event_parents < 2 {
        return Err(TopologyError::InvalidCommonEventParents(t.common_basic_event_parents));
    }
    if t.number_of_functional_events < 1 {
        return Err(TopologyError::InvalidFunctionalEvents(t.number_of_functional_events));
    }
    Ok(())
}

/// The human-readable description of a [`TopologyError`].
pub open spec fn topology_error_text(e: TopologyError) -> Seq<char> {
    match e {
        TopologyError::InvalidLayers(n) => "layers must be ≥ 1, got "@ + decimal(n as nat),
        TopologyError::InvalidNodesPerLayer { min, max } => "nodes_per_layer_min ("@ + decimal(
            min as nat,
        ) + ") must be ≥ 1 and ≤ nodes_per_layer_max ("@ + decimal(max as nat) + ")"@,
        TopologyError::InvalidChildrenPerNode { min, max } => "children_per_node_min ("@
            + decimal(min as nat) + ") must be ≥ 2 and ≤ children_per_node_max ("@ + decimal(
            max as nat,
        ) + ")"@,
        TopologyError::AllZeroGateWeights => "gate weights must not all be zero"@,
        TopologyError::InvalidCommonEventParents(n) => "common_basic_event_parents must be ≥ 2, got "@
            + decimal(n as nat),
        TopologyError::InvalidFunctionalEvents(n) => "number_of_functional_events must be ≥ 1, got "@
            + decimal(n as nat),
    }
}

impl TopologyError {
    /// The human-readable description of the error.
    pub fn message(&self) -> (s: String)
        ensures
            s@ == topology_error_text(*self),
    {
        match *self {
            TopologyError::InvalidLayers(n) => {
                let mut s = owned("layers must be ≥ 1, got ");
                push_decimal(&mut s, n as u64);
                s
            },
            TopologyError::InvalidNodesPerLayer { min, max } => {
                let mut s = owned("nodes_per_layer_min (");
                push_decimal(&mut s, min as u64);
                s.append(") must be ≥ 1 and ≤ nodes_per_layer_max (");
                push_decimal(&mut s, max as u64);
                s.append(")");
                s
            },
            TopologyError::InvalidChildrenPerNode { min, max } => {
                let mut s = owned("children_per_node_min (");
                push_decimal(&mut s, min as u64);
                s.append(") must be ≥ 2 and ≤ children_per_node_max (");
                push_decimal(&mut s, max as u64);
                s.append(")");
                s
            },
            TopologyError::AllZeroGateWeights => owned("gate weights must not all be zero"),
            TopologyError::InvalidCommonEventParents(n) => {
                let mut s = owned("common_basic_event_parents must be ≥ 2, got ");
                push_decimal(&mut s, n as u64);
                s
            },
            TopologyError::InvalidFunctionalEvents(n) => {
                let mut s = owned("number_of_functional_events must be ≥ 1, got ");
                push_decimal(&mut s, n as u64);
                s
            },
        }
    }
}

// ─── Built-in profiles ──────────────────────────────────────────────────────

/// Built-in topology presets.
#[derive(Debug, Clone, Copy, PartialEq, Eq)]
pub enum GenerationProfile {
    Small,
    Medium,
    Large,
    Stress,
}

/// The topology of a built-in profile; the seed and the functional-event
/// count come with it, the model name and probabilities do not.
pub open spec fn profile_topology_spec(p: GenerationProfile) -> Topology {
    let d = Topology {
        seed: 123,
        layers: 5,
        nodes_per_layer_min: 3,
        nodes_per_layer_max: 8,
        children_per_node_min: 2,
        children_per_node_max: 4,
        common_basic_event_parents: 2,
        number_of_functional_events: 4,
    };
    match p {
        GenerationProfile::Small => Topology {
            layers: 3,
            nodes_per_layer_min: 2,
            nodes_per_layer_max: 4,
            children_per_node_min: 2,
            children_per_node_max: 3,
            common_basic_event_parents: 2,
            number_of_functional_events: 3,
            ..d
        },
        GenerationProfile::Medium => d,
        GenerationProfile::Large => Topology {
            layers: 10,
            nodes_per_layer_min: 10,
            nodes_per_layer_max: 20,
            children_per_node_min: 2,
            children_per_node_max: 6,
            common_basic_event_parents: 3,
            number_of_functional_events: 8,
            ..d
        },
        GenerationProfile::Stress => Topology {
            layers: 12,
            nodes_per_layer_min: 20,
            nodes_per_layer_max: 30,
            children_per_node_min: 2,
            children_per_node_max: 8,
            common_basic_event_parents: 4,
            number_of_functional_events: 10,
            ..d
        },
    }
}

/// Every built-in profile keeps the default seed 123 and has these sizes:
/// `small` 3 layers of 2–4 nodes, 2–3 children, shared events with 2
/// parents, 3 functional events; `medium` 5 layers of 3–8 nodes, 2–4
/// children, 2 parents, 4 functional events; `large` 10 layers of 10–20
/// nodes, 2–6 children, 3 parents, 8 functional events; `stress` 12 layers
/// of 20–30 nodes, 2–8 children, 4 parents, 10 functional events.  Each
/// passes the configuration rules.
pub proof fn law_profile_sizes(p: GenerationProfile)
    ensures
        ({
            let t = profile_topology_spec(p);
            &&& t.seed == 123
            &&& topology_check(t, true) is Ok
            &&& match p {
        GenerationProfile::Small => {
            &&& t.layers == 3 && t.nodes_per_layer_min == 2 && t.nodes_per_layer_max == 4
            &&& t.children_per_node_min == 2 && t.children_per_node_max == 3
            &&& t.common_basic_event_parents == 2 && t.number_of_functional_events == 3
        },
        GenerationProfile::Medium => {
            &&& t.layers == 5 && t.nodes_per_layer_min == 3 && t.nodes_per_layer_max == 8
            &&& t.children_per_node_min == 2 && t.children_per_node_max == 4
            &&& t.common_basic_event_parents == 2 && t.number_of_functional_events == 4
        },
        GenerationProfile::Large => {
            &&& t.layers == 10 && t.nodes_per_layer_min == 10 && t.nodes_per_layer_max == 20
            &&& t.children_per_node_min == 2 && t.children_per_node_max == 6
            &&& t.common_basic_event_parents == 3 && t.number_of_functional_events == 8
        },
        GenerationProfile::Stress => {
            &&& t.layers == 12 && t.nodes_per_layer_min == 20 && t.nodes_per_layer_max == 30
            &&& t.children_per_node_min == 2 && t.children_per_node_max == 8
            &&& t.common_basic_event_parents == 4 && t.number_of_functional_events == 10
        },
    }
        }),
{
}

/// The topology part of a built-in profile: `small` (3 layers of 2–4
/// nodes), `medium` (the defaults), `large` (10 layers of 10–20 nodes) and
/// `stress` (12 layers of 20–30 nodes).
pub fn profile_topology(p: GenerationProfile) -> (t: Topology)
    ensures
        t == profile_topology_spec(p),
        topology_check(t, true) is Ok,
        t.seed == 123,
        match p {
            GenerationProfile::Small => {
                &&& t.layers == 3 && t.nodes_per_layer_min == 2 && t.nodes_per_layer_max == 4
                &&& t.children_per_node_min == 2 && t.children_per_node_max == 3
                &&& t.common_basic_event_parents == 2 && t.number_of_functional_events == 3
            },
            GenerationProfile::Medium => {
                &&& t.layers == 5 && t.nodes_per_layer_min == 3 && t.nodes_per_layer_max == 8
                &&& t.children_per_node_min == 2 && t.children_per_node_max == 4
                &&& t.common_basic_event_parents == 2 && t.number_of_functional_events == 4
            },
            GenerationProfile::Large => {
                &&& t.layers == 10 && t.nodes_per_layer_min == 10 && t.nodes_per_layer_max == 20
                &&& t.children_per_node_min == 2 && t.children_per_node_max == 6
                &&& t.common_basic_event_parents == 3 && t.number_of_functional_events == 8
            },
            GenerationProfile::Stress => {
                &&& t.layers == 12 && t.nodes_per_layer_min == 20 && t.nodes_per_layer_max == 30
                &&& t.children_per_node_min == 2 && t.children_per_node_max == 8
                &&& t.common_basic_event_parents == 4 && t.number_of_functional_events == 10
            },
        },
{
    let d = Topology::default();
    match p {
        GenerationProfile::Small => Topology {
            layers: 3,
            nodes_per_layer_min: 2,
            nodes_per_layer_max: 4,
            children_per_node_min: 2,
            children_per_node_max: 3,
            common_basic_event_parents: 2,
            number_of_functional_events: 3,
            ..d
        },
        GenerationProfile::Medium => d,
        GenerationProfile::Large => Topology {
            layers: 10,
            nodes_per_layer_min: 10,
            nodes_per_layer_max: 20,
            children_per_node_min: 2,
            children_per_node_max: 6,
            common_basic_event_parents: 3,
            number_of_functional_events: 8,
            ..d
        },
        GenerationProfile::Stress => Topology {
            layers: 12,
            nodes_per_layer_min: 20,
            nodes_per_layer_max: 30,
            children_per_node_min: 2,
            children_per_node_max: 8,
            common_basic_event_parents: 4,
            number_of_functional_events: 10,
            ..d
        },
    }
}

} // verus!
