//! Verified core of a generator for probabilistic risk-assessment models:
//! layered probabilistic DAGs, the fault trees and event trees derived from
//! them, their Open-PSA MEF XML rendering, and the checks run on them.

pub mod text;
pub mod event_tree;
pub mod names;
pub mod config;
pub mod graph;
pub mod rng;
pub mod pdag;
pub mod fault_tree;
pub mod xml;
pub mod mef;
pub mod validator;
pub mod connector;
pub mod commands;
pub mod pipeline;
