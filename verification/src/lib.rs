//! Deterministic crowd simulation kernel: the integer, identity, scheduling
//! and validation logic, each function with a proved contract.

pub mod ids;
pub mod rng;
pub mod text;
pub mod keyed;
pub mod physics;
pub mod provenance;
pub mod extensions;
pub mod action_library;
pub mod activity;
pub mod reservation;
pub mod blackboard;
pub mod fidelity;
pub mod field;
pub mod metrics;
pub mod commuter;
pub mod motion;
pub mod m6_metrics;
pub mod formation;
pub mod route;
pub mod diagnostics;
pub mod assets;
pub mod behavior;
pub mod digest;
pub mod arena;
pub mod interaction;
pub mod spawn;
pub mod project;
pub mod perception;
pub mod nav;
pub mod animate;
pub mod agents;
pub mod authoring;
pub mod plan;
pub mod concourse;
pub mod runtime;
pub mod normalize;
