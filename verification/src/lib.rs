//! Yantra: verified core of an agentic coding runtime — unified-diff parsing and
//! additive merging, sacred-path policy, identifiers, the console command model,
//! preflight checks and code-review-graph helpers.

pub mod text;
pub mod diff;
pub mod ident;
pub mod sacred;
pub mod preview;
pub mod metrics;
pub mod console;
pub mod doctor;
pub mod domain;
pub mod graph;
pub mod grounding;
pub mod prompting;
pub mod seeds;
pub mod subgraph;
pub mod extraction;
pub mod indexing;
pub mod edges;
pub mod migrations;
pub mod truth;
