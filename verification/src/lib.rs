//! A verified reconciliation engine that keeps a mutable graph of nodes in
//! sync with an externally produced stream of edit-scripts.
//!
//! The engine is organised as a small stack machine that consumes one ordered
//! edit-script per pass, an identifier registry mapping externally issued node
//! ids to graph nodes, a cache of named templates, a subscription registry
//! that decides which reactive scopes must be recomputed each tick, and a
//! per-root lifecycle driver.
//!
//! The host's graph is modelled as an arena of integer-indexed nodes; the
//! host mirrors the operations performed here onto its own storage. The diff
//! engine that produces edit-scripts is an external collaborator: it is
//! specified only at its boundary (the edit-script vocabulary and the
//! per-tick build/diff requests).

pub mod values;
pub mod graph;
pub mod registry;
pub mod adapter;
pub mod template;
pub mod mutations;
pub mod ecs_hooks;
pub mod tick;
pub mod laws;
