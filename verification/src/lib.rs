//! Core of a workload-provisioning service: a durable registry of named,
//! versioned server records, a deterministic `{token}` template renderer for
//! container specifications, and the orchestration steps that tie record
//! creation, rendering and container launch together.

use vstd::prelude::*;

pub mod api;
pub mod config;
pub mod db;
pub mod errors;
pub mod orchestrator;
pub mod registry;
pub mod render;
pub mod storage;
pub mod text;
pub mod vars;

verus! {

/// Application-wide state handed to the request-handling layer: the
/// application name, used to derive container instance names.
pub struct AppState {
    pub name: String,
}

} // verus!
