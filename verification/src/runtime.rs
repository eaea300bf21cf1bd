//! Runtime descriptions: graph-command and reload errors, the reload
//! report, routed connections and status summaries.

use vstd::prelude::*;
use crate::text::{cat2, chars_of, string_of};

verus! {

/// Why a graph command failed.
#[derive(Debug)]
pub enum GraphCommandError {
    /// The audio thread has stopped, so commands can no longer be delivered.
    AudioThreadStopped,
    /// The requested module type is not registered.
    UnknownModuleType(String),
    /// The module factory failed to build the module.
    ModuleBuildFailed(String),
    /// The referenced module does not exist in the graph.
    UnknownModule(String),
    /// The referenced port does not exist on the module.
    InvalidPort(String),
    /// A module control operation failed (invalid key, etc.).
    ControlError(String),
}

/// The human-readable form of a graph-command error.
pub open spec fn graph_error_msg(e: GraphCommandError) -> Seq<char> {
    match e {
        GraphCommandError::AudioThreadStopped => "audio thread has stopped; command not delivered"@,
        GraphCommandError::UnknownModuleType(t) => "unknown module type: "@ + t@,
        GraphCommandError::ModuleBuildFailed(m) => "module build failed: "@ + m@,
        GraphCommandError::UnknownModule(id) => "unknown module: "@ + id@,
        GraphCommandError::InvalidPort(m) => "invalid port: "@ + m@,
        GraphCommandError::ControlError(m) => "control error: "@ + m@,
    }
}

impl GraphCommandError {
    /// Renders the error for users (see [`graph_error_msg`]).
    pub fn message(&self) -> (r: String)
        ensures
            r@ == graph_error_msg(*self),
    {
        let v = match self {
            GraphCommandError::AudioThreadStopped => chars_of("audio thread has stopped; command not delivered"),
            GraphCommandError::UnknownModuleType(t) => cat2("unknown module type: ", &chars_of(t.as_str())),
            GraphCommandError::ModuleBuildFailed(m) => cat2("module build failed: ", &chars_of(m.as_str())),
            GraphCommandError::UnknownModule(id) => cat2("unknown module: ", &chars_of(id.as_str())),
            GraphCommandError::InvalidPort(m) => cat2("invalid port: ", &chars_of(m.as_str())),
            GraphCommandError::ControlError(m) => cat2("control error: ", &chars_of(m.as_str())),
        };
        string_of(&v)
    }
}

/// Why a reload did not apply.
#[derive(Debug)]
pub enum ReloadError {
    /// The new document failed validation or could not be built; the running
    /// invention was not touched.
    Invalid(String),
    /// The diff failed while being applied; the graph may be partially
    /// updated.
    Apply(GraphCommandError),
}

pub open spec fn reload_error_msg(e: ReloadError) -> Seq<char> {
    match e {
        ReloadError::Invalid(reason) => "invalid invention: "@ + reason@,
        ReloadError::Apply(error) => "reload diff failed to apply: "@ + graph_error_msg(error),
    }
}

impl ReloadError {
    /// Renders the error for users (see [`reload_error_msg`]).
    pub fn message(&self) -> (r: String)
        ensures
            r@ == reload_error_msg(*self),
    {
        let v = match self {
            ReloadError::Invalid(reason) => cat2("invalid invention: ", &chars_of(reason.as_str())),
            ReloadError::Apply(error) => {
                let m = error.message();
                cat2("reload diff failed to apply: ", &chars_of(m.as_str()))
            },
        };
        string_of(&v)
    }
}

/// What a successful diff-applied reload did to the running graph.
pub struct ReloadReport {
    /// Module ids added to the graph.
    pub added: Vec<String>,
    /// Module ids removed from the graph.
    pub removed: Vec<String>,
    /// Module ids rebuilt in place.
    pub swapped: Vec<String>,
    /// Config deltas applied live as `module.key` control updates.
    pub controls_updated: Vec<String>,
    pub connections_added: usize,
    pub connections_removed: usize,
    /// Modules untouched by the diff; they keep their phase and state.
    pub unchanged: usize,
}

/// A routed connection in a running invention.
pub struct RuntimeConnectionInfo {
    pub from: String,
    pub from_port: String,
    pub to: String,
    pub to_port: String,
}

/// Lightweight runtime status used by orchestration and external APIs.
pub struct RuntimeStatus {
    pub running: bool,
    pub sample_rate: u32,
    pub module_count: usize,
    pub connection_count: usize,
}

} // verus!
