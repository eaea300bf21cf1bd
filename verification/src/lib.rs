//! Fugue: score conversion, graph scheduling and patch validation for a
//! modular synthesis engine, with contracts checked by Verus.

pub mod assets;
pub mod builder;
pub mod rat;
pub mod reload;
pub mod rpc;
pub mod runtime;
pub mod schedule;
pub mod scc;
pub mod score;
pub mod compare;
pub mod convert;
pub mod development;
pub mod events;
pub mod graph;
pub mod invention;
pub mod json;
pub mod marks;
pub mod module;
pub mod musicxml;
pub mod mxl;
pub mod names;
pub mod patch;
pub mod poly;
pub mod sorting;
pub mod state;
pub mod topology;
pub mod text;
pub mod xml;
