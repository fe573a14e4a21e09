//! Request-time security rule evaluation for an edge runtime.
//!
//! Two rule forms share one semantics: an ordered list of named flat rules
//! ([`engine`]), and a directed acyclic node graph ([`graph`], [`interpreter`]).
//! Counters and penalty boxes live in explicit state values passed by reference.

pub mod text;
pub mod value;
pub mod ports;
pub mod nodes;
pub mod graph;
pub mod net;
pub mod state;
pub mod interpreter;
pub mod rules;
pub mod engine;
pub mod loader;
pub mod respond;
pub mod logging;
pub mod laws;
pub mod editor;
