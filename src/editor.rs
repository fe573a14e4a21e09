//! Records of the visual editor's node and edge format, as stored beside the rules.

use vstd::prelude::*;

verus! {

/// An edge between two editor nodes.
#[derive(Debug)]
pub struct GraphEdge {
    pub id: String,
    pub source: String,
    pub target: String,
    pub source_handle: Option<String>,
    pub target_handle: Option<String>,
    pub edge_type: Option<String>,
}

/// Data of a condition node.
#[derive(Debug)]
pub struct ConditionNodeData {
    pub field: String,
    pub operator: String,
    pub value: String,
}

/// Data of a rule-group node: inline conditions with match and no-match outputs.
#[derive(Debug)]
pub struct RuleGroupNodeData {
    pub name: Option<String>,
    pub logic: String,
    pub conditions: Vec<RuleGroupCondition>,
}

#[derive(Debug)]
pub struct RuleGroupCondition {
    pub id: String,
    pub field: String,
    pub operator: String,
    pub value: String,
}

/// Data of an action node.
#[derive(Debug)]
pub struct ActionNodeData {
    pub action: String,
    pub status_code: Option<u16>,
    pub message: Option<String>,
}

/// Data of a backend node.
#[derive(Debug)]
pub struct BackendNodeData {
    pub name: String,
    pub host: String,
    pub port: Option<u16>,
    pub use_tls: Option<bool>,
}

/// Data of a rate-limit node.
#[derive(Debug)]
pub struct RateLimitNodeData {
    /// Largest number of requests in the window.
    pub limit: u32,
    /// `second`, `minute` or `hour`.
    pub window_unit: String,
    /// What identifies a client: `ip`, `fingerprint`, `header` or `path`.
    pub key_by: String,
    /// The header read when `key_by` is `header`.
    pub header_name: Option<String>,
}

/// Data of a list-lookup node.
#[derive(Debug)]
pub struct ListLookupNodeData {
    pub list_type: String,
    pub field: String,
}

/// Data of a logic node.
#[derive(Debug)]
pub struct LogicNodeData {
    pub operation: String,
}

} // verus!
