//! The flat rule form: named rules, each one combinator over typed leaves, and an action.

use vstd::prelude::*;
use crate::text::decimal;

verus! {

/// How a rule combines its leaves.
#[derive(Debug, Clone, Copy, PartialEq, Eq, Structural)]
pub enum LogicOperator {
    /// All leaves match.
    And,
    /// Some leaf matches.
    Or,
    /// No leaf matches.
    Not,
}

#[derive(Debug, Clone, Copy, PartialEq, Eq, Structural)]
pub enum StringOperator {
    Equals,
    StartsWith,
    Contains,
    Matches,
}

#[derive(Debug, Clone, Copy, PartialEq, Eq, Structural)]
pub enum IpOperator {
    /// The client address text is one of the values.
    Equals,
    /// The client address lies in one of the IPv4 blocks.
    InRange,
}

#[derive(Debug, Clone, Copy, PartialEq, Eq, Structural)]
pub enum DeviceOperator {
    Is,
    IsNot,
}

#[derive(Debug, Clone, Copy, PartialEq, Eq, Structural)]
pub enum HeaderOperator {
    Exists,
    NotExists,
    Equals,
    Contains,
}

/// Rate-limit windows of the flat form.
#[derive(Debug, Clone, Copy, PartialEq, Eq, Structural)]
pub enum Window {
    OneSecond,
    TenSeconds,
    SixtySeconds,
}

pub open spec fn window_text(w: Window) -> Seq<char> {
    match w {
        Window::OneSecond => "1s"@,
        Window::TenSeconds => "10s"@,
        Window::SixtySeconds => "60s"@,
    }
}

impl Window {
    /// The short form of the window: `1s`, `10s` or `60s`.
    pub fn text(&self) -> (r: &'static str)
        ensures
            r@ == window_text(*self),
    {
        match self {
            Window::OneSecond => "1s",
            Window::TenSeconds => "10s",
            Window::SixtySeconds => "60s",
        }
    }
}

/// One typed leaf of a rule.
#[derive(Debug)]
pub enum ConditionRule {
    Path { operator: StringOperator, value: String },
    IP { operator: IpOperator, value: Vec<String> },
    /// `value` is one of `mobile`, `tablet`, `desktop`; any other matches nothing.
    Device { operator: DeviceOperator, value: String },
    UserAgent { operator: StringOperator, value: String },
    Header { key: String, operator: HeaderOperator },
    RateLimit {
        window: Window,
        max_requests: u32,
        block_ttl: u32,
        counter_name: Option<String>,
        penaltybox_name: Option<String>,
    },
}

/// The top-level combinator of a rule and its leaves.
#[derive(Debug)]
pub struct Condition {
    pub operator: LogicOperator,
    pub rules: Vec<ConditionRule>,
}

/// What to do when a rule matches.
#[derive(Debug)]
pub struct Action {
    /// `block`, `challenge`, `route`, `allow` or `log`; others forward like `allow`.
    pub type_: String,
    pub response_code: Option<u16>,
    pub response_message: Option<String>,
    pub challenge_type: Option<String>,
    pub backend: Option<String>,
}

/// A flat rule.
#[derive(Debug)]
pub struct Rule {
    pub enabled: bool,
    pub conditions: Condition,
    pub action: Action,
}

/// Connection settings of a named backend.
#[derive(Debug)]
pub struct BackendConfig {
    pub host: String,
    pub port: u16,
    pub use_tls: bool,
    pub connect_timeout: Option<u64>,
    pub first_byte_timeout: Option<u64>,
    pub between_bytes_timeout: Option<u64>,
}

pub fn copy_opt_string(s: &Option<String>) -> (r: Option<String>)
    ensures
        r == *s,
{
    match s {
        Some(t) => Some(t.clone()),
        None => None,
    }
}

impl Clone for Action {
    fn clone(&self) -> (r: Self)
        ensures
            r == *self,
    {
        Action {
            type_: self.type_.clone(),
            response_code: self.response_code,
            response_message: copy_opt_string(&self.response_message),
            challenge_type: copy_opt_string(&self.challenge_type),
            backend: copy_opt_string(&self.backend),
        }
    }
}

/// The counter a rate-limit leaf counts on: its own name, or one made of its window, limit and TTL.
pub open spec fn counter_name_of(window: Window, max_requests: u32, block_ttl: u32, name: Option<String>) -> Seq<char> {
    match name {
        Some(n) => n@,
        None => "rate_counter_"@ + window_text(window) + "_"@ + decimal(max_requests as nat) + "_"@ + decimal(block_ttl as nat),
    }
}

/// The penalty box of a rate-limit leaf: its own name, or one made of its window, limit and TTL.
pub open spec fn box_name_of(window: Window, max_requests: u32, block_ttl: u32, name: Option<String>) -> Seq<char> {
    match name {
        Some(n) => n@,
        None => "penalty_box_"@ + window_text(window) + "_"@ + decimal(max_requests as nat) + "_"@ + decimal(block_ttl as nat),
    }
}

} // verus!
