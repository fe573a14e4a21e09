//! The per-request audit record: request, response, rule trace and outcome.

use vstd::prelude::*;
use crate::engine::RuleEvaluation;
use crate::rules::{ConditionRule, DeviceOperator, HeaderOperator, IpOperator, LogicOperator, StringOperator};
use crate::text::{decimal_text, join2, owned};

verus! {

/// The request as the log records it.
#[derive(Debug)]
pub struct RequestDetails {
    pub method: String,
    pub url: String,
    pub path: String,
    pub query_string: String,
    pub client_ip: String,
    pub server_ip: String,
    pub content_length: usize,
    pub has_body: bool,
    pub version: String,
    pub content_type: String,
    pub headers: Vec<(String, String)>,
}

/// The response as the log records it.
#[derive(Debug)]
pub struct ResponseDetails {
    pub status_code: u16,
    pub content_length: Option<usize>,
    pub content_type: Option<String>,
    pub headers: Vec<(String, String)>,
}

/// One leaf of an evaluated rule, rendered.
#[derive(Debug)]
pub struct ConditionLog {
    pub kind: String,
    pub operator: String,
    pub value: String,
    pub matched: bool,
}

/// One evaluated rule, rendered.
#[derive(Debug)]
pub struct RuleLog {
    pub name: String,
    pub enabled: bool,
    pub operator: String,
    pub conditions: Vec<ConditionLog>,
    pub matched: bool,
}

/// The audit record of one request.
#[derive(Debug)]
pub struct WafLog {
    pub request_id: String,
    pub timestamp: String,
    pub processing_time_ms: u64,
    pub request: RequestDetails,
    pub response: Option<ResponseDetails>,
    pub rules: Vec<RuleLog>,
    pub final_action: String,
    pub blocked: bool,
}

pub open spec fn logic_name(o: LogicOperator) -> Seq<char> {
    match o {
        LogicOperator::And => "and"@,
        LogicOperator::Or => "or"@,
        LogicOperator::Not => "not"@,
    }
}

/// The type tag of a leaf, as in rule JSON.
pub open spec fn leaf_kind(r: ConditionRule) -> Seq<char> {
    match r {
        ConditionRule::Path { .. } => "path"@,
        ConditionRule::IP { .. } => "ip"@,
        ConditionRule::Device { .. } => "device"@,
        ConditionRule::UserAgent { .. } => "useragent"@,
        ConditionRule::Header { .. } => "header"@,
        ConditionRule::RateLimit { .. } => "ratelimit"@,
    }
}

pub open spec fn string_op_name(o: StringOperator) -> Seq<char> {
    match o {
        StringOperator::Equals => "equals"@,
        StringOperator::StartsWith => "starts_with"@,
        StringOperator::Contains => "contains"@,
        StringOperator::Matches => "matches_regex"@,
    }
}

/// The operator of a leaf, as in rule JSON.
pub open spec fn leaf_operator(r: ConditionRule) -> Seq<char> {
    match r {
        ConditionRule::Path { operator, .. } => string_op_name(operator),
        ConditionRule::UserAgent { operator, .. } => string_op_name(operator),
        ConditionRule::IP { operator, .. } => match operator {
            IpOperator::Equals => "equals"@,
            IpOperator::InRange => "in_range"@,
        },
        ConditionRule::Device { operator, .. } => match operator {
            DeviceOperator::Is => "is"@,
            DeviceOperator::IsNot => "is_not"@,
        },
        ConditionRule::Header { operator, .. } => match operator {
            HeaderOperator::Exists => "exists"@,
            HeaderOperator::NotExists => "not_exists"@,
            HeaderOperator::Equals => "equals"@,
            HeaderOperator::Contains => "contains"@,
        },
        ConditionRule::RateLimit { .. } => "exceeds"@,
    }
}

fn string_op_text(o: StringOperator) -> (r: &'static str)
    ensures
        r@ == string_op_name(o),
{
    match o {
        StringOperator::Equals => "equals",
        StringOperator::StartsWith => "starts_with",
        StringOperator::Contains => "contains",
        StringOperator::Matches => "matches_regex",
    }
}

/// The values of a list, separated by commas.
pub open spec fn comma_joined(l: Seq<String>) -> Seq<char>
    decreases l.len(),
{
    if l.len() == 0 {
        seq![]
    } else if l.len() == 1 {
        l[0]@
    } else {
        comma_joined(l.drop_last()) + ","@ + l.last()@
    }
}

fn join_commas(l: &Vec<String>) -> (r: String)
    ensures
        r@ == comma_joined(l@),
{
    let mut r = String::new();
    let mut i: usize = 0;
    while i < l.len()
        invariant
            i <= l@.len(),
            r@ == comma_joined(l@.subrange(0, i as int)),
        decreases l@.len() - i,
    {
        proof {
            assert(l@.subrange(0, i + 1).drop_last() =~= l@.subrange(0, i as int));
        }
        if i > 0 {
            r.append(",");
        }
        r.append(l[i].as_str());
        i += 1;
    }
    assert(l@.subrange(0, l@.len() as int) =~= l@);
    r
}

/// Renders one leaf and its outcome.
pub fn condition_log(rule: &ConditionRule, matched: bool) -> (r: ConditionLog)
    ensures
        r.kind@ == leaf_kind(*rule),
        r.operator@ == leaf_operator(*rule),
        r.matched == matched,
{
    match rule {
        ConditionRule::Path { operator, value } => ConditionLog {
            kind: owned("path"),
            operator: owned(string_op_text(*operator)),
            value: value.clone(),
            matched,
        },
        ConditionRule::UserAgent { operator, value } => ConditionLog {
            kind: owned("useragent"),
            operator: owned(string_op_text(*operator)),
            value: value.clone(),
            matched,
        },
        ConditionRule::IP { operator, value } => ConditionLog {
            kind: owned("ip"),
            operator: owned(match operator {
                IpOperator::Equals => "equals",
                IpOperator::InRange => "in_range",
            }),
            value: join_commas(value),
            matched,
        },
        ConditionRule::Device { operator, value } => ConditionLog {
            kind: owned("device"),
            operator: owned(match operator {
                DeviceOperator::Is => "is",
                DeviceOperator::IsNot => "is_not",
            }),
            value: value.clone(),
            matched,
        },
        ConditionRule::Header { key, operator } => ConditionLog {
            kind: owned("header"),
            operator: owned(match operator {
                HeaderOperator::Exists => "exists",
                HeaderOperator::NotExists => "not_exists",
                HeaderOperator::Equals => "equals",
                HeaderOperator::Contains => "contains",
            }),
            value: key.clone(),
            matched,
        },
        ConditionRule::RateLimit { window, max_requests, .. } => {
            let n = decimal_text(*max_requests as u64);
            let mut value = join2(n.as_str(), "/");
            value.append(window.text());
            ConditionLog { kind: owned("ratelimit"), operator: owned("exceeds"), value, matched }
        },
    }
}

impl WafLog {
    /// A record of `request` that has no response yet: action `initializing`, not blocked.
    pub fn new(request: RequestDetails, request_id: String, timestamp: String) -> (r: Self)
        ensures
            r.request == request,
            r.request_id == request_id,
            r.timestamp == timestamp,
            r.processing_time_ms == 0,
            r.response is None,
            r.rules@.len() == 0,
            r.final_action@ == "initializing"@,
            !r.blocked,
    {
        WafLog {
            request_id,
            timestamp,
            processing_time_ms: 0,
            request,
            response: None,
            rules: Vec::new(),
            final_action: owned("initializing"),
            blocked: false,
        }
    }

    /// Records the processing time, measured by the caller since the request arrived.
    pub fn finalize(&mut self, elapsed_ms: u64)
        ensures
            final(self).processing_time_ms == elapsed_ms,
            final(self).request == old(self).request,
            final(self).response == old(self).response,
            final(self).rules == old(self).rules,
            final(self).final_action == old(self).final_action,
            final(self).blocked == old(self).blocked,
    {
        self.processing_time_ms = elapsed_ms;
    }

    /// Records the response sent.
    pub fn add_response(&mut self, response: ResponseDetails)
        ensures
            final(self).response == Some(response),
            final(self).request == old(self).request,
            final(self).rules == old(self).rules,
            final(self).final_action == old(self).final_action,
            final(self).blocked == old(self).blocked,
            final(self).processing_time_ms == old(self).processing_time_ms,
    {
        self.response = Some(response);
    }

    /// Records the final action taken.
    pub fn set_final_action(&mut self, action: &str)
        ensures
            final(self).final_action@ == action@,
            final(self).request == old(self).request,
            final(self).response == old(self).response,
            final(self).rules == old(self).rules,
            final(self).blocked == old(self).blocked,
            final(self).processing_time_ms == old(self).processing_time_ms,
    {
        self.final_action = owned(action);
    }

    /// Appends the rendering of an evaluated rule.
    pub fn add_rule_evaluation(&mut self, eval: &RuleEvaluation)
        ensures
            final(self).rules@.len() == old(self).rules@.len() + 1,
            forall|i: int| 0 <= i < old(self).rules@.len() ==> final(self).rules@[i] == old(self).rules@[i],
            ({
                let entry = final(self).rules@.last();
                &&& entry.name == eval.name
                &&& entry.enabled == eval.rule.enabled
                &&& entry.operator@ == logic_name(eval.rule.conditions.operator)
                &&& entry.matched == eval.matched
                &&& entry.conditions@.len() == eval.conditions@.len()
                &&& forall|j: int| 0 <= j < eval.conditions@.len() ==> {
                    &&& (#[trigger] entry.conditions@[j]).kind@ == leaf_kind(eval.conditions@[j].rule)
                    &&& entry.conditions@[j].operator@ == leaf_operator(eval.conditions@[j].rule)
                    &&& entry.conditions@[j].matched == eval.conditions@[j].matched
                }
            }),
            final(self).request == old(self).request,
            final(self).final_action == old(self).final_action,
            final(self).blocked == old(self).blocked,
    {
        let mut conditions: Vec<ConditionLog> = Vec::new();
        let mut j: usize = 0;
        while j < eval.conditions.len()
            invariant
                j <= eval.conditions@.len(),
                conditions@.len() == j,
                forall|k: int| 0 <= k < j ==> {
                    &&& (#[trigger] conditions@[k]).kind@ == leaf_kind(eval.conditions@[k].rule)
                    &&& conditions@[k].operator@ == leaf_operator(eval.conditions@[k].rule)
                    &&& conditions@[k].matched == eval.conditions@[k].matched
                },
            decreases eval.conditions@.len() - j,
        {
            conditions.push(condition_log(&eval.conditions[j].rule, eval.conditions[j].matched));
            j += 1;
        }
        let operator = owned(match eval.rule.conditions.operator {
            LogicOperator::And => "and",
            LogicOperator::Or => "or",
            LogicOperator::Not => "not",
        });
        self.rules.push(RuleLog {
            name: eval.name.clone(),
            enabled: eval.rule.enabled,
            operator,
            conditions,
            matched: eval.matched,
        });
    }
}

} // verus!
