//! Graph interpreter: runs a rule graph against a request.

use vstd::prelude::*;
use crate::graph::{edges_into, node_index, topo_order, Edge, Graph};
use crate::net::{in_any_block, regex_finds, regex_matches, text_block_contains, ClientIp};
use crate::nodes::{
    challenge_name, input_arity, severity_name, ActionType, ConditionValue, Node, NodeId, NodeKind,
    Operator, RateLimitMode, RequestField,
};
use crate::state::{bump, rate_of, ExecutionState, HeaderChange, StateView};
use crate::text::{contains, ends_with, is_infix, is_prefix, is_suffix, same_text, starts_with, owned};
use crate::value::{texts, texts_contain, truthy, IpAddress, Value, ValueView};

verus! {

/// Request data a graph can read.
#[derive(Debug)]
pub struct RequestContext {
    pub client_ip: Option<ClientIp>,
    pub path: String,
    pub method: String,
    pub host: String,
    pub user_agent: String,
    pub ja3: Option<String>,
    pub ja4: Option<String>,
    pub asn: Option<u32>,
    pub country: Option<String>,
    pub proxy_type: Option<String>,
    pub proxy_description: Option<String>,
    pub is_hosting_provider: bool,
    /// Header names and values; the first entry for a name is the one read.
    pub headers: Vec<(String, String)>,
}

/// The value of the first header named exactly `name`.
pub open spec fn header_lookup(h: Seq<(String, String)>, name: Seq<char>) -> Option<Seq<char>>
    decreases h.len(),
{
    if h.len() == 0 {
        None
    } else if h[0].0@ == name {
        Some(h[0].1@)
    } else {
        header_lookup(h.drop_first(), name)
    }
}

pub open spec fn opt_text(s: Option<String>) -> ValueView {
    match s {
        Some(t) => ValueView::Text(t@),
        None => ValueView::Null,
    }
}

/// The value a request gives for a field.
pub open spec fn field_value(req: RequestContext, f: RequestField) -> ValueView {
    match f {
        RequestField::ClientIp => match req.client_ip {
            Some(c) => ValueView::Ip(c.addr),
            None => ValueView::Null,
        },
        RequestField::Asn => match req.asn {
            Some(n) => ValueView::Number(n as i64),
            None => ValueView::Null,
        },
        RequestField::Country => opt_text(req.country),
        RequestField::Method => ValueView::Text(req.method@),
        RequestField::Path => ValueView::Text(req.path@),
        RequestField::Host => ValueView::Text(req.host@),
        RequestField::UserAgent => ValueView::Text(req.user_agent@),
        RequestField::Ja3 => opt_text(req.ja3),
        RequestField::Ja4 => opt_text(req.ja4),
        RequestField::ProxyType => opt_text(req.proxy_type),
        RequestField::ProxyDescription => opt_text(req.proxy_description),
        RequestField::IsHostingProvider => ValueView::Bool(req.is_hosting_provider),
        RequestField::Header { name } => match header_lookup(req.headers@, name@) {
            Some(v) => ValueView::Text(v),
            None => ValueView::Null,
        },
    }
}

/// The text that keys the client in counters and penalty boxes.
pub open spec fn client_entry(req: RequestContext) -> Option<Seq<char>> {
    match req.client_ip {
        Some(c) => Some(c.text@),
        None => None,
    }
}

fn copy_opt(s: &Option<String>) -> (r: Value)
    ensures
        r@ == opt_text(*s),
{
    match s {
        Some(t) => Value::String(t.clone()),
        None => Value::Null,
    }
}

impl RequestContext {
    /// A request with no address, empty texts and no headers.
    pub fn new() -> (r: Self)
        ensures
            r.client_ip is None,
            r.path@.len() == 0 && r.method@.len() == 0 && r.host@.len() == 0 && r.user_agent@.len() == 0,
            r.ja3 is None && r.ja4 is None && r.asn is None && r.country is None,
            r.proxy_type is None && r.proxy_description is None,
            !r.is_hosting_provider,
            r.headers@.len() == 0,
    {
        RequestContext {
            client_ip: None,
            path: String::new(),
            method: String::new(),
            host: String::new(),
            user_agent: String::new(),
            ja3: None,
            ja4: None,
            asn: None,
            country: None,
            proxy_type: None,
            proxy_description: None,
            is_hosting_provider: false,
            headers: Vec::new(),
        }
    }

    /// A sample request for previews.
    pub fn mock() -> (r: Self)
        ensures
            r.client_ip matches Some(c) && c.addr == IpAddress::V4(0xC0A8_0164) && c.text@ == "192.168.1.100"@,
            r.path@ == "/api/users"@,
            r.method@ == "GET"@,
            r.host@ == "example.com"@,
            r.user_agent@ == "Mozilla/5.0 (Windows NT 10.0; Win64; x64)"@,
            r.ja3 matches Some(s) && s@ == "e7d705a3286e19ea42f587b344ee6865"@,
            r.ja4 matches Some(s) && s@ == "t13d1516h2_8daaf6152771_b186095e22b6"@,
            r.asn == Some(15169u32),
            r.country matches Some(s) && s@ == "US"@,
            r.proxy_type is None && r.proxy_description is None,
            !r.is_hosting_provider,
            r.headers@.len() == 0,
    {
        RequestContext {
            client_ip: Some(ClientIp { addr: IpAddress::V4(0xC0A8_0164), text: owned("192.168.1.100") }),
            path: owned("/api/users"),
            method: owned("GET"),
            host: owned("example.com"),
            user_agent: owned("Mozilla/5.0 (Windows NT 10.0; Win64; x64)"),
            ja3: Some(owned("e7d705a3286e19ea42f587b344ee6865")),
            ja4: Some(owned("t13d1516h2_8daaf6152771_b186095e22b6")),
            asn: Some(15169),
            country: Some(owned("US")),
            proxy_type: None,
            proxy_description: None,
            is_hosting_provider: false,
            headers: Vec::new(),
        }
    }

    /// The value of header `name`, if present.
    pub fn header(&self, name: &str) -> (r: Option<&String>)
        ensures
            match header_lookup(self.headers@, name@) {
                Some(v) => r is Some && r->0@ == v,
                None => r is None,
            },
    {
        let mut i: usize = 0;
        assert(self.headers@.subrange(0, self.headers@.len() as int) =~= self.headers@);
        while i < self.headers.len()
            invariant
                i <= self.headers@.len(),
                header_lookup(self.headers@, name@) == header_lookup(self.headers@.subrange(i as int, self.headers@.len() as int), name@),
            decreases self.headers@.len() - i,
        {
            let ghost rest = self.headers@.subrange(i as int, self.headers@.len() as int);
            assert(rest.drop_first() =~= self.headers@.subrange(i + 1, self.headers@.len() as int));
            assert(rest[0] == self.headers@[i as int]);
            if same_text(self.headers[i].0.as_str(), name) {
                return Some(&self.headers[i].1);
            }
            i += 1;
        }
        None
    }

    /// The value of a field of the request.
    pub fn get_field(&self, field: &RequestField) -> (r: Value)
        ensures
            r@ == field_value(*self, *field),
    {
        match field {
            RequestField::ClientIp => match &self.client_ip {
                Some(c) => Value::Ip(c.addr),
                None => Value::Null,
            },
            RequestField::Asn => match self.asn {
                Some(n) => Value::Number(n as i64),
                None => Value::Null,
            },
            RequestField::Country => copy_opt(&self.country),
            RequestField::Method => Value::String(self.method.clone()),
            RequestField::Path => Value::String(self.path.clone()),
            RequestField::Host => Value::String(self.host.clone()),
            RequestField::UserAgent => Value::String(self.user_agent.clone()),
            RequestField::Ja3 => copy_opt(&self.ja3),
            RequestField::Ja4 => copy_opt(&self.ja4),
            RequestField::ProxyType => copy_opt(&self.proxy_type),
            RequestField::ProxyDescription => copy_opt(&self.proxy_description),
            RequestField::IsHostingProvider => Value::Bool(self.is_hosting_provider),
            RequestField::Header { name } => match self.header(name.as_str()) {
                Some(v) => Value::String(v.clone()),
                None => Value::Null,
            },
        }
    }
}

/// The verdict of a graph run.
#[derive(Debug, PartialEq, Eq)]
pub enum ExecutionResult {
    Allow,
    Block { status_code: u16, message: String },
    Challenge { challenge_type: String },
    Tarpit { delay_ms: u32 },
    Log { message: String, severity: String },
    Forward { backend: String },
}

/// The mathematical content of an [`ExecutionResult`].
pub enum ResultView {
    Allow,
    Block { status_code: u16, message: Seq<char> },
    Challenge { challenge_type: Seq<char> },
    Tarpit { delay_ms: u32 },
    Log { message: Seq<char>, severity: Seq<char> },
    Forward { backend: Seq<char> },
}

impl View for ExecutionResult {
    type V = ResultView;

    open spec fn view(&self) -> ResultView {
        match self {
            ExecutionResult::Allow => ResultView::Allow,
            ExecutionResult::Block { status_code, message } => ResultView::Block { status_code: *status_code, message: message@ },
            ExecutionResult::Challenge { challenge_type } => ResultView::Challenge { challenge_type: challenge_type@ },
            ExecutionResult::Tarpit { delay_ms } => ResultView::Tarpit { delay_ms: *delay_ms },
            ExecutionResult::Log { message, severity } => ResultView::Log { message: message@, severity: severity@ },
            ExecutionResult::Forward { backend } => ResultView::Forward { backend: backend@ },
        }
    }
}

/// `Equals` of a field value and a condition value: same type and same value.
pub open spec fn equals_holds(fv: ValueView, cv: ConditionValue) -> bool {
    match (fv, cv) {
        (ValueView::Text(a), ConditionValue::String(b)) => a == b@,
        (ValueView::Number(a), ConditionValue::Number(b)) => a == b,
        (ValueView::Bool(a), ConditionValue::Bool(b)) => a == b,
        _ => false,
    }
}

pub open spec fn contains_holds(fv: ValueView, cv: ConditionValue) -> bool {
    match (fv, cv) {
        (ValueView::Text(a), ConditionValue::String(b)) => is_infix(b@, a),
        _ => false,
    }
}

pub open spec fn in_holds(fv: ValueView, cv: ConditionValue) -> bool {
    match (fv, cv) {
        (ValueView::Text(a), ConditionValue::List(l)) => texts(l@).contains(a),
        _ => false,
    }
}

/// Whether a field value satisfies a condition.
pub open spec fn condition_holds(fv: ValueView, op: Operator, cv: ConditionValue) -> bool {
    match op {
        Operator::Equals => equals_holds(fv, cv),
        Operator::NotEquals => !equals_holds(fv, cv),
        Operator::Contains => contains_holds(fv, cv),
        Operator::NotContains => !contains_holds(fv, cv),
        Operator::StartsWith => match (fv, cv) {
            (ValueView::Text(a), ConditionValue::String(b)) => is_prefix(b@, a),
            _ => false,
        },
        Operator::EndsWith => match (fv, cv) {
            (ValueView::Text(a), ConditionValue::String(b)) => is_suffix(b@, a),
            _ => false,
        },
        Operator::Matches => match (fv, cv) {
            (ValueView::Text(a), ConditionValue::String(b)) => regex_finds(b@, a),
            _ => false,
        },
        Operator::GreaterThan => match (fv, cv) {
            (ValueView::Number(a), ConditionValue::Number(b)) => a > b,
            _ => false,
        },
        Operator::LessThan => match (fv, cv) {
            (ValueView::Number(a), ConditionValue::Number(b)) => a < b,
            _ => false,
        },
        Operator::GreaterOrEqual => match (fv, cv) {
            (ValueView::Number(a), ConditionValue::Number(b)) => a >= b,
            _ => false,
        },
        Operator::LessOrEqual => match (fv, cv) {
            (ValueView::Number(a), ConditionValue::Number(b)) => a <= b,
            _ => false,
        },
        Operator::In => in_holds(fv, cv),
        Operator::NotIn => !in_holds(fv, cv),
        Operator::InCidr => match (fv, cv) {
            (ValueView::Ip(ip), ConditionValue::CidrList(l)) => exists|i: int| 0 <= i < l@.len() && text_block_contains(#[trigger] l@[i]@, ip),
            _ => false,
        },
        Operator::Exists => !(fv is Null),
        Operator::NotExists => fv is Null,
    }
}


/// Whether `field_value` satisfies `operator` against `cond_value`.
pub fn evaluate_condition(field_value: &Value, operator: &Operator, cond_value: &ConditionValue) -> (r: bool)
    ensures
        r == condition_holds(field_value@, *operator, *cond_value),
{
    match operator {
        Operator::Equals | Operator::NotEquals => {
            let eq = match (field_value, cond_value) {
                (Value::String(a), ConditionValue::String(b)) => same_text(a.as_str(), b.as_str()),
                (Value::Number(a), ConditionValue::Number(b)) => *a == *b,
                (Value::Bool(a), ConditionValue::Bool(b)) => *a == *b,
                _ => false,
            };
            match operator {
                Operator::Equals => eq,
                _ => !eq,
            }
        },
        Operator::Contains | Operator::NotContains => {
            let c = match (field_value, cond_value) {
                (Value::String(a), ConditionValue::String(b)) => contains(a.as_str(), b.as_str()),
                _ => false,
            };
            match operator {
                Operator::Contains => c,
                _ => !c,
            }
        },
        Operator::StartsWith => match (field_value, cond_value) {
            (Value::String(a), ConditionValue::String(b)) => starts_with(a.as_str(), b.as_str()),
            _ => false,
        },
        Operator::EndsWith => match (field_value, cond_value) {
            (Value::String(a), ConditionValue::String(b)) => ends_with(a.as_str(), b.as_str()),
            _ => false,
        },
        Operator::Matches => match (field_value, cond_value) {
            (Value::String(a), ConditionValue::String(b)) => regex_matches(b.as_str(), a.as_str()),
            _ => false,
        },
        Operator::GreaterThan => match (field_value, cond_value) {
            (Value::Number(a), ConditionValue::Number(b)) => *a > *b,
            _ => false,
        },
        Operator::LessThan => match (field_value, cond_value) {
            (Value::Number(a), ConditionValue::Number(b)) => *a < *b,
            _ => false,
        },
        Operator::GreaterOrEqual => match (field_value, cond_value) {
            (Value::Number(a), ConditionValue::Number(b)) => *a >= *b,
            _ => false,
        },
        Operator::LessOrEqual => match (field_value, cond_value) {
            (Value::Number(a), ConditionValue::Number(b)) => *a <= *b,
            _ => false,
        },
        Operator::In | Operator::NotIn => {
            let found = match (field_value, cond_value) {
                (Value::String(a), ConditionValue::List(l)) => texts_contain(l, a.as_str()),
                _ => false,
            };
            match operator {
                Operator::In => found,
                _ => !found,
            }
        },
        Operator::InCidr => match (field_value, cond_value) {
            (Value::Ip(ip), ConditionValue::CidrList(l)) => in_any_block(l, *ip),
            _ => false,
        },
        Operator::Exists => !matches!(field_value, Value::Null),
        Operator::NotExists => matches!(field_value, Value::Null),
    }
}

/// The values of a vector of values.
pub open spec fn values(v: Seq<Value>) -> Seq<ValueView> {
    v.map_values(|x: Value| x@)
}

/// Input slots `acc` after copying in the recorded output behind each edge of
/// `ins`, in order; edges to a port beyond the slots are ignored.
pub open spec fn gather(ins: Seq<Edge>, outs: Map<(NodeId, u8), ValueView>, acc: Seq<ValueView>) -> Seq<ValueView>
    decreases ins.len(),
{
    if ins.len() == 0 {
        acc
    } else {
        let e = ins[0];
        let next = if outs.contains_key((e.from_node, e.from_port)) && (e.to_port as int) < acc.len() {
            acc.update(e.to_port as int, outs[(e.from_node, e.from_port)])
        } else {
            acc
        };
        gather(ins.drop_first(), outs, next)
    }
}

/// The inputs node `id` sees: one slot per input port, `Null` where nothing is connected.
pub open spec fn node_inputs(g: Graph, id: NodeId, st: StateView) -> Seq<ValueView> {
    match node_index(g.nodes@, id) {
        None => seq![],
        Some(i) => gather(edges_into(g.edges@, id), st.outputs, Seq::new(input_arity(g.nodes@[i].kind), |k: int| ValueView::Null)),
    }
}

/// Whether input slot `i` exists and is truthy.
pub open spec fn input_truthy(ins: Seq<ValueView>, i: int) -> bool {
    0 <= i < ins.len() && truthy(ins[i])
}

/// What a node emits on port 0, and the state after its side effects.
pub open spec fn node_effect(kind: NodeKind, req: RequestContext, ins: Seq<ValueView>, st: StateView) -> (Option<ValueView>, StateView) {
    match kind {
        NodeKind::Request => (Some(ValueView::Bool(true)), st),
        NodeKind::Condition { field, operator, value } => (Some(ValueView::Bool(condition_holds(field_value(req, field), operator, value))), st),
        NodeKind::And { input_count } => (Some(ValueView::Bool(forall|i: int| 0 <= i < input_count ==> #[trigger] input_truthy(ins, i))), st),
        NodeKind::Or { input_count } => (Some(ValueView::Bool(exists|i: int| 0 <= i < input_count && #[trigger] input_truthy(ins, i))), st),
        NodeKind::Not => (Some(ValueView::Bool(!input_truthy(ins, 0))), st),
        NodeKind::RateLimit { mode, counter_name, threshold, .. } => match client_entry(req) {
            None => (if mode == RateLimitMode::AddToPenaltyBox { None } else { Some(ValueView::Bool(false)) }, st),
            Some(e) => match mode {
                RateLimitMode::CheckRate => {
                    let c = bump(rate_of(st, counter_name@, e));
                    (Some(ValueView::Bool(c > threshold)), st.with_count(counter_name@, e, c))
                },
                RateLimitMode::CheckRateAndPenalize => {
                    let c = bump(rate_of(st, counter_name@, e));
                    let counted = st.with_count(counter_name@, e, c);
                    (Some(ValueView::Bool(c > threshold)), if c > threshold { counted.with_boxed(counter_name@, e) } else { counted })
                },
                RateLimitMode::InPenaltyBox => (Some(ValueView::Bool(st.boxed.contains((counter_name@, e)))), st),
                RateLimitMode::AddToPenaltyBox => (None, if input_truthy(ins, 0) { st.with_boxed(counter_name@, e) } else { st }),
            },
        },
        NodeKind::Header { operation, name, value } => (None, if input_truthy(ins, 0) {
            st.with_header((operation, name@, match value {
                Some(v) => Some(v@),
                None => None,
            }))
        } else {
            st
        }),
        _ => (None, st),
    }
}

/// The state after running node `n`: its side effects, then its output recorded.
pub open spec fn node_step(g: Graph, n: Node, req: RequestContext, st: StateView) -> StateView {
    let (out, after) = node_effect(n.kind, req, node_inputs(g, n.id, st), st);
    match out {
        Some(v) => after.with_output((n.id, 0), v),
        None => after,
    }
}

/// The verdict of node `n` once run: terminal nodes whose trigger input is truthy give one.
pub open spec fn verdict_of(g: Graph, n: Node, st: StateView) -> Option<ResultView> {
    if !input_truthy(node_inputs(g, n.id, st), 0) {
        None
    } else {
        match n.kind {
            NodeKind::Action { action } => Some(match action {
                ActionType::Block { status_code, message } => ResultView::Block { status_code, message: message@ },
                ActionType::Challenge { challenge_type } => ResultView::Challenge { challenge_type: challenge_name(challenge_type) },
                ActionType::Tarpit { delay_ms } => ResultView::Tarpit { delay_ms },
                ActionType::Log { message, severity } => ResultView::Log { message: message@, severity: severity_name(severity) },
                ActionType::Allow => ResultView::Allow,
            }),
            NodeKind::Forward { backend } => Some(ResultView::Forward { backend: backend@ }),
            _ => None,
        }
    }
}

/// Runs the nodes of `order` in turn, stopping at the first verdict.
pub open spec fn run(g: Graph, req: RequestContext, order: Seq<NodeId>, st: StateView) -> (ResultView, StateView)
    decreases order.len(),
{
    if order.len() == 0 {
        (ResultView::Allow, st)
    } else {
        match node_index(g.nodes@, order[0]) {
            None => run(g, req, order.drop_first(), st),
            Some(i) => {
                let after = node_step(g, g.nodes@[i], req, st);
                match verdict_of(g, g.nodes@[i], after) {
                    Some(v) => (v, after),
                    None => run(g, req, order.drop_first(), after),
                }
            },
        }
    }
}

/// The verdict and final state of running graph `g`: `Allow` with the state
/// untouched when the graph has no execution order.
pub open spec fn execution(g: Graph, req: RequestContext, st: StateView) -> (ResultView, StateView) {
    match topo_order(g) {
        None => (ResultView::Allow, st),
        Some(order) => run(g, req, order, st),
    }
}

/// The inputs of node `node_id`, one per input port, from recorded outputs.
pub fn gather_inputs(graph: &Graph, node_id: NodeId, state: &ExecutionState) -> (r: Vec<Value>)
    ensures
        values(r@) == node_inputs(*graph, node_id, state@),
{
    let node = match graph.get_node(node_id) {
        Some(n) => n,
        None => {
            let r: Vec<Value> = Vec::new();
            assert(values(r@) =~= seq![]);
            return r;
        },
    };
    let ghost idx = node_index(graph.nodes@, node_id)->0;
    let count = node.kind.inputs().len();
    let mut inputs: Vec<Value> = Vec::new();
    while inputs.len() < count
        invariant
            inputs@.len() <= count,
            forall|k: int| 0 <= k < inputs@.len() ==> inputs@[k]@ == ValueView::Null,
        decreases count - inputs@.len(),
    {
        inputs.push(Value::Null);
    }
    let ghost init = values(inputs@);
    assert(init =~= Seq::new(input_arity(graph.nodes@[idx].kind), |k: int| ValueView::Null));
    let ins = graph.get_incoming_edges(node_id);
    let mut j: usize = 0;
    assert(ins@.subrange(0, ins@.len() as int) =~= ins@);
    while j < ins.len()
        invariant
            j <= ins@.len(),
            gather(ins@, state@.outputs, init) == gather(ins@.subrange(j as int, ins@.len() as int), state@.outputs, values(inputs@)),
        decreases ins@.len() - j,
    {
        let ghost rest = ins@.subrange(j as int, ins@.len() as int);
        assert(rest.drop_first() =~= ins@.subrange(j + 1, ins@.len() as int));
        let e = ins[j];
        assert(rest[0] == e);
        match state.get_output(e.from_node, e.from_port) {
            Some(v) => {
                if (e.to_port as usize) < inputs.len() {
                    let ghost before = values(inputs@);
                    inputs[e.to_port as usize] = v.clone();
                    assert(values(inputs@) =~= before.update(e.to_port as int, state@.outputs[(e.from_node, e.from_port)]));
                }
            },
            None => {},
        }
        j += 1;
    }
    assert(ins@.subrange(ins@.len() as int, ins@.len() as int) =~= Seq::<Edge>::empty());
    inputs
}

fn input_is_truthy(inputs: &Vec<Value>, i: usize) -> (r: bool)
    ensures
        r == input_truthy(values(inputs@), i as int),
{
    if i < inputs.len() {
        inputs[i].is_truthy()
    } else {
        false
    }
}

/// Runs one node: reads its inputs, performs its side effects, records its output.
fn execute_node(graph: &Graph, node: &Node, request: &RequestContext, state: &mut ExecutionState)
    ensures
        final(state)@ == node_step(*graph, *node, *request, old(state)@),
{
    let inputs = gather_inputs(graph, node.id, state);
    let ghost ins = values(inputs@);
    let out: Option<Value> = match &node.kind {
        NodeKind::Request => Some(Value::Bool(true)),
        NodeKind::Condition { field, operator, value } => {
            let field_value = request.get_field(field);
            Some(Value::Bool(evaluate_condition(&field_value, operator, value)))
        },
        NodeKind::And { input_count } => {
            let mut all = true;
            let mut i: u8 = 0;
            while i < *input_count
                invariant
                    i <= *input_count,
                    ins == values(inputs@),
                    all == forall|k: int| 0 <= k < i ==> #[trigger] input_truthy(ins, k),
                decreases *input_count - i,
            {
                let t = input_is_truthy(&inputs, i as usize);
                all = all && t;
                i += 1;
            }
            Some(Value::Bool(all))
        },
        NodeKind::Or { input_count } => {
            let mut any = false;
            let mut i: u8 = 0;
            while i < *input_count
                invariant
                    i <= *input_count,
                    ins == values(inputs@),
                    any == exists|k: int| 0 <= k < i && #[trigger] input_truthy(ins, k),
                decreases *input_count - i,
            {
                let t = input_is_truthy(&inputs, i as usize);
                proof {
                    if t {
                        assert(input_truthy(ins, i as int));
                    }
                }
                any = any || t;
                i += 1;
            }
            Some(Value::Bool(any))
        },
        NodeKind::Not => Some(Value::Bool(!input_is_truthy(&inputs, 0))),
        NodeKind::RateLimit { mode, counter_name, threshold, .. } => match &request.client_ip {
            None => match mode {
                RateLimitMode::AddToPenaltyBox => None,
                _ => Some(Value::Bool(false)),
            },
            Some(client) => {
                let entry = client.text.as_str();
                match mode {
                    RateLimitMode::CheckRate => {
                        let rate = state.increment_rate(counter_name.as_str(), entry);
                        Some(Value::Bool(rate > *threshold))
                    },
                    RateLimitMode::CheckRateAndPenalize => {
                        let rate = state.increment_rate(counter_name.as_str(), entry);
                        let exceeded = rate > *threshold;
                        if exceeded {
                            state.add_to_penalty_box(counter_name.as_str(), entry);
                        }
                        Some(Value::Bool(exceeded))
                    },
                    RateLimitMode::InPenaltyBox => {
                        Some(Value::Bool(state.is_in_penalty_box(counter_name.as_str(), entry)))
                    },
                    RateLimitMode::AddToPenaltyBox => {
                        if input_is_truthy(&inputs, 0) {
                            state.add_to_penalty_box(counter_name.as_str(), entry);
                        }
                        None
                    },
                }
            },
        },
        NodeKind::Header { operation, name, value } => {
            if input_is_truthy(&inputs, 0) {
                let change = HeaderChange { operation: *operation, name: name.clone(), value: crate::rules::copy_opt_string(value) };
                state.add_header_change(change);
            }
            None
        },
        _ => None,
    };
    match out {
        Some(v) => state.set_output(node.id, 0, v),
        None => {},
    }
}

/// The verdict of `node` if it is a terminal whose trigger input is truthy.
fn check_action_result(graph: &Graph, node: &Node, state: &ExecutionState) -> (r: Option<ExecutionResult>)
    ensures
        match verdict_of(*graph, *node, state@) {
            Some(v) => r is Some && r->0@ == v,
            None => r is None,
        },
{
    let inputs = gather_inputs(graph, node.id, state);
    if !input_is_truthy(&inputs, 0) {
        return None;
    }
    match &node.kind {
        NodeKind::Action { action } => match action {
            ActionType::Block { status_code, message } => Some(ExecutionResult::Block { status_code: *status_code, message: message.clone() }),
            ActionType::Challenge { challenge_type } => Some(ExecutionResult::Challenge { challenge_type: owned(challenge_type.name()) }),
            ActionType::Tarpit { delay_ms } => Some(ExecutionResult::Tarpit { delay_ms: *delay_ms }),
            ActionType::Log { message, severity } => Some(ExecutionResult::Log { message: message.clone(), severity: owned(severity.name()) }),
            ActionType::Allow => Some(ExecutionResult::Allow),
        },
        NodeKind::Forward { backend } => Some(ExecutionResult::Forward { backend: backend.clone() }),
        _ => None,
    }
}

/// Runs `graph` against `request`: nodes in execution order, each after the
/// nodes it depends on; the first terminal node whose trigger input is truthy
/// gives the verdict, `Allow` when none does or the graph has a cycle.
pub fn execute(graph: &Graph, request: &RequestContext, state: &mut ExecutionState) -> (r: ExecutionResult)
    ensures
        (r@, final(state)@) == execution(*graph, *request, old(state)@),
{
    let order = match graph.topological_sort() {
        Ok(order) => order,
        Err(_) => return ExecutionResult::Allow,
    };
    let ghost full = order@;
    let mut i: usize = 0;
    assert(order@.subrange(0, order@.len() as int) =~= order@);
    while i < order.len()
        invariant
            i <= order@.len(),
            topo_order(*graph) == Some(full),
            full == order@,
            execution(*graph, *request, old(state)@) == run(*graph, *request, order@.subrange(i as int, order@.len() as int), state@),
        decreases order@.len() - i,
    {
        let ghost rest = order@.subrange(i as int, order@.len() as int);
        assert(rest.drop_first() =~= order@.subrange(i + 1, order@.len() as int));
        assert(rest[0] == order@[i as int]);
        match graph.get_node(order[i]) {
            Some(node) => {
                execute_node(graph, node, request, state);
                match check_action_result(graph, node, state) {
                    Some(result) => {
                        return result;
                    },
                    None => {},
                }
            },
            None => {},
        }
        i += 1;
    }
    ExecutionResult::Allow
}

} // verus!
