use edge_waf::graph::{Graph, GraphError};
use edge_waf::interpreter::{evaluate_condition, execute, ExecutionResult, RequestContext};
use edge_waf::net::ClientIp;
use edge_waf::nodes::{
    ActionType, ChallengeType, ConditionValue, HeaderOp, LogSeverity, Node, NodeCategory, NodeKind, Operator,
    RateLimitMode, RateWindow, RequestField,
};
use edge_waf::ports::PortType;
use edge_waf::state::ExecutionState;
use edge_waf::value::{IpAddress, Value};

fn node(kind: NodeKind) -> Node {
    Node { id: 0, kind, position: (0, 0) }
}

fn condition(field: RequestField, operator: Operator, value: ConditionValue) -> NodeKind {
    NodeKind::Condition { field, operator, value }
}

fn block(code: u16) -> NodeKind {
    NodeKind::Action { action: ActionType::Block { status_code: code, message: "no".to_string() } }
}

#[test]
fn connect_rejects_cycles_and_keeps_graph() {
    let mut g = Graph::new("g");
    let a = g.add_node(node(NodeKind::Not));
    let b = g.add_node(node(NodeKind::Not));
    let c = g.add_node(node(NodeKind::Not));
    assert_eq!((a, b, c), (0, 1, 2));
    assert!(g.connect(a, 0, b, 0).is_ok());
    assert!(g.connect(b, 0, c, 0).is_ok());
    assert_eq!(g.connect(c, 0, a, 0), Err(GraphError::CycleDetected));
    assert_eq!(g.connect(a, 0, a, 0), Err(GraphError::CycleDetected));
    assert_eq!(g.edges.len(), 2);
    assert_eq!(g.connect(a, 0, 9, 0), Err(GraphError::NodeNotFound(9)));
    assert_eq!(g.connect(7, 0, a, 0), Err(GraphError::NodeNotFound(7)));
}

#[test]
fn connecting_an_input_again_replaces_its_edge() {
    let mut g = Graph::new("g");
    let a = g.add_node(node(NodeKind::Request));
    let b = g.add_node(node(NodeKind::Request));
    let n = g.add_node(node(NodeKind::Not));
    g.connect(a, 0, n, 0).unwrap();
    g.connect(b, 0, n, 0).unwrap();
    let incoming = g.get_incoming_edges(n);
    assert_eq!(incoming.len(), 1);
    assert_eq!(incoming[0].from_node, b);
    assert_eq!(g.get_outgoing_edges(a).len(), 0);
    g.disconnect(n, 0);
    assert!(g.edges.is_empty());
}

#[test]
fn removing_a_node_drops_its_edges_and_keeps_ids_fresh() {
    let mut g = Graph::new("g");
    let a = g.add_node(node(NodeKind::Request));
    let b = g.add_node(node(NodeKind::Not));
    g.connect(a, 0, b, 0).unwrap();
    g.remove_node(a);
    assert!(g.get_node(a).is_none());
    assert!(g.get_node(b).is_some());
    assert!(g.edges.is_empty());
    let c = g.add_node(node(NodeKind::Request));
    assert_eq!(c, 2);
}

#[test]
fn topological_order_puts_sources_first() {
    let mut g = Graph::new("g");
    let act = g.add_node(node(block(403)));
    let cond = g.add_node(node(condition(RequestField::Path, Operator::Equals, ConditionValue::String("/".into()))));
    let not = g.add_node(node(NodeKind::Not));
    g.connect(cond, 0, not, 0).unwrap();
    g.connect(not, 0, act, 0).unwrap();
    assert_eq!(g.topological_sort().unwrap(), vec![cond, not, act]);
}

fn path_request(path: &str) -> RequestContext {
    let mut r = RequestContext::new();
    r.path = path.to_string();
    r
}

#[test]
fn condition_into_block_action() {
    let mut g = Graph::new("g");
    let cond = g.add_node(node(condition(RequestField::Path, Operator::StartsWith, ConditionValue::String("/admin".into()))));
    let act = g.add_node(node(block(403)));
    g.connect(cond, 0, act, 0).unwrap();
    let mut st = ExecutionState::new();
    assert_eq!(
        execute(&g, &path_request("/admin/x"), &mut st),
        ExecutionResult::Block { status_code: 403, message: "no".to_string() }
    );
    let mut st2 = ExecutionState::new();
    assert_eq!(execute(&g, &path_request("/public"), &mut st2), ExecutionResult::Allow);
}

#[test]
fn two_runs_from_fresh_state_agree() {
    let mut g = Graph::new("g");
    let c1 = g.add_node(node(condition(RequestField::Method, Operator::Equals, ConditionValue::String("POST".into()))));
    let c2 = g.add_node(node(condition(RequestField::Path, Operator::EndsWith, ConditionValue::String(".php".into()))));
    let and = g.add_node(node(NodeKind::And { input_count: 2 }));
    let act = g.add_node(node(NodeKind::Action { action: ActionType::Challenge { challenge_type: ChallengeType::Captcha } }));
    g.connect(c1, 0, and, 0).unwrap();
    g.connect(c2, 0, and, 1).unwrap();
    g.connect(and, 0, act, 0).unwrap();
    let mut req = path_request("/index.php");
    req.method = "POST".to_string();
    let r1 = execute(&g, &req, &mut ExecutionState::new());
    let r2 = execute(&g, &req, &mut ExecutionState::new());
    assert_eq!(r1, r2);
    let mut shared = ExecutionState::new();
    let first = execute(&g, &req, &mut shared);
    let second = execute(&g, &req, &mut shared);
    assert_eq!(first, second);
    assert_eq!(r1, ExecutionResult::Challenge { challenge_type: "Captcha".to_string() });
}

#[test]
fn or_not_and_forward_nodes() {
    let mut g = Graph::new("g");
    let c = g.add_node(node(condition(RequestField::Country, Operator::In, ConditionValue::List(vec!["FR".into(), "DE".into()]))));
    let not = g.add_node(node(NodeKind::Not));
    let or = g.add_node(node(NodeKind::Or { input_count: 2 }));
    let fwd = g.add_node(node(NodeKind::Forward { backend: "eu".to_string() }));
    g.connect(c, 0, not, 0).unwrap();
    g.connect(not, 0, or, 1).unwrap();
    g.connect(or, 0, fwd, 0).unwrap();
    let mut req = RequestContext::new();
    req.country = Some("US".to_string());
    assert_eq!(execute(&g, &req, &mut ExecutionState::new()), ExecutionResult::Forward { backend: "eu".to_string() });
    req.country = Some("FR".to_string());
    assert_eq!(execute(&g, &req, &mut ExecutionState::new()), ExecutionResult::Allow);
}

#[test]
fn cycle_in_graph_allows() {
    let mut g = Graph::new("g");
    let a = g.add_node(node(NodeKind::Not));
    let b = g.add_node(node(block(403)));
    g.connect(a, 0, b, 0).unwrap();
    g.edges.push(edge_waf::graph::Edge { from_node: b, from_port: 0, to_node: a, to_port: 0 });
    assert_eq!(g.topological_sort(), Err(GraphError::CycleDetected));
    assert_eq!(execute(&g, &RequestContext::new(), &mut ExecutionState::new()), ExecutionResult::Allow);
}

#[test]
fn rate_limit_node_penalizes_after_threshold() {
    let mut g = Graph::new("g");
    let rl = g.add_node(node(NodeKind::RateLimit {
        mode: RateLimitMode::CheckRateAndPenalize,
        counter_name: "api".to_string(),
        window: RateWindow::OneSec,
        threshold: 2,
        penalty_ttl_seconds: 60,
    }));
    let act = g.add_node(node(NodeKind::Action { action: ActionType::Tarpit { delay_ms: 500 } }));
    g.connect(rl, 0, act, 0).unwrap();
    let mut req = RequestContext::new();
    req.client_ip = Some(ClientIp { addr: IpAddress::V4(0x0a000001), text: "10.0.0.1".to_string() });
    let mut st = ExecutionState::new();
    assert_eq!(execute(&g, &req, &mut st), ExecutionResult::Allow);
    assert_eq!(execute(&g, &req, &mut st), ExecutionResult::Allow);
    assert_eq!(execute(&g, &req, &mut st), ExecutionResult::Tarpit { delay_ms: 500 });
    assert_eq!(st.get_rate("api", "10.0.0.1"), 3);
    assert!(st.is_in_penalty_box("api", "10.0.0.1"));
}

#[test]
fn in_cidr_and_regex_conditions() {
    let mut g = Graph::new("g");
    let cidr = g.add_node(node(condition(
        RequestField::ClientIp,
        Operator::InCidr,
        ConditionValue::CidrList(vec!["bogus".into(), "2001:db8::/32".into(), "192.168.0.0/16".into()]),
    )));
    let re = g.add_node(node(condition(RequestField::UserAgent, Operator::Matches, ConditionValue::String("^curl/".into()))));
    let and = g.add_node(node(NodeKind::And { input_count: 2 }));
    let act = g.add_node(node(NodeKind::Action { action: ActionType::Log { message: "m".into(), severity: LogSeverity::Warning } }));
    g.connect(cidr, 0, and, 0).unwrap();
    g.connect(re, 0, and, 1).unwrap();
    g.connect(and, 0, act, 0).unwrap();
    let mut req = RequestContext::mock();
    req.user_agent = "curl/8.0".to_string();
    assert_eq!(
        execute(&g, &req, &mut ExecutionState::new()),
        ExecutionResult::Log { message: "m".to_string(), severity: "Warning".to_string() }
    );
    req.client_ip = Some(ClientIp { addr: IpAddress::V6(0x2001_0db8_0000_0000_0000_0000_0000_0001), text: "2001:db8::1".into() });
    assert!(matches!(execute(&g, &req, &mut ExecutionState::new()), ExecutionResult::Log { .. }));
    req.client_ip = Some(ClientIp { addr: IpAddress::V4(0x0a000001), text: "10.0.0.1".into() });
    assert_eq!(execute(&g, &req, &mut ExecutionState::new()), ExecutionResult::Allow);
}

#[test]
fn numeric_and_existence_conditions() {
    let asn = Value::Number(15169);
    assert!(evaluate_condition(&asn, &Operator::GreaterThan, &ConditionValue::Number(100)));
    assert!(evaluate_condition(&asn, &Operator::Equals, &ConditionValue::Number(15169)));
    assert!(!evaluate_condition(&asn, &Operator::Equals, &ConditionValue::String("15169".into())));
    assert!(evaluate_condition(&asn, &Operator::NotEquals, &ConditionValue::String("15169".into())));
    assert!(evaluate_condition(&Value::Null, &Operator::NotExists, &ConditionValue::Bool(true)));
    assert!(!evaluate_condition(&Value::Null, &Operator::Exists, &ConditionValue::Bool(true)));
    assert!(evaluate_condition(&Value::String("abc".into()), &Operator::NotContains, &ConditionValue::String("z".into())));
    assert!(evaluate_condition(&Value::Bool(true), &Operator::Equals, &ConditionValue::Bool(true)));
    assert!(evaluate_condition(&Value::Number(-3), &Operator::LessOrEqual, &ConditionValue::Number(-3)));
}

#[test]
fn request_fields_and_mock() {
    let mut req = RequestContext::mock();
    assert!(matches!(req.get_field(&RequestField::Asn), Value::Number(15169)));
    assert!(matches!(req.get_field(&RequestField::ClientIp), Value::Ip(IpAddress::V4(0xC0A8_0164))));
    assert!(matches!(req.get_field(&RequestField::ProxyType), Value::Null));
    req.headers.push(("X-Id".to_string(), "7".to_string()));
    match req.get_field(&RequestField::Header { name: "X-Id".to_string() }) {
        Value::String(s) => assert_eq!(s, "7"),
        _ => panic!("header not read"),
    }
}

#[test]
fn truthiness_of_values() {
    assert!(!Value::Null.is_truthy());
    assert!(!Value::Number(0).is_truthy());
    assert!(Value::Number(-1).is_truthy());
    assert!(!Value::String(String::new()).is_truthy());
    assert!(Value::Ip(IpAddress::V6(0)).is_truthy());
    assert!(!Value::List(vec![]).is_truthy());
    assert!(Value::List(vec!["a".into()]).is_truthy());
    assert_eq!(Value::Null.as_bool(), Some(false));
    assert_eq!(Value::Number(3).as_bool(), None);
    assert_eq!(Value::String("s".into()).as_string(), Some("s"));
    assert_eq!(Value::Number(4).as_number(), Some(4));
}

#[test]
fn node_metadata() {
    let and = NodeKind::And { input_count: 3 };
    let names: Vec<String> = and.inputs().into_iter().map(|p| p.name).collect();
    assert_eq!(names, vec!["in0", "in1", "in2"]);
    assert_eq!(and.outputs()[0].port_type, PortType::Bool);
    assert_eq!(and.category(), NodeCategory::Logic);
    assert_eq!(and.color(), (70, 100, 70));
    let rl = NodeKind::RateLimit {
        mode: RateLimitMode::CheckRate,
        counter_name: "api".into(),
        window: RateWindow::TenSecs,
        threshold: 50,
        penalty_ttl_seconds: 0,
    };
    assert_eq!(rl.display_name(), "Check Rate: api>50/10 seconds");
    assert!(rl.inputs().is_empty());
    assert_eq!(condition(RequestField::UserAgent, Operator::Matches, ConditionValue::Bool(true)).display_name(), "User Agent matches (regex)");
    assert_eq!(NodeKind::Forward { backend: "b".into() }.display_name(), "Forward: b");
    assert_eq!(NodeCategory::all().len(), 8);
    assert_eq!(NodeCategory::RateLimit.display_name(), "Rate Limiting");
    assert_eq!(RequestField::all_standard().len(), 12);
    assert_eq!(Operator::string_operators().len(), 11);
    assert_eq!(Operator::numeric_operators().len(), 8);
    assert_eq!(Operator::ip_operators(), vec![Operator::Equals, Operator::NotEquals, Operator::In, Operator::NotIn, Operator::InCidr]);
}

#[test]
fn node_can_be_changed_in_place() {
    let mut g = Graph::new("g");
    let a = g.add_node(node(NodeKind::Comment { text: "old".into() }));
    match g.get_node_mut(a) {
        Some(n) => n.kind = NodeKind::Comment { text: "new".into() },
        None => panic!("node missing"),
    }
    assert!(matches!(&g.get_node(a).unwrap().kind, NodeKind::Comment { text } if text == "new"));
    assert!(g.get_node_mut(99).is_none());
}

#[test]
fn triggered_header_nodes_register_changes() {
    let mut g = Graph::new("g");
    let req_node = g.add_node(node(NodeKind::Request));
    let set = g.add_node(node(NodeKind::Header { operation: HeaderOp::Replace, name: "X-Waf".into(), value: Some("1".into()) }));
    let idle = g.add_node(node(NodeKind::Header { operation: HeaderOp::Remove, name: "Cookie".into(), value: None }));
    g.connect(req_node, 0, set, 0).unwrap();
    let mut st = ExecutionState::new();
    assert_eq!(execute(&g, &RequestContext::new(), &mut st), ExecutionResult::Allow);
    assert_eq!(st.header_changes.len(), 1);
    assert_eq!(st.header_changes[0].name, "X-Waf");
    assert_eq!(st.header_changes[0].operation, HeaderOp::Replace);
    let _ = idle;
}
