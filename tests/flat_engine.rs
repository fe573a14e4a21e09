use edge_waf::engine::{DeviceClass, HttpRequest, RuleEngine};
use edge_waf::net::ClientIp;
use edge_waf::respond::{plan_response, Plan};
use edge_waf::rules::{
    Action, Condition, ConditionRule, DeviceOperator, HeaderOperator, IpOperator, LogicOperator, Rule,
    StringOperator, Window,
};
use edge_waf::value::IpAddress;

fn action(kind: &str, code: Option<u16>) -> Action {
    Action { type_: kind.to_string(), response_code: code, response_message: None, challenge_type: None, backend: None }
}

fn rule(op: LogicOperator, leaves: Vec<ConditionRule>, act: Action) -> Rule {
    Rule { enabled: true, conditions: Condition { operator: op, rules: leaves }, action: act }
}

fn v4(a: u8, b: u8, c: u8, d: u8) -> ClientIp {
    ClientIp {
        addr: IpAddress::V4(u32::from_be_bytes([a, b, c, d])),
        text: format!("{}.{}.{}.{}", a, b, c, d),
    }
}

fn request(path: &str, ip: Option<ClientIp>, headers: Vec<(&str, &str)>, now: u64) -> HttpRequest {
    HttpRequest {
        path: path.to_string(),
        client_ip: ip,
        headers: headers.into_iter().map(|(k, v)| (k.to_string(), v.to_string())).collect(),
        device: None,
        now_secs: now,
    }
}

fn admin_engine() -> RuleEngine {
    let mut e = RuleEngine::new();
    e.add_rule(
        "admin".to_string(),
        rule(
            LogicOperator::And,
            vec![ConditionRule::Path { operator: StringOperator::StartsWith, value: "/admin".to_string() }],
            action("block", Some(403)),
        ),
    );
    e
}

#[test]
fn admin_path_is_blocked_with_rule_message() {
    let mut e = admin_engine();
    let m = e.evaluate(&request("/admin/login", None, vec![], 0));
    let (name, act) = m.clone().unwrap();
    assert_eq!(name, "admin");
    assert_eq!(act.type_, "block");
    let plan = plan_response(&m, &vec![]);
    assert_eq!(plan.plan, Plan::Respond { status: 403, body: "Blocked by rule: admin".to_string() });
    assert_eq!(plan.final_action, "blocked");
    assert!(plan.blocked);
}

#[test]
fn public_path_is_forwarded() {
    let mut e = admin_engine();
    let m = e.evaluate(&request("/public", None, vec![], 0));
    assert!(m.is_none());
    let plan = plan_response(&m, &vec![]);
    assert_eq!(plan.plan, Plan::Forward { backend: None });
    assert_eq!(plan.final_action, "forwarded");
    assert!(!plan.blocked);
}

#[test]
fn cidr_range_blocks_inside_and_allows_outside() {
    let mut e = RuleEngine::new();
    e.add_rule(
        "cidr".to_string(),
        rule(
            LogicOperator::And,
            vec![ConditionRule::IP { operator: IpOperator::InRange, value: vec!["10.0.0.0/8".to_string()] }],
            action("block", Some(403)),
        ),
    );
    let inside = e.evaluate(&request("/", Some(v4(10, 5, 1, 2)), vec![], 0));
    assert_eq!(inside.unwrap().0, "cidr");
    let outside = e.evaluate(&request("/", Some(v4(11, 0, 0, 1)), vec![], 0));
    assert!(outside.is_none());
}

#[test]
fn ipv6_client_is_outside_ipv4_ranges() {
    let mut e = RuleEngine::new();
    e.add_rule(
        "cidr".to_string(),
        rule(
            LogicOperator::And,
            vec![ConditionRule::IP { operator: IpOperator::InRange, value: vec!["0.0.0.0/0".to_string()] }],
            action("block", None),
        ),
    );
    let v6 = ClientIp { addr: IpAddress::V6(1), text: "::1".to_string() };
    assert!(e.evaluate(&request("/", Some(v6), vec![], 0)).is_none());
    assert!(e.evaluate(&request("/", Some(v4(8, 8, 8, 8)), vec![], 0)).is_some());
}

#[test]
fn ip_equals_compares_address_text() {
    let mut e = RuleEngine::new();
    e.add_rule(
        "one".to_string(),
        rule(
            LogicOperator::Or,
            vec![ConditionRule::IP { operator: IpOperator::Equals, value: vec!["127.0.0.1".to_string()] }],
            action("block", None),
        ),
    );
    assert!(e.evaluate(&request("/", Some(v4(127, 0, 0, 1)), vec![], 0)).is_some());
    let padded = ClientIp { addr: IpAddress::V4(0x7f000001), text: "127.000.000.001".to_string() };
    assert!(e.evaluate(&request("/", Some(padded), vec![], 0)).is_none());
}

#[test]
fn header_equals_compares_value_with_key() {
    let mut e = RuleEngine::new();
    e.add_rule(
        "hdr".to_string(),
        rule(
            LogicOperator::And,
            vec![ConditionRule::Header { key: "X-Api-Key".to_string(), operator: HeaderOperator::Equals }],
            action("block", None),
        ),
    );
    assert!(e.evaluate(&request("/", None, vec![("x-api-key", "X-Api-Key")], 0)).is_some());
    assert!(e.evaluate(&request("/", None, vec![("x-api-key", "secret")], 0)).is_none());
}

#[test]
fn header_exists_and_not_exists() {
    let mut e = RuleEngine::new();
    e.add_rule(
        "missing".to_string(),
        rule(
            LogicOperator::And,
            vec![ConditionRule::Header { key: "Authorization".to_string(), operator: HeaderOperator::NotExists }],
            action("challenge", None),
        ),
    );
    assert!(e.evaluate(&request("/", None, vec![], 0)).is_some());
    assert!(e.evaluate(&request("/", None, vec![("authorization", "x")], 0)).is_none());
}

#[test]
fn rate_limit_blocks_third_request_then_penalty_box_holds() {
    let mut e = RuleEngine::new();
    e.add_rule(
        "rl".to_string(),
        rule(
            LogicOperator::And,
            vec![ConditionRule::RateLimit {
                window: Window::OneSecond,
                max_requests: 2,
                block_ttl: 60,
                counter_name: None,
                penaltybox_name: None,
            }],
            action("block", Some(429)),
        ),
    );
    let ip = || Some(v4(192, 0, 2, 7));
    assert!(e.evaluate(&request("/", ip(), vec![], 1000)).is_none());
    assert!(e.evaluate(&request("/", ip(), vec![], 1000)).is_none());
    assert!(e.evaluate(&request("/", ip(), vec![], 1000)).is_some());
    assert!(e.evaluate(&request("/", ip(), vec![], 1030)).is_some());
    assert!(e.evaluate(&request("/", ip(), vec![], 1059)).is_some());
    assert_eq!(e.limits.counters.get_rate("rate_counter_1s_2_60", "192.0.2.7"), 3);
    assert!(e.limits.is_boxed("penalty_box_1s_2_60", "192.0.2.7", 1059));
    assert!(!e.limits.is_boxed("penalty_box_1s_2_60", "192.0.2.7", 1060));
    assert!(e.evaluate(&request("/", Some(v4(192, 0, 2, 8)), vec![], 1000)).is_none());
}

#[test]
fn rate_limit_without_client_address_never_matches() {
    let mut e = RuleEngine::new();
    e.add_rule(
        "rl".to_string(),
        rule(
            LogicOperator::And,
            vec![ConditionRule::RateLimit {
                window: Window::TenSeconds,
                max_requests: 0,
                block_ttl: 5,
                counter_name: Some("c".to_string()),
                penaltybox_name: Some("b".to_string()),
            }],
            action("block", None),
        ),
    );
    assert!(e.evaluate(&request("/", None, vec![], 0)).is_none());
    assert_eq!(e.limits.counters.get_rate("c", ""), 0);
}

#[test]
fn device_and_user_agent_leaves() {
    let mut e = RuleEngine::new();
    e.add_rule(
        "mobile-bot".to_string(),
        rule(
            LogicOperator::And,
            vec![
                ConditionRule::Device { operator: DeviceOperator::Is, value: "mobile".to_string() },
                ConditionRule::UserAgent { operator: StringOperator::Matches, value: "(?i)bot".to_string() },
            ],
            action("block", None),
        ),
    );
    let mut req = request("/", None, vec![("User-Agent", "CrawlBot/1.0")], 0);
    req.device = Some(DeviceClass { is_mobile: Some(true), is_tablet: Some(false), is_desktop: Some(false) });
    assert!(e.evaluate(&req).is_some());
    req.device = Some(DeviceClass { is_mobile: Some(false), is_tablet: None, is_desktop: Some(true) });
    assert!(e.evaluate(&req).is_none());
    req.device = None;
    assert!(e.evaluate(&req).is_none());
}

#[test]
fn invalid_regex_leaf_is_false() {
    let mut e = RuleEngine::new();
    e.add_rule(
        "bad".to_string(),
        rule(
            LogicOperator::Or,
            vec![ConditionRule::Path { operator: StringOperator::Matches, value: "(".to_string() }],
            action("block", None),
        ),
    );
    assert!(e.evaluate(&request("(", None, vec![], 0)).is_none());
}

#[test]
fn first_enabled_matching_rule_wins_in_insertion_order() {
    let mut e = RuleEngine::new();
    let p = |v: &str| ConditionRule::Path { operator: StringOperator::Contains, value: v.to_string() };
    let mut off = rule(LogicOperator::And, vec![p("a")], action("block", Some(401)));
    off.enabled = false;
    e.add_rule("zeta".to_string(), off);
    e.add_rule("beta".to_string(), rule(LogicOperator::And, vec![p("x")], action("challenge", None)));
    e.add_rule("alpha".to_string(), rule(LogicOperator::And, vec![p("a")], action("block", Some(402))));
    e.add_rule("omega".to_string(), rule(LogicOperator::And, vec![p("a")], action("block", Some(403))));
    let (m, trace) = e.evaluate_with_details(&request("/abc", None, vec![], 0));
    let (name, act) = m.unwrap();
    assert_eq!(name, "alpha");
    assert_eq!(act.response_code, Some(402));
    let names: Vec<String> = trace.iter().map(|t| t.name.clone()).collect();
    assert_eq!(names, vec!["beta".to_string(), "alpha".to_string()]);
    assert!(!trace[0].matched);
    assert!(trace[1].matched);
    assert_eq!(trace[1].conditions.len(), 1);
    assert_eq!(e.rule_count(), 4);
}

#[test]
fn disabling_a_rule_equals_removing_it() {
    let p = |v: &str| ConditionRule::Path { operator: StringOperator::Contains, value: v.to_string() };
    let mut with_off = RuleEngine::new();
    let mut off = rule(LogicOperator::And, vec![p("a")], action("block", Some(401)));
    off.enabled = false;
    with_off.add_rule("first".to_string(), off);
    with_off.add_rule("second".to_string(), rule(LogicOperator::And, vec![p("b")], action("block", Some(402))));
    let mut without = RuleEngine::new();
    without.add_rule("second".to_string(), rule(LogicOperator::And, vec![p("b")], action("block", Some(402))));
    for path in ["/ab", "/a", "/b", "/"] {
        let r1 = with_off.evaluate(&request(path, None, vec![], 0));
        let r2 = without.evaluate(&request(path, None, vec![], 0));
        assert_eq!(r1.map(|x| x.0), r2.map(|x| x.0));
    }
}

#[test]
fn not_condition_is_negated_or() {
    let leaves = || {
        vec![
            ConditionRule::Path { operator: StringOperator::Equals, value: "/x".to_string() },
            ConditionRule::Path { operator: StringOperator::StartsWith, value: "/y".to_string() },
        ]
    };
    let mut not_e = RuleEngine::new();
    not_e.add_rule("n".to_string(), rule(LogicOperator::Not, leaves(), action("block", None)));
    let mut or_e = RuleEngine::new();
    or_e.add_rule("o".to_string(), rule(LogicOperator::Or, leaves(), action("block", None)));
    for path in ["/x", "/y1", "/z", ""] {
        let n = not_e.evaluate(&request(path, None, vec![], 0)).is_some();
        let o = or_e.evaluate(&request(path, None, vec![], 0)).is_some();
        assert_eq!(n, !o);
    }
}

#[test]
fn counts_never_decrease_across_requests() {
    let mut e = RuleEngine::new();
    e.add_rule(
        "rl".to_string(),
        rule(
            LogicOperator::Or,
            vec![ConditionRule::RateLimit {
                window: Window::SixtySeconds,
                max_requests: 100,
                block_ttl: 1,
                counter_name: Some("shared".to_string()),
                penaltybox_name: Some("box".to_string()),
            }],
            action("block", None),
        ),
    );
    let mut last = 0;
    for t in 0..10u64 {
        e.evaluate(&request("/", Some(v4(1, 2, 3, 4)), vec![], t));
        let now = e.limits.counters.get_rate("shared", "1.2.3.4");
        assert!(now >= last);
        last = now;
    }
    assert_eq!(last, 10);
}

#[test]
fn adding_a_rule_twice_replaces_it_in_place() {
    let mut e = admin_engine();
    e.add_rule("other".to_string(), rule(LogicOperator::And, vec![], action("allow", None)));
    e.add_rule("admin".to_string(), rule(LogicOperator::And, vec![], action("challenge", None)));
    assert_eq!(e.rule_count(), 2);
    assert_eq!(e.rules[0].0, "admin");
    assert_eq!(e.rules[0].1.action.type_, "challenge");
}

#[test]
fn route_plans_follow_backend_availability() {
    let mut a = action("route", None);
    a.backend = Some("eu".to_string());
    let m = Some(("r".to_string(), a));
    let with = plan_response(&m, &vec!["eu".to_string()]);
    assert_eq!(with.plan, Plan::Forward { backend: Some("eu".to_string()) });
    assert_eq!(with.final_action, "routed:eu");
    assert!(!with.blocked);
    let without = plan_response(&m, &vec![]);
    assert_eq!(without.plan, Plan::Forward { backend: None });
    assert_eq!(without.final_action, "route_backend_missing");
    let none = plan_response(&Some(("r".to_string(), action("route", None))), &vec![]);
    assert_eq!(none.final_action, "route_no_backend");
    let odd = plan_response(&Some(("r".to_string(), action("log", None))), &vec![]);
    assert_eq!(odd.final_action, "unknown_action");
    let chal = plan_response(&Some(("c".to_string(), action("challenge", None))), &vec![]);
    assert_eq!(chal.plan, Plan::Respond { status: 403, body: "Challenge required by rule: c".to_string() });
    let bad_code = plan_response(&Some(("b".to_string(), action("block", Some(42)))), &vec![]);
    assert_eq!(bad_code.plan, Plan::Respond { status: 403, body: "Blocked by rule: b".to_string() });
}
