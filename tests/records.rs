use edge_waf::engine::{HttpRequest, RuleEngine};
use edge_waf::logging::{RequestDetails, WafLog};
use edge_waf::rules::{Action, Condition, ConditionRule, IpOperator, LogicOperator, Rule, StringOperator, Window};

fn details() -> RequestDetails {
    RequestDetails {
        method: "GET".into(),
        url: "https://example.com/x".into(),
        path: "/x".into(),
        query_string: "none".into(),
        client_ip: "none".into(),
        server_ip: "none".into(),
        content_length: 0,
        has_body: false,
        version: "Http11".into(),
        content_type: "none".into(),
        headers: vec![],
    }
}

#[test]
fn log_record_lifecycle() {
    let mut log = WafLog::new(details(), "id-1".into(), "2024-01-01T00:00:00Z".into());
    assert_eq!(log.final_action, "initializing");
    assert!(!log.blocked);
    log.set_final_action("forwarded");
    log.finalize(12);
    assert_eq!(log.final_action, "forwarded");
    assert_eq!(log.processing_time_ms, 12);
}

#[test]
fn log_records_rule_evaluations() {
    let mut e = RuleEngine::new();
    e.add_rule(
        "r".into(),
        Rule {
            enabled: true,
            conditions: Condition {
                operator: LogicOperator::And,
                rules: vec![
                    ConditionRule::Path { operator: StringOperator::Equals, value: "/x".into() },
                    ConditionRule::IP { operator: IpOperator::Equals, value: vec!["1.1.1.1".into(), "2.2.2.2".into()] },
                    ConditionRule::RateLimit { window: Window::TenSeconds, max_requests: 5, block_ttl: 1, counter_name: None, penaltybox_name: None },
                ],
            },
            action: Action { type_: "block".into(), response_code: None, response_message: None, challenge_type: None, backend: None },
        },
    );
    let req = HttpRequest { path: "/x".into(), client_ip: None, headers: vec![], device: None, now_secs: 0 };
    let (m, evals) = e.evaluate_with_details(&req);
    assert!(m.is_none());
    let mut log = WafLog::new(details(), "id".into(), "t".into());
    for ev in &evals {
        log.add_rule_evaluation(ev);
    }
    assert_eq!(log.rules.len(), 1);
    let entry = &log.rules[0];
    assert_eq!(entry.name, "r");
    assert_eq!(entry.operator, "and");
    assert!(!entry.matched);
    assert_eq!(entry.conditions[0].kind, "path");
    assert!(entry.conditions[0].matched);
    assert_eq!(entry.conditions[1].value, "1.1.1.1,2.2.2.2");
    assert!(!entry.conditions[1].matched);
    assert_eq!(entry.conditions[2].value, "5/10s");
}
