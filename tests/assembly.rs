use edge_waf::engine::HttpRequest;
use edge_waf::loader::{build_engine, decompress_payload, pack_payload, parse_rule_list, LoadError};
use edge_waf::respond::{plan_response, Plan};
use edge_waf::rules::{Action, Condition, ConditionRule, LogicOperator, Rule, StringOperator};
use edge_waf::value::{IpAddress, Value};

fn rule_with(kind: &str, prefix: &str) -> Rule {
    Rule {
        enabled: true,
        conditions: Condition {
            operator: LogicOperator::And,
            rules: vec![ConditionRule::Path { operator: StringOperator::StartsWith, value: prefix.to_string() }],
        },
        action: Action { type_: kind.to_string(), response_code: None, response_message: None, challenge_type: None, backend: None },
    }
}

#[test]
fn engine_follows_rule_list_order_and_skips_missing() {
    let list = vec!["b".to_string(), "missing".to_string(), "a".to_string(), "b".to_string()];
    let defs = vec![("a".to_string(), rule_with("block", "/a")), ("b".to_string(), rule_with("challenge", "/"))];
    let engine = build_engine(&list, defs).unwrap();
    let names: Vec<&str> = engine.rules.iter().map(|(n, _)| n.as_str()).collect();
    assert_eq!(names, vec!["b", "a"]);
}

#[test]
fn engine_without_defined_rules_is_refused() {
    let list = vec!["x".to_string()];
    let defs = vec![("y".to_string(), rule_with("block", "/"))];
    assert!(matches!(build_engine(&list, defs), Err(LoadError::NoValidRules)));
    assert!(matches!(build_engine(&vec![], vec![]), Err(LoadError::NoValidRules)));
}

#[test]
fn legacy_rule_list_is_split_and_trimmed() {
    assert_eq!(parse_rule_list(" r1, r2 ,r3"), vec!["r1", "r2", "r3"]);
    assert_eq!(parse_rule_list(""), vec![""]);
    assert_eq!(parse_rule_list("a,,b,"), vec!["a", "", "b", ""]);
}

#[test]
fn packed_payloads_unpack_to_their_text() {
    let json = r#"{"v":"1.0","r":["r1"],"d":{}}"#;
    for compress in [false, true] {
        let packed = pack_payload(json, compress).unwrap();
        assert_eq!(packed.starts_with("raw:"), !compress);
        assert_eq!(decompress_payload(&packed).unwrap(), json);
    }
    let unicode = "{\"v\":\"1.0\",\"r\":[\"r\u{e9}gle\"],\"d\":{}}";
    assert_eq!(decompress_payload(&pack_payload(unicode, false).unwrap()).unwrap(), unicode);
}

#[test]
fn gzip_payload_with_challenge_rule_loads_and_challenges() {
    let json = r#"{"v":"1.0","r":["r1"],"d":{"r1":{"enabled":true,"conditions":{"operator":"and","rules":[{"type":"path","operator":"starts_with","value":"/login"}]},"action":{"type":"challenge"}}}}"#;
    let packed = pack_payload(json, true).unwrap();
    let text = decompress_payload(&packed).unwrap();
    let doc: serde_json::Value = serde_json::from_str(&text).unwrap();
    let r1 = &doc["d"]["r1"];
    let leaf = &r1["conditions"]["rules"][0];
    assert_eq!(leaf["operator"], "starts_with");
    let rule = Rule {
        enabled: r1["enabled"].as_bool().unwrap(),
        conditions: Condition {
            operator: LogicOperator::And,
            rules: vec![ConditionRule::Path {
                operator: StringOperator::StartsWith,
                value: leaf["value"].as_str().unwrap().to_string(),
            }],
        },
        action: Action {
            type_: r1["action"]["type"].as_str().unwrap().to_string(),
            response_code: None,
            response_message: None,
            challenge_type: None,
            backend: None,
        },
    };
    let list = vec![doc["r"][0].as_str().unwrap().to_string()];
    let mut engine = build_engine(&list, vec![("r1".to_string(), rule)]).unwrap();
    assert_eq!(engine.rule_count(), 1);
    let req = HttpRequest { path: "/login".into(), client_ip: None, headers: vec![], device: None, now_secs: 0 };
    let m = engine.evaluate(&req);
    let plan = plan_response(&m, &vec![]);
    assert_eq!(plan.plan, Plan::Respond { status: 403, body: "Challenge required by rule: r1".to_string() });
    assert_eq!(plan.final_action, "challenged");
}

#[test]
fn values_from_plain_types() {
    assert!(matches!(Value::from(true), Value::Bool(true)));
    assert!(matches!(Value::from(7u32), Value::Number(7)));
    assert!(matches!(Value::from(-7i64), Value::Number(-7)));
    assert!(matches!(Value::from(IpAddress::V4(1)), Value::Ip(IpAddress::V4(1))));
    match Value::from("x".to_string()) {
        Value::String(s) => assert_eq!(s, "x"),
        _ => panic!("not a string"),
    }
    assert!(matches!(Value::default(), Value::Null));
}
