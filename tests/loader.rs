use std::io::Write;

use base64::Engine;
use edge_waf::loader::{decompress_payload, is_supported_version, LoadError};
use edge_waf::respond::edge_auth_value;

fn b64(bytes: &[u8]) -> String {
    base64::engine::general_purpose::STANDARD.encode(bytes)
}

fn gzip(text: &str) -> Vec<u8> {
    let mut enc = flate2::write::GzEncoder::new(Vec::new(), flate2::Compression::default());
    enc.write_all(text.as_bytes()).unwrap();
    enc.finish().unwrap()
}

#[test]
fn test_decompress_raw_fallback() {
    let json = r#"{"v":"1.0","r":["rule1"],"d":{"rule1":{"enabled":true,"conditions":{"operator":"and","rules":[]},"action":{"type":"block","response_code":403}}}}"#;
    let encoded = format!("raw:{}", b64(json.as_bytes()));
    let text = decompress_payload(&encoded).unwrap();
    assert_eq!(text, json);
    let v: serde_json::Value = serde_json::from_str(&text).unwrap();
    let rule_list: Vec<&str> = v["r"].as_array().unwrap().iter().map(|x| x.as_str().unwrap()).collect();
    assert_eq!(rule_list, vec!["rule1"]);
    assert!(v["d"].as_object().unwrap().contains_key("rule1"));
}

#[test]
fn test_decompress_gzip_from_browser() {
    const TEST_PAYLOAD: &str = "H4sIAAAAAAACE5VQQWrDMBD8SpmzSBzaQ9Gt7zDBrKXFUetIRiu7FKO/FxnjONSXoouYndmdmRkTNC6nCgoRukYce27I3p1v2j6Yr4IXqA2pMTfqe/Yd46pgoee/bD2DPbU9W+gUR1YwwVuXXPBShmHgSClEaJC363KBrmekn4GhMVC6Qe2Jkigm+XYLPlE/Ftp5uYqsNqEbnmXORypeN02NS3Va3vkd13zNCmSKs2JsXbJlZhmCF25MsAz9Vr3usDuLUFfoH8awyItl79gi58Oy/tFJiEeVjMKROvbpOaAJPpHzsmulDQnHwR521OPfrMNPmkhMdENCzjn/ApZN1hcVAgAA";
    let text = decompress_payload(TEST_PAYLOAD).unwrap();
    let v: serde_json::Value = serde_json::from_str(&text).unwrap();
    let rule_list = v["r"].as_array().unwrap();
    assert_eq!(rule_list.len(), 2);
    assert_eq!(rule_list[0], "rule_admin_block");
    assert_eq!(rule_list[1], "rule_bot_challenge");
    let rules = v["d"].as_object().unwrap();
    assert_eq!(rules.len(), 2);
    assert!(rules.contains_key("rule_admin_block"));
    assert!(rules.contains_key("rule_bot_challenge"));
    let admin_rule = &rules["rule_admin_block"];
    assert_eq!(admin_rule["enabled"], true);
    assert_eq!(admin_rule["action"]["type"], "block");
    assert_eq!(admin_rule["action"]["response_code"], 403);
    let bot_rule = &rules["rule_bot_challenge"];
    assert_eq!(bot_rule["enabled"], true);
    assert_eq!(bot_rule["action"]["type"], "challenge");
}

#[test]
fn gzip_payload_round_trips() {
    let json = r#"{"v":"1.0","r":["r1"],"d":{"r1":{"enabled":true,"conditions":{"operator":"or","rules":[]},"action":{"type":"challenge"}}}}"#;
    let packed = b64(&gzip(json));
    assert_eq!(decompress_payload(&packed).unwrap(), json);
}

#[test]
fn bad_payloads_report_their_stage() {
    assert!(matches!(decompress_payload("raw:%%%"), Err(LoadError::Base64Error(_))));
    assert!(matches!(decompress_payload("!!!"), Err(LoadError::Base64Error(_))));
    let not_gzip = b64(b"plain text");
    assert!(matches!(decompress_payload(&not_gzip), Err(LoadError::DecompressError(_))));
    let not_utf8 = format!("raw:{}", b64(&[0xff, 0xfe]));
    assert!(matches!(decompress_payload(&not_utf8), Err(LoadError::DecompressError(_))));
}

#[test]
fn version_check() {
    assert!(is_supported_version("1.0"));
    assert!(is_supported_version("1.12"));
    assert!(!is_supported_version("2.0"));
    assert!(!is_supported_version("1"));
}

#[test]
fn edge_auth_header_value() {
    assert!(edge_auth_value(1, "pop", None).is_err());
    let v = edge_auth_value(1700000000, "LHR", Some("secret")).unwrap();
    let sig = hmac_sha256::HMAC::mac(b"1700000000,LHR", b"secret");
    assert_eq!(v, format!("1700000000,LHR,0x{}", hex::encode(sig)));
    assert_eq!(v.len(), "1700000000,LHR,0x".len() + 64);
    let empty_pop = edge_auth_value(5, "", Some("k")).unwrap();
    assert!(empty_pop.starts_with("5,,0x"));
}
