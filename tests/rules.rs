use dnsrelay::rules::rule_fields;

#[test]
fn rule_line_with_two_fields() {
    assert_eq!(
        rule_fields("10.0.0.5 local.test"),
        Some(("10.0.0.5".to_string(), "local.test".to_string()))
    );
    assert_eq!(
        rule_fields("0.0.0.0 blocked.test"),
        Some(("0.0.0.0".to_string(), "blocked.test".to_string()))
    );
}

#[test]
fn rule_line_with_three_fields_is_refused() {
    assert_eq!(rule_fields("10.0.0.5 local.test extra"), None);
}

#[test]
fn rule_line_with_one_field_is_refused() {
    assert_eq!(rule_fields("local.test"), None);
    assert_eq!(rule_fields("10.0.0.5  local.test"), None);
}

#[test]
fn rule_line_with_empty_name() {
    assert_eq!(rule_fields("1.2.3.4 "), Some(("1.2.3.4".to_string(), String::new())));
}
