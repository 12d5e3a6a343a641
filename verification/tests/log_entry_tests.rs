use traefik_log_monitor::log_entry::TraefikLogEntry;

fn decode(json: &str) -> TraefikLogEntry {
    let value: serde_json::Value = serde_json::from_str(json).unwrap();
    let text = |name: &str| value.get(name).and_then(|v| v.as_str()).map(|s| s.to_string());
    let status = |name: &str| value.get(name).and_then(|v| v.as_u64()).map(|n| n as u16);
    TraefikLogEntry {
        client_addr: text("ClientAddr"),
        client_host: text("ClientHost"),
        request_path: text("RequestPath"),
        request_method: text("RequestMethod"),
        request_protocol: text("RequestProtocol"),
        origin_status: status("OriginStatus"),
        downstream_status: status("DownstreamStatus"),
    }
}

fn with(host: Option<&str>, addr: Option<&str>) -> TraefikLogEntry {
    TraefikLogEntry {
        client_addr: addr.map(|s| s.to_string()),
        client_host: host.map(|s| s.to_string()),
        request_path: None,
        request_method: None,
        request_protocol: None,
        origin_status: None,
        downstream_status: None,
    }
}

#[test]
fn test_parse_valid_entry() {
    let json = r#"{"ClientHost":"192.168.1.100","RequestPath":"/api/users","OriginStatus":200}"#;
    let entry = decode(json);
    assert_eq!(entry.get_ip(), Some("192.168.1.100".to_string()));
    assert_eq!(entry.get_path(), "/api/users");
}

#[test]
fn test_extract_ip_from_client_addr() {
    let json = r#"{"ClientAddr":"10.0.0.1:54321","RequestPath":"/test"}"#;
    let entry = decode(json);
    assert_eq!(entry.get_ip(), Some("10.0.0.1".to_string()));
}

#[test]
fn test_missing_path_defaults_to_slash() {
    let json = r#"{"ClientHost":"192.168.1.1"}"#;
    let entry = decode(json);
    assert_eq!(entry.get_path(), "/");
}

#[test]
fn address_without_colon_is_the_identifier() {
    assert_eq!(with(None, Some("10.0.0.1")).get_ip(), Some("10.0.0.1".to_string()));
}

#[test]
fn empty_host_falls_back_to_the_address() {
    assert_eq!(
        with(Some(""), Some("10.0.0.1:54321")).get_ip(),
        Some("10.0.0.1".to_string())
    );
    assert_eq!(with(Some(""), None).get_ip(), None);
}

#[test]
fn host_is_preferred_to_the_address() {
    assert_eq!(
        with(Some("proxy.example"), Some("10.0.0.1:54321")).get_ip(),
        Some("proxy.example".to_string())
    );
}

#[test]
fn no_host_and_no_address_give_no_identifier() {
    assert_eq!(with(None, None).get_ip(), None);
}

#[test]
fn only_the_last_colon_splits_off_the_port() {
    assert_eq!(with(None, Some("[::1]:8080")).get_ip(), Some("[::1]".to_string()));
    assert_eq!(with(None, Some("host:")).get_ip(), Some("host".to_string()));
    assert_eq!(with(None, Some(":80")).get_ip(), Some("".to_string()));
    assert_eq!(with(None, Some("héllo:1")).get_ip(), Some("héllo".to_string()));
}

#[test]
fn given_path_is_kept() {
    let mut entry = with(Some("h"), None);
    entry.request_path = Some("".to_string());
    assert_eq!(entry.get_path(), "");
    entry.request_path = Some("/a?b=c".to_string());
    assert_eq!(entry.get_path(), "/a?b=c");
}
