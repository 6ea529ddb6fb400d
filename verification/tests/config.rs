use kiro_rs::model::config::{
    default_count_tokens_auth_type, default_endpoint, default_extract_thinking, default_host,
    default_kiro_version, default_load_balancing_mode, default_node_version, default_port, default_region,
    default_system_version, default_tls_backend, parse_bool, parse_tls_backend, Config, ConfigError, TlsBackend,
    ValueError,
};
use kiro_rs::text::{parse_u16, trim};

fn env(pairs: &[(&str, &str)]) -> Vec<(String, String)> {
    pairs.iter().map(|(k, v)| (k.to_string(), v.to_string())).collect()
}

#[test]
fn defaults() {
    let c = Config::default();
    assert_eq!(c.host, "127.0.0.1");
    assert_eq!(c.port, 8080);
    assert_eq!(c.region, "us-east-1");
    assert_eq!(c.kiro_version, "0.11.107");
    assert!(c.system_version == "darwin#24.6.0" || c.system_version == "win32#10.0.22631");
    assert_eq!(c.node_version, "22.22.0");
    assert_eq!(c.tls_backend, TlsBackend::Rustls);
    assert_eq!(c.count_tokens_auth_type, "x-api-key");
    assert_eq!(c.load_balancing_mode, "priority");
    assert!(c.extract_thinking);
    assert_eq!(c.default_endpoint, "ide");
    assert!(c.endpoints.is_empty());
    assert_eq!(c.config_path(), None);
    assert_eq!(Config::default_config_path(), "config.json");
    assert_eq!(default_host(), "127.0.0.1");
    assert_eq!(default_port(), 8080);
    assert_eq!(default_region(), "us-east-1");
    assert_eq!(default_kiro_version(), "0.11.107");
    assert_eq!(default_node_version(), "22.22.0");
    assert_eq!(default_count_tokens_auth_type(), "x-api-key");
    assert_eq!(default_tls_backend(), TlsBackend::Rustls);
    assert_eq!(TlsBackend::default(), TlsBackend::Rustls);
    assert_eq!(default_load_balancing_mode(), "priority");
    assert!(default_extract_thinking());
    assert_eq!(default_endpoint(), "ide");
    for _ in 0..20 {
        let v = default_system_version();
        assert!(v == "darwin#24.6.0" || v == "win32#10.0.22631");
    }
}

#[test]
fn effective_regions_fall_back() {
    let mut c = Config::default();
    assert_eq!(c.effective_auth_region(), "us-east-1");
    assert_eq!(c.effective_api_region(), "us-east-1");
    c.auth_region = Some("eu-west-1".to_string());
    assert_eq!(c.effective_auth_region(), "eu-west-1");
    assert_eq!(c.effective_api_region(), "us-east-1");
    c.api_region = Some("ap-south-1".to_string());
    assert_eq!(c.effective_api_region(), "ap-south-1");
    c.set_config_path(Some("x.json".to_string()));
    assert_eq!(c.config_path(), Some("x.json"));
}

#[test]
fn tls_backend_names() {
    assert_eq!(parse_tls_backend("rustls"), Ok(TlsBackend::Rustls));
    assert_eq!(parse_tls_backend("  RusTLS "), Ok(TlsBackend::Rustls));
    assert_eq!(parse_tls_backend("native-tls"), Ok(TlsBackend::NativeTls));
    assert_eq!(parse_tls_backend("Native_TLS"), Ok(TlsBackend::NativeTls));
    assert_eq!(parse_tls_backend("openssl"), Err(ValueError::UnsupportedTlsBackend));
    assert_eq!(parse_tls_backend(""), Err(ValueError::UnsupportedTlsBackend));
}

#[test]
fn bool_words() {
    for w in ["1", "true", "YES", " On "] {
        assert_eq!(parse_bool(w), Ok(true));
    }
    for w in ["0", "False", "no", "OFF\n"] {
        assert_eq!(parse_bool(w), Ok(false));
    }
    assert_eq!(parse_bool("maybe"), Err(ValueError::UnsupportedBool));
    assert_eq!(parse_bool("t_rue"), Err(ValueError::UnsupportedBool));
}

#[test]
fn port_numbers() {
    assert_eq!(parse_u16("8080"), Some(8080));
    assert_eq!(parse_u16("+80"), Some(80));
    assert_eq!(parse_u16("0065535"), Some(65535));
    assert_eq!(parse_u16("65536"), None);
    assert_eq!(parse_u16(""), None);
    assert_eq!(parse_u16("+"), None);
    assert_eq!(parse_u16("-1"), None);
    assert_eq!(parse_u16(" 80"), None);
    assert_eq!(parse_u16("99999999999999999999"), None);
    for s in ["1", "443", "+0", "12a", "٣"] {
        assert_eq!(parse_u16(s), s.parse::<u16>().ok());
    }
}

#[test]
fn trimming() {
    assert_eq!(trim("  a b \t\n"), "a b");
    assert_eq!(trim("\u{3000}x\u{a0}"), "x");
    assert_eq!(trim("   "), "");
    assert_eq!(trim(""), "");
}

#[test]
fn env_overrides_apply_in_priority_order() {
    let mut c = Config::default();
    c.endpoints.push(("ide".to_string(), "{}".to_string()));
    let e = env(&[
        ("HOST", "0.0.0.0"),
        ("KIRO_RS_HOST", "  "),
        ("PORT", " 9000 "),
        ("KIRO_RS_REGION", "eu-central-1"),
        ("REGION", "ignored"),
        ("AUTH_REGION", "us-west-2"),
        ("TLS_BACKEND", "native_tls"),
        ("EXTRACT_THINKING", "off"),
        ("COUNT_TOKENS_API_URL", "http://x"),
        ("DEFAULT_ENDPOINT", "cli"),
    ]);
    assert!(c.apply_env_overrides(&e).is_ok());
    assert_eq!(c.host, "0.0.0.0");
    assert_eq!(c.port, 9000);
    assert_eq!(c.region, "eu-central-1");
    assert_eq!(c.auth_region.as_deref(), Some("us-west-2"));
    assert_eq!(c.effective_auth_region(), "us-west-2");
    assert_eq!(c.tls_backend, TlsBackend::NativeTls);
    assert!(!c.extract_thinking);
    assert_eq!(c.count_tokens_api_url.as_deref(), Some("http://x"));
    assert_eq!(c.default_endpoint, "cli");
    assert_eq!(c.kiro_version, "0.11.107");
    assert_eq!(c.endpoints, vec![("ide".to_string(), "{}".to_string())]);

    // A second application changes nothing.
    let before = (c.host.clone(), c.port, c.region.clone(), c.tls_backend, c.extract_thinking);
    assert!(c.apply_env_overrides(&e).is_ok());
    assert_eq!(before, (c.host.clone(), c.port, c.region.clone(), c.tls_backend, c.extract_thinking));
}

#[test]
fn env_invalid_port_stops_after_host() {
    let mut c = Config::default();
    let e = env(&[("BIND_HOST", "1.2.3.4"), ("KIRO_RS_PORT", "abc"), ("REGION", "r")]);
    match c.apply_env_overrides(&e) {
        Err(ConfigError::InvalidPort { name, value }) => {
            assert_eq!(name, "KIRO_RS_PORT");
            assert_eq!(value, "abc");
        }
        other => panic!("unexpected {:?}", other),
    }
    assert_eq!(c.host, "1.2.3.4");
    assert_eq!(c.region, "us-east-1");
}

#[test]
fn env_invalid_tls_and_bool() {
    let mut c = Config::default();
    let e = env(&[("KIRO_RS_TLS_BACKEND", "openssl"), ("NODE_VERSION", "20"), ("PROXY_URL", "p")]);
    match c.apply_env_overrides(&e) {
        Err(ConfigError::InvalidTlsBackend { name, value }) => {
            assert_eq!(name, "KIRO_RS_TLS_BACKEND");
            assert_eq!(value, "openssl");
        }
        other => panic!("unexpected {:?}", other),
    }
    assert_eq!(c.node_version, "20");
    assert_eq!(c.proxy_url, None);

    let mut d = Config::default();
    let e = env(&[("EXTRACT_THINKING", " perhaps "), ("LOAD_BALANCING_MODE", "balanced"), ("DEFAULT_ENDPOINT", "cli")]);
    match d.apply_env_overrides(&e) {
        Err(ConfigError::InvalidBool { name, value }) => {
            assert_eq!(name, "EXTRACT_THINKING");
            assert_eq!(value, "perhaps");
        }
        other => panic!("unexpected {:?}", other),
    }
    assert_eq!(d.load_balancing_mode, "balanced");
    assert_eq!(d.default_endpoint, "ide");
}

#[test]
fn env_invalid_load_balancing_mode() {
    let mut c = Config::default();
    let e = env(&[("LOAD_BALANCING_MODE", " random "), ("EXTRACT_THINKING", "off"), ("PROXY_URL", "http://p")]);
    match c.apply_env_overrides(&e) {
        Err(ConfigError::InvalidLoadBalancingMode { name, value }) => {
            assert_eq!(name, "LOAD_BALANCING_MODE");
            assert_eq!(value, "random");
        }
        other => panic!("unexpected {:?}", other),
    }
    assert_eq!(c.load_balancing_mode, "priority");
    assert_eq!(c.proxy_url.as_deref(), Some("http://p"));
    assert!(c.extract_thinking);

    let mut d = Config::default();
    assert!(d.apply_env_overrides(&env(&[("KIRO_RS_LOAD_BALANCING_MODE", "balanced")])).is_ok());
    assert_eq!(d.load_balancing_mode, "balanced");
    assert!(kiro_rs::model::config::is_load_balancing_mode("priority"));
    assert!(!kiro_rs::model::config::is_load_balancing_mode("Priority"));
}
