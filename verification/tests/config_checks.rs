use lowprint_tcp_proxy::config::{
    default_listen, default_log_level, default_tcp_nodelay, ConfigError, ListenAddr,
    ServerConfig,
};

// "0.0.0.0:443"
fn listen_any_443() -> ListenAddr {
    ListenAddr::V4 { ip: [0, 0, 0, 0], port: 443 }
}

fn config(domain: &str, password: &str, cert_path: &str, key_path: &str) -> ServerConfig {
    ServerConfig {
        listen: listen_any_443(),
        domain: domain.into(),
        password: password.into(),
        cert_path: cert_path.into(),
        key_path: key_path.into(),
        node_name: None,
        log_level: "info".into(),
        tcp_nodelay: true,
    }
}

#[test]
fn validates_required_fields() {
    let cfg = ServerConfig {
        listen: listen_any_443(),
        domain: "example.com".into(),
        password: "secret".into(),
        cert_path: "/cert.pem".into(),
        key_path: "/key.pem".into(),
        node_name: None,
        log_level: "info".into(),
        tcp_nodelay: true,
    };
    assert!(cfg.validate().is_ok());
}

#[test]
fn rejects_missing_password() {
    let cfg = ServerConfig {
        listen: listen_any_443(),
        domain: "example.com".into(),
        password: String::new(),
        cert_path: "/cert.pem".into(),
        key_path: "/key.pem".into(),
        node_name: None,
        log_level: "info".into(),
        tcp_nodelay: true,
    };
    assert!(cfg.validate().is_err());
}

#[test]
fn each_missing_field_has_its_error() {
    assert_eq!(config("", "s", "/c", "/k").validate(), Err(ConfigError::EmptyDomain));
    assert_eq!(config("d", "", "/c", "/k").validate(), Err(ConfigError::EmptyPassword));
    assert_eq!(config("d", "s", "", "/k").validate(), Err(ConfigError::EmptyCertPath));
    assert_eq!(config("d", "s", "/c", "").validate(), Err(ConfigError::EmptyKeyPath));
}

#[test]
fn first_missing_field_is_reported() {
    assert_eq!(config("", "", "", "").validate(), Err(ConfigError::EmptyDomain));
    assert_eq!(config("d", "", "", "").validate(), Err(ConfigError::EmptyPassword));
    assert_eq!(config("d", "s", " ", "").validate(), Err(ConfigError::EmptyCertPath));
}

#[test]
fn whitespace_only_fields_count_as_missing() {
    assert_eq!(config(" \t\n", "s", "/c", "/k").validate(), Err(ConfigError::EmptyDomain));
    assert_eq!(config("\u{3000}\u{a0}", "s", "/c", "/k").validate(), Err(ConfigError::EmptyDomain));
    assert_eq!(config("d", "s", "/c", "\u{2028}").validate(), Err(ConfigError::EmptyKeyPath));
}

#[test]
fn whitespace_password_is_not_missing() {
    assert_eq!(config("d", "  ", "/c", "/k").validate(), Ok(()));
}

#[test]
fn defaults_match_documented_values() {
    let listen = default_listen();
    assert_eq!(listen, listen_any_443());
    assert_eq!(listen.port(), 443);
    assert_eq!(default_log_level(), "info");
    assert!(default_tcp_nodelay());
}
