use lowprint_tcp_proxy::config::{ListenAddr, ServerConfig};
use lowprint_tcp_proxy::share::shadowrocket_uri;

fn config(password: &str, domain: &str, port: u16, node_name: Option<&str>) -> ServerConfig {
    ServerConfig {
        listen: ListenAddr::V4 { ip: [0, 0, 0, 0], port },
        domain: domain.into(),
        password: password.into(),
        cert_path: "/cert.pem".into(),
        key_path: "/key.pem".into(),
        node_name: node_name.map(|n| n.into()),
        log_level: "info".into(),
        tcp_nodelay: true,
    }
}

#[test]
fn builds_shadowrocket_uri() {
    let cfg = ServerConfig {
        listen: ListenAddr::V4 { ip: [0, 0, 0, 0], port: 443 },
        domain: "example.com".into(),
        password: "p@ss word".into(),
        cert_path: "/cert.pem".into(),
        key_path: "/key.pem".into(),
        node_name: Some("node one".into()),
        log_level: "info".into(),
        tcp_nodelay: true,
    };
    assert_eq!(
        shadowrocket_uri(&cfg),
        "trojan://p%40ss%20word@example.com:443?sni=example.com#node%20one"
    );
}

#[test]
fn default_node_name_uses_domain() {
    assert_eq!(
        shadowrocket_uri(&config("PASSWORD", "example.com", 443, None)),
        "trojan://PASSWORD@example.com:443?sni=example.com#lowprint-example.com"
    );
}

#[test]
fn uri_encodes_non_ascii_and_reserved() {
    assert_eq!(
        shadowrocket_uri(&config("a-b_c.d~e/f?é", "h.example", 8443, Some("ü#1"))),
        "trojan://a-b_c.d~e%2Ff%3F%C3%A9@h.example:8443?sni=h.example#%C3%BC%231"
    );
}

fn percent_decode(s: &str) -> Vec<u8> {
    let b = s.as_bytes();
    let mut out = Vec::new();
    let mut i = 0;
    while i < b.len() {
        if b[i] == b'%' {
            out.push(u8::from_str_radix(&s[i + 1..i + 3], 16).unwrap());
            i += 3;
        } else {
            out.push(b[i]);
            i += 1;
        }
    }
    out
}

#[test]
fn share_link_reads_back_password_and_name() {
    let password = "p@ss:w/rd?#% é";
    let uri = shadowrocket_uri(&config(password, "example.com", 443, Some("node #1 ü")));
    let rest = uri.strip_prefix("trojan://").unwrap();
    let encoded_password = &rest[..rest.find('@').unwrap()];
    assert_eq!(percent_decode(encoded_password), password.as_bytes());
    let encoded_name = &uri[uri.find('#').unwrap() + 1..];
    assert_eq!(percent_decode(encoded_name), "node #1 ü".as_bytes());
    let default_name = shadowrocket_uri(&config(password, "example.com", 443, None));
    let encoded_default = &default_name[default_name.find('#').unwrap() + 1..];
    assert_eq!(percent_decode(encoded_default), b"lowprint-example.com");
}

#[test]
fn share_link_uses_ipv6_listen_port() {
    let mut cfg = config("pw", "example.com", 0, None);
    cfg.listen = ListenAddr::V6 { ip: [0xfe, 0x80, 0, 0, 0, 0, 0, 0, 0, 0, 0, 0, 0, 0, 0, 1], port: 8443, flowinfo: 0, scope_id: 2 };
    assert_eq!(cfg.listen.port(), 8443);
    assert_eq!(
        shadowrocket_uri(&cfg),
        "trojan://pw@example.com:8443?sni=example.com#lowprint-example.com"
    );
}
