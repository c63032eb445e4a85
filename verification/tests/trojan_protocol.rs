use lowprint_tcp_proxy::auth::{
    constant_time_eq, read_crlf_line, sha224_password_hash, sha256_password_hash,
    verify_password_hash, LineError, LineStatus, MAX_AUTH_LINE,
};
use lowprint_tcp_proxy::request::{read_port, read_request, RequestError, RequestStatus, TargetAddr};
use sha2::{Digest, Sha224, Sha256};

fn complete_target(bytes: &[u8]) -> (TargetAddr, usize) {
    match read_request(bytes) {
        RequestStatus::Complete(req, n) => (req.target, n),
        other => panic!("expected a complete request, got {:?}", other),
    }
}

#[test]
fn verifies_password_hashes() {
    let sha224 = sha224_password_hash("secret");
    let sha256 = sha256_password_hash("secret");
    assert!(verify_password_hash("secret", &sha224));
    assert!(verify_password_hash("secret", &sha256));
    assert!(!verify_password_hash("secret", &sha224_password_hash("wrong")));
}

#[test]
fn password_hashes_are_lowercase_hex_digests() {
    let expected224: String = Sha224::digest(b"secret").iter().map(|b| format!("{:02x}", b)).collect();
    let expected256: String = Sha256::digest(b"secret").iter().map(|b| format!("{:02x}", b)).collect();
    assert_eq!(sha224_password_hash("secret"), expected224);
    assert_eq!(sha256_password_hash("secret"), expected256);
    assert_eq!(sha224_password_hash("secret").len(), 56);
    assert_eq!(sha256_password_hash("secret").len(), 64);
    assert_eq!(
        sha224_password_hash(""),
        "d14a028c2a3a2bc9476102bb288234c415a2b01f828ea62ac5b3e42f"
    );
}

#[test]
fn presented_hash_is_trimmed_and_case_folded() {
    let upper = sha224_password_hash("secret").to_ascii_uppercase();
    assert!(verify_password_hash("secret", &format!("  {}\t", upper)));
    assert!(verify_password_hash("secret", &format!("\u{3000}{}", sha256_password_hash("secret"))));
    assert!(!verify_password_hash("secret", "secret"));
    assert!(!verify_password_hash("secret", ""));
    let h = sha224_password_hash("secret");
    assert!(!verify_password_hash("secret", &h[..55]));
    assert!(!verify_password_hash("other", &h));
}

#[test]
fn constant_time_eq_compares_bytes() {
    assert!(constant_time_eq(b"abc", b"abc"));
    assert!(!constant_time_eq(b"abc", b"abd"));
    assert!(!constant_time_eq(b"abc", b"abcd"));
    assert!(constant_time_eq(b"", b""));
}

#[test]
fn parses_domain_request() {
    let bytes = [
        0x01, 0x03, 11, b'e', b'x', b'a', b'm', b'p', b'l', b'e', b'.', b'c', b'o', b'm', 0x01,
        0xbb, b'\r', b'\n',
    ];
    let (target, n) = complete_target(&bytes);
    assert_eq!(target, TargetAddr::Domain("example.com".into(), 443));
    assert_eq!(n, bytes.len());
}

#[test]
fn parses_ipv4_request() {
    let bytes = [0x01, 0x01, 127, 0, 0, 1, 0x1f, 0x90, b'\r', b'\n'];
    let (target, n) = complete_target(&bytes);
    assert_eq!(target, TargetAddr::Ipv4([127, 0, 0, 1], 8080));
    assert_eq!(n, 10);
}

#[test]
fn parses_ipv6_request() {
    let mut bytes = vec![0x01, 0x04];
    bytes.extend_from_slice(&[0x20, 0x01, 0x0d, 0xb8, 0, 0, 0, 0, 0, 0, 0, 0, 0, 0, 0, 1]);
    bytes.extend_from_slice(&[0x00, 0x50, b'\r', b'\n']);
    let (target, n) = complete_target(&bytes);
    assert_eq!(
        target,
        TargetAddr::Ipv6([0x20, 0x01, 0x0d, 0xb8, 0, 0, 0, 0, 0, 0, 0, 0, 0, 0, 0, 1], 80)
    );
    assert_eq!(n, 22);
}

#[test]
fn request_ignores_payload_after_terminator() {
    let bytes = [0x01, 0x01, 127, 0, 0, 1, 0x1f, 0x90, b'\r', b'\n', b'p', b'i', b'n', b'g'];
    let (target, n) = complete_target(&bytes);
    assert_eq!(target, TargetAddr::Ipv4([127, 0, 0, 1], 8080));
    assert_eq!(n, 10);
}

#[test]
fn request_asks_for_exactly_the_bytes_it_needs() {
    assert_eq!(read_request(&[]), RequestStatus::NeedMore(2));
    assert_eq!(read_request(&[0x01]), RequestStatus::NeedMore(2));
    assert_eq!(read_request(&[0x01, 0x01]), RequestStatus::NeedMore(10));
    assert_eq!(read_request(&[0x01, 0x04]), RequestStatus::NeedMore(22));
    assert_eq!(read_request(&[0x01, 0x03]), RequestStatus::NeedMore(3));
    assert_eq!(read_request(&[0x01, 0x03, 5]), RequestStatus::NeedMore(10));
    assert_eq!(read_request(&[0x01, 0x03, 1, b'a', 0, 80]), RequestStatus::NeedMore(8));
}

#[test]
fn request_errors() {
    assert_eq!(read_request(&[0x02, 0x01]), RequestStatus::Invalid(RequestError::UnsupportedCommand(2)));
    assert_eq!(
        read_request(&[0x01, 0x05]),
        RequestStatus::Invalid(RequestError::UnsupportedAddressType(5))
    );
    assert_eq!(read_request(&[0x01, 0x03, 0]), RequestStatus::Invalid(RequestError::EmptyDomain));
    assert_eq!(
        read_request(&[0x01, 0x03, 1, 0xff, 0, 80]),
        RequestStatus::Invalid(RequestError::DomainNotUtf8)
    );
    assert_eq!(
        read_request(&[0x01, 0x01, 1, 2, 3, 4, 0, 80, b'\n', b'\r']),
        RequestStatus::Invalid(RequestError::InvalidTerminator)
    );
    assert_eq!(
        read_request(&[0x01, 0x03, 1, b'a', 0, 80, b'x', b'\n']),
        RequestStatus::Invalid(RequestError::InvalidTerminator)
    );
}

#[test]
fn port_is_big_endian() {
    assert_eq!(read_port(&[0x01, 0xbb], 0), 443);
    assert_eq!(read_port(&[9, 0x1f, 0x90], 1), 8080);
    assert_eq!(read_port(&[0xff, 0xff], 0), 65535);
}

#[test]
fn reads_crlf_line() {
    assert_eq!(read_crlf_line(b"", MAX_AUTH_LINE), LineStatus::NeedMore);
    assert_eq!(read_crlf_line(b"abc\r", MAX_AUTH_LINE), LineStatus::NeedMore);
    assert_eq!(read_crlf_line(b"abc\r\n", MAX_AUTH_LINE), LineStatus::Complete("abc".into(), 5));
    assert_eq!(read_crlf_line(b"a\nb\rc\r\nrest", MAX_AUTH_LINE), LineStatus::Complete("a\nb\rc".into(), 7));
    assert_eq!(read_crlf_line(b"\r\n", MAX_AUTH_LINE), LineStatus::Complete(String::new(), 2));
    assert_eq!(read_crlf_line(b"\xff\r\n", MAX_AUTH_LINE), LineStatus::Invalid(LineError::NotUtf8));
}

#[test]
fn crlf_line_length_limit() {
    let mut line = vec![b'a'; 126];
    line.extend_from_slice(b"\r\n");
    assert_eq!(line.len(), 128);
    assert!(matches!(read_crlf_line(&line, MAX_AUTH_LINE), LineStatus::Complete(_, 128)));
    let long = vec![b'a'; 128];
    assert_eq!(read_crlf_line(&long, MAX_AUTH_LINE), LineStatus::Invalid(LineError::TooLong));
    assert_eq!(read_crlf_line(&long[..127], MAX_AUTH_LINE), LineStatus::NeedMore);
    assert_eq!(read_crlf_line(b"ab", 0), LineStatus::Invalid(LineError::TooLong));
}

#[test]
fn lines_of_other_lengths_are_refused() {
    // The first 56 hex digits of SHA-256("abc"): the length of a SHA-224 hex, not its value.
    let prefix = "ba7816bf8f01cfea414140de5dae2223b00361a396177a9cb410ff61";
    assert_eq!(prefix.len(), 56);
    assert!(!verify_password_hash("abc", prefix));
    assert!(!verify_password_hash("abc", "abc"));
    assert!(!verify_password_hash("", ""));
    assert!(verify_password_hash("", &sha224_password_hash("")));
}
