use lowprint_tcp_proxy::auth::{sha224_password_hash, LineError};
use lowprint_tcp_proxy::handshake::{fallback_response, Handshake, HandshakeAction, HandshakeError};
use lowprint_tcp_proxy::request::{RequestError, TargetAddr};

/// Drives a handshake over `stream` the way the server does: reads exactly
/// what is asked. Returns the final action and how many bytes were read.
fn drive(password: &str, stream: &[u8]) -> (HandshakeAction, usize) {
    let mut hs = Handshake::new(password.to_string());
    let mut pos = 0;
    loop {
        match hs.next_action() {
            HandshakeAction::Read(n) => {
                assert!(n >= 1);
                if pos + n > stream.len() {
                    panic!("stream ended while {} more bytes were asked", n);
                }
                hs.push_bytes(&stream[pos..pos + n]);
                pos += n;
            }
            other => return (other, pos),
        }
    }
}

fn auth_line(password: &str) -> Vec<u8> {
    let mut v = sha224_password_hash(password).into_bytes();
    v.extend_from_slice(b"\r\n");
    v
}

#[test]
fn session_connects_and_leaves_payload_unread() {
    let mut stream = auth_line("secret");
    let request = [0x01, 0x01, 127, 0, 0, 1, 0x1f, 0x90, b'\r', b'\n'];
    stream.extend_from_slice(&request);
    let handshake_len = stream.len();
    stream.extend_from_slice(b"ping");
    let (action, read) = drive("secret", &stream);
    assert_eq!(action, HandshakeAction::Connect(TargetAddr::Ipv4([127, 0, 0, 1], 8080)));
    assert_eq!(read, handshake_len);
}

#[test]
fn session_with_domain_target() {
    let mut stream = auth_line("pw");
    stream.extend_from_slice(&[0x01, 0x03, 9, b'l', b'o', b'c', b'a', b'l', b'h', b'o', b's', b't', 0x01, 0xbb, b'\r', b'\n']);
    let (action, read) = drive("pw", &stream);
    assert_eq!(action, HandshakeAction::Connect(TargetAddr::Domain("localhost".into(), 443)));
    assert_eq!(read, stream.len());
}

#[test]
fn wrong_password_is_rejected_after_the_line() {
    let mut stream = auth_line("wrong");
    let line_len = stream.len();
    stream.extend_from_slice(&[0x01, 0x01, 127, 0, 0, 1, 0, 80, b'\r', b'\n']);
    let (action, read) = drive("secret", &stream);
    assert_eq!(action, HandshakeAction::Reject(HandshakeError::AuthenticationFailed));
    assert_eq!(read, line_len);
}

#[test]
fn long_line_is_rejected_at_the_limit() {
    let stream = vec![b'x'; 300];
    let (action, read) = drive("secret", &stream);
    assert_eq!(action, HandshakeAction::Reject(HandshakeError::Line(LineError::TooLong)));
    assert_eq!(read, 128);
}

#[test]
fn bad_request_is_rejected() {
    let mut stream = auth_line("secret");
    stream.extend_from_slice(&[0x05, 0x01]);
    let (action, _) = drive("secret", &stream);
    assert_eq!(
        action,
        HandshakeAction::Reject(HandshakeError::Request(RequestError::UnsupportedCommand(5)))
    );
}

#[test]
fn fallback_is_a_plain_http_400() {
    assert_eq!(
        fallback_response(),
        "HTTP/1.1 400 Bad Request\r\nContent-Type: text/plain\r\nContent-Length: 12\r\n\r\nBad Request\n"
    );
    let body = fallback_response().split("\r\n\r\n").nth(1).unwrap();
    assert_eq!(body.len(), 12);
}
