use lowprint_tcp_proxy::tls::{load_certs, load_private_key, load_server_config, PrivateKey, TlsError};
use rcgen::{generate_simple_self_signed, CertifiedKey};

/// A freshly generated self-signed certificate for `localhost` and its
/// PKCS#8 key, both in PEM.
fn generated_cert_and_key() -> (String, String) {
    let CertifiedKey { cert, key_pair } =
        generate_simple_self_signed(vec!["localhost".to_string()]).unwrap();
    (cert.pem(), key_pair.serialize_pem())
}

/// A PEM section with the given label around the given base64 text.
fn pem_block(label: &str, base64: &str) -> String {
    format!("-----BEGIN {label}-----\n{base64}\n-----END {label}-----\n")
}

/// A short DER value (`SEQUENCE { INTEGER 0 }`), in base64: readable PEM, not a usable key.
const PLACEHOLDER_DER_BASE64: &str = "MAMCAQA=";

#[test]
fn reads_certificate_chain() {
    let (cert, _) = generated_cert_and_key();
    let certs = load_certs(cert.as_bytes()).unwrap();
    assert_eq!(certs.len(), 1);
    assert_eq!(certs[0][0], 0x30);
    let (other, _) = generated_cert_and_key();
    let both = format!("{}{}", cert, other);
    assert_eq!(load_certs(both.as_bytes()).unwrap().len(), 2);
    assert!(load_certs(b"").unwrap().is_empty());
}

#[test]
fn reads_pkcs8_key_first() {
    let (_, key) = generated_cert_and_key();
    match load_private_key(key.as_bytes()).unwrap() {
        PrivateKey::Pkcs8(der) => assert_eq!(der[0], 0x30),
        other => panic!("expected a PKCS#8 key, got {:?}", other),
    }
    let rsa = pem_block("RSA PRIVATE KEY", PLACEHOLDER_DER_BASE64);
    let both = format!("{}{}", rsa, key);
    assert!(matches!(load_private_key(both.as_bytes()).unwrap(), PrivateKey::Pkcs8(_)));
}

#[test]
fn falls_back_to_rsa_key() {
    let rsa = pem_block("RSA PRIVATE KEY", PLACEHOLDER_DER_BASE64);
    match load_private_key(rsa.as_bytes()).unwrap() {
        PrivateKey::Pkcs1(der) => assert_eq!(der, vec![0x30, 0x03, 0x02, 0x01, 0x00]),
        other => panic!("expected an RSA key, got {:?}", other),
    }
}

#[test]
fn missing_key_is_an_error() {
    let (cert, _) = generated_cert_and_key();
    assert!(matches!(load_private_key(cert.as_bytes()), Err(TlsError::NoPrivateKey)));
    assert!(matches!(load_private_key(b""), Err(TlsError::NoPrivateKey)));
}

#[test]
fn unreadable_pem_section_is_an_error() {
    let broken = pem_block("PRIVATE KEY", "!!!!");
    assert!(matches!(load_private_key(broken.as_bytes()), Err(TlsError::Pkcs8KeyPem(_))));
    let broken_cert = pem_block("CERTIFICATE", "!!!!");
    assert!(matches!(load_certs(broken_cert.as_bytes()), Err(TlsError::CertificatePem(_))));
}

#[test]
fn builds_server_config() {
    let (cert, key) = generated_cert_and_key();
    assert!(load_server_config(cert.as_bytes(), key.as_bytes()).is_ok());
    assert!(matches!(load_server_config(cert.as_bytes(), b""), Err(TlsError::NoPrivateKey)));
    let placeholder = pem_block("RSA PRIVATE KEY", PLACEHOLDER_DER_BASE64);
    assert!(matches!(
        load_server_config(cert.as_bytes(), placeholder.as_bytes()),
        Err(TlsError::Config(_))
    ));
}
