//! The server's TLS settings: the certificate chain and the private key read
//! from PEM text, and the `rustls` server configuration made of them.
use vstd::prelude::*;
use std::sync::Arc;
use tokio_rustls::rustls::ServerConfig as RustlsServerConfig;
use tokio_rustls::rustls::Error as RustlsError;
use tokio_rustls::rustls::pki_types::{
    CertificateDer, PrivateKeyDer, PrivatePkcs1KeyDer, PrivatePkcs8KeyDer,
};

verus! {

#[verifier::external_type_specification]
#[verifier::external_body]
pub struct ExRustlsServerConfig(RustlsServerConfig);

#[verifier::external_type_specification]
#[verifier::external_body]
pub struct ExRustlsError(RustlsError);

#[verifier::external_type_specification]
#[verifier::external_body]
pub struct ExIoError(std::io::Error);

/// A private key in DER form.
#[derive(Debug, Clone, PartialEq, Eq)]
pub enum PrivateKey {
    /// A PKCS#8 key (`BEGIN PRIVATE KEY`).
    Pkcs8(Vec<u8>),
    /// A PKCS#1 RSA key (`BEGIN RSA PRIVATE KEY`).
    Pkcs1(Vec<u8>),
}

/// Why the TLS settings could not be made.
#[derive(Debug)]
pub enum TlsError {
    /// A PEM section of the certificate file could not be read.
    CertificatePem(std::io::Error),
    /// A PEM section could not be read while looking for a PKCS#8 key.
    Pkcs8KeyPem(std::io::Error),
    /// A PEM section could not be read while looking for an RSA key.
    RsaKeyPem(std::io::Error),
    /// The key file holds neither a PKCS#8 nor an RSA private key.
    NoPrivateKey,
    /// `rustls` refused the certificate chain and key.
    Config(RustlsError),
}

/// The DER certificates that `rustls_pemfile::certs` reads from `pem`, in order;
/// `None` when it meets a section it cannot read.
pub uninterp spec fn pem_certificates(pem: Seq<u8>) -> Option<Seq<Seq<u8>>>;

/// The first item that `rustls_pemfile::pkcs8_private_keys` yields on `pem`:
/// `None` when there is none, `Some(None)` when it is a read error, else the key.
pub uninterp spec fn pem_first_pkcs8_key(pem: Seq<u8>) -> Option<Option<Seq<u8>>>;

/// The first item that `rustls_pemfile::rsa_private_keys` yields on `pem`:
/// `None` when there is none, `Some(None)` when it is a read error, else the key.
pub uninterp spec fn pem_first_rsa_key(pem: Seq<u8>) -> Option<Option<Seq<u8>>>;

/// `rustls_pemfile::certs` on the bytes `pem`, collected until the first error.
///
/// Trusted: the outcome is named `pem_certificates` of the bytes (the crate
/// reads only from them); each certificate is handed back as its DER bytes.
#[verifier::external_body]
fn read_pem_certificates(pem: &[u8]) -> (r: Result<Vec<Vec<u8>>, std::io::Error>)
    ensures
        r is Ok <==> pem_certificates(pem@) is Some,
        r matches Ok(certs) ==> certs.deep_view() == pem_certificates(pem@)->0,
{
    let mut reader: &[u8] = pem;
    rustls_pemfile::certs(&mut reader).map(|c| c.map(|c| c.to_vec())).collect()
}

/// The first item of `rustls_pemfile::pkcs8_private_keys` on the bytes `pem`.
///
/// Trusted: the outcome is named `pem_first_pkcs8_key` of the bytes; a key is
/// handed back as its DER bytes.
#[verifier::external_body]
fn read_first_pkcs8_key(pem: &[u8]) -> (r: Option<Result<Vec<u8>, std::io::Error>>)
    ensures
        r is None <==> pem_first_pkcs8_key(pem@) is None,
        r matches Some(Ok(key)) ==> pem_first_pkcs8_key(pem@) == Some(Some(key@)),
        r matches Some(Err(_)) ==> pem_first_pkcs8_key(pem@) == Some(None::<Seq<u8>>),
{
    let mut reader: &[u8] = pem;
    let first = rustls_pemfile::pkcs8_private_keys(&mut reader).next();
    first.map(|k| k.map(|k| k.secret_pkcs8_der().to_vec()))
}

/// The first item of `rustls_pemfile::rsa_private_keys` on the bytes `pem`.
///
/// Trusted: the outcome is named `pem_first_rsa_key` of the bytes; a key is
/// handed back as its DER bytes.
#[verifier::external_body]
fn read_first_rsa_key(pem: &[u8]) -> (r: Option<Result<Vec<u8>, std::io::Error>>)
    ensures
        r is None <==> pem_first_rsa_key(pem@) is None,
        r matches Some(Ok(key)) ==> pem_first_rsa_key(pem@) == Some(Some(key@)),
        r matches Some(Err(_)) ==> pem_first_rsa_key(pem@) == Some(None::<Seq<u8>>),
{
    let mut reader: &[u8] = pem;
    let first = rustls_pemfile::rsa_private_keys(&mut reader).next();
    first.map(|k| k.map(|k| k.secret_pkcs1_der().to_vec()))
}

/// `rustls::ServerConfig::builder().with_no_client_auth().with_single_cert(..)`,
/// given the chain and the key of `inputs` with the key's kind.
///
/// Trusted, with nothing stated of the outcome: it depends on the crypto
/// provider installed in the process as well as on the certificates and key.
#[verifier::external_body]
fn build_server_config(inputs: TlsInputs) -> (r: Result<Arc<RustlsServerConfig>, RustlsError>) {
    let certs: Vec<CertificateDer<'static>> = inputs.certs.into_iter().map(CertificateDer::from).collect();
    let key: PrivateKeyDer<'static> = match inputs.key {
        PrivateKey::Pkcs8(der) => PrivatePkcs8KeyDer::from(der).into(),
        PrivateKey::Pkcs1(der) => PrivatePkcs1KeyDer::from(der).into(),
    };
    RustlsServerConfig::builder().with_no_client_auth().with_single_cert(certs, key).map(Arc::new)
}

/// The certificate chain in the PEM text `pem`.
pub fn load_certs(pem: &[u8]) -> (r: Result<Vec<Vec<u8>>, TlsError>)
    ensures
        r is Ok <==> pem_certificates(pem@) is Some,
        r matches Ok(certs) ==> certs.deep_view() == pem_certificates(pem@)->0,
        r matches Err(e) ==> e is CertificatePem,
{
    match read_pem_certificates(pem) {
        Ok(certs) => Ok(certs),
        Err(e) => Err(TlsError::CertificatePem(e)),
    }
}

/// Which key a PEM text gives: its first PKCS#8 key if the search for one
/// yields anything, else its first RSA key.
pub enum SpecKeyChoice {
    Pkcs8(Seq<u8>),
    Pkcs1(Seq<u8>),
    Pkcs8Unreadable,
    RsaUnreadable,
    Missing,
}

/// The key that the PEM text `pem` gives, as `load_private_key` chooses it.
pub open spec fn private_key_choice(pem: Seq<u8>) -> SpecKeyChoice {
    match pem_first_pkcs8_key(pem) {
        Some(Some(key)) => SpecKeyChoice::Pkcs8(key),
        Some(None) => SpecKeyChoice::Pkcs8Unreadable,
        None => match pem_first_rsa_key(pem) {
            Some(Some(key)) => SpecKeyChoice::Pkcs1(key),
            Some(None) => SpecKeyChoice::RsaUnreadable,
            None => SpecKeyChoice::Missing,
        },
    }
}

/// The outcome `r` of loading a key agrees with the choice `c`.
pub open spec fn key_result_agrees(r: Result<PrivateKey, TlsError>, c: SpecKeyChoice) -> bool {
    match c {
        SpecKeyChoice::Pkcs8(key) => r matches Ok(PrivateKey::Pkcs8(k)) && k@ == key,
        SpecKeyChoice::Pkcs1(key) => r matches Ok(PrivateKey::Pkcs1(k)) && k@ == key,
        SpecKeyChoice::Pkcs8Unreadable => r matches Err(TlsError::Pkcs8KeyPem(_)),
        SpecKeyChoice::RsaUnreadable => r matches Err(TlsError::RsaKeyPem(_)),
        SpecKeyChoice::Missing => r matches Err(TlsError::NoPrivateKey),
    }
}

/// The key `k` is the one the choice `c` names, with its kind.
pub open spec fn key_matches_choice(k: PrivateKey, c: SpecKeyChoice) -> bool {
    match c {
        SpecKeyChoice::Pkcs8(key) => k matches PrivateKey::Pkcs8(der) && der@ == key,
        SpecKeyChoice::Pkcs1(key) => k matches PrivateKey::Pkcs1(der) && der@ == key,
        _ => false,
    }
}

/// The certificate chain and the private key that a rustls configuration is
/// built from, with the PEM texts they were read from. Every value of this
/// type holds exactly the chain `load_certs` reads from its certificate text
/// and the key, of the kind, that `load_private_key` chooses from its key
/// text: the builder can be handed nothing else.
pub struct TlsInputs {
    certs: Vec<Vec<u8>>,
    key: PrivateKey,
    cert_pem: Ghost<Seq<u8>>,
    key_pem: Ghost<Seq<u8>>,
}

impl TlsInputs {
    /// The chain and key are those read from the two PEM texts.
    #[verifier::type_invariant]
    spec fn read_from_pem(self) -> bool {
        &&& pem_certificates(self.cert_pem@) == Some(self.certs.deep_view())
        &&& key_matches_choice(self.key, private_key_choice(self.key_pem@))
    }
}

/// The private key in the PEM text `pem`: the first PKCS#8 key, or failing any
/// PKCS#8 item the first RSA key.
pub fn load_private_key(pem: &[u8]) -> (r: Result<PrivateKey, TlsError>)
    ensures
        key_result_agrees(r, private_key_choice(pem@)),
{
    match read_first_pkcs8_key(pem) {
        Some(Ok(key)) => {
            return Ok(PrivateKey::Pkcs8(key));
        },
        Some(Err(e)) => {
            return Err(TlsError::Pkcs8KeyPem(e));
        },
        None => {},
    }
    match read_first_rsa_key(pem) {
        Some(Ok(key)) => Ok(PrivateKey::Pkcs1(key)),
        Some(Err(e)) => Err(TlsError::RsaKeyPem(e)),
        None => Err(TlsError::NoPrivateKey),
    }
}

/// The `rustls` server configuration for the certificate chain in `cert_pem`
/// and the key in `key_pem`, without client authentication.
pub fn load_server_config(cert_pem: &[u8], key_pem: &[u8]) -> (r: Result<
    Arc<RustlsServerConfig>,
    TlsError,
>)
    ensures
        pem_certificates(cert_pem@) is None ==> r matches Err(TlsError::CertificatePem(_)),
        pem_certificates(cert_pem@) is Some ==> match private_key_choice(key_pem@) {
            SpecKeyChoice::Pkcs8Unreadable => r matches Err(TlsError::Pkcs8KeyPem(_)),
            SpecKeyChoice::RsaUnreadable => r matches Err(TlsError::RsaKeyPem(_)),
            SpecKeyChoice::Missing => r matches Err(TlsError::NoPrivateKey),
            _ => r is Ok || r matches Err(TlsError::Config(_)),
        },
{
    let certs = match load_certs(cert_pem) {
        Ok(certs) => certs,
        Err(e) => {
            return Err(e);
        },
    };
    let key = match load_private_key(key_pem) {
        Ok(key) => key,
        Err(e) => {
            return Err(e);
        },
    };
    let inputs = TlsInputs { certs, key, cert_pem: Ghost(cert_pem@), key_pem: Ghost(key_pem@) };
    match build_server_config(inputs) {
        Ok(config) => Ok(config),
        Err(e) => Err(TlsError::Config(e)),
    }
}

} // verus!
