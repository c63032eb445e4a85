//! The server configuration and its checks.
use vstd::prelude::*;
use crate::text::{all_whitespace, lemma_trim_empty_iff_all_whitespace, trim_chars, trims_to_empty};

verus! {

/// The socket address the server listens on, with the fields of std's
/// `SocketAddrV4` and `SocketAddrV6`; addresses are in network byte order.
#[derive(Debug, Clone, Copy, PartialEq, Eq)]
pub enum ListenAddr {
    V4 { ip: [u8; 4], port: u16 },
    V6 { ip: [u8; 16], port: u16, flowinfo: u32, scope_id: u32 },
}

impl ListenAddr {
    /// The port of the address.
    pub open spec fn port_of(&self) -> u16 {
        match self {
            ListenAddr::V4 { port, .. } => *port,
            ListenAddr::V6 { port, .. } => *port,
        }
    }

    /// The port the server listens on.
    pub fn port(&self) -> (r: u16)
        ensures
            r == self.port_of(),
    {
        match self {
            ListenAddr::V4 { port, .. } => *port,
            ListenAddr::V6 { port, .. } => *port,
        }
    }
}

/// The settings of a server, as its TOML file gives them.
#[derive(Debug, Clone)]
pub struct ServerConfig {
    /// Where to listen; `0.0.0.0:443` when not given.
    pub listen: ListenAddr,
    /// The domain the certificate is for; clients use it as SNI.
    pub domain: String,
    /// The shared Trojan password.
    pub password: String,
    /// Path of the PEM certificate chain.
    pub cert_path: String,
    /// Path of the PEM private key.
    pub key_path: String,
    /// The name shown in client apps; `lowprint-<domain>` when not given.
    pub node_name: Option<String>,
    /// The log filter; `info` when not given.
    pub log_level: String,
    /// Whether to set TCP_NODELAY on both legs; `true` when not given.
    pub tcp_nodelay: bool,
}

/// Why a configuration is refused.
#[derive(Debug, Clone, Copy, PartialEq, Eq)]
pub enum ConfigError {
    /// The domain is empty or only whitespace.
    EmptyDomain,
    /// The password is empty.
    EmptyPassword,
    /// The certificate path is empty or only whitespace.
    EmptyCertPath,
    /// The key path is empty or only whitespace.
    EmptyKeyPath,
}

/// The outcome of checking a configuration with these fields: the first
/// missing field, in the order domain, password, certificate, key.
pub open spec fn config_check(
    domain: Seq<char>,
    password: Seq<char>,
    cert_path: Seq<char>,
    key_path: Seq<char>,
) -> Result<(), ConfigError> {
    if trim_chars(domain).len() == 0 {
        Err(ConfigError::EmptyDomain)
    } else if password.len() == 0 {
        Err(ConfigError::EmptyPassword)
    } else if trim_chars(cert_path).len() == 0 {
        Err(ConfigError::EmptyCertPath)
    } else if trim_chars(key_path).len() == 0 {
        Err(ConfigError::EmptyKeyPath)
    } else {
        Ok(())
    }
}

/// A configuration is accepted exactly when the domain, the certificate path
/// and the key path each hold a character that is not whitespace and the
/// password is not empty; the error names the first field, in the order
/// domain, password, certificate, key, that fails.
pub proof fn lemma_config_check_fields(
    domain: Seq<char>,
    password: Seq<char>,
    cert_path: Seq<char>,
    key_path: Seq<char>,
)
    ensures
        config_check(domain, password, cert_path, key_path) is Ok <==> (!all_whitespace(domain)
            && password.len() > 0 && !all_whitespace(cert_path) && !all_whitespace(key_path)),
        all_whitespace(domain) ==> config_check(domain, password, cert_path, key_path) == Err::<
            (),
            ConfigError,
        >(ConfigError::EmptyDomain),
        !all_whitespace(domain) && password.len() == 0 ==> config_check(
            domain,
            password,
            cert_path,
            key_path,
        ) == Err::<(), ConfigError>(ConfigError::EmptyPassword),
        !all_whitespace(domain) && password.len() > 0 && all_whitespace(cert_path)
            ==> config_check(domain, password, cert_path, key_path) == Err::<(), ConfigError>(
            ConfigError::EmptyCertPath,
        ),
        !all_whitespace(domain) && password.len() > 0 && !all_whitespace(cert_path)
            && all_whitespace(key_path) ==> config_check(domain, password, cert_path, key_path)
            == Err::<(), ConfigError>(ConfigError::EmptyKeyPath),
{
    lemma_trim_empty_iff_all_whitespace(domain);
    lemma_trim_empty_iff_all_whitespace(cert_path);
    lemma_trim_empty_iff_all_whitespace(key_path);
}

impl ServerConfig {
    /// Checks that the fields a server cannot run without are given.
    pub fn validate(&self) -> (r: Result<(), ConfigError>)
        ensures
            r == config_check(self.domain@, self.password@, self.cert_path@, self.key_path@),
    {
        if trims_to_empty(self.domain.as_str()) {
            return Err(ConfigError::EmptyDomain);
        }
        if self.password.as_str().is_empty() {
            return Err(ConfigError::EmptyPassword);
        }
        if trims_to_empty(self.cert_path.as_str()) {
            return Err(ConfigError::EmptyCertPath);
        }
        if trims_to_empty(self.key_path.as_str()) {
            return Err(ConfigError::EmptyKeyPath);
        }
        Ok(())
    }
}

/// The listening address when none is given: `0.0.0.0:443`.
pub fn default_listen() -> (r: ListenAddr)
    ensures
        r matches ListenAddr::V4 { ip, port } && ip@ == seq![0u8, 0u8, 0u8, 0u8] && port == 443,
{
    let a: [u8; 4] = [0, 0, 0, 0];
    assert(a@ =~= seq![0u8, 0u8, 0u8, 0u8]);
    ListenAddr::V4 { ip: a, port: 443 }
}

/// The log filter when none is given: `info`.
pub fn default_log_level() -> (r: String)
    ensures
        r@ == "info"@,
{
    String::from_str("info")
}

/// Whether TCP_NODELAY is set when the setting is not given: yes.
pub fn default_tcp_nodelay() -> (r: bool)
    ensures
        r,
{
    true
}

} // verus!
