//! A TCP-only Trojan-over-TLS proxy server: its configuration, the Trojan
//! handshake (authentication line, password check, CONNECT request), the
//! `trojan://` share link and the TLS settings, each with its contract.
pub mod address;
pub mod auth;
pub mod config;
pub mod handshake;
pub mod request;
pub mod share;
pub mod text;
pub mod tls;
