//! Settings shared by the QUIC server and client.

use vstd::prelude::*;

verus! {

/// A QUIC server's key, certificate, address and protocols.
#[derive(Debug, Clone, Default)]
pub struct ServerConfig {
    pub key_path: String,
    pub cert_path: String,
    pub listen_addr: String,
    pub alpn: Option<Vec<String>>,
}

/// A QUIC client's server, expected name, certificate and protocols.
#[derive(Debug, Clone, Default)]
pub struct ClientConfig {
    pub server_addr: String,
    pub server_name: String,
    pub cert_path: Option<String>,
    pub alpn: Option<Vec<String>>,
    pub is_insecure: Option<bool>,
}

} // verus!
