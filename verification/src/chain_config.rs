//! The chain configuration: inbound and outbound chains of mappers, each
//! chain with an optional tag.

use vstd::prelude::*;

verus! {

/// A configuration whose listen and dial chains are fixed once loaded.
#[derive(Debug, Clone, Default)]
pub struct StaticConfig {
    pub inbounds: Vec<InMapperConfigChain>,
    pub outbounds: Option<Vec<OutMapperConfigChain>>,
}

/// An inbound chain and its tag.
#[derive(Debug, Clone, Default)]
pub struct InMapperConfigChain {
    pub tag: Option<String>,
    pub chain: Vec<InMapperConfig>,
}

/// An outbound chain and its tag.
#[derive(Debug, Clone, Default)]
pub struct OutMapperConfigChain {
    pub tag: Option<String>,
    pub chain: Vec<OutMapperConfig>,
}

/// One step of an inbound chain.
#[derive(Debug, Clone)]
pub enum InMapperConfig {
    Stdio(String),
    Listener(Listener),
    Adder(i8),
    Counter,
    TLS(TlsIn),
    Http(UserPass),
    Socks5(UserPass),
    Socks5Http(UserPass),
    Trojan(TrojanIn),
}

/// One step of an outbound chain.
#[derive(Debug, Clone)]
pub enum OutMapperConfig {
    Direct,
    Blackhole,
    Stdio(String),
    Dialer(Dialer),
    Adder(i8),
    Counter,
    TLS(TlsOut),
    Socks5(Socks5Out),
    Trojan(String),
}

/// Where an outbound chain dials.
#[derive(Debug, Clone)]
pub enum Dialer {
    TcpDialer(String),
    UnixDialer(String),
}

/// Where an inbound chain listens.
#[derive(Debug, Clone)]
pub enum Listener {
    TcpListener(String),
    UnixListener(String),
}

/// The certificate and key files of a TLS server.
#[derive(Debug, Clone)]
pub struct TlsIn {
    pub cert: String,
    pub key: String,
}

/// The server name a TLS client expects, and whether it skips verification.
#[derive(Debug, Clone)]
pub struct TlsOut {
    pub host: String,
    pub insecure: Option<bool>,
}

/// Accepted users: one `user pass` pair, and more of them.
#[derive(Debug, Clone)]
pub struct UserPass {
    pub userpass: Option<String>,
    pub more: Option<Vec<String>>,
}

/// The user of a SOCKS5 client, and whether it sends early data.
#[derive(Debug, Clone)]
pub struct Socks5Out {
    pub userpass: String,
    pub early_data: Option<bool>,
}

/// Accepted Trojan passwords.
#[derive(Debug, Clone)]
pub struct TrojanIn {
    pub password: Option<String>,
    pub more: Option<Vec<String>>,
}

} // verus!
