//! The earlier flat configuration: tagged inbound and outbound chains of
//! mappers.

use vstd::prelude::*;

verus! {

/// Listen and dial chains, fixed once loaded.
#[derive(Debug, Clone, Default)]
pub struct StaticConfig {
    pub listen: Vec<InMapperStruct>,
    pub dial: Option<Vec<OutMapperStruct>>,
}

/// An inbound chain and its tag.
#[derive(Debug, Clone, Default)]
pub struct InMapperStruct {
    pub tag: Option<String>,
    pub chain: Vec<InMapper>,
}

/// An outbound chain and its tag.
#[derive(Debug, Clone, Default)]
pub struct OutMapperStruct {
    pub tag: Option<String>,
    pub chain: Vec<OutMapper>,
}

/// One step of an inbound chain.
#[derive(Debug, Clone)]
pub enum InMapper {
    Listener(Listener),
    Adder(i8),
    Counter,
    TLS(TlsIn),
    Socks5(Socks5In),
    Trojan(TrojanIn),
}

/// One step of an outbound chain.
#[derive(Debug, Clone)]
pub enum OutMapper {
    Dialer(Dialer),
    Adder(i8),
    Counter,
    TLS(TlsOut),
    Socks5(Socks5Out),
    Trojan(String),
}

/// Where an outbound chain dials.
#[derive(Debug, Clone)]
pub enum Dialer {
    TcpDialer(String),
    UnixDialer(String),
}

/// Where an inbound chain listens.
#[derive(Debug, Clone)]
pub enum Listener {
    TcpListener(String),
    UnixListener(String),
}

/// The certificate and key files of a TLS server.
#[derive(Debug, Clone)]
pub struct TlsIn {
    pub cert: String,
    pub key: String,
}

/// The server name a TLS client expects, and whether it skips verification.
#[derive(Debug, Clone)]
pub struct TlsOut {
    pub host: String,
    pub insecure: bool,
}

/// Accepted SOCKS5 users: one `user pass` pair, and more of them.
#[derive(Debug, Clone)]
pub struct Socks5In {
    pub userpass: Option<String>,
    pub more: Option<Vec<String>>,
}

/// The user of a SOCKS5 client, and whether it sends early data.
#[derive(Debug, Clone)]
pub struct Socks5Out {
    pub userpass: String,
    pub early_data: bool,
}

/// Accepted Trojan passwords.
#[derive(Debug, Clone)]
pub struct TrojanIn {
    pub password: Option<String>,
    pub more: Option<Vec<String>>,
}

} // verus!
