//! Verified core of a proxy toolbox: gRPC and HTTP/2 framing, question/answer
//! steganography and the HTTP messages it travels in, traffic shaping by
//! recorded or generated sequences, websocket early data, traffic recording
//! and routing plans.

pub mod buf;
pub mod grpc;
pub mod text;
pub mod bits;
pub mod spe1;
pub mod route;
pub mod chain_config;
pub mod mapper_config;
pub mod recorder;
pub mod recorder2;
pub mod api;
pub mod quic_common;
pub mod tls;
pub mod embed;
pub mod ai;
pub mod ip;
pub mod http_head;
pub mod ws;
