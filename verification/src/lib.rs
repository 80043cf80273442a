//! The Snell proxy protocol: sealed records over an optionally obfuscated stream, the server and
//! client sessions that run on them, and the SOCKS5 front end.
pub mod addr;
pub mod aead;
pub mod arrival;
pub mod calls;
pub mod client;
pub mod config;
pub mod decode;
pub mod delivery;
mod entropy;
pub mod handshake;
pub mod http;
pub mod laws;
pub mod obfs;
pub mod opening;
pub mod reading;
pub mod records;
pub mod server;
pub mod session;
pub mod snell;
pub mod socks5;
pub mod steps;
pub mod text;
pub mod tls;
pub mod udp;
pub mod wire;
