//! Message-dispatch contract and transport decisions of a routing node in a
//! structured overlay network.
//!
//! - `name_type`, `authority`, `data`: the addressing and value types.
//! - `node_interface`, `client_interface`: what node and client logic implement.
//! - `refresh`: collection of churn-triggered refresh payloads up to a quorum.
//! - `tcp_connections`: the decisions of the typed stream transport.
pub mod authority;
pub mod client_interface;
pub mod data;
pub mod name_type;
pub mod node_interface;
pub mod refresh;
pub mod tcp_connections;
