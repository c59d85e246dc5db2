//! A node of a gossip network that keeps a verifiable, append-only graph of
//! signed transactions: content-addressed hashes, the transaction codec, the
//! key store, the graph store and the session rules of the peer protocol.

pub mod hash;
pub mod jose;
pub mod pki;
pub mod transaction;
pub mod graph;
pub mod protocol;
pub mod server;
pub mod cmd;
