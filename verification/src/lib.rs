//! A minimal RESP-style wire protocol library: an incremental frame
//! parser and serializer over raw bytes, command mapping for a small
//! key-value service, and a sharded in-memory store.

pub mod client;
pub mod cmd;
pub mod codec;
pub mod connection;
pub mod resp;
pub mod store;
pub mod text;
pub mod wire;

pub use connection::RecvBuffer;
pub use resp::RESPType;
pub use wire::ProtocolError;
