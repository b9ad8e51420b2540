//! Messages and connection states exchanged with clients.

pub mod connection;
pub mod message;

pub use connection::ConnectionStatus;
pub use message::MessageType;
