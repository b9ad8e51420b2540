//! A replicated text document: dense position identifiers, a Lamport
//! clock, insert and delete operations, and a document that applies them
//! and reclaims tombstones; plus the message and connection-state types
//! that a transport layer exchanges around it.

pub mod crdt;
pub mod websocket;

pub use crdt::{Document, Operation, Position, Timestamp};
pub use websocket::MessageType;
