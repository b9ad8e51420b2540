use crate::crdt::document::{Document, visible_text};
use crate::crdt::operation::Operation;
use vstd::prelude::*;
use vstd::string::*;

verus! {

/// Kinds of message exchanged with clients.
#[derive(Debug, Clone, Copy, PartialEq, Eq, Structural)]
pub enum MessageType {
    Connect,
    Connected,
    Disconnect,
    CreateDocument,
    DocumentCreated,
    GetDocument,
    DocumentState,
    Operation,
    Error,
    Status,
}

/// An operation addressed to one document.
#[derive(Debug, Clone)]
pub struct OperationMessage {
    pub operation: Operation,
    pub document_id: String,
}

impl OperationMessage {
    /// Wraps an operation for the document `document_id`.
    pub fn new(operation: Operation, document_id: String) -> (r: Self)
        ensures
            r.operation == operation,
            r.document_id == document_id,
    {
        OperationMessage { operation, document_id }
    }

    /// Checks that the message names a document.
    pub fn validate(&self) -> (r: Result<(), &'static str>)
        ensures
            r is Err <==> self.document_id@.len() == 0,
            r matches Err(m) ==> m@ == "Document ID cannot be empty"@,
    {
        if self.document_id.as_str().unicode_len() == 0 {
            return Err("Document ID cannot be empty");
        }
        Ok(())
    }
}

/// A snapshot of a document's visible text, for a replica that joins.
#[derive(Debug, Clone)]
pub struct DocumentStateMessage {
    pub document_id: String,
    pub content: String,
    /// Number of operations in the document's log.
    pub version: u64,
}

impl DocumentStateMessage {
    /// Takes a snapshot of `document`.
    pub fn new(document_id: String, document: &Document) -> (r: Self)
        ensures
            r.document_id == document_id,
            r.content@ == visible_text(document@.slots),
            r.version == document@.log.len() as u64,
    {
        let content = document.content();
        let version = document.operations().len() as u64;
        DocumentStateMessage { document_id, content, version }
    }
}

} // verus!
