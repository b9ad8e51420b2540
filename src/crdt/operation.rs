use crate::crdt::position::{Position, PositionView};
use crate::crdt::timestamp::{Timestamp, TimestampView};
use vstd::prelude::*;

verus! {

/// An edit issued by one replica; once built it is never changed.
#[derive(Debug, Clone)]
pub enum Operation {
    /// Insert `character` at `position`.
    Insert { client_id: String, character: char, position: Position, timestamp: Timestamp },
    /// Delete the character at `position`.
    Delete { client_id: String, position: Position, timestamp: Timestamp },
}

impl Operation {
    /// The issuing replica, whatever the variant.
    pub open spec fn owner_view(&self) -> Seq<char> {
        match self {
            Operation::Insert { client_id, .. } => client_id@,
            Operation::Delete { client_id, .. } => client_id@,
        }
    }

    /// The position, whatever the variant.
    pub open spec fn position_view(&self) -> PositionView {
        match self {
            Operation::Insert { position, .. } => position@,
            Operation::Delete { position, .. } => position@,
        }
    }

    /// The clock, whatever the variant.
    pub open spec fn timestamp_view(&self) -> TimestampView {
        match self {
            Operation::Insert { timestamp, .. } => timestamp@,
            Operation::Delete { timestamp, .. } => timestamp@,
        }
    }

    /// An insert of `character` at `position`, with a fresh clock of the
    /// issuing replica at counter 0.
    pub fn insert(client_id: String, character: char, position: Position) -> (r: Self)
        ensures
            r matches Operation::Insert { character: c, position: p, .. } && c == character && p
                == position,
            r.owner_view() == client_id@,
            r.timestamp_view() == (TimestampView { clock: 0, owner: client_id@ }),
    {
        let timestamp = Timestamp::new(client_id.clone());
        Operation::Insert { client_id, character, position, timestamp }
    }

    /// A delete of the character at `position`, with a fresh clock of the
    /// issuing replica at counter 0.
    pub fn delete(client_id: String, position: Position) -> (r: Self)
        ensures
            r matches Operation::Delete { position: p, .. } && p == position,
            r.owner_view() == client_id@,
            r.timestamp_view() == (TimestampView { clock: 0, owner: client_id@ }),
    {
        let timestamp = Timestamp::new(client_id.clone());
        Operation::Delete { client_id, position, timestamp }
    }

    /// The issuing replica.
    pub fn client_id(&self) -> (r: &str)
        ensures
            r@ == self.owner_view(),
    {
        match self {
            Operation::Insert { client_id, .. } => client_id.as_str(),
            Operation::Delete { client_id, .. } => client_id.as_str(),
        }
    }

    /// The position the operation refers to.
    pub fn position(&self) -> (r: &Position)
        ensures
            r@ == self.position_view(),
    {
        match self {
            Operation::Insert { position, .. } => position,
            Operation::Delete { position, .. } => position,
        }
    }

    /// The operation's clock.
    pub fn timestamp(&self) -> (r: &Timestamp)
        ensures
            r@ == self.timestamp_view(),
    {
        match self {
            Operation::Insert { timestamp, .. } => timestamp,
            Operation::Delete { timestamp, .. } => timestamp,
        }
    }
}

} // verus!
