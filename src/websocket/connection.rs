use vstd::prelude::*;
use vstd::string::*;

verus! {

/// Lifecycle state of a client connection.
#[derive(Debug, Clone, Copy, PartialEq, Eq, Structural)]
pub enum ConnectionStatus {
    Connected,
    Disconnected,
    TimedOut,
}

/// Why a connection request was refused.
#[derive(Debug, Clone)]
pub enum ConnectionError {
    /// No client with this identifier is registered.
    ClientNotFound(String),
    /// A client with this identifier is already registered.
    ClientExists(String),
    /// The request does not fit the client's current state.
    InvalidState(String),
    /// The connection timed out.
    Timeout,
}

/// Counts of registered clients by state.
#[derive(Debug, Clone, Copy)]
pub struct ConnectionStats {
    pub total_clients: usize,
    pub connected_clients: usize,
    pub disconnected_clients: usize,
}

/// Number of `Connected` entries.
pub open spec fn connected_count(s: Seq<ConnectionStatus>) -> nat
    decreases s.len(),
{
    if s.len() == 0 {
        0
    } else {
        connected_count(s.drop_last()) + if s.last() == ConnectionStatus::Connected {
            1nat
        } else {
            0nat
        }
    }
}

proof fn lemma_connected_count_bound(s: Seq<ConnectionStatus>)
    ensures
        connected_count(s) <= s.len(),
    decreases s.len(),
{
    if s.len() > 0 {
        lemma_connected_count_bound(s.drop_last());
    }
}

/// Whether a client whose last activity lies `elapsed_secs` seconds back has
/// been silent for longer than `limit_secs`.
pub fn is_timed_out(elapsed_secs: i64, limit_secs: i64) -> (r: bool)
    ensures
        r == (elapsed_secs > limit_secs),
{
    elapsed_secs > limit_secs
}

/// The status a client moves to when it asks to recover its connection:
/// a disconnected or timed-out client is connected again; a connected one
/// is refused; an unknown one is not found.
pub fn recovered_status(client_id: &str, registered: bool, current: Option<ConnectionStatus>) -> (r:
    Result<ConnectionStatus, ConnectionError>)
    ensures
        !registered || current is None ==> (r matches Err(ConnectionError::ClientNotFound(id))
            && id@ == client_id@),
        registered && current == Some(ConnectionStatus::Connected) ==> r matches Err(
            ConnectionError::InvalidState(_),
        ),
        registered && (current == Some(ConnectionStatus::Disconnected) || current == Some(
            ConnectionStatus::TimedOut,
        )) ==> r == Ok::<ConnectionStatus, ConnectionError>(ConnectionStatus::Connected),
{
    if !registered {
        return Err(ConnectionError::ClientNotFound(client_id.to_owned()));
    }
    match current {
        Some(ConnectionStatus::Disconnected) | Some(ConnectionStatus::TimedOut) => Ok(
            ConnectionStatus::Connected,
        ),
        Some(ConnectionStatus::Connected) => Err(
            ConnectionError::InvalidState("Client is already connected".to_owned()),
        ),
        None => Err(ConnectionError::ClientNotFound(client_id.to_owned())),
    }
}

impl ConnectionStats {
    /// Statistics over `total` registered clients whose recorded statuses
    /// are `statuses`: the connected ones, and all the others.
    pub fn from_statuses(total: usize, statuses: &Vec<ConnectionStatus>) -> (r: Self)
        requires
            statuses@.len() <= total,
        ensures
            r.total_clients == total,
            r.connected_clients == connected_count(statuses@),
            r.disconnected_clients == total - connected_count(statuses@),
    {
        let mut connected: usize = 0;
        let mut i: usize = 0;
        while i < statuses.len()
            invariant
                i <= statuses@.len(),
                connected == connected_count(statuses@.take(i as int)),
                connected <= i,
            decreases statuses@.len() - i,
        {
            assert(statuses@.take(i + 1).drop_last() =~= statuses@.take(i as int));
            if statuses[i] == ConnectionStatus::Connected {
                connected = connected + 1;
            }
            i = i + 1;
        }
        assert(statuses@.take(i as int) =~= statuses@);
        ConnectionStats {
            total_clients: total,
            connected_clients: connected,
            disconnected_clients: total - connected,
        }
    }
}

} // verus!
