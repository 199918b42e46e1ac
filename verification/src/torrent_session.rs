use vstd::prelude::*;

verus! {

/// What a torrent session hears from the pieces' bookkeeping.
#[derive(Debug)]
pub enum TorrentEvent {
    Completed,
}

/// Why a session ended without the whole torrent.
#[derive(Debug, PartialEq, Eq)]
pub enum SessionError {
    RanOutOfPeers,
}

/// How a session ends: with the torrent completed, or, when no event can
/// come any more, because it ran out of peers.
pub fn session_outcome(event: Option<TorrentEvent>) -> (res: Result<(), SessionError>)
    ensures
        event is Some <==> res is Ok,
        event is None ==> res == Err::<(), SessionError>(SessionError::RanOutOfPeers),
{
    match event {
        Some(TorrentEvent::Completed) => Ok(()),
        None => Err(SessionError::RanOutOfPeers),
    }
}

} // verus!
