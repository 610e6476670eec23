//! Error taxonomy of the signaling core.

use vstd::prelude::*;

verus! {

/// Errors that can occur during signaling.
///
/// The engine itself only ever reports `UnknownPeer` (the target of a
/// queued signal does not exist). The remaining variants describe
/// transport-level failures that the surrounding front end maps into
/// this taxonomy.
#[derive(Debug, PartialEq, Eq)]
pub enum SignalingError {
    /// Failed to send a message to a peer.
    SendError(String),
    /// The addressed peer is not registered.
    UnknownPeer,
    /// A transport socket failed.
    WebSocket(String),
    /// A payload could not be decoded.
    Json(String),
    /// An HTTP exchange failed.
    Http(String),
}

} // verus!
