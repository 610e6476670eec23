//! Construction of the membership event texts and of fresh peer ids.
//!
//! The engine stores and replays events as opaque strings. The wire texts
//! of the three membership events are produced by `matchbox_protocol`;
//! their exact shape is not this library's concern, so each is given a
//! name here that the engine's contracts speak of.

use crate::state::PeerId;
use vstd::prelude::*;

verus! {

/// The wire text of the "identifier assigned" event carrying this id.
pub uninterp spec fn id_assigned_text(id: u128) -> Seq<char>;

/// The wire text of the "new peer joined" event carrying this id.
pub uninterp spec fn new_peer_text(id: u128) -> Seq<char>;

/// The wire text of the "peer left" event carrying this id.
pub uninterp spec fn peer_left_text(id: u128) -> Seq<char>;

/// Relies on `matchbox_protocol::JsonPeerEvent`'s `Display` form (JSON via
/// serde_json) for the `IdAssigned` variant: the text is a function of the
/// identifier alone.
#[verifier::external_body]
pub(crate) fn id_assigned_event(id: &PeerId) -> (r: String)
    ensures
        r@ == id_assigned_text(id.0),
{
    matchbox_protocol::JsonPeerEvent::IdAssigned(matchbox_protocol::PeerId(uuid::Uuid::from_u128(
        id.0,
    ))).to_string()
}

/// Relies on `matchbox_protocol::JsonPeerEvent`'s `Display` form (JSON via
/// serde_json) for the `NewPeer` variant: the text is a function of the
/// identifier alone.
#[verifier::external_body]
pub(crate) fn new_peer_event(id: &PeerId) -> (r: String)
    ensures
        r@ == new_peer_text(id.0),
{
    matchbox_protocol::JsonPeerEvent::NewPeer(matchbox_protocol::PeerId(uuid::Uuid::from_u128(
        id.0,
    ))).to_string()
}

/// Relies on `matchbox_protocol::JsonPeerEvent`'s `Display` form (JSON via
/// serde_json) for the `PeerLeft` variant: the text is a function of the
/// identifier alone.
#[verifier::external_body]
pub(crate) fn peer_left_event(id: &PeerId) -> (r: String)
    ensures
        r@ == peer_left_text(id.0),
{
    matchbox_protocol::JsonPeerEvent::PeerLeft(matchbox_protocol::PeerId(uuid::Uuid::from_u128(
        id.0,
    ))).to_string()
}

/// Relies on `uuid::Uuid::new_v4` for a collision-resistant random
/// identifier. Nothing is assumed of the value drawn.
#[verifier::external_body]
pub(crate) fn random_peer_id() -> PeerId {
    PeerId(uuid::Uuid::new_v4().as_u128())
}

} // verus!
