//! End-to-end exercises of the rendezvous engine against the real wire
//! texts produced by `matchbox_protocol`.

use matchbox_server_wasm::PeerId;
use matchbox_server_wasm::RoomId;
use matchbox_server_wasm::ServerState;
use matchbox_server_wasm::SignalingError;

fn wire_peer(p: PeerId) -> matchbox_protocol::PeerId {
    matchbox_protocol::PeerId(uuid::Uuid::from_u128(p.0))
}

fn id_assigned(p: PeerId) -> String {
    matchbox_protocol::JsonPeerEvent::IdAssigned(wire_peer(p)).to_string()
}

fn new_peer(p: PeerId) -> String {
    matchbox_protocol::JsonPeerEvent::NewPeer(wire_peer(p)).to_string()
}

fn peer_left(p: PeerId) -> String {
    matchbox_protocol::JsonPeerEvent::PeerLeft(wire_peer(p)).to_string()
}

fn room(name: &str) -> RoomId {
    RoomId(name.to_string())
}

#[test]
fn scenario_two_peers_join_poll_leave() {
    let mut s = ServerState::new();

    // Peer A joins the empty room "r1": only the identifier event.
    let (pa, ev_a) = s.join_or_poll(room("r1"), None);
    assert_eq!(ev_a, vec![id_assigned(pa)]);

    // Peer B joins: gets its identifier, then one event for A; A learns of B.
    let (pb, ev_b) = s.join_or_poll(room("r1"), None);
    assert_ne!(pa, pb);
    assert_eq!(ev_b, vec![id_assigned(pb), new_peer(pa)]);

    // A polls and receives exactly the one pending event.
    let (pa2, ev_a2) = s.join_or_poll(room("r1"), Some(pa));
    assert_eq!(pa2, pa);
    assert_eq!(ev_a2, vec![new_peer(pb)]);

    // B is removed; A hears about it on its next poll.
    s.remove_peer(&pb);
    let (_, ev_a3) = s.join_or_poll(room("r1"), Some(pa));
    assert_eq!(ev_a3, vec![peer_left(pb)]);

    // Nothing further is pending.
    let (_, ev_a4) = s.join_or_poll(room("r1"), Some(pa));
    assert!(ev_a4.is_empty());
}

#[test]
fn join_fans_out_to_every_member() {
    let mut s = ServerState::new();
    let (p1, _) = s.join_or_poll(room("lobby"), None);
    let (p2, _) = s.join_or_poll(room("lobby"), None);
    let (p3, _) = s.join_or_poll(room("lobby"), None);
    // Drain the three queues.
    let (_, _) = s.join_or_poll(room("lobby"), Some(p1));
    let (_, _) = s.join_or_poll(room("lobby"), Some(p2));
    let (_, _) = s.join_or_poll(room("lobby"), Some(p3));

    // A fourth peer joins: one identifier event plus one event per member,
    // in registry order.
    let (p4, ev4) = s.join_or_poll(room("lobby"), None);
    assert_eq!(
        ev4,
        vec![id_assigned(p4), new_peer(p1), new_peer(p2), new_peer(p3)]
    );

    // Each existing member's queue received exactly one event about p4.
    for p in [p1, p2, p3] {
        let (_, ev) = s.join_or_poll(room("lobby"), Some(p));
        assert_eq!(ev, vec![new_peer(p4)]);
    }
}

#[test]
fn remove_notifies_remaining_members_only() {
    let mut s = ServerState::new();
    let (p1, _) = s.join_or_poll(room("r"), None);
    let (p2, _) = s.join_or_poll(room("r"), None);
    let (p3, _) = s.join_or_poll(room("r"), None);
    let (_, _) = s.join_or_poll(room("r"), Some(p1));
    let (_, _) = s.join_or_poll(room("r"), Some(p2));
    let (_, _) = s.join_or_poll(room("r"), Some(p3));

    s.remove_peer(&p2);

    // The two remaining members each get exactly one departure event.
    let (_, ev1) = s.join_or_poll(room("r"), Some(p1));
    assert_eq!(ev1, vec![peer_left(p2)]);
    let (_, ev3) = s.join_or_poll(room("r"), Some(p3));
    assert_eq!(ev3, vec![peer_left(p2)]);

    // The removed peer is gone from the room.
    let members = s.get_room_peers(&room("r"));
    assert_eq!(members, vec![p1, p3]);

    // Its queue was discarded, not delivered: polling with the stale id is
    // a fresh join, not a replay.
    let (p_new, ev_new) = s.join_or_poll(room("r"), Some(p2));
    assert_ne!(p_new, p2);
    assert_eq!(ev_new[0], id_assigned(p_new));
    assert_eq!(ev_new.len(), 3);
}

#[test]
fn remove_unknown_peer_is_a_noop() {
    let mut s = ServerState::new();
    let (p1, _) = s.join_or_poll(room("quiet"), None);
    let (_, _) = s.join_or_poll(room("quiet"), Some(p1));

    s.remove_peer(&PeerId(424242));

    // No membership change and no event generated.
    assert_eq!(s.get_room_peers(&room("quiet")), vec![p1]);
    let (_, ev) = s.join_or_poll(room("quiet"), Some(p1));
    assert!(ev.is_empty());
}

#[test]
fn queue_event_unknown_peer_fails_and_changes_nothing() {
    let mut s = ServerState::new();
    let (p1, _) = s.join_or_poll(room("a"), None);
    let (_, _) = s.join_or_poll(room("a"), Some(p1));

    let r = s.queue_event(PeerId(7), "payload".to_string());
    assert_eq!(r, Err(SignalingError::UnknownPeer));

    assert_eq!(s.get_room_peers(&room("a")), vec![p1]);
    let (_, ev) = s.join_or_poll(room("a"), Some(p1));
    assert!(ev.is_empty());
}

#[test]
fn queued_payloads_are_delivered_once_in_order_verbatim() {
    let mut s = ServerState::new();
    let (p1, _) = s.join_or_poll(room("sig"), None);
    let (_, _) = s.join_or_poll(room("sig"), Some(p1));

    let first = "{\"Signal\":{\"sender\":\"x\",\"data\":\"offer\"}}".to_string();
    let second = "an opaque token, not even JSON".to_string();
    assert_eq!(s.queue_event(p1, first.clone()), Ok(()));
    assert_eq!(s.queue_event(p1, second.clone()), Ok(()));

    let (_, ev) = s.join_or_poll(room("sig"), Some(p1));
    assert_eq!(ev, vec![first, second]);

    // Delivered exactly once: a second poll returns nothing.
    let (_, ev2) = s.join_or_poll(room("sig"), Some(p1));
    assert!(ev2.is_empty());
}

#[test]
fn list_room_peers_empty_cases() {
    let mut s = ServerState::new();
    // Never joined.
    assert!(s.get_room_peers(&room("nobody")).is_empty());

    // All members left.
    let (p1, _) = s.join_or_poll(room("gone"), None);
    let (p2, _) = s.join_or_poll(room("gone"), None);
    s.remove_peer(&p1);
    s.remove_peer(&p2);
    assert!(s.get_room_peers(&room("gone")).is_empty());
}

#[test]
fn stale_identifier_is_treated_as_new_join() {
    let mut s = ServerState::new();
    let stale = PeerId(31337);
    let (fresh, ev) = s.join_or_poll(room("r2"), Some(stale));
    assert_ne!(fresh, stale);
    assert_eq!(ev, vec![id_assigned(fresh)]);
    assert_eq!(s.get_room_peers(&room("r2")), vec![fresh]);
}

#[test]
fn rooms_are_isolated() {
    let mut s = ServerState::new();
    let (p1, _) = s.join_or_poll(room("one"), None);
    let (_, _) = s.join_or_poll(room("one"), Some(p1));
    let (p2, ev2) = s.join_or_poll(room("two"), None);

    // Joining another room tells p2 nothing about p1 and queues nothing
    // for p1.
    assert_eq!(ev2, vec![id_assigned(p2)]);
    let (_, ev1) = s.join_or_poll(room("one"), Some(p1));
    assert!(ev1.is_empty());
    assert_eq!(s.get_room_peers(&room("one")), vec![p1]);
    assert_eq!(s.get_room_peers(&room("two")), vec![p2]);
}
