//! The room/peer state machine.
//!
//! A [`ServerState`] is one full snapshot: a registry of peers (each with
//! its room and its queue of pending events) and a registry of rooms (each
//! with its set of member peers). The registries are kept as vectors of
//! entries with distinct keys; well-formedness ties the two together: a
//! peer's recorded room lists the peer as a member, and every member of a
//! room is a registered peer pointing back at that room.

use crate::error::SignalingError;
use crate::events::id_assigned_event;
use crate::events::id_assigned_text;
use crate::events::new_peer_event;
use crate::events::new_peer_text;
use crate::events::peer_left_event;
use crate::events::peer_left_text;
use crate::events::random_peer_id;
use vstd::prelude::*;
use vstd::seq_lib::*;
use vstd::set_lib::*;

verus! {

/// Peer identifier: 128 bits minted at random once when the peer joins,
/// and never reused.
#[derive(Clone, Copy, PartialEq, Eq, Structural, Debug, Hash)]
pub struct PeerId(pub u128);

/// Room identifier: a name supplied by the client. A room exists as long
/// as some entry carries its name; an empty member set is benign.
#[derive(Debug, PartialEq, Eq)]
pub struct RoomId(pub String);

impl View for RoomId {
    type V = Seq<char>;

    open spec fn view(&self) -> Seq<char> {
        self.0@
    }
}

impl Clone for RoomId {
    fn clone(&self) -> (r: Self)
        ensures
            r@ == self@,
    {
        RoomId(self.0.clone())
    }
}

/// One registered peer: its identity, the room it belongs to, and the
/// ordered queue of pending events awaiting its next poll.
pub struct PeerEntry {
    pub id: PeerId,
    pub room: RoomId,
    pub events: Vec<String>,
}

/// One room: its name and its member peers, kept as a vector of distinct
/// identifiers in join order.
pub struct RoomEntry {
    pub room: RoomId,
    pub members: Vec<PeerId>,
}

/// The full state snapshot: the peer registry and the room registry.
pub struct ServerState {
    pub peers: Vec<PeerEntry>,
    pub rooms: Vec<RoomEntry>,
}

/// The texts of a queue of events, each event seen as its character
/// sequence.
pub open spec fn event_texts(es: Seq<String>) -> Seq<Seq<char>> {
    es.map(|i: int, e: String| e@)
}

impl ServerState {
    /// Whether a peer with this identifier is registered.
    pub open spec fn has_peer(self, id: PeerId) -> bool {
        exists|i: int| 0 <= i < self.peers@.len() && self.peers@[i].id == id
    }

    /// Index of the entry of a registered peer (meaningful under
    /// `has_peer` and distinct identifiers).
    pub open spec fn peer_idx(self, id: PeerId) -> int {
        choose|i: int| 0 <= i < self.peers@.len() && self.peers@[i].id == id
    }

    /// The room recorded for a registered peer.
    pub open spec fn peer_room(self, id: PeerId) -> Seq<char> {
        self.peers@[self.peer_idx(id)].room@
    }

    /// The pending event queue of a registered peer, oldest first.
    pub open spec fn peer_events(self, id: PeerId) -> Seq<Seq<char>> {
        event_texts(self.peers@[self.peer_idx(id)].events@)
    }

    /// Whether some room entry carries this name.
    pub open spec fn has_room(self, room: Seq<char>) -> bool {
        exists|i: int| 0 <= i < self.rooms@.len() && self.rooms@[i].room@ == room
    }

    /// Index of the entry of a known room (meaningful under `has_room`
    /// and distinct names).
    pub open spec fn room_idx(self, room: Seq<char>) -> int {
        choose|i: int| 0 <= i < self.rooms@.len() && self.rooms@[i].room@ == room
    }

    /// The members of a room, in registry order; empty if the room is
    /// unknown.
    pub open spec fn room_members(self, room: Seq<char>) -> Seq<PeerId> {
        if self.has_room(room) {
            self.rooms@[self.room_idx(room)].members@
        } else {
            Seq::empty()
        }
    }

    /// Whether `id` appears in the member set of the room named `room`.
    pub open spec fn member_of(self, room: Seq<char>, id: PeerId) -> bool {
        exists|r: int, m: int|
            0 <= r < self.rooms@.len() && self.rooms@[r].room@ == room && 0 <= m
                < self.rooms@[r].members@.len() && self.rooms@[r].members@[m] == id
    }

    /// Peer identifiers are unique in the peer registry.
    pub open spec fn peers_distinct(self) -> bool {
        forall|i: int, j: int|
            0 <= i < j < self.peers@.len() ==> self.peers@[i].id != self.peers@[j].id
    }

    /// Room names are unique in the room registry.
    pub open spec fn rooms_distinct(self) -> bool {
        forall|i: int, j: int|
            0 <= i < j < self.rooms@.len() ==> self.rooms@[i].room@ != self.rooms@[j].room@
    }

    /// Within one room the member identifiers are distinct.
    pub open spec fn members_distinct(self) -> bool {
        forall|r: int, i: int, j: int|
            0 <= r < self.rooms@.len() && 0 <= i < j < self.rooms@[r].members@.len()
                ==> self.rooms@[r].members@[i] != self.rooms@[r].members@[j]
    }

    /// Every registered peer is a member of the room its entry records.
    pub open spec fn peers_in_rooms(self) -> bool {
        forall|p: int|
            0 <= p < self.peers@.len() ==> #[trigger] self.member_of(
                self.peers@[p].room@,
                self.peers@[p].id,
            )
    }

    /// One room member is backed by a peer entry recording that room.
    pub open spec fn member_entry_ok(self, r: int, m: int) -> bool {
        exists|p: int|
            0 <= p < self.peers@.len() && self.peers@[p].id == self.rooms@[r].members@[m]
                && self.peers@[p].room@ == self.rooms@[r].room@
    }

    /// Every member of every room is a registered peer whose entry records
    /// that room.
    pub open spec fn members_are_peers(self) -> bool {
        forall|r: int, m: int|
            0 <= r < self.rooms@.len() && 0 <= m < self.rooms@[r].members@.len()
                ==> #[trigger] self.member_entry_ok(r, m)
    }

    /// Well-formedness: registry keys are unique, and room membership and
    /// the per-peer room pointers agree.
    pub open spec fn wf(self) -> bool {
        &&& self.peers_distinct()
        &&& self.rooms_distinct()
        &&& self.members_distinct()
        &&& self.peers_in_rooms()
        &&& self.members_are_peers()
    }

    /// Create an empty server state: no peers, no rooms.
    pub fn new() -> (r: ServerState)
        ensures
            r.wf(),
            r.peers@.len() == 0,
            r.rooms@.len() == 0,
            forall|id: PeerId| !r.has_peer(id),
            forall|room: Seq<char>| r.room_members(room) == Seq::<PeerId>::empty(),
    {
        ServerState { peers: Vec::new(), rooms: Vec::new() }
    }

    /// With distinct identifiers, the entry index of a registered peer is
    /// pinned down, and the per-peer accessors read that entry.
    proof fn lemma_peer_idx_is(self, id: PeerId, i: int)
        requires
            self.peers_distinct(),
            0 <= i < self.peers@.len(),
            self.peers@[i].id == id,
        ensures
            self.has_peer(id),
            self.peer_idx(id) == i,
            self.peer_room(id) == self.peers@[i].room@,
            self.peer_events(id) == event_texts(self.peers@[i].events@),
    {
        assert(self.has_peer(id));
        let j = self.peer_idx(id);
        assert(0 <= j < self.peers@.len() && self.peers@[j].id == id);
        if j < i {
            assert(self.peers@[j].id != self.peers@[i].id);
        }
        if i < j {
            assert(self.peers@[i].id != self.peers@[j].id);
        }
    }

    /// With distinct names, the entry index of a known room is pinned
    /// down, and `room_members` reads that entry.
    proof fn lemma_room_idx_is(self, room: Seq<char>, i: int)
        requires
            self.rooms_distinct(),
            0 <= i < self.rooms@.len(),
            self.rooms@[i].room@ == room,
        ensures
            self.has_room(room),
            self.room_idx(room) == i,
            self.room_members(room) == self.rooms@[i].members@,
    {
        assert(self.has_room(room));
        let j = self.room_idx(room);
        assert(0 <= j < self.rooms@.len() && self.rooms@[j].room@ == room);
        if j < i {
            assert(self.rooms@[j].room@ != self.rooms@[i].room@);
        }
        if i < j {
            assert(self.rooms@[i].room@ != self.rooms@[j].room@);
        }
    }

    /// Locate the registry index of a peer, if registered.
    fn find_peer(&self, id: PeerId) -> (r: Option<usize>)
        ensures
            match r {
                Some(i) => i < self.peers@.len() && self.peers@[i as int].id == id,
                None => !self.has_peer(id),
            },
    {
        let mut i: usize = 0;
        while i < self.peers.len()
            invariant
                i <= self.peers@.len(),
                forall|j: int| 0 <= j < i ==> self.peers@[j].id != id,
            decreases self.peers@.len() - i,
        {
            if self.peers[i].id == id {
                return Some(i);
            }
            i += 1;
        }
        None
    }

    /// Locate the registry index of a room name, if present.
    fn find_room(&self, room: &RoomId) -> (r: Option<usize>)
        ensures
            match r {
                Some(i) => i < self.rooms@.len() && self.rooms@[i as int].room@ == room@,
                None => !self.has_room(room@),
            },
    {
        let mut i: usize = 0;
        while i < self.rooms.len()
            invariant
                i <= self.rooms@.len(),
                forall|j: int| 0 <= j < i ==> self.rooms@[j].room@ != room@,
            decreases self.rooms@.len() - i,
        {
            if self.rooms[i].room.0 == room.0 {
                return Some(i);
            }
            i += 1;
        }
        None
    }
}

/// Locate the position of an identifier in a member vector.
fn find_member(members: &Vec<PeerId>, id: PeerId) -> (r: Option<usize>)
    ensures
        match r {
            Some(i) => i < members@.len() && members@[i as int] == id,
            None => !members@.contains(id),
        },
{
    let mut i: usize = 0;
    while i < members.len()
        invariant
            i <= members@.len(),
            forall|j: int| 0 <= j < i ==> members@[j] != id,
        decreases members@.len() - i,
    {
        if members[i] == id {
            return Some(i);
        }
        i += 1;
    }
    None
}

/// Copy a member vector element by element.
fn copy_members(members: &Vec<PeerId>) -> (r: Vec<PeerId>)
    ensures
        r@ == members@,
{
    let mut r: Vec<PeerId> = Vec::new();
    let mut i: usize = 0;
    while i < members.len()
        invariant
            i <= members@.len(),
            r@ == members@.subrange(0, i as int),
        decreases members@.len() - i,
    {
        r.push(members[i]);
        proof {
            assert(r@ =~= members@.subrange(0, i + 1));
        }
        i += 1;
    }
    proof {
        assert(r@ =~= members@);
    }
    r
}

/// Peer entry `j` carries the same identity (id and room) in `post` as in
/// `pre`; only its queue may differ.
pub open spec fn entry_same_identity(pre: ServerState, post: ServerState, j: int) -> bool {
    post.peers@[j].id == pre.peers@[j].id && post.peers@[j].room@ == pre.peers@[j].room@
}

/// The event texts of a queue grow by exactly the pushed text.
proof fn lemma_event_texts_push(es: Seq<String>, e: String)
    ensures
        event_texts(es.push(e)) =~= event_texts(es).push(e@),
{
    assert forall|k: int| 0 <= k < es.len() + 1 implies event_texts(es.push(e))[k] == event_texts(
        es,
    ).push(e@)[k] by {
        if k < es.len() {
            assert(es.push(e)[k] == es[k]);
        } else {
            assert(es.push(e)[k] == e);
        }
    }
}

/// An events-only change: rooms identical, peer identities and room
/// pointers pointwise identical; only the queues may differ. Such a change
/// preserves well-formedness and every accessor but the queues.
proof fn lemma_events_only_update(pre: ServerState, post: ServerState)
    requires
        pre.wf(),
        post.rooms@ == pre.rooms@,
        post.peers@.len() == pre.peers@.len(),
        forall|j: int| 0 <= j < pre.peers@.len() ==> #[trigger] entry_same_identity(pre, post, j),
    ensures
        post.wf(),
        forall|p: PeerId| #[trigger] post.has_peer(p) <==> pre.has_peer(p),
        forall|p: PeerId| pre.has_peer(p) ==> #[trigger] post.peer_idx(p) == pre.peer_idx(p),
        forall|p: PeerId| pre.has_peer(p) ==> #[trigger] post.peer_room(p) == pre.peer_room(p),
        forall|room: Seq<char>| #[trigger] post.room_members(room) == pre.room_members(room),
{
    assert forall|i: int, j: int|
        0 <= i < j < post.peers@.len() implies post.peers@[i].id != post.peers@[j].id by {
        assert(entry_same_identity(pre, post, i));
        assert(entry_same_identity(pre, post, j));
    }
    assert(post.peers_distinct());
    assert(post.rooms_distinct());
    assert(post.members_distinct());
    assert forall|p: PeerId| pre.has_peer(p) implies post.has_peer(p) && post.peer_idx(p)
        == pre.peer_idx(p) && post.peer_room(p) == pre.peer_room(p) by {
        let i = pre.peer_idx(p);
        assert(0 <= i < pre.peers@.len() && pre.peers@[i].id == p);
        assert(entry_same_identity(pre, post, i));
        pre.lemma_peer_idx_is(p, i);
        post.lemma_peer_idx_is(p, i);
    }
    assert forall|p: PeerId| post.has_peer(p) implies pre.has_peer(p) by {
        let i = post.peer_idx(p);
        assert(0 <= i < post.peers@.len() && post.peers@[i].id == p);
        assert(entry_same_identity(pre, post, i));
    }
    assert forall|room: Seq<char>| #[trigger] post.room_members(room) == pre.room_members(
        room,
    ) by {
        if pre.has_room(room) {
            let i = pre.room_idx(room);
            assert(0 <= i < pre.rooms@.len() && pre.rooms@[i].room@ == room);
            pre.lemma_room_idx_is(room, i);
            post.lemma_room_idx_is(room, i);
        } else {
            if post.has_room(room) {
                let i = post.room_idx(room);
                assert(0 <= i < post.rooms@.len() && post.rooms@[i].room@ == room);
                assert(pre.has_room(room));
            }
        }
    }
    assert forall|p: int| 0 <= p < post.peers@.len() implies #[trigger] post.member_of(
        post.peers@[p].room@,
        post.peers@[p].id,
    ) by {
        assert(entry_same_identity(pre, post, p));
        assert(pre.member_of(pre.peers@[p].room@, pre.peers@[p].id));
        let (r, m) = choose|r: int, m: int|
            0 <= r < pre.rooms@.len() && pre.rooms@[r].room@ == pre.peers@[p].room@ && 0 <= m
                < pre.rooms@[r].members@.len() && pre.rooms@[r].members@[m] == pre.peers@[p].id;
        assert(0 <= r < post.rooms@.len() && post.rooms@[r].room@ == post.peers@[p].room@ && 0 <= m
            < post.rooms@[r].members@.len() && post.rooms@[r].members@[m] == post.peers@[p].id);
    }
    assert forall|r: int, m: int|
        0 <= r < post.rooms@.len() && 0 <= m
            < post.rooms@[r].members@.len() implies #[trigger] post.member_entry_ok(r, m) by {
        assert(pre.member_entry_ok(r, m));
        let p = choose|p: int|
            0 <= p < pre.peers@.len() && pre.peers@[p].id == pre.rooms@[r].members@[m]
                && pre.peers@[p].room@ == pre.rooms@[r].room@;
        assert(entry_same_identity(pre, post, p));
        assert(0 <= p < post.peers@.len() && post.peers@[p].id == post.rooms@[r].members@[m]
            && post.peers@[p].room@ == post.rooms@[r].room@);
    }
}

/// Detaching one peer: entry `i` leaves the peer registry, and its
/// identifier leaves the member vector of its room (position `mi` of room
/// entry `ri`). Everything else stays. The result is well-formed and every
/// other peer and room reads unchanged.
proof fn lemma_detach(pre: ServerState, mid: ServerState, i: int, ri: int, mi: int)
    requires
        pre.wf(),
        0 <= i < pre.peers@.len(),
        0 <= ri < pre.rooms@.len(),
        pre.rooms@[ri].room@ == pre.peers@[i].room@,
        0 <= mi < pre.rooms@[ri].members@.len(),
        pre.rooms@[ri].members@[mi] == pre.peers@[i].id,
        mid.peers@ == pre.peers@.remove(i),
        mid.rooms@.len() == pre.rooms@.len(),
        mid.rooms@[ri].room@ == pre.rooms@[ri].room@,
        mid.rooms@[ri].members@ == pre.rooms@[ri].members@.remove(mi),
        forall|r: int| 0 <= r < pre.rooms@.len() && r != ri ==> mid.rooms@[r] == pre.rooms@[r],
    ensures
        mid.wf(),
        !mid.has_peer(pre.peers@[i].id),
        forall|p: PeerId|
            p != pre.peers@[i].id ==> (#[trigger] mid.has_peer(p) <==> pre.has_peer(p)),
        forall|p: PeerId|
            p != pre.peers@[i].id && pre.has_peer(p) ==> #[trigger] mid.peer_room(p)
                == pre.peer_room(p) && mid.peer_events(p) == pre.peer_events(p),
        mid.room_members(pre.peers@[i].room@) == pre.room_members(pre.peers@[i].room@).remove(mi),
        forall|room2: Seq<char>|
            room2 != pre.peers@[i].room@ ==> #[trigger] mid.room_members(room2)
                == pre.room_members(room2),
{
    let rid = pre.peers@[i].id;
    let room = pre.peers@[i].room@;
    let pm = pre.peers@;
    let mm = mid.peers@;
    let ms = pre.rooms@[ri].members@;
    assert forall|j: int| 0 <= j < mm.len() implies mm[j] == (if j < i {
        pm[j]
    } else {
        pm[j + 1]
    }) by {}
    assert forall|j: int| 0 <= j < mm.len() implies mm[j].id != rid by {
        if j < i {
            assert(pm[j].id != pm[i].id);
        } else {
            assert(pm[i].id != pm[j + 1].id);
        }
    }
    assert(!mid.has_peer(rid));
    assert forall|j1: int, j2: int| 0 <= j1 < j2 < mm.len() implies mm[j1].id != mm[j2].id by {
        let o1: int = if j1 < i {
            j1
        } else {
            j1 + 1
        };
        let o2: int = if j2 < i {
            j2
        } else {
            j2 + 1
        };
        assert(pm[o1].id != pm[o2].id);
    }
    assert(mid.peers_distinct());
    assert forall|r1: int, r2: int|
        0 <= r1 < r2 < mid.rooms@.len() implies mid.rooms@[r1].room@ != mid.rooms@[r2].room@ by {
        assert(pre.rooms@[r1].room@ != pre.rooms@[r2].room@);
        if r1 != ri {
            assert(mid.rooms@[r1] == pre.rooms@[r1]);
        }
        if r2 != ri {
            assert(mid.rooms@[r2] == pre.rooms@[r2]);
        }
    }
    assert(mid.rooms_distinct());
    assert forall|r: int, t1: int, t2: int|
        0 <= r < mid.rooms@.len() && 0 <= t1 < t2
            < mid.rooms@[r].members@.len() implies mid.rooms@[r].members@[t1]
        != mid.rooms@[r].members@[t2] by {
        if r == ri {
            let o1: int = if t1 < mi {
                t1
            } else {
                t1 + 1
            };
            let o2: int = if t2 < mi {
                t2
            } else {
                t2 + 1
            };
            assert(mid.rooms@[r].members@[t1] == ms[o1]);
            assert(mid.rooms@[r].members@[t2] == ms[o2]);
            assert(ms[o1] != ms[o2]);
        } else {
            assert(mid.rooms@[r] == pre.rooms@[r]);
        }
    }
    assert(mid.members_distinct());
    // every remaining peer is still a member of its room
    assert forall|j: int| 0 <= j < mm.len() implies #[trigger] mid.member_of(
        mm[j].room@,
        mm[j].id,
    ) by {
        let o: int = if j < i {
            j
        } else {
            j + 1
        };
        assert(pre.member_of(pm[o].room@, pm[o].id));
        let (r, m) = choose|r: int, m: int|
            0 <= r < pre.rooms@.len() && pre.rooms@[r].room@ == pm[o].room@ && 0 <= m
                < pre.rooms@[r].members@.len() && pre.rooms@[r].members@[m] == pm[o].id;
        if r != ri {
            assert(mid.rooms@[r] == pre.rooms@[r]);
            assert(mid.rooms@[r].members@[m] == mm[j].id);
        } else {
            assert(ms[m] == pm[o].id);
            assert(pm[o].id != rid) by {
                if o < i {
                    assert(pm[o].id != pm[i].id);
                } else {
                    assert(pm[i].id != pm[o].id);
                }
            }
            assert(m != mi);
            let m2: int = if m < mi {
                m
            } else {
                m - 1
            };
            assert(mid.rooms@[ri].members@[m2] == ms[m]);
            assert(mid.rooms@[ri].members@[m2] == mm[j].id && mid.rooms@[ri].room@ == mm[j].room@);
        }
    }
    assert(mid.peers_in_rooms());
    // every remaining member is still a registered peer of that room
    assert forall|r: int, m2: int|
        0 <= r < mid.rooms@.len() && 0 <= m2
            < mid.rooms@[r].members@.len() implies #[trigger] mid.member_entry_ok(r, m2) by {
        let m: int = if r == ri && m2 >= mi {
            m2 + 1
        } else {
            m2
        };
        assert(mid.rooms@[r].members@[m2] == pre.rooms@[r].members@[m]);
        assert(pre.member_entry_ok(r, m));
        let p = choose|p: int|
            0 <= p < pre.peers@.len() && pre.peers@[p].id == pre.rooms@[r].members@[m]
                && pre.peers@[p].room@ == pre.rooms@[r].room@;
        assert(p != i) by {
            if r == ri {
                assert(ms[m] != ms[mi]);
            } else {
                assert(pre.rooms@[r].room@ != pre.rooms@[ri].room@);
            }
        }
        let j: int = if p < i {
            p
        } else {
            p - 1
        };
        assert(mm[j] == pm[p]);
        assert(mm[j].id == mid.rooms@[r].members@[m2] && mm[j].room@ == mid.rooms@[r].room@);
    }
    assert(mid.members_are_peers());
    // other peers read unchanged
    assert forall|p: PeerId| p != rid implies (#[trigger] mid.has_peer(p) <==> pre.has_peer(
        p,
    )) by {
        if pre.has_peer(p) {
            let o = pre.peer_idx(p);
            assert(0 <= o < pm.len() && pm[o].id == p);
            let j: int = if o < i {
                o
            } else {
                o - 1
            };
            assert(mm[j] == pm[o]);
        }
        if mid.has_peer(p) {
            let j = mid.peer_idx(p);
            assert(0 <= j < mm.len() && mm[j].id == p);
        }
    }
    assert forall|p: PeerId| p != rid && pre.has_peer(p) implies #[trigger] mid.peer_room(p)
        == pre.peer_room(p) && mid.peer_events(p) == pre.peer_events(p) by {
        let o = pre.peer_idx(p);
        assert(0 <= o < pm.len() && pm[o].id == p);
        let j: int = if o < i {
            o
        } else {
            o - 1
        };
        assert(mm[j] == pm[o]);
        pre.lemma_peer_idx_is(p, o);
        mid.lemma_peer_idx_is(p, j);
    }
    // room membership
    pre.lemma_room_idx_is(room, ri);
    mid.lemma_room_idx_is(room, ri);
    assert forall|room2: Seq<char>| room2 != room implies #[trigger] mid.room_members(room2)
        == pre.room_members(room2) by {
        if pre.has_room(room2) {
            let r = pre.room_idx(room2);
            assert(0 <= r < pre.rooms@.len() && pre.rooms@[r].room@ == room2);
            assert(r != ri);
            assert(mid.rooms@[r] == pre.rooms@[r]);
            pre.lemma_room_idx_is(room2, r);
            mid.lemma_room_idx_is(room2, r);
        } else {
            if mid.has_room(room2) {
                let r = mid.room_idx(room2);
                assert(0 <= r < mid.rooms@.len() && mid.rooms@[r].room@ == room2);
                assert(r != ri);
                assert(pre.rooms@[r] == mid.rooms@[r]);
                assert(pre.has_room(room2));
            }
        }
    }
}

/// Attaching a newcomer to a room that already has an entry: peer entry
/// `e` (identifier `nid`, room `room`, empty queue) is appended to the
/// peer registry, and `nid` is appended to the member vector of room
/// entry `ri`. Everything else stays.
proof fn lemma_attach_existing(
    pre: ServerState,
    mid: ServerState,
    e: PeerEntry,
    nid: PeerId,
    room: Seq<char>,
    ri: int,
)
    requires
        pre.wf(),
        !pre.has_peer(nid),
        e.id == nid,
        e.room@ == room,
        e.events@ == Seq::<String>::empty(),
        mid.peers@ == pre.peers@.push(e),
        0 <= ri < pre.rooms@.len(),
        pre.rooms@[ri].room@ == room,
        mid.rooms@.len() == pre.rooms@.len(),
        mid.rooms@[ri].room@ == room,
        mid.rooms@[ri].members@ == pre.rooms@[ri].members@.push(nid),
        forall|r: int| 0 <= r < pre.rooms@.len() && r != ri ==> mid.rooms@[r] == pre.rooms@[r],
    ensures
        mid.wf(),
        mid.has_peer(nid),
        mid.peer_room(nid) == room,
        mid.peer_events(nid) == Seq::<Seq<char>>::empty(),
        forall|p: PeerId| p != nid ==> (#[trigger] mid.has_peer(p) <==> pre.has_peer(p)),
        forall|p: PeerId|
            p != nid && pre.has_peer(p) ==> #[trigger] mid.peer_room(p) == pre.peer_room(p)
                && mid.peer_events(p) == pre.peer_events(p),
        mid.room_members(room) == pre.room_members(room).push(nid),
        forall|room2: Seq<char>|
            room2 != room ==> #[trigger] mid.room_members(room2) == pre.room_members(room2),
{
    let n = pre.peers@.len() as int;
    let pm = pre.peers@;
    let mm = mid.peers@;
    let ms = pre.rooms@[ri].members@;
    assert forall|j1: int, j2: int| 0 <= j1 < j2 < mm.len() implies mm[j1].id != mm[j2].id by {
        if j2 == n {
            assert(mm[j1] == pm[j1]);
            if pm[j1].id == nid {
                assert(pre.has_peer(nid));
            }
        } else {
            assert(mm[j1] == pm[j1] && mm[j2] == pm[j2]);
        }
    }
    assert(mid.peers_distinct());
    mid.lemma_peer_idx_is(nid, n);
    assert(mid.peer_events(nid) =~= Seq::<Seq<char>>::empty());
    assert forall|r1: int, r2: int|
        0 <= r1 < r2 < mid.rooms@.len() implies mid.rooms@[r1].room@ != mid.rooms@[r2].room@ by {
        if r1 != ri {
            assert(mid.rooms@[r1] == pre.rooms@[r1]);
        }
        if r2 != ri {
            assert(mid.rooms@[r2] == pre.rooms@[r2]);
        }
        assert(pre.rooms@[r1].room@ != pre.rooms@[r2].room@);
    }
    assert(mid.rooms_distinct());
    assert forall|r: int, t1: int, t2: int|
        0 <= r < mid.rooms@.len() && 0 <= t1 < t2
            < mid.rooms@[r].members@.len() implies mid.rooms@[r].members@[t1]
        != mid.rooms@[r].members@[t2] by {
        if r == ri {
            if t2 == ms.len() {
                assert(pre.member_entry_ok(ri, t1));
                let p = choose|p: int|
                    0 <= p < pm.len() && pm[p].id == ms[t1] && pm[p].room@ == pre.rooms@[ri].room@;
                if ms[t1] == nid {
                    assert(pre.has_peer(nid));
                }
            } else {
                assert(ms[t1] != ms[t2]);
            }
        } else {
            assert(mid.rooms@[r] == pre.rooms@[r]);
        }
    }
    assert(mid.members_distinct());
    assert forall|j: int| 0 <= j < mm.len() implies #[trigger] mid.member_of(
        mm[j].room@,
        mm[j].id,
    ) by {
        if j == n {
            assert(mid.rooms@[ri].members@[ms.len() as int] == nid);
            assert(mid.rooms@[ri].room@ == room);
        } else {
            assert(mm[j] == pm[j]);
            assert(pre.member_of(pm[j].room@, pm[j].id));
            let (r, m) = choose|r: int, m: int|
                0 <= r < pre.rooms@.len() && pre.rooms@[r].room@ == pm[j].room@ && 0 <= m
                    < pre.rooms@[r].members@.len() && pre.rooms@[r].members@[m] == pm[j].id;
            if r == ri {
                assert(mid.rooms@[ri].members@[m] == ms[m]);
            } else {
                assert(mid.rooms@[r] == pre.rooms@[r]);
            }
        }
    }
    assert(mid.peers_in_rooms());
    assert forall|r: int, m: int|
        0 <= r < mid.rooms@.len() && 0 <= m
            < mid.rooms@[r].members@.len() implies #[trigger] mid.member_entry_ok(r, m) by {
        if r == ri && m == ms.len() {
            assert(mm[n].id == nid && mm[n].room@ == room);
        } else {
            if r != ri {
                assert(mid.rooms@[r] == pre.rooms@[r]);
            } else {
                assert(mid.rooms@[ri].members@[m] == ms[m]);
            }
            assert(pre.member_entry_ok(r, m));
            let p = choose|p: int|
                0 <= p < pre.peers@.len() && pre.peers@[p].id == pre.rooms@[r].members@[m]
                    && pre.peers@[p].room@ == pre.rooms@[r].room@;
            assert(mm[p] == pm[p]);
        }
    }
    assert(mid.members_are_peers());
    assert forall|p: PeerId| p != nid implies (#[trigger] mid.has_peer(p) <==> pre.has_peer(
        p,
    )) by {
        if pre.has_peer(p) {
            let o = pre.peer_idx(p);
            assert(0 <= o < n && pm[o].id == p);
            assert(mm[o] == pm[o]);
        }
        if mid.has_peer(p) {
            let j = mid.peer_idx(p);
            assert(0 <= j < mm.len() && mm[j].id == p);
            assert(j != n);
            assert(mm[j] == pm[j]);
        }
    }
    assert forall|p: PeerId| p != nid && pre.has_peer(p) implies #[trigger] mid.peer_room(p)
        == pre.peer_room(p) && mid.peer_events(p) == pre.peer_events(p) by {
        let o = pre.peer_idx(p);
        assert(0 <= o < n && pm[o].id == p);
        assert(mm[o] == pm[o]);
        pre.lemma_peer_idx_is(p, o);
        mid.lemma_peer_idx_is(p, o);
    }
    pre.lemma_room_idx_is(room, ri);
    mid.lemma_room_idx_is(room, ri);
    assert forall|room2: Seq<char>| room2 != room implies #[trigger] mid.room_members(room2)
        == pre.room_members(room2) by {
        if pre.has_room(room2) {
            let r = pre.room_idx(room2);
            assert(0 <= r < pre.rooms@.len() && pre.rooms@[r].room@ == room2);
            assert(r != ri);
            assert(mid.rooms@[r] == pre.rooms@[r]);
            pre.lemma_room_idx_is(room2, r);
            mid.lemma_room_idx_is(room2, r);
        } else {
            if mid.has_room(room2) {
                let r = mid.room_idx(room2);
                assert(0 <= r < mid.rooms@.len() && mid.rooms@[r].room@ == room2);
                assert(r != ri);
                assert(pre.rooms@[r] == mid.rooms@[r]);
                assert(pre.has_room(room2));
            }
        }
    }
}

/// Attaching a newcomer to a room with no entry yet: peer entry `e` is
/// appended to the peer registry, and a fresh room entry `re` (the room's
/// name, the newcomer as only member) is appended to the room registry.
proof fn lemma_attach_new(
    pre: ServerState,
    mid: ServerState,
    e: PeerEntry,
    nid: PeerId,
    re: RoomEntry,
)
    requires
        pre.wf(),
        !pre.has_peer(nid),
        e.id == nid,
        e.room@ == re.room@,
        e.events@ == Seq::<String>::empty(),
        mid.peers@ == pre.peers@.push(e),
        !pre.has_room(re.room@),
        mid.rooms@ == pre.rooms@.push(re),
        re.members@ == seq![nid],
    ensures
        mid.wf(),
        mid.has_peer(nid),
        mid.peer_room(nid) == re.room@,
        mid.peer_events(nid) == Seq::<Seq<char>>::empty(),
        forall|p: PeerId| p != nid ==> (#[trigger] mid.has_peer(p) <==> pre.has_peer(p)),
        forall|p: PeerId|
            p != nid && pre.has_peer(p) ==> #[trigger] mid.peer_room(p) == pre.peer_room(p)
                && mid.peer_events(p) == pre.peer_events(p),
        mid.room_members(re.room@) == pre.room_members(re.room@).push(nid),
        forall|room2: Seq<char>|
            room2 != re.room@ ==> #[trigger] mid.room_members(room2) == pre.room_members(room2),
{
    let n = pre.peers@.len() as int;
    let nr = pre.rooms@.len() as int;
    let room = re.room@;
    let pm = pre.peers@;
    let mm = mid.peers@;
    assert forall|j1: int, j2: int| 0 <= j1 < j2 < mm.len() implies mm[j1].id != mm[j2].id by {
        if j2 == n {
            assert(mm[j1] == pm[j1]);
            if pm[j1].id == nid {
                assert(pre.has_peer(nid));
            }
        } else {
            assert(mm[j1] == pm[j1] && mm[j2] == pm[j2]);
        }
    }
    assert(mid.peers_distinct());
    mid.lemma_peer_idx_is(nid, n);
    assert(mid.peer_events(nid) =~= Seq::<Seq<char>>::empty());
    assert forall|r1: int, r2: int|
        0 <= r1 < r2 < mid.rooms@.len() implies mid.rooms@[r1].room@ != mid.rooms@[r2].room@ by {
        if r2 == nr {
            assert(mid.rooms@[r1] == pre.rooms@[r1]);
            if pre.rooms@[r1].room@ == room {
                assert(pre.has_room(room));
            }
        } else {
            assert(mid.rooms@[r1] == pre.rooms@[r1] && mid.rooms@[r2] == pre.rooms@[r2]);
        }
    }
    assert(mid.rooms_distinct());
    assert forall|r: int, t1: int, t2: int|
        0 <= r < mid.rooms@.len() && 0 <= t1 < t2
            < mid.rooms@[r].members@.len() implies mid.rooms@[r].members@[t1]
        != mid.rooms@[r].members@[t2] by {
        if r < nr {
            assert(mid.rooms@[r] == pre.rooms@[r]);
        }
    }
    assert(mid.members_distinct());
    assert forall|j: int| 0 <= j < mm.len() implies #[trigger] mid.member_of(
        mm[j].room@,
        mm[j].id,
    ) by {
        if j == n {
            assert(mid.rooms@[nr].members@[0] == nid);
            assert(mid.rooms@[nr].room@ == room);
        } else {
            assert(mm[j] == pm[j]);
            assert(pre.member_of(pm[j].room@, pm[j].id));
            let (r, m) = choose|r: int, m: int|
                0 <= r < pre.rooms@.len() && pre.rooms@[r].room@ == pm[j].room@ && 0 <= m
                    < pre.rooms@[r].members@.len() && pre.rooms@[r].members@[m] == pm[j].id;
            assert(mid.rooms@[r] == pre.rooms@[r]);
        }
    }
    assert(mid.peers_in_rooms());
    assert forall|r: int, m: int|
        0 <= r < mid.rooms@.len() && 0 <= m
            < mid.rooms@[r].members@.len() implies #[trigger] mid.member_entry_ok(r, m) by {
        if r == nr {
            assert(mid.rooms@[r].members@[m] == nid);
            assert(mm[n].id == nid && mm[n].room@ == room);
        } else {
            assert(mid.rooms@[r] == pre.rooms@[r]);
            assert(pre.member_entry_ok(r, m));
            let p = choose|p: int|
                0 <= p < pre.peers@.len() && pre.peers@[p].id == pre.rooms@[r].members@[m]
                    && pre.peers@[p].room@ == pre.rooms@[r].room@;
            assert(mm[p] == pm[p]);
        }
    }
    assert(mid.members_are_peers());
    assert forall|p: PeerId| p != nid implies (#[trigger] mid.has_peer(p) <==> pre.has_peer(
        p,
    )) by {
        if pre.has_peer(p) {
            let o = pre.peer_idx(p);
            assert(0 <= o < n && pm[o].id == p);
            assert(mm[o] == pm[o]);
        }
        if mid.has_peer(p) {
            let j = mid.peer_idx(p);
            assert(0 <= j < mm.len() && mm[j].id == p);
            assert(j != n);
            assert(mm[j] == pm[j]);
        }
    }
    assert forall|p: PeerId| p != nid && pre.has_peer(p) implies #[trigger] mid.peer_room(p)
        == pre.peer_room(p) && mid.peer_events(p) == pre.peer_events(p) by {
        let o = pre.peer_idx(p);
        assert(0 <= o < n && pm[o].id == p);
        assert(mm[o] == pm[o]);
        pre.lemma_peer_idx_is(p, o);
        mid.lemma_peer_idx_is(p, o);
    }
    mid.lemma_room_idx_is(room, nr);
    assert(mid.room_members(room) =~= pre.room_members(room).push(nid));
    assert forall|room2: Seq<char>| room2 != room implies #[trigger] mid.room_members(room2)
        == pre.room_members(room2) by {
        if pre.has_room(room2) {
            let r = pre.room_idx(room2);
            assert(0 <= r < pre.rooms@.len() && pre.rooms@[r].room@ == room2);
            assert(mid.rooms@[r] == pre.rooms@[r]);
            pre.lemma_room_idx_is(room2, r);
            mid.lemma_room_idx_is(room2, r);
        } else {
            if mid.has_room(room2) {
                let r = mid.room_idx(room2);
                assert(0 <= r < mid.rooms@.len() && mid.rooms@[r].room@ == room2);
                assert(r != nr);
                assert(pre.rooms@[r] == mid.rooms@[r]);
                assert(pre.has_room(room2));
            }
        }
    }
}

/// What a poll of the registered peer `id` does: its pending queue is
/// returned whole, in order, and left empty; no other peer, queue or room
/// changes.
pub open spec fn poll_spec(
    pre: ServerState,
    post: ServerState,
    id: PeerId,
    out_id: PeerId,
    out_events: Seq<Seq<char>>,
) -> bool {
    &&& out_id == id
    &&& out_events == pre.peer_events(id)
    &&& post.peer_events(id) == Seq::<Seq<char>>::empty()
    &&& forall|p: PeerId| #[trigger] post.has_peer(p) <==> pre.has_peer(p)
    &&& forall|p: PeerId| pre.has_peer(p) ==> #[trigger] post.peer_room(p) == pre.peer_room(p)
    &&& forall|p: PeerId|
        pre.has_peer(p) && p != id ==> #[trigger] post.peer_events(p) == pre.peer_events(p)
    &&& forall|room: Seq<char>| #[trigger] post.room_members(room) == pre.room_members(room)
}

/// What a new join of `room` does: the newcomer gets a fresh identifier
/// and receives the "identifier assigned" event followed by one "new
/// peer" event per existing member, in registry order; it enters the
/// room's member set with an empty queue; each existing member's queue
/// gains exactly one "new peer" event carrying the newcomer's id; nothing
/// else changes.
pub open spec fn join_spec(
    pre: ServerState,
    post: ServerState,
    room: Seq<char>,
    out_id: PeerId,
    out_events: Seq<Seq<char>>,
) -> bool {
    &&& !pre.has_peer(out_id)
    &&& post.has_peer(out_id)
    &&& post.peer_room(out_id) == room
    &&& post.peer_events(out_id) == Seq::<Seq<char>>::empty()
    &&& out_events == seq![id_assigned_text(out_id.0)] + pre.room_members(room).map(
        |t: int, m: PeerId| new_peer_text(m.0),
    )
    &&& post.room_members(room) == pre.room_members(room).push(out_id)
    &&& forall|room2: Seq<char>|
        room2 != room ==> #[trigger] post.room_members(room2) == pre.room_members(room2)
    &&& forall|p: PeerId| p != out_id ==> (#[trigger] post.has_peer(p) <==> pre.has_peer(p))
    &&& forall|p: PeerId|
        p != out_id && pre.has_peer(p) ==> #[trigger] post.peer_room(p) == pre.peer_room(p)
    &&& forall|p: PeerId|
        p != out_id && pre.has_peer(p) ==> #[trigger] post.peer_events(p) == (if pre.member_of(
            room,
            p,
        ) {
            pre.peer_events(p).push(new_peer_text(out_id.0))
        } else {
            pre.peer_events(p)
        })
}

impl ServerState {
    /// Append an opaque event payload to the queue of the addressed peer.
    ///
    /// Succeeds exactly when the peer is registered, appending the payload
    /// verbatim at the end of its queue and touching nothing else; on an
    /// unknown peer it reports `UnknownPeer` and leaves the state as it
    /// was.
    pub fn queue_event(&mut self, peer_id: PeerId, event: String) -> (r: Result<
        (),
        SignalingError,
    >)
        requires
            old(self).wf(),
        ensures
            final(self).wf(),
            old(self).has_peer(peer_id) ==> r is Ok && final(self).peer_events(peer_id) == old(
                self,
            ).peer_events(peer_id).push(event@),
            !old(self).has_peer(peer_id) ==> r == Err::<(), SignalingError>(
                SignalingError::UnknownPeer,
            ) && *final(self) == *old(self),
            forall|p: PeerId| #[trigger] final(self).has_peer(p) <==> old(self).has_peer(p),
            forall|p: PeerId|
                old(self).has_peer(p) && p != peer_id ==> #[trigger] final(self).peer_events(p)
                    == old(self).peer_events(p),
            forall|p: PeerId|
                old(self).has_peer(p) ==> #[trigger] final(self).peer_room(p) == old(
                    self,
                ).peer_room(p),
            forall|room: Seq<char>|
                #[trigger] final(self).room_members(room) == old(self).room_members(room),
    {
        let ghost pre = *self;
        match self.find_peer(peer_id) {
            Some(i) => {
                let mut entry = self.peers.remove(i);
                entry.events.push(event);
                let ghost entry2 = entry;
                self.peers.insert(i, entry);
                proof {
                    let ii = i as int;
                    assert(self.peers@ =~= pre.peers@.update(ii, entry2));
                    assert forall|j: int|
                        0 <= j < pre.peers@.len() implies #[trigger] entry_same_identity(
                        pre,
                        *self,
                        j,
                    ) by {
                        if j != ii {
                            assert(self.peers@[j] == pre.peers@[j]);
                        }
                    }
                    lemma_events_only_update(pre, *self);
                    pre.lemma_peer_idx_is(peer_id, ii);
                    self.lemma_peer_idx_is(peer_id, ii);
                    lemma_event_texts_push(pre.peers@[ii].events@, event);
                }
                Ok(())
            },
            None => Err(SignalingError::UnknownPeer),
        }
    }

    /// Append the same event text to the queue of every peer in `targets`
    /// (all registered, all distinct); nothing else changes.
    fn push_event_to_all(&mut self, targets: &Vec<PeerId>, event: &String)
        requires
            old(self).wf(),
            forall|t: int| 0 <= t < targets@.len() ==> old(self).has_peer(#[trigger] targets@[t]),
            forall|t1: int, t2: int|
                0 <= t1 < t2 < targets@.len() ==> targets@[t1] != targets@[t2],
        ensures
            final(self).wf(),
            forall|p: PeerId| #[trigger] final(self).has_peer(p) <==> old(self).has_peer(p),
            forall|p: PeerId|
                old(self).has_peer(p) ==> #[trigger] final(self).peer_room(p) == old(
                    self,
                ).peer_room(p),
            forall|room: Seq<char>|
                #[trigger] final(self).room_members(room) == old(self).room_members(room),
            forall|t: int|
                0 <= t < targets@.len() ==> #[trigger] final(self).peer_events(targets@[t]) == old(
                    self,
                ).peer_events(targets@[t]).push(event@),
            forall|p: PeerId|
                old(self).has_peer(p) && !targets@.contains(p) ==> #[trigger] final(self)
                    .peer_events(p) == old(self).peer_events(p),
    {
        let ghost pre = *self;
        let mut k: usize = 0;
        while k < targets.len()
            invariant
                self.wf(),
                k <= targets@.len(),
                forall|t: int| 0 <= t < targets@.len() ==> pre.has_peer(#[trigger] targets@[t]),
                forall|t1: int, t2: int|
                    0 <= t1 < t2 < targets@.len() ==> targets@[t1] != targets@[t2],
                forall|p: PeerId| #[trigger] self.has_peer(p) <==> pre.has_peer(p),
                forall|p: PeerId|
                    pre.has_peer(p) ==> #[trigger] self.peer_room(p) == pre.peer_room(p),
                forall|room: Seq<char>|
                    #[trigger] self.room_members(room) == pre.room_members(room),
                forall|t: int|
                    0 <= t < k ==> #[trigger] self.peer_events(targets@[t]) == pre.peer_events(
                        targets@[t],
                    ).push(event@),
                forall|t: int|
                    k <= t < targets@.len() ==> #[trigger] self.peer_events(targets@[t])
                        == pre.peer_events(targets@[t]),
                forall|p: PeerId|
                    pre.has_peer(p) && !targets@.contains(p) ==> #[trigger] self.peer_events(p)
                        == pre.peer_events(p),
            decreases targets@.len() - k,
        {
            let ghost prev = *self;
            let id = targets[k];
            let ev = event.clone();
            let _ = self.queue_event(id, ev);
            proof {
                assert(targets@.contains(targets@[k as int]));
            }
            k += 1;
        }
    }

    /// Mint an identifier that no registered peer carries: a few random
    /// draws, then (against all odds) a deterministic search. Some value
    /// in `0 ..= peers.len()` is always free, the identifiers being
    /// distinct.
    fn mint_fresh_id(&self) -> (r: PeerId)
        requires
            self.wf(),
        ensures
            !self.has_peer(r),
    {
        let mut attempts: usize = 0;
        while attempts < 8
            decreases 8 - attempts,
        {
            let id = random_peer_id();
            if self.find_peer(id).is_none() {
                return id;
            }
            attempts += 1;
        }
        let n = self.peers.len();
        let mut c: usize = 0;
        while c < n
            invariant
                c <= n,
                n == self.peers@.len(),
                forall|d: int| 0 <= d < c ==> self.has_peer(PeerId(#[trigger] (d as u128))),
            decreases n - c,
        {
            let candidate = PeerId(c as u128);
            if self.find_peer(candidate).is_none() {
                return candidate;
            }
            c += 1;
        }
        proof {
            self.lemma_small_id_free(n as int);
        }
        PeerId(n as u128)
    }

    /// Pigeonhole: if every identifier below `n` is taken by one of the
    /// `n` distinct peers, the identifier `n` itself is free.
    proof fn lemma_small_id_free(self, n: int)
        requires
            self.peers_distinct(),
            n == self.peers@.len(),
            0 <= n <= u128::MAX,
            forall|d: int| 0 <= d < n ==> self.has_peer(PeerId(#[trigger] (d as u128))),
        ensures
            !self.has_peer(PeerId(n as u128)),
    {
        if self.has_peer(PeerId(n as u128)) {
            let ids = self.peers@.map(|i: int, e: PeerEntry| e.id.0 as int);
            assert forall|d: int| 0 <= d <= n implies ids.to_set().contains(d) by {
                assert(self.has_peer(PeerId(d as u128)));
                let i = choose|i: int|
                    0 <= i < self.peers@.len() && self.peers@[i].id == PeerId(d as u128);
                assert((d as u128) as int == d);
                assert(ids[i] == d);
                assert(ids.contains(d));
            }
            assert(set_int_range(0, n + 1) <= ids.to_set());
            lemma_int_range(0, n + 1);
            ids.lemma_cardinality_of_set();
            lemma_len_subset(set_int_range(0, n + 1), ids.to_set());
            assert(false);
        }
    }

    /// Register a fresh peer in a room and report the events the
    /// newcomer is owed, notifying every existing member.
    fn join_room(&mut self, room_id: RoomId, new_id: PeerId) -> (events: Vec<String>)
        requires
            old(self).wf(),
            !old(self).has_peer(new_id),
        ensures
            final(self).wf(),
            join_spec(*old(self), *final(self), room_id@, new_id, event_texts(events@)),
    {
        let ghost pre = *self;
        let rio = self.find_room(&room_id);
        let ms: Vec<PeerId> = match rio {
            Some(ri) => {
                proof {
                    pre.lemma_room_idx_is(room_id@, ri as int);
                }
                copy_members(&self.rooms[ri].members)
            },
            None => Vec::new(),
        };
        proof {
            assert(ms@ == pre.room_members(room_id@));
        }
        let mut events: Vec<String> = Vec::new();
        events.push(id_assigned_event(&new_id));
        let mut k: usize = 0;
        while k < ms.len()
            invariant
                k <= ms@.len(),
                events@.len() == k + 1,
                events@[0]@ == id_assigned_text(new_id.0),
                forall|t: int| 0 <= t < k ==> (#[trigger] events@[t + 1])@ == new_peer_text(
                    ms@[t].0,
                ),
            decreases ms@.len() - k,
        {
            events.push(new_peer_event(&ms[k]));
            k += 1;
        }
        proof {
            let expected = seq![id_assigned_text(new_id.0)] + ms@.map(
                |t: int, m: PeerId| new_peer_text(m.0),
            );
            assert forall|x: int| 0 <= x < events@.len() implies event_texts(events@)[x]
                == expected[x] by {
                if x > 0 {
                    let t = x - 1;
                    assert((events@[t + 1])@ == new_peer_text(ms@[t].0));
                    assert(events@[x]@ == new_peer_text(ms@[x - 1].0));
                    assert(expected[x] == ms@.map(|t: int, m: PeerId| new_peer_text(m.0))[x - 1]);
                }
            }
            assert(event_texts(events@) =~= expected);
        }
        let entry = PeerEntry { id: new_id, room: room_id.clone(), events: Vec::new() };
        let ghost e = entry;
        self.peers.push(entry);
        match rio {
            Some(ri) => {
                let mut re = self.rooms.remove(ri);
                re.members.push(new_id);
                let ghost re2 = re;
                self.rooms.insert(ri, re);
                proof {
                    assert(self.rooms@ =~= pre.rooms@.update(ri as int, re2));
                    lemma_attach_existing(pre, *self, e, new_id, room_id@, ri as int);
                }
            },
            None => {
                let mut first: Vec<PeerId> = Vec::new();
                first.push(new_id);
                let re = RoomEntry { room: room_id, members: first };
                let ghost re2 = re;
                self.rooms.push(re);
                proof {
                    assert(re2.members@ =~= seq![new_id]);
                    lemma_attach_new(pre, *self, e, new_id, re2);
                }
            },
        }
        let ghost mid = *self;
        proof {
            assert forall|t: int| 0 <= t < ms@.len() implies mid.has_peer(#[trigger] ms@[t])
                && ms@[t] != new_id by {
                assert(pre.has_room(room_id@));
                let ri = pre.room_idx(room_id@);
                pre.lemma_room_idx_is(room_id@, ri);
                assert(pre.member_entry_ok(ri, t));
                let p = choose|p: int|
                    0 <= p < pre.peers@.len() && pre.peers@[p].id == pre.rooms@[ri].members@[t]
                        && pre.peers@[p].room@ == pre.rooms@[ri].room@;
                assert(pre.has_peer(ms@[t]));
                assert(ms@[t] != new_id);
            }
            assert forall|t1: int, t2: int| 0 <= t1 < t2 < ms@.len() implies ms@[t1]
                != ms@[t2] by {
                let ri = pre.room_idx(room_id@);
                pre.lemma_room_idx_is(room_id@, ri);
                assert(pre.rooms@[ri].members@[t1] == ms@[t1]);
                assert(pre.rooms@[ri].members@[t2] == ms@[t2]);
            }
        }
        let ev = new_peer_event(&new_id);
        self.push_event_to_all(&ms, &ev);
        proof {
            assert(!ms@.contains(new_id)) by {
                if ms@.contains(new_id) {
                    let t = choose|t: int| 0 <= t < ms@.len() && ms@[t] == new_id;
                    assert(mid.has_peer(ms@[t]));
                }
            }
            assert(self.peer_events(new_id) == mid.peer_events(new_id));
            assert forall|p: PeerId|
                p != new_id && pre.has_peer(p) implies #[trigger] self.peer_events(p) == (
            if pre.member_of(room_id@, p) {
                pre.peer_events(p).push(new_peer_text(new_id.0))
            } else {
                pre.peer_events(p)
            }) by {
                assert(mid.has_peer(p));
                assert(mid.peer_room(p) == pre.peer_room(p));
                assert(mid.peer_events(p) == pre.peer_events(p));
                if pre.member_of(room_id@, p) {
                    let (r, m) = choose|r: int, m: int|
                        0 <= r < pre.rooms@.len() && pre.rooms@[r].room@ == room_id@ && 0 <= m
                            < pre.rooms@[r].members@.len() && pre.rooms@[r].members@[m] == p;
                    pre.lemma_room_idx_is(room_id@, r);
                    assert(ms@[m] == p);
                    assert(self.peer_events(ms@[m]) == mid.peer_events(ms@[m]).push(ev@));
                } else {
                    assert(!ms@.contains(p)) by {
                        if ms@.contains(p) {
                            if pre.has_room(room_id@) {
                                let t = choose|t: int| 0 <= t < ms@.len() && ms@[t] == p;
                                let ri = pre.room_idx(room_id@);
                                pre.lemma_room_idx_is(room_id@, ri);
                                assert(pre.rooms@[ri].members@[t] == p);
                                assert(pre.member_of(room_id@, p));
                            }
                        }
                    }
                }
            }
            assert(join_spec(pre, *self, room_id@, new_id, event_texts(events@)));
        }
        events
    }

    /// Join a room or poll for events.
    ///
    /// With no identifier, or an identifier no registered peer carries,
    /// this is a new join: a fresh peer is registered in `room_id` and
    /// its initial events are returned. With the identifier of a
    /// registered peer it is a poll: the peer's pending queue is drained
    /// and returned, and the room argument is not consulted.
    pub fn join_or_poll(&mut self, room_id: RoomId, peer_id: Option<PeerId>) -> (r: (
        PeerId,
        Vec<String>,
    ))
        requires
            old(self).wf(),
        ensures
            final(self).wf(),
            match peer_id {
                Some(id) => if old(self).has_peer(id) {
                    poll_spec(*old(self), *final(self), id, r.0, event_texts(r.1@))
                } else {
                    join_spec(*old(self), *final(self), room_id@, r.0, event_texts(r.1@))
                },
                None => join_spec(*old(self), *final(self), room_id@, r.0, event_texts(r.1@)),
            },
    {
        let ghost pre = *self;
        match peer_id {
            Some(id) => {
                match self.find_peer(id) {
                    Some(i) => {
                        proof {
                            pre.lemma_peer_idx_is(id, i as int);
                        }
                        let mut entry = self.peers.remove(i);
                        let mut drained: Vec<String> = Vec::new();
                        core::mem::swap(&mut entry.events, &mut drained);
                        let ghost entry2 = entry;
                        self.peers.insert(i, entry);
                        proof {
                            assert(self.peers@ =~= pre.peers@.update(i as int, entry2));
                            assert forall|j: int|
                                0 <= j < pre.peers@.len() implies #[trigger] entry_same_identity(
                                pre,
                                *self,
                                j,
                            ) by {
                                if j != i as int {
                                    assert(self.peers@[j] == pre.peers@[j]);
                                }
                            }
                            lemma_events_only_update(pre, *self);
                            self.lemma_peer_idx_is(id, i as int);
                            assert(event_texts(Seq::<String>::empty())
                                =~= Seq::<Seq<char>>::empty());
                            assert(poll_spec(pre, *self, id, id, event_texts(drained@)));
                        }
                        (id, drained)
                    },
                    None => {
                        let nid = self.mint_fresh_id();
                        let events = self.join_room(room_id, nid);
                        (nid, events)
                    },
                }
            },
            None => {
                let nid = self.mint_fresh_id();
                let events = self.join_room(room_id, nid);
                (nid, events)
            },
        }
    }

    /// Remove a peer from the server: idempotent removal.
    ///
    /// An unknown identifier is a silent no-op. A registered peer leaves
    /// the peer registry (its undelivered queue is discarded, never
    /// handed to anyone) and the member set of its room, and every
    /// remaining member of that room has one "peer left" event appended
    /// to its queue. No other peer or room changes.
    pub fn remove_peer(&mut self, peer_id: &PeerId)
        requires
            old(self).wf(),
        ensures
            final(self).wf(),
            !final(self).has_peer(*peer_id),
            !old(self).has_peer(*peer_id) ==> *final(self) == *old(self),
            forall|p: PeerId|
                p != *peer_id ==> (#[trigger] final(self).has_peer(p) <==> old(self).has_peer(p)),
            forall|p: PeerId|
                p != *peer_id && old(self).has_peer(p) ==> #[trigger] final(self).peer_room(p)
                    == old(self).peer_room(p),
            old(self).has_peer(*peer_id) ==> (exists|t: int|
                0 <= t < old(self).room_members(old(self).peer_room(*peer_id)).len()
                    && #[trigger] old(self).room_members(old(self).peer_room(*peer_id))[t]
                    == *peer_id && final(self).room_members(old(self).peer_room(*peer_id)) == old(
                    self,
                ).room_members(old(self).peer_room(*peer_id)).remove(t)),
            old(self).has_peer(*peer_id) ==> forall|room: Seq<char>|
                room != old(self).peer_room(*peer_id) ==> #[trigger] final(self).room_members(room)
                    == old(self).room_members(room),
            old(self).has_peer(*peer_id) ==> forall|p: PeerId|
                p != *peer_id && old(self).has_peer(p) ==> #[trigger] final(self).peer_events(p)
                    == (if old(self).member_of(old(self).peer_room(*peer_id), p) {
                    old(self).peer_events(p).push(peer_left_text(peer_id.0))
                } else {
                    old(self).peer_events(p)
                }),
    {
        let ghost pre = *self;
        match self.find_peer(*peer_id) {
            None => {},
            Some(pi) => {
                proof {
                    pre.lemma_peer_idx_is(*peer_id, pi as int);
                    assert(pre.member_of(pre.peers@[pi as int].room@, pre.peers@[pi as int].id));
                }
                let ghost room = pre.peers@[pi as int].room@;
                let ghost (wr, wm) = choose|r: int, m: int|
                    0 <= r < pre.rooms@.len() && pre.rooms@[r].room@ == room && 0 <= m
                        < pre.rooms@[r].members@.len() && pre.rooms@[r].members@[m]
                        == pre.peers@[pi as int].id;
                let rio = self.find_room(&self.peers[pi].room);
                let ri = match rio {
                    Some(ri) => ri,
                    None => {
                        proof {
                            assert(false);
                        }
                        0
                    },
                };
                proof {
                    if wr < ri as int {
                        assert(pre.rooms@[wr].room@ != pre.rooms@[ri as int].room@);
                    }
                    if (ri as int) < wr {
                        assert(pre.rooms@[ri as int].room@ != pre.rooms@[wr].room@);
                    }
                }
                let mio = find_member(&self.rooms[ri].members, *peer_id);
                let mi = match mio {
                    Some(mi) => mi,
                    None => {
                        proof {
                            assert(pre.rooms@[ri as int].members@[wm] == *peer_id);
                        }
                        0
                    },
                };
                let _ = self.peers.remove(pi);
                let mut re = self.rooms.remove(ri);
                let _ = re.members.remove(mi);
                let remaining = copy_members(&re.members);
                let ghost re2 = re;
                self.rooms.insert(ri, re);
                proof {
                    assert(self.rooms@ =~= pre.rooms@.update(ri as int, re2));
                    lemma_detach(pre, *self, pi as int, ri as int, mi as int);
                    pre.lemma_room_idx_is(room, ri as int);
                    assert forall|t: int|
                        0 <= t < remaining@.len() implies self.has_peer(
                        #[trigger] remaining@[t],
                    ) by {
                        assert(self.member_entry_ok(ri as int, t));
                        let p = choose|p: int|
                            0 <= p < self.peers@.len() && self.peers@[p].id
                                == self.rooms@[ri as int].members@[t] && self.peers@[p].room@
                                == self.rooms@[ri as int].room@;
                        assert(self.peers@[p].id == remaining@[t]);
                    }
                    assert forall|t1: int, t2: int|
                        0 <= t1 < t2 < remaining@.len() implies remaining@[t1]
                        != remaining@[t2] by {
                        assert(self.rooms@[ri as int].members@[t1] == remaining@[t1]);
                        assert(self.rooms@[ri as int].members@[t2] == remaining@[t2]);
                    }
                }
                let ghost mid = *self;
                let ev = peer_left_event(peer_id);
                self.push_event_to_all(&remaining, &ev);
                proof {
                    let ms = pre.room_members(room);
                    assert(ms == pre.rooms@[ri as int].members@);
                    assert(ms[mi as int] == *peer_id);
                    assert(self.room_members(room) == ms.remove(mi as int));
                    assert forall|p: PeerId|
                        p != *peer_id && pre.has_peer(p) implies #[trigger] self.peer_events(p)
                        == (if pre.member_of(room, p) {
                        pre.peer_events(p).push(peer_left_text(peer_id.0))
                    } else {
                        pre.peer_events(p)
                    }) by {
                        assert(mid.has_peer(p));
                        assert(mid.peer_room(p) == pre.peer_room(p));
                        assert(mid.peer_events(p) == pre.peer_events(p));
                        if pre.member_of(room, p) {
                            let (r, m) = choose|r: int, m: int|
                                0 <= r < pre.rooms@.len() && pre.rooms@[r].room@ == room && 0 <= m
                                    < pre.rooms@[r].members@.len() && pre.rooms@[r].members@[m]
                                    == p;
                            assert(r == ri as int) by {
                                if r < ri as int {
                                    assert(pre.rooms@[r].room@ != pre.rooms@[ri as int].room@);
                                }
                                if (ri as int) < r {
                                    assert(pre.rooms@[ri as int].room@ != pre.rooms@[r].room@);
                                }
                            }
                            assert(m != mi as int);
                            let m2: int = if m < mi as int {
                                m
                            } else {
                                m - 1
                            };
                            assert(remaining@[m2] == ms[m]);
                            assert(self.peer_events(remaining@[m2]) == mid.peer_events(
                                remaining@[m2],
                            ).push(ev@));
                        } else {
                            assert(!remaining@.contains(p)) by {
                                if remaining@.contains(p) {
                                    let t = choose|t: int|
                                        0 <= t < remaining@.len() && remaining@[t] == p;
                                    let m: int = if t < mi as int {
                                        t
                                    } else {
                                        t + 1
                                    };
                                    assert(pre.rooms@[ri as int].members@[m] == p);
                                    assert(pre.member_of(room, p));
                                }
                            }
                        }
                    }
                }
            },
        }
    }

    /// Return the members of a room, in registry order; an unknown room
    /// yields an empty vector.
    pub fn get_room_peers(&self, room_id: &RoomId) -> (r: Vec<PeerId>)
        requires
            self.wf(),
        ensures
            r@ == self.room_members(room_id@),
    {
        match self.find_room(room_id) {
            Some(ri) => {
                proof {
                    self.lemma_room_idx_is(room_id@, ri as int);
                }
                copy_members(&self.rooms[ri].members)
            },
            None => Vec::new(),
        }
    }
}

/// One engine step only appends to the pending queue of peer `p`: the
/// queue before the step is a prefix of the queue after it. The contracts
/// of `join_or_poll`, `queue_event` and `remove_peer` establish this for
/// every peer whose queue the step does not drain or discard.
pub open spec fn queue_extended(pre: ServerState, post: ServerState, p: PeerId) -> bool {
    pre.peer_events(p).is_prefix_of(post.peer_events(p))
}

/// A step that appends one event to the queue of `p` extends it.
pub proof fn lemma_queue_push_extended(
    pre: ServerState,
    post: ServerState,
    p: PeerId,
    e: Seq<char>,
)
    requires
        post.peer_events(p) == pre.peer_events(p).push(e),
    ensures
        queue_extended(pre, post, p),
{
    let a = pre.peer_events(p);
    assert(a =~= a.push(e).subrange(0, a.len() as int));
}

/// A step that leaves the queue of `p` untouched extends it (trivially).
pub proof fn lemma_queue_same_extended(pre: ServerState, post: ServerState, p: PeerId)
    requires
        post.peer_events(p) == pre.peer_events(p),
    ensures
        queue_extended(pre, post, p),
{
    let a = pre.peer_events(p);
    assert(a =~= a.subrange(0, a.len() as int));
}

/// The events appended to the queue of `p` over a run of states: for each
/// step, whatever the later state holds beyond the earlier state's
/// length, concatenated in step order.
pub open spec fn appended_events(states: Seq<ServerState>, p: PeerId) -> Seq<Seq<char>>
    decreases states.len(),
{
    if states.len() <= 1 {
        Seq::empty()
    } else {
        appended_events(states.drop_last(), p) + states[states.len() - 1].peer_events(p).skip(
            states[states.len() - 2].peer_events(p).len() as int,
        )
    }
}

/// Nothing is lost and nothing repeated between drains: starting from a
/// drained (empty) queue, a run of steps that only append leaves the
/// queue holding exactly the events appended, in the order appended. By
/// `poll_spec`, the next poll then returns each of them exactly once.
pub proof fn lemma_drained_queue_accumulates(states: Seq<ServerState>, p: PeerId)
    requires
        states.len() >= 1,
        states[0].peer_events(p) == Seq::<Seq<char>>::empty(),
        forall|n: int|
            0 <= n < states.len() - 1 ==> #[trigger] queue_extended(states[n], states[n + 1], p),
    ensures
        states[states.len() - 1].peer_events(p) == appended_events(states, p),
    decreases states.len(),
{
    let last = states.len() - 1;
    if states.len() == 1 {
        assert(appended_events(states, p) =~= states[0].peer_events(p));
    } else {
        let prefix = states.drop_last();
        assert forall|n: int|
            0 <= n < prefix.len() - 1 implies #[trigger] queue_extended(
            prefix[n],
            prefix[n + 1],
            p,
        ) by {
            assert(prefix[n] == states[n] && prefix[n + 1] == states[n + 1]);
            assert(queue_extended(states[n], states[n + 1], p));
        }
        lemma_drained_queue_accumulates(prefix, p);
        assert(queue_extended(states[last - 1], states[last - 1 + 1], p));
        let a = states[last - 1].peer_events(p);
        let c = states[last].peer_events(p);
        assert(a =~= c.subrange(0, a.len() as int));
        assert(c =~= a + c.skip(a.len() as int)) by {
            assert forall|k: int| 0 <= k < c.len() implies c[k] == (a + c.skip(
                a.len() as int,
            ))[k] by {
                if k < a.len() {
                    assert(a[k] == c.subrange(0, a.len() as int)[k]);
                }
            }
        }
        assert(prefix[prefix.len() - 1] == states[last - 1]);
        assert(appended_events(states, p) == appended_events(prefix, p) + c.skip(a.len() as int));
    }
}

/// Exactly-once, in-order delivery. Across any run of steps that only
/// append to the queue of peer `p`, every pending event keeps its
/// position: whatever stands at position `k` at any point still stands at
/// position `k` when the queue is finally drained. Since a poll returns
/// the whole queue in order and leaves it empty (`poll_spec`), each
/// appended event is returned by exactly the first poll after it, exactly
/// once, in the order appended.
pub proof fn lemma_queue_prefix_chain(states: Seq<ServerState>, p: PeerId)
    requires
        states.len() >= 1,
        forall|n: int|
            0 <= n < states.len() - 1 ==> #[trigger] queue_extended(states[n], states[n + 1], p),
    ensures
        forall|n: int|
            0 <= n < states.len() ==> #[trigger] queue_extended(
                states[n],
                states[states.len() - 1],
                p,
            ),
        forall|n: int, k: int|
            0 <= n < states.len() && 0 <= k < states[n].peer_events(p).len() ==> states[states.len()
                - 1].peer_events(p)[k] == #[trigger] states[n].peer_events(p)[k],
    decreases states.len(),
{
    let last = states.len() - 1;
    if states.len() == 1 {
        assert(states[0].peer_events(p) =~= states[0].peer_events(p).subrange(
            0,
            states[0].peer_events(p).len() as int,
        ));
        assert(queue_extended(states[0], states[last], p));
    } else {
        let prefix = states.drop_last();
        assert forall|n: int|
            0 <= n < prefix.len() - 1 implies #[trigger] queue_extended(
            prefix[n],
            prefix[n + 1],
            p,
        ) by {
            assert(prefix[n] == states[n] && prefix[n + 1] == states[n + 1]);
            assert(queue_extended(states[n], states[n + 1], p));
        }
        lemma_queue_prefix_chain(prefix, p);
        assert(queue_extended(states[last - 1], states[last - 1 + 1], p));
        assert(queue_extended(states[last - 1], states[last], p));
        assert forall|n: int| 0 <= n < states.len() implies #[trigger] queue_extended(
            states[n],
            states[last],
            p,
        ) by {
            let c = states[last].peer_events(p);
            if n < last {
                assert(prefix[n] == states[n]);
                assert(queue_extended(prefix[n], prefix[prefix.len() - 1], p));
                assert(prefix[prefix.len() - 1] == states[last - 1]);
                let a = states[n].peer_events(p);
                let b = states[last - 1].peer_events(p);
                assert forall|k: int| 0 <= k < a.len() implies a[k] == c[k] by {
                    assert(a[k] == b.subrange(0, a.len() as int)[k]);
                    assert(b[k] == c.subrange(0, b.len() as int)[k]);
                }
                assert(a =~= c.subrange(0, a.len() as int));
            } else {
                assert(c =~= c.subrange(0, c.len() as int));
            }
        }
        assert forall|n: int, k: int|
            0 <= n < states.len() && 0 <= k < states[n].peer_events(p).len() implies states[last]
            .peer_events(p)[k] == #[trigger] states[n].peer_events(p)[k] by {
            assert(queue_extended(states[n], states[last], p));
            let a = states[n].peer_events(p);
            let c = states[last].peer_events(p);
            assert(a[k] == c.subrange(0, a.len() as int)[k]);
        }
    }
}

} // verus!
