//! Rendezvous and signaling-relay core for peer-to-peer applications.
//!
//! Peers join named rooms, accumulate pending events in per-peer queues,
//! and exchange opaque signaling payloads. The engine is a state machine
//! over a full state snapshot: every operation mutates the snapshot in
//! memory and reports a definitive outcome. Persistence and the HTTP
//! front end live outside this library.

pub mod error;
pub mod events;
pub mod state;

pub use error::SignalingError;
pub use state::PeerId;
pub use state::RoomId;
pub use state::ServerState;
