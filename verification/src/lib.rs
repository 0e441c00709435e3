//! A real-time state-synchronization server core: a shared world of
//! celestial bodies and participants, a verified binary codec for its
//! snapshots, a registry that keeps connections and participants in
//! lockstep, a broadcast hub that fans snapshots out to subscribers, and
//! the per-connection session state machine.
//!
//! The transport itself (sockets, frames, the async loop) lives outside
//! this crate; everything that decides or computes is here, with its
//! behaviour stated in contracts and proved.

pub mod codec;
pub mod hub;
pub mod session;
pub mod state;
pub mod world;
