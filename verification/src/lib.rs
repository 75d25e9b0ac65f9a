//! A signaling relay for peer-to-peer connection establishment.
//!
//! Clients gather in named rooms, see who else is present, and exchange
//! addressed session-negotiation messages (offers, answers, connectivity
//! candidates). The heart of the library is the per-room relay: a membership
//! roster whose mutations are serialized through a single command loop, with
//! addressed messages routed point-to-point and membership changes fanned out
//! to every member as a full snapshot.

pub mod codec;
pub mod envelope;
pub mod room;
pub mod session;
pub mod user;

pub use user::User;
