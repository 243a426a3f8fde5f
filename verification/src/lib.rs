//! A token-ring coordination primitive: `N` peers arranged in a logical ring
//! circulate a single token ("hot potato"), bootstrapped by a rendezvous
//! coordinator that admits exactly `N` peers, releases them simultaneously,
//! and designates exactly one initial token holder.
//!
//! This crate holds the verified core: the line-delimited frame codec, the
//! peer's ring-circulation state machine, and the coordinator's barrier
//! bootstrap. The networking that drives these state machines lives outside.

pub mod codec;
pub mod error;
pub mod message;
pub mod peer;
pub mod ring;
pub mod server;

pub use message::HotPotato;
pub use message::HotPotatoState;
pub use message::StartFlag;
