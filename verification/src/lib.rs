//! Core of a No-Limit Texas Hold'em server: the card model and hand
//! evaluator, the wire-message codec and framing, per-seat chip accounting,
//! and the round state machine. Networking and scheduling live outside the
//! library and drive it through plain values.

pub mod cards;
pub mod framing;
pub mod game;
pub mod messages;
pub mod player;
