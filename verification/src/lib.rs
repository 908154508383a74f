//! Coordination core for small-group, real-time debate sessions.
//!
//! A session (a debate) holds a bounded set of participants who must find
//! each other and exchange connection-setup messages before talking
//! directly. The [`registry`] owns the sessions and enforces admission and
//! capacity; the [`hub`] owns the live signaling routes and relays setup
//! envelopes between exactly the participants of one session. Both are
//! specified over mathematical views — maps of sessions and participants,
//! sequences of routes — and every operation is verified against them.

pub mod errors;
pub mod hub;
pub mod registry;
pub mod session;
pub mod store;
pub mod user;
