//! A local message relay: sessions, identity assignment, dual-channel
//! fan-out (broadcast and targeted send), and the envelope protocol,
//! together with a small unified-diff patch engine.

pub mod envelope;
pub mod patch;
pub mod server;
