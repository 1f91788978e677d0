//! Real-time backend core for a multiplayer game server: connection sessions,
//! rooms that buffer membership and state events, a process-wide room
//! registry, and the fixed-rate tick driver that resolves buffered events and
//! broadcasts each room's state to its members.

pub mod auth;
pub mod net;
pub mod protocol;
pub mod session;
pub mod room;
pub mod registry;
pub mod game;
