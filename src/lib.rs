//! Presence and broadcast core of a live buzzer game: rooms of host
//! subscribers and player connections, kept in one registry.

pub mod decode;
pub mod event;
pub mod presence;
pub mod registry;
pub mod room;
pub mod slots;
pub mod video;
