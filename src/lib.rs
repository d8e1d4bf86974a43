//! Data-access logic for a chat application: users, rooms and the messages
//! posted in them. The store itself is reached by the caller; this crate
//! decides what to read, what to write and what to hand back.

pub mod models;
pub mod participants;
pub mod ids;
pub mod db;
