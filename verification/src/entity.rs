//! Persistent data model of the game server: one record type per stored
//! table, held here as plain in-memory values.  The storage engine itself
//! stays outside the crate; sessions work on snapshots of these records.

pub mod game;
pub mod player;
pub mod turn;
pub mod user;
