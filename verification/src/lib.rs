//! Server-side core of a turn-based multiplayer racing game that speaks the
//! semicolon-delimited "KDLAB" wire protocol over plain HTTP bodies.
//!
//! The crate covers the two tightly coupled pieces of the server: the wire
//! codec that encodes and decodes protocol packets, and the authoritative
//! game-session state machine that tracks each player's moves across game
//! steps and answers the four client-triggered actions.  Persistence and HTTP
//! plumbing stay outside: a session is built from an already-loaded snapshot
//! of one game and its turn history, and every mutation it decides on is
//! recorded as a pending write for the caller to persist.

pub mod api;
pub mod data;
pub mod entity;
pub mod game;
pub mod manager;
pub mod text;
