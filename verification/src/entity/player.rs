//! A user's per-game customization record.

use vstd::prelude::*;

verus! {

/// One row per user and game, holding the vehicle customization chosen for
/// that game.
#[derive(Debug, Clone, Copy, PartialEq, Eq, Structural)]
pub struct Model {
    pub id: u32,
    pub user_id: u32,
    pub game_id: u32,
    pub pers_id: u32,
    pub car_id: u32,
    pub fwheel_id: u32,
    pub bwheel_id: u32,
}

} // verus!
