//! One player's stored move record for one game step.

use vstd::prelude::*;

verus! {

/// One row per (player slot, step) pair.  The step-1 row appears when the
/// player joins; `seeds` stays `None` until the move for that step arrives.
#[derive(Debug, PartialEq, Eq)]
pub struct Model {
    pub id: u32,
    pub game_id: u32,
    pub user_id: u32,
    /// 0-based player slot, assigned at join time in join order.
    pub player_number: u32,
    /// Step this record belongs to; steps start at 1.
    pub step_number: u32,
    /// Whether the player has crossed the finish line.
    pub is_finished: bool,
    pub rank: u32,
    pub move_time: u32,
    pub move_steps: u32,
    pub bottles_cnt: u32,
    pub total_seeds_cnt: u32,
    pub arcanes_cnt: u32,
    pub destroys_cnt: u32,
    pub user_seeds_cnt: u32,
    /// The opaque move-data blob; `None` means the move for this step has
    /// not been submitted yet.
    pub seeds: Option<String>,
    pub prop_pers: u32,
    pub prop_car: u32,
    pub prop_fwheel: u32,
    pub prop_bwheel: u32,
    /// Whether this player has been told, through a refresh answer, that
    /// this step is complete.
    pub is_received: bool,
}

impl Clone for Model {
    fn clone(&self) -> (r: Self)
        ensures
            r == *self,
    {
        Model {
            id: self.id,
            game_id: self.game_id,
            user_id: self.user_id,
            player_number: self.player_number,
            step_number: self.step_number,
            is_finished: self.is_finished,
            rank: self.rank,
            move_time: self.move_time,
            move_steps: self.move_steps,
            bottles_cnt: self.bottles_cnt,
            total_seeds_cnt: self.total_seeds_cnt,
            arcanes_cnt: self.arcanes_cnt,
            destroys_cnt: self.destroys_cnt,
            user_seeds_cnt: self.user_seeds_cnt,
            seeds: match &self.seeds {
                Some(s) => Some(s.clone()),
                None => None,
            },
            prop_pers: self.prop_pers,
            prop_car: self.prop_car,
            prop_fwheel: self.prop_fwheel,
            prop_bwheel: self.prop_bwheel,
            is_received: self.is_received,
        }
    }
}

} // verus!
