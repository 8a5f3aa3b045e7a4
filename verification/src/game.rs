//! Game-level helpers of the protocol layer.

use vstd::prelude::*;

pub use crate::entity::game::world::World;

verus! {

/// Tracks, for one step, which players' data has come in and which players
/// have been sent the step's outcome.
#[derive(Debug)]
pub struct TransferWatch {
    pub received: Vec<u32>,
    pub sent: Vec<u32>,
}

impl TransferWatch {
    /// The step's data reached everyone it was due to: something came in,
    /// and as many sends as receipts went out.
    pub fn is_completed(&self) -> (r: bool)
        ensures
            r == (self.received@.len() == self.sent@.len() && self.received@.len() > 0),
    {
        self.received.len() == self.sent.len() && !self.received.is_empty()
    }

    /// Every player's data is in, but not everyone has been answered yet:
    /// the step is in mid-delivery.
    pub fn is_active_sending(&self, total_players: usize) -> (r: bool)
        ensures
            r == (self.received@.len() == total_players && self.received@.len()
                != self.sent@.len()),
    {
        self.received.len() == total_players && self.received.len() != self.sent.len()
    }

    /// A watch with nothing received and nothing sent.
    pub fn new() -> (r: Self)
        ensures
            r.received@.len() == 0,
            r.sent@.len() == 0,
    {
        TransferWatch { received: Vec::with_capacity(5), sent: Vec::with_capacity(5) }
    }
}

impl Clone for TransferWatch {
    fn clone(&self) -> (r: Self)
        ensures
            r.received@ == self.received@,
            r.sent@ == self.sent@,
    {
        let mut received: Vec<u32> = Vec::new();
        let mut sent: Vec<u32> = Vec::new();
        let mut i: usize = 0;
        while i < self.received.len()
            invariant
                0 <= i <= self.received@.len(),
                received@ == self.received@.take(i as int),
            decreases self.received@.len() - i,
        {
            received.push(self.received[i]);
            proof {
                assert(self.received@.take(i + 1) =~= self.received@.take(i as int).push(
                    self.received@[i as int],
                ));
            }
            i = i + 1;
        }
        let mut i: usize = 0;
        while i < self.sent.len()
            invariant
                0 <= i <= self.sent@.len(),
                sent@ == self.sent@.take(i as int),
            decreases self.sent@.len() - i,
        {
            sent.push(self.sent[i]);
            proof {
                assert(self.sent@.take(i + 1) =~= self.sent@.take(i as int).push(
                    self.sent@[i as int],
                ));
            }
            i = i + 1;
        }
        proof {
            assert(self.received@.take(self.received@.len() as int) =~= self.received@);
            assert(self.sent@.take(self.sent@.len() as int) =~= self.sent@);
        }
        TransferWatch { received, sent }
    }
}

impl Default for TransferWatch {
    fn default() -> (r: Self)
        ensures
            r.received@.len() == 0,
            r.sent@.len() == 0,
    {
        TransferWatch::new()
    }
}

} // verus!
