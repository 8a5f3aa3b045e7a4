//! The authoritative game-session state machine.
//!
//! A [`GameManager`] is built from an already-loaded snapshot of one game's
//! configuration and its full turn history.  Its operations decide what step
//! the game is on, validate and record the players' submitted moves, and
//! build the answer packets.  Every mutation it decides on is applied to the
//! in-memory snapshot and also recorded as a pending [`TurnWrite`] for the
//! caller to persist; the session itself performs no storage work.

use vstd::prelude::*;

use crate::data::{Packet, PacketType, PacketView, Player, PlayerTurnInfo, PlayerView, TurnInfoView, UrlProperty};
use crate::entity::{game, turn, user};

verus! {

/// One row of the session's snapshot: a turn record joined with the user it
/// belongs to.
pub type TurnRow = (turn::Model, user::Model);

/// The ways a session operation can fail.
#[derive(Debug, Clone, Copy, PartialEq, Eq, Structural)]
pub enum GameManagerError {
    /// No game with this id exists.
    GameNotFound(u32),
    /// The game has not gathered its players yet.
    GameNotActive(u32),
    /// No player slot with this number exists in this game.
    IncorrectPlayerId(u32),
    /// The submitted data does not belong to the step the game is on.
    IncorrectStepNumber,
    /// The submitted step data is incomplete or does not match the records.
    IncorrectIncomeSteps,
    /// A submitted step entry has no matching player descriptor.
    IncorrectIncomePlayers,
    /// The storage layer failed; raised by the persistence boundary, never
    /// by the session itself.
    StorageError,
}

/// The lifecycle of a game as the session sees it.
#[derive(Debug, Clone, Copy, PartialEq, Eq, Structural)]
pub enum GameStatus {
    Open,
    Started,
    Finished,
    Cancelled,
}

/// One pending storage write: a new turn row, or an update of an existing
/// row identified by its (game, player slot, step) key.
#[derive(Debug, PartialEq, Eq)]
pub enum TurnWrite {
    Insert(turn::Model),
    Update(turn::Model),
}

impl Clone for TurnWrite {
    fn clone(&self) -> (r: Self)
        ensures
            r == *self,
    {
        match self {
            TurnWrite::Insert(t) => TurnWrite::Insert(t.clone()),
            TurnWrite::Update(t) => TurnWrite::Update(t.clone()),
        }
    }
}

// ---------------------------------------------------------------------------
// The session's spec model
// ---------------------------------------------------------------------------

/// Open while fewer slots are filled than the game asks for.
pub open spec fn status_spec(g: game::Model, turns: Seq<TurnRow>) -> GameStatus {
    if g.players_cnt <= turns.len() {
        GameStatus::Started
    } else {
        GameStatus::Open
    }
}

/// Step numbers start at one.
pub open spec fn steps_positive(turns: Seq<TurnRow>) -> bool {
    forall|i: int| 0 <= i < turns.len() ==> (#[trigger] turns[i].0.step_number) >= 1
}

/// Step numbers leave room for the next step.
pub open spec fn steps_bounded(turns: Seq<TurnRow>) -> bool {
    forall|i: int| 0 <= i < turns.len() ==> (#[trigger] turns[i].0.step_number) < u32::MAX
}

/// Some slot with this number has a record.
pub open spec fn has_player(turns: Seq<TurnRow>, pid: u32) -> bool {
    exists|i: int| 0 <= i < turns.len() && (#[trigger] turns[i].0.player_number) == pid
}

/// Some record still lacks its move data.
pub open spec fn any_missing_seeds(turns: Seq<TurnRow>) -> bool {
    exists|i: int| 0 <= i < turns.len() && (#[trigger] turns[i].0.seeds) is None
}

/// The highest step number on record; one for an empty history.
pub open spec fn max_step_of(turns: Seq<TurnRow>) -> u32
    decreases turns.len(),
{
    if turns.len() == 0 {
        1
    } else if turns.len() == 1 {
        turns[0].0.step_number
    } else {
        let m = max_step_of(turns.drop_last());
        if turns.last().0.step_number > m {
            turns.last().0.step_number
        } else {
            m
        }
    }
}

/// Membership of a row in one step.
pub open spec fn row_at(s: u32) -> spec_fn(TurnRow) -> bool {
    |r: TurnRow| r.0.step_number == s
}

/// How many records belong to step `s`.
pub open spec fn count_at(turns: Seq<TurnRow>, s: u32) -> nat {
    turns.filter(row_at(s)).len()
}

/// The smallest `step - 1` among records still lacking move data, or the
/// default where none lacks any.
pub open spec fn min_unfinished(turns: Seq<TurnRow>, dflt: int) -> int
    decreases turns.len(),
{
    if turns.len() == 0 {
        dflt
    } else {
        let rest = min_unfinished(turns.drop_last(), dflt);
        let r = turns.last();
        if r.0.seeds is None && r.0.step_number - 1 < rest {
            r.0.step_number - 1
        } else {
            rest
        }
    }
}

/// The number of fully completed steps.
///
/// Zero while the game is open.  Once started with exactly as many records
/// as players, the answer is whether everyone has moved on step one.  After
/// that: while the highest step's bucket is still being filled, the step
/// before it is the last complete one; otherwise the earliest record still
/// missing its move gates the count.
pub open spec fn move_cnt_spec(g: game::Model, turns: Seq<TurnRow>) -> int {
    if status_spec(g, turns) == GameStatus::Open {
        0
    } else if turns.len() == g.players_cnt {
        if any_missing_seeds(turns) {
            0
        } else {
            1
        }
    } else {
        let m = max_step_of(turns);
        if count_at(turns, m) < g.players_cnt {
            m - 1
        } else {
            min_unfinished(turns, m as int)
        }
    }
}

// ---------------------------------------------------------------------------
// Bounds of the spec model
// ---------------------------------------------------------------------------

pub proof fn lemma_max_step_ge_one(turns: Seq<TurnRow>)
    requires
        steps_positive(turns),
    ensures
        max_step_of(turns) >= 1,
    decreases turns.len(),
{
    if turns.len() > 1 {
        assert(steps_positive(turns.drop_last())) by {
            assert(forall|i: int|
                0 <= i < turns.drop_last().len() ==> #[trigger] turns.drop_last()[i] == turns[i]);
        }
        lemma_max_step_ge_one(turns.drop_last());
    }
}

pub proof fn lemma_max_step_bounded(turns: Seq<TurnRow>)
    requires
        steps_bounded(turns),
    ensures
        max_step_of(turns) < u32::MAX,
    decreases turns.len(),
{
    if turns.len() > 1 {
        assert(steps_bounded(turns.drop_last())) by {
            assert(forall|i: int|
                0 <= i < turns.drop_last().len() ==> #[trigger] turns.drop_last()[i] == turns[i]);
        }
        lemma_max_step_bounded(turns.drop_last());
    }
}

pub proof fn lemma_min_unfinished_bounds(turns: Seq<TurnRow>, dflt: int)
    requires
        steps_positive(turns),
        dflt >= 0,
    ensures
        0 <= min_unfinished(turns, dflt) <= dflt,
    decreases turns.len(),
{
    if turns.len() > 0 {
        assert(steps_positive(turns.drop_last())) by {
            assert(forall|i: int|
                0 <= i < turns.drop_last().len() ==> #[trigger] turns.drop_last()[i] == turns[i]);
        }
        lemma_min_unfinished_bounds(turns.drop_last(), dflt);
        assert(turns.last().0.step_number >= 1);
    }
}

/// The completed-step count never reaches past the highest step on record.
pub proof fn lemma_move_cnt_bounds(g: game::Model, turns: Seq<TurnRow>)
    requires
        steps_positive(turns),
    ensures
        0 <= move_cnt_spec(g, turns) <= max_step_of(turns) as int,
{
    lemma_max_step_ge_one(turns);
    if status_spec(g, turns) == GameStatus::Open {
    } else if turns.len() == g.players_cnt {
    } else {
        let m = max_step_of(turns);
        if count_at(turns, m) < g.players_cnt {
        } else {
            lemma_min_unfinished_bounds(turns, m as int);
        }
    }
}

// ---------------------------------------------------------------------------
// The session
// ---------------------------------------------------------------------------

/// One loaded game with its turn history, the player the current request
/// runs under, and the storage writes decided on so far.
#[derive(Debug)]
pub struct GameManager {
    pub game: game::Model,
    pub turns: Vec<TurnRow>,
    /// The player slot the session is bound to.
    pub active_pid: Option<u32>,
    /// The storage writes decided on so far, oldest first.
    pub writes: Vec<TurnWrite>,
}

impl GameManager {
    /// The player slot the session is bound to.
    pub open spec fn active(&self) -> Option<u32> {
        self.active_pid
    }

    /// The storage writes decided on and not yet handed out.
    pub open spec fn pending(&self) -> Seq<TurnWrite> {
        self.writes@
    }

    /// A session over a loaded snapshot, bound to no player yet.
    pub fn new(game: game::Model, turns: Vec<TurnRow>) -> (r: Self)
        ensures
            r.game == game,
            r.turns == turns,
            r.active() is None,
            r.pending() == Seq::<TurnWrite>::empty(),
    {
        GameManager { game, turns, active_pid: None, writes: Vec::new() }
    }

    /// Hands out the pending storage writes, leaving none behind.
    pub fn take_writes(&mut self) -> (r: Vec<TurnWrite>)
        ensures
            r@ == old(self).pending(),
            final(self).pending() == Seq::<TurnWrite>::empty(),
            final(self).game == old(self).game,
            final(self).turns == old(self).turns,
            final(self).active() == old(self).active(),
    {
        let mut w: Vec<TurnWrite> = Vec::new();
        core::mem::swap(&mut w, &mut self.writes);
        w
    }

    /// Open until every slot is filled, then started; never the reverse.
    pub fn status(&self) -> (r: GameStatus)
        ensures
            r == status_spec(self.game, self.turns@),
    {
        if self.game.players_cnt as usize <= self.turns.len() {
            GameStatus::Started
        } else {
            GameStatus::Open
        }
    }

    /// Binds the player slot the following operations run under; refused
    /// for a slot without any record in this game.
    #[verifier::loop_isolation(false)]
    pub fn set_pid(&mut self, player_id: u32) -> (r: Result<(), GameManagerError>)
        ensures
            final(self).game == old(self).game,
            final(self).turns == old(self).turns,
            final(self).writes == old(self).writes,
            match r {
                Ok(()) => has_player(old(self).turns@, player_id) && final(self).active() == Some(
                    player_id,
                ),
                Err(e) => !has_player(old(self).turns@, player_id) && e
                    == GameManagerError::IncorrectPlayerId(player_id) && final(self).active()
                    == old(self).active(),
            },
    {
        let mut i: usize = 0;
        while i < self.turns.len()
            invariant
                0 <= i <= self.turns@.len(),
                *self == *old(self),
                forall|j: int| 0 <= j < i ==> (#[trigger] self.turns@[j].0.player_number)
                    != player_id,
            decreases self.turns@.len() - i,
        {
            if self.turns[i].0.player_number == player_id {
                self.active_pid = Some(player_id);
                return Ok(());
            }
            i = i + 1;
        }
        Err(GameManagerError::IncorrectPlayerId(player_id))
    }

    /// As `set_pid`, but consuming the session: the unchanged session comes
    /// back as the error.
    pub fn with_pid(self, player_id: u32) -> (r: Result<Self, Self>)
        ensures
            match r {
                Ok(m) => has_player(self.turns@, player_id) && m.active() == Some(player_id)
                    && m.game == self.game && m.turns == self.turns && m.pending()
                    == self.pending(),
                Err(m) => !has_player(self.turns@, player_id) && m == self,
            },
    {
        let mut m = self;
        match m.set_pid(player_id) {
            Ok(()) => Ok(m),
            Err(_) => Err(m),
        }
    }

    /// The number of fully completed steps.
    #[verifier::loop_isolation(false)]
    pub fn move_cnt(&self) -> (r: u32)
        requires
            steps_positive(self.turns@),
        ensures
            r as int == move_cnt_spec(self.game, self.turns@),
    {
        let ghost tv = self.turns@;
        if self.status() == GameStatus::Open {
            return 0;
        }
        if self.turns.len() == self.game.players_cnt as usize {
            let mut i: usize = 0;
            while i < self.turns.len()
                invariant
                    0 <= i <= tv.len(),
                    tv == self.turns@,
                    forall|j: int| 0 <= j < i ==> (#[trigger] tv[j].0.seeds) is Some,
                decreases tv.len() - i,
            {
                if self.turns[i].0.seeds.is_none() {
                    proof {
                        assert(any_missing_seeds(tv));
                    }
                    return 0;
                }
                i = i + 1;
            }
            proof {
                assert(!any_missing_seeds(tv));
            }
            return 1;
        }
        proof {
            assert(status_spec(self.game, tv) == GameStatus::Started);
            assert(tv.len() > self.game.players_cnt);
            assert(tv.len() >= 1);
        }

        // the highest step on record
        let mut m: u32 = self.turns[0].0.step_number;
        proof {
            assert(tv.take(1).len() == 1);
            assert(tv.take(1)[0] == tv[0]);
            assert(max_step_of(tv.take(1)) == tv[0].0.step_number);
        }
        let mut i: usize = 1;
        while i < self.turns.len()
            invariant
                1 <= i <= tv.len(),
                tv == self.turns@,
                tv.len() >= 1,
                m == max_step_of(tv.take(i as int)),
            decreases tv.len() - i,
        {
            proof {
                assert(tv.take(i + 1).drop_last() =~= tv.take(i as int));
                assert(tv.take(i + 1).last() == tv[i as int]);
            }
            if self.turns[i].0.step_number > m {
                m = self.turns[i].0.step_number;
            }
            i = i + 1;
        }
        proof {
            assert(tv.take(tv.len() as int) =~= tv);
            assert(m == max_step_of(tv));
            lemma_max_step_ge_one(tv);
        }

        // how full the highest step's bucket is
        let mut cnt: usize = 0;
        let mut i: usize = 0;
        while i < self.turns.len()
            invariant
                0 <= i <= tv.len(),
                tv == self.turns@,
                cnt == tv.take(i as int).filter(row_at(m)).len(),
                cnt <= i,
            decreases tv.len() - i,
        {
            proof {
                reveal(Seq::filter);
                assert(tv.take(i + 1).drop_last() =~= tv.take(i as int));
                assert(tv.take(i + 1).last() == tv[i as int]);
                if tv[i as int].0.step_number == m {
                    assert(tv.take(i + 1).filter(row_at(m)) == tv.take(i as int).filter(
                        row_at(m),
                    ).push(tv[i as int]));
                } else {
                    assert(tv.take(i + 1).filter(row_at(m)) == tv.take(i as int).filter(
                        row_at(m),
                    ));
                }
            }
            if self.turns[i].0.step_number == m {
                cnt = cnt + 1;
            }
            i = i + 1;
        }
        proof {
            assert(tv.take(tv.len() as int) =~= tv);
            assert(cnt == count_at(tv, m));
        }
        if cnt < self.game.players_cnt as usize {
            return m - 1;
        }

        // the earliest record still missing its move gates the count
        let mut v: u32 = m;
        let mut i: usize = 0;
        while i < self.turns.len()
            invariant
                0 <= i <= tv.len(),
                tv == self.turns@,
                steps_positive(tv),
                v as int == min_unfinished(tv.take(i as int), m as int),
                v <= m,
            decreases tv.len() - i,
        {
            proof {
                assert(tv.take(i + 1).drop_last() =~= tv.take(i as int));
                assert(tv.take(i + 1).last() == tv[i as int]);
            }
            if self.turns[i].0.seeds.is_none() {
                let w = self.turns[i].0.step_number - 1;
                if w < v {
                    v = w;
                }
            }
            i = i + 1;
        }
        proof {
            assert(tv.take(tv.len() as int) =~= tv);
        }
        v
    }
}

// ---------------------------------------------------------------------------
// Locating entries and records
// ---------------------------------------------------------------------------

/// The first index satisfying the predicate, or -1.
pub open spec fn find_first<A>(s: Seq<A>, pred: spec_fn(A) -> bool) -> int
    decreases s.len(),
{
    if s.len() == 0 {
        -1
    } else {
        let r = find_first(s.drop_last(), pred);
        if r >= 0 {
            r
        } else if pred(s.last()) {
            s.len() - 1
        } else {
            -1
        }
    }
}

/// A step entry of one player for one step.
pub open spec fn step_match(pid: u32, cur: u32) -> spec_fn(PlayerTurnInfo) -> bool {
    |t: PlayerTurnInfo| t.player_id == pid && t.step_number == cur
}

/// A roster entry of one player.
pub open spec fn uid_match(pid: u32) -> spec_fn(Player) -> bool {
    |p: Player| p.uid == pid
}

/// The index of a player's most recent record: the highest step number for
/// that slot, the last such record when several share it.
pub open spec fn latest_for(turns: Seq<TurnRow>, pid: u32) -> int
    decreases turns.len(),
{
    if turns.len() == 0 {
        -1
    } else {
        let r = latest_for(turns.drop_last(), pid);
        if turns.last().0.player_number == pid && (r < 0 || turns[r].0.step_number
            <= turns.last().0.step_number) {
            turns.len() - 1
        } else {
            r
        }
    }
}

pub proof fn lemma_latest_for_props(turns: Seq<TurnRow>, pid: u32)
    ensures
        has_player(turns, pid) <==> latest_for(turns, pid) >= 0,
        latest_for(turns, pid) >= 0 ==> latest_for(turns, pid) < turns.len() && turns[latest_for(
            turns,
            pid,
        )].0.player_number == pid,
    decreases turns.len(),
{
    if turns.len() > 0 {
        lemma_latest_for_props(turns.drop_last(), pid);
        let d = turns.drop_last();
        assert(forall|i: int| 0 <= i < d.len() ==> #[trigger] d[i] == turns[i]);
        if has_player(turns, pid) {
            let w = choose|i: int|
                0 <= i < turns.len() && (#[trigger] turns[i].0.player_number) == pid;
            if w < turns.len() - 1 {
                assert(d[w].0.player_number == pid);
                assert(has_player(d, pid));
            }
        }
        if has_player(d, pid) {
            let w = choose|i: int| 0 <= i < d.len() && (#[trigger] d[i].0.player_number) == pid;
            assert(turns[w].0.player_number == pid);
            assert(has_player(turns, pid));
        }
    }
}

fn find_step_entry_exec(steps: &Vec<PlayerTurnInfo>, pid: u32, cur: u32) -> (r: Option<usize>)
    ensures
        match r {
            Some(k) => k < steps@.len() && find_first(steps@, step_match(pid, cur)) == k,
            None => find_first(steps@, step_match(pid, cur)) == -1,
        },
{
    let ghost sv = steps@;
    let ghost pred = step_match(pid, cur);
    let mut i: usize = 0;
    while i < steps.len()
        invariant
            0 <= i <= sv.len(),
            sv == steps@,
            pred == step_match(pid, cur),
            find_first(sv.take(i as int), pred) == -1,
        decreases sv.len() - i,
    {
        proof {
            assert(sv.take(i + 1).drop_last() =~= sv.take(i as int));
            assert(sv.take(i + 1).last() == sv[i as int]);
        }
        if steps[i].player_id == pid && steps[i].step_number == cur {
            proof {
                assert(pred(sv[i as int]));
                assert(find_first(sv.take(i + 1), pred) == i);
                lemma_find_first_extend(sv, pred, i + 1);
            }
            return Some(i);
        }
        proof {
            assert(!pred(sv[i as int]));
        }
        i = i + 1;
    }
    proof {
        assert(sv.take(sv.len() as int) =~= sv);
    }
    None
}

/// Once found in a prefix, the first match never moves.
proof fn lemma_find_first_extend<A>(s: Seq<A>, pred: spec_fn(A) -> bool, n: int)
    requires
        0 <= n <= s.len(),
        find_first(s.take(n), pred) >= 0,
    ensures
        find_first(s, pred) == find_first(s.take(n), pred),
    decreases s.len() - n,
{
    if n < s.len() {
        assert(s.take(n + 1).drop_last() =~= s.take(n));
        assert(find_first(s.take(n + 1), pred) == find_first(s.take(n), pred));
        lemma_find_first_extend(s, pred, n + 1);
    } else {
        assert(s.take(n) =~= s);
    }
}

fn find_player_exec(players: &Vec<Player>, pid: u32) -> (r: Option<usize>)
    ensures
        match r {
            Some(k) => k < players@.len() && find_first(players@, uid_match(pid)) == k,
            None => find_first(players@, uid_match(pid)) == -1,
        },
{
    let ghost sv = players@;
    let ghost pred = uid_match(pid);
    let mut i: usize = 0;
    while i < players.len()
        invariant
            0 <= i <= sv.len(),
            sv == players@,
            pred == uid_match(pid),
            find_first(sv.take(i as int), pred) == -1,
        decreases sv.len() - i,
    {
        proof {
            assert(sv.take(i + 1).drop_last() =~= sv.take(i as int));
            assert(sv.take(i + 1).last() == sv[i as int]);
        }
        if players[i].uid == pid {
            proof {
                assert(pred(sv[i as int]));
                assert(find_first(sv.take(i + 1), pred) == i);
                lemma_find_first_extend(sv, pred, i + 1);
            }
            return Some(i);
        }
        proof {
            assert(!pred(sv[i as int]));
        }
        i = i + 1;
    }
    proof {
        assert(sv.take(sv.len() as int) =~= sv);
    }
    None
}

fn latest_for_exec(turns: &Vec<TurnRow>, pid: u32) -> (r: Option<usize>)
    ensures
        match r {
            Some(k) => latest_for(turns@, pid) == k,
            None => latest_for(turns@, pid) == -1,
        },
{
    let ghost tv = turns@;
    let mut best: Option<usize> = None;
    let mut i: usize = 0;
    while i < turns.len()
        invariant
            0 <= i <= tv.len(),
            tv == turns@,
            match best {
                Some(k) => latest_for(tv.take(i as int), pid) == k && k < i,
                None => latest_for(tv.take(i as int), pid) == -1,
            },
        decreases tv.len() - i,
    {
        proof {
            assert(tv.take(i + 1).drop_last() =~= tv.take(i as int));
            assert(tv.take(i + 1).last() == tv[i as int]);
            assert(forall|j: int|
                0 <= j < i ==> #[trigger] tv.take(i as int)[j] == tv.take(i + 1)[j]);
        }
        if turns[i].0.player_number == pid {
            let take_it = match best {
                Some(k) => turns[k].0.step_number <= turns[i].0.step_number,
                None => true,
            };
            if take_it {
                best = Some(i);
            }
        }
        i = i + 1;
    }
    proof {
        assert(tv.take(tv.len() as int) =~= tv);
    }
    best
}

// ---------------------------------------------------------------------------
// Recording a player's own move
// ---------------------------------------------------------------------------

/// An empty move blob counts as no move.
pub open spec fn normalized_seeds(s: String) -> Option<String> {
    if s@.len() == 0 {
        None
    } else {
        Some(s)
    }
}

/// The record written for a submitted move: outcome statistics and the move
/// blob from the incoming entry, customization from the incoming roster
/// entry where present.  A fresh record (the base belongs to an earlier
/// step) starts unpersisted, undelivered, and at the current step.
pub open spec fn stepped_turn(
    base: turn::Model,
    inc: PlayerTurnInfo,
    ip: Option<Player>,
    cur: u32,
) -> turn::Model {
    let fresh = base.step_number != cur;
    turn::Model {
        id: if fresh {
            0
        } else {
            base.id
        },
        game_id: base.game_id,
        user_id: base.user_id,
        player_number: base.player_number,
        step_number: cur,
        is_finished: inc.is_finished,
        rank: inc.rank,
        move_time: inc.move_time,
        move_steps: inc.move_steps,
        bottles_cnt: inc.bottles_cnt,
        total_seeds_cnt: inc.total_seeds_cnt,
        arcanes_cnt: inc.arcanes_cnt,
        destroys_cnt: inc.destroys_cnt,
        user_seeds_cnt: inc.user_seeds_cnt,
        seeds: normalized_seeds(inc.seeds),
        prop_pers: match ip {
            Some(q) => q.pers_car_comp_id,
            None => base.prop_pers,
        },
        prop_car: match ip {
            Some(q) => q.front_car_comp_id,
            None => base.prop_car,
        },
        prop_fwheel: match ip {
            Some(q) => q.fwheel_car_comp_id,
            None => base.prop_fwheel,
        },
        prop_bwheel: match ip {
            Some(q) => q.bwheel_car_comp_id,
            None => base.prop_bwheel,
        },
        is_received: if fresh {
            false
        } else {
            base.is_received
        },
    }
}

/// The full effect of recording a move: the new turn history, the storage
/// writes it costs, and the outcome handed to the caller.
///
/// A move is refused before a game starts, and refused as a wrong step
/// unless the packet carries an entry of the bound player for the current
/// step.  A player already having a record at the current step has it
/// updated in place; a player whose latest record is older gets a fresh
/// record appended.
pub open spec fn apply_step_spec(g: game::Model, turns: Seq<TurnRow>, packet: Packet, pid: u32) -> (
    Seq<TurnRow>,
    Seq<TurnWrite>,
    Result<(), GameManagerError>,
) {
    if status_spec(g, turns) != GameStatus::Started {
        (turns, Seq::empty(), Err(GameManagerError::GameNotActive(g.id)))
    } else {
        let cur = (move_cnt_spec(g, turns) + 1) as u32;
        let si = find_first(packet.steps@, step_match(pid, cur));
        if si < 0 {
            (turns, Seq::empty(), Err(GameManagerError::IncorrectStepNumber))
        } else {
            let inc = packet.steps@[si];
            let pj = find_first(packet.players@, uid_match(pid));
            let ip = if pj < 0 {
                None
            } else {
                Some(packet.players@[pj])
            };
            let li = latest_for(turns, pid);
            let base = turns[li].0;
            let newt = stepped_turn(base, inc, ip, cur);
            if base.step_number != cur {
                (
                    turns.push((newt, turns[li].1)),
                    seq![TurnWrite::Insert(newt)],
                    Ok(()),
                )
            } else {
                (
                    turns.update(li, (newt, turns[li].1)),
                    seq![TurnWrite::Update(newt)],
                    Ok(()),
                )
            }
        }
    }
}

impl GameManager {
    /// Records the bound player's own move for the current step
    /// (`OG_SEEDS_PACKET`), as `apply_step_spec` lays it down.
    pub fn apply_step(&mut self, packet: &Packet) -> (r: Result<(), GameManagerError>)
        requires
            old(self).active() is Some,
            has_player(old(self).turns@, old(self).active()->0),
            packet.t_type == PacketType::OG_SEEDS_PACKET,
            steps_positive(old(self).turns@),
            steps_bounded(old(self).turns@),
        ensures
            final(self).game == old(self).game,
            final(self).active() == old(self).active(),
            ({
                let (t2, w, res) = apply_step_spec(
                    old(self).game,
                    old(self).turns@,
                    *packet,
                    old(self).active()->0,
                );
                final(self).turns@ == t2 && final(self).pending() == old(self).pending() + w && r
                    == res
            }),
    {
        let ghost pre = *self;
        let pid = self.active_pid.unwrap();
        if self.status() != GameStatus::Started {
            proof {
                assert(self.pending() =~= pre.pending() + Seq::<TurnWrite>::empty());
            }
            return Err(GameManagerError::GameNotActive(self.game.id));
        }
        let mc = self.move_cnt();
        proof {
            lemma_move_cnt_bounds(self.game, self.turns@);
            lemma_max_step_bounded(self.turns@);
        }
        let cur = mc + 1;
        let si = match find_step_entry_exec(&packet.steps, pid, cur) {
            Some(k) => k,
            None => {
                proof {
                    assert(self.pending() =~= pre.pending() + Seq::<TurnWrite>::empty());
                }
                return Err(GameManagerError::IncorrectStepNumber);
            },
        };
        let pj = find_player_exec(&packet.players, pid);
        proof {
            lemma_latest_for_props(self.turns@, pid);
        }
        // a bound player always has a record
        let li = latest_for_exec(&self.turns, pid).unwrap();
        let inc = &packet.steps[si];
        let fresh = self.turns[li].0.step_number != cur;

        let seeds_val: Option<String> = if inc.seeds.as_str().is_empty() {
            None
        } else {
            Some(inc.seeds.clone())
        };
        let base = &self.turns[li].0;
        let mut newt = turn::Model {
            id: if fresh {
                0
            } else {
                base.id
            },
            game_id: base.game_id,
            user_id: base.user_id,
            player_number: base.player_number,
            step_number: cur,
            is_finished: inc.is_finished,
            rank: inc.rank,
            move_time: inc.move_time,
            move_steps: inc.move_steps,
            bottles_cnt: inc.bottles_cnt,
            total_seeds_cnt: inc.total_seeds_cnt,
            arcanes_cnt: inc.arcanes_cnt,
            destroys_cnt: inc.destroys_cnt,
            user_seeds_cnt: inc.user_seeds_cnt,
            seeds: seeds_val,
            prop_pers: base.prop_pers,
            prop_car: base.prop_car,
            prop_fwheel: base.prop_fwheel,
            prop_bwheel: base.prop_bwheel,
            is_received: if fresh {
                false
            } else {
                base.is_received
            },
        };
        if let Some(pjk) = pj {
            let q = &packet.players[pjk];
            newt.prop_pers = q.pers_car_comp_id;
            newt.prop_car = q.front_car_comp_id;
            newt.prop_fwheel = q.fwheel_car_comp_id;
            newt.prop_bwheel = q.bwheel_car_comp_id;
        }
        proof {
            let ghost ip = if find_first(packet.players@, uid_match(pid)) < 0 {
                None
            } else {
                Some(packet.players@[find_first(packet.players@, uid_match(pid))])
            };
            assert(newt == stepped_turn(self.turns@[li as int].0, packet.steps@[si as int], ip, cur));
        }
        let user_copy = self.turns[li].1.clone();
        if fresh {
            self.writes.push(TurnWrite::Insert(newt.clone()));
            self.turns.push((newt, user_copy));
            proof {
                assert(self.pending() =~= pre.pending() + seq![
                    TurnWrite::Insert(self.turns@.last().0),
                ]);
            }
        } else {
            self.writes.push(TurnWrite::Update(newt.clone()));
            self.turns[li] = (newt, user_copy);
            proof {
                assert(self.pending() =~= pre.pending() + seq![
                    TurnWrite::Update(self.turns@[li as int].0),
                ]);
            }
        }
        Ok(())
    }
}

// ---------------------------------------------------------------------------
// Recording a step's computed results
// ---------------------------------------------------------------------------

/// A step entry of one step, any player.
pub open spec fn entry_at(sr: u32) -> spec_fn(PlayerTurnInfo) -> bool {
    |t: PlayerTurnInfo| t.step_number == sr
}

/// A record after a result report: outcome statistics from the incoming
/// entry, customization from the incoming roster entry; the move blob, its
/// count and the delivery mark stay untouched.
pub open spec fn results_turn(base: turn::Model, inc: PlayerTurnInfo, ip: Player) -> turn::Model {
    turn::Model {
        id: base.id,
        game_id: base.game_id,
        user_id: base.user_id,
        player_number: base.player_number,
        step_number: base.step_number,
        is_finished: inc.is_finished,
        rank: inc.rank,
        move_time: inc.move_time,
        move_steps: inc.move_steps,
        bottles_cnt: inc.bottles_cnt,
        total_seeds_cnt: inc.total_seeds_cnt,
        arcanes_cnt: inc.arcanes_cnt,
        destroys_cnt: inc.destroys_cnt,
        user_seeds_cnt: base.user_seeds_cnt,
        seeds: base.seeds,
        prop_pers: ip.pers_car_comp_id,
        prop_car: ip.front_car_comp_id,
        prop_fwheel: ip.fwheel_car_comp_id,
        prop_bwheel: ip.bwheel_car_comp_id,
        is_received: base.is_received,
    }
}

/// The record-by-record walk of a result report, from index `i` on: every
/// record of the reported step is matched with its incoming entry and roster
/// entry and rewritten.  A missing entry stops the walk with an error, the
/// records already rewritten staying rewritten.
pub open spec fn apply_results_loop(turns: Seq<TurnRow>, packet: Packet, sr: u32, i: int) -> (
    Seq<TurnRow>,
    Seq<TurnWrite>,
    Result<(), GameManagerError>,
)
    decreases turns.len() - i,
{
    if i < 0 || i >= turns.len() {
        (turns, Seq::empty(), Ok(()))
    } else if turns[i].0.step_number != sr {
        apply_results_loop(turns, packet, sr, i + 1)
    } else {
        let slot = turns[i].0.player_number;
        let ti = find_first(packet.steps@, step_match(slot, sr));
        if ti < 0 {
            (turns, Seq::empty(), Err(GameManagerError::IncorrectIncomeSteps))
        } else {
            let pi = find_first(packet.players@, uid_match(slot));
            if pi < 0 {
                (turns, Seq::empty(), Err(GameManagerError::IncorrectIncomePlayers))
            } else {
                let newt = results_turn(turns[i].0, packet.steps@[ti], packet.players@[pi]);
                let rest = apply_results_loop(
                    turns.update(i, (newt, turns[i].1)),
                    packet,
                    sr,
                    i + 1,
                );
                (rest.0, seq![TurnWrite::Update(newt)] + rest.1, rest.2)
            }
        }
    }
}

/// The full effect of a result report (`OG_CONTROL_PACKET`).
///
/// Refused before a game starts.  An empty report (no count, no entries) is
/// a successful no-op.  Only the most recently completed step's results may
/// be recorded, and the report must carry exactly one entry per required
/// player for that step; then every record of that step is rewritten as
/// `apply_results_loop` lays down.
pub open spec fn apply_results_spec(g: game::Model, turns: Seq<TurnRow>, packet: Packet) -> (
    Seq<TurnRow>,
    Seq<TurnWrite>,
    Result<(), GameManagerError>,
) {
    if status_spec(g, turns) != GameStatus::Started {
        (turns, Seq::empty(), Err(GameManagerError::GameNotActive(g.id)))
    } else if packet.move_cnt == 0 && packet.steps@.len() == 0 {
        (turns, Seq::empty(), Ok(()))
    } else if packet.move_cnt as int != move_cnt_spec(g, turns) {
        (turns, Seq::empty(), Err(GameManagerError::IncorrectStepNumber))
    } else if packet.steps@.filter(entry_at(packet.move_cnt)).len() != g.players_cnt {
        (turns, Seq::empty(), Err(GameManagerError::IncorrectIncomeSteps))
    } else {
        apply_results_loop(turns, packet, packet.move_cnt, 0)
    }
}

impl GameManager {
    /// Records a client's computed results for the most recently completed
    /// step (`OG_CONTROL_PACKET`), as `apply_results_spec` lays it down.
    #[verifier::loop_isolation(false)]
    pub fn apply_results(&mut self, packet: &Packet) -> (r: Result<(), GameManagerError>)
        requires
            old(self).active() is Some,
            packet.t_type == PacketType::OG_CONTROL_PACKET,
            packet.move_cnt < u32::MAX,
            steps_positive(old(self).turns@),
            steps_bounded(old(self).turns@),
        ensures
            final(self).game == old(self).game,
            final(self).active() == old(self).active(),
            ({
                let (t2, w, res) = apply_results_spec(old(self).game, old(self).turns@, *packet);
                final(self).turns@ == t2 && final(self).pending() == old(self).pending() + w && r
                    == res
            }),
    {
        let ghost pre = *self;
        let ghost full = apply_results_spec(pre.game, pre.turns@, *packet);
        if self.status() != GameStatus::Started {
            proof {
                assert(self.pending() =~= pre.pending() + Seq::<TurnWrite>::empty());
            }
            return Err(GameManagerError::GameNotActive(self.game.id));
        }
        if packet.move_cnt == 0 && packet.steps.len() == 0 {
            proof {
                assert(self.pending() =~= pre.pending() + Seq::<TurnWrite>::empty());
            }
            return Ok(());
        }
        let mc = self.move_cnt();
        proof {
            lemma_move_cnt_bounds(self.game, self.turns@);
            lemma_max_step_bounded(self.turns@);
        }
        let current_step = mc + 1;
        let step_results = packet.move_cnt;
        if step_results + 1 != current_step {
            proof {
                assert(self.pending() =~= pre.pending() + Seq::<TurnWrite>::empty());
            }
            return Err(GameManagerError::IncorrectStepNumber);
        }

        // the report must hold one entry per required player for this step
        let ghost sv = packet.steps@;
        let mut cnt: usize = 0;
        let mut i: usize = 0;
        while i < packet.steps.len()
            invariant
                0 <= i <= sv.len(),
                cnt == sv.take(i as int).filter(entry_at(step_results)).len(),
                cnt <= i,
            decreases sv.len() - i,
        {
            proof {
                reveal(Seq::filter);
                assert(sv.take(i + 1).drop_last() =~= sv.take(i as int));
                assert(sv.take(i + 1).last() == sv[i as int]);
            }
            if packet.steps[i].step_number == step_results {
                cnt = cnt + 1;
            }
            i = i + 1;
        }
        proof {
            assert(sv.take(sv.len() as int) =~= sv);
        }
        if cnt != self.game.players_cnt as usize {
            proof {
                assert(self.pending() =~= pre.pending() + Seq::<TurnWrite>::empty());
            }
            return Err(GameManagerError::IncorrectIncomeSteps);
        }

        proof {
            assert(full == apply_results_loop(pre.turns@, *packet, step_results, 0));
        }
        let mut i: usize = 0;
        while i < self.turns.len()
            invariant
                0 <= i <= self.turns@.len(),
                self.turns@.len() == pre.turns@.len(),
                self.game == pre.game,
                self.active_pid == pre.active_pid,
                apply_results_loop(self.turns@, *packet, step_results as u32, i as int) == (
                    full.0,
                    apply_results_loop(self.turns@, *packet, step_results as u32, i as int).1,
                    full.2,
                ),
                self.writes@ + apply_results_loop(
                    self.turns@,
                    *packet,
                    step_results as u32,
                    i as int,
                ).1 == pre.writes@ + full.1,
            decreases self.turns@.len() - i,
        {
            if self.turns[i].0.step_number == step_results {
                let slot = self.turns[i].0.player_number;
                let ti = match find_step_entry_exec(&packet.steps, slot, step_results) {
                    Some(k) => k,
                    None => {
                        return Err(GameManagerError::IncorrectIncomeSteps);
                    },
                };
                let pi = match find_player_exec(&packet.players, slot) {
                    Some(k) => k,
                    None => {
                        return Err(GameManagerError::IncorrectIncomePlayers);
                    },
                };
                let inc = &packet.steps[ti];
                let ip = &packet.players[pi];
                let base = &self.turns[i].0;
                let newt = turn::Model {
                    id: base.id,
                    game_id: base.game_id,
                    user_id: base.user_id,
                    player_number: base.player_number,
                    step_number: base.step_number,
                    is_finished: inc.is_finished,
                    rank: inc.rank,
                    move_time: inc.move_time,
                    move_steps: inc.move_steps,
                    bottles_cnt: inc.bottles_cnt,
                    total_seeds_cnt: inc.total_seeds_cnt,
                    arcanes_cnt: inc.arcanes_cnt,
                    destroys_cnt: inc.destroys_cnt,
                    user_seeds_cnt: base.user_seeds_cnt,
                    seeds: match &base.seeds {
                        Some(s) => Some(s.clone()),
                        None => None,
                    },
                    prop_pers: ip.pers_car_comp_id,
                    prop_car: ip.front_car_comp_id,
                    prop_fwheel: ip.fwheel_car_comp_id,
                    prop_bwheel: ip.bwheel_car_comp_id,
                    is_received: base.is_received,
                };
                proof {
                    assert(newt == results_turn(
                        self.turns@[i as int].0,
                        packet.steps@[ti as int],
                        packet.players@[pi as int],
                    ));
                }
                let ghost before = self.turns@;
                let user_copy = self.turns[i].1.clone();
                self.writes.push(TurnWrite::Update(newt.clone()));
                self.turns[i] = (newt, user_copy);
                proof {
                    let rest = apply_results_loop(
                        self.turns@,
                        *packet,
                        step_results as u32,
                        i + 1,
                    );
                    assert(apply_results_loop(before, *packet, step_results as u32, i as int) == (
                        rest.0,
                        seq![TurnWrite::Update(self.turns@[i as int].0)] + rest.1,
                        rest.2,
                    ));
                    assert(self.writes@ + rest.1 =~= pre.writes@ + full.1);
                }
            } else {
                proof {
                    assert(apply_results_loop(self.turns@, *packet, step_results as u32, i as int)
                        == apply_results_loop(self.turns@, *packet, step_results as u32, i + 1));
                }
            }
            i = i + 1;
        }
        proof {
            assert(apply_results_loop(self.turns@, *packet, step_results as u32, self.turns@.len() as int)
                == (self.turns@, Seq::<TurnWrite>::empty(), Ok::<(), GameManagerError>(())));
            assert(self.writes@ =~= pre.writes@ + full.1);
            assert(self.pending() == pre.pending() + full.1);
        }
        Ok(())
    }
}

// ---------------------------------------------------------------------------
// Answering a refresh poll
// ---------------------------------------------------------------------------

/// A record of one step whose move data is in.
pub open spec fn ready_at(s: u32) -> spec_fn(TurnRow) -> bool {
    |r: TurnRow| r.0.step_number == s && r.0.seeds is Some
}

/// A ready record of one step belonging to one player.
pub open spec fn ready_owner(s: u32, owner: u32) -> spec_fn(TurnRow) -> bool {
    |r: TurnRow| r.0.step_number == s && r.0.seeds is Some && r.0.player_number == owner
}

/// A found first index lies in range and satisfies its predicate.
pub proof fn lemma_find_first_props<A>(s: Seq<A>, pred: spec_fn(A) -> bool)
    ensures
        find_first(s, pred) >= 0 ==> find_first(s, pred) < s.len() && pred(s[find_first(s, pred)]),
    decreases s.len(),
{
    if s.len() > 0 {
        lemma_find_first_props(s.drop_last(), pred);
        if find_first(s.drop_last(), pred) >= 0 {
            assert(s.drop_last()[find_first(s.drop_last(), pred)] == s[find_first(
                s.drop_last(),
                pred,
            )]);
        }
    }
}

/// The step entry a record is sent out as; a missing move blob is sent as
/// the empty text.
pub open spec fn row_entry_view(r: TurnRow) -> TurnInfoView {
    TurnInfoView {
        step_number: r.0.step_number,
        player_id: r.0.player_number,
        is_finished: r.0.is_finished,
        rank: r.0.rank,
        move_time: r.0.move_time,
        move_steps: r.0.move_steps,
        bottles_cnt: r.0.bottles_cnt,
        total_seeds_cnt: r.0.total_seeds_cnt,
        arcanes_cnt: r.0.arcanes_cnt,
        destroys_cnt: r.0.destroys_cnt,
        user_seeds_cnt: r.0.user_seeds_cnt,
        seeds: match r.0.seeds {
            Some(s) => s@,
            None => Seq::empty(),
        },
    }
}

/// The roster entry a record is sent out as in a completed-step answer.
pub open spec fn row_roster_view(r: TurnRow) -> PlayerView {
    PlayerView {
        uid: r.0.player_number,
        nickname: crate::entity::user::login_view(r.1),
        pers_car_comp_id: r.0.prop_pers,
        front_car_comp_id: r.0.prop_car,
        fwheel_car_comp_id: r.0.prop_fwheel,
        bwheel_car_comp_id: r.0.prop_bwheel,
        is_robot: false,
        password: Some(Seq::empty()),
    }
}

/// The record marked as delivered.
pub open spec fn received_turn(t: turn::Model) -> turn::Model {
    turn::Model { is_received: true, ..t }
}

/// Whenever the polled step is complete, the polling player must own one of
/// its ready records.  The dispatcher guarantees this by binding the session
/// to a slot of this game; the session does not re-check it.
pub open spec fn refresh_deliverable(
    g: game::Model,
    turns: Seq<TurnRow>,
    requested: u32,
    owner: u32,
) -> bool {
    turns.filter(ready_at(requested)).len() >= g.players_cnt ==> find_first(
        turns,
        ready_owner(requested, owner),
    ) >= 0
}

/// At most one record per (player slot, step) pair.
pub open spec fn rows_unique(turns: Seq<TurnRow>) -> bool {
    forall|i: int, j: int|
        0 <= i < turns.len() && 0 <= j < turns.len() && i != j ==> !((
        #[trigger] turns[i]).0.player_number == (#[trigger] turns[j]).0.player_number
            && turns[i].0.step_number == turns[j].0.step_number)
}

/// A first-index search that comes back empty finds nothing anywhere.
pub proof fn lemma_find_first_none<A>(s: Seq<A>, pred: spec_fn(A) -> bool)
    requires
        find_first(s, pred) < 0,
    ensures
        forall|i: int| 0 <= i < s.len() ==> !pred(#[trigger] s[i]),
    decreases s.len(),
{
    if s.len() > 0 {
        lemma_find_first_none(s.drop_last(), pred);
        assert forall|i: int| 0 <= i < s.len() implies !pred(#[trigger] s[i]) by {
            if i < s.len() - 1 {
                assert(s.drop_last()[i] == s[i]);
            }
        }
    }
}

/// At one step, each slot accounts for at most one ready record: the ready
/// records are no more than the slots they may use.
proof fn lemma_ready_count_by_slots(turns: Seq<TurnRow>, r: u32, allowed: Set<int>)
    requires
        rows_unique(turns),
        allowed.finite(),
        forall|i: int|
            0 <= i < turns.len() && (#[trigger] turns[i]).0.step_number == r
                && turns[i].0.seeds is Some ==> allowed.contains(turns[i].0.player_number as int),
    ensures
        turns.filter(ready_at(r)).len() <= allowed.len(),
    decreases turns.len(),
{
    reveal(Seq::filter);
    if turns.len() > 0 {
        let d = turns.drop_last();
        assert(forall|i: int| 0 <= i < d.len() ==> #[trigger] d[i] == turns[i]);
        assert(rows_unique(d));
        if ready_at(r)(turns.last()) {
            let p = turns.last().0.player_number as int;
            let allowed2 = allowed.remove(p);
            assert(allowed.contains(p));
            // no other record of this step may use the last record's slot
            assert forall|i: int|
                0 <= i < d.len() && (#[trigger] d[i]).0.step_number == r && d[i].0.seeds
                    is Some implies allowed2.contains(d[i].0.player_number as int) by {
                assert(turns[i].0.player_number != turns.last().0.player_number);
            }
            vstd::set::axiom_set_remove_len(allowed, p);
            lemma_ready_count_by_slots(d, r, allowed2);
        } else {
            lemma_ready_count_by_slots(d, r, allowed);
        }
    }
}

/// In a well-formed session — every slot below the configured player count,
/// at most one record per (slot, step) — a complete step always holds a
/// ready record of every bound player: the refresh answer can be delivered.
pub proof fn lemma_wf_refresh_deliverable(
    g: game::Model,
    turns: Seq<TurnRow>,
    requested: u32,
    owner: u32,
)
    requires
        owner < g.players_cnt,
        forall|i: int|
            0 <= i < turns.len() ==> (#[trigger] turns[i].0.player_number) < g.players_cnt,
        rows_unique(turns),
    ensures
        refresh_deliverable(g, turns, requested, owner),
{
    let n = g.players_cnt as int;
    if turns.filter(ready_at(requested)).len() >= g.players_cnt {
        if find_first(turns, ready_owner(requested, owner)) < 0 {
            lemma_find_first_none(turns, ready_owner(requested, owner));
            // were the owner's record missing, the ready records could only
            // use the remaining slots, one each: too few for a complete step
            let range = vstd::set_lib::set_int_range(0, n);
            let allowed = range.remove(owner as int);
            vstd::set_lib::lemma_int_range(0, n);
            assert(range.contains(owner as int));
            vstd::set::axiom_set_remove_len(range, owner as int);
            assert forall|i: int|
                0 <= i < turns.len() && (#[trigger] turns[i]).0.step_number == requested
                    && turns[i].0.seeds is Some implies allowed.contains(
                turns[i].0.player_number as int,
            ) by {
                assert(!ready_owner(requested, owner)(turns[i]));
                assert(turns[i].0.player_number != owner);
            }
            lemma_ready_count_by_slots(turns, requested, allowed);
            assert(false);
        }
    }
}

/// The full effect of a refresh poll for the step after `packet.move_cnt`.
///
/// While fewer ready records exist than players, the answer is a bare
/// `OG_REFRESH_ANSWER_PACKET` carrying just those records.  Once every
/// player's move for the step is in, the answer is an `OG_GAME_PACKET` with
/// the updated move count, the full roster and the step's records — and,
/// exactly once per player, the polling player's own record is marked as
/// delivered and a storage write is due.
pub open spec fn refresh_spec(g: game::Model, turns: Seq<TurnRow>, packet: Packet) -> (
    PacketView,
    Seq<TurnRow>,
    Option<TurnWrite>,
) {
    let requested = (packet.move_cnt + 1) as u32;
    let ready = turns.filter(ready_at(requested));
    let entries = ready.map_values(|r: TurnRow| row_entry_view(r));
    if ready.len() < g.players_cnt {
        (
            PacketView { t_type: PacketType::OG_REFRESH_ANSWER_PACKET, steps: entries, ..packet@ },
            turns,
            None,
        )
    } else {
        let base = PacketView {
            t_type: PacketType::OG_GAME_PACKET,
            move_cnt: move_cnt_spec(g, turns) as u32,
            players: ready.map_values(|r: TurnRow| row_roster_view(r)),
            steps: entries,
            ..packet@
        };
        let k = find_first(turns, ready_owner(requested, packet.packet_owner_pid));
        if turns[k].0.is_received {
            (base, turns, None)
        } else {
            let newt = received_turn(turns[k].0);
            (base, turns.update(k, (newt, turns[k].1)), Some(TurnWrite::Update(newt)))
        }
    }
}

/// Copies a roster list.
fn clone_players(v: &Vec<Player>) -> (r: Vec<Player>)
    ensures
        r@ == v@,
{
    let mut r: Vec<Player> = Vec::new();
    let mut i: usize = 0;
    while i < v.len()
        invariant
            0 <= i <= v@.len(),
            r@ == v@.take(i as int),
        decreases v@.len() - i,
    {
        r.push(v[i].clone());
        proof {
            assert(v@.take(i + 1) =~= v@.take(i as int).push(v@[i as int]));
        }
        i = i + 1;
    }
    proof {
        assert(v@.take(v@.len() as int) =~= v@);
    }
    r
}

fn find_ready_owner_exec(turns: &Vec<TurnRow>, requested: u32, owner: u32) -> (r: Option<usize>)
    ensures
        match r {
            Some(k) => k < turns@.len() && find_first(turns@, ready_owner(requested, owner)) == k,
            None => find_first(turns@, ready_owner(requested, owner)) == -1,
        },
{
    let ghost tv = turns@;
    let ghost pred = ready_owner(requested, owner);
    let mut i: usize = 0;
    while i < turns.len()
        invariant
            0 <= i <= tv.len(),
            tv == turns@,
            pred == ready_owner(requested, owner),
            find_first(tv.take(i as int), pred) == -1,
        decreases tv.len() - i,
    {
        proof {
            assert(tv.take(i + 1).drop_last() =~= tv.take(i as int));
            assert(tv.take(i + 1).last() == tv[i as int]);
        }
        if turns[i].0.step_number == requested && turns[i].0.seeds.is_some()
            && turns[i].0.player_number == owner {
            proof {
                assert(pred(tv[i as int]));
                assert(find_first(tv.take(i + 1), pred) == i);
                lemma_find_first_extend(tv, pred, i + 1);
            }
            return Some(i);
        }
        proof {
            assert(!pred(tv[i as int]));
        }
        i = i + 1;
    }
    proof {
        assert(tv.take(tv.len() as int) =~= tv);
    }
    None
}

impl GameManager {
    /// Answers a refresh poll (`OG_REFRESH_PACKET`), as `refresh_spec` lays
    /// it down.  Marking the polling player's record as delivered happens at
    /// most once: polling again returns the same answer with no further
    /// write.
    #[verifier::loop_isolation(false)]
    pub fn get_refresh_packet(&mut self, packet: &Packet) -> (r: Result<Packet, GameManagerError>)
        requires
            old(self).active() is Some,
            old(self).active() == Some(packet.packet_owner_pid),
            packet.t_type == PacketType::OG_REFRESH_PACKET,
            packet.move_cnt < u32::MAX,
            steps_positive(old(self).turns@),
            refresh_deliverable(
                old(self).game,
                old(self).turns@,
                (packet.move_cnt + 1) as u32,
                packet.packet_owner_pid,
            ),
        ensures
            final(self).game == old(self).game,
            final(self).active() == old(self).active(),
            ({
                let (pv, t2, w) = refresh_spec(old(self).game, old(self).turns@, *packet);
                &&& r matches Ok(p) && p@ == pv
                &&& final(self).turns@ == t2
                &&& final(self).pending() == old(self).pending() + (match w {
                    Some(x) => seq![x],
                    None => Seq::<TurnWrite>::empty(),
                })
            }),
    {
        let ghost pre = *self;
        let requested = packet.move_cnt + 1;
        let ghost tv = self.turns@;
        let ghost ready = tv.filter(ready_at(requested));

        // gather the ready records of the polled step
        let mut entries: Vec<PlayerTurnInfo> = Vec::new();
        let mut roster: Vec<Player> = Vec::new();
        let mut i: usize = 0;
        while i < self.turns.len()
            invariant
                0 <= i <= tv.len(),
                entries@.map_values(|t: PlayerTurnInfo| t@) == tv.take(i as int).filter(
                    ready_at(requested),
                ).map_values(|r2: TurnRow| row_entry_view(r2)),
                roster@.map_values(|p2: Player| p2@) == tv.take(i as int).filter(
                    ready_at(requested),
                ).map_values(|r2: TurnRow| row_roster_view(r2)),
                entries@.len() == tv.take(i as int).filter(ready_at(requested)).len(),
            decreases tv.len() - i,
        {
            proof {
                reveal(Seq::filter);
                assert(tv.take(i + 1).drop_last() =~= tv.take(i as int));
                assert(tv.take(i + 1).last() == tv[i as int]);
            }
            if self.turns[i].0.step_number == requested && self.turns[i].0.seeds.is_some() {
                let t = &self.turns[i].0;
                let u = &self.turns[i].1;
                let e = PlayerTurnInfo {
                    step_number: t.step_number,
                    player_id: t.player_number,
                    is_finished: t.is_finished,
                    rank: t.rank,
                    move_time: t.move_time,
                    move_steps: t.move_steps,
                    bottles_cnt: t.bottles_cnt,
                    total_seeds_cnt: t.total_seeds_cnt,
                    arcanes_cnt: t.arcanes_cnt,
                    destroys_cnt: t.destroys_cnt,
                    user_seeds_cnt: t.user_seeds_cnt,
                    seeds: match &t.seeds {
                        Some(s) => s.clone(),
                        None => String::new(),
                    },
                };
                let q = Player {
                    uid: t.player_number,
                    nickname: u.login(),
                    pers_car_comp_id: t.prop_pers,
                    front_car_comp_id: t.prop_car,
                    fwheel_car_comp_id: t.prop_fwheel,
                    bwheel_car_comp_id: t.prop_bwheel,
                    is_robot: false,
                    password: Some(String::new()),
                };
                proof {
                    assert(e@ == row_entry_view(tv[i as int]));
                    assert(q@ == row_roster_view(tv[i as int]));
                    assert(tv.take(i + 1).filter(ready_at(requested)) == tv.take(i as int).filter(
                        ready_at(requested),
                    ).push(tv[i as int]));
                }
                let ghost epre = entries@;
                let ghost rpre = roster@;
                entries.push(e);
                roster.push(q);
                proof {
                    assert(entries@.map_values(|t2: PlayerTurnInfo| t2@) =~= epre.map_values(
                        |t2: PlayerTurnInfo| t2@,
                    ).push(e@));
                    assert(roster@.map_values(|p2: Player| p2@) =~= rpre.map_values(
                        |p2: Player| p2@,
                    ).push(q@));
                    assert(tv.take(i + 1).filter(ready_at(requested)).map_values(
                        |r2: TurnRow| row_entry_view(r2),
                    ) =~= tv.take(i as int).filter(ready_at(requested)).map_values(
                        |r2: TurnRow| row_entry_view(r2),
                    ).push(row_entry_view(tv[i as int])));
                    assert(tv.take(i + 1).filter(ready_at(requested)).map_values(
                        |r2: TurnRow| row_roster_view(r2),
                    ) =~= tv.take(i as int).filter(ready_at(requested)).map_values(
                        |r2: TurnRow| row_roster_view(r2),
                    ).push(row_roster_view(tv[i as int])));
                }
            } else {
                proof {
                    assert(tv.take(i + 1).filter(ready_at(requested)) == tv.take(i as int).filter(
                        ready_at(requested),
                    ));
                }
            }
            i = i + 1;
        }
        proof {
            assert(tv.take(tv.len() as int) =~= tv);
        }

        if entries.len() < self.game.players_cnt as usize {
            // the step is not complete yet: a bare answer with the partial
            // records, no roster, no count change, no write
            let p = Packet {
                version: packet.version,
                t_type: PacketType::OG_REFRESH_ANSWER_PACKET,
                gmid: packet.gmid,
                language: packet.language,
                game_owner_pid: packet.game_owner_pid,
                packet_owner_pid: packet.packet_owner_pid,
                password: packet.password.clone(),
                kd_world_id: packet.kd_world_id,
                kd_route_id: packet.kd_route_id,
                game_rnd: packet.game_rnd,
                game_type: packet.game_type,
                laps: packet.laps,
                seeds: packet.seeds,
                duration: packet.duration,
                move_cnt: packet.move_cnt,
                is_express: packet.is_express,
                url: packet.url.clone(),
                players: clone_players(&packet.players),
                steps: entries,
            };
            proof {
                let (pv, _, _) = refresh_spec(pre.game, pre.turns@, *packet);
                assert(p@ =~~= pv);
                assert(self.pending() =~= pre.pending() + Seq::<TurnWrite>::empty());
            }
            return Ok(p);
        }

        // the step is complete: deliver it, marking the polling player's
        // record at most once
        let mc = self.move_cnt();
        let k = find_ready_owner_exec(&self.turns, requested, packet.packet_owner_pid).unwrap();
        proof {
            lemma_find_first_props(tv, ready_owner(requested, packet.packet_owner_pid));
        }
        if !self.turns[k].0.is_received {
            let t = &self.turns[k].0;
            let newt = turn::Model {
                id: t.id,
                game_id: t.game_id,
                user_id: t.user_id,
                player_number: t.player_number,
                step_number: t.step_number,
                is_finished: t.is_finished,
                rank: t.rank,
                move_time: t.move_time,
                move_steps: t.move_steps,
                bottles_cnt: t.bottles_cnt,
                total_seeds_cnt: t.total_seeds_cnt,
                arcanes_cnt: t.arcanes_cnt,
                destroys_cnt: t.destroys_cnt,
                user_seeds_cnt: t.user_seeds_cnt,
                seeds: match &t.seeds {
                    Some(s) => Some(s.clone()),
                    None => None,
                },
                prop_pers: t.prop_pers,
                prop_car: t.prop_car,
                prop_fwheel: t.prop_fwheel,
                prop_bwheel: t.prop_bwheel,
                is_received: true,
            };
            proof {
                assert(newt == received_turn(tv[k as int].0));
            }
            let user_copy = self.turns[k].1.clone();
            self.writes.push(TurnWrite::Update(newt.clone()));
            self.turns[k] = (newt, user_copy);
            proof {
                assert(self.pending() =~= pre.pending() + seq![
                    TurnWrite::Update(self.turns@[k as int].0),
                ]);
            }
        } else {
            proof {
                assert(self.pending() =~= pre.pending() + Seq::<TurnWrite>::empty());
            }
        }
        let p = Packet {
            version: packet.version,
            t_type: PacketType::OG_GAME_PACKET,
            gmid: packet.gmid,
            language: packet.language,
            game_owner_pid: packet.game_owner_pid,
            packet_owner_pid: packet.packet_owner_pid,
            password: packet.password.clone(),
            kd_world_id: packet.kd_world_id,
            kd_route_id: packet.kd_route_id,
            game_rnd: packet.game_rnd,
            game_type: packet.game_type,
            laps: packet.laps,
            seeds: packet.seeds,
            duration: packet.duration,
            move_cnt: mc,
            is_express: packet.is_express,
            url: packet.url.clone(),
            players: roster,
            steps: entries,
        };
        proof {
            let (pv, _, _) = refresh_spec(pre.game, pre.turns@, *packet);
            assert(p@ =~~= pv);
        }
        Ok(p)
    }
}

// ---------------------------------------------------------------------------
// The full snapshot packet
// ---------------------------------------------------------------------------

/// The highest player slot on record, or -1 for an empty history.
pub open spec fn max_slot_of(turns: Seq<TurnRow>) -> int
    decreases turns.len(),
{
    if turns.len() == 0 {
        -1
    } else {
        let m = max_slot_of(turns.drop_last());
        if turns.last().0.player_number > m {
            turns.last().0.player_number as int
        } else {
            m
        }
    }
}

pub proof fn lemma_max_slot_dominates(turns: Seq<TurnRow>)
    ensures
        max_slot_of(turns) <= u32::MAX,
        forall|i: int|
            0 <= i < turns.len() ==> (#[trigger] turns[i].0.player_number) <= max_slot_of(turns),
    decreases turns.len(),
{
    if turns.len() > 0 {
        lemma_max_slot_dominates(turns.drop_last());
        assert forall|i: int|
            0 <= i < turns.len() implies (#[trigger] turns[i].0.player_number) <= max_slot_of(
            turns,
        ) by {
            if i < turns.len() - 1 {
                assert(turns.drop_last()[i] == turns[i]);
            }
        }
    }
}

/// The roster entry a record is shown as in a snapshot packet.  The
/// character field repeats the car id, as the protocol's clients expect.
pub open spec fn info_roster_view(r: TurnRow) -> PlayerView {
    PlayerView {
        uid: r.0.player_number,
        nickname: crate::entity::user::login_view(r.1),
        pers_car_comp_id: r.0.prop_car,
        front_car_comp_id: r.0.prop_car,
        fwheel_car_comp_id: r.0.prop_fwheel,
        bwheel_car_comp_id: r.0.prop_bwheel,
        is_robot: false,
        password: None,
    }
}

/// The snapshot roster from slot `k` up: each slot in order contributes its
/// latest record, and the walk stops at the first slot without one.
pub open spec fn info_roster(turns: Seq<TurnRow>, k: int) -> Seq<PlayerView>
    decreases max_slot_of(turns) + 1 - k,
{
    if !(0 <= k <= max_slot_of(turns)) {
        Seq::empty()
    } else if has_player(turns, k as u32) {
        seq![info_roster_view(turns[latest_for(turns, k as u32)])] + info_roster(turns, k + 1)
    } else {
        Seq::empty()
    }
}

/// A record shown among a snapshot's step entries: at a completed step, move
/// data present.
pub open spec fn info_entry(mc: u32) -> spec_fn(TurnRow) -> bool {
    |r: TurnRow| r.0.step_number <= mc && r.0.seeds is Some
}

/// A record owned by one user.
pub open spec fn user_match(uid: u32) -> spec_fn(TurnRow) -> bool {
    |r: TurnRow| r.1.id == uid
}

/// The slot of the game's configured owner, or slot 0 where the owner has
/// no record yet.
pub open spec fn owner_slot(g: game::Model, turns: Seq<TurnRow>) -> u32 {
    let k = find_first(turns, user_match(g.owner_id));
    if k < 0 {
        0
    } else {
        turns[k].0.player_number
    }
}

/// The full snapshot packet of a session: configuration header, the roster
/// of joined slots, and every recorded move of the completed steps.
pub open spec fn info_packet_spec(
    g: game::Model,
    turns: Seq<TurnRow>,
    t_type: PacketType,
    pid: u32,
) -> PacketView {
    let mc = move_cnt_spec(g, turns) as u32;
    PacketView {
        version: 104,
        t_type,
        gmid: g.id,
        language: crate::data::Language::Ru,
        game_owner_pid: owner_slot(g, turns),
        packet_owner_pid: pid,
        password: "password"@,
        kd_world_id: g.world_id as u8,
        kd_route_id: g.track_id as u8,
        game_rnd: g.rnd as u16,
        game_type: g.game_type,
        laps: g.laps,
        seeds: g.seeds,
        duration: g.duration,
        move_cnt: mc,
        is_express: true,
        url: crate::data::UrlView::empty(),
        players: info_roster(turns, 0),
        steps: turns.filter(info_entry(mc)).map_values(|r: TurnRow| row_entry_view(r)),
    }
}

fn latest_for_slot_exec(turns: &Vec<TurnRow>, slot: usize) -> (r: Option<usize>)
    ensures
        slot <= u32::MAX ==> match r {
            Some(k) => k < turns@.len() && latest_for(turns@, slot as u32) == k,
            None => latest_for(turns@, slot as u32) == -1,
        },
        slot > u32::MAX ==> r is None,
{
    let ghost tv = turns@;
    let mut best: Option<usize> = None;
    let mut i: usize = 0;
    while i < turns.len()
        invariant
            0 <= i <= tv.len(),
            tv == turns@,
            slot <= u32::MAX ==> match best {
                Some(k) => latest_for(tv.take(i as int), slot as u32) == k && k < i,
                None => latest_for(tv.take(i as int), slot as u32) == -1,
            },
            slot > u32::MAX ==> best is None,
        decreases tv.len() - i,
    {
        proof {
            assert(tv.take(i + 1).drop_last() =~= tv.take(i as int));
            assert(tv.take(i + 1).last() == tv[i as int]);
            assert(forall|j: int|
                0 <= j < i ==> #[trigger] tv.take(i as int)[j] == tv.take(i + 1)[j]);
        }
        if turns[i].0.player_number as usize == slot {
            let take_it = match best {
                Some(k) => turns[k].0.step_number <= turns[i].0.step_number,
                None => true,
            };
            if take_it {
                best = Some(i);
            }
        }
        i = i + 1;
    }
    proof {
        assert(tv.take(tv.len() as int) =~= tv);
    }
    best
}

impl GameManager {
    /// Builds the full snapshot packet under the given packet type, as
    /// `info_packet_spec` lays it down.
    #[verifier::loop_isolation(false)]
    pub fn get_info(&self, t_type: PacketType) -> (r: Packet)
        requires
            self.active() is Some,
            steps_positive(self.turns@),
        ensures
            r@ == info_packet_spec(self.game, self.turns@, t_type, self.active()->0),
    {
        let ghost tv = self.turns@;
        proof {
            lemma_max_slot_dominates(tv);
        }

        // the roster: each slot in join order, up to the first gap
        let mut roster: Vec<Player> = Vec::new();
        let mut going: bool = true;
        while going
            invariant
                roster@.len() <= max_slot_of(tv) + 1,
                info_roster(tv, 0) == roster@.map_values(|p2: Player| p2@) + info_roster(
                    tv,
                    roster@.len() as int,
                ),
                !going ==> info_roster(tv, roster@.len() as int) == Seq::<PlayerView>::empty(),
            decreases max_slot_of(tv) + 1 - roster@.len() + (if going {
                1int
            } else {
                0int
            }),
        {
            let j = match latest_for_slot_exec(&self.turns, roster.len()) {
                Some(j) => j,
                None => {
                    proof {
                        let k = roster@.len() as int;
                        if 0 <= k <= max_slot_of(tv) {
                            lemma_latest_for_props(tv, k as u32);
                            assert(!has_player(tv, k as u32));
                        }
                        assert(info_roster(tv, k) =~= Seq::<PlayerView>::empty());
                        assert(roster@.map_values(|p2: Player| p2@) + Seq::<PlayerView>::empty()
                            =~= roster@.map_values(|p2: Player| p2@));
                    }
                    going = false;
                    continue ;
                },
            };
            proof {
                let k = roster@.len() as int;
                lemma_latest_for_props(tv, k as u32);
                assert(has_player(tv, k as u32));
                assert(tv[j as int].0.player_number == k as u32);
                assert(k <= max_slot_of(tv));
            }
            let t = &self.turns[j].0;
            let u = &self.turns[j].1;
            let q = Player {
                uid: t.player_number,
                nickname: u.login(),
                pers_car_comp_id: t.prop_car,
                front_car_comp_id: t.prop_car,
                fwheel_car_comp_id: t.prop_fwheel,
                bwheel_car_comp_id: t.prop_bwheel,
                is_robot: false,
                password: None,
            };
            proof {
                let k = roster@.len() as int;
                assert(q@ == info_roster_view(tv[latest_for(tv, k as u32)]));
                assert(info_roster(tv, k) == seq![info_roster_view(tv[latest_for(tv, k as u32)])]
                    + info_roster(tv, k + 1));
            }
            let ghost rpre = roster@;
            roster.push(q);
            proof {
                assert(roster@.map_values(|p2: Player| p2@) =~= rpre.map_values(|p2: Player| p2@)
                    + seq![q@]);
                assert(rpre.map_values(|p2: Player| p2@) + (seq![q@] + info_roster(
                    tv,
                    rpre.len() as int + 1,
                )) =~= (rpre.map_values(|p2: Player| p2@) + seq![q@]) + info_roster(
                    tv,
                    rpre.len() as int + 1,
                ));
            }
        }

        // every recorded move of the completed steps
        let mc = self.move_cnt();
        let mut entries: Vec<PlayerTurnInfo> = Vec::new();
        let mut i: usize = 0;
        while i < self.turns.len()
            invariant
                0 <= i <= tv.len(),
                entries@.map_values(|t2: PlayerTurnInfo| t2@) == tv.take(i as int).filter(
                    info_entry(mc),
                ).map_values(|r2: TurnRow| row_entry_view(r2)),
            decreases tv.len() - i,
        {
            proof {
                reveal(Seq::filter);
                assert(tv.take(i + 1).drop_last() =~= tv.take(i as int));
                assert(tv.take(i + 1).last() == tv[i as int]);
            }
            if self.turns[i].0.step_number <= mc && self.turns[i].0.seeds.is_some() {
                let t = &self.turns[i].0;
                let e = PlayerTurnInfo {
                    step_number: t.step_number,
                    player_id: t.player_number,
                    is_finished: t.is_finished,
                    rank: t.rank,
                    move_time: t.move_time,
                    move_steps: t.move_steps,
                    bottles_cnt: t.bottles_cnt,
                    total_seeds_cnt: t.total_seeds_cnt,
                    arcanes_cnt: t.arcanes_cnt,
                    destroys_cnt: t.destroys_cnt,
                    user_seeds_cnt: t.user_seeds_cnt,
                    seeds: match &t.seeds {
                        Some(s) => s.clone(),
                        None => String::new(),
                    },
                };
                let ghost epre = entries@;
                proof {
                    assert(e@ == row_entry_view(tv[i as int]));
                    assert(tv.take(i + 1).filter(info_entry(mc)) == tv.take(i as int).filter(
                        info_entry(mc),
                    ).push(tv[i as int]));
                }
                entries.push(e);
                proof {
                    assert(entries@.map_values(|t2: PlayerTurnInfo| t2@) =~= epre.map_values(
                        |t2: PlayerTurnInfo| t2@,
                    ).push(e@));
                    assert(tv.take(i + 1).filter(info_entry(mc)).map_values(
                        |r2: TurnRow| row_entry_view(r2),
                    ) =~= tv.take(i as int).filter(info_entry(mc)).map_values(
                        |r2: TurnRow| row_entry_view(r2),
                    ).push(row_entry_view(tv[i as int])));
                }
            } else {
                proof {
                    assert(tv.take(i + 1).filter(info_entry(mc)) == tv.take(i as int).filter(
                        info_entry(mc),
                    ));
                }
            }
            i = i + 1;
        }
        proof {
            assert(tv.take(tv.len() as int) =~= tv);
        }

        // the owner's slot, where the owner has a record already
        let mut game_owner_pid: u32 = 0;
        let mut i: usize = 0;
        let ghost owner_pred = user_match(self.game.owner_id);
        let mut found: bool = false;
        while i < self.turns.len() && !found
            invariant
                0 <= i <= tv.len(),
                !found ==> find_first(tv.take(i as int), owner_pred) == -1 && game_owner_pid == 0,
                found ==> i >= 1 && find_first(tv, owner_pred) == i - 1 && game_owner_pid == tv[i
                    - 1].0.player_number,
                owner_pred == user_match(self.game.owner_id),
            decreases tv.len() - i,
        {
            proof {
                assert(tv.take(i + 1).drop_last() =~= tv.take(i as int));
                assert(tv.take(i + 1).last() == tv[i as int]);
            }
            if self.turns[i].1.id == self.game.owner_id {
                found = true;
                game_owner_pid = self.turns[i].0.player_number;
                proof {
                    assert(owner_pred(tv[i as int]));
                    assert(find_first(tv.take(i + 1), owner_pred) == i);
                    lemma_find_first_extend(tv, owner_pred, i + 1);
                }
            } else {
                proof {
                    assert(!owner_pred(tv[i as int]));
                }
            }
            i = i + 1;
        }
        proof {
            if !found {
                assert(tv.take(tv.len() as int) =~= tv);
            }
            assert(game_owner_pid == owner_slot(self.game, tv));
        }

        let p = Packet {
            version: 104,
            t_type,
            gmid: self.game.id,
            language: crate::data::Language::Ru,
            game_owner_pid,
            packet_owner_pid: self.active_pid.unwrap(),
            password: String::from_str("password"),
            kd_world_id: #[verifier::truncate] (self.game.world_id as u8),
            kd_route_id: #[verifier::truncate] (self.game.track_id as u8),
            game_rnd: #[verifier::truncate] (self.game.rnd as u16),
            game_type: self.game.game_type,
            laps: self.game.laps,
            seeds: self.game.seeds,
            duration: self.game.duration,
            move_cnt: mc,
            is_express: true,
            url: UrlProperty::default(),
            players: roster,
            steps: entries,
        };
        proof {
            assert(p@ =~~= info_packet_spec(self.game, tv, t_type, self.active()->0));
        }
        p
    }
}

// ---------------------------------------------------------------------------
// Laws of the completed-step count
// ---------------------------------------------------------------------------

/// An open game has no completed steps, whatever its records hold.
pub proof fn lemma_move_cnt_open(g: game::Model, turns: Seq<TurnRow>)
    requires
        status_spec(g, turns) == GameStatus::Open,
    ensures
        move_cnt_spec(g, turns) == 0,
{
}

/// A started game whose players have all joined but none has moved yet has
/// no completed steps.
pub proof fn lemma_move_cnt_no_moves(g: game::Model, turns: Seq<TurnRow>)
    requires
        turns.len() == g.players_cnt,
        g.players_cnt >= 1,
        forall|i: int| 0 <= i < turns.len() ==> (#[trigger] turns[i].0.seeds) is None,
    ensures
        status_spec(g, turns) == GameStatus::Started,
        move_cnt_spec(g, turns) == 0,
{
    assert(turns[0].0.seeds is None);
    assert(any_missing_seeds(turns));
}

/// Once every player has submitted a move for step one, exactly one step is
/// complete.
pub proof fn lemma_move_cnt_step_one_done(g: game::Model, turns: Seq<TurnRow>)
    requires
        turns.len() == g.players_cnt,
        forall|i: int| 0 <= i < turns.len() ==> (#[trigger] turns[i].0.seeds) is Some,
    ensures
        status_spec(g, turns) == GameStatus::Started,
        move_cnt_spec(g, turns) == 1,
{
    assert(!any_missing_seeds(turns));
}

/// A player who has advanced to step two while the others still sit at an
/// underfilled step two does not advance the count past one: the lagging
/// players gate it.
pub proof fn lemma_move_cnt_laggards(g: game::Model, turns: Seq<TurnRow>)
    requires
        status_spec(g, turns) == GameStatus::Started,
        turns.len() != g.players_cnt,
        max_step_of(turns) == 2,
        count_at(turns, 2) < g.players_cnt,
    ensures
        move_cnt_spec(g, turns) == 1,
{
}

// ---------------------------------------------------------------------------
// Law: a refresh answer is delivered at most once
// ---------------------------------------------------------------------------

/// Equality of two records on everything but the delivery mark.
pub open spec fn turn_core_eq(x: turn::Model, y: turn::Model) -> bool {
    &&& x.id == y.id
    &&& x.game_id == y.game_id
    &&& x.user_id == y.user_id
    &&& x.player_number == y.player_number
    &&& x.step_number == y.step_number
    &&& x.is_finished == y.is_finished
    &&& x.rank == y.rank
    &&& x.move_time == y.move_time
    &&& x.move_steps == y.move_steps
    &&& x.bottles_cnt == y.bottles_cnt
    &&& x.total_seeds_cnt == y.total_seeds_cnt
    &&& x.arcanes_cnt == y.arcanes_cnt
    &&& x.destroys_cnt == y.destroys_cnt
    &&& x.user_seeds_cnt == y.user_seeds_cnt
    &&& x.seeds == y.seeds
    &&& x.prop_pers == y.prop_pers
    &&& x.prop_car == y.prop_car
    &&& x.prop_fwheel == y.prop_fwheel
    &&& x.prop_bwheel == y.prop_bwheel
}

/// Two histories that differ at most in delivery marks.
pub open spec fn eq_mod_received(a: Seq<TurnRow>, b: Seq<TurnRow>) -> bool {
    &&& a.len() == b.len()
    &&& forall|i: int| 0 <= i < a.len() ==> (#[trigger] a[i]).1 == b[i].1
    &&& forall|i: int| 0 <= i < a.len() ==> turn_core_eq((#[trigger] a[i]).0, b[i].0)
}

proof fn lemma_eq_mod_received_drop_last(a: Seq<TurnRow>, b: Seq<TurnRow>)
    requires
        eq_mod_received(a, b),
        a.len() > 0,
    ensures
        eq_mod_received(a.drop_last(), b.drop_last()),
{
    assert(forall|i: int| 0 <= i < a.drop_last().len() ==> #[trigger] a.drop_last()[i] == a[i]);
    assert(forall|i: int| 0 <= i < b.drop_last().len() ==> #[trigger] b.drop_last()[i] == b[i]);
}

proof fn lemma_eq_mod_received_max_step(a: Seq<TurnRow>, b: Seq<TurnRow>)
    requires
        eq_mod_received(a, b),
    ensures
        max_step_of(a) == max_step_of(b),
    decreases a.len(),
{
    if a.len() > 1 {
        lemma_eq_mod_received_drop_last(a, b);
        lemma_eq_mod_received_max_step(a.drop_last(), b.drop_last());
    }
}

proof fn lemma_eq_mod_received_count_at(a: Seq<TurnRow>, b: Seq<TurnRow>, s: u32)
    requires
        eq_mod_received(a, b),
    ensures
        count_at(a, s) == count_at(b, s),
    decreases a.len(),
{
    reveal(Seq::filter);
    if a.len() > 0 {
        lemma_eq_mod_received_drop_last(a, b);
        lemma_eq_mod_received_count_at(a.drop_last(), b.drop_last(), s);
    }
}

proof fn lemma_eq_mod_received_min_unfinished(a: Seq<TurnRow>, b: Seq<TurnRow>, dflt: int)
    requires
        eq_mod_received(a, b),
    ensures
        min_unfinished(a, dflt) == min_unfinished(b, dflt),
    decreases a.len(),
{
    if a.len() > 0 {
        lemma_eq_mod_received_drop_last(a, b);
        lemma_eq_mod_received_min_unfinished(a.drop_last(), b.drop_last(), dflt);
    }
}

/// The completed-step count never reads the delivery marks.
pub proof fn lemma_eq_mod_received_move_cnt(g: game::Model, a: Seq<TurnRow>, b: Seq<TurnRow>)
    requires
        eq_mod_received(a, b),
    ensures
        move_cnt_spec(g, a) == move_cnt_spec(g, b),
{
    lemma_eq_mod_received_max_step(a, b);
    lemma_eq_mod_received_count_at(a, b, max_step_of(a));
    lemma_eq_mod_received_min_unfinished(a, b, max_step_of(a) as int);
    if any_missing_seeds(a) {
        let w = choose|i: int| 0 <= i < a.len() && (#[trigger] a[i].0.seeds) is None;
        assert(b[w].0.seeds is None);
        assert(any_missing_seeds(b));
    }
    if any_missing_seeds(b) {
        let w = choose|i: int| 0 <= i < b.len() && (#[trigger] b[i].0.seeds) is None;
        assert(a[w].0.seeds is None);
        assert(any_missing_seeds(a));
    }
}

proof fn lemma_eq_mod_received_ready_filter(a: Seq<TurnRow>, b: Seq<TurnRow>, s: u32)
    requires
        eq_mod_received(a, b),
    ensures
        eq_mod_received(a.filter(ready_at(s)), b.filter(ready_at(s))),
    decreases a.len(),
{
    reveal(Seq::filter);
    if a.len() == 0 {
    } else {
        lemma_eq_mod_received_drop_last(a, b);
        lemma_eq_mod_received_ready_filter(a.drop_last(), b.drop_last(), s);
        let fa = a.drop_last().filter(ready_at(s));
        let fb = b.drop_last().filter(ready_at(s));
        if ready_at(s)(a.last()) {
            assert(ready_at(s)(b.last()));
            assert(eq_mod_received(fa.push(a.last()), fb.push(b.last()))) by {
                assert(forall|i: int|
                    0 <= i < fa.len() ==> #[trigger] fa.push(a.last())[i] == fa[i]);
                assert(forall|i: int|
                    0 <= i < fb.len() ==> #[trigger] fb.push(b.last())[i] == fb[i]);
                assert(fa.push(a.last())[fa.len() as int] == a.last());
                assert(fb.push(b.last())[fb.len() as int] == b.last());
            }
        } else {
            assert(!ready_at(s)(b.last()));
        }
    }
}

proof fn lemma_eq_mod_received_find_owner(a: Seq<TurnRow>, b: Seq<TurnRow>, s: u32, owner: u32)
    requires
        eq_mod_received(a, b),
    ensures
        find_first(a, ready_owner(s, owner)) == find_first(b, ready_owner(s, owner)),
    decreases a.len(),
{
    if a.len() > 0 {
        lemma_eq_mod_received_drop_last(a, b);
        lemma_eq_mod_received_find_owner(a.drop_last(), b.drop_last(), s, owner);
    }
}

/// Delivering a completed step to the same player twice changes nothing
/// further: the second poll returns the very same packet, leaves the records
/// as they are, and costs no second storage write.
pub proof fn lemma_refresh_idempotent(g: game::Model, turns: Seq<TurnRow>, packet: Packet)
    requires
        packet.move_cnt < u32::MAX,
        turns.filter(ready_at((packet.move_cnt + 1) as u32)).len() >= g.players_cnt,
        find_first(
            turns,
            ready_owner((packet.move_cnt + 1) as u32, packet.packet_owner_pid),
        ) >= 0,
    ensures
        ({
            let (p1, t1, w1) = refresh_spec(g, turns, packet);
            let (p2, t2, w2) = refresh_spec(g, t1, packet);
            &&& p2 == p1
            &&& t2 == t1
            &&& w2 is None
        }),
{
    let requested = (packet.move_cnt + 1) as u32;
    let owner = packet.packet_owner_pid;
    let (p1, t1, w1) = refresh_spec(g, turns, packet);
    let k = find_first(turns, ready_owner(requested, owner));
    lemma_find_first_props(turns, ready_owner(requested, owner));
    assert(ready_owner(requested, owner)(turns[k]));

    if turns[k].0.is_received {
        assert(t1 == turns);
    } else {
        // the two histories differ only in one delivery mark
        assert(eq_mod_received(turns, t1)) by {
            assert(forall|i: int| 0 <= i < turns.len() && i != k ==> #[trigger] t1[i] == turns[i]);
            assert(t1[k].1 == turns[k].1);
            assert(turn_core_eq(turns[k].0, t1[k].0));
        }
    }
    assert(eq_mod_received(turns, t1)) by {
        if turns[k].0.is_received {
            assert(forall|i: int| 0 <= i < turns.len() ==> #[trigger] t1[i] == turns[i]);
        }
    }

    lemma_eq_mod_received_ready_filter(turns, t1, requested);
    lemma_eq_mod_received_move_cnt(g, turns, t1);
    lemma_eq_mod_received_find_owner(turns, t1, requested, owner);
    let ra = turns.filter(ready_at(requested));
    let rb = t1.filter(ready_at(requested));

    // the delivered record stays marked, so the second poll writes nothing
    assert(t1[k].0.is_received);

    // both answers carry the same entries and roster
    assert(rb.map_values(|r: TurnRow| row_entry_view(r)) =~= ra.map_values(
        |r: TurnRow| row_entry_view(r),
    ));
    assert(rb.map_values(|r: TurnRow| row_roster_view(r)) =~= ra.map_values(
        |r: TurnRow| row_roster_view(r),
    ));

    let (p2, t2, w2) = refresh_spec(g, t1, packet);
    assert(w2 is None);
    assert(t2 == t1);
    assert(p2 =~~= p1);
}

} // verus!
