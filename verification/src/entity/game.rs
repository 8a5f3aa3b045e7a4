//! A game's stored configuration.

use vstd::prelude::*;

pub mod world;

pub use world::World;

verus! {

/// Per-game configuration, immutable once the game is created.
#[derive(Clone, Copy, Debug)]
pub struct Model {
    pub id: u32,
    pub owner_id: u32,
    pub world_id: u32,
    pub track_id: u32,
    pub rnd: i32,
    pub game_type: GameType,
    pub laps: u32,
    pub seeds: u32,
    pub duration: u32,
    pub is_express: bool,
    pub players_cnt: u32,
}

impl Model {
    /// The configured world and track as one value.
    pub fn world(&self) -> (w: World)
        requires
            self.world_id < 13,
            self.track_id <= 255,
        ensures
            w.spec_id() == (self.world_id as u8, self.track_id as u8),
    {
        World::from_ids(self.world_id, self.track_id).unwrap()
    }
}

/// The closed set of worlds a game can be configured with, by their stored
/// numeric codes.
#[derive(Debug, Clone, Copy, PartialEq, Eq)]
pub enum GameWorld {
    Mountain,
    Water,
    Forest,
    Town,
    Lava,
    Dolly,
    Mechanic,
    Interface,
    Watch,
    Vid,
    Forests,
    Waters,
    Mounts,
}

/// How a race ends: at the first finisher, or only when everyone finishes.
#[derive(Debug, Clone, Copy, PartialEq, Eq, Structural)]
pub enum GameType {
    Winner,
    All,
}

impl GameType {
    /// The single wire character for this game type.
    pub fn wire_char(&self) -> (r: &'static str)
        ensures
            r@ == self.wire_view(),
    {
        proof {
            reveal_strlit("W");
            reveal_strlit("A");
        }
        match self {
            GameType::Winner => "W",
            GameType::All => "A",
        }
    }

    /// View of the wire character.
    pub open spec fn wire_view(&self) -> Seq<char> {
        match self {
            GameType::Winner => "W"@,
            GameType::All => "A"@,
        }
    }

    /// The game types a wire field names: `W` or `A`, either case.
    pub open spec fn from_wire_view(s: Seq<char>) -> Option<GameType> {
        if s == "W"@ || s == "w"@ {
            Some(GameType::Winner)
        } else if s == "A"@ || s == "a"@ {
            Some(GameType::All)
        } else {
            None
        }
    }

    /// Reads a game type from its wire field.
    pub fn from_wire(s: &str) -> (r: Option<GameType>)
        ensures
            r == GameType::from_wire_view(s@),
    {
        proof {
            reveal_strlit("W");
            reveal_strlit("w");
            reveal_strlit("A");
            reveal_strlit("a");
        }
        let n = s.unicode_len();
        if n != 1 {
            return None;
        }
        let c = s.get_char(0);
        proof {
            assert(s@ =~= seq![s@[0]]);
            assert("W"@ =~= seq!['W']);
            assert("w"@ =~= seq!['w']);
            assert("A"@ =~= seq!['A']);
            assert("a"@ =~= seq!['a']);
        }
        if c == 'W' || c == 'w' {
            Some(GameType::Winner)
        } else if c == 'A' || c == 'a' {
            Some(GameType::All)
        } else {
            None
        }
    }
}

} // verus!
