//! The closed set of race worlds, each carrying its track number.

use vstd::prelude::*;

verus! {

/// A world together with the chosen track on it.
#[derive(Debug, Clone, Copy)]
pub enum World {
    Mountain(u8),
    Water(u8),
    Forest(u8),
    Town(u8),
    Lava(u8),
    Dolly(u8),
    Mechanic(u8),
    Interface(u8),
    Watch(u8),
    Vid(u8),
    Forests(u8),
    Waters(u8),
    Mounts(u8),
}

impl World {
    /// The numeric (world, track) pair this value stands for.
    pub open spec fn spec_id(self) -> (u8, u8) {
        match self {
            World::Mountain(track) => (0u8, track),
            World::Water(track) => (1u8, track),
            World::Forest(track) => (2u8, track),
            World::Town(track) => (3u8, track),
            World::Lava(track) => (4u8, track),
            World::Dolly(track) => (5u8, track),
            World::Mechanic(track) => (6u8, track),
            World::Interface(track) => (7u8, track),
            World::Watch(track) => (8u8, track),
            World::Vid(track) => (9u8, track),
            World::Forests(track) => (10u8, track),
            World::Waters(track) => (11u8, track),
            World::Mounts(track) => (12u8, track),
        }
    }

    pub fn world_id(&self) -> (r: u8)
        ensures
            r == self.spec_id().0,
    {
        self.id().0
    }

    pub fn track_id(self) -> (r: u8)
        ensures
            r == self.spec_id().1,
    {
        self.id().1
    }

    pub fn id(self) -> (r: (u8, u8))
        ensures
            r == self.spec_id(),
    {
        match self {
            World::Mountain(track) => (0, track),
            World::Water(track) => (1, track),
            World::Forest(track) => (2, track),
            World::Town(track) => (3, track),
            World::Lava(track) => (4, track),
            World::Dolly(track) => (5, track),
            World::Mechanic(track) => (6, track),
            World::Interface(track) => (7, track),
            World::Watch(track) => (8, track),
            World::Vid(track) => (9, track),
            World::Forests(track) => (10, track),
            World::Waters(track) => (11, track),
            World::Mounts(track) => (12, track),
        }
    }

    /// The world codes a game may be stored with.
    pub fn available_world_ids() -> (r: core::ops::Range<u32>)
        ensures
            r.start == 0,
            r.end == 13,
    {
        0..13
    }

    /// Reads a world back from its stored numeric pair.  Succeeds exactly on
    /// the thirteen world codes and the track numbers a record can carry.
    pub fn from_ids(world: u32, track: u32) -> (r: Option<World>)
        ensures
            match r {
                Some(w) => world < 13 && track <= 255 && w.spec_id() == (
                    world as u8,
                    track as u8,
                ),
                None => world >= 13 || track > 255,
            },
    {
        if track > 255 {
            return None;
        }
        let t = track as u8;
        match world {
            0 => Some(World::Mountain(t)),
            1 => Some(World::Water(t)),
            2 => Some(World::Forest(t)),
            3 => Some(World::Town(t)),
            4 => Some(World::Lava(t)),
            5 => Some(World::Dolly(t)),
            6 => Some(World::Mechanic(t)),
            7 => Some(World::Interface(t)),
            8 => Some(World::Watch(t)),
            9 => Some(World::Vid(t)),
            10 => Some(World::Forests(t)),
            11 => Some(World::Waters(t)),
            12 => Some(World::Mounts(t)),
            _ => None,
        }
    }
}

} // verus!
