//! Plain gameplay component types shared by the game's systems.

use vstd::prelude::*;

verus! {

/// Which side an entity fights for.
#[derive(Copy, Clone, Debug, PartialEq, Eq, Structural)]
pub enum Team {
    Unaligned,
    Player,
    Enemy,
}

impl Default for Team {
    fn default() -> (t: Team)
        ensures
            t == Team::Unaligned,
    {
        Team::Unaligned
    }
}

/// Component wrapper carrying an entity's team.
#[derive(Copy, Clone, Debug, PartialEq, Eq, Structural)]
pub struct TeamWrap {
    pub team: Team,
}

impl Default for TeamWrap {
    fn default() -> (t: TeamWrap)
        ensures
            t.team == Team::Unaligned,
    {
        TeamWrap { team: Team::Unaligned }
    }
}

/// Marker: the entity is destroyed on any bullet contact.
#[derive(Copy, Clone, Debug, PartialEq, Eq, Structural, Default)]
pub struct Destructable;

/// Marker: the entity belongs to the current level and is despawned
/// with it.
#[derive(Copy, Clone, Debug, PartialEq, Eq, Structural, Default)]
pub struct LevelObject;

/// Marker: the bullet survives wall and body contact.
#[derive(Copy, Clone, Debug, PartialEq, Eq, Structural, Default)]
pub struct PenetratingBullet;

/// Marker: the entity is the level's exit trigger.
#[derive(Copy, Clone, Debug, PartialEq, Eq, Structural, Default)]
pub struct Exit;

/// Marker: the enemy sleeps until the player comes near.
#[derive(Copy, Clone, Debug, PartialEq, Eq, Structural, Default)]
pub struct Asleep;

} // verus!
