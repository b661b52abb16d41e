//! The overworld map: dungeons, their rewards, and the items a run can
//! grant.

use vstd::prelude::*;

verus! {

use crate::level_generation::LevelStyle;

/// An upgrade the player can be offered after clearing a dungeon.
#[derive(Copy, Clone, Debug, PartialEq, Eq, Structural)]
pub enum Item {
    AttackSpeed,
    MaxHealth,
    TripleShot,
    ExtraDamage,
    Penetrating,
    ReduceDodgeCooldown,
    SpeedIncrease,
    Backfire,
}

/// The fixed list of every item, in its canonical order.
pub open spec fn all_items_spec() -> Seq<Item> {
    seq![
        Item::AttackSpeed,
        Item::MaxHealth,
        Item::TripleShot,
        Item::ExtraDamage,
        Item::Penetrating,
        Item::ReduceDodgeCooldown,
        Item::SpeedIncrease,
        Item::Backfire,
    ]
}

/// Every item, in canonical order.
pub fn all_items() -> (v: Vec<Item>)
    ensures
        v@ == all_items_spec(),
{
    let mut v: Vec<Item> = Vec::new();
    v.push(Item::AttackSpeed);
    v.push(Item::MaxHealth);
    v.push(Item::TripleShot);
    v.push(Item::ExtraDamage);
    v.push(Item::Penetrating);
    v.push(Item::ReduceDodgeCooldown);
    v.push(Item::SpeedIncrease);
    v.push(Item::Backfire);
    proof {
        assert(v@ =~= all_items_spec());
    }
    v
}

/// What clearing a dungeon grants: a choice of two items, or story
/// progress toward the boss.
#[derive(Copy, Clone, Debug, PartialEq, Eq, Structural)]
pub enum Reward {
    Choice(Item, Item),
    Progress,
}

/// One dungeon on the overworld. Its position is polar about the map's
/// centre: a heading in degrees and a distance in world units.
#[derive(Copy, Clone, Debug)]
pub struct Dungeon {
    pub angle_degrees: i32,
    pub distance: i32,
    pub reward: Reward,
    pub completed: bool,
    pub style: LevelStyle,
}

/// Which dungeon is being played, as an index into the overworld's
/// dungeon list.
#[derive(Copy, Clone, Debug, Default)]
pub struct CurrentDungeon {
    pub entity: Option<usize>,
}

} // verus!
