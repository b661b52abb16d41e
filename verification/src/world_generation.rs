//! Random layout of the overworld's dungeons.

use vstd::prelude::*;

verus! {

use crate::level_generation::LevelStyle;
use crate::random::RandomSource;
use crate::world_map::all_items;
use crate::world_map::Dungeon;
use crate::world_map::Item;
use crate::world_map::Reward;

/// Inner ring radius, in world units, of the dungeons reachable at the
/// start of a run.
pub const RANGE1: i32 = 150;

/// Outer ring radius of the dungeons reachable after the first boss.
pub const RANGE2: i32 = 300;

/// Draws a random dungeon style, both styles equally likely.
fn random_style(rng: &mut RandomSource) -> LevelStyle {
    if rng.gen_range(0, 2) == 0 {
        LevelStyle::Cyclic
    } else {
        LevelStyle::CellularAutomata
    }
}

/// Removes and returns a uniformly random item of `items`.
fn draw_item(items: &mut Vec<Item>, rng: &mut RandomSource) -> (it: Item)
    requires
        1 <= old(items)@.len() <= 8,
    ensures
        final(items)@.len() == old(items)@.len() - 1,
        old(items)@.contains(it),
{
    let index = rng.gen_range(0, items.len() as i32) as usize;
    let it = items[index];
    items.remove(index);
    it
}

/// One random dungeon in the ring `[lo, hi)` with a choice reward of
/// two distinct remaining items.
fn choice_dungeon(items: &mut Vec<Item>, lo: i32, hi: i32, rng: &mut RandomSource) -> (d: Dungeon)
    requires
        2 <= old(items)@.len() <= 8,
        0 < lo < hi <= 300,
    ensures
        final(items)@.len() == old(items)@.len() - 2,
        d.reward is Choice,
        !d.completed,
        0 <= d.angle_degrees < 360,
        lo <= d.distance < hi,
{
    let item1 = draw_item(items, rng);
    let item2 = draw_item(items, rng);
    Dungeon {
        angle_degrees: rng.gen_range(0, 360),
        distance: rng.gen_range(lo, hi),
        reward: Reward::Choice(item1, item2),
        completed: false,
        style: random_style(rng),
    }
}

/// One random boss-progress dungeon in the ring `[lo, hi)`.
fn progress_dungeon(lo: i32, hi: i32, rng: &mut RandomSource) -> (d: Dungeon)
    requires
        0 < lo < hi <= 300,
    ensures
        d.reward is Progress,
        !d.completed,
        0 <= d.angle_degrees < 360,
        lo <= d.distance < hi,
{
    Dungeon {
        angle_degrees: rng.gen_range(0, 360),
        distance: rng.gen_range(lo, hi),
        reward: Reward::Progress,
        completed: false,
        style: random_style(rng),
    }
}

/// Lays out the overworld: two choice dungeons and one progress dungeon
/// in the inner ring, then the same in the outer ring, the choice
/// rewards drawn from the item pool without replacement.
pub fn generate_dungeons(rng: &mut RandomSource) -> (out: Vec<Dungeon>)
    ensures
        out@.len() == 6,
        forall|i: int| 0 <= i < 6 ==> !(#[trigger] out@[i]).completed,
        forall|i: int|
            0 <= i < 6 ==> 0 <= (#[trigger] out@[i]).angle_degrees < 360 && 50 <= out@[i].distance
                < 300,
        out@[0].reward is Choice,
        out@[1].reward is Choice,
        out@[2].reward is Progress,
        out@[3].reward is Choice,
        out@[4].reward is Choice,
        out@[5].reward is Progress,
        forall|i: int| 0 <= i < 3 ==> 50 <= (#[trigger] out@[i]).distance < 150,
        forall|i: int| 3 <= i < 6 ==> 150 <= (#[trigger] out@[i]).distance < 300,
{
    let mut items = all_items();
    let mut out: Vec<Dungeon> = Vec::new();
    out.push(choice_dungeon(&mut items, 50, RANGE1, rng));
    out.push(choice_dungeon(&mut items, 50, RANGE1, rng));
    out.push(progress_dungeon(50, RANGE1, rng));
    out.push(choice_dungeon(&mut items, RANGE1, RANGE2, rng));
    out.push(choice_dungeon(&mut items, RANGE1, RANGE2, rng));
    out.push(progress_dungeon(RANGE1, RANGE2, rng));
    out
}

} // verus!
