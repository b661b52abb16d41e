//! Procedural level generation.
//!
//! Two carving strategies build a level: a cyclic path carver and a
//! cellular-automata cave carver. Both report structural dead ends as a
//! recoverable failure value; the driver retries with fresh randomness.

use vstd::prelude::*;

pub mod cellular_automata;
pub mod cyclic;

verus! {

use crate::physics::lemma_opt_at_ext;
use crate::physics::opt_at;
use crate::physics::Colour;
use crate::physics::Tile;
use crate::physics::TileMap;

/// Half the side of the boss arena, in tiles.
pub const BOSS_ARENA_SIZE: i32 = 10;

/// The blocking tile every generator carves walls with.
pub open spec fn wall_tile() -> Tile {
    Tile { collision: true, colour: Colour { r: 128, g: 128, b: 128, a: 255 } }
}

/// The passable tile every generator carves floors with.
pub open spec fn floor_tile() -> Tile {
    Tile { collision: false, colour: Colour { r: 223, g: 201, b: 96, a: 255 } }
}

pub(crate) fn wall_tile_exec() -> (t: Tile)
    ensures
        t == wall_tile(),
{
    Tile { collision: true, colour: Colour { r: 128, g: 128, b: 128, a: 255 } }
}

pub(crate) fn floor_tile_exec() -> (t: Tile)
    ensures
        t == floor_tile(),
{
    Tile { collision: false, colour: Colour { r: 223, g: 201, b: 96, a: 255 } }
}

/// Which carving strategy to run.
#[derive(Copy, Clone, Debug)]
pub enum LevelStyle {
    Cyclic,
    CellularAutomata,
}

/// The kind of enemy to spawn at a generated spawn point.
#[derive(Copy, Clone, Debug, PartialEq, Eq, Structural)]
pub enum EnemyType {
    Chode,
    Shotgunner,
    Spinner,
}

/// A finished level: the carved map, where the player starts, where the
/// exit trigger stands, and the enemy spawn points.
pub struct GeneratedLevel {
    pub tile_map: TileMap,
    pub start_position: (i32, i32),
    pub exit_position: (i32, i32),
    pub chode_positions: Vec<(i32, i32, EnemyType)>,
}

/// A recoverable generation failure: a structural dead end of the
/// stochastic search, absorbed by the retry driver.
#[derive(Debug)]
pub struct StringErr(pub String);

/// The axis-aligned closed rectangle of cells `[x0, x1] x [y0, y1]`, all
/// holding tile `t`.
pub open spec fn rect_map(x0: int, x1: int, y0: int, y1: int, t: Tile) -> Map<(int, int), Tile> {
    Map::new(|p: (int, int)| x0 <= p.0 <= x1 && y0 <= p.1 <= y1, |p: (int, int)| t)
}

/// Stamps tile `t` over every cell of the closed rectangle
/// `[x0, x1] x [y0, y1]`.
pub(crate) fn fill_rect(tile_map: &mut TileMap, x0: i32, x1: i32, y0: i32, y1: i32, t: Tile)
    requires
        -0x4000_0000 <= x0 <= x1,
        x1 < 0x4000_0000,
        -0x4000_0000 <= y0 <= y1,
        y1 < 0x4000_0000,
    ensures
        final(tile_map)@ == old(tile_map)@.union_prefer_right(
            rect_map(x0 as int, x1 as int, y0 as int, y1 as int, t),
        ),
{
    let ghost m0 = old(tile_map)@;
    let mut x = x0;
    while x <= x1
        invariant
            -0x4000_0000 <= x0 <= x1,
            x1 < 0x4000_0000,
            -0x4000_0000 <= y0 <= y1,
            y1 < 0x4000_0000,
            x0 <= x,
            x <= x1 + 1,
            forall|p: (int, int)|
                #[trigger] opt_at(tile_map@, p) == if x0 <= p.0 < x && y0 <= p.1 <= y1 {
                    Some(t)
                } else {
                    opt_at(m0, p)
                },
        decreases x1 + 1 - x,
    {
        let mut y = y0;
        while y <= y1
            invariant
                -0x4000_0000 <= x0 <= x1,
                x1 < 0x4000_0000,
                -0x4000_0000 <= y0 <= y1,
                y1 < 0x4000_0000,
                x0 <= x <= x1,
                y0 <= y,
                y <= y1 + 1,
                forall|p: (int, int)|
                    #[trigger] opt_at(tile_map@, p) == if (x0 <= p.0 < x && y0 <= p.1 <= y1) || (
                    p.0 == x && y0 <= p.1 < y) {
                        Some(t)
                    } else {
                        opt_at(m0, p)
                    },
            decreases y1 + 1 - y,
        {
            let ghost prev = tile_map@;
            tile_map.insert((x, y), t);
            proof {
                assert forall|p: (int, int)| #[trigger] opt_at(tile_map@, p) == (if (x0 <= p.0 < x
                    && y0 <= p.1 <= y1) || (p.0 == x && y0 <= p.1 < y + 1) {
                    Some(t)
                } else {
                    opt_at(m0, p)
                }) by {
                    if p != (x as int, y as int) {
                        assert(opt_at(tile_map@, p) == opt_at(prev, p));
                    }
                }
            }
            y = y + 1;
        }
        x = x + 1;
    }
    proof {
        let r = rect_map(x0 as int, x1 as int, y0 as int, y1 as int, t);
        assert forall|p: (int, int)| #[trigger] opt_at(tile_map@, p) == opt_at(
            m0.union_prefer_right(r),
            p,
        ) by {}
        lemma_opt_at_ext(tile_map@, m0.union_prefer_right(r));
    }
}

/// The boss arena: a square of floor of half-side `BOSS_ARENA_SIZE`
/// centred on the origin, ringed by one tile of wall.
pub open spec fn boss_arena_map() -> Map<(int, int), Tile> {
    let b = BOSS_ARENA_SIZE as int;
    rect_map(-b - 1, b + 1, -b - 1, b + 1, wall_tile()).union_prefer_right(
        rect_map(-b, b, -b, b, floor_tile()),
    )
}

/// Runs the chosen carver until it succeeds, up to `max_attempts`
/// times; failures are structural dead ends of the stochastic search
/// and are simply retried with fresh randomness. The attempt count is
/// returned for testing and telemetry.
pub fn generate_level(style: LevelStyle, rng: &mut crate::random::RandomSource, max_attempts: u32)
    -> (r: Result<(GeneratedLevel, u32), StringErr>)
    requires
        max_attempts >= 1,
    ensures
        r matches Ok(t) ==> 1 <= t.1 <= max_attempts && (match style {
            LevelStyle::Cyclic => cyclic::generation_ok(t.0),
            LevelStyle::CellularAutomata => cellular_automata::generation_ok(t.0),
        }),
{
    let mut attempt: u32 = 0;
    while attempt < max_attempts
        invariant
            attempt <= max_attempts,
        decreases max_attempts - attempt,
    {
        let result = match style {
            LevelStyle::Cyclic => cyclic::try_generate_level(rng),
            LevelStyle::CellularAutomata => cellular_automata::try_generate_level(rng),
        };
        match result {
            Ok(l) => {
                return Ok((l, attempt + 1));
            },
            Err(_discarded) => {},
        }
        attempt = attempt + 1;
    }
    Err(StringErr("Generation attempts exhausted".to_owned()))
}

/// Builds the fixed boss arena.
pub fn make_boss_arena() -> (out: TileMap)
    ensures
        out@ == boss_arena_map(),
{
    let mut out = TileMap::new();
    fill_rect(
        &mut out,
        -BOSS_ARENA_SIZE - 1,
        BOSS_ARENA_SIZE + 1,
        -BOSS_ARENA_SIZE - 1,
        BOSS_ARENA_SIZE + 1,
        wall_tile_exec(),
    );
    fill_rect(&mut out, -BOSS_ARENA_SIZE, BOSS_ARENA_SIZE, -BOSS_ARENA_SIZE, BOSS_ARENA_SIZE, floor_tile_exec());
    proof {
        assert(out@ =~= boss_arena_map());
    }
    out
}

} // verus!
