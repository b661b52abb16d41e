//! The cellular-automata cave carver.
//!
//! A 50x50 boolean noise field is seeded at random, smoothed by
//! neighbourhood-count rules (out-of-bounds neighbours count as
//! blocking), and turned into a tile map ringed by one extra row of
//! wall. The start is the first open cell along the anti-diagonals from
//! the upper-left corner, the exit the first along the mirrored scan
//! from the lower-right; spawn candidates land on random open cells far
//! from the start.

use vstd::prelude::*;

verus! {

use crate::level_generation::fill_rect;
use crate::level_generation::floor_tile;
use crate::level_generation::floor_tile_exec;
use crate::level_generation::wall_tile;
use crate::level_generation::wall_tile_exec;
use crate::level_generation::EnemyType;
use crate::level_generation::GeneratedLevel;
use crate::level_generation::StringErr;
use crate::level_generation::cyclic::random_enemy_type;
use crate::physics::lemma_opt_at_ext;
use crate::physics::opt_at;
use crate::physics::Tile;
use crate::physics::TileMap;
use crate::random::RandomSource;

/// Side length of the cave's noise field, in tiles.
pub const LEVEL_SIZE: i32 = 50;

/// A well-formed noise field: one value per cell, each 0 (open) or 1
/// (blocking).
pub open spec fn noise_ok(s: Seq<u8>) -> bool {
    s.len() == 2500 && forall|i: int| 0 <= i < 2500 ==> #[trigger] s[i] <= 1
}

/// The field's value at `(x, y)`; out-of-bounds cells count as blocking.
pub open spec fn noise_at(s: Seq<u8>, x: int, y: int) -> int {
    if 0 <= x < 50 && 0 <= y < 50 {
        s[y * 50 + x] as int
    } else {
        1
    }
}

/// Sum of the field over row `y`, columns `[x0, x1)`.
pub open spec fn row_sum(s: Seq<u8>, y: int, x0: int, x1: int) -> int
    decreases x1 - x0,
{
    if x0 >= x1 {
        0
    } else {
        noise_at(s, x0, y) + row_sum(s, y, x0 + 1, x1)
    }
}

/// Sum of the field over rows `[y0, y1)`, columns `[x0, x1)`.
pub open spec fn box_sum(s: Seq<u8>, y0: int, y1: int, x0: int, x1: int) -> int
    decreases y1 - y0,
{
    if y0 >= y1 {
        0
    } else {
        row_sum(s, y0, x0, x1) + box_sum(s, y0 + 1, y1, x0, x1)
    }
}

/// The count of blocking cells in the `(2n+1)`-square neighbourhood of
/// `(x, y)`, the cell itself included.
pub open spec fn r_n_spec(s: Seq<u8>, n: int, x: int, y: int) -> int {
    box_sum(s, y - n, y + n + 1, x - n, x + n + 1)
}

/// Reads one cell of the field; out-of-bounds reads as blocking.
fn noise_get(level: &Vec<u8>, x: i32, y: i32) -> (v: u8)
    requires
        noise_ok(level@),
        -0x8000 <= x <= 0x8000,
        -0x8000 <= y <= 0x8000,
    ensures
        v as int == noise_at(level@, x as int, y as int),
        v <= 1,
{
    if 0 <= x && x < 50 && 0 <= y && y < 50 {
        level[(y * 50 + x) as usize]
    } else {
        1
    }
}

/// The neighbourhood count around `c` with radius `n`.
fn r_n(level: &Vec<u8>, n: i32, c: (i32, i32)) -> (total: i32)
    requires
        noise_ok(level@),
        1 <= n <= 2,
        -0x1000 <= c.0 <= 0x1000,
        -0x1000 <= c.1 <= 0x1000,
    ensures
        total == r_n_spec(level@, n as int, c.0 as int, c.1 as int),
{
    let ghost s = level@;
    let x0 = c.0 - n;
    let x1 = c.0 + n + 1;
    let y1 = c.1 + n + 1;
    let mut total: i32 = 0;
    let mut yy = c.1 - n;
    while yy < y1
        invariant
            noise_ok(s),
            s == level@,
            x0 == c.0 - n,
            x1 == c.0 + n + 1,
            y1 == c.1 + n + 1,
            1 <= n <= 2,
            -0x1000 <= c.0 <= 0x1000,
            -0x1000 <= c.1 <= 0x1000,
            c.1 - n <= yy <= y1,
            0 <= total <= 25 * (yy - (c.1 - n)),
            r_n_spec(s, n as int, c.0 as int, c.1 as int) == total + box_sum(
                s,
                yy as int,
                y1 as int,
                x0 as int,
                x1 as int,
            ),
        decreases y1 - yy,
    {
        let mut xx = x0;
        let mut row_acc: i32 = 0;
        while xx < x1
            invariant
                noise_ok(s),
                s == level@,
                x0 == c.0 - n,
                x1 == c.0 + n + 1,
                1 <= n <= 2,
                -0x1000 <= c.0 <= 0x1000,
                -0x1000 <= c.1 <= 0x1000,
                -0x1000 - 2 <= yy <= 0x1000 + 3,
                x0 <= xx <= x1,
                0 <= row_acc <= xx - x0,
                row_sum(s, yy as int, x0 as int, x1 as int) == row_acc + row_sum(
                    s,
                    yy as int,
                    xx as int,
                    x1 as int,
                ),
            decreases x1 - xx,
        {
            let v = noise_get(level, xx, yy);
            row_acc = row_acc + (v as i32);
            xx = xx + 1;
        }
        total = total + row_acc;
        yy = yy + 1;
    }
    total
}

/// The smoothing rule's output at one cell: blocking when the 3x3 count
/// reaches 5, or, where the wide rule is on, when the 5x5 count is at
/// most 2.
pub open spec fn smoothed(s: Seq<u8>, use_r2: bool, x: int, y: int) -> u8 {
    if r_n_spec(s, 1, x, y) >= 5 || (use_r2 && r_n_spec(s, 2, x, y) <= 2) {
        1u8
    } else {
        0u8
    }
}

/// One whole smoothing pass over the field.
pub open spec fn smooth_grid(s: Seq<u8>, use_r2: bool) -> Seq<u8> {
    Seq::new(2500, |i: int| smoothed(s, use_r2, i % 50, i / 50))
}

/// `k` smoothing passes.
pub open spec fn smooth_n(s: Seq<u8>, k: nat, use_r2: bool) -> Seq<u8>
    decreases k,
{
    if k == 0 {
        s
    } else {
        smooth_grid(smooth_n(s, (k - 1) as nat, use_r2), use_r2)
    }
}

/// The finished cave field: four passes of the wide rule, then three of
/// the strict rule.
pub open spec fn cave_field(s0: Seq<u8>) -> Seq<u8> {
    smooth_n(smooth_n(s0, 4, true), 3, false)
}

/// Applies one smoothing pass.
fn smooth_step(level: &Vec<u8>, use_r2: bool) -> (next: Vec<u8>)
    requires
        noise_ok(level@),
    ensures
        next@ == smooth_grid(level@, use_r2),
        noise_ok(next@),
{
    let ghost s = level@;
    let mut next: Vec<u8> = Vec::new();
    let mut y: i32 = 0;
    while y < 50
        invariant
            noise_ok(s),
            s == level@,
            0 <= y <= 50,
            next@.len() == y * 50,
            forall|i: int|
                0 <= i < next@.len() ==> #[trigger] next@[i] == smoothed(s, use_r2, i % 50, i / 50),
        decreases 50 - y,
    {
        let mut x: i32 = 0;
        while x < 50
            invariant
                noise_ok(s),
                s == level@,
                0 <= y < 50,
                0 <= x <= 50,
                next@.len() == y * 50 + x,
                forall|i: int|
                    0 <= i < next@.len() ==> #[trigger] next@[i] == smoothed(
                        s,
                        use_r2,
                        i % 50,
                        i / 50,
                    ),
            decreases 50 - x,
        {
            let r1 = r_n(level, 1, (x, y));
            let blocking: bool = if r1 >= 5 {
                true
            } else if use_r2 {
                r_n(level, 2, (x, y)) <= 2
            } else {
                false
            };
            let v: u8 = if blocking {
                1
            } else {
                0
            };
            proof {
                let idx = y * 50 + x;
                vstd::arithmetic::div_mod::lemma_fundamental_div_mod_converse(
                    idx as int,
                    50,
                    y as int,
                    x as int,
                );
                assert(v == smoothed(s, use_r2, idx as int % 50, idx as int / 50));
            }
            next.push(v);
            x = x + 1;
        }
        y = y + 1;
    }
    proof {
        assert(next@ =~= smooth_grid(s, use_r2));
    }
    next
}

/// Seeds the noise field: each cell independently blocking with
/// probability two fifths.
fn seed_noise(rng: &mut RandomSource) -> (field: Vec<u8>)
    ensures
        noise_ok(field@),
{
    let mut field: Vec<u8> = Vec::new();
    let mut i: i32 = 0;
    while i < 2500
        invariant
            0 <= i <= 2500,
            field@.len() == i,
            forall|k: int| 0 <= k < field@.len() ==> #[trigger] field@[k] <= 1,
        decreases 2500 - i,
    {
        let v: u8 = if rng.gen_range(0, 100) < 40 {
            1
        } else {
            0
        };
        field.push(v);
        i = i + 1;
    }
    field
}

/// The tile map a finished field converts to: the square `[-1, 50]` on
/// both axes, open where the field is open, blocking elsewhere — in
/// particular along the whole border ring.
pub open spec fn cave_map(s: Seq<u8>) -> Map<(int, int), Tile> {
    Map::new(
        |p: (int, int)| -1 <= p.0 <= 50 && -1 <= p.1 <= 50,
        |p: (int, int)|
            if noise_at(s, p.0, p.1) == 0 {
                floor_tile()
            } else {
                wall_tile()
            },
    )
}

/// Converts the field into its tile map.
fn noise_to_tilemap(level: &Vec<u8>) -> (tm: TileMap)
    requires
        noise_ok(level@),
    ensures
        tm@ == cave_map(level@),
{
    let ghost s = level@;
    let mut tm = TileMap::new();
    fill_rect(&mut tm, -1, 50, -1, 50, wall_tile_exec());
    let mut y: i32 = 0;
    while y < 50
        invariant
            noise_ok(s),
            s == level@,
            0 <= y <= 50,
            forall|p: (int, int)|
                #[trigger] opt_at(tm@, p) == (if -1 <= p.0 <= 50 && -1 <= p.1 <= 50 {
                    if 0 <= p.0 < 50 && 0 <= p.1 < y && noise_at(s, p.0, p.1) == 0 {
                        Some(floor_tile())
                    } else {
                        Some(wall_tile())
                    }
                } else {
                    None
                }),
        decreases 50 - y,
    {
        let mut x: i32 = 0;
        while x < 50
            invariant
                noise_ok(s),
                s == level@,
                0 <= y < 50,
                0 <= x <= 50,
                forall|p: (int, int)|
                    #[trigger] opt_at(tm@, p) == (if -1 <= p.0 <= 50 && -1 <= p.1 <= 50 {
                        if 0 <= p.0 < 50 && 0 <= p.1 < 50 && noise_at(s, p.0, p.1) == 0 && (p.1 < y
                            || (p.1 == y && p.0 < x)) {
                            Some(floor_tile())
                        } else {
                            Some(wall_tile())
                        }
                    } else {
                        None
                    }),
            decreases 50 - x,
        {
            let v = noise_get(level, x, y);
            if v == 0 {
                let ghost prev = tm@;
                tm.insert((x, y), floor_tile_exec());
                proof {
                    assert forall|p: (int, int)| #[trigger] opt_at(tm@, p) == (if -1 <= p.0 <= 50
                        && -1 <= p.1 <= 50 {
                        if 0 <= p.0 < 50 && 0 <= p.1 < 50 && noise_at(s, p.0, p.1) == 0 && (p.1 < y
                            || (p.1 == y && p.0 < x + 1)) {
                            Some(floor_tile())
                        } else {
                            Some(wall_tile())
                        }
                    } else {
                        None
                    }) by {
                        if p != (x as int, y as int) {
                            assert(opt_at(tm@, p) == opt_at(prev, p));
                        }
                    }
                }
            }
            x = x + 1;
        }
        y = y + 1;
    }
    proof {
        assert forall|p: (int, int)| #[trigger] opt_at(tm@, p) == opt_at(cave_map(s), p) by {}
        lemma_opt_at_ext(tm@, cave_map(s));
    }
    tm
}

/// Whether `a` comes before `b` in the start scan: along anti-diagonals
/// from the upper-left corner, upper-right first within a diagonal.
pub open spec fn diag_before(a: (int, int), b: (int, int)) -> bool {
    a.0 + a.1 < b.0 + b.1 || (a.0 + a.1 == b.0 + b.1 && a.0 < b.0)
}

/// Whether `a` comes before `b` in the exit scan, the mirror of the
/// start scan from the lower-right corner.
pub open spec fn diag_after(a: (int, int), b: (int, int)) -> bool {
    a.0 + a.1 > b.0 + b.1 || (a.0 + a.1 == b.0 + b.1 && a.0 > b.0)
}

/// Whether the field is open at the in-bounds cell `c`.
pub open spec fn open_cell(s: Seq<u8>, c: (int, int)) -> bool {
    0 <= c.0 < 50 && 0 <= c.1 < 50 && noise_at(s, c.0, c.1) == 0
}

/// The first open cell of the start scan, if any.
fn find_start(level: &Vec<u8>) -> (r: Option<(i32, i32)>)
    requires
        noise_ok(level@),
    ensures
        r matches Some(c) ==> open_cell(level@, (c.0 as int, c.1 as int)) && forall|d: (int, int)|
            open_cell(level@, d) ==> !diag_before(d, (c.0 as int, c.1 as int)),
        r is None ==> forall|d: (int, int)| !open_cell(level@, d),
{
    let ghost s = level@;
    let mut diag: i32 = 0;
    while diag <= 98
        invariant
            noise_ok(s),
            s == level@,
            0 <= diag <= 99,
            forall|d: (int, int)| open_cell(s, d) ==> d.0 + d.1 >= diag,
        decreases 99 - diag,
    {
        let xlo = if diag >= 49 {
            diag - 49
        } else {
            0
        };
        let mut x = xlo;
        while x <= diag && x < 50
            invariant
                noise_ok(s),
                s == level@,
                0 <= diag <= 98,
                xlo == (if diag >= 49 {
                    diag - 49
                } else {
                    0
                }),
                xlo <= x,
                forall|d: (int, int)| open_cell(s, d) ==> d.0 + d.1 >= diag,
                forall|d: (int, int)| open_cell(s, d) && d.0 + d.1 == diag ==> d.0 >= x,
            decreases 50 - x,
        {
            let y = diag - x;
            if y < 50 {
                if noise_get(level, x, y) == 0 {
                    return Some((x, y));
                }
            }
            proof {
                assert forall|d: (int, int)|
                    open_cell(s, d) && d.0 + d.1 == diag implies d.0 >= x + 1 by {
                    if d.0 == x {
                        assert(d.1 == diag - x);
                        assert(noise_at(s, d.0, d.1) != 0);
                    }
                }
            }
            x = x + 1;
        }
        proof {
            assert forall|d: (int, int)| open_cell(s, d) implies d.0 + d.1 >= diag + 1 by {
                if d.0 + d.1 == diag {
                    assert(d.0 <= 49 && d.0 <= diag);
                }
            }
        }
        diag = diag + 1;
    }
    proof {
        assert forall|d: (int, int)| !open_cell(s, d) by {
            if open_cell(s, d) {
                assert(d.0 + d.1 <= 98);
            }
        }
    }
    None
}

/// The first open cell of the exit scan, if any.
fn find_exit(level: &Vec<u8>) -> (r: Option<(i32, i32)>)
    requires
        noise_ok(level@),
    ensures
        r matches Some(c) ==> open_cell(level@, (c.0 as int, c.1 as int)) && forall|d: (int, int)|
            open_cell(level@, d) ==> !diag_after(d, (c.0 as int, c.1 as int)),
        r is None ==> forall|d: (int, int)| !open_cell(level@, d),
{
    let ghost s = level@;
    let mut diag: i32 = 98;
    while diag >= 0
        invariant
            noise_ok(s),
            s == level@,
            -1 <= diag <= 98,
            forall|d: (int, int)| open_cell(s, d) ==> d.0 + d.1 <= diag,
        decreases diag + 1,
    {
        let xhi = if diag <= 49 {
            diag
        } else {
            49
        };
        let mut x = xhi;
        while x >= 0 && diag - x < 50
            invariant
                noise_ok(s),
                s == level@,
                0 <= diag <= 98,
                xhi == (if diag <= 49 {
                    diag
                } else {
                    49
                }),
                -1 <= x <= xhi,
                forall|d: (int, int)| open_cell(s, d) ==> d.0 + d.1 <= diag,
                forall|d: (int, int)| open_cell(s, d) && d.0 + d.1 == diag ==> d.0 <= x,
            decreases x + 1,
        {
            let y = diag - x;
            if noise_get(level, x, y) == 0 {
                return Some((x, y));
            }
            proof {
                assert forall|d: (int, int)|
                    open_cell(s, d) && d.0 + d.1 == diag implies d.0 <= x - 1 by {
                    if d.0 == x {
                        assert(d.1 == diag - x);
                        assert(noise_at(s, d.0, d.1) != 0);
                    }
                }
            }
            x = x - 1;
        }
        proof {
            assert forall|d: (int, int)| open_cell(s, d) implies d.0 + d.1 <= diag - 1 by {
                if d.0 + d.1 == diag {
                    assert(d.0 >= 0 && diag - d.0 <= 49);
                }
            }
        }
        diag = diag - 1;
    }
    None
}

/// A spawn point is an open in-bounds cell at least ten tiles from the
/// start on some axis.
pub open spec fn cave_spawn_ok(e: (i32, i32, EnemyType), s: Seq<u8>, start: (int, int)) -> bool {
    &&& open_cell(s, (e.0 as int, e.1 as int))
    &&& (e.0 as int - start.0 >= 10 || start.0 - e.0 as int >= 10 || e.1 as int - start.1 >= 10
        || start.1 - e.1 as int >= 10)
}

/// Draws 30 candidate cells uniformly at random and keeps those that
/// are open and far enough from the start.
fn scatter_spawns(level: &Vec<u8>, start: (i32, i32), rng: &mut RandomSource) -> (out: Vec<
    (i32, i32, EnemyType),
>)
    requires
        noise_ok(level@),
        0 <= start.0 < 50,
        0 <= start.1 < 50,
    ensures
        out@.len() <= 30,
        forall|i: int|
            0 <= i < out@.len() ==> cave_spawn_ok(
                #[trigger] out@[i],
                level@,
                (start.0 as int, start.1 as int),
            ),
{
    let ghost s = level@;
    let mut out: Vec<(i32, i32, EnemyType)> = Vec::new();
    let mut i: i32 = 0;
    while i < 30
        invariant
            noise_ok(s),
            s == level@,
            0 <= start.0 < 50,
            0 <= start.1 < 50,
            0 <= i <= 30,
            out@.len() <= i,
            forall|k: int|
                0 <= k < out@.len() ==> cave_spawn_ok(
                    #[trigger] out@[k],
                    s,
                    (start.0 as int, start.1 as int),
                ),
        decreases 30 - i,
    {
        let px = rng.gen_range(0, LEVEL_SIZE);
        let py = rng.gen_range(0, LEVEL_SIZE);
        let kind = random_enemy_type(rng);
        let dx = if px >= start.0 {
            px - start.0
        } else {
            start.0 - px
        };
        let dy = if py >= start.1 {
            py - start.1
        } else {
            start.1 - py
        };
        if noise_get(level, px, py) == 0 && (dx >= 10 || dy >= 10) {
            out.push((px, py, kind));
        }
        i = i + 1;
    }
    out
}

/// What a successful cave generation hands back, relative to the
/// finished (smoothed) noise field it carved.
pub open spec fn cave_matches(l: GeneratedLevel, s: Seq<u8>) -> bool {
    &&& noise_ok(s)
    &&& l.tile_map@ == cave_map(s)
    &&& open_cell(s, (l.start_position.0 as int, l.start_position.1 as int))
    &&& forall|d: (int, int)|
        open_cell(s, d) ==> !diag_before(
            d,
            (l.start_position.0 as int, l.start_position.1 as int),
        )
    &&& open_cell(s, (l.exit_position.0 as int, l.exit_position.1 as int))
    &&& forall|d: (int, int)|
        open_cell(s, d) ==> !diag_after(d, (l.exit_position.0 as int, l.exit_position.1 as int))
    &&& l.chode_positions@.len() <= 30
    &&& forall|i: int|
        0 <= i < l.chode_positions@.len() ==> cave_spawn_ok(
            #[trigger] l.chode_positions@[i],
            s,
            (l.start_position.0 as int, l.start_position.1 as int),
        )
}

/// A level is a valid cave generation result: it matches the smoothing
/// of some well-formed seed field.
pub open spec fn generation_ok(l: GeneratedLevel) -> bool {
    exists|s0: Seq<u8>| noise_ok(s0) && #[trigger] cave_matches(l, cave_field(s0))
}

/// One attempt at generating a cave level. The only failure is the rare
/// field with no open start or exit cell; a success matches the
/// smoothing of the random seed field exactly.
pub fn try_generate_level(rng: &mut RandomSource) -> (r: Result<GeneratedLevel, StringErr>)
    ensures
        r matches Ok(l) ==> generation_ok(l),
{
    let f0 = seed_noise(rng);
    let ghost s0 = f0@;
    let f1 = smooth_step(&f0, true);
    let f2 = smooth_step(&f1, true);
    let f3 = smooth_step(&f2, true);
    let f4 = smooth_step(&f3, true);
    let f5 = smooth_step(&f4, false);
    let f6 = smooth_step(&f5, false);
    let field = smooth_step(&f6, false);
    proof {
        reveal_with_fuel(smooth_n, 5);
        assert(f1@ == smooth_n(s0, 1, true));
        assert(f2@ == smooth_n(s0, 2, true));
        assert(f3@ == smooth_n(s0, 3, true));
        assert(f4@ == smooth_n(s0, 4, true));
        assert(f5@ == smooth_n(f4@, 1, false));
        assert(f6@ == smooth_n(f4@, 2, false));
        assert(field@ == smooth_n(f4@, 3, false));
        assert(field@ == cave_field(s0));
    }
    let tile_map = noise_to_tilemap(&field);
    let start_position = match find_start(&field) {
        None => {
            return Err(StringErr("No open start cell".to_owned()));
        },
        Some(c) => c,
    };
    let exit_position = match find_exit(&field) {
        None => {
            return Err(StringErr("No open exit cell".to_owned()));
        },
        Some(c) => c,
    };
    let chode_positions = scatter_spawns(&field, start_position, rng);
    let level = GeneratedLevel { tile_map, start_position, exit_position, chode_positions };
    proof {
        assert(cave_matches(level, cave_field(s0)));
        assert(generation_ok(level));
    }
    Ok(level)
}

} // verus!
