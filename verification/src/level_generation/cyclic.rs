//! The cyclic path carver.
//!
//! It grows a self-avoiding loop of rooms on a coarse room lattice (one
//! lattice step is twenty tiles), hangs a short side path off the
//! loop's interior, then carves an 11x11 bordered room at every lattice
//! cell of both paths and a bordered corridor between each consecutive
//! pair. Dead ends of the random walk and paths over the length bounds
//! are reported as recoverable failures.

use vstd::prelude::*;

verus! {

use crate::level_generation::fill_rect;
use crate::level_generation::floor_tile;
use crate::level_generation::floor_tile_exec;
use crate::level_generation::wall_tile;
use crate::level_generation::wall_tile_exec;
use crate::level_generation::EnemyType;
use crate::level_generation::GeneratedLevel;
use crate::level_generation::StringErr;
use crate::physics::abs_spec;
use crate::physics::lemma_opt_at_ext;
use crate::physics::opt_at;
use crate::physics::Tile;
use crate::physics::TileMap;
use crate::random::RandomSource;

/// Manhattan distance between two room-lattice cells.
pub open spec fn man_dist(a: (int, int), b: (int, int)) -> int {
    abs_spec(a.0 - b.0) + abs_spec(a.1 - b.1)
}

fn manhatten_distance(from: (i32, i32), to: (i32, i32)) -> (d: i32)
    requires
        -0x4000 <= from.0 <= 0x4000,
        -0x4000 <= from.1 <= 0x4000,
        -0x4000 <= to.0 <= 0x4000,
        -0x4000 <= to.1 <= 0x4000,
    ensures
        d as int == man_dist((from.0 as int, from.1 as int), (to.0 as int, to.1 as int)),
{
    let dx = if from.0 >= to.0 {
        from.0 - to.0
    } else {
        to.0 - from.0
    };
    let dy = if from.1 >= to.1 {
        from.1 - to.1
    } else {
        to.1 - from.1
    };
    dx + dy
}

/// The footprint a room stamps at lattice cell `r` with interior size
/// `(sw, sh)`: a one-tile blocking border around a passable interior.
pub open spec fn room_footprint_sized(r: (int, int), sw: int, sh: int) -> Map<(int, int), Tile> {
    Map::new(
        |q: (int, int)|
            20 * r.0 - 1 <= q.0 <= 20 * r.0 + sw && 20 * r.1 - 1 <= q.1 <= 20 * r.1 + sh,
        |q: (int, int)|
            if 20 * r.0 <= q.0 <= 20 * r.0 + sw - 1 && 20 * r.1 <= q.1 <= 20 * r.1 + sh - 1 {
                floor_tile()
            } else {
                wall_tile()
            },
    )
}

/// The footprint of the standard 10x10 room.
pub open spec fn room_footprint(r: (int, int)) -> Map<(int, int), Tile> {
    room_footprint_sized(r, 10, 10)
}

/// Stamps a bordered room into the tile map at lattice cell `position`.
fn carve_room(position: (i32, i32), size: (i32, i32), tile_map: &mut TileMap)
    requires
        -0x100 <= position.0 <= 0x100,
        -0x100 <= position.1 <= 0x100,
        1 <= size.0 <= 0x100,
        1 <= size.1 <= 0x100,
    ensures
        final(tile_map)@ == old(tile_map)@.union_prefer_right(
            room_footprint_sized((position.0 as int, position.1 as int), size.0 as int, size.1 as int),
        ),
{
    let ghost m0 = old(tile_map)@;
    let bx = position.0 * 20;
    let by = position.1 * 20;
    fill_rect(tile_map, bx - 1, bx + size.0, by - 1, by + size.1, wall_tile_exec());
    fill_rect(tile_map, bx, bx + size.0 - 1, by, by + size.1 - 1, floor_tile_exec());
    proof {
        let fp = room_footprint_sized(
            (position.0 as int, position.1 as int),
            size.0 as int,
            size.1 as int,
        );
        assert forall|p: (int, int)| #[trigger] opt_at(tile_map@, p) == opt_at(
            m0.union_prefer_right(fp),
            p,
        ) by {}
        lemma_opt_at_ext(tile_map@, m0.union_prefer_right(fp));
    }
}

/// The strip a corridor stamps between the adjacent lattice cells `a`
/// and `b`: a six-tile-wide passable lane with one blocking row on each
/// side, spanning the gap between the two room footprints and breaking
/// through their walls.
pub open spec fn corridor_map(a: (int, int), b: (int, int)) -> Map<(int, int), Tile> {
    if a.1 == b.1 {
        let lo = if a.0 <= b.0 {
            a
        } else {
            b
        };
        Map::new(
            |q: (int, int)|
                20 * lo.0 + 10 <= q.0 <= 20 * lo.0 + 19 && 20 * lo.1 + 1 <= q.1 <= 20 * lo.1 + 8,
            |q: (int, int)|
                if 20 * lo.1 + 2 <= q.1 <= 20 * lo.1 + 7 {
                    floor_tile()
                } else {
                    wall_tile()
                },
        )
    } else {
        let lo = if a.1 <= b.1 {
            a
        } else {
            b
        };
        Map::new(
            |q: (int, int)|
                20 * lo.0 + 1 <= q.0 <= 20 * lo.0 + 8 && 20 * lo.1 + 10 <= q.1 <= 20 * lo.1 + 19,
            |q: (int, int)|
                if 20 * lo.0 + 2 <= q.0 <= 20 * lo.0 + 7 {
                    floor_tile()
                } else {
                    wall_tile()
                },
        )
    }
}

/// Carves the corridor between the adjacent lattice cells `a` and `b`.
fn carve_corridor(a: (i32, i32), b: (i32, i32), tile_map: &mut TileMap)
    requires
        -0x100 <= a.0 <= 0x100,
        -0x100 <= a.1 <= 0x100,
        -0x100 <= b.0 <= 0x100,
        -0x100 <= b.1 <= 0x100,
        man_dist((a.0 as int, a.1 as int), (b.0 as int, b.1 as int)) == 1,
    ensures
        final(tile_map)@ == old(tile_map)@.union_prefer_right(
            corridor_map((a.0 as int, a.1 as int), (b.0 as int, b.1 as int)),
        ),
{
    let ghost m0 = old(tile_map)@;
    let ghost cm = corridor_map((a.0 as int, a.1 as int), (b.0 as int, b.1 as int));
    if a.1 == b.1 {
        let lo = if a.0 <= b.0 {
            a
        } else {
            b
        };
        let bx = lo.0 * 20;
        let by = lo.1 * 20;
        fill_rect(tile_map, bx + 10, bx + 19, by + 1, by + 8, wall_tile_exec());
        fill_rect(tile_map, bx + 10, bx + 19, by + 2, by + 7, floor_tile_exec());
    } else {
        let lo = if a.1 <= b.1 {
            a
        } else {
            b
        };
        let bx = lo.0 * 20;
        let by = lo.1 * 20;
        fill_rect(tile_map, bx + 1, bx + 8, by + 10, by + 19, wall_tile_exec());
        fill_rect(tile_map, bx + 2, bx + 7, by + 10, by + 19, floor_tile_exec());
    }
    proof {
        assert forall|p: (int, int)| #[trigger] opt_at(tile_map@, p) == opt_at(
            m0.union_prefer_right(cm),
            p,
        ) by {}
        lemma_opt_at_ext(tile_map@, m0.union_prefer_right(cm));
    }
}

// ------------------------------------------------------------------
// Path predicates and the carved-level model
// ------------------------------------------------------------------

/// The room-lattice cells of an executable path, as mathematical pairs.
pub open spec fn cells_view(s: Seq<(i32, i32)>) -> Seq<(int, int)> {
    s.map_values(|c: (i32, i32)| (c.0 as int, c.1 as int))
}

/// Every consecutive pair of cells is one lattice step apart.
pub open spec fn adjacent_steps(s: Seq<(int, int)>) -> bool {
    forall|i: int| 0 <= i < s.len() - 1 ==> man_dist(#[trigger] s[i], s[i + 1]) == 1
}

/// No cell repeats.
pub open spec fn distinct_cells(s: Seq<(int, int)>) -> bool {
    forall|i: int, j: int| 0 <= i < j < s.len() ==> s[i] != s[j]
}

/// Every cell's coordinates stay within `bound` of the origin.
pub open spec fn cells_bounded(s: Seq<(int, int)>, bound: int) -> bool {
    forall|i: int|
        0 <= i < s.len() ==> abs_spec((#[trigger] s[i]).0) <= bound && abs_spec(s[i].1) <= bound
}

/// The shape of a finished primary path: a self-avoiding loop of 5 to 10
/// lattice cells that starts at the origin and returns to it, each step
/// one lattice cell. In particular its second-to-last cell is adjacent
/// to the origin: the loop closes.
pub open spec fn primary_ok(p: Seq<(int, int)>) -> bool {
    &&& 5 <= p.len() <= 10
    &&& p[0] == (0int, 0int)
    &&& p[p.len() - 1] == (0int, 0int)
    &&& adjacent_steps(p)
    &&& distinct_cells(p.take(p.len() - 1))
    &&& cells_bounded(p, 16)
}

/// The shape of a finished side path: 4 to 8 cells, starting on the
/// interior of the primary path, wandering through fresh cells, and
/// reconnecting to a primary cell as its last entry.
pub open spec fn side_ok(p: Seq<(int, int)>, sp: Seq<(int, int)>) -> bool {
    &&& 4 <= sp.len() <= 8
    &&& adjacent_steps(sp)
    &&& exists|j: int| 2 <= j <= 4 && j < p.len() - 1 && sp[0] == #[trigger] p[j]
    &&& exists|k: int| 0 <= k < p.len() - 1 && sp[sp.len() - 1] == #[trigger] p[k]
    &&& forall|i: int| 1 <= i < sp.len() - 1 ==> !p.contains(#[trigger] sp[i])
    &&& distinct_cells(sp.take(sp.len() - 1))
    &&& cells_bounded(sp, 16)
}

/// `base` overlaid with the footprints of the first `k` rooms of
/// `rooms`, in order.
pub open spec fn stamp_rooms(
    base: Map<(int, int), Tile>,
    rooms: Seq<(int, int)>,
    k: int,
) -> Map<(int, int), Tile>
    decreases k,
{
    if k <= 0 {
        base
    } else {
        stamp_rooms(base, rooms, k - 1).union_prefer_right(room_footprint(rooms[k - 1]))
    }
}

/// `base` overlaid with the corridors of the first `k` edges of `path`,
/// in order.
pub open spec fn stamp_corridors(
    base: Map<(int, int), Tile>,
    path: Seq<(int, int)>,
    k: int,
) -> Map<(int, int), Tile>
    decreases k,
{
    if k <= 0 {
        base
    } else {
        stamp_corridors(base, path, k - 1).union_prefer_right(
            corridor_map(path[k - 1], path[k]),
        )
    }
}

/// The whole carved level: every room of the primary path, then every
/// room of the side path, then the corridors along the primary path,
/// then the corridors along the side path, each stamp overwriting what
/// lies under it.
#[verifier::opaque]
pub open spec fn carved_level_map(p: Seq<(int, int)>, sp: Seq<(int, int)>) -> Map<
    (int, int),
    Tile,
> {
    let rooms = stamp_rooms(stamp_rooms(Map::empty(), p, p.len() as int), sp, sp.len() as int);
    stamp_corridors(stamp_corridors(rooms, p, p.len() - 1), sp, sp.len() - 1)
}

/// A spawn point lies at a random interior offset of a non-origin room
/// of one of the two paths.
pub open spec fn spawn_ok(s: (i32, i32, EnemyType), p: Seq<(int, int)>, sp: Seq<(int, int)>) -> bool {
    exists|r: (int, int)|
        #![trigger p.contains(r)]
        #![trigger sp.contains(r)]
        (p.contains(r) || sp.contains(r)) && r != (0int, 0int) && 20 * r.0 + 2 <= s.0 as int <= 20
            * r.0 + 7 && 20 * r.1 + 2 <= s.1 as int <= 20 * r.1 + 7
}

// ------------------------------------------------------------------
// Growing the paths
// ------------------------------------------------------------------

fn contains_cell(cells: &Vec<(i32, i32)>, c: (i32, i32)) -> (b: bool)
    ensures
        b == cells_view(cells@).contains((c.0 as int, c.1 as int)),
{
    let ghost target = (c.0 as int, c.1 as int);
    let mut i: usize = 0;
    while i < cells.len()
        invariant
            i <= cells@.len(),
            target == (c.0 as int, c.1 as int),
            forall|k: int| 0 <= k < i ==> #[trigger] cells_view(cells@)[k] != target,
        decreases cells@.len() - i,
    {
        let e = cells[i];
        if e.0 == c.0 && e.1 == c.1 {
            proof {
                assert(cells_view(cells@)[i as int] == target);
            }
            return true;
        }
        proof {
            assert(cells_view(cells@)[i as int] == (e.0 as int, e.1 as int));
        }
        i = i + 1;
    }
    proof {
        if cells_view(cells@).contains(target) {
            let k = choose|k: int|
                0 <= k < cells_view(cells@).len() && cells_view(cells@)[k] == target;
            assert(cells_view(cells@)[k] != target);
        }
    }
    false
}

/// Whether all four lattice neighbours of `c` appear in `v`.
pub open spec fn neighbors_all_visited(v: Seq<(int, int)>, c: (int, int)) -> bool {
    &&& v.contains((c.0 - 1, c.1))
    &&& v.contains((c.0 + 1, c.1))
    &&& v.contains((c.0, c.1 - 1))
    &&& v.contains((c.0, c.1 + 1))
}

/// What any step choice guarantees: the chosen cell is an unvisited
/// lattice neighbour of `current`.
pub open spec fn good_step(visited: Seq<(int, int)>, current: (int, int), c: (i32, i32)) -> bool {
    &&& man_dist(current, (c.0 as int, c.1 as int)) == 1
    &&& !visited.contains((c.0 as int, c.1 as int))
    &&& current.0 - 1 <= c.0 as int <= current.0 + 1
    &&& current.1 - 1 <= c.1 as int <= current.1 + 1
}

/// Picks one unvisited lattice neighbour of `current` uniformly at
/// random; yields `None` exactly when all four are visited.
fn choose_step(visited: &Vec<(i32, i32)>, current: (i32, i32), rng: &mut RandomSource) -> (r:
    Option<(i32, i32)>)
    requires
        -0x1000 <= current.0 <= 0x1000,
        -0x1000 <= current.1 <= 0x1000,
    ensures
        r is None <==> neighbors_all_visited(
            cells_view(visited@),
            (current.0 as int, current.1 as int),
        ),
        r matches Some(c) ==> good_step(
            cells_view(visited@),
            (current.0 as int, current.1 as int),
            c,
        ),
{
    let ghost v = cells_view(visited@);
    let ghost cur = (current.0 as int, current.1 as int);
    let mut choices: Vec<(i32, i32)> = Vec::new();
    let n1 = (current.0 - 1, current.1);
    if !contains_cell(visited, n1) {
        choices.push(n1);
    }
    let n2 = (current.0 + 1, current.1);
    if !contains_cell(visited, n2) {
        choices.push(n2);
    }
    let n3 = (current.0, current.1 - 1);
    if !contains_cell(visited, n3) {
        choices.push(n3);
    }
    let n4 = (current.0, current.1 + 1);
    if !contains_cell(visited, n4) {
        choices.push(n4);
    }
    assert(forall|k: int| 0 <= k < choices@.len() ==> good_step(v, cur, #[trigger] choices@[k]));
    assert(choices@.len() == 0 <==> neighbors_all_visited(v, cur));
    if choices.len() == 0 {
        None
    } else {
        let idx = rng.gen_range(0, choices.len() as i32) as usize;
        Some(choices[idx])
    }
}

/// Like `choose_step`, but a neighbour that strictly decreases the
/// Manhattan distance to `target` appears twice in the candidate pool,
/// biasing the walk toward it. The guarantees are the same; only the
/// distribution changes.
fn choose_step_biased(
    visited: &Vec<(i32, i32)>,
    current: (i32, i32),
    target: (i32, i32),
    rng: &mut RandomSource,
) -> (r: Option<(i32, i32)>)
    requires
        -0x1000 <= current.0 <= 0x1000,
        -0x1000 <= current.1 <= 0x1000,
        -0x1000 <= target.0 <= 0x1000,
        -0x1000 <= target.1 <= 0x1000,
    ensures
        r is None <==> neighbors_all_visited(
            cells_view(visited@),
            (current.0 as int, current.1 as int),
        ),
        r matches Some(c) ==> good_step(
            cells_view(visited@),
            (current.0 as int, current.1 as int),
            c,
        ),
{
    let ghost v = cells_view(visited@);
    let ghost cur = (current.0 as int, current.1 as int);
    let here = manhatten_distance(current, target);
    let mut choices: Vec<(i32, i32)> = Vec::new();
    let n1 = (current.0 - 1, current.1);
    if !contains_cell(visited, n1) {
        choices.push(n1);
        if manhatten_distance(n1, target) < here {
            choices.push(n1);
        }
    }
    let n2 = (current.0 + 1, current.1);
    if !contains_cell(visited, n2) {
        choices.push(n2);
        if manhatten_distance(n2, target) < here {
            choices.push(n2);
        }
    }
    let n3 = (current.0, current.1 - 1);
    if !contains_cell(visited, n3) {
        choices.push(n3);
        if manhatten_distance(n3, target) < here {
            choices.push(n3);
        }
    }
    let n4 = (current.0, current.1 + 1);
    if !contains_cell(visited, n4) {
        choices.push(n4);
        if manhatten_distance(n4, target) < here {
            choices.push(n4);
        }
    }
    assert(forall|k: int| 0 <= k < choices@.len() ==> good_step(v, cur, #[trigger] choices@[k]));
    assert(choices@.len() == 0 <==> neighbors_all_visited(v, cur));
    if choices.len() == 0 {
        None
    } else {
        let idx = rng.gen_range(0, choices.len() as i32) as usize;
        Some(choices[idx])
    }
}

/// Finds the first cell of `path` at Manhattan distance one from `c`.
fn find_adjacent(path: &Vec<(i32, i32)>, c: (i32, i32)) -> (r: Option<(i32, i32)>)
    requires
        forall|i: int|
            0 <= i < path@.len() ==> -0x1000 <= (#[trigger] path@[i]).0 <= 0x1000 && -0x1000 <= (
            path@[i]).1 <= 0x1000,
        -0x1000 <= c.0 <= 0x1000,
        -0x1000 <= c.1 <= 0x1000,
    ensures
        r matches Some(cell) ==> exists|k: int|
            0 <= k < cells_view(path@).len() && #[trigger] cells_view(path@)[k] == (
            cell.0 as int,
            cell.1 as int,
        ) && man_dist((cell.0 as int, cell.1 as int), (c.0 as int, c.1 as int)) == 1,
        r is None ==> forall|k: int|
            0 <= k < cells_view(path@).len() ==> man_dist(
                #[trigger] cells_view(path@)[k],
                (c.0 as int, c.1 as int),
            ) != 1,
{
    let mut i: usize = 0;
    while i < path.len()
        invariant
            i <= path@.len(),
            forall|i2: int|
                0 <= i2 < path@.len() ==> -0x1000 <= (#[trigger] path@[i2]).0 <= 0x1000 && -0x1000
                    <= (path@[i2]).1 <= 0x1000,
            -0x1000 <= c.0 <= 0x1000,
            -0x1000 <= c.1 <= 0x1000,
            forall|k: int|
                0 <= k < i ==> man_dist(
                    #[trigger] cells_view(path@)[k],
                    (c.0 as int, c.1 as int),
                ) != 1,
        decreases path@.len() - i,
    {
        let e = path[i];
        if manhatten_distance(e, c) == 1 {
            proof {
                assert(cells_view(path@)[i as int] == (e.0 as int, e.1 as int));
            }
            return Some(e);
        }
        proof {
            assert(cells_view(path@)[i as int] == (e.0 as int, e.1 as int));
        }
        i = i + 1;
    }
    None
}

/// What a successful cyclic generation hands back, relative to the two
/// room paths it walked.
pub open spec fn level_matches(l: GeneratedLevel, p: Seq<(int, int)>, sp: Seq<(int, int)>) -> bool {
    &&& primary_ok(p)
    &&& side_ok(p, sp)
    &&& l.tile_map@ == carved_level_map(p, sp)
    &&& l.start_position == (5i32, 5i32)
    &&& l.exit_position.0 as int == 20 * sp[sp.len() - 2].0 + 5
    &&& l.exit_position.1 as int == 20 * sp[sp.len() - 2].1 + 5
    &&& forall|i: int|
        0 <= i < l.chode_positions@.len() ==> spawn_ok(#[trigger] l.chode_positions@[i], p, sp)
}

/// A level is a valid cyclic generation result: some pair of room paths
/// matches it.
pub open spec fn generation_ok(l: GeneratedLevel) -> bool {
    exists|p: Seq<(int, int)>, sp: Seq<(int, int)>| #[trigger] level_matches(l, p, sp)
}

/// Draws the weighted enemy kind: shotgunner or spinner each with
/// probability one fifth, otherwise the basic kind.
pub(crate) fn random_enemy_type(rng: &mut RandomSource) -> EnemyType {
    let d = rng.gen_range(0, 10);
    if d >= 8 {
        EnemyType::Shotgunner
    } else if d >= 6 {
        EnemyType::Spinner
    } else {
        EnemyType::Chode
    }
}


// ------------------------------------------------------------------
// Walk state helpers
// ------------------------------------------------------------------

/// What holds of the growing primary path: a self-avoiding adjacent walk
/// from the origin whose every cell has been marked visited.
pub open spec fn path_state(p: Seq<(int, int)>, v: Seq<(int, int)>) -> bool {
    &&& 1 <= p.len()
    &&& p[0] == (0int, 0int)
    &&& adjacent_steps(p)
    &&& distinct_cells(p)
    &&& cells_bounded(p, p.len() - 1)
    &&& forall|k: int| 0 <= k < p.len() ==> v.contains(#[trigger] p[k])
}

/// What holds of the growing side path: an adjacent walk of distinct
/// visited cells, none of which after the first lies on the primary
/// path.
pub open spec fn side_state(p: Seq<(int, int)>, sp: Seq<(int, int)>, v: Seq<(int, int)>) -> bool {
    &&& 1 <= sp.len()
    &&& adjacent_steps(sp)
    &&& distinct_cells(sp)
    &&& forall|k: int| 0 <= k < sp.len() ==> v.contains(#[trigger] sp[k])
    &&& forall|k: int| 1 <= k < sp.len() ==> !p.contains(#[trigger] sp[k])
}

/// Commits one chosen step of the primary walk: the cell goes onto the
/// path and into the visited set, and every walk property is preserved.
/// `sp` carries the side path's cells so that their freshness survives.
fn apply_path_step(
    path: &mut Vec<(i32, i32)>,
    visited: &mut Vec<(i32, i32)>,
    c: (i32, i32),
    Ghost(sp): Ghost<Seq<(int, int)>>,
)
    requires
        path_state(cells_view(old(path)@), cells_view(old(visited)@)),
        good_step(
            cells_view(old(visited)@),
            cells_view(old(path)@)[old(path)@.len() - 1],
            c,
        ),
        forall|k: int|
            0 <= k < sp.len() ==> cells_view(old(visited)@).contains(#[trigger] sp[k]),
    ensures
        cells_view(final(path)@) == cells_view(old(path)@).push((c.0 as int, c.1 as int)),
        cells_view(final(visited)@) == cells_view(old(visited)@).push((c.0 as int, c.1 as int)),
        final(path)@.len() == old(path)@.len() + 1,
        final(path)@[final(path)@.len() - 1] == c,
        path_state(cells_view(final(path)@), cells_view(final(visited)@)),
        forall|k: int|
            0 <= k < sp.len() ==> cells_view(final(visited)@).contains(#[trigger] sp[k]),
        forall|k: int|
            0 <= k < sp.len() && !cells_view(old(path)@).contains(#[trigger] sp[k])
                ==> !cells_view(final(path)@).contains(sp[k]),
{
    let ghost pv = cells_view(path@);
    let ghost vv = cells_view(visited@);
    let ghost cc = (c.0 as int, c.1 as int);
    path.push(c);
    visited.push(c);
    proof {
        broadcast use vstd::seq_lib::lemma_seq_contains_after_push;

        assert(cells_view(path@) =~= pv.push(cc));
        assert(cells_view(visited@) =~= vv.push(cc));
        assert forall|x: (int, int)| vv.contains(x) implies cells_view(visited@).contains(x) by {
            let k = choose|k: int| 0 <= k < vv.len() && vv[k] == x;
            assert(cells_view(visited@)[k] == x);
        }
        assert(cells_view(visited@)[vv.len() as int] == cc);
        let np = cells_view(path@);
        assert forall|k: int| 0 <= k < np.len() implies cells_view(visited@).contains(
            #[trigger] np[k],
        ) by {
            if k < np.len() - 1 {
                assert(np[k] == pv[k]);
            }
        }
        assert forall|k: int|
            0 <= k < sp.len() && !pv.contains(#[trigger] sp[k]) implies !np.contains(sp[k]) by {
            if np.contains(sp[k]) {
                let j = choose|j: int| 0 <= j < np.len() && np[j] == sp[k];
                if j < np.len() - 1 {
                    assert(pv[j] == sp[k]);
                } else {
                    assert(sp[k] == cc);
                    assert(vv.contains(sp[k]));
                }
            }
        }
        assert forall|i: int, j: int| 0 <= i < j < np.len() implies np[i] != np[j] by {
            if j == np.len() - 1 {
                assert(vv.contains(pv[i]));
            } else {
                assert(np[i] == pv[i] && np[j] == pv[j]);
            }
        }
    }
}

/// Commits one chosen step of the side walk, preserving its state.
/// `p` carries the primary path's cells, which the fresh cell avoids.
fn apply_side_step(
    side_path: &mut Vec<(i32, i32)>,
    visited: &mut Vec<(i32, i32)>,
    c: (i32, i32),
    Ghost(p): Ghost<Seq<(int, int)>>,
)
    requires
        side_state(p, cells_view(old(side_path)@), cells_view(old(visited)@)),
        good_step(
            cells_view(old(visited)@),
            cells_view(old(side_path)@)[old(side_path)@.len() - 1],
            c,
        ),
        forall|k: int|
            0 <= k < p.len() ==> cells_view(old(visited)@).contains(#[trigger] p[k]),
        cells_bounded(cells_view(old(side_path)@), 4 + old(side_path)@.len() as int),
    ensures
        cells_view(final(side_path)@) == cells_view(old(side_path)@).push((c.0 as int, c.1 as int)),
        cells_view(final(visited)@) == cells_view(old(visited)@).push((c.0 as int, c.1 as int)),
        final(side_path)@.len() == old(side_path)@.len() + 1,
        final(side_path)@[final(side_path)@.len() - 1] == c,
        side_state(p, cells_view(final(side_path)@), cells_view(final(visited)@)),
        cells_bounded(cells_view(final(side_path)@), 4 + final(side_path)@.len() as int),
        forall|k: int|
            0 <= k < p.len() ==> cells_view(final(visited)@).contains(#[trigger] p[k]),
        cells_view(final(side_path)@)[0] == cells_view(old(side_path)@)[0],
{
    let ghost spv = cells_view(side_path@);
    let ghost vv = cells_view(visited@);
    let ghost cc = (c.0 as int, c.1 as int);
    side_path.push(c);
    visited.push(c);
    proof {
        broadcast use vstd::seq_lib::lemma_seq_contains_after_push;

        assert(cells_view(side_path@) =~= spv.push(cc));
        assert(cells_view(visited@) =~= vv.push(cc));
        assert forall|x: (int, int)| vv.contains(x) implies cells_view(visited@).contains(x) by {
            let k = choose|k: int| 0 <= k < vv.len() && vv[k] == x;
            assert(cells_view(visited@)[k] == x);
        }
        assert(cells_view(visited@)[vv.len() as int] == cc);
        let nsp = cells_view(side_path@);
        assert forall|k: int| 0 <= k < nsp.len() implies cells_view(visited@).contains(
            #[trigger] nsp[k],
        ) by {
            if k < nsp.len() - 1 {
                assert(nsp[k] == spv[k]);
            }
        }
        assert forall|k: int| 1 <= k < nsp.len() implies !p.contains(#[trigger] nsp[k]) by {
            if k < nsp.len() - 1 {
                assert(nsp[k] == spv[k]);
            } else {
                if p.contains(nsp[k]) {
                    let j = choose|j: int| 0 <= j < p.len() && p[j] == cc;
                    assert(vv.contains(p[j]));
                }
            }
        }
        assert forall|i: int, j: int| 0 <= i < j < nsp.len() implies nsp[i] != nsp[j] by {
            if j == nsp.len() - 1 {
                assert(vv.contains(spv[i]));
            } else {
                assert(nsp[i] == spv[i] && nsp[j] == spv[j]);
            }
        }
    }
}

// ------------------------------------------------------------------
// Carving a finished pair of paths
// ------------------------------------------------------------------

/// Carves every room and corridor of the two paths and scatters enemy
/// spawn points in the non-origin rooms.
#[verifier::rlimit(100)]
fn carve_paths(
    path: &Vec<(i32, i32)>,
    side_path: &Vec<(i32, i32)>,
    rng: &mut RandomSource,
) -> (res: (TileMap, Vec<(i32, i32, EnemyType)>))
    requires
        primary_ok(cells_view(path@)),
        side_ok(cells_view(path@), cells_view(side_path@)),
    ensures
        res.0@ == carved_level_map(cells_view(path@), cells_view(side_path@)),
        forall|i: int|
            0 <= i < res.1@.len() ==> spawn_ok(
                #[trigger] res.1@[i],
                cells_view(path@),
                cells_view(side_path@),
            ),
{
    proof {
        reveal(carved_level_map);
    }
    let ghost p = cells_view(path@);
    let ghost sp = cells_view(side_path@);
    let mut tile_map = TileMap::new();
    let mut chode_positions: Vec<(i32, i32, EnemyType)> = Vec::new();

    let mut rp: usize = 0;
    while rp < path.len()
        invariant
            primary_ok(p),
            side_ok(p, sp),
            p == cells_view(path@),
            sp == cells_view(side_path@),
            rp <= path@.len(),
            tile_map@ == stamp_rooms(Map::empty(), p, rp as int),
            forall|i: int|
                0 <= i < chode_positions@.len() ==> spawn_ok(#[trigger] chode_positions@[i], p, sp),
        decreases path@.len() - rp,
    {
        let room = path[rp];
        proof {
            assert(p[rp as int] == (room.0 as int, room.1 as int));
        }
        carve_room(room, (10, 10), &mut tile_map);
        if !(room.0 == 0 && room.1 == 0) {
            proof {
                assert(p.contains((room.0 as int, room.1 as int)));
            }
            spawn_enemies_in_room(room, &mut chode_positions, rng, Ghost(p), Ghost(sp));
        }
        rp = rp + 1;
    }

    let mut rs: usize = 0;
    while rs < side_path.len()
        invariant
            primary_ok(p),
            side_ok(p, sp),
            p == cells_view(path@),
            sp == cells_view(side_path@),
            rs <= side_path@.len(),
            tile_map@ == stamp_rooms(stamp_rooms(Map::empty(), p, p.len() as int), sp, rs as int),
            forall|i: int|
                0 <= i < chode_positions@.len() ==> spawn_ok(#[trigger] chode_positions@[i], p, sp),
        decreases side_path@.len() - rs,
    {
        let room = side_path[rs];
        proof {
            assert(sp[rs as int] == (room.0 as int, room.1 as int));
        }
        carve_room(room, (10, 10), &mut tile_map);
        if !(room.0 == 0 && room.1 == 0) {
            proof {
                assert(sp.contains((room.0 as int, room.1 as int)));
            }
            spawn_enemies_in_room(room, &mut chode_positions, rng, Ghost(p), Ghost(sp));
        }
        rs = rs + 1;
    }

    let ghost rooms_map = tile_map@;
    let mut ce: usize = 0;
    while ce + 1 < path.len()
        invariant
            primary_ok(p),
            p == cells_view(path@),
            ce + 1 <= path@.len(),
            tile_map@ == stamp_corridors(rooms_map, p, ce as int),
        decreases path@.len() - ce,
    {
        let a = path[ce];
        let b = path[ce + 1];
        proof {
            assert(p[ce as int] == (a.0 as int, a.1 as int));
            assert(p[ce as int + 1] == (b.0 as int, b.1 as int));
        }
        carve_corridor(a, b, &mut tile_map);
        ce = ce + 1;
    }
    proof {
        assert(ce as int == p.len() - 1);
    }

    let ghost primary_corr_map = tile_map@;
    let mut cs: usize = 0;
    while cs + 1 < side_path.len()
        invariant
            primary_ok(p),
            side_ok(p, sp),
            sp == cells_view(side_path@),
            cs + 1 <= side_path@.len(),
            tile_map@ == stamp_corridors(primary_corr_map, sp, cs as int),
        decreases side_path@.len() - cs,
    {
        let a = side_path[cs];
        let b = side_path[cs + 1];
        proof {
            assert(sp[cs as int] == (a.0 as int, a.1 as int));
            assert(sp[cs as int + 1] == (b.0 as int, b.1 as int));
        }
        carve_corridor(a, b, &mut tile_map);
        cs = cs + 1;
    }
    proof {
        assert(cs as int == sp.len() - 1);
    }
    (tile_map, chode_positions)
}

/// Scatters 0 to 4 enemies at random interior offsets of `room`, which
/// must be a non-origin room of one of the two paths.
fn spawn_enemies_in_room(
    room: (i32, i32),
    chode_positions: &mut Vec<(i32, i32, EnemyType)>,
    rng: &mut RandomSource,
    Ghost(p): Ghost<Seq<(int, int)>>,
    Ghost(sp): Ghost<Seq<(int, int)>>,
)
    requires
        p.contains((room.0 as int, room.1 as int)) || sp.contains((room.0 as int, room.1 as int)),
        !(room.0 == 0 && room.1 == 0),
        -16 <= room.0 <= 16,
        -16 <= room.1 <= 16,
        forall|i: int|
            0 <= i < old(chode_positions)@.len() ==> spawn_ok(
                #[trigger] old(chode_positions)@[i],
                p,
                sp,
            ),
    ensures
        forall|i: int|
            0 <= i < final(chode_positions)@.len() ==> spawn_ok(
                #[trigger] final(chode_positions)@[i],
                p,
                sp,
            ),
{
    let n_enemies = rng.gen_range(0, 5);
    let mut e: i32 = 0;
    while e < n_enemies
        invariant
            0 <= n_enemies <= 4,
            0 <= e,
            p.contains((room.0 as int, room.1 as int)) || sp.contains(
                (room.0 as int, room.1 as int),
            ),
            !(room.0 == 0 && room.1 == 0),
            -16 <= room.0 <= 16,
            -16 <= room.1 <= 16,
            forall|i: int|
                0 <= i < chode_positions@.len() ==> spawn_ok(#[trigger] chode_positions@[i], p, sp),
        decreases n_enemies - e,
    {
        let ox = rng.gen_range(2, 8);
        let oy = rng.gen_range(2, 8);
        let kind = random_enemy_type(rng);
        let s = (room.0 * 20 + ox, room.1 * 20 + oy, kind);
        proof {
            assert(spawn_ok(s, p, sp));
        }
        chode_positions.push(s);
        e = e + 1;
    }
}

/// A closed walk built from a finished open walk `pre` by appending the
/// origin, together with a finished side path, forms a valid level pair.
proof fn lemma_assemble_paths(
    pre: Seq<(int, int)>,
    p: Seq<(int, int)>,
    sp: Seq<(int, int)>,
    cj: int,
    rk: int,
)
    requires
        4 <= pre.len() <= 9,
        pre[0] == (0int, 0int),
        adjacent_steps(pre),
        distinct_cells(pre),
        cells_bounded(pre, pre.len() - 1),
        man_dist(pre[pre.len() - 1], (0int, 0int)) == 1,
        p == pre.push((0int, 0int)),
        4 <= sp.len() <= 8,
        adjacent_steps(sp),
        distinct_cells(sp.take(sp.len() - 1)),
        cells_bounded(sp, 13),
        2 <= cj <= 4,
        cj < pre.len() - 1,
        sp[0] == pre[cj],
        0 <= rk < pre.len(),
        sp[sp.len() - 1] == pre[rk],
        forall|k: int| 1 <= k < sp.len() - 1 ==> !pre.contains(#[trigger] sp[k]),
    ensures
        primary_ok(p),
        side_ok(p, sp),
{
    assert(p.take(p.len() - 1) =~= pre);
    assert(pre.contains(pre[0]));
    assert(primary_ok(p)) by {
        assert forall|i: int| 0 <= i < p.len() - 1 implies man_dist(#[trigger] p[i], p[i + 1])
            == 1 by {
            if i < pre.len() - 1 {
                assert(p[i] == pre[i] && p[i + 1] == pre[i + 1]);
            } else {
                assert(p[i] == pre[pre.len() - 1]);
            }
        }
        assert forall|i: int| 0 <= i < p.len() implies abs_spec((#[trigger] p[i]).0) <= 16
            && abs_spec(p[i].1) <= 16 by {
            if i < pre.len() {
                assert(p[i] == pre[i]);
            }
        }
    }
    assert(side_ok(p, sp)) by {
        assert(sp[0] == p[cj]) by {
            assert(p[cj] == pre[cj]);
        }
        assert(sp[sp.len() - 1] == p[rk]) by {
            assert(p[rk] == pre[rk]);
        }
        assert(2 <= cj <= 4 && cj < p.len() - 1 && sp[0] == p[cj]);
        assert(0 <= rk < p.len() - 1 && sp[sp.len() - 1] == p[rk]);
        assert forall|i: int| 1 <= i < sp.len() - 1 implies !p.contains(#[trigger] sp[i]) by {
            if p.contains(sp[i]) {
                let j = choose|j: int| 0 <= j < p.len() && p[j] == sp[i];
                if j < p.len() - 1 {
                    assert(pre[j] == sp[i]);
                    assert(pre.contains(sp[i]));
                } else {
                    assert(sp[i] == (0int, 0int));
                    assert(pre.contains((0int, 0int)));
                }
            }
        }
    }
}


/// Walks the side path back until it reconnects: grows it cell by cell
/// until some cell of the primary path lies one step away, then appends
/// that primary cell. Fails when the walk is stuck or the branch would
/// exceed eight entries.
#[verifier::rlimit(100)]
fn reconnect_side(
    path: &Vec<(i32, i32)>,
    side_path: &mut Vec<(i32, i32)>,
    visited: &mut Vec<(i32, i32)>,
    scurrent0: (i32, i32),
    rng: &mut RandomSource,
) -> (r: Result<Ghost<int>, StringErr>)
    requires
        path_state(cells_view(path@), cells_view(old(visited)@)),
        side_state(cells_view(path@), cells_view(old(side_path)@), cells_view(old(visited)@)),
        3 <= old(side_path)@.len() <= 4,
        4 <= path@.len() <= 6,
        scurrent0 == old(side_path)@[old(side_path)@.len() - 1],
        cells_bounded(cells_view(old(side_path)@), 4 + old(side_path)@.len() as int),
    ensures
        r matches Ok(gk) ==> ({
            let p = cells_view(path@);
            let sp = cells_view(final(side_path)@);
            let v = cells_view(final(visited)@);
            &&& 4 <= sp.len() <= 8
            &&& adjacent_steps(sp)
            &&& distinct_cells(sp.take(sp.len() - 1))
            &&& cells_bounded(sp, 13)
            &&& sp[0] == cells_view(old(side_path)@)[0]
            &&& 0 <= gk@ < p.len()
            &&& sp[sp.len() - 1] == p[gk@]
            &&& forall|k: int| 1 <= k < sp.len() - 1 ==> !p.contains(#[trigger] sp[k])
            &&& forall|k: int| 0 <= k < sp.len() - 1 ==> v.contains(#[trigger] sp[k])
            &&& path_state(p, v)
        }),
{
    let mut scurrent = scurrent0;
    let mut found: Option<(i32, i32)> = None;
    while found.is_none()
        invariant
            3 <= side_path@.len() <= 7,
            scurrent == side_path@[side_path@.len() - 1],
            path_state(cells_view(path@), cells_view(visited@)),
            side_state(cells_view(path@), cells_view(side_path@), cells_view(visited@)),
            cells_bounded(cells_view(side_path@), 4 + side_path@.len() as int),
            4 <= path@.len() <= 6,
            cells_view(side_path@)[0] == cells_view(old(side_path)@)[0],
            found matches Some(c) ==> exists|k: int|
                0 <= k < cells_view(path@).len() && #[trigger] cells_view(path@)[k] == (
                c.0 as int,
                c.1 as int,
            ) && man_dist(
                (c.0 as int, c.1 as int),
                (scurrent.0 as int, scurrent.1 as int),
            ) == 1,
        decreases 7 - side_path@.len(), (if found is None { 1int } else { 0int }),
    {
        match find_adjacent(path, scurrent) {
            Some(c) => {
                found = Some(c);
            },
            None => {
                if side_path.len() >= 7 {
                    return Err(StringErr("Side path excessively long".to_owned()));
                }
                proof {
                    assert(cells_view(side_path@)[side_path@.len() - 1] == (
                        scurrent.0 as int,
                        scurrent.1 as int,
                    ));
                }
                match choose_step(visited, scurrent, rng) {
                    None => {
                        return Err(StringErr("Got stuck with no choice loop 2".to_owned()));
                    },
                    Some(c) => {
                        apply_side_step(side_path, visited, c, Ghost(cells_view(path@)));
                        scurrent = c;
                    },
                }
            },
        }
    }
    let reconnect_cell = match found {
        Some(c) => c,
        None => {
            proof {
                assert(false);
            }
            (0, 0)
        },
    };
    let ghost spre = cells_view(side_path@);
    proof {
        assert(cells_view(side_path@.push(reconnect_cell)) =~= spre.push(
            (reconnect_cell.0 as int, reconnect_cell.1 as int),
        ));
        assert(spre[spre.len() - 1] == (scurrent.0 as int, scurrent.1 as int));
    }
    let ghost mut gk: int = 0;
    side_path.push(reconnect_cell);
    proof {
        assert(cells_view(side_path@).take(side_path@.len() - 1) =~= spre);
        let sp = cells_view(side_path@);
        let p = cells_view(path@);
        gk = choose|k: int|
            0 <= k < p.len() && p[k] == (reconnect_cell.0 as int, reconnect_cell.1 as int);
        assert forall|i: int| 0 <= i < sp.len() implies abs_spec((#[trigger] sp[i]).0) <= 13
            && abs_spec(sp[i].1) <= 13 by {
            if i < sp.len() - 1 {
                assert(sp[i] == spre[i]);
            } else {
                assert(sp[i] == p[gk]);
            }
        }
    }
    Ok(Ghost(gk))
}

/// Extends the primary path by biased random unvisited steps until its
/// last cell is adjacent to the origin. Fails when the walk is stuck or
/// nine cells are reached without closing.
#[verifier::rlimit(100)]
fn close_primary(
    path: &mut Vec<(i32, i32)>,
    visited: &mut Vec<(i32, i32)>,
    current0: (i32, i32),
    Ghost(sp): Ghost<Seq<(int, int)>>,
    rng: &mut RandomSource,
) -> (r: Result<(), StringErr>)
    requires
        path_state(cells_view(old(path)@), cells_view(old(visited)@)),
        4 <= old(path)@.len() <= 6,
        current0 == old(path)@[old(path)@.len() - 1],
        forall|k: int| 1 <= k < sp.len() - 1 ==> !cells_view(old(path)@).contains(#[trigger] sp[k]),
        forall|k: int| 0 <= k < sp.len() - 1 ==> cells_view(old(visited)@).contains(#[trigger] sp[k]),
    ensures
        r is Ok ==> ({
            let p = cells_view(final(path)@);
            let v = cells_view(final(visited)@);
            &&& path_state(p, v)
            &&& 4 <= p.len() <= 9
            &&& old(path)@.len() <= p.len()
            &&& man_dist(p[p.len() - 1], (0int, 0int)) == 1
            &&& forall|k: int|
                0 <= k < old(path)@.len() ==> #[trigger] p[k] == cells_view(old(path)@)[k]
            &&& forall|k: int| 1 <= k < sp.len() - 1 ==> !p.contains(#[trigger] sp[k])
        }),
{
    let start = (0i32, 0i32);
    let mut current = current0;
    proof {
        assert(cells_view(path@)[path@.len() - 1] == (current.0 as int, current.1 as int));
    }
    while manhatten_distance(current, start) != 1
        invariant
            start == (0i32, 0i32),
            abs_spec(current.0 as int) <= path@.len() - 1,
            abs_spec(current.1 as int) <= path@.len() - 1,
            4 <= path@.len() <= 9,
            old(path)@.len() <= path@.len(),
            current == path@[path@.len() - 1],
            path_state(cells_view(path@), cells_view(visited@)),
            forall|k: int|
                0 <= k < old(path)@.len() ==> #[trigger] cells_view(path@)[k] == cells_view(
                    old(path)@,
                )[k],
            forall|x: (int, int)|
                cells_view(old(visited)@).contains(x) ==> #[trigger] cells_view(
                    visited@,
                ).contains(x),
            forall|k: int|
                old(path)@.len() <= k < path@.len() ==> !cells_view(old(visited)@).contains(
                    #[trigger] cells_view(path@)[k],
                ),
        decreases 9 - path@.len(),
    {
        if path.len() >= 9 {
            return Err(StringErr("Initial path excessively long".to_owned()));
        }
        proof {
            assert(cells_view(path@)[path@.len() - 1] == (current.0 as int, current.1 as int));
        }
        match choose_step_biased(visited, current, start, rng) {
            None => {
                return Err(StringErr("Got stuck with no choice loop 2".to_owned()));
            },
            Some(c) => {
                let ghost vpre = cells_view(visited@);
                apply_path_step(path, visited, c, Ghost(Seq::empty()));
                proof {
                    assert forall|x: (int, int)| cells_view(old(visited)@).contains(
                        x,
                    ) implies #[trigger] cells_view(visited@).contains(x) by {
                        assert(vpre.contains(x));
                        let k = choose|k: int| 0 <= k < vpre.len() && vpre[k] == x;
                        assert(cells_view(visited@)[k] == x);
                    }
                }
                current = c;
            },
        }
    }
    Ok(())
}

/// Closes the loop by appending the origin, carves both paths, and
/// assembles the finished level.
#[verifier::rlimit(100)]
fn finish_level(
    path: Vec<(i32, i32)>,
    side_path: &Vec<(i32, i32)>,
    exit_room: (i32, i32),
    rng: &mut RandomSource,
    Ghost(cj): Ghost<int>,
    Ghost(rk): Ghost<int>,
) -> (l: GeneratedLevel)
    requires
        ({
            let pre = cells_view(path@);
            let sp = cells_view(side_path@);
            &&& 4 <= pre.len() <= 9
            &&& pre[0] == (0int, 0int)
            &&& adjacent_steps(pre)
            &&& distinct_cells(pre)
            &&& cells_bounded(pre, pre.len() - 1)
            &&& man_dist(pre[pre.len() - 1], (0int, 0int)) == 1
            &&& 4 <= sp.len() <= 8
            &&& adjacent_steps(sp)
            &&& distinct_cells(sp.take(sp.len() - 1))
            &&& cells_bounded(sp, 13)
            &&& 2 <= cj <= 4
            &&& cj < pre.len() - 1
            &&& sp[0] == pre[cj]
            &&& 0 <= rk < pre.len()
            &&& sp[sp.len() - 1] == pre[rk]
            &&& (forall|k: int| 1 <= k < sp.len() - 1 ==> !pre.contains(#[trigger] sp[k]))
            &&& exit_room == side_path@[side_path@.len() - 2]
        }),
    ensures
        generation_ok(l),
{
    let mut path = path;
    let ghost pre = cells_view(path@);
    proof {
        assert(cells_view(path@.push((0i32, 0i32))) =~= pre.push((0int, 0int)));
        assert(pre.contains(pre[0]));
    }
    path.push((0, 0));

    let ghost p = cells_view(path@);
    let ghost sp = cells_view(side_path@);
    proof {
        lemma_assemble_paths(pre, p, sp, cj, rk);
    }

    let (tile_map, chode_positions) = carve_paths(&path, side_path, rng);

    proof {
        assert(sp[sp.len() - 2] == (exit_room.0 as int, exit_room.1 as int));
    }
    let exit_position = (exit_room.0 * 20 + 5, exit_room.1 * 20 + 5);
    let level = GeneratedLevel {
        tile_map,
        start_position: (5, 5),
        exit_position,
        chode_positions,
    };
    proof {
        assert(level_matches(level, p, sp));
        assert(generation_ok(level));
    }
    level
}

/// Starts at the origin and grows the primary path by 3 to 5 random
/// unvisited steps; fails at a dead end.
fn build_initial_path(rng: &mut RandomSource) -> (r: Result<
    (Vec<(i32, i32)>, Vec<(i32, i32)>, (i32, i32)),
    StringErr,
>)
    ensures
        r matches Ok(t) ==> ({
            let p = cells_view(t.0@);
            let v = cells_view(t.1@);
            &&& path_state(p, v)
            &&& 4 <= p.len() <= 6
            &&& t.2 == t.0@[t.0@.len() - 1]
        }),
{
    let start = (0i32, 0i32);
    let mut path: Vec<(i32, i32)> = Vec::new();
    path.push(start);
    let mut visited: Vec<(i32, i32)> = Vec::new();
    visited.push(start);
    let mut current = start;
    proof {
        assert(cells_view(path@)[0] == (0int, 0int));
        assert(cells_view(visited@)[0] == (0int, 0int));
        assert(cells_view(visited@).contains(cells_view(path@)[0]));
    }
    let initial_path_len = rng.gen_range(3, 6);
    let mut step: i32 = 0;
    while step < initial_path_len
        invariant
            3 <= initial_path_len <= 5,
            0 <= step <= initial_path_len,
            path@.len() == step + 1,
            current == path@[path@.len() - 1],
            path_state(cells_view(path@), cells_view(visited@)),
        decreases initial_path_len - step,
    {
        proof {
            assert(cells_view(path@)[path@.len() - 1] == (current.0 as int, current.1 as int));
        }
        match choose_step(&visited, current, rng) {
            None => {
                return Err(StringErr("Got stuck with no choice loop 1".to_owned()));
            },
            Some(c) => {
                apply_path_step(&mut path, &mut visited, c, Ghost(Seq::empty()));
                current = c;
            },
        }
        step = step + 1;
    }
    Ok((path, visited, current))
}

/// Picks the branch point on the interior of the primary path and grows
/// the side path from it by 2 to 3 random unvisited steps; fails at a
/// dead end.
fn build_side_branch(
    path: &Vec<(i32, i32)>,
    visited: &mut Vec<(i32, i32)>,
    rng: &mut RandomSource,
) -> (r: Result<(Vec<(i32, i32)>, (i32, i32), Ghost<int>), StringErr>)
    requires
        path_state(cells_view(path@), cells_view(old(visited)@)),
        4 <= path@.len() <= 6,
    ensures
        r matches Ok(t) ==> ({
            let p = cells_view(path@);
            let sp = cells_view(t.0@);
            let v = cells_view(final(visited)@);
            &&& path_state(p, v)
            &&& side_state(p, sp, v)
            &&& 3 <= sp.len() <= 4
            &&& cells_bounded(sp, 4 + t.0@.len() as int)
            &&& t.1 == t.0@[t.0@.len() - 1]
            &&& 2 <= t.2@ <= 4
            &&& t.2@ < p.len() - 1
            &&& sp[0] == p[t.2@]
        }),
{
    let ci = rng.gen_range(2, path.len() as i32 - 1);
    let choice_point = path[ci as usize];
    let ghost cj = ci as int;
    let mut side_path: Vec<(i32, i32)> = Vec::new();
    side_path.push(choice_point);
    let mut scurrent = choice_point;
    proof {
        assert(cells_view(side_path@)[0] == cells_view(path@)[cj]);
        assert(cells_view(visited@).contains(cells_view(path@)[cj]));
    }
    let side_path_len = rng.gen_range(2, 4);
    let mut sstep: i32 = 0;
    while sstep < side_path_len
        invariant
            2 <= side_path_len <= 3,
            0 <= sstep <= side_path_len,
            side_path@.len() == sstep + 1,
            scurrent == side_path@[side_path@.len() - 1],
            2 <= cj <= 4,
            cj < path@.len() - 1,
            4 <= path@.len() <= 6,
            cells_view(side_path@)[0] == cells_view(path@)[cj],
            path_state(cells_view(path@), cells_view(visited@)),
            side_state(cells_view(path@), cells_view(side_path@), cells_view(visited@)),
            cells_bounded(cells_view(side_path@), 4 + side_path@.len() as int),
        decreases side_path_len - sstep,
    {
        proof {
            assert(cells_view(side_path@)[side_path@.len() - 1] == (
                scurrent.0 as int,
                scurrent.1 as int,
            ));
        }
        match choose_step(&visited, scurrent, rng) {
            None => {
                return Err(StringErr("Got stuck with no choice side loop 1".to_owned()));
            },
            Some(c) => {
                apply_side_step(&mut side_path, visited, c, Ghost(cells_view(path@)));
                scurrent = c;
            },
        }
        sstep = sstep + 1;
    }
    Ok((side_path, scurrent, Ghost(cj)))
}

// ------------------------------------------------------------------
// One generation attempt
// ------------------------------------------------------------------

/// Finishes a generation attempt from a grown primary path and side
/// branch: reconnects the branch, closes the loop, and carves the level.
#[verifier::rlimit(100)]
fn complete_attempt(
    path: Vec<(i32, i32)>,
    visited: Vec<(i32, i32)>,
    side_path: Vec<(i32, i32)>,
    scurrent: (i32, i32),
    current: (i32, i32),
    Ghost(cj): Ghost<int>,
    rng: &mut RandomSource,
) -> (r: Result<GeneratedLevel, StringErr>)
    requires
        ({
            let p = cells_view(path@);
            let sp = cells_view(side_path@);
            let v = cells_view(visited@);

            &&& path_state(p, v)
            &&& 4 <= p.len() <= 6
            &&& side_state(p, sp, v)
            &&& 3 <= sp.len() <= 4
            &&& cells_bounded(sp, 4 + side_path@.len() as int)
            &&& scurrent == side_path@[side_path@.len() - 1]
            &&& current == path@[path@.len() - 1]
            &&& 2 <= cj <= 4
            &&& cj < p.len() - 1
            &&& sp[0] == p[cj]
        }),
    ensures
        r matches Ok(l) ==> generation_ok(l),
{
    let mut path = path;
    let mut visited = visited;
    let mut side_path = side_path;

    // Walk the side path back until it reconnects to the primary path;
    // past 8 entries the branch is too long.
    let reconnect_anchor = match reconnect_side(&path, &mut side_path, &mut visited, scurrent, rng)
    {
        Err(e) => {
            return Err(e);
        },
        Ok(gk) => gk,
    };
    let ghost reconnect_k: int = reconnect_anchor@;

    // The room the side path diverged from last is the exit room.
    let exit_room = side_path[side_path.len() - 2];

    // Extend the primary path until it sits next to the origin, then
    // close the loop; past 9 cells the loop cannot close in bound.
    let ghost p_mid = cells_view(path@);
    match close_primary(&mut path, &mut visited, current, Ghost(cells_view(side_path@)), rng) {
        Err(e) => {
            return Err(e);
        },
        Ok(()) => {},
    }
    proof {
        let pre = cells_view(path@);
        let sp = cells_view(side_path@);
        assert(4 <= pre.len() <= 9);
        assert(pre[0] == (0int, 0int));
        assert(adjacent_steps(pre));
        assert(distinct_cells(pre));
        assert(cells_bounded(pre, pre.len() - 1));
        assert(man_dist(pre[pre.len() - 1], (0int, 0int)) == 1);
        assert(4 <= sp.len() <= 8);
        assert(adjacent_steps(sp));
        assert(distinct_cells(sp.take(sp.len() - 1)));
        assert(cells_bounded(sp, 13));
        assert(cj < pre.len() - 1);
        assert(sp[0] == pre[cj]) by {
            assert(pre[cj] == p_mid[cj]);
        }
        assert(0 <= reconnect_k < pre.len());
        assert(sp[sp.len() - 1] == pre[reconnect_k]) by {
            assert(pre[reconnect_k] == p_mid[reconnect_k]);
        }
        assert(forall|k: int| 1 <= k < sp.len() - 1 ==> !pre.contains(#[trigger] sp[k]));
        assert(exit_room == side_path@[side_path@.len() - 2]);
    }
    let level = finish_level(path, &side_path, exit_room, rng, Ghost(cj), Ghost(reconnect_k));
    Ok(level)
}

/// One attempt at generating a cyclic level. A dead end of the random
/// walk or a path over its length bound yields a recoverable failure;
/// a success is a fully carved loop-and-branch level as `level_matches`
/// describes, for the two room paths the attempt walked.
pub fn try_generate_level(rng: &mut RandomSource) -> (r: Result<GeneratedLevel, StringErr>)
    ensures
        r matches Ok(l) ==> generation_ok(l),
{
    let (path, mut visited, current) = match build_initial_path(rng) {
        Err(e) => {
            return Err(e);
        },
        Ok(t) => t,
    };
    let (side_path, scurrent, choice_index) = match build_side_branch(&path, &mut visited, rng) {
        Err(e) => {
            return Err(e);
        },
        Ok(t) => t,
    };
    complete_attempt(path, visited, side_path, scurrent, current, choice_index, rng)
}

// ------------------------------------------------------------------
// Connectivity of the carved level
// ------------------------------------------------------------------

/// Whether the carved map holds a passable tile at `c`.
pub open spec fn passable(m: Map<(int, int), Tile>, c: (int, int)) -> bool {
    m.contains_key(c) && !m[c].collision
}

/// A walk: a nonempty run of passable cells, each one tile step from
/// the next.
pub open spec fn is_walk(m: Map<(int, int), Tile>, s: Seq<(int, int)>) -> bool {
    &&& s.len() >= 1
    &&& forall|i: int| 0 <= i < s.len() ==> passable(m, #[trigger] s[i])
    &&& adjacent_steps(s)
}

/// `b` can be reached from `a` walking only on passable tiles.
pub open spec fn reachable(m: Map<(int, int), Tile>, a: (int, int), b: (int, int)) -> bool {
    exists|s: Seq<(int, int)>| #[trigger] is_walk(m, s) && s[0] == a && s[s.len() - 1] == b
}

/// The central tile of the room at lattice cell `r`.
pub open spec fn room_center(r: (int, int)) -> (int, int) {
    (20 * r.0 + 5, 20 * r.1 + 5)
}

/// The interior (passable part) of the room footprint at `r`.
pub open spec fn in_interior(r: (int, int), c: (int, int)) -> bool {
    20 * r.0 <= c.0 <= 20 * r.0 + 9 && 20 * r.1 <= c.1 <= 20 * r.1 + 9
}

/// A walk witnesses reachability between its endpoints.
proof fn lemma_walk_reachable(m: Map<(int, int), Tile>, s: Seq<(int, int)>)
    requires
        is_walk(m, s),
    ensures
        reachable(m, s[0], s[s.len() - 1]),
{
}

proof fn lemma_reachable_refl(m: Map<(int, int), Tile>, a: (int, int))
    requires
        passable(m, a),
    ensures
        reachable(m, a, a),
{
    let s = seq![a];
    assert(is_walk(m, s) && s[0] == a && s[s.len() - 1] == a);
}

proof fn lemma_reachable_trans(m: Map<(int, int), Tile>, a: (int, int), b: (int, int), c: (int, int))
    requires
        reachable(m, a, b),
        reachable(m, b, c),
    ensures
        reachable(m, a, c),
{
    let s1 = choose|s: Seq<(int, int)>| #[trigger] is_walk(m, s) && s[0] == a && s[s.len() - 1] == b;
    let s2 = choose|s: Seq<(int, int)>| #[trigger] is_walk(m, s) && s[0] == b && s[s.len() - 1] == c;
    let t = s1 + s2.subrange(1, s2.len() as int);
    assert forall|i: int| 0 <= i < t.len() implies passable(m, #[trigger] t[i]) by {
        if i < s1.len() {
            assert(t[i] == s1[i]);
        } else {
            assert(t[i] == s2[i - s1.len() + 1]);
        }
    }
    assert forall|i: int| 0 <= i < t.len() - 1 implies man_dist(#[trigger] t[i], t[i + 1]) == 1 by {
        if i + 1 < s1.len() {
            assert(t[i] == s1[i] && t[i + 1] == s1[i + 1]);
        } else if i + 1 == s1.len() {
            assert(t[i] == s1[s1.len() - 1]);
            assert(t[i + 1] == s2[1]);
            assert(man_dist(s2[0], s2[1]) == 1);
        } else {
            assert(t[i] == s2[i - s1.len() + 1] && t[i + 1] == s2[i - s1.len() + 2]);
        }
    }
    assert(t[0] == a);
    assert(t[t.len() - 1] == c) by {
        if s2.len() == 1 {
            assert(t =~= s1);
        } else {
            assert(t[t.len() - 1] == s2[s2.len() - 1]);
        }
    }
    assert(is_walk(m, t));
}

proof fn lemma_reachable_sym(m: Map<(int, int), Tile>, a: (int, int), b: (int, int))
    requires
        reachable(m, a, b),
    ensures
        reachable(m, b, a),
{
    let s = choose|s: Seq<(int, int)>| #[trigger] is_walk(m, s) && s[0] == a && s[s.len() - 1] == b;
    let t = Seq::new(s.len(), |i: int| s[s.len() - 1 - i]);
    assert forall|i: int| 0 <= i < t.len() - 1 implies man_dist(#[trigger] t[i], t[i + 1]) == 1 by {
        let j = s.len() - 2 - i;
        assert(t[i] == s[j + 1] && t[i + 1] == s[j]);
        assert(man_dist(s[j], s[j + 1]) == 1);
    }
    assert(is_walk(m, t) && t[0] == b && t[t.len() - 1] == a);
}

/// A cell in one room's interior lies in no other room's footprint.
proof fn lemma_room_regions(r: (int, int), r2: (int, int), c: (int, int))
    requires
        in_interior(r, c),
        room_footprint(r2).contains_key(c),
    ensures
        r2 == r,
{
    if r2.0 <= r.0 - 1 {
        assert(c.0 <= 20 * r2.0 + 10 < 20 * r.0);
    }
    if r2.0 >= r.0 + 1 {
        assert(c.0 >= 20 * r2.0 - 1 > 20 * r.0 + 9);
    }
    if r2.1 <= r.1 - 1 {
        assert(c.1 <= 20 * r2.1 + 10 < 20 * r.1);
    }
    if r2.1 >= r.1 + 1 {
        assert(c.1 >= 20 * r2.1 - 1 > 20 * r.1 + 9);
    }
}

/// No corridor strip touches any room interior.
proof fn lemma_strip_misses_interior(a: (int, int), b: (int, int), r: (int, int), c: (int, int))
    requires
        man_dist(a, b) == 1,
        in_interior(r, c),
    ensures
        !corridor_map(a, b).contains_key(c),
{
    if corridor_map(a, b).contains_key(c) {
        if a.1 == b.1 {
            let lo = if a.0 <= b.0 {
                a
            } else {
                b
            };
            assert(20 * lo.0 + 10 <= c.0 <= 20 * lo.0 + 19);
            if r.0 <= lo.0 {
                assert(c.0 <= 20 * r.0 + 9 <= 20 * lo.0 + 9);
            } else {
                assert(c.0 >= 20 * r.0 >= 20 * lo.0 + 20);
            }
        } else {
            let lo = if a.1 <= b.1 {
                a
            } else {
                b
            };
            assert(20 * lo.1 + 10 <= c.1 <= 20 * lo.1 + 19);
            if r.1 <= lo.1 {
                assert(c.1 <= 20 * r.1 + 9 <= 20 * lo.1 + 9);
            } else {
                assert(c.1 >= 20 * r.1 >= 20 * lo.1 + 20);
            }
        }
    }
}

/// Corridor strips of distinct unordered edges never overlap.
proof fn lemma_strips_disjoint(a: (int, int), b: (int, int), u: (int, int), v: (int, int), c: (int, int))
    requires
        man_dist(a, b) == 1,
        man_dist(u, v) == 1,
        !(a == u && b == v),
        !(a == v && b == u),
        corridor_map(a, b).contains_key(c),
    ensures
        !corridor_map(u, v).contains_key(c),
{
    if corridor_map(u, v).contains_key(c) {
        if a.1 == b.1 && u.1 == v.1 {
            let lo1 = if a.0 <= b.0 {
                a
            } else {
                b
            };
            let lo2 = if u.0 <= v.0 {
                u
            } else {
                v
            };
            if lo1 == lo2 {
                assert(a == u && b == v || a == v && b == u);
            } else if lo1.1 != lo2.1 {
                if lo1.1 < lo2.1 {
                    assert(c.1 <= 20 * lo1.1 + 8 < 20 * lo2.1 + 1);
                } else {
                    assert(c.1 >= 20 * lo1.1 + 1 > 20 * lo2.1 + 8);
                }
            } else {
                if lo1.0 < lo2.0 {
                    assert(c.0 <= 20 * lo1.0 + 19 < 20 * lo2.0 + 10);
                } else {
                    assert(c.0 >= 20 * lo1.0 + 10 > 20 * lo2.0 + 19);
                }
            }
        } else if a.1 == b.1 && u.1 != v.1 {
            let lo1 = if a.0 <= b.0 {
                a
            } else {
                b
            };
            let lo2 = if u.1 <= v.1 {
                u
            } else {
                v
            };
            // horizontal strip x-offsets 10..19, vertical 1..8: disjoint
            if lo2.0 <= lo1.0 - 1 {
                assert(c.0 <= 20 * lo2.0 + 8 < 20 * lo1.0 + 10);
            } else if lo2.0 >= lo1.0 + 1 {
                assert(c.0 >= 20 * lo2.0 + 1 > 20 * lo1.0 + 19);
            } else {
                assert(20 * lo1.0 + 10 <= c.0 <= 20 * lo1.0 + 19);
                assert(20 * lo2.0 + 1 <= c.0 <= 20 * lo2.0 + 8);
            }
        } else if a.1 != b.1 && u.1 == v.1 {
            let lo1 = if a.1 <= b.1 {
                a
            } else {
                b
            };
            let lo2 = if u.0 <= v.0 {
                u
            } else {
                v
            };
            if lo1.0 <= lo2.0 - 1 {
                assert(c.0 <= 20 * lo1.0 + 8 < 20 * lo2.0 + 10);
            } else if lo1.0 >= lo2.0 + 1 {
                assert(c.0 >= 20 * lo1.0 + 1 > 20 * lo2.0 + 19);
            } else {
                assert(20 * lo1.0 + 1 <= c.0 <= 20 * lo1.0 + 8);
                assert(20 * lo2.0 + 10 <= c.0 <= 20 * lo2.0 + 19);
            }
        } else {
            let lo1 = if a.1 <= b.1 {
                a
            } else {
                b
            };
            let lo2 = if u.1 <= v.1 {
                u
            } else {
                v
            };
            if lo1 == lo2 {
                assert(a == u && b == v || a == v && b == u);
            } else if lo1.0 != lo2.0 {
                if lo1.0 < lo2.0 {
                    assert(c.0 <= 20 * lo1.0 + 8 < 20 * lo2.0 + 1);
                } else {
                    assert(c.0 >= 20 * lo1.0 + 1 > 20 * lo2.0 + 8);
                }
            } else {
                if lo1.1 < lo2.1 {
                    assert(c.1 <= 20 * lo1.1 + 19 < 20 * lo2.1 + 10);
                } else {
                    assert(c.1 >= 20 * lo1.1 + 10 > 20 * lo2.1 + 19);
                }
            }
        }
    }
}


/// A stamped room list leaves `Some(floor_tile())` on the interior of
/// every room it contains.
proof fn lemma_rooms_interior(
    base: Map<(int, int), Tile>,
    rooms: Seq<(int, int)>,
    k: int,
    r: (int, int),
    c: (int, int),
)
    requires
        0 <= k <= rooms.len(),
        exists|j: int| 0 <= j < k && #[trigger] rooms[j] == r,
        in_interior(r, c),
    ensures
        opt_at(stamp_rooms(base, rooms, k), c) == Some(floor_tile()),
    decreases k,
{
    let j = choose|j: int| 0 <= j < k && #[trigger] rooms[j] == r;
    let fp = room_footprint(rooms[k - 1]);
    if fp.contains_key(c) {
        lemma_room_regions(r, rooms[k - 1], c);
        assert(opt_at(stamp_rooms(base, rooms, k), c) == Some(fp[c]));
    } else {
        assert(rooms[k - 1] != r) by {
            if rooms[k - 1] == r {
                assert(room_footprint(r).contains_key(c));
            }
        }
        assert(j < k - 1);
        lemma_rooms_interior(base, rooms, k - 1, r, c);
    }
}

/// Stamping corridors whose strips all avoid `c` leaves `c` unchanged.
proof fn lemma_corridors_frame(
    base: Map<(int, int), Tile>,
    path: Seq<(int, int)>,
    k: int,
    c: (int, int),
)
    requires
        0 <= k < path.len(),
        forall|j: int|
            0 <= j < k ==> !(#[trigger] corridor_map(path[j], path[j + 1])).contains_key(c),
    ensures
        opt_at(stamp_corridors(base, path, k), c) == opt_at(base, c),
    decreases k,
{
    if k > 0 {
        lemma_corridors_frame(base, path, k - 1, c);
        assert(!corridor_map(path[k - 1], path[k - 1 + 1]).contains_key(c));
        assert(path[k - 1 + 1] == path[k]);
    }
}

/// A cell of one corridor's passable lane keeps its floor tile through
/// the stamping of the remaining corridors, whose strips are disjoint
/// from this one.
proof fn lemma_corridor_floor_value(
    base: Map<(int, int), Tile>,
    path: Seq<(int, int)>,
    k: int,
    e: int,
    c: (int, int),
)
    requires
        0 <= e < k < path.len(),
        adjacent_steps(path),
        corridor_map(path[e], path[e + 1]).contains_key(c),
        corridor_map(path[e], path[e + 1])[c] == floor_tile(),
        forall|j: int|
            0 <= j < path.len() - 1 && j != e ==> !(#[trigger] corridor_map(
                path[j],
                path[j + 1],
            )).contains_key(c),
    ensures
        opt_at(stamp_corridors(base, path, k), c) == Some(floor_tile()),
    decreases k,
{
    if k - 1 == e {
        assert(opt_at(stamp_corridors(base, path, k), c) == Some(
            corridor_map(path[e], path[e + 1])[c],
        ));
    } else {
        assert(!corridor_map(path[k - 1], path[k - 1 + 1]).contains_key(c));
        assert(path[k - 1 + 1] == path[k]);
        lemma_corridor_floor_value(base, path, k - 1, e, c);
    }
}

/// Two distinct edges of the primary path are distinct as unordered
/// pairs of cells.
proof fn lemma_p_edges_distinct(p: Seq<(int, int)>, e1: int, e2: int)
    requires
        primary_ok(p),
        0 <= e1 < e2 < p.len() - 1,
    ensures
        !(p[e1] == p[e2] && p[e1 + 1] == p[e2 + 1]),
        !(p[e1] == p[e2 + 1] && p[e1 + 1] == p[e2]),
{
    let pre = p.take(p.len() - 1);
    assert(forall|i: int| 0 <= i < p.len() - 1 ==> #[trigger] pre[i] == p[i]);
    if e2 + 1 < p.len() - 1 {
        assert(pre[e1] != pre[e2]);
        assert(pre[e1 + 1] != pre[e2 + 1]);
        if e1 + 1 < e2 {
            assert(pre[e1 + 1] != pre[e2]);
        }
        if e1 + 1 == e2 {
            assert(pre[e1] != pre[e2 + 1]);
        }
    } else {
        // e2 is the closing edge: p[e2 + 1] is the origin, p[0].
        assert(p[e2 + 1] == p[0]);
        assert(pre[e1] != pre[e2]);
        if p[e1] == p[e2] && p[e1 + 1] == p[e2 + 1] {
            assert(false);
        }
        if p[e1] == p[e2 + 1] && p[e1 + 1] == p[e2] {
            // p[e1] == p[0] forces e1 == 0, and then p[1] == p[e2]
            assert(pre[e1] == pre[0]);
            assert(e1 == 0);
            assert(pre[1] == pre[e2]);
            assert(1 == e2);
            assert(p.len() - 1 == 2);
        }
    }
}

/// Two distinct edges of the side path are distinct as unordered pairs.
proof fn lemma_sp_edges_distinct(p: Seq<(int, int)>, sp: Seq<(int, int)>, e1: int, e2: int)
    requires
        primary_ok(p),
        side_ok(p, sp),
        0 <= e1 < e2 < sp.len() - 1,
    ensures
        !(sp[e1] == sp[e2] && sp[e1 + 1] == sp[e2 + 1]),
        !(sp[e1] == sp[e2 + 1] && sp[e1 + 1] == sp[e2]),
{
    let pre = sp.take(sp.len() - 1);
    assert(forall|i: int| 0 <= i < sp.len() - 1 ==> #[trigger] pre[i] == sp[i]);
    if e2 + 1 < sp.len() - 1 {
        assert(pre[e1] != pre[e2]);
        assert(pre[e1 + 1] != pre[e2 + 1]);
        if e1 + 1 < e2 {
            assert(pre[e1 + 1] != pre[e2]);
        }
        if e1 + 1 == e2 {
            assert(pre[e1] != pre[e2 + 1]);
        }
    } else {
        // e2 is the reconnecting edge: sp[e2 + 1] lies on the primary
        // path, while every interior cell does not.
        assert(pre[e1] != pre[e2]);
        if sp[e1] == sp[e2] && sp[e1 + 1] == sp[e2 + 1] {
            assert(false);
        }
        if sp[e1] == sp[e2 + 1] && sp[e1 + 1] == sp[e2] {
            if e1 + 1 < e2 {
                assert(pre[e1 + 1] != pre[e2]);
            } else {
                // e1 + 1 == e2: then sp[e1] == sp[sp.len() - 1], a
                // primary cell; sp[e1] is interior unless e1 == 0, and
                // sp[0] == p[cj] is primary while interior cells are
                // not, so e1 == 0 and sp.len() == 3 < 4.
                if e1 >= 1 {
                    assert(!p.contains(sp[e1]));
                    let kk = choose|k: int| 0 <= k < p.len() - 1 && sp[sp.len() - 1] == p[k];
                    assert(p.contains(p[kk]));
                } else {
                    assert(e2 == 1 && sp.len() - 1 == 2);
                }
            }
        }
    }
}

/// An edge of the primary path and an edge of the side path are always
/// distinct as unordered pairs: each side edge has an interior cell,
/// which no primary cell equals.
proof fn lemma_cross_edges_distinct(p: Seq<(int, int)>, sp: Seq<(int, int)>, e1: int, e2: int)
    requires
        primary_ok(p),
        side_ok(p, sp),
        0 <= e1 < p.len() - 1,
        0 <= e2 < sp.len() - 1,
    ensures
        !(p[e1] == sp[e2] && p[e1 + 1] == sp[e2 + 1]),
        !(p[e1] == sp[e2 + 1] && p[e1 + 1] == sp[e2]),
{
    // one endpoint of the side edge is an interior cell
    let i = if e2 >= 1 {
        e2
    } else {
        e2 + 1
    };
    assert(1 <= i < sp.len() - 1);
    assert(!p.contains(sp[i]));
    assert(p.contains(p[e1]));
    assert(p.contains(p[e1 + 1]));
}


/// Every interior cell of every room on either path is passable in the
/// finished level.
proof fn lemma_rooms_keep_interior(
    base: Map<(int, int), Tile>,
    rooms: Seq<(int, int)>,
    k: int,
    r: (int, int),
    c: (int, int),
)
    requires
        0 <= k <= rooms.len(),
        in_interior(r, c),
        opt_at(base, c) == Some(floor_tile()),
    ensures
        opt_at(stamp_rooms(base, rooms, k), c) == Some(floor_tile()),
    decreases k,
{
    if k > 0 {
        let fp = room_footprint(rooms[k - 1]);
        if fp.contains_key(c) {
            lemma_room_regions(r, rooms[k - 1], c);
            assert(opt_at(stamp_rooms(base, rooms, k), c) == Some(fp[c]));
        } else {
            lemma_rooms_keep_interior(base, rooms, k - 1, r, c);
        }
    }
}

proof fn lemma_interior_passable(
    p: Seq<(int, int)>,
    sp: Seq<(int, int)>,
    r: (int, int),
    c: (int, int),
)
    requires
        primary_ok(p),
        side_ok(p, sp),
        (exists|j: int| 0 <= j < p.len() && #[trigger] p[j] == r) || (exists|j: int|
            0 <= j < sp.len() && #[trigger] sp[j] == r),
        in_interior(r, c),
    ensures
        opt_at(carved_level_map(p, sp), c) == Some(floor_tile()),
        passable(carved_level_map(p, sp), c),
{
    reveal(carved_level_map);
    let rm1 = stamp_rooms(Map::empty(), p, p.len() as int);
    let rm2 = stamp_rooms(rm1, sp, sp.len() as int);
    if exists|j: int| 0 <= j < p.len() && #[trigger] p[j] == r {
        lemma_rooms_interior(Map::empty(), p, p.len() as int, r, c);
        lemma_rooms_keep_interior(rm1, sp, sp.len() as int, r, c);
    } else {
        lemma_rooms_interior(rm1, sp, sp.len() as int, r, c);
    }
    let mid = stamp_corridors(rm2, p, p.len() - 1);
    assert forall|j: int|
        0 <= j < p.len() - 1 implies !(#[trigger] corridor_map(p[j], p[j + 1])).contains_key(
        c,
    ) by {
        lemma_strip_misses_interior(p[j], p[j + 1], r, c);
    }
    lemma_corridors_frame(rm2, p, p.len() - 1, c);
    assert forall|j: int|
        0 <= j < sp.len() - 1 implies !(#[trigger] corridor_map(sp[j], sp[j + 1])).contains_key(
        c,
    ) by {
        lemma_strip_misses_interior(sp[j], sp[j + 1], r, c);
    }
    lemma_corridors_frame(mid, sp, sp.len() - 1, c);
}

proof fn lemma_corridor_passable(
    p: Seq<(int, int)>,
    sp: Seq<(int, int)>,
    in_p: bool,
    e: int,
    c: (int, int),
)
    requires
        primary_ok(p),
        side_ok(p, sp),
        in_p ==> 0 <= e < p.len() - 1,
        !in_p ==> 0 <= e < sp.len() - 1,
        ({
            let a = if in_p {
                p[e]
            } else {
                sp[e]
            };
            let b = if in_p {
                p[e + 1]
            } else {
                sp[e + 1]
            };
            corridor_map(a, b).contains_key(c) && corridor_map(a, b)[c] == floor_tile()
        }),
    ensures
        opt_at(carved_level_map(p, sp), c) == Some(floor_tile()),
        passable(carved_level_map(p, sp), c),
{
    reveal(carved_level_map);
    let rm1 = stamp_rooms(Map::empty(), p, p.len() as int);
    let rm2 = stamp_rooms(rm1, sp, sp.len() as int);
    let mid = stamp_corridors(rm2, p, p.len() - 1);
    if in_p {
        assert forall|j: int|
            0 <= j < p.len() - 1 && j != e implies !(#[trigger] corridor_map(
            p[j],
            p[j + 1],
        )).contains_key(c) by {
            if j < e {
                lemma_p_edges_distinct(p, j, e);
            } else {
                lemma_p_edges_distinct(p, e, j);
            }
            lemma_strips_disjoint(p[e], p[e + 1], p[j], p[j + 1], c);
        }
        lemma_corridor_floor_value(rm2, p, p.len() - 1, e, c);
        assert forall|j: int|
            0 <= j < sp.len() - 1 implies !(#[trigger] corridor_map(sp[j], sp[j + 1])).contains_key(
            c,
        ) by {
            lemma_cross_edges_distinct(p, sp, e, j);
            lemma_strips_disjoint(p[e], p[e + 1], sp[j], sp[j + 1], c);
        }
        lemma_corridors_frame(mid, sp, sp.len() - 1, c);
    } else {
        assert forall|j: int|
            0 <= j < sp.len() - 1 && j != e implies !(#[trigger] corridor_map(
            sp[j],
            sp[j + 1],
        )).contains_key(c) by {
            if j < e {
                lemma_sp_edges_distinct(p, sp, j, e);
            } else {
                lemma_sp_edges_distinct(p, sp, e, j);
            }
            lemma_strips_disjoint(sp[e], sp[e + 1], sp[j], sp[j + 1], c);
        }
        lemma_corridor_floor_value(mid, sp, sp.len() - 1, e, c);
    }
}

/// Walking one edge of either path: the straight line of tiles between
/// the two room centres is passable end to end, so the centres reach
/// each other.
/// The lower (first in reading order) endpoint of an edge.
pub open spec fn seg_lo(a: (int, int), b: (int, int)) -> (int, int) {
    if a.0 + a.1 <= b.0 + b.1 {
        a
    } else {
        b
    }
}

/// The `i`th tile on the straight line between the centres of the two
/// rooms of an edge, starting from the lower endpoint's centre.
pub open spec fn seg_cell(a: (int, int), b: (int, int), i: int) -> (int, int) {
    if a.1 == b.1 {
        (20 * seg_lo(a, b).0 + 5 + i, 20 * seg_lo(a, b).1 + 5)
    } else {
        (20 * seg_lo(a, b).0 + 5, 20 * seg_lo(a, b).1 + 5 + i)
    }
}

/// Every tile on an edge's centre line is passable in the finished
/// level: five in each room's interior and ten on the corridor's lane.
proof fn lemma_segment_cell(p: Seq<(int, int)>, sp: Seq<(int, int)>, in_p: bool, e: int, i: int)
    requires
        primary_ok(p),
        side_ok(p, sp),
        in_p ==> 0 <= e < p.len() - 1,
        !in_p ==> 0 <= e < sp.len() - 1,
        0 <= i < 21,
    ensures
        ({
            let a = if in_p {
                p[e]
            } else {
                sp[e]
            };
            let b = if in_p {
                p[e + 1]
            } else {
                sp[e + 1]
            };
            passable(carved_level_map(p, sp), seg_cell(a, b, i))
        }),
{
    let a = if in_p {
        p[e]
    } else {
        sp[e]
    };
    let b = if in_p {
        p[e + 1]
    } else {
        sp[e + 1]
    };
    assert(man_dist(a, b) == 1);
    let lo = seg_lo(a, b);
    let hi = if lo == a {
        b
    } else {
        a
    };
    let c = seg_cell(a, b, i);
    if i <= 4 {
        assert(in_interior(lo, c));
        lemma_interior_passable(p, sp, lo, c);
    } else if i <= 14 {
        assert(corridor_map(a, b).contains_key(c) && corridor_map(a, b)[c] == floor_tile());
        lemma_corridor_passable(p, sp, in_p, e, c);
    } else {
        assert(in_interior(hi, c));
        lemma_interior_passable(p, sp, hi, c);
    }
}

/// Walking one edge of either path: the straight line of tiles between
/// the two room centres is passable end to end, so the centres reach
/// each other.
#[verifier::rlimit(100)]
#[verifier::spinoff_prover]
proof fn lemma_edge_reachable(p: Seq<(int, int)>, sp: Seq<(int, int)>, in_p: bool, e: int)
    requires
        primary_ok(p),
        side_ok(p, sp),
        in_p ==> 0 <= e < p.len() - 1,
        !in_p ==> 0 <= e < sp.len() - 1,
    ensures
        ({
            let a = if in_p {
                p[e]
            } else {
                sp[e]
            };
            let b = if in_p {
                p[e + 1]
            } else {
                sp[e + 1]
            };
            reachable(carved_level_map(p, sp), room_center(a), room_center(b))
        }),
{
    let m = carved_level_map(p, sp);
    let a = if in_p {
        p[e]
    } else {
        sp[e]
    };
    let b = if in_p {
        p[e + 1]
    } else {
        sp[e + 1]
    };
    assert(man_dist(a, b) == 1);
    let lo = seg_lo(a, b);
    let hi = if lo == a {
        b
    } else {
        a
    };
    let w = Seq::new(21, |i: int| seg_cell(a, b, i));
    assert forall|i: int| 0 <= i < w.len() implies passable(m, #[trigger] w[i]) by {
        lemma_segment_cell(p, sp, in_p, e, i);
    }
    assert forall|i: int| 0 <= i < w.len() - 1 implies man_dist(#[trigger] w[i], w[i + 1])
        == 1 by {}
    assert(is_walk(m, w));
    assert(w[0] == room_center(lo));
    assert(w[w.len() - 1] == room_center(hi));
    lemma_walk_reachable(m, w);
    if a != lo {
        lemma_reachable_sym(m, room_center(lo), room_center(hi));
    }
}

proof fn lemma_reach_primary(p: Seq<(int, int)>, sp: Seq<(int, int)>, i: int)
    requires
        primary_ok(p),
        side_ok(p, sp),
        0 <= i < p.len(),
    ensures
        reachable(carved_level_map(p, sp), (5int, 5int), room_center(p[i])),
    decreases i,
{
    let m = carved_level_map(p, sp);
    if i == 0 {
        assert(in_interior((0int, 0int), (5int, 5int)));
        assert(p[0] == (0int, 0int));
        lemma_interior_passable(p, sp, (0int, 0int), (5int, 5int));
        lemma_reachable_refl(m, (5int, 5int));
        assert(room_center(p[0]) == (5int, 5int));
    } else {
        lemma_reach_primary(p, sp, i - 1);
        lemma_edge_reachable(p, sp, true, i - 1);
        assert(p[i - 1 + 1] == p[i]);
        lemma_reachable_trans(m, (5int, 5int), room_center(p[i - 1]), room_center(p[i]));
    }
}

proof fn lemma_reach_side(p: Seq<(int, int)>, sp: Seq<(int, int)>, i: int)
    requires
        primary_ok(p),
        side_ok(p, sp),
        0 <= i < sp.len(),
    ensures
        reachable(carved_level_map(p, sp), (5int, 5int), room_center(sp[i])),
    decreases i,
{
    let m = carved_level_map(p, sp);
    if i == 0 {
        let j = choose|j: int| 2 <= j <= 4 && j < p.len() - 1 && sp[0] == #[trigger] p[j];
        lemma_reach_primary(p, sp, j);
    } else {
        lemma_reach_side(p, sp, i - 1);
        lemma_edge_reachable(p, sp, false, i - 1);
        assert(sp[i - 1 + 1] == sp[i]);
        lemma_reachable_trans(m, (5int, 5int), room_center(sp[i - 1]), room_center(sp[i]));
    }
}

/// Closure of the loop: the primary path's last room is the origin
/// itself, appended after reaching a cell adjacent to it, so the room
/// before it sits at Manhattan distance one from the origin.
pub proof fn lemma_primary_loop_closes(p: Seq<(int, int)>)
    requires
        primary_ok(p),
    ensures
        p[p.len() - 1] == (0int, 0int),
        man_dist(p[p.len() - 2], (0int, 0int)) == 1,
{
    assert(man_dist(p[p.len() - 2], p[p.len() - 1]) == 1);
}

/// Connectivity of a cyclic level: every room on the primary path and
/// every room on the side path is reachable from the start tile by
/// walking only on carved passable tiles.
pub proof fn lemma_generated_level_connected(p: Seq<(int, int)>, sp: Seq<(int, int)>)
    requires
        primary_ok(p),
        side_ok(p, sp),
    ensures
        forall|i: int|
            0 <= i < p.len() ==> reachable(
                carved_level_map(p, sp),
                (5int, 5int),
                room_center(#[trigger] p[i]),
            ),
        forall|i: int|
            0 <= i < sp.len() ==> reachable(
                carved_level_map(p, sp),
                (5int, 5int),
                room_center(#[trigger] sp[i]),
            ),
{
    assert forall|i: int| 0 <= i < p.len() implies reachable(
        carved_level_map(p, sp),
        (5int, 5int),
        room_center(#[trigger] p[i]),
    ) by {
        lemma_reach_primary(p, sp, i);
    }
    assert forall|i: int| 0 <= i < sp.len() implies reachable(
        carved_level_map(p, sp),
        (5int, 5int),
        room_center(#[trigger] sp[i]),
    ) by {
        lemma_reach_side(p, sp, i);
    }
}

} // verus!
