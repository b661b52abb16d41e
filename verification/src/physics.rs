//! The tile map and the per-tick motion resolver.
//!
//! World positions are fixed-point values (see [`crate::geom`]); a tile is
//! `TILE_SIZE` world units on a side. The map is sparse: a coordinate that
//! was never written resolves to the default, non-blocking tile.

use vstd::prelude::*;

verus! {

use std::collections::HashMap;
use crate::geom::SUBUNITS;
use crate::geom::Vector;
use vstd::arithmetic::div_mod::lemma_fundamental_div_mod_converse;
use vstd::arithmetic::mul::lemma_mul_inequality;

broadcast use vstd::std_specs::hash::group_hash_axioms;

/// World units per tile side.
pub const TILE_SIZE: i64 = 32;

/// World subunits per tile side (`TILE_SIZE` tiles of `SUBUNITS` each).
pub const TILE_SUBUNITS: i64 = 32 * 256;

/// A display colour, 8 bits per channel.
#[derive(Copy, Clone, Debug, PartialEq, Eq, Structural)]
pub struct Colour {
    pub r: u8,
    pub g: u8,
    pub b: u8,
    pub a: u8,
}

/// One cell of the level grid.
#[derive(Copy, Clone, Debug, PartialEq, Eq, Structural)]
pub struct Tile {
    /// Whether the cell blocks movement.
    pub collision: bool,
    pub colour: Colour,
}

/// The tile a never-written coordinate resolves to: passable, magenta.
pub open spec fn default_tile() -> Tile {
    Tile { collision: false, colour: Colour { r: 255, g: 0, b: 255, a: 255 } }
}

impl Default for Tile {
    fn default() -> (t: Tile)
        ensures
            t == default_tile(),
    {
        Tile { collision: false, colour: Colour { r: 255, g: 0, b: 255, a: 255 } }
    }
}

/// Whether `v` lies in the coordinate range of an `i32`.
pub open spec fn coord_in_range(v: int) -> bool {
    -0x8000_0000 <= v < 0x8000_0000
}

/// The key under which grid coordinate `(x, y)` is stored: both
/// coordinates shifted to `[0, 2^32)` and packed into one `u64`.
pub open spec fn pack_key(x: int, y: int) -> int {
    (x + 0x8000_0000) * 0x1_0000_0000 + (y + 0x8000_0000)
}

proof fn lemma_pack_key_injective(x1: int, y1: int, x2: int, y2: int)
    requires
        coord_in_range(x1),
        coord_in_range(y1),
        coord_in_range(x2),
        coord_in_range(y2),
        pack_key(x1, y1) == pack_key(x2, y2),
    ensures
        x1 == x2,
        y1 == y2,
{
    let k = pack_key(x1, y1);
    lemma_fundamental_div_mod_converse(k, 0x1_0000_0000, x1 + 0x8000_0000, y1 + 0x8000_0000);
    lemma_fundamental_div_mod_converse(k, 0x1_0000_0000, x2 + 0x8000_0000, y2 + 0x8000_0000);
}

fn pack_key_exec(x: i32, y: i32) -> (k: u64)
    ensures
        k == pack_key(x as int, y as int),
{
    let ex = ((x as i64) + 0x8000_0000) as u64;
    let ey = ((y as i64) + 0x8000_0000) as u64;
    ex * 0x1_0000_0000 + ey
}

/// The sparse level grid: a mapping from integer tile coordinates to tiles.
pub struct TileMap {
    tiles: HashMap<u64, Tile>,
}

impl View for TileMap {
    type V = Map<(int, int), Tile>;

    closed spec fn view(&self) -> Map<(int, int), Tile> {
        Map::new(
            |p: (int, int)|
                coord_in_range(p.0) && coord_in_range(p.1) && self.tiles@.contains_key(
                    pack_key(p.0, p.1) as u64,
                ),
            |p: (int, int)| self.tiles@[pack_key(p.0, p.1) as u64],
        )
    }
}

/// The tile stored at `p`, or the default tile where none is stored.
pub open spec fn tile_at(m: Map<(int, int), Tile>, p: (int, int)) -> Tile {
    if m.contains_key(p) {
        m[p]
    } else {
        default_tile()
    }
}

/// The tile stored at `p`, or `None` where none is stored: the pointwise
/// face of a tile map, convenient for cell-by-cell reasoning.
pub open spec fn opt_at(m: Map<(int, int), Tile>, p: (int, int)) -> Option<Tile> {
    if m.contains_key(p) {
        Some(m[p])
    } else {
        None
    }
}

/// Two tile maps that agree cell by cell are equal.
pub proof fn lemma_opt_at_ext(m1: Map<(int, int), Tile>, m2: Map<(int, int), Tile>)
    requires
        forall|p: (int, int)| #[trigger] opt_at(m1, p) == opt_at(m2, p),
    ensures
        m1 == m2,
{
    assert forall|p: (int, int)| #[trigger] m1.contains_key(p) implies m2.contains_key(p) && m1[p]
        == m2[p] by {
        assert(opt_at(m1, p) == opt_at(m2, p));
    }
    assert forall|p: (int, int)| #[trigger] m2.contains_key(p) implies m1.contains_key(p) by {
        assert(opt_at(m1, p) == opt_at(m2, p));
    }
    assert(m1 =~= m2);
}

impl TileMap {
    pub fn new() -> (r: TileMap)
        ensures
            r@ == Map::<(int, int), Tile>::empty(),
    {
        let r = TileMap { tiles: HashMap::new() };
        proof {
            assert(r@ =~= Map::<(int, int), Tile>::empty());
        }
        r
    }

    /// Stores `tile` at `pos`, replacing whatever was there.
    pub fn insert(&mut self, pos: (i32, i32), tile: Tile)
        ensures
            final(self)@ == old(self)@.insert((pos.0 as int, pos.1 as int), tile),
    {
        let key = pack_key_exec(pos.0, pos.1);
        self.tiles.insert(key, tile);
        proof {
            let p = (pos.0 as int, pos.1 as int);
            assert forall|q: (int, int)|
                coord_in_range(q.0) && coord_in_range(q.1) && q != p implies pack_key(q.0, q.1)
                != pack_key(p.0, p.1) by {
                if pack_key(q.0, q.1) == pack_key(p.0, p.1) {
                    lemma_pack_key_injective(q.0, q.1, p.0, p.1);
                }
            }
            assert(self@ =~= old(self)@.insert(p, tile));
        }
    }

    /// Looks up `pos`; a coordinate never written yields the default tile.
    /// The lookup takes `&self` and cannot change the map.
    pub fn get(&self, pos: (i32, i32)) -> (t: Tile)
        ensures
            t == tile_at(self@, (pos.0 as int, pos.1 as int)),
    {
        let key = pack_key_exec(pos.0, pos.1);
        match self.tiles.get(&key) {
            Some(t) => *t,
            None => Tile::default(),
        }
    }
}

impl Default for TileMap {
    fn default() -> (r: TileMap)
        ensures
            r@ == Map::<(int, int), Tile>::empty(),
    {
        TileMap::new()
    }
}

// ------------------------------------------------------------------
// Moving entities
// ------------------------------------------------------------------

/// Where an entity stands, in world subunits.
#[derive(Copy, Clone, Debug, PartialEq, Eq, Structural)]
pub struct Transform {
    pub position: Vector,
}

impl Default for Transform {
    fn default() -> (t: Transform)
        ensures
            t.position.x == 0 && t.position.y == 0,
    {
        Transform { position: Vector { x: 0, y: 0 } }
    }
}

/// Velocity, acceleration and speed cap of a moving entity, all in world
/// subunits per tick.
#[derive(Copy, Clone, Debug, PartialEq, Eq, Structural)]
pub struct PhysicsComponent {
    pub velocity: Vector,
    pub acceleration: Vector,
    pub max_speed: i64,
}

impl Default for PhysicsComponent {
    fn default() -> (p: PhysicsComponent)
        ensures
            p.velocity.x == 0 && p.velocity.y == 0,
            p.acceleration.x == 0 && p.acceleration.y == 0,
            p.max_speed == 0,
    {
        PhysicsComponent {
            velocity: Vector { x: 0, y: 0 },
            acceleration: Vector { x: 0, y: 0 },
            max_speed: 0,
        }
    }
}

/// A disc-shaped hitbox; the radius is in world subunits.
#[derive(Copy, Clone, Debug, PartialEq, Eq, Structural)]
pub struct HitBox {
    pub radius: i64,
}

impl Default for HitBox {
    fn default() -> (h: HitBox)
        ensures
            h.radius == 0,
    {
        HitBox { radius: 0 }
    }
}

/// A projectile: a point mover with a damage payload; its radius is used
/// by entity-versus-bullet detection only, never by wall collision.
#[derive(Copy, Clone, Debug, PartialEq, Eq, Structural)]
pub struct Bullet {
    pub radius: i64,
    pub damage: i32,
    pub penetrating: bool,
}

impl Default for Bullet {
    fn default() -> (b: Bullet)
        ensures
            b.radius == 0 && b.damage == 0 && !b.penetrating,
    {
        Bullet { radius: 0, damage: 0, penetrating: false }
    }
}

/// Marker set on a point entity whose position lies inside a blocking
/// tile after the latest tick.
#[derive(Copy, Clone, Debug, PartialEq, Eq, Structural)]
pub struct CollidingWithWall;

// ------------------------------------------------------------------
// Collision predicates
// ------------------------------------------------------------------

/// Largest magnitude, in subunits, accepted for a coordinate handed to a
/// collision test.
pub const CHECK_LIMIT: i64 = 0x800_0000_0000;

/// Largest hitbox or bullet radius, in subunits.
pub const RADIUS_LIMIT: i64 = 0x10_0000;

/// Whether the tile at `t` blocks movement; an absent tile does not.
pub open spec fn blocks(m: Map<(int, int), Tile>, t: (int, int)) -> bool {
    tile_at(m, t).collision
}

pub open spec fn clamp_spec(v: int, lo: int, hi: int) -> int {
    if v < lo {
        lo
    } else if v > hi {
        hi
    } else {
        v
    }
}

pub open spec fn sq(v: int) -> int {
    v * v
}

/// Whether an open disc of radius `r` centred at `(cx, cy)` (subunits)
/// meets the closed square footprint of tile `t`: the squared distance
/// from the centre to the nearest point of the square is less than `r`
/// squared. A disc exactly tangent to a tile does not overlap it.
pub open spec fn disc_tile_overlap(cx: int, cy: int, r: int, t: (int, int)) -> bool {
    let lox = t.0 * (TILE_SUBUNITS as int);
    let loy = t.1 * (TILE_SUBUNITS as int);
    let px = clamp_spec(cx, lox, lox + TILE_SUBUNITS as int);
    let py = clamp_spec(cy, loy, loy + TILE_SUBUNITS as int);
    sq(cx - px) + sq(cy - py) < sq(r)
}

/// Whether a disc of radius `r` centred at `(cx, cy)` overlaps any
/// blocking tile of the map.
pub open spec fn disc_blocked(m: Map<(int, int), Tile>, cx: int, cy: int, r: int) -> bool {
    exists|t: (int, int)| blocks(m, t) && disc_tile_overlap(cx, cy, r, t)
}

/// Tile index of a subunit coordinate.
pub open spec fn tile_index(v: int) -> int {
    v / (TILE_SUBUNITS as int)
}

/// Floored world-unit coordinate of a subunit coordinate.
pub open spec fn world_floor(v: int) -> int {
    v / (SUBUNITS as int)
}

/// A tile whose footprint meets the disc lies within the disc's bounding
/// box of tiles, so scanning that box decides `disc_blocked`.
proof fn lemma_overlap_within_bbox(cx: int, cy: int, r: int, t: (int, int))
    requires
        0 <= r,
        disc_tile_overlap(cx, cy, r, t),
    ensures
        tile_index(cx - r) <= t.0 <= tile_index(cx + r),
        tile_index(cy - r) <= t.1 <= tile_index(cy + r),
{
    let ts = TILE_SUBUNITS as int;
    let lox = t.0 * ts;
    let loy = t.1 * ts;
    let px = clamp_spec(cx, lox, lox + ts);
    let py = clamp_spec(cy, loy, loy + ts);
    assert(sq(cx - px) >= 0) by (nonlinear_arith);
    assert(sq(cy - py) >= 0) by (nonlinear_arith);
    lemma_div_bounds(cx - r, ts);
    lemma_div_bounds(cx + r, ts);
    lemma_div_bounds(cy - r, ts);
    lemma_div_bounds(cy + r, ts);
    if t.0 > tile_index(cx + r) {
        assert((tile_index(cx + r) + 1) * ts <= t.0 * ts) by {
            lemma_mul_inequality(tile_index(cx + r) + 1, t.0, ts);
        }
        assert(cx - px <= -r - 1);
        assert(sq(cx - px) >= sq(r)) by (nonlinear_arith)
            requires
                cx - px <= -r - 1 && r >= 0,
        ;
    }
    if t.0 < tile_index(cx - r) {
        assert((t.0 + 1) * ts <= tile_index(cx - r) * ts) by {
            lemma_mul_inequality(t.0 + 1, tile_index(cx - r), ts);
        }
        assert((t.0 + 1) * ts == lox + ts) by (nonlinear_arith)
            requires
                lox == t.0 * ts,
        ;
        assert(tile_index(cx - r) * ts == ts * tile_index(cx - r)) by (nonlinear_arith);
        assert(px <= lox + ts);
        assert(cx - px >= r);
        assert(sq(cx - px) >= sq(r)) by (nonlinear_arith)
            requires
                cx - px >= r && r >= 0,
        ;
    }
    if t.1 > tile_index(cy + r) {
        assert((tile_index(cy + r) + 1) * ts <= t.1 * ts) by {
            lemma_mul_inequality(tile_index(cy + r) + 1, t.1, ts);
        }
        assert(cy - py <= -r - 1);
        assert(sq(cy - py) >= sq(r)) by (nonlinear_arith)
            requires
                cy - py <= -r - 1 && r >= 0,
        ;
    }
    if t.1 < tile_index(cy - r) {
        assert((t.1 + 1) * ts <= tile_index(cy - r) * ts) by {
            lemma_mul_inequality(t.1 + 1, tile_index(cy - r), ts);
        }
        assert((t.1 + 1) * ts == loy + ts) by (nonlinear_arith)
            requires
                loy == t.1 * ts,
        ;
        assert(tile_index(cy - r) * ts == ts * tile_index(cy - r)) by (nonlinear_arith);
        assert(py <= loy + ts);
        assert(cy - py >= r);
        assert(sq(cy - py) >= sq(r)) by (nonlinear_arith)
            requires
                cy - py >= r && r >= 0,
        ;
    }
}

/// For a positive divisor, `d * (v / d)` brackets `v` from below and
/// `d * (v / d + 1)` from strictly above.
proof fn lemma_div_bounds(v: int, d: int)
    requires
        0 < d,
    ensures
        d * (v / d) <= v < d * (v / d + 1),
{
    vstd::arithmetic::div_mod::lemma_fundamental_div_mod(v, d);
    vstd::arithmetic::div_mod::lemma_mod_bound(v, d);
    assert(d * (v / d + 1) == d * (v / d) + d) by (nonlinear_arith);
}

/// Squares an `i64` exactly; any such square fits an `i128`.
fn sq_exec(v: i64) -> (s: i128)
    ensures
        s == sq(v as int),
        s >= 0,
{
    proof {
        assert(sq(v as int) <= 0x4000_0000_0000_0000_0000_0000_0000_0000int && sq(v as int) >= 0)
            by (nonlinear_arith)
            requires
                -0x8000_0000_0000_0000 <= v as int <= 0x7fff_ffff_ffff_ffff,
        ;
    }
    (v as i128) * (v as i128)
}

fn clamp_exec(v: i64, lo: i64, hi: i64) -> (c: i64)
    ensures
        c == clamp_spec(v as int, lo as int, hi as int),
{
    if v < lo {
        lo
    } else if v > hi {
        hi
    } else {
        v
    }
}

/// Whether the disc overlaps the one tile `t`.
fn disc_tile_overlap_exec(cx: i64, cy: i64, r: i64, tx: i64, ty: i64) -> (b: bool)
    requires
        -CHECK_LIMIT - RADIUS_LIMIT <= cx <= CHECK_LIMIT + RADIUS_LIMIT,
        -CHECK_LIMIT - RADIUS_LIMIT <= cy <= CHECK_LIMIT + RADIUS_LIMIT,
        0 <= r <= RADIUS_LIMIT,
        -0x8000_0000 <= tx < 0x8000_0000,
        -0x8000_0000 <= ty < 0x8000_0000,
    ensures
        b == disc_tile_overlap(cx as int, cy as int, r as int, (tx as int, ty as int)),
{
    let lox = tx * TILE_SUBUNITS;
    let loy = ty * TILE_SUBUNITS;
    let px = clamp_exec(cx, lox, lox + TILE_SUBUNITS);
    let py = clamp_exec(cy, loy, loy + TILE_SUBUNITS);
    let dx = cx - px;
    let dy = cy - py;
    proof {
        assert(sq(dx as int) <= 0x1000_0000_0000_0000_0000_0000int && sq(dy as int)
            <= 0x1000_0000_0000_0000_0000_0000int) by (nonlinear_arith)
            requires
                -0x4000_0000_0000 <= dx as int <= 0x4000_0000_0000,
                -0x4000_0000_0000 <= dy as int <= 0x4000_0000_0000,
        ;
    }
    let d2 = sq_exec(dx) + sq_exec(dy);
    d2 < sq_exec(r)
}

/// Whether a disc at `position` with the given hitbox overlaps some
/// blocking tile of the map. This is the pure overlap query the motion
/// resolver and its callers share.
pub fn check_collision(position: Vector, hitbox: &HitBox, tilemap: &TileMap) -> (b: bool)
    requires
        -CHECK_LIMIT <= position.x <= CHECK_LIMIT,
        -CHECK_LIMIT <= position.y <= CHECK_LIMIT,
        0 <= hitbox.radius <= RADIUS_LIMIT,
    ensures
        b == disc_blocked(tilemap@, position.x as int, position.y as int, hitbox.radius as int),
{
    let ghost cx = position.x as int;
    let ghost cy = position.y as int;
    let r = hitbox.radius;
    let ghost ri = r as int;
    let ghost m = tilemap@;
    let tx0 = crate::geom::floor_div(position.x - r, TILE_SUBUNITS);
    let tx1 = crate::geom::floor_div(position.x + r, TILE_SUBUNITS);
    let ty0 = crate::geom::floor_div(position.y - r, TILE_SUBUNITS);
    let ty1 = crate::geom::floor_div(position.y + r, TILE_SUBUNITS);
    proof {
        lemma_tile_range_fits(cx, cy, ri);
        assert forall|t: (int, int)| t.0 < tx0 && blocks(m, t) implies !disc_tile_overlap(
            cx,
            cy,
            ri,
            t,
        ) by {
            if disc_tile_overlap(cx, cy, ri, t) {
                lemma_overlap_within_bbox(cx, cy, ri, t);
            }
        }
    }
    let mut tx = tx0;
    while tx <= tx1
        invariant
            -CHECK_LIMIT <= position.x <= CHECK_LIMIT,
            -CHECK_LIMIT <= position.y <= CHECK_LIMIT,
            0 <= r <= RADIUS_LIMIT,
            r == hitbox.radius,
            cx == position.x as int,
            cy == position.y as int,
            ri == r as int,
            m == tilemap@,
            tx0 == tile_index(cx - ri),
            tx1 == tile_index(cx + ri),
            ty0 == tile_index(cy - ri),
            ty1 == tile_index(cy + ri),
            -0x8000_0000 < tx0,
            tx1 < 0x8000_0000,
            -0x8000_0000 < ty0,
            ty1 < 0x8000_0000,
            tx0 <= tx,
            tx <= tx1 + 1,
            forall|t: (int, int)|
                t.0 < tx && blocks(m, t) ==> !disc_tile_overlap(cx, cy, ri, t),
        decreases tx1 + 1 - tx,
    {
        proof {
            assert forall|t: (int, int)|
                t.0 == tx && t.1 < ty0 && blocks(m, t) implies !disc_tile_overlap(
                cx,
                cy,
                ri,
                t,
            ) by {
                if disc_tile_overlap(cx, cy, ri, t) {
                    lemma_overlap_within_bbox(cx, cy, ri, t);
                }
            }
        }
        let mut ty = ty0;
        while ty <= ty1
            invariant
                -CHECK_LIMIT <= position.x <= CHECK_LIMIT,
                -CHECK_LIMIT <= position.y <= CHECK_LIMIT,
                0 <= r <= RADIUS_LIMIT,
                r == hitbox.radius,
                cx == position.x as int,
                cy == position.y as int,
                ri == r as int,
                m == tilemap@,
                tx0 == tile_index(cx - ri),
                tx1 == tile_index(cx + ri),
                ty0 == tile_index(cy - ri),
                ty1 == tile_index(cy + ri),
                -0x8000_0000 < tx0,
                tx1 < 0x8000_0000,
                -0x8000_0000 < ty0,
                ty1 < 0x8000_0000,
                tx0 <= tx <= tx1,
                ty0 <= ty,
                ty <= ty1 + 1,
                forall|t: (int, int)|
                    t.0 < tx && blocks(m, t) ==> !disc_tile_overlap(cx, cy, ri, t),
                forall|t: (int, int)|
                    t.0 == tx && t.1 < ty && blocks(m, t) ==> !disc_tile_overlap(cx, cy, ri, t),
            decreases ty1 + 1 - ty,
        {
            let tile = tilemap.get((tx as i32, ty as i32));
            if tile.collision && disc_tile_overlap_exec(position.x, position.y, r, tx, ty) {
                proof {
                    let t = (tx as int, ty as int);
                    assert(blocks(m, t) && disc_tile_overlap(cx, cy, ri, t));
                }
                return true;
            }
            ty = ty + 1;
        }
        proof {
            assert forall|t: (int, int)| t.0 == tx && blocks(m, t) implies !disc_tile_overlap(
                cx,
                cy,
                ri,
                t,
            ) by {
                if disc_tile_overlap(cx, cy, ri, t) {
                    lemma_overlap_within_bbox(cx, cy, ri, t);
                }
            }
        }
        tx = tx + 1;
    }
    proof {
        assert forall|t: (int, int)| blocks(m, t) implies !disc_tile_overlap(cx, cy, ri, t) by {
            if disc_tile_overlap(cx, cy, ri, t) {
                lemma_overlap_within_bbox(cx, cy, ri, t);
            }
        }
    }
    false
}

// ------------------------------------------------------------------
// Velocity integration and the speed cap
// ------------------------------------------------------------------

/// Largest magnitude accepted for a position coordinate entering a tick.
pub const POS_LIMIT: i64 = 0x100_0000_0000;

/// Largest magnitude accepted for a velocity or acceleration component
/// and for a speed cap.
pub const VEL_LIMIT: i64 = 0x10_0000;

/// Whether `s` is the integer square root of `n`, rounded down.
pub open spec fn is_sqrt_floor(n: int, s: int) -> bool {
    0 <= s && sq(s) <= n < sq(s + 1)
}

/// The integer square root, rounded down.
pub open spec fn sqrt_floor(n: int) -> int {
    choose|s: int| is_sqrt_floor(n, s)
}

proof fn lemma_sqrt_floor_exists(n: int)
    requires
        0 <= n,
    ensures
        0 <= sqrt_floor(n),
        sq(sqrt_floor(n)) <= n < sq(sqrt_floor(n) + 1),
    decreases n,
{
    if n == 0 {
        assert(is_sqrt_floor(0, 0));
    } else {
        lemma_sqrt_floor_exists(n - 1);
        let s = sqrt_floor(n - 1);
        if n < sq(s + 1) {
            assert(is_sqrt_floor(n, s));
        } else {
            assert(n == sq(s + 1));
            assert(sq(s + 1) < sq(s + 2)) by (nonlinear_arith)
                requires
                    s >= 0,
            ;
            assert(is_sqrt_floor(n, s + 1));
        }
    }
}

proof fn lemma_sqrt_unique(n: int, a: int, b: int)
    requires
        0 <= a,
        0 <= b,
        sq(a) <= n < sq(a + 1),
        sq(b) <= n < sq(b + 1),
    ensures
        a == b,
{
    if a < b {
        assert(sq(a + 1) <= sq(b)) by (nonlinear_arith)
            requires
                0 <= a < b,
        ;
    }
    if b < a {
        assert(sq(b + 1) <= sq(a)) by (nonlinear_arith)
            requires
                0 <= b < a,
        ;
    }
}

/// The integer square root, rounded up.
pub open spec fn sqrt_ceil(n: int) -> int {
    if sq(sqrt_floor(n)) == n {
        sqrt_floor(n)
    } else {
        sqrt_floor(n) + 1
    }
}

/// `c * m / l`, rounded toward zero.
pub open spec fn scale_toward_zero(c: int, m: int, l: int) -> int {
    if c >= 0 {
        (c * m) / l
    } else {
        -(((-c) * m) / l)
    }
}

pub open spec fn len2(x: int, y: int) -> int {
    sq(x) + sq(y)
}

/// The integrated velocity after the speed cap: where the squared length
/// exceeds the squared cap, both components are scaled down by the
/// rounded-up length, which keeps the squared length at or under the
/// squared cap while preserving each component's sign and direction of
/// rounding toward zero.
pub open spec fn cap_spec(x: int, y: int, m: int) -> (int, int) {
    if len2(x, y) > sq(m) {
        let l = sqrt_ceil(len2(x, y));
        (scale_toward_zero(x, m, l), scale_toward_zero(y, m, l))
    } else {
        (x, y)
    }
}

fn isqrt128(n: u128) -> (r: u128)
    requires
        n < 0x4000_0000_0000_0000_0000_0000,
    ensures
        sq(r as int) <= n as int,
        (n as int) < sq(r as int + 1),
{
    let mut lo: u128 = 0;
    let mut hi: u128 = 0x8000_0000_0000;
    proof {
        assert(sq(0x8000_0000_0000int) == 0x4000_0000_0000_0000_0000_0000int) by (nonlinear_arith);
    }
    while lo + 1 < hi
        invariant
            sq(lo as int) <= n as int,
            (n as int) < sq(hi as int),
            lo < hi,
            hi <= 0x8000_0000_0000,
        decreases hi - lo,
    {
        let mid = lo + (hi - lo) / 2;
        proof {
            assert(mid as int * mid as int <= 0x4000_0000_0000_0000_0000_0000int)
                by (nonlinear_arith)
                requires
                    0 <= mid as int <= 0x8000_0000_0000,
            ;
        }
        let m2 = mid * mid;
        if m2 <= n {
            lo = mid;
        } else {
            hi = mid;
        }
    }
    lo
}

fn scale_exec(c: i64, m: i64, l: i128) -> (r: i64)
    requires
        1 <= l,
        0 <= m <= l,
        -0x7fff_ffff_ffff_ffff <= c,
    ensures
        r == scale_toward_zero(c as int, m as int, l as int),
        c >= 0 ==> 0 <= r <= c,
        c < 0 ==> c <= r <= 0,
{
    let a: u128 = if c >= 0 {
        c as u128
    } else {
        (-c) as u128
    };
    proof {
        assert((a as int * m as int) < 0x1_0000_0000_0000_0000_0000_0000_0000_0000int)
            by (nonlinear_arith)
            requires
                0 <= a as int <= 0x8000_0000_0000_0000,
                0 <= m as int <= 0x8000_0000_0000_0000,
        ;
        assert(a as int * m as int <= a as int * l as int) by (nonlinear_arith)
            requires
                0 <= m <= l && 0 <= a as int,
        ;
        vstd::arithmetic::div_mod::lemma_div_is_ordered(
            a as int * m as int,
            a as int * l as int,
            l as int,
        );
        vstd::arithmetic::mul::lemma_mul_is_commutative(a as int, l as int);
        vstd::arithmetic::div_mod::lemma_div_multiples_vanish(a as int, l as int);
        vstd::arithmetic::div_mod::lemma_div_pos_is_pos(a as int * m as int, l as int);
        assert(a as int * m as int >= 0) by (nonlinear_arith)
            requires
                0 <= m && 0 <= a as int,
        ;
    }
    let q = (a * (m as u128)) / (l as u128);
    if c >= 0 {
        q as i64
    } else {
        -(q as i64)
    }
}

/// Caps a velocity at `max_speed`, exactly as `cap_spec` states.
fn cap_velocity(v: Vector, max_speed: i64) -> (w: Vector)
    requires
        -2 * VEL_LIMIT <= v.x <= 2 * VEL_LIMIT,
        -2 * VEL_LIMIT <= v.y <= 2 * VEL_LIMIT,
        0 <= max_speed <= VEL_LIMIT,
    ensures
        (w.x as int, w.y as int) == cap_spec(v.x as int, v.y as int, max_speed as int),
        -2 * VEL_LIMIT <= w.x <= 2 * VEL_LIMIT,
        -2 * VEL_LIMIT <= w.y <= 2 * VEL_LIMIT,
{
    proof {
        assert(0 <= sq(v.x as int) <= 0x400_0000_0000 && 0 <= sq(v.y as int) <= 0x400_0000_0000)
            by (nonlinear_arith)
            requires
                -0x20_0000 <= v.x as int <= 0x20_0000,
                -0x20_0000 <= v.y as int <= 0x20_0000,
        ;
    }
    let n: i128 = sq_exec(v.x) + sq_exec(v.y);
    let m2: i128 = sq_exec(max_speed);
    if n > m2 {
        proof {
            lemma_sqrt_floor_exists(n as int);
        }
        let s = isqrt128(n as u128);
        proof {
            assert(s as int <= 0x8000_0000_0000) by (nonlinear_arith)
                requires
                    0 <= s as int,
                    sq(s as int) <= n as int,
                    n as int <= 0x800_0000_0000,
            ;
            lemma_sqrt_unique(n as int, s as int, sqrt_floor(n as int));
        }
        let l: i128 = if s * s == (n as u128) {
            s as i128
        } else {
            s as i128 + 1
        };
        proof {
            assert(l as int == sqrt_ceil(n as int));
            if s == 0 {
                assert((n as int) < sq(0int + 1));
                assert(false);
            }
            assert(1 <= l as int);
            assert(n as int <= sq(l as int));
            assert(sq(max_speed as int) < sq(l as int));
            assert(max_speed as int <= l as int) by (nonlinear_arith)
                requires
                    sq(max_speed as int) < sq(l as int),
                    0 <= max_speed as int,
                    1 <= l as int,
            ;
        }
        let wx = scale_exec(v.x, max_speed, l);
        let wy = scale_exec(v.y, max_speed, l);
        Vector { x: wx, y: wy }
    } else {
        v
    }
}

// ------------------------------------------------------------------
// The axis-separated sweep
// ------------------------------------------------------------------

/// One axis of the sweep: starting from the floored world-unit cell
/// `(x, y)`, take up to `n` unit steps of `(dx, dy)`, testing the disc of
/// radius `r` at each candidate cell, and stop at the first blocked one.
/// Yields the last free cell and whether a step was blocked.
pub open spec fn sweep_spec(
    m: Map<(int, int), Tile>,
    x: int,
    y: int,
    dx: int,
    dy: int,
    r: int,
    n: nat,
) -> (int, int, bool)
    decreases n,
{
    if n == 0 {
        (x, y, false)
    } else if disc_blocked(m, (x + dx) * (SUBUNITS as int), (y + dy) * (SUBUNITS as int), r) {
        (x, y, true)
    } else {
        sweep_spec(m, x + dx, y + dy, dx, dy, r, (n - 1) as nat)
    }
}

/// A sweep that starts on a free cell ends on a free cell: every step it
/// commits was tested first.
proof fn lemma_sweep_safe(
    m: Map<(int, int), Tile>,
    x: int,
    y: int,
    dx: int,
    dy: int,
    r: int,
    n: nat,
)
    requires
        !disc_blocked(m, x * (SUBUNITS as int), y * (SUBUNITS as int), r),
    ensures
        !disc_blocked(
            m,
            sweep_spec(m, x, y, dx, dy, r, n).0 * (SUBUNITS as int),
            sweep_spec(m, x, y, dx, dy, r, n).1 * (SUBUNITS as int),
            r,
        ),
    decreases n,
{
    if n > 0 && !disc_blocked(m, (x + dx) * (SUBUNITS as int), (y + dy) * (SUBUNITS as int), r) {
        lemma_sweep_safe(m, x + dx, y + dy, dx, dy, r, (n - 1) as nat);
    }
}

/// A sweep that never hits advances the full `n` steps.
proof fn lemma_sweep_full(
    m: Map<(int, int), Tile>,
    x: int,
    y: int,
    dx: int,
    dy: int,
    r: int,
    n: nat,
)
    ensures
        !sweep_spec(m, x, y, dx, dy, r, n).2 ==> sweep_spec(m, x, y, dx, dy, r, n) == (
            x + n * dx,
            y + n * dy,
            false,
        ),
    decreases n,
{
    if n == 0 {
        assert(n * dx == 0) by (nonlinear_arith)
            requires
                n == 0,
        ;
        assert(n * dy == 0) by (nonlinear_arith)
            requires
                n == 0,
        ;
    } else if !disc_blocked(m, (x + dx) * (SUBUNITS as int), (y + dy) * (SUBUNITS as int), r) {
        lemma_sweep_full(m, x + dx, y + dy, dx, dy, r, (n - 1) as nat);
        assert(x + dx + (n - 1) * dx == x + n * dx) by (nonlinear_arith)
            requires
                n >= 1,
        ;
        assert(y + dy + (n - 1) * dy == y + n * dy) by (nonlinear_arith)
            requires
                n >= 1,
        ;
    }
}

/// Every cell a sweep can reach lies within `n` steps of its start.
proof fn lemma_sweep_bounds(
    m: Map<(int, int), Tile>,
    x: int,
    y: int,
    dx: int,
    dy: int,
    r: int,
    n: nat,
)
    requires
        -1 <= dx <= 1,
        -1 <= dy <= 1,
    ensures
        x - n <= sweep_spec(m, x, y, dx, dy, r, n).0 <= x + n,
        y - n <= sweep_spec(m, x, y, dx, dy, r, n).1 <= y + n,
    decreases n,
{
    if n > 0 && !disc_blocked(m, (x + dx) * (SUBUNITS as int), (y + dy) * (SUBUNITS as int), r) {
        lemma_sweep_bounds(m, x + dx, y + dy, dx, dy, r, (n - 1) as nat);
    }
}

/// The speed cap never enlarges a velocity component or flips its sign.
proof fn lemma_cap_bounds(x: int, y: int, ms: int)
    requires
        0 <= ms,
    ensures
        ({
            let c = cap_spec(x, y, ms);
            &&& abs_spec(c.0) <= abs_spec(x)
            &&& abs_spec(c.1) <= abs_spec(y)
        }),
{
    let n = len2(x, y);
    if n > sq(ms) {
        assert(sq(x) >= 0 && sq(y) >= 0) by (nonlinear_arith);
        lemma_sqrt_floor_exists(n);
        let s = sqrt_floor(n);
        if s == 0 {
            assert(n < sq(0int + 1));
            assert(false);
        }
        let l = sqrt_ceil(n);
        assert(1 <= l);
        assert(n <= sq(l));
        assert(ms <= l) by (nonlinear_arith)
            requires
                sq(ms) < sq(l),
                0 <= ms,
                1 <= l,
        ;
        lemma_scale_bound(x, ms, l);
        lemma_scale_bound(y, ms, l);
    }
}

/// `c * m / l` rounded toward zero is no larger in magnitude than `c`
/// when `0 <= m <= l`.
proof fn lemma_scale_bound(c: int, m: int, l: int)
    requires
        1 <= l,
        0 <= m <= l,
    ensures
        abs_spec(scale_toward_zero(c, m, l)) <= abs_spec(c),
        c >= 0 ==> 0 <= scale_toward_zero(c, m, l),
        c < 0 ==> scale_toward_zero(c, m, l) <= 0,
{
    let a = abs_spec(c);
    assert(a * m <= a * l) by (nonlinear_arith)
        requires
            0 <= m <= l && 0 <= a,
    ;
    vstd::arithmetic::div_mod::lemma_div_is_ordered(a * m, a * l, l);
    vstd::arithmetic::mul::lemma_mul_is_commutative(a, l);
    vstd::arithmetic::div_mod::lemma_div_multiples_vanish(a, l);
    assert(a * m >= 0) by (nonlinear_arith)
        requires
            0 <= m && 0 <= a,
    ;
    vstd::arithmetic::div_mod::lemma_div_pos_is_pos(a * m, l);
}

/// Walks one axis as `sweep_spec` describes.
fn sweep_axis(tilemap: &TileMap, x0: i64, y0: i64, dx: i64, dy: i64, r: i64, n: u64) -> (res: (
    i64,
    i64,
    bool,
))
    requires
        -0x7_0000_0000 <= x0 - n,
        x0 + n <= 0x7_0000_0000,
        -0x7_0000_0000 <= y0 - n,
        y0 + n <= 0x7_0000_0000,
        -1 <= dx <= 1,
        -1 <= dy <= 1,
        0 <= r <= RADIUS_LIMIT,
    ensures
        (res.0 as int, res.1 as int, res.2) == sweep_spec(
            tilemap@,
            x0 as int,
            y0 as int,
            dx as int,
            dy as int,
            r as int,
            n as nat,
        ),
        x0 - n <= res.0 <= x0 + n,
        y0 - n <= res.1 <= y0 + n,
{
    let ghost m = tilemap@;
    let mut x = x0;
    let mut y = y0;
    let mut i: u64 = 0;
    while i < n
        invariant
            i <= n,
            -1 <= dx <= 1,
            -1 <= dy <= 1,
            0 <= r <= RADIUS_LIMIT,
            m == tilemap@,
            x0 - i <= x <= x0 + i,
            y0 - i <= y <= y0 + i,
            -0x7_0000_0000 <= x0 - n,
            x0 + n <= 0x7_0000_0000,
            -0x7_0000_0000 <= y0 - n,
            y0 + n <= 0x7_0000_0000,
            sweep_spec(m, x0 as int, y0 as int, dx as int, dy as int, r as int, n as nat)
                == sweep_spec(m, x as int, y as int, dx as int, dy as int, r as int, (n - i) as nat),
        decreases n - i,
    {
        let cand_x = x + dx;
        let cand_y = y + dy;
        let blocked = check_collision(
            Vector { x: cand_x * SUBUNITS, y: cand_y * SUBUNITS },
            &HitBox { radius: r },
            tilemap,
        );
        if blocked {
            return (x, y, true);
        }
        x = cand_x;
        y = cand_y;
        i = i + 1;
    }
    (x, y, false)
}

// ------------------------------------------------------------------
// The per-tick motion resolver
// ------------------------------------------------------------------

/// A moving entity as the resolver sees it: position, dynamics, an
/// optional disc hitbox, and the wall-contact marker kept for point
/// entities.
#[derive(Copy, Clone, Debug)]
pub struct MovingEntity {
    pub transform: Transform,
    pub physics: PhysicsComponent,
    pub hitbox: Option<HitBox>,
    pub colliding_with_wall: Option<CollidingWithWall>,
}

pub open spec fn abs_spec(v: int) -> int {
    if v >= 0 {
        v
    } else {
        -v
    }
}

pub open spec fn sign_spec(a: int) -> int {
    if a > 0 {
        1
    } else if a < 0 {
        -1
    } else {
        0
    }
}

fn sign(a: i64) -> (s: i64)
    requires
        i64::MIN < a,
    ensures
        s == sign_spec(a as int),
{
    if a > 0 {
        1
    } else if a < 0 {
        -1
    } else {
        0
    }
}

/// Whether the point `(px, py)` (subunits) lies in a blocking tile.
pub open spec fn point_blocked(m: Map<(int, int), Tile>, px: int, py: int) -> bool {
    blocks(m, (tile_index(px), tile_index(py)))
}

/// Whether a disc of radius `r` at the entity's floored world-unit
/// position is free of blocking tiles.
pub open spec fn floors_clear(m: Map<(int, int), Tile>, px: int, py: int, r: int) -> bool {
    !disc_blocked(
        m,
        world_floor(px) * (SUBUNITS as int),
        world_floor(py) * (SUBUNITS as int),
        r,
    )
}

/// The well-formedness bounds the resolver asks of an entity: machine
/// limits only, far beyond any coordinate a level reaches.
pub open spec fn wf_entity(e: MovingEntity) -> bool {
    &&& -POS_LIMIT <= e.transform.position.x <= POS_LIMIT
    &&& -POS_LIMIT <= e.transform.position.y <= POS_LIMIT
    &&& -VEL_LIMIT <= e.physics.velocity.x <= VEL_LIMIT
    &&& -VEL_LIMIT <= e.physics.velocity.y <= VEL_LIMIT
    &&& -VEL_LIMIT <= e.physics.acceleration.x <= VEL_LIMIT
    &&& -VEL_LIMIT <= e.physics.acceleration.y <= VEL_LIMIT
    &&& 0 <= e.physics.max_speed <= VEL_LIMIT
    &&& match e.hitbox {
        Some(h) => 0 <= h.radius <= RADIUS_LIMIT,
        None => true,
    }
}

/// The resolver's entry invariant: a hitbox-bearing entity must not
/// already overlap a blocking tile at its floored position.
pub open spec fn entity_start_clear(e: MovingEntity, m: Map<(int, int), Tile>) -> bool {
    match e.hitbox {
        Some(h) => floors_clear(
            m,
            e.transform.position.x as int,
            e.transform.position.y as int,
            h.radius as int,
        ),
        None => true,
    }
}

/// The outcome of one tick for a hitbox-bearing entity, after its
/// velocity has been integrated and capped to `(vx, vy)`: the X axis is
/// swept first in unit world steps, then the Y axis at the updated X.
/// On the axis where a step was blocked the entity keeps the last free
/// coordinate and that velocity component is zeroed; on a free axis it
/// takes the exact fractional target.
pub open spec fn resolve_hitbox_entity(
    e: MovingEntity,
    m: Map<(int, int), Tile>,
    vx: int,
    vy: int,
    r: int,
) -> MovingEntity {
    let px = e.transform.position.x as int;
    let py = e.transform.position.y as int;
    let su = SUBUNITS as int;
    let txp = px + vx;
    let typ = py + vy;
    let oxw = world_floor(px);
    let oyw = world_floor(py);
    let nxw = world_floor(txp);
    let swx = sweep_spec(m, oxw, oyw, sign_spec(nxw - oxw), 0, r, abs_spec(nxw - oxw) as nat);
    let x1 = if !swx.2 {
        txp
    } else if swx.0 == oxw {
        px
    } else {
        swx.0 * su
    };
    let vx1 = if swx.2 {
        0
    } else {
        vx
    };
    let x1w = world_floor(x1);
    let nyw = world_floor(typ);
    let swy = sweep_spec(m, x1w, oyw, 0, sign_spec(nyw - oyw), r, abs_spec(nyw - oyw) as nat);
    let y1 = if !swy.2 {
        typ
    } else if swy.1 == oyw {
        py
    } else {
        swy.1 * su
    };
    let vy1 = if swy.2 {
        0
    } else {
        vy
    };
    MovingEntity {
        transform: Transform { position: Vector { x: x1 as i64, y: y1 as i64 } },
        physics: PhysicsComponent {
            velocity: Vector { x: vx1 as i64, y: vy1 as i64 },
            acceleration: e.physics.acceleration,
            max_speed: e.physics.max_speed,
        },
        hitbox: e.hitbox,
        colliding_with_wall: e.colliding_with_wall,
    }
}

/// The outcome of one tick for a point entity: it advances by its full
/// velocity unconditionally, and the wall-contact marker records whether
/// the new point lies in a blocking tile.
pub open spec fn resolve_point_entity(
    e: MovingEntity,
    m: Map<(int, int), Tile>,
    vx: int,
    vy: int,
) -> MovingEntity {
    let px = e.transform.position.x as int;
    let py = e.transform.position.y as int;
    MovingEntity {
        transform: Transform {
            position: Vector { x: (px + vx) as i64, y: (py + vy) as i64 },
        },
        physics: PhysicsComponent {
            velocity: Vector { x: vx as i64, y: vy as i64 },
            acceleration: e.physics.acceleration,
            max_speed: e.physics.max_speed,
        },
        hitbox: e.hitbox,
        colliding_with_wall: if point_blocked(m, px + vx, py + vy) {
            Some(CollidingWithWall)
        } else {
            None
        },
    }
}

/// One full tick for one entity: integrate acceleration into velocity,
/// cap the speed, then move.
pub open spec fn resolve_entity_spec(e: MovingEntity, m: Map<(int, int), Tile>) -> MovingEntity {
    let capped = cap_spec(
        e.physics.velocity.x + e.physics.acceleration.x,
        e.physics.velocity.y + e.physics.acceleration.y,
        e.physics.max_speed as int,
    );
    match e.hitbox {
        Some(h) => resolve_hitbox_entity(e, m, capped.0, capped.1, h.radius as int),
        None => resolve_point_entity(e, m, capped.0, capped.1),
    }
}

/// A sweep along one axis leaves the other coordinate unchanged.
proof fn lemma_sweep_fixed(
    m: Map<(int, int), Tile>,
    x: int,
    y: int,
    dx: int,
    dy: int,
    r: int,
    n: nat,
)
    ensures
        dx == 0 ==> sweep_spec(m, x, y, dx, dy, r, n).0 == x,
        dy == 0 ==> sweep_spec(m, x, y, dx, dy, r, n).1 == y,
    decreases n,
{
    if n > 0 && !disc_blocked(m, (x + dx) * (SUBUNITS as int), (y + dy) * (SUBUNITS as int), r) {
        lemma_sweep_fixed(m, x + dx, y + dy, dx, dy, r, (n - 1) as nat);
    }
}

/// A full advance along one axis ends at the target cell.
proof fn lemma_sweep_target(m: Map<(int, int), Tile>, x: int, y: int, to_x: int, r: int)
    ensures
        ({
            let sw = sweep_spec(m, x, y, sign_spec(to_x - x), 0, r, abs_spec(to_x - x) as nat);
            !sw.2 ==> sw.0 == to_x
        }),
{
    let d = sign_spec(to_x - x);
    let n = abs_spec(to_x - x) as nat;
    lemma_sweep_full(m, x, y, d, 0, r, n);
    assert(x + n * d == to_x) by (nonlinear_arith)
        requires
            d == sign_spec(to_x - x),
            n == abs_spec(to_x - x),
    ;
}

/// Same as `lemma_sweep_target`, for the Y axis.
proof fn lemma_sweep_target_y(m: Map<(int, int), Tile>, x: int, y: int, to_y: int, r: int)
    ensures
        ({
            let sw = sweep_spec(m, x, y, 0, sign_spec(to_y - y), r, abs_spec(to_y - y) as nat);
            !sw.2 ==> sw.1 == to_y
        }),
{
    let d = sign_spec(to_y - y);
    let n = abs_spec(to_y - y) as nat;
    lemma_sweep_full(m, x, y, 0, d, r, n);
    assert(y + n * d == to_y) by (nonlinear_arith)
        requires
            d == sign_spec(to_y - y),
            n == abs_spec(to_y - y),
    ;
}

/// The floored world coordinate of a whole world-unit coordinate is that
/// coordinate.
proof fn lemma_world_floor_exact(w: int)
    ensures
        world_floor(w * (SUBUNITS as int)) == w,
{
    vstd::arithmetic::mul::lemma_mul_is_commutative(w, SUBUNITS as int);
    vstd::arithmetic::div_mod::lemma_div_multiples_vanish(w, SUBUNITS as int);
}

/// No tunneling: an entity that starts a tick clear of blocking tiles
/// ends it clear of them, whatever its velocity, because every committed
/// world-unit step of the sweep was tested first and the fractional
/// endpoint shares the floor of the last tested step.
pub proof fn lemma_no_tunneling(e: MovingEntity, m: Map<(int, int), Tile>)
    requires
        wf_entity(e),
        entity_start_clear(e, m),
    ensures
        entity_start_clear(resolve_entity_spec(e, m), m),
{
    match e.hitbox {
        None => {},
        Some(h) => {
            let r = h.radius as int;
            let capped = cap_spec(
                e.physics.velocity.x + e.physics.acceleration.x,
                e.physics.velocity.y + e.physics.acceleration.y,
                e.physics.max_speed as int,
            );
            let vx = capped.0;
            let vy = capped.1;
            let px = e.transform.position.x as int;
            let py = e.transform.position.y as int;
            let su = SUBUNITS as int;
            let txp = px + vx;
            let typ = py + vy;
            let oxw = world_floor(px);
            let oyw = world_floor(py);
            let nxw = world_floor(txp);
            lemma_cap_bounds(
                e.physics.velocity.x + e.physics.acceleration.x,
                e.physics.velocity.y + e.physics.acceleration.y,
                e.physics.max_speed as int,
            );
            lemma_div_bounds(px, su);
            lemma_div_bounds(py, su);
            lemma_div_bounds(txp, su);
            lemma_div_bounds(typ, su);
            let sdx = sign_spec(nxw - oxw);
            let nx = abs_spec(nxw - oxw) as nat;
            let swx = sweep_spec(m, oxw, oyw, sdx, 0, r, nx);
            lemma_sweep_safe(m, oxw, oyw, sdx, 0, r, nx);
            lemma_sweep_fixed(m, oxw, oyw, sdx, 0, r, nx);
            lemma_sweep_target(m, oxw, oyw, nxw, r);
            lemma_sweep_bounds(m, oxw, oyw, sdx, 0, r, nx);
            let x1 = if !swx.2 {
                txp
            } else if swx.0 == oxw {
                px
            } else {
                swx.0 * su
            };
            let x1w = world_floor(x1);
            assert(x1w == swx.0) by {
                if !swx.2 {
                } else if swx.0 == oxw {
                } else {
                    lemma_world_floor_exact(swx.0);
                }
            }
            assert(!disc_blocked(m, x1w * su, oyw * su, r));
            let nyw = world_floor(typ);
            let sdy = sign_spec(nyw - oyw);
            let ny = abs_spec(nyw - oyw) as nat;
            let swy = sweep_spec(m, x1w, oyw, 0, sdy, r, ny);
            lemma_sweep_safe(m, x1w, oyw, 0, sdy, r, ny);
            lemma_sweep_fixed(m, x1w, oyw, 0, sdy, r, ny);
            lemma_sweep_target_y(m, x1w, oyw, nyw, r);
            lemma_sweep_bounds(m, x1w, oyw, 0, sdy, r, ny);
            lemma_div_bounds(x1, su);
            let y1 = if !swy.2 {
                typ
            } else if swy.1 == oyw {
                py
            } else {
                swy.1 * su
            };
            let y1w = world_floor(y1);
            assert(y1w == swy.1) by {
                if !swy.2 {
                } else if swy.1 == oyw {
                } else {
                    lemma_world_floor_exact(swy.1);
                }
            }
            assert(!disc_blocked(m, x1w * su, y1w * su, r));
            let resolved = resolve_entity_spec(e, m);
            assert(resolved.transform.position.x as int == x1);
            assert(resolved.transform.position.y as int == y1);
        },
    }
}

/// Axis independence: an entity whose very first X step is blocked but
/// whose whole Y run is free stops on X, keeps its X position, and still
/// advances the full Y distance in the same tick, with its Y velocity
/// intact.
pub proof fn lemma_corner_slide(e: MovingEntity, m: Map<(int, int), Tile>)
    requires
        wf_entity(e),
        e.hitbox is Some,
        entity_start_clear(e, m),
        ({
            let capped = cap_spec(
                e.physics.velocity.x + e.physics.acceleration.x,
                e.physics.velocity.y + e.physics.acceleration.y,
                e.physics.max_speed as int,
            );
            let r = e.hitbox->Some_0.radius as int;
            let px = e.transform.position.x as int;
            let py = e.transform.position.y as int;
            let oxw = world_floor(px);
            let oyw = world_floor(py);
            let nxw = world_floor(px + capped.0);
            let nyw = world_floor(py + capped.1);
            let su = SUBUNITS as int;
            &&& nxw != oxw
            &&& disc_blocked(m, (oxw + sign_spec(nxw - oxw)) * su, oyw * su, r)
            &&& !sweep_spec(m, oxw, oyw, 0, sign_spec(nyw - oyw), r, abs_spec(nyw - oyw) as nat).2
        }),
    ensures
        ({
            let capped = cap_spec(
                e.physics.velocity.x + e.physics.acceleration.x,
                e.physics.velocity.y + e.physics.acceleration.y,
                e.physics.max_speed as int,
            );
            let resolved = resolve_entity_spec(e, m);
            &&& resolved.physics.velocity.x == 0
            &&& resolved.physics.velocity.y as int == capped.1
            &&& resolved.transform.position.x == e.transform.position.x
            &&& resolved.transform.position.y as int == e.transform.position.y + capped.1
        }),
{
    let capped = cap_spec(
        e.physics.velocity.x + e.physics.acceleration.x,
        e.physics.velocity.y + e.physics.acceleration.y,
        e.physics.max_speed as int,
    );
    let r = e.hitbox->Some_0.radius as int;
    let px = e.transform.position.x as int;
    let py = e.transform.position.y as int;
    let oxw = world_floor(px);
    let oyw = world_floor(py);
    let nxw = world_floor(px + capped.0);
    let sdx = sign_spec(nxw - oxw);
    let nx = abs_spec(nxw - oxw) as nat;
    lemma_cap_bounds(
        e.physics.velocity.x + e.physics.acceleration.x,
        e.physics.velocity.y + e.physics.acceleration.y,
        e.physics.max_speed as int,
    );
    assert(nx >= 1);
    assert(sweep_spec(m, oxw, oyw, sdx, 0, r, nx) == (oxw, oyw, true));
}

/// Whether the point `position` lies in a blocking tile of the map.
fn check_point_collision(position: Vector, tilemap: &TileMap) -> (b: bool)
    requires
        -CHECK_LIMIT <= position.x <= CHECK_LIMIT,
        -CHECK_LIMIT <= position.y <= CHECK_LIMIT,
    ensures
        b == point_blocked(tilemap@, position.x as int, position.y as int),
{
    let tx = crate::geom::floor_div(position.x, TILE_SUBUNITS);
    let ty = crate::geom::floor_div(position.y, TILE_SUBUNITS);
    proof {
        lemma_div_bounds(position.x as int, TILE_SUBUNITS as int);
        lemma_div_bounds(position.y as int, TILE_SUBUNITS as int);
    }
    tilemap.get((tx as i32, ty as i32)).collision
}

/// Resolves one entity for one tick, exactly as `resolve_entity_spec`
/// describes.
#[verifier::rlimit(60)]
fn resolve_entity(e: &mut MovingEntity, tilemap: &TileMap)
    requires
        wf_entity(*old(e)),
        entity_start_clear(*old(e), tilemap@),
    ensures
        *final(e) == resolve_entity_spec(*old(e), tilemap@),
{
    let ghost m = tilemap@;
    let vx0 = e.physics.velocity.x + e.physics.acceleration.x;
    let vy0 = e.physics.velocity.y + e.physics.acceleration.y;
    let v = cap_velocity(Vector { x: vx0, y: vy0 }, e.physics.max_speed);
    e.physics.velocity = v;
    let hb = e.hitbox;
    match hb {
        Some(h) => {
            let px = e.transform.position.x;
            let py = e.transform.position.y;
            let tx = px + v.x;
            let ty = py + v.y;
            let oxw = crate::geom::floor_div(px, SUBUNITS);
            let oyw = crate::geom::floor_div(py, SUBUNITS);
            let nxw = crate::geom::floor_div(tx, SUBUNITS);
            proof {
                lemma_div_bounds(px as int, SUBUNITS as int);
                lemma_div_bounds(py as int, SUBUNITS as int);
                lemma_div_bounds(tx as int, SUBUNITS as int);
                lemma_div_bounds(ty as int, SUBUNITS as int);
            }
            let dx = sign(nxw - oxw);
            let stepsx: u64 = if nxw >= oxw {
                (nxw - oxw) as u64
            } else {
                (oxw - nxw) as u64
            };
            let sx = sweep_axis(tilemap, oxw, oyw, dx, 0, h.radius, stepsx);
            if sx.2 {
                e.physics.velocity = Vector { x: 0, y: v.y };
                if sx.0 != oxw {
                    e.transform.position = Vector { x: sx.0 * SUBUNITS, y: py };
                }
            } else {
                e.transform.position = Vector { x: tx, y: py };
            }
            let x1 = e.transform.position.x;
            let x1w = crate::geom::floor_div(x1, SUBUNITS);
            proof {
                lemma_div_bounds(x1 as int, SUBUNITS as int);
            }
            let nyw = crate::geom::floor_div(ty, SUBUNITS);
            let dy = sign(nyw - oyw);
            let stepsy: u64 = if nyw >= oyw {
                (nyw - oyw) as u64
            } else {
                (oyw - nyw) as u64
            };
            let sy = sweep_axis(tilemap, x1w, oyw, 0, dy, h.radius, stepsy);
            if sy.2 {
                e.physics.velocity = Vector { x: e.physics.velocity.x, y: 0 };
                if sy.1 != oyw {
                    e.transform.position = Vector { x: x1, y: sy.1 * SUBUNITS };
                }
            } else {
                e.transform.position = Vector { x: x1, y: ty };
            }
        },
        None => {
            let nx = e.transform.position.x + v.x;
            let ny = e.transform.position.y + v.y;
            e.transform.position = Vector { x: nx, y: ny };
            let c = check_point_collision(e.transform.position, tilemap);
            e.colliding_with_wall = if c {
                Some(CollidingWithWall)
            } else {
                None
            };
        },
    }
}

/// The motion resolver: one simulation tick over every moving entity.
pub struct PhysicsSystem;

impl PhysicsSystem {
    /// Integrates and caps every entity's velocity, then advances each
    /// entity against the tile map: a unit-stepped, axis-separated sweep
    /// for hitbox-bearing entities, an unconditional move plus a
    /// wall-contact marker for point entities. Afterwards no
    /// hitbox-bearing entity overlaps a blocking tile at its floored
    /// position.
    pub fn run(entities: &mut Vec<MovingEntity>, tile_map: &TileMap)
        requires
            forall|i: int|
                0 <= i < old(entities)@.len() ==> wf_entity(#[trigger] old(entities)@[i])
                    && entity_start_clear(old(entities)@[i], tile_map@),
        ensures
            final(entities)@.len() == old(entities)@.len(),
            forall|i: int|
                0 <= i < old(entities)@.len() ==> #[trigger] final(entities)@[i]
                    == resolve_entity_spec(old(entities)@[i], tile_map@),
            forall|i: int|
                0 <= i < old(entities)@.len() ==> entity_start_clear(
                    #[trigger] final(entities)@[i],
                    tile_map@,
                ),
    {
        let ghost m = tile_map@;
        let n = entities.len();
        let mut idx: usize = 0;
        while idx < n
            invariant
                n == entities@.len(),
                n == old(entities)@.len(),
                idx <= n,
                m == tile_map@,
                forall|i: int|
                    0 <= i < n ==> wf_entity(#[trigger] old(entities)@[i]) && entity_start_clear(
                        old(entities)@[i],
                        m,
                    ),
                forall|i: int| idx <= i < n ==> #[trigger] entities@[i] == old(entities)@[i],
                forall|i: int|
                    0 <= i < idx ==> #[trigger] entities@[i] == resolve_entity_spec(
                        old(entities)@[i],
                        m,
                    ),
            decreases n - idx,
        {
            let mut ent = entities[idx];
            resolve_entity(&mut ent, tile_map);
            entities.set(idx, ent);
            idx = idx + 1;
        }
        proof {
            assert forall|i: int| 0 <= i < old(entities)@.len() implies entity_start_clear(
                #[trigger] entities@[i],
                m,
            ) by {
                lemma_no_tunneling(old(entities)@[i], m);
            }
        }
    }
}

// ------------------------------------------------------------------
// Entity-versus-bullet overlap
// ------------------------------------------------------------------

/// Whether two discs overlap: their centre distance is strictly below
/// the sum of the radii.
pub open spec fn circles_overlap(p1: (int, int), r1: int, p2: (int, int), r2: int) -> bool {
    sq(p1.0 - p2.0) + sq(p1.1 - p2.1) < sq(r1 + r2)
}

/// Whether the two hitbox discs overlap.
pub fn hitbox_overlap(
    transform1: &Transform,
    hitbox1: &HitBox,
    transform2: &Transform,
    hitbox2: &HitBox,
) -> (b: bool)
    requires
        -CHECK_LIMIT <= transform1.position.x <= CHECK_LIMIT,
        -CHECK_LIMIT <= transform1.position.y <= CHECK_LIMIT,
        -CHECK_LIMIT <= transform2.position.x <= CHECK_LIMIT,
        -CHECK_LIMIT <= transform2.position.y <= CHECK_LIMIT,
        0 <= hitbox1.radius <= RADIUS_LIMIT,
        0 <= hitbox2.radius <= RADIUS_LIMIT,
    ensures
        b == circles_overlap(
            (transform1.position.x as int, transform1.position.y as int),
            hitbox1.radius as int,
            (transform2.position.x as int, transform2.position.y as int),
            hitbox2.radius as int,
        ),
{
    let dx = transform1.position.x - transform2.position.x;
    let dy = transform1.position.y - transform2.position.y;
    proof {
        assert(sq(dx as int) <= 0x1000_0000_0000_0000_0000_0000int && sq(dy as int)
            <= 0x1000_0000_0000_0000_0000_0000int) by (nonlinear_arith)
            requires
                -0x4000_0000_0000 <= dx as int <= 0x4000_0000_0000,
                -0x4000_0000_0000 <= dy as int <= 0x4000_0000_0000,
        ;
    }
    let d2 = sq_exec(dx) + sq_exec(dy);
    d2 < sq_exec(hitbox1.radius + hitbox2.radius)
}

/// Detects overlaps between hitbox-bearing entities and bullets.
pub struct CollisionDetection;

pub open spec fn wf_collider(t: Transform, r: int) -> bool {
    &&& -CHECK_LIMIT <= t.position.x <= CHECK_LIMIT
    &&& -CHECK_LIMIT <= t.position.y <= CHECK_LIMIT
    &&& 0 <= r <= RADIUS_LIMIT
}

pub open spec fn target_bullet_overlap(
    targets: Seq<(Transform, HitBox)>,
    bullets: Seq<(Transform, Bullet)>,
    i: int,
    j: int,
) -> bool {
    circles_overlap(
        (targets[i].0.position.x as int, targets[i].0.position.y as int),
        targets[i].1.radius as int,
        (bullets[j].0.position.x as int, bullets[j].0.position.y as int),
        bullets[j].1.radius as int,
    )
}

impl CollisionDetection {
    /// Reports every (target, bullet) index pair whose discs overlap,
    /// in ascending lexicographic order without repetition.
    pub fn run(targets: &Vec<(Transform, HitBox)>, bullets: &Vec<(Transform, Bullet)>) -> (events:
        Vec<(usize, usize)>)
        requires
            forall|i: int|
                0 <= i < targets@.len() ==> wf_collider(
                    (#[trigger] targets@[i]).0,
                    targets@[i].1.radius as int,
                ),
            forall|j: int|
                0 <= j < bullets@.len() ==> wf_collider(
                    (#[trigger] bullets@[j]).0,
                    bullets@[j].1.radius as int,
                ),
        ensures
            forall|k: int|
                0 <= k < events@.len() ==> {
                    let (i, j) = #[trigger] events@[k];
                    0 <= i < targets@.len() && 0 <= j < bullets@.len() && target_bullet_overlap(
                        targets@,
                        bullets@,
                        i as int,
                        j as int,
                    )
                },
            forall|i: int, j: int|
                0 <= i < targets@.len() && 0 <= j < bullets@.len() && target_bullet_overlap(
                    targets@,
                    bullets@,
                    i,
                    j,
                ) ==> events@.contains((i as usize, j as usize)),
            forall|k1: int, k2: int|
                0 <= k1 < k2 < events@.len() ==> (events@[k1].0 < events@[k2].0 || (events@[k1].0
                    == events@[k2].0 && events@[k1].1 < events@[k2].1)),
    {
        let mut events: Vec<(usize, usize)> = Vec::new();
        let mut i: usize = 0;
        while i < targets.len()
            invariant
                i <= targets@.len(),
                forall|ii: int|
                    0 <= ii < targets@.len() ==> wf_collider(
                        (#[trigger] targets@[ii]).0,
                        targets@[ii].1.radius as int,
                    ),
                forall|jj: int|
                    0 <= jj < bullets@.len() ==> wf_collider(
                        (#[trigger] bullets@[jj]).0,
                        bullets@[jj].1.radius as int,
                    ),
                forall|k: int|
                    0 <= k < events@.len() ==> {
                        let (ti, tj) = #[trigger] events@[k];
                        0 <= ti < targets@.len() && 0 <= tj < bullets@.len()
                            && target_bullet_overlap(targets@, bullets@, ti as int, tj as int)
                    },
                forall|ii: int, jj: int|
                    0 <= ii < i && 0 <= jj < bullets@.len() && target_bullet_overlap(
                        targets@,
                        bullets@,
                        ii,
                        jj,
                    ) ==> events@.contains((ii as usize, jj as usize)),
                forall|k1: int, k2: int|
                    0 <= k1 < k2 < events@.len() ==> (events@[k1].0 < events@[k2].0 || (
                    events@[k1].0 == events@[k2].0 && events@[k1].1 < events@[k2].1)),
                forall|k: int| 0 <= k < events@.len() ==> (#[trigger] events@[k]).0 < i,
            decreases targets@.len() - i,
        {
            let mut j: usize = 0;
            while j < bullets.len()
                invariant
                    i < targets@.len(),
                    j <= bullets@.len(),
                    forall|ii: int|
                        0 <= ii < targets@.len() ==> wf_collider(
                            (#[trigger] targets@[ii]).0,
                            targets@[ii].1.radius as int,
                        ),
                    forall|jj: int|
                        0 <= jj < bullets@.len() ==> wf_collider(
                            (#[trigger] bullets@[jj]).0,
                            bullets@[jj].1.radius as int,
                        ),
                    forall|k: int|
                        0 <= k < events@.len() ==> {
                            let (ti, tj) = #[trigger] events@[k];
                            0 <= ti < targets@.len() && 0 <= tj < bullets@.len()
                                && target_bullet_overlap(targets@, bullets@, ti as int, tj as int)
                        },
                    forall|ii: int, jj: int|
                        0 <= ii < i && 0 <= jj < bullets@.len() && target_bullet_overlap(
                            targets@,
                            bullets@,
                            ii,
                            jj,
                        ) ==> events@.contains((ii as usize, jj as usize)),
                    forall|jj: int|
                        0 <= jj < j && target_bullet_overlap(targets@, bullets@, i as int, jj)
                            ==> events@.contains((i as usize, jj as usize)),
                    forall|k1: int, k2: int|
                        0 <= k1 < k2 < events@.len() ==> (events@[k1].0 < events@[k2].0 || (
                        events@[k1].0 == events@[k2].0 && events@[k1].1 < events@[k2].1)),
                    forall|k: int|
                        0 <= k < events@.len() ==> ((#[trigger] events@[k]).0 < i || (events@[k].0
                            == i && events@[k].1 < j)),
                decreases bullets@.len() - j,
            {
                let (tt, th) = (targets[i].0, targets[i].1);
                let (bt, bb) = (bullets[j].0, bullets[j].1);
                if hitbox_overlap(&tt, &th, &bt, &HitBox { radius: bb.radius }) {
                    let ghost before = events@;
                    events.push((i, j));
                    proof {
                        assert(events@[events@.len() - 1] == (i, j));
                        assert forall|x: (usize, usize)| before.contains(x) implies events@.contains(
                            x,
                        ) by {
                            let k = choose|k: int| 0 <= k < before.len() && before[k] == x;
                            assert(events@[k] == x);
                        }
                    }
                }
                j = j + 1;
            }
            i = i + 1;
        }
        events
    }
}

/// Both ends of the tile range scanned by `check_collision` fit an `i32`.
proof fn lemma_tile_range_fits(cx: int, cy: int, r: int)
    requires
        -CHECK_LIMIT <= cx <= CHECK_LIMIT,
        -CHECK_LIMIT <= cy <= CHECK_LIMIT,
        0 <= r <= RADIUS_LIMIT,
    ensures
        -0x8000_0000 < tile_index(cx - r),
        tile_index(cx + r) < 0x8000_0000,
        -0x8000_0000 < tile_index(cy - r),
        tile_index(cy + r) < 0x8000_0000,
{
    let ts = TILE_SUBUNITS as int;
    lemma_div_bounds(cx - r, ts);
    lemma_div_bounds(cx + r, ts);
    lemma_div_bounds(cy - r, ts);
    lemma_div_bounds(cy + r, ts);
}

} // verus!
