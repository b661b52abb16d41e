use dungeon_core::geom::floor_div;
use dungeon_core::geom::Vector;
use dungeon_core::geom::SUBUNITS;
use dungeon_core::physics::check_collision;
use dungeon_core::physics::hitbox_overlap;
use dungeon_core::physics::Bullet;
use dungeon_core::physics::CollisionDetection;
use dungeon_core::physics::Colour;
use dungeon_core::physics::HitBox;
use dungeon_core::physics::MovingEntity;
use dungeon_core::physics::PhysicsComponent;
use dungeon_core::physics::PhysicsSystem;
use dungeon_core::physics::Tile;
use dungeon_core::physics::TileMap;
use dungeon_core::physics::Transform;
use dungeon_core::physics::TILE_SUBUNITS;

fn wall() -> Tile {
    Tile {
        collision: true,
        colour: Colour { r: 128, g: 128, b: 128, a: 255 },
    }
}

fn entity(px: i64, py: i64, vx: i64, vy: i64, radius: Option<i64>, max_speed: i64) -> MovingEntity {
    MovingEntity {
        transform: Transform { position: Vector { x: px, y: py } },
        physics: PhysicsComponent {
            velocity: Vector { x: vx, y: vy },
            acceleration: Vector { x: 0, y: 0 },
            max_speed,
        },
        hitbox: radius.map(|r| HitBox { radius: r }),
        colliding_with_wall: None,
    }
}

fn floored(v: &Vector) -> Vector {
    Vector {
        x: floor_div(v.x, SUBUNITS) * SUBUNITS,
        y: floor_div(v.y, SUBUNITS) * SUBUNITS,
    }
}

#[test]
fn sweep_stops_before_wall() {
    // wall tile (2, 0) spans x in [16384, 24576); a disc of radius 1000
    // sweeping right must stop at x = 15360, the last free unit step
    let mut map = TileMap::new();
    map.insert((2, 0), wall());
    let mut entities = vec![entity(4096, 4096, 50000, 0, Some(1000), 60000)];
    PhysicsSystem::run(&mut entities, &map);
    let e = &entities[0];
    assert_eq!(e.transform.position.x, 15360);
    assert_eq!(e.transform.position.y, 4096);
    assert_eq!(e.physics.velocity.x, 0);
    assert_eq!(e.physics.velocity.y, 0);
    let f = floored(&e.transform.position);
    assert!(!check_collision(f, &HitBox { radius: 1000 }, &map));
}

#[test]
fn no_tunneling_at_any_speed() {
    // even a velocity that would jump the wall in one step is swept in
    // unit steps and cannot land inside or beyond the one-tile wall
    let mut map = TileMap::new();
    map.insert((2, 0), wall());
    for v in [9000i64, 30000, 120000, 500000] {
        let mut entities = vec![entity(4096, 4096, v, 0, Some(1000), 1000000)];
        PhysicsSystem::run(&mut entities, &map);
        let e = &entities[0];
        assert!(e.transform.position.x <= 15360, "tunneled at speed {v}");
        let f = floored(&e.transform.position);
        assert!(!check_collision(f, &HitBox { radius: 1000 }, &map));
    }
}

#[test]
fn corner_slide_keeps_the_free_axis() {
    // blocked straight ahead on X, open along Y: the X velocity dies,
    // the Y motion completes in the same tick
    let mut map = TileMap::new();
    map.insert((2, 0), wall());
    let mut entities = vec![entity(15360, 4096, 8192, 8192, Some(1000), 60000)];
    PhysicsSystem::run(&mut entities, &map);
    let e = &entities[0];
    assert_eq!(e.transform.position.x, 15360);
    assert_eq!(e.transform.position.y, 4096 + 8192);
    assert_eq!(e.physics.velocity.x, 0);
    assert_eq!(e.physics.velocity.y, 8192);
}

#[test]
fn point_entity_marks_wall_contact() {
    let mut map = TileMap::new();
    map.insert((2, 0), wall());
    // a point mover passes into the wall unconditionally and is marked
    let mut entities = vec![entity(4096, 4096, 20000, 0, None, 60000)];
    PhysicsSystem::run(&mut entities, &map);
    let e = &entities[0];
    assert_eq!(e.transform.position.x, 24096);
    assert!(e.colliding_with_wall.is_some());
    // moving in the open clears the marker
    let mut entities2 = vec![entity(4096, 4096, 1000, 0, None, 60000)];
    PhysicsSystem::run(&mut entities2, &map);
    assert!(entities2[0].colliding_with_wall.is_none());
}

#[test]
fn speed_cap_rescales_exactly() {
    // |(30000, 40000)| = 50000 over a cap of 25000: both components
    // halve, by the exact integer square root
    let map = TileMap::new();
    let mut entities = vec![entity(0, 0, 30000, 40000, None, 25000)];
    PhysicsSystem::run(&mut entities, &map);
    let e = &entities[0];
    assert_eq!(e.physics.velocity.x, 15000);
    assert_eq!(e.physics.velocity.y, 20000);
    let v = &e.physics.velocity;
    assert!(v.x * v.x + v.y * v.y <= 25000 * 25000);
}

#[test]
fn acceleration_integrates_before_the_cap() {
    let map = TileMap::new();
    let mut e = entity(0, 0, 100, 200, None, 1000000);
    e.physics.acceleration = Vector { x: 7, y: -9 };
    let mut entities = vec![e];
    PhysicsSystem::run(&mut entities, &map);
    assert_eq!(entities[0].physics.velocity.x, 107);
    assert_eq!(entities[0].physics.velocity.y, 191);
    assert_eq!(entities[0].transform.position.x, 107);
    assert_eq!(entities[0].transform.position.y, 191);
}

#[test]
fn collision_query_is_strict_at_tangency() {
    let mut map = TileMap::new();
    map.insert((0, 0), wall());
    // tile (0,0) spans [0, 8192)^2; a disc tangent to its right face
    // does not overlap, one subunit closer does
    let tangent = Vector { x: TILE_SUBUNITS + 1000, y: 4096 };
    assert!(!check_collision(tangent, &HitBox { radius: 1000 }, &map));
    let closer = Vector { x: TILE_SUBUNITS + 999, y: 4096 };
    assert!(check_collision(closer, &HitBox { radius: 1000 }, &map));
    // far away nothing overlaps
    let far = Vector { x: 10 * TILE_SUBUNITS, y: 4096 };
    assert!(!check_collision(far, &HitBox { radius: 1000 }, &map));
}

#[test]
fn hitbox_overlap_is_strict() {
    let t1 = Transform { position: Vector { x: 0, y: 0 } };
    let t2 = Transform { position: Vector { x: 500, y: 0 } };
    let h300 = HitBox { radius: 300 };
    let h200 = HitBox { radius: 200 };
    assert!(!hitbox_overlap(&t1, &h300, &t2, &h200));
    let h201 = HitBox { radius: 201 };
    assert!(hitbox_overlap(&t1, &h300, &t2, &h201));
}

#[test]
fn collision_detection_lists_overlapping_pairs_in_order() {
    let targets = vec![
        (Transform { position: Vector { x: 0, y: 0 } }, HitBox { radius: 500 }),
        (Transform { position: Vector { x: 100000, y: 0 } }, HitBox { radius: 500 }),
    ];
    let bullets = vec![
        (
            Transform { position: Vector { x: 600, y: 0 } },
            Bullet { radius: 200, damage: 1, penetrating: false },
        ),
        (
            Transform { position: Vector { x: 100100, y: 0 } },
            Bullet { radius: 200, damage: 1, penetrating: false },
        ),
        (
            Transform { position: Vector { x: 50000, y: 50000 } },
            Bullet { radius: 200, damage: 1, penetrating: false },
        ),
    ];
    let events = CollisionDetection::run(&targets, &bullets);
    assert_eq!(events, vec![(0, 0), (1, 1)]);
}

#[test]
fn tile_lookup_default_is_stable() {
    let mut map = TileMap::new();
    // a coordinate never written resolves to the passable default, and
    // asking again gives the same answer
    let a = map.get((3, 4));
    let b = map.get((3, 4));
    assert!(!a.collision);
    assert_eq!(a, b);
    assert_eq!(a.colour, Colour { r: 255, g: 0, b: 255, a: 255 });
    // writes elsewhere do not disturb it
    map.insert((0, 0), wall());
    let c = map.get((3, 4));
    assert_eq!(a, c);
    // a write to the coordinate itself replaces it wholesale
    map.insert((3, 4), wall());
    assert!(map.get((3, 4)).collision);
}

#[test]
fn floor_division_rounds_toward_negative_infinity() {
    assert_eq!(floor_div(0, 256), 0);
    assert_eq!(floor_div(255, 256), 0);
    assert_eq!(floor_div(256, 256), 1);
    assert_eq!(floor_div(-1, 256), -1);
    assert_eq!(floor_div(-256, 256), -1);
    assert_eq!(floor_div(-257, 256), -2);
}
