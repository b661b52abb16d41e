use std::collections::HashSet;

use dungeon_core::level_generation::EnemyType;
use std::collections::VecDeque;

use dungeon_core::level_generation::cellular_automata;
use dungeon_core::level_generation::cyclic;
use dungeon_core::level_generation::generate_level;
use dungeon_core::level_generation::make_boss_arena;
use dungeon_core::level_generation::GeneratedLevel;
use dungeon_core::level_generation::LevelStyle;
use dungeon_core::level_generation::BOSS_ARENA_SIZE;
use dungeon_core::physics::TileMap;
use dungeon_core::random::RandomSource;

/// Flood-fills the passable tiles reachable from `start`, walking only
/// in the four axis directions.
fn passable_region(map: &TileMap, start: (i32, i32), bound: i32) -> HashSet<(i32, i32)> {
    let mut seen: HashSet<(i32, i32)> = HashSet::new();
    let mut queue: VecDeque<(i32, i32)> = VecDeque::new();
    if !map.get(start).collision {
        seen.insert(start);
        queue.push_back(start);
    }
    while let Some((x, y)) = queue.pop_front() {
        for (dx, dy) in [(-1, 0), (1, 0), (0, -1), (0, 1)] {
            let n = (x + dx, y + dy);
            if n.0.abs() <= bound && n.1.abs() <= bound && !seen.contains(&n) && !map.get(n).collision {
                seen.insert(n);
                queue.push_back(n);
            }
        }
    }
    seen
}

fn first_cyclic_success(from_seed: u64) -> GeneratedLevel {
    for seed in from_seed..from_seed + 200 {
        let mut rng = RandomSource::from_seed(seed);
        if let Ok(level) = cyclic::try_generate_level(&mut rng) {
            return level;
        }
    }
    panic!("no cyclic generation succeeded in 200 seeds");
}

#[test]
fn cyclic_level_is_connected() {
    for base in [0u64, 1000, 2000, 3000] {
        let level = first_cyclic_success(base);
        assert_eq!(level.start_position, (5, 5));
        let region = passable_region(&level.tile_map, level.start_position, 1000);
        assert!(region.contains(&level.start_position));
        assert!(
            region.contains(&level.exit_position),
            "exit not reachable from start"
        );
        for &(x, y, _kind) in level.chode_positions.iter() {
            assert!(!level.tile_map.get((x, y)).collision, "spawn on a wall");
            assert!(region.contains(&(x, y)), "spawn not reachable from start");
        }
    }
}

#[test]
fn cyclic_start_room_is_carved() {
    let level = first_cyclic_success(0);
    // the whole 10x10 interior of the origin room is passable
    for x in 0..10 {
        for y in 0..10 {
            assert!(!level.tile_map.get((x, y)).collision);
        }
    }
    // its border corners are walls
    assert!(level.tile_map.get((-1, -1)).collision);
    assert!(level.tile_map.get((10, -1)).collision);
    assert!(level.tile_map.get((-1, 10)).collision);
}

#[test]
fn cyclic_generation_both_succeeds_and_fails() {
    let mut oks = 0u32;
    let mut errs = 0u32;
    for seed in 0..2000u64 {
        let mut rng = RandomSource::from_seed(seed);
        match cyclic::try_generate_level(&mut rng) {
            Ok(_) => oks += 1,
            Err(_) => errs += 1,
        }
    }
    assert!(oks >= 1, "no attempt succeeded");
    assert!(
        errs >= 1,
        "no attempt hit a generation bound; bound checks never rejected"
    );
}

#[test]
fn driver_retries_until_success() {
    let mut rng = RandomSource::from_seed(11);
    let (level, attempts) = generate_level(LevelStyle::Cyclic, &mut rng, 100)
        .expect("cyclic generation should succeed within 100 attempts");
    assert!(attempts >= 1 && attempts <= 100);
    assert_eq!(level.start_position, (5, 5));

    let mut rng2 = RandomSource::from_seed(12);
    let (cave, cave_attempts) = generate_level(LevelStyle::CellularAutomata, &mut rng2, 100)
        .expect("cave generation should succeed within 100 attempts");
    assert!(cave_attempts >= 1);
    assert!(!cave.tile_map.get(cave.start_position).collision);
}

#[test]
fn cave_level_has_open_region_of_twenty_cells() {
    // a fixed seed and the stated iteration counts: the smoothed cave
    // keeps at least one connected open region of 20 cells or more
    let mut rng = RandomSource::from_seed(42);
    let level = cellular_automata::try_generate_level(&mut rng)
        .expect("cave generation failed for the fixed seed");
    let region = passable_region(&level.tile_map, level.start_position, 60);
    assert!(
        region.len() >= 20,
        "open region too small: {} cells",
        region.len()
    );
}

#[test]
fn cave_level_is_bordered_and_placed() {
    let mut rng = RandomSource::from_seed(7);
    let level = cellular_automata::try_generate_level(&mut rng).expect("cave generation failed");
    // the border ring is blocking all around
    for i in -1..=50 {
        assert!(level.tile_map.get((i, -1)).collision);
        assert!(level.tile_map.get((i, 50)).collision);
        assert!(level.tile_map.get((-1, i)).collision);
        assert!(level.tile_map.get((50, i)).collision);
    }
    // start and exit are open in-bounds cells
    let s = level.start_position;
    let e = level.exit_position;
    assert!((0..50).contains(&s.0) && (0..50).contains(&s.1));
    assert!((0..50).contains(&e.0) && (0..50).contains(&e.1));
    assert!(!level.tile_map.get(s).collision);
    assert!(!level.tile_map.get(e).collision);
    // no open cell comes before the start in the anti-diagonal scan
    for x in 0..50 {
        for y in 0..50 {
            if !level.tile_map.get((x, y)).collision {
                let before =
                    x + y < s.0 + s.1 || (x + y == s.0 + s.1 && x < s.0);
                assert!(!before, "open cell ({x},{y}) precedes start {s:?}");
            }
        }
    }
    // spawn candidates are open and far from the start on some axis
    for &(x, y, _) in level.chode_positions.iter() {
        assert!(!level.tile_map.get((x, y)).collision);
        assert!((x - s.0).abs() >= 10 || (y - s.1).abs() >= 10);
    }
    assert!(level.chode_positions.len() <= 30);
}

#[test]
fn boss_arena_has_bordered_floor() {
    let arena = make_boss_arena();
    let b = BOSS_ARENA_SIZE;
    for x in -b..=b {
        for y in -b..=b {
            assert!(!arena.get((x, y)).collision);
        }
    }
    for i in -b - 1..=b + 1 {
        assert!(arena.get((i, -b - 1)).collision);
        assert!(arena.get((i, b + 1)).collision);
        assert!(arena.get((-b - 1, i)).collision);
        assert!(arena.get((b + 1, i)).collision);
    }
    // outside the stamp nothing is stored: the default is passable
    assert!(!arena.get((b + 2, 0)).collision);
}

#[test]
fn enemy_kinds_are_weighted_scheme_only() {
    let level = first_cyclic_success(500);
    for &(_, _, kind) in level.chode_positions.iter() {
        assert!(matches!(
            kind,
            EnemyType::Chode | EnemyType::Shotgunner | EnemyType::Spinner
        ));
    }
}
