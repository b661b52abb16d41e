use dungeon_core::level_generation::LevelStyle;
use dungeon_core::random::RandomSource;
use dungeon_core::sound::SoundQueue;
use dungeon_core::sound::SoundRequest;
use dungeon_core::world_generation::generate_dungeons;
use dungeon_core::world_map::all_items;
use dungeon_core::world_map::Item;
use dungeon_core::world_map::Reward;

#[test]
fn all_items_lists_eight_distinct_items() {
    let items = all_items();
    assert_eq!(items.len(), 8);
    for i in 0..items.len() {
        for j in 0..i {
            assert_ne!(items[i], items[j]);
        }
    }
    assert_eq!(items[0], Item::AttackSpeed);
    assert_eq!(items[7], Item::Backfire);
}

#[test]
fn dungeon_layout_has_two_rings_and_fresh_rewards() {
    let mut rng = RandomSource::from_seed(3);
    let dungeons = generate_dungeons(&mut rng);
    assert_eq!(dungeons.len(), 6);
    let mut chosen: Vec<Item> = Vec::new();
    for (i, d) in dungeons.iter().enumerate() {
        assert!(!d.completed);
        assert!((0..360).contains(&d.angle_degrees));
        if i < 3 {
            assert!((50..150).contains(&d.distance));
        } else {
            assert!((150..300).contains(&d.distance));
        }
        match (i, d.reward) {
            (2, Reward::Progress) | (5, Reward::Progress) => {}
            (_, Reward::Choice(a, b)) if i != 2 && i != 5 => {
                chosen.push(a);
                chosen.push(b);
            }
            _ => panic!("reward pattern broken at {i}"),
        }
        assert!(matches!(
            d.style,
            LevelStyle::Cyclic | LevelStyle::CellularAutomata
        ));
    }
    // the choice rewards are drawn without replacement: all 8 distinct
    assert_eq!(chosen.len(), 8);
    for i in 0..chosen.len() {
        for j in 0..i {
            assert_ne!(chosen[i], chosen[j]);
        }
    }
}

#[test]
fn sound_queue_keeps_order_and_clears() {
    let mut q = SoundQueue::new();
    assert_eq!(q.len(), 0);
    q.enqueue(SoundRequest::PlayerShot);
    q.enqueue(SoundRequest::BossDeath);
    q.enqueue(SoundRequest::Pause);
    assert_eq!(q.len(), 3);
    assert_eq!(q.get(0), SoundRequest::PlayerShot);
    assert_eq!(q.get(1), SoundRequest::BossDeath);
    assert_eq!(q.get(2), SoundRequest::Pause);
    q.clear();
    assert_eq!(q.len(), 0);
}

#[test]
fn seeded_generation_is_reproducible() {
    let mut a = RandomSource::from_seed(99);
    let mut b = RandomSource::from_seed(99);
    for _ in 0..32 {
        assert_eq!(a.gen_range(0, 1000), b.gen_range(0, 1000));
    }
}
