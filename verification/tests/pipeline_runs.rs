use rand::rngs::StdRng;
use rand::SeedableRng;
use tunics_algo::feature::starts_before_prepends;
use tunics_algo::pipeline::build_plan;
use tunics_algo::pipeline::build_sequence;
use tunics_algo::pipeline::feature_plan1;
use tunics_algo::pipeline::feature_plan2;
use tunics_algo::pipeline::floor_plan;
use tunics_algo::pipeline::pick_items;
use tunics_algo::pipeline::room_plan;
use tunics_algo::tunics::Config;
use tunics_algo::tunics::Item;

fn config() -> Config {
    Config {
        num_small_keys: 3,
        num_fairies: 1,
        num_cul_de_sacs: 1,
        items: vec![Item::BombBag, Item::Bow, Item::Flippers],
    }
}

#[test]
fn steps_are_counted() {
    // 6 fixed steps, a cul-de-sac, a fairy, 3 + 2 + 2 item steps, 3 locks, 3 keys
    assert_eq!(Some(21), config().num_steps());
    assert_eq!(21, build_plan(1, &config()).1.steps().len());
}

#[test]
fn build_sequences_hold_every_step_once_and_start_before_prepends() {
    for seed in 0..10u64 {
        let (_, seq) = build_sequence(seed, &config());
        assert_eq!(21, seq.len());
        assert!(starts_before_prepends(&seq));
    }
}

#[test]
fn a_seed_gives_the_same_dungeon() {
    let (_, a) = build_sequence(42, &config());
    let (_, b) = build_sequence(42, &config());
    assert_eq!(format!("{:?}", a), format!("{:?}", b));
}

#[test]
fn the_pipeline_runs_to_a_floor_plan() {
    for seed in 0..10u64 {
        let (_, plan) = feature_plan1(seed, &config());
        assert!(plan.max_depth() > 1);
        let (_, plan) = feature_plan2(seed, &config());
        assert!(plan.max_depth() > 1);
        let (_, rooms) = room_plan(seed, &config());
        let weight = rooms.checked_weight().unwrap();
        assert!(weight >= 10);
        let (_, floor) = floor_plan(seed, &config());
        if let Some(floor) = floor {
            assert!(floor.room_entries().len() >= weight);
        }
    }
}

#[test]
fn picked_items_keep_the_chosen_ones_and_draw_different_others() {
    let wanted = vec![Some(Item::Glove), None, None, Some(Item::Glove), None];
    for seed in 0..10u64 {
        let items = pick_items(&mut StdRng::seed_from_u64(seed), &wanted);
        assert_eq!(5, items.len());
        assert_eq!(Item::Glove, items[0]);
        assert_eq!(Item::Glove, items[3]);
        assert_ne!(items[1], items[2]);
        assert_ne!(items[1], items[4]);
        assert_ne!(items[2], items[4]);
    }
}
