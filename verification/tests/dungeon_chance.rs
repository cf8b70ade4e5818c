use tunics_algo::build_plan::BuildPlan;
use tunics_algo::feature::FeaturePlan;
use tunics_algo::feature::JoinSelector;
use tunics_algo::feature::PrependSelector;
use rand::rngs::StdRng;
use rand::SeedableRng;
use tunics_algo::tunics::gen_treasure_set;
use tunics_algo::tunics::get_join_selector;
use tunics_algo::tunics::get_prepend_selector;
use tunics_algo::tunics::get_traversal_selector;
use tunics_algo::tunics::join_weights;
use tunics_algo::tunics::room::Contents;
use tunics_algo::tunics::AugFeature;
use tunics_algo::tunics::Config;
use tunics_algo::tunics::Feature;
use tunics_algo::tunics::Item;

fn leaf() -> FeaturePlan<AugFeature> {
    FeaturePlan::Branch(Vec::new())
}

fn with(c: Contents, next: FeaturePlan<AugFeature>) -> FeaturePlan<AugFeature> {
    FeaturePlan::Feature(AugFeature::Feature(Feature::Interior(c)), Box::new(next))
}

#[test]
fn treasure_sets_hold_distinct_items() {
    for seed in 0..10u64 {
        let mut rng = StdRng::seed_from_u64(seed);
        let items = gen_treasure_set(&mut rng, 4);
        assert_eq!(4, items.len());
        for i in 0..items.len() {
            for j in 0..i {
                assert_ne!(items[i], items[j]);
            }
        }
    }
    assert_eq!(6, gen_treasure_set(&mut StdRng::seed_from_u64(3), 6).len());
    assert!(gen_treasure_set(&mut StdRng::seed_from_u64(3), 0).is_empty());
}

#[test]
fn join_weights_by_hand() {
    // plan 0 holds the boss at depth 0; the others are plain leaves or
    // hold a fairy.
    let nodes = vec![
        with(Contents::Boss, leaf()),
        leaf(),
        with(Contents::Fairy, with(Contents::Fairy, leaf())),
        with(Contents::BigChest(Item::Bow), leaf()),
    ];
    let w = join_weights(&nodes, 0);
    // deepest of the others: 3; the boss lies in plan 0, so the deeper the
    // big key in a plan, the more it weighs (absent: the deepest depth).
    // plan 1: 1 * (3 - 1) + 2 * 3 + 1 = 9
    // plan 2: 1 * (3 - 3) + 2 * 3 + 1 = 7
    // plan 3: 1 * (3 - 2) + 2 * 0 + 1 = 2
    assert_eq!(vec![0, 9, 7, 2], w);
    let w = join_weights(&nodes, 1);
    // plan 1 holds nothing of the big key: the shallower the big key in a
    // plan, the more it weighs. Deepest of the others: 3.
    // plan 0: (3 - 2) + 2 * (3 - 0) + 1 = 8
    // plan 2: (3 - 3) + 2 * (3 - 3) + 1 = 1
    // plan 3: (3 - 2) + 2 * (3 - 0) + 1 = 8
    assert_eq!(vec![8, 0, 1, 8], w);
}

#[test]
fn join_selector_joins_only_wide_branches() {
    let mut selector = get_join_selector(StdRng::seed_from_u64(5));
    let narrow = vec![leaf(), leaf(), leaf()];
    assert_eq!(None, selector.select_join(&narrow));
    let wide = vec![
        with(Contents::Boss, leaf()),
        leaf(),
        with(Contents::Fairy, leaf()),
        leaf(),
        leaf(),
    ];
    for _ in 0..20 {
        let (i, j) = selector.select_join(&wide).unwrap();
        assert!(i < 5 && j < 5 && i != j);
    }
}

#[test]
fn prepend_selector_picks_a_position() {
    let mut selector = get_prepend_selector(StdRng::seed_from_u64(9));
    let nodes = vec![leaf(), leaf(), leaf()];
    for _ in 0..20 {
        assert!(selector.select_prepend(&nodes) < 3);
    }
}

#[test]
fn traversal_emits_each_step_once() {
    let config = Config {
        num_small_keys: 2,
        num_fairies: 1,
        num_cul_de_sacs: 1,
        items: vec![Item::BombBag, Item::Grapple],
    };
    let plan = BuildPlan::from(config);
    for seed in 0..10u64 {
        let mut selector = get_traversal_selector(StdRng::seed_from_u64(seed), &plan);
        let seq = plan.build_sequence(&mut selector);
        assert_eq!(plan.steps().len(), seq.len());
    }
}
