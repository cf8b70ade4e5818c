use tunics_algo::build_plan::BuildPlan;
use tunics_algo::build_plan::Index;
use tunics_algo::feature::Op;
use tunics_algo::tunics::AugFeature;
use tunics_algo::tunics::Config;
use tunics_algo::tunics::Door;
use tunics_algo::tunics::Feature;
use tunics_algo::tunics::Item;
use tunics_algo::tunics::Obstacle;

fn config(keys: usize, fairies: usize, cul_de_sacs: usize, items: Vec<Item>) -> Config {
    Config {
        num_small_keys: keys,
        num_fairies: fairies,
        num_cul_de_sacs: cul_de_sacs,
        items,
    }
}

fn idx(v: &[usize]) -> Vec<Index> {
    v.iter().map(|i| Index(*i)).collect()
}

#[test]
fn plan_of_a_bare_dungeon() {
    let plan = BuildPlan::from(config(0, 0, 0, vec![]));
    // entrance, boss, big key, hide small chests, compass, map
    assert_eq!(6, plan.steps().len());
    assert_eq!(idx(&[2, 4, 5]), plan.outgoing(Index(0)));
    assert_eq!(idx(&[1]), plan.outgoing(Index(2)));
    assert_eq!(idx(&[1]), plan.outgoing(Index(3)));
    assert_eq!(idx(&[3]), plan.outgoing(Index(4)));
    assert_eq!(idx(&[1]), plan.outgoing(Index(5)));
    assert_eq!(idx(&[]), plan.outgoing(Index(1)));
}

#[test]
fn plan_with_bomb_bag_and_a_key() {
    let plan = BuildPlan::from(config(1, 0, 0, vec![Item::BombBag]));
    // 0 entrance, 1 boss, 2 big key, 3 hide, 4 compass, 5 big chest,
    // 6 weak wall, 7 very weak wall, 8 lock, 9 key, 10 map
    assert_eq!(11, plan.steps().len());
    assert_eq!(idx(&[4, 9, 10]), plan.outgoing(Index(0)));
    assert_eq!(idx(&[1, 5]), plan.outgoing(Index(2)));
    assert_eq!(idx(&[6, 7]), plan.outgoing(Index(5)));
    assert_eq!(idx(&[1]), plan.outgoing(Index(6)));
    assert_eq!(idx(&[1, 6]), plan.outgoing(Index(7)));
    assert_eq!(idx(&[2]), plan.outgoing(Index(8)));
    assert_eq!(idx(&[8]), plan.outgoing(Index(9)));
    assert_eq!(idx(&[7]), plan.outgoing(Index(10)));
    assert!(matches!(
        plan.steps()[6],
        Op::PrependEach(AugFeature::Feature(Feature::Obstacle(Obstacle::Door(Door::WeakWall))))
    ));
}

#[test]
fn plan_of_config_has_no_cycles() {
    let plan = BuildPlan::from(config(2, 1, 2, vec![Item::Bow, Item::BombBag, Item::Glove]));
    let order = plan.sorted();
    assert_eq!(plan.steps().len(), order.len());
    for (k, i) in order.iter().enumerate() {
        for t in plan.outgoing(*i) {
            let pos = order.iter().position(|x| *x == t).unwrap();
            assert!(pos < k);
        }
    }
    let counts = plan.reachable_counts();
    // the boss is reached from every step but the cul-de-sacs and fairies
    assert_eq!(plan.steps().len() - 3, counts[4]);
}

#[test]
fn small_keys_form_a_chain() {
    let plan = BuildPlan::from(config(3, 0, 0, vec![]));
    // 0 entrance, 1 boss, 2 big key, 3 hide, 4 compass, 5..8 locks, 8..11 keys, 11 map
    assert_eq!(12, plan.steps().len());
    assert_eq!(idx(&[2]), plan.outgoing(Index(5)));
    assert_eq!(idx(&[5]), plan.outgoing(Index(6)));
    assert_eq!(idx(&[6]), plan.outgoing(Index(7)));
    assert_eq!(idx(&[7]), plan.outgoing(Index(8)));
    assert_eq!(idx(&[8]), plan.outgoing(Index(9)));
    assert_eq!(idx(&[9]), plan.outgoing(Index(10)));
    assert_eq!(idx(&[4, 10, 11]), plan.outgoing(Index(0)));
}
