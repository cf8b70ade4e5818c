use tunics_algo::feature::FeaturePlan;
use tunics_algo::floor::Describe;
use tunics_algo::room::Forest;
use tunics_algo::room::RoomExt;
use tunics_algo::room::Tree;
use tunics_algo::tunics::lower;
use tunics_algo::tunics::room::Contents;
use tunics_algo::tunics::room::Room;
use tunics_algo::tunics::AugFeature;
use tunics_algo::tunics::Door;
use tunics_algo::tunics::Feature;
use tunics_algo::tunics::Item;
use tunics_algo::tunics::Obstacle;
use tunics_algo::tunics::Treasure;

fn bare() -> Tree<Door, Contents> {
    Tree::default()
}

fn leaf<F>() -> FeaturePlan<F> {
    FeaturePlan::Branch(Vec::new())
}

#[test]
fn entrance_goes_in_a_bare_room() {
    let room = bare().add_feature(Feature::Entrance).ok().unwrap();
    assert_eq!(Some(Door::DungeonEntrance), room.entrance);
    assert!(room.is_boundary());
}

#[test]
fn contents_need_a_bare_room() {
    let room = bare()
        .add_feature(Feature::Interior(Contents::Fairy))
        .ok()
        .unwrap();
    assert_eq!(Some(Contents::Fairy), room.contents);
    assert!(!room.is_boundary());
    let (feature, back) = room
        .add_feature(Feature::Interior(Contents::Boss))
        .err()
        .unwrap();
    assert_eq!(Feature::Interior(Contents::Boss), feature);
    assert_eq!(Some(Contents::Fairy), back.contents);
}

#[test]
fn a_door_goes_on_a_room_with_contents() {
    let room = bare()
        .add_feature(Feature::Interior(Contents::Boss))
        .ok()
        .unwrap()
        .add_feature(Feature::Obstacle(Obstacle::Door(Door::BigKeyLock)))
        .ok()
        .unwrap();
    assert_eq!(Some(Door::BigKeyLock), room.entrance);
    assert_eq!(Some(Contents::Boss), room.contents);
    assert!(room
        .add_feature(Feature::Obstacle(Obstacle::Door(Door::WeakWall)))
        .is_err());
}

#[test]
fn a_challenge_goes_in_a_room_in_front() {
    let room = bare()
        .add_feature(Feature::Obstacle(Obstacle::ArrowChallenge))
        .ok()
        .unwrap();
    assert_eq!(None, room.entrance);
    assert_eq!(Some(Contents::ArrowChallenge), room.contents);
    assert_eq!(1, room.exits.0.len());
    assert_eq!(Some(Door::ActivationLock), room.exits.0[0].entrance);
}

#[test]
fn an_obstacle_fills_a_bare_room() {
    let room = bare()
        .add_feature(Feature::Obstacle(Obstacle::Chasm))
        .ok()
        .unwrap();
    assert_eq!(Some(Contents::Chasm), room.contents);
}

#[test]
fn room_plan_from_feature_plan() {
    let plan = FeaturePlan::Feature(
        Feature::Entrance,
        Box::new(FeaturePlan::Feature(
            Feature::Interior(Contents::Boss),
            Box::new(leaf()),
        )),
    );
    let room = Tree::<Door, Contents>::from_feature_plan(plan);
    // the boss takes the bare room; the entrance needs a room in front
    assert_eq!(Some(Door::DungeonEntrance), room.entrance);
    assert_eq!(None, room.contents);
    assert_eq!(1, room.exits.0.len());
    assert_eq!(Some(Contents::Boss), room.exits.0[0].contents);
    let forest = Forest::from(vec![room]);
    assert_eq!(2, forest.weight());
}

#[test]
fn lowering_puts_the_boss_behind_a_big_key_lock() {
    let plan = FeaturePlan::Feature(
        AugFeature::Feature(Feature::Interior(Contents::Boss)),
        Box::new(FeaturePlan::Feature(
            AugFeature::Feature(Feature::Interior(Contents::SmallChest(Treasure::Compass))),
            Box::new(leaf()),
        )),
    );
    match lower(plan) {
        FeaturePlan::Feature(f1, next) => {
            assert_eq!(Feature::Obstacle(Obstacle::Door(Door::BigKeyLock)), f1);
            match *next {
                FeaturePlan::Feature(f2, next) => {
                    assert_eq!(Feature::Interior(Contents::Boss), f2);
                    match *next {
                        FeaturePlan::Feature(f3, _) => {
                            assert_eq!(Feature::Interior(Contents::SecretChest(Treasure::Compass)), f3)
                        }
                        _ => panic!("expected a feature"),
                    }
                }
                _ => panic!("expected a feature"),
            }
        }
        _ => panic!("expected a feature"),
    }
}

#[test]
fn lowering_drops_hide_steps_and_hides_later_chests() {
    let chest = AugFeature::Feature(Feature::Interior(Contents::SmallChest(Treasure::DungeonMap)));
    let visible = FeaturePlan::Feature(chest, Box::new(leaf()));
    match lower(visible) {
        FeaturePlan::Feature(f, _) => {
            assert_eq!(Feature::Interior(Contents::SmallChest(Treasure::DungeonMap)), f)
        }
        _ => panic!("expected a feature"),
    }
    let hidden = FeaturePlan::Feature(
        AugFeature::HideSmallChests,
        Box::new(FeaturePlan::Feature(chest, Box::new(leaf()))),
    );
    match lower(hidden) {
        FeaturePlan::Feature(f, _) => {
            assert_eq!(Feature::Interior(Contents::SecretChest(Treasure::DungeonMap)), f)
        }
        _ => panic!("expected a feature"),
    }
}

#[test]
fn lowering_a_branch_joins_its_sub_plans() {
    let f = |c: Contents| FeaturePlan::Feature(AugFeature::Feature(Feature::Interior(c)), Box::new(leaf()));
    match lower(FeaturePlan::Branch(vec![])) {
        FeaturePlan::Branch(nodes) => assert_eq!(0, nodes.len()),
        _ => panic!("expected a branch"),
    }
    match lower(FeaturePlan::Branch(vec![f(Contents::Fairy)])) {
        FeaturePlan::Feature(g, _) => assert_eq!(Feature::Interior(Contents::Fairy), g),
        _ => panic!("expected a feature"),
    }
    match lower(FeaturePlan::Branch(vec![
        f(Contents::Fairy),
        f(Contents::Empty),
        FeaturePlan::Branch(vec![f(Contents::Boss), leaf()]),
    ])) {
        FeaturePlan::Branch(nodes) => assert_eq!(3, nodes.len()),
        _ => panic!("expected a branch"),
    }
}

#[test]
fn items_by_name() {
    assert_eq!(Ok(Item::Bow), Item::from_name("bow"));
    assert_eq!(Ok(Item::BombBag), Item::from_name("bomb-bag"));
    assert_eq!(Ok(Item::Lantern), Item::from_name("lantern"));
    assert_eq!(Err("invalid item"), Item::from_name("sword"));
    assert_eq!(Err("invalid item"), Item::from_name(""));
    assert_eq!(Ok(Item::Glove), "glove".parse::<Item>());
    assert_eq!(Ok(Item::Grapple), "grapple".parse::<Item>());
}

#[test]
fn obstacles_of_items() {
    assert_eq!(
        vec![Obstacle::Door(Door::WeakWall), Obstacle::Door(Door::VeryWeakWall)],
        Item::BombBag.get_obstacles()
    );
    assert_eq!(vec![Obstacle::Mote], Item::Flippers.get_obstacles());
    assert_eq!(vec![Obstacle::FireChallenge], Item::Lantern.get_obstacles());
}

#[test]
fn descriptions() {
    assert_eq!("SmallChest(Item(Bow))", Contents::SmallChest(Treasure::Item(Item::Bow)).describe());
    assert_eq!("BigChest(Glove)", Contents::BigChest(Item::Glove).describe());
    assert_eq!("Trap", Door::Trap.describe());
    assert_eq!("Fairy", Contents::Fairy.describe());
}

#[test]
fn room_weight_and_simplicity() {
    let room = Room {
        entrance: None,
        contents: Some(Contents::Boss),
        exits: vec![Room::default(), Room {
            entrance: None,
            contents: Some(Contents::Mote),
            exits: vec![Room::default()],
        }],
    };
    assert_eq!(4, room.weight());
    assert!(room.is_simple());
    assert!(!room.exits[1].is_simple());
    assert!(!Room::default().is_simple());
}

#[test]
fn parse_rejects_unknown_item() {
    assert_eq!(Err("invalid item"), "sword".parse::<Item>());
    assert_eq!(Ok(Item::BombBag), "bomb-bag".parse::<Item>());
}

#[test]
fn item_set_keeps_each_item_once() {
    let items = vec![Item::Bow, Item::Glove, Item::Bow, Item::Lantern, Item::Glove];
    assert_eq!(vec![Item::Bow, Item::Glove, Item::Lantern], tunics_algo::tunics::item_set(&items));
    assert_eq!(Vec::<Item>::new(), tunics_algo::tunics::item_set(&Vec::new()));
}
