use tunics_algo::floor::Coord;
use tunics_algo::floor::Dir2;
use tunics_algo::floor::DoorCoord2;
use tunics_algo::floor::room_name;
use tunics_algo::floor::from_forest;
use tunics_algo::floor2::doit;
use tunics_algo::room::Forest;
use tunics_algo::room::Tree;
use tunics_algo::tunics::room::Contents;
use tunics_algo::tunics::Door;

fn room(entrance: Option<Door>, contents: Option<Contents>, exits: Vec<Tree<Door, Contents>>) -> Tree<Door, Contents> {
    Tree {
        entrance,
        contents,
        exits: Forest::from(exits),
    }
}

#[test]
fn a_single_room_floor() {
    let tree = room(Some(Door::DungeonEntrance), Some(Contents::Fairy), vec![]);
    let plan = from_forest(tree).unwrap();
    let rooms = plan.room_entries();
    assert!(rooms.iter().any(|(c, d)| *c == Coord { x: 0, y: -1 } && d.is_none()));
    assert!(rooms
        .iter()
        .any(|(c, d)| *c == Coord { x: 0, y: 0 } && d.as_deref() == Some("Fairy")));
    assert_eq!(2, rooms.len());
    let doors = plan.door_entries();
    assert_eq!(1, doors.len());
    assert_eq!("DungeonEntrance", doors[0].1);
}

#[test]
fn rooms_and_doors_do_not_collide() {
    let leaf = |c: Contents| room(Some(Door::SmallKeyLock), Some(c), vec![]);
    let tree = room(
        Some(Door::DungeonEntrance),
        None,
        vec![
            leaf(Contents::Boss),
            leaf(Contents::Fairy),
            room(None, Some(Contents::Empty), vec![leaf(Contents::Mote), leaf(Contents::Chasm)]),
        ],
    );
    let plan = from_forest(tree).unwrap();
    let rooms = plan.room_entries();
    for i in 0..rooms.len() {
        for j in 0..i {
            assert_ne!(rooms[i].0, rooms[j].0);
        }
    }
    let doors = plan.door_entries();
    for i in 0..doors.len() {
        for j in 0..i {
            assert_ne!(doors[i].0, doors[j].0);
        }
    }
    assert!(rooms.len() >= 7);
}

#[test]
fn doit_ends() {
    doit::<Door, Contents>();
}

#[test]
fn rooms_are_named_by_direction_and_distance() {
    assert_eq!("n0e0", room_name(Coord { x: 0, y: 0 }));
    assert_eq!("s1e0", room_name(Coord { x: 0, y: -1 }));
    assert_eq!("n12w3", room_name(Coord { x: -3, y: 12 }));
    assert_eq!("s128w128", room_name(Coord { x: -128, y: -128 }));
    assert_eq!("n127e127", room_name(Coord { x: 127, y: 127 }));
}

#[test]
fn every_room_of_the_tree_is_laid_out_with_its_label() {
    let leaf = |c: Contents| room(Some(Door::SmallKeyLock), Some(c), vec![]);
    let tree = room(
        Some(Door::DungeonEntrance),
        None,
        vec![
            leaf(Contents::Boss),
            leaf(Contents::Fairy),
            leaf(Contents::Mote),
            leaf(Contents::Chasm),
            room(None, Some(Contents::Rubble), vec![leaf(Contents::Fairy)]),
        ],
    );
    let plan = from_forest(tree).unwrap();
    let rooms = plan.room_entries();
    let count = |label: &str| rooms.iter().filter(|(_, d)| d.as_deref() == Some(label)).count();
    assert_eq!(1, count("Boss"));
    assert_eq!(2, count("Fairy"));
    assert_eq!(1, count("Mote"));
    assert_eq!(1, count("Chasm"));
    assert_eq!(1, count("Rubble"));
    let empties = count("Empty");
    assert_eq!(6 + empties + 2, rooms.len());
    let doors = plan.door_entries();
    let locks = doors.iter().filter(|(_, d)| d == "SmallKeyLock").count();
    assert_eq!(5, locks);
    assert_eq!(1, doors.iter().filter(|(_, d)| d == "DungeonEntrance").count());
    assert_eq!(1 + 5 + 1 + empties, doors.len());
    let origin = Coord { x: 0, y: 0 };
    assert!(doors
        .iter()
        .any(|(k, d)| d == "SmallKeyLock" && k.coord != origin && k.neighbour() != origin));
}

#[test]
fn a_room_may_be_reached_through_a_sibling() {
    let leaf = |c: Contents| room(Some(Door::SmallKeyLock), Some(c), vec![]);
    let tree = room(
        Some(Door::DungeonEntrance),
        None,
        vec![
            leaf(Contents::Boss),
            leaf(Contents::Fairy),
            leaf(Contents::Mote),
            leaf(Contents::Chasm),
            leaf(Contents::Rubble),
        ],
    );
    let plan = from_forest(tree).unwrap();
    let origin = Coord { x: 0, y: 0 };
    let doors = plan.door_entries();
    assert_eq!(5, doors.iter().filter(|(_, d)| d == "SmallKeyLock").count());
    assert!(doors
        .iter()
        .any(|(k, d)| d == "SmallKeyLock" && k.coord != origin && k.neighbour() != origin));
}

#[test]
fn a_room_goes_behind_the_door_its_cell_was_given() {
    let tree = room(
        Some(Door::DungeonEntrance),
        None,
        vec![room(Some(Door::SmallKeyLock), Some(Contents::Boss), vec![])],
    );
    let plan = from_forest(tree).unwrap();
    let rooms = plan.room_entries();
    assert_eq!(3, rooms.len());
    assert!(rooms.iter().any(|(c, d)| *c == Coord { x: 0, y: -1 } && d.is_none()));
    assert!(rooms.iter().any(|(c, d)| *c == Coord { x: 0, y: 0 } && d.is_none()));
    assert!(rooms
        .iter()
        .any(|(c, d)| *c == Coord { x: 1, y: 0 } && d.as_deref() == Some("Boss")));
    let doors = plan.door_entries();
    assert_eq!(2, doors.len());
    assert!(doors.iter().any(|(k, d)| *k
        == DoorCoord2 {
            coord: Coord { x: 0, y: -1 },
            dir: Dir2::North
        }
        && d == "DungeonEntrance"));
    assert!(doors.iter().any(|(k, d)| *k
        == DoorCoord2 {
            coord: Coord { x: 0, y: 0 },
            dir: Dir2::East
        }
        && d == "SmallKeyLock"));
}

fn chain(n: usize) -> Tree<Door, Contents> {
    let mut t = room(Some(Door::SmallKeyLock), Some(Contents::Boss), vec![]);
    for _ in 1..n {
        t = room(Some(Door::SmallKeyLock), Some(Contents::Fairy), vec![t]);
    }
    room(Some(Door::DungeonEntrance), None, vec![t])
}

#[test]
fn a_long_chain_fits_within_the_last_ring() {
    let plan = from_forest(chain(60)).unwrap();
    assert_eq!(62, plan.room_entries().len());
    assert_eq!(61, plan.door_entries().len());
}

#[test]
fn a_chain_beyond_the_last_ring_is_refused() {
    assert!(from_forest(chain(70)).is_none());
}
