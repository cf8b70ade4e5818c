use super::call_text;
use super::Door;
use super::Feature;
use super::Item;
use super::Obstacle;
use super::Treasure;
use crate::floor::Describe;
use crate::room::Forest;
use crate::room::RoomExt;
use crate::room::RoomPlan;
use crate::room::Tree;
use crate::room::built;
use crate::room::built_seq;
use crate::feature::FeaturePlan;
use vstd::prelude::*;

verus! {

/// What a room holds.
#[derive(Clone, Copy, Debug, PartialEq, Eq, Hash, Structural)]
pub enum Contents {
    Empty,
    Boss,
    Fairy,
    SmallChest(Treasure),
    BigChest(Item),
    /// Appears when the hero finds a secret.
    SecretChest(Treasure),
    /// An obstacle the hero needs to swim across.
    /// The entrance is on the near side, and all exits on the far side.
    Mote,
    /// An obstacle the hero needs to grapple across.
    /// The entrance is on the near side, and all exits on the far side.
    Chasm,
    /// An obstacle the hero needs great plysical strength to cross.
    /// The entrance is on the near side, and all exits on the far side.
    Rubble,
    /// The room is activated by shoot with an arrow to open.
    ArrowChallenge,
    /// Lets the hero activate the room by use of strength.
    StrengthChallenge,
    /// Lets the hero activate the room by use of fire.
    FireChallenge,
    /// Lets the hero activate the room by succeeding in combat.
    CombatChallenge,
}

/// A room of a dungeon, and the rooms behind its exits.
pub struct Room {
    pub entrance: Option<Door>,
    pub contents: Option<Contents>,
    pub exits: Vec<Room>,
}

/// The number of rooms in `r`, itself included.
pub open spec fn room_count(r: Room) -> nat
    decreases r,
{
    1 + rooms_count(r.exits@)
}

/// The number of rooms in the rooms of `s` and behind them.
pub open spec fn rooms_count(s: Seq<Room>) -> nat
    decreases s,
{
    if s.len() == 0 {
        0
    } else {
        rooms_count(s.drop_last()) + room_count(s.last())
    }
}

/// `c` is contents that a room takes as they are.
pub open spec fn is_simple_contents(c: Contents) -> bool {
    match c {
        Contents::Empty | Contents::Boss | Contents::Fairy | Contents::SmallChest(_) | Contents::BigChest(
            _,
        ) | Contents::SecretChest(_) => true,
        _ => false,
    }
}

impl Default for Room {
    fn default() -> (r: Self)
        ensures
            r.entrance is None,
            r.contents is None,
            r.exits@.len() == 0,
    {
        Room { entrance: None, contents: None, exits: Vec::new() }
    }
}

impl Room {
    /// The room holds contents that need nothing around them.
    pub fn is_simple(&self) -> (r: bool)
        ensures
            r == (self.contents matches Some(c) && is_simple_contents(c)),
    {
        match &self.contents {
            Some(contents) => match contents {
                Contents::Empty | Contents::Boss | Contents::Fairy | Contents::SmallChest(_)
                | Contents::BigChest(_) | Contents::SecretChest(_) => true,
                _ => false,
            },
            None => false,
        }
    }

    /// The room with `exits` added behind its exits.
    pub fn add_exits(self, exits: Vec<Room>) -> (r: Room)
        ensures
            r.entrance == self.entrance,
            r.contents == self.contents,
            r.exits@ == self.exits@ + exits@,
    {
        let mut room = self;
        let mut exits = exits;
        room.exits.append(&mut exits);
        room
    }

    /// The number of rooms, this one included, in and behind this room.
    pub fn weight(&self) -> (r: usize)
        requires
            room_count(*self) <= usize::MAX,
        ensures
            r == room_count(*self),
        decreases *self,
    {
        let mut acc: usize = 1;
        let mut i: usize = 0;
        while i < self.exits.len()
            invariant
                i <= self.exits@.len(),
                room_count(*self) <= usize::MAX,
                room_count(*self) == 1 + rooms_count(self.exits@),
                acc == 1 + rooms_count(self.exits@.subrange(0, i as int)),
            decreases self.exits@.len() - i,
        {
            proof {
                assert(self.exits@.subrange(0, i + 1).drop_last() =~= self.exits@.subrange(0, i as int));
                lemma_rooms_count_prefix(self.exits@, i + 1);
                assert(decreases_to!(*self => self.exits));
                assert(decreases_to!(self.exits => self.exits@[i as int]));
            }
            let w = self.exits[i].weight();
            acc = acc + w;
            i = i + 1;
        }
        proof {
            assert(self.exits@.subrange(0, i as int) =~= self.exits@);
        }
        acc
    }
}

/// The rooms of a prefix count no more than all of them.
pub proof fn lemma_rooms_count_prefix(s: Seq<Room>, i: int)
    requires
        0 <= i <= s.len(),
    ensures
        rooms_count(s.subrange(0, i)) <= rooms_count(s),
    decreases s.len(),
{
    if i < s.len() {
        assert(s.drop_last().subrange(0, i) =~= s.subrange(0, i));
        lemma_rooms_count_prefix(s.drop_last(), i);
    } else {
        assert(s.subrange(0, i) =~= s);
    }
}

impl Describe for Contents {
    open spec fn spec_describe(&self) -> Seq<char> {
        match *self {
            Contents::Empty => "Empty"@,
            Contents::Boss => "Boss"@,
            Contents::Fairy => "Fairy"@,
            Contents::SmallChest(t) => "SmallChest"@ + "("@ + t.spec_describe() + ")"@,
            Contents::BigChest(i) => "BigChest"@ + "("@ + i.spec_describe() + ")"@,
            Contents::SecretChest(t) => "SecretChest"@ + "("@ + t.spec_describe() + ")"@,
            Contents::Mote => "Mote"@,
            Contents::Chasm => "Chasm"@,
            Contents::Rubble => "Rubble"@,
            Contents::ArrowChallenge => "ArrowChallenge"@,
            Contents::StrengthChallenge => "StrengthChallenge"@,
            Contents::FireChallenge => "FireChallenge"@,
            Contents::CombatChallenge => "CombatChallenge"@,
        }
    }

    fn describe(&self) -> (r: String) {
        match self {
            Contents::Empty => "Empty".to_owned(),
            Contents::Boss => "Boss".to_owned(),
            Contents::Fairy => "Fairy".to_owned(),
            Contents::SmallChest(t) => call_text("SmallChest", t.describe()),
            Contents::BigChest(i) => call_text("BigChest", i.describe()),
            Contents::SecretChest(t) => call_text("SecretChest", t.describe()),
            Contents::Mote => "Mote".to_owned(),
            Contents::Chasm => "Chasm".to_owned(),
            Contents::Rubble => "Rubble".to_owned(),
            Contents::ArrowChallenge => "ArrowChallenge".to_owned(),
            Contents::StrengthChallenge => "StrengthChallenge".to_owned(),
            Contents::FireChallenge => "FireChallenge".to_owned(),
            Contents::CombatChallenge => "CombatChallenge".to_owned(),
        }
    }
}

/// `v` with `door` as its entrance.
pub open spec fn entered_by(v: RoomPlan<Door, Contents>, door: Door) -> RoomPlan<Door, Contents> {
    RoomPlan { entrance: Some(door), ..v }
}

/// `v` holding `c`.
pub open spec fn holding(v: RoomPlan<Door, Contents>, c: Contents) -> RoomPlan<Door, Contents> {
    RoomPlan { contents: Some(c), ..v }
}

/// A room holding the challenge `c` whose one exit leads to `v`, which
/// opens once the challenge is met.
pub open spec fn behind_challenge(v: RoomPlan<Door, Contents>, c: Contents) -> RoomPlan<Door, Contents> {
    RoomPlan { entrance: None, contents: Some(c), exits: seq![entered_by(v, Door::ActivationLock)] }
}

/// The rooms of a dungeon: a room takes a door while it has no entrance,
/// and contents while it has neither entrance nor contents; a challenge
/// goes in a new room in front of a room without entrance, which opens
/// once it is met. A room is a boundary where it has an entrance.
impl RoomExt for Tree<Door, Contents> {
    type Feature = Feature;

    open spec fn spec_is_boundary(v: RoomPlan<Door, Contents>) -> bool {
        v.entrance is Some
    }

    open spec fn spec_add_feature(v: RoomPlan<Door, Contents>, feature: Feature) -> Option<
        RoomPlan<Door, Contents>,
    > {
        let bare = v.entrance is None && v.contents is None;
        match feature {
            Feature::Entrance => if bare {
                Some(entered_by(v, Door::DungeonEntrance))
            } else {
                None
            },
            Feature::Interior(c) => if bare {
                Some(holding(v, c))
            } else {
                None
            },
            Feature::Obstacle(Obstacle::Door(door)) => if v.entrance is None {
                Some(entered_by(v, door))
            } else {
                None
            },
            Feature::Obstacle(Obstacle::Chasm) => if bare {
                Some(holding(v, Contents::Chasm))
            } else {
                None
            },
            Feature::Obstacle(Obstacle::Mote) => if bare {
                Some(holding(v, Contents::Mote))
            } else {
                None
            },
            Feature::Obstacle(Obstacle::Rubble) => if bare {
                Some(holding(v, Contents::Rubble))
            } else {
                None
            },
            Feature::Obstacle(Obstacle::ArrowChallenge) => if v.entrance is None {
                Some(behind_challenge(v, Contents::ArrowChallenge))
            } else {
                None
            },
            Feature::Obstacle(Obstacle::FireChallenge) => if v.entrance is None {
                Some(behind_challenge(v, Contents::FireChallenge))
            } else {
                None
            },
        }
    }

    fn add_feature(self, feature: Feature) -> (r: Result<Self, (Feature, Self)>) {
        let mut room = self;
        proof {
            room.lemma_exits_view();
        }
        match feature {
            Feature::Interior(Contents::SmallChest(treasure)) if room.entrance.is_none()
                && room.contents.is_none() => {
                room.contents = Some(Contents::SmallChest(treasure));
                proof {
                    room.lemma_exits_view();
                }
                Ok(room)
            },
            Feature::Obstacle(Obstacle::Door(Door::SmallKeyLock)) if room.entrance.is_none() => {
                room.entrance = Some(Door::SmallKeyLock);
                proof {
                    room.lemma_exits_view();
                }
                Ok(room)
            },
            Feature::Obstacle(Obstacle::Door(door)) if room.entrance.is_none() => {
                room.entrance = Some(door);
                proof {
                    room.lemma_exits_view();
                }
                Ok(room)
            },
            Feature::Interior(Contents::SecretChest(treasure)) if room.entrance.is_none()
                && room.contents.is_none() => {
                room.contents = Some(Contents::SecretChest(treasure));
                proof {
                    room.lemma_exits_view();
                }
                Ok(room)
            },
            Feature::Obstacle(Obstacle::Chasm) if room.entrance.is_none() && room.contents.is_none() => {
                room.contents = Some(Contents::Chasm);
                proof {
                    room.lemma_exits_view();
                }
                Ok(room)
            },
            Feature::Obstacle(Obstacle::Mote) if room.entrance.is_none() && room.contents.is_none() => {
                room.contents = Some(Contents::Mote);
                proof {
                    room.lemma_exits_view();
                }
                Ok(room)
            },
            Feature::Obstacle(Obstacle::Rubble) if room.entrance.is_none() && room.contents.is_none() => {
                room.contents = Some(Contents::Rubble);
                proof {
                    room.lemma_exits_view();
                }
                Ok(room)
            },
            Feature::Obstacle(Obstacle::ArrowChallenge) if room.entrance.is_none() => {
                room.entrance = Some(Door::ActivationLock);
                let ghost inner = room@;
                proof {
                    room.lemma_exits_view();
                }
                let r = Tree {
                    entrance: None,
                    contents: Some(Contents::ArrowChallenge),
                    exits: Forest(vec![room]),
                };
                proof {
                    r.lemma_exits_view();
                    assert(r@.exits =~= seq![inner]);
                }
                Ok(r)
            },
            Feature::Obstacle(Obstacle::FireChallenge) if room.entrance.is_none() => {
                room.entrance = Some(Door::ActivationLock);
                let ghost inner = room@;
                proof {
                    room.lemma_exits_view();
                }
                let r = Tree {
                    entrance: None,
                    contents: Some(Contents::FireChallenge),
                    exits: Forest(vec![room]),
                };
                proof {
                    r.lemma_exits_view();
                    assert(r@.exits =~= seq![inner]);
                }
                Ok(r)
            },
            Feature::Entrance if room.entrance.is_none() && room.contents.is_none() => {
                room.entrance = Some(Door::DungeonEntrance);
                proof {
                    room.lemma_exits_view();
                }
                Ok(room)
            },
            Feature::Interior(interior) if room.entrance.is_none() && room.contents.is_none() => {
                room.contents = Some(interior);
                proof {
                    room.lemma_exits_view();
                }
                Ok(room)
            },
            _ => Err((feature, room)),
        }
    }

    fn is_boundary(&self) -> (b: bool) {
        self.entrance.is_some()
    }
}

/// A room without entrance or contents takes every feature.
pub proof fn lemma_bare_room_takes(v: RoomPlan<Door, Contents>, f: Feature)
    requires
        v.entrance is None,
        v.contents is None,
    ensures
        <Tree<Door, Contents> as RoomExt>::spec_add_feature(v, f) is Some,
{
}

/// The name an obstacle goes by: the name of its kind.
pub open spec fn obstacle_name(o: Obstacle) -> Seq<char> {
    match o {
        Obstacle::Chasm => "Chasm"@,
        Obstacle::Mote => "Mote"@,
        Obstacle::Rubble => "Rubble"@,
        Obstacle::ArrowChallenge => "ArrowChallenge"@,
        Obstacle::FireChallenge => "FireChallenge"@,
        Obstacle::Door(_) => "Door"@,
    }
}

/// An obstacle that stands in a room of its own (a chasm, a moat or
/// rubble) fills a bare room with the contents of the same name, and
/// leaves its entrance and exits as they were.
pub proof fn law_obstacle_fills_bare_room(v: RoomPlan<Door, Contents>, o: Obstacle)
    requires
        v.entrance is None,
        v.contents is None,
        o is Chasm || o is Mote || o is Rubble,
    ensures
        <Tree<Door, Contents> as RoomExt>::spec_add_feature(v, Feature::Obstacle(o)) matches Some(w) && w.entrance
            == v.entrance && w.exits == v.exits && (w.contents matches Some(c) && c.spec_describe()
            == obstacle_name(o)),
{
}

/// Two different obstacles that stand in rooms of their own never fill a
/// bare room alike.
pub proof fn law_obstacles_fill_rooms_apart(v: RoomPlan<Door, Contents>, o1: Obstacle, o2: Obstacle)
    requires
        v.entrance is None,
        v.contents is None,
        o1 is Chasm || o1 is Mote || o1 is Rubble,
        o2 is Chasm || o2 is Mote || o2 is Rubble,
        o1 != o2,
    ensures
        <Tree<Door, Contents> as RoomExt>::spec_add_feature(v, Feature::Obstacle(o1))
            != <Tree<Door, Contents> as RoomExt>::spec_add_feature(v, Feature::Obstacle(o2)),
{
    let w1 = <Tree<Door, Contents> as RoomExt>::spec_add_feature(v, Feature::Obstacle(o1));
    let w2 = <Tree<Door, Contents> as RoomExt>::spec_add_feature(v, Feature::Obstacle(o2));
    assert(w1->Some_0.contents != w2->Some_0.contents);
}

/// What a feature makes of a bare room: the contents it names go in, a
/// door becomes its entrance, and the dungeon's entrance becomes the
/// entrance of the first room; the rest of the room stays as it was.
pub proof fn law_features_fill_bare_room(v: RoomPlan<Door, Contents>, c: Contents, d: Door)
    requires
        v.entrance is None,
        v.contents is None,
    ensures
        <Tree<Door, Contents> as RoomExt>::spec_add_feature(v, Feature::Interior(c)) == Some(
            RoomPlan { contents: Some(c), ..v },
        ),
        <Tree<Door, Contents> as RoomExt>::spec_add_feature(v, Feature::Obstacle(Obstacle::Door(d))) == Some(
            RoomPlan { entrance: Some(d), ..v },
        ),
        <Tree<Door, Contents> as RoomExt>::spec_add_feature(v, Feature::Entrance) == Some(
            RoomPlan { entrance: Some(Door::DungeonEntrance), ..v },
        ),
{
}

/// Where each plan of `s` can be turned into rooms, so can all of them.
pub proof fn lemma_built_seq_all(s: Seq<FeaturePlan<Feature>>)
    requires
        forall|i: int| 0 <= i < s.len() ==> (#[trigger] built::<Door, Contents>(s[i])) is Some,
    ensures
        built_seq::<Door, Contents>(s) is Some,
    decreases s.len(),
{
    if s.len() > 0 {
        let init = s.subrange(0, s.len() - 1);
        assert forall|i: int| 0 <= i < init.len() implies (#[trigger] built::<Door, Contents>(init[i])) is Some by {
            assert(init[i] == s[i]);
        }
        lemma_built_seq_all(init);
        assert(built::<Door, Contents>(s[s.len() - 1]) is Some);
    }
}

/// Every plan of dungeon features can be turned into rooms: where a room
/// refuses a feature, the bare room put in front of it takes it.
pub proof fn law_dungeon_plans_build(plan: FeaturePlan<Feature>)
    ensures
        built::<Door, Contents>(plan) is Some,
    decreases plan,
{
    match plan {
        FeaturePlan::Feature(f, next) => {
            law_dungeon_plans_build(*next);
            let p = built::<Door, Contents>(*next).unwrap();
            lemma_bare_room_takes(crate::room::wrapped(p), f);
        },
        FeaturePlan::Branch(nodes) => {
            assert forall|i: int| 0 <= i < nodes@.len() implies (#[trigger] built::<Door, Contents>(nodes@[i])) is Some by {
                assert(decreases_to!(plan => nodes@[i]));
                law_dungeon_plans_build(nodes@[i]);
            }
            lemma_built_seq_all(nodes@);
        },
    }
}

/// The rooms that a plan of dungeon features is turned into.
pub fn rooms_of(feature_plan: FeaturePlan<Feature>) -> (r: Tree<Door, Contents>)
    ensures
        built::<Door, Contents>(feature_plan) == Some(r@),
{
    proof {
        law_dungeon_plans_build(feature_plan);
    }
    Tree::from_feature_plan(feature_plan)
}

} // verus!
