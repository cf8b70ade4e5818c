use crate::room::{
    forest_weights, tree_weights, lemma_pop_tree_weight, lemma_split_weights, spec_pop_tree, spec_split2,
    spec_split3, Forest, RoomExt, RoomPlan, Tree, sum_by, weight_key, exits_key, sort_by_key, split2_fold,
    split3_fold, lemma_sum_by_one, lemma_forest_weight_ge_len, lemma_split2_fold_nonempty,
    lemma_split3_fold_nonempty, lemma_split2_fold_sum, lemma_split3_fold_sum, lemma_sort_by_key_perm,
    lemma_forest_total_sum, forest_acc,
};
use vstd::prelude::*;
use vstd::string::StringExecFns;

verus! {

/// One of the two directions in which a door is kept: to the north of its
/// room, or to the east.
#[derive(Clone, Copy, Debug, PartialEq, Eq, Structural)]
pub enum Dir2 {
    North,
    East,
}

/// A direction on the floor.
#[derive(Clone, Copy, Debug, PartialEq, Eq, Structural)]
pub enum Dir4 {
    North,
    East,
    South,
    West,
}

/// The position of a room: `y` grows to the north, `x` to the east.
#[derive(Clone, Copy, Debug, PartialEq, Eq, Structural)]
pub struct Coord {
    pub x: i8,
    pub y: i8,
}

impl Coord {
    /// The position `(y, x)`.
    pub fn from(yx: (i8, i8)) -> (r: Coord)
        ensures
            r.y == yx.0,
            r.x == yx.1,
    {
        Coord { y: yx.0, x: yx.1 }
    }

    /// The position one step to the north.
    pub fn north(self) -> (r: Self)
        requires
            self.y < 127,
        ensures
            r.x == self.x,
            r.y == self.y + 1,
    {
        Coord { x: self.x, y: self.y + 1 }
    }

    /// The position one step to the south.
    pub fn south(self) -> (r: Self)
        requires
            self.y > -128,
        ensures
            r.x == self.x,
            r.y == self.y - 1,
    {
        Coord { x: self.x, y: self.y - 1 }
    }

    /// The position one step to the east.
    pub fn east(self) -> (r: Self)
        requires
            self.x < 127,
        ensures
            r.x == self.x + 1,
            r.y == self.y,
    {
        Coord { x: self.x + 1, y: self.y }
    }

    /// The position one step to the west.
    pub fn west(self) -> (r: Self)
        requires
            self.x > -128,
        ensures
            r.x == self.x - 1,
            r.y == self.y,
    {
        Coord { x: self.x - 1, y: self.y }
    }
}

/// A door as it is kept: the room to its south or west, and whether it
/// leads north or east from there.
#[derive(Clone, Copy, Debug, PartialEq, Eq, Structural)]
pub struct DoorCoord2 {
    pub coord: Coord,
    pub dir: Dir2,
}

/// A door given by a room and the direction in which it leads.
#[derive(Clone, Copy, Debug, PartialEq, Eq, Structural)]
pub struct DoorCoord4 {
    pub coord: Coord,
    pub dir: Dir4,
}

/// The position one step from `(x, y)` in direction `dir`.
pub open spec fn step4(x: int, y: int, dir: Dir4) -> (int, int) {
    match dir {
        Dir4::North => (x, y + 1),
        Dir4::East => (x + 1, y),
        Dir4::South => (x, y - 1),
        Dir4::West => (x - 1, y),
    }
}

/// The position one step from `(x, y)` in direction `dir`.
pub open spec fn step2(x: int, y: int, dir: Dir2) -> (int, int) {
    match dir {
        Dir2::North => (x, y + 1),
        Dir2::East => (x + 1, y),
    }
}

/// A position as a pair of integers `(x, y)`.
pub open spec fn xy(c: Coord) -> (int, int) {
    (c.x as int, c.y as int)
}

impl DoorCoord2 {
    /// The room on the other side of the door.
    pub fn neighbour(self) -> (r: Coord)
        requires
            self.dir == Dir2::North ==> self.coord.y < 127,
            self.dir == Dir2::East ==> self.coord.x < 127,
        ensures
            xy(r) == step2(self.coord.x as int, self.coord.y as int, self.dir),
    {
        match self.dir {
            Dir2::North => self.coord.north(),
            Dir2::East => self.coord.east(),
        }
    }

    /// The door kept for a door given by a room and a direction: doors to
    /// the south and west are kept from the room on their other side.
    pub fn from(door: DoorCoord4) -> (r: DoorCoord2)
        requires
            door.dir == Dir4::South ==> door.coord.y > -128,
            door.dir == Dir4::West ==> door.coord.x > -128,
        ensures
            r == door2_of(door.coord.x as int, door.coord.y as int, door.dir),
    {
        let DoorCoord4 { coord, dir } = door;
        match dir {
            Dir4::North => DoorCoord2 { coord, dir: Dir2::North },
            Dir4::East => DoorCoord2 { coord, dir: Dir2::East },
            Dir4::South => DoorCoord2 { coord: coord.south(), dir: Dir2::North },
            Dir4::West => DoorCoord2 { coord: coord.west(), dir: Dir2::East },
        }
    }
}

/// The door kept for the door from `(x, y)` in direction `dir`.
pub open spec fn door2_of(x: int, y: int, dir: Dir4) -> DoorCoord2 {
    match dir {
        Dir4::North => DoorCoord2 { coord: Coord { x: x as i8, y: y as i8 }, dir: Dir2::North },
        Dir4::East => DoorCoord2 { coord: Coord { x: x as i8, y: y as i8 }, dir: Dir2::East },
        Dir4::South => DoorCoord2 { coord: Coord { x: x as i8, y: (y - 1) as i8 }, dir: Dir2::North },
        Dir4::West => DoorCoord2 { coord: Coord { x: (x - 1) as i8, y: y as i8 }, dir: Dir2::East },
    }
}

impl DoorCoord4 {
    /// The door from the room `(y, x)` in direction `dir`.
    pub fn from(yxd: (i8, i8, Dir4)) -> (r: DoorCoord4)
        ensures
            r.coord.y == yxd.0,
            r.coord.x == yxd.1,
            r.dir == yxd.2,
    {
        let (y, x, dir) = yxd;
        DoorCoord4 { coord: Coord::from((y, x)), dir }
    }

    /// The room on the other side of the door.
    pub fn neighbour(self) -> (r: Coord)
        requires
            self.dir == Dir4::North ==> self.coord.y < 127,
            self.dir == Dir4::East ==> self.coord.x < 127,
            self.dir == Dir4::South ==> self.coord.y > -128,
            self.dir == Dir4::West ==> self.coord.x > -128,
        ensures
            xy(r) == step4(self.coord.x as int, self.coord.y as int, self.dir),
    {
        match self.dir {
            Dir4::North => self.coord.north(),
            Dir4::East => self.coord.east(),
            Dir4::South => self.coord.south(),
            Dir4::West => self.coord.west(),
        }
    }
}

/// The digit for `d`, below ten.
pub open spec fn digit(d: nat) -> char {
    if d == 0 {
        '0'
    } else if d == 1 {
        '1'
    } else if d == 2 {
        '2'
    } else if d == 3 {
        '3'
    } else if d == 4 {
        '4'
    } else if d == 5 {
        '5'
    } else if d == 6 {
        '6'
    } else if d == 7 {
        '7'
    } else if d == 8 {
        '8'
    } else {
        '9'
    }
}

/// `n` written in decimal digits.
pub open spec fn decimal(n: nat) -> Seq<char>
    decreases n,
{
    if n < 10 {
        seq![digit(n)]
    } else {
        decimal(n / 10).push(digit(n % 10))
    }
}

/// The name of the room at `c` in a drawing of the floor: north or south
/// of the first room's row and how far, then east or west and how far.
pub open spec fn room_name_text(c: Coord) -> Seq<char> {
    let ns = if c.y >= 0 {
        seq!['n'] + decimal(c.y as nat)
    } else {
        seq!['s'] + decimal((-c.y) as nat)
    };
    let ew = if c.x >= 0 {
        seq!['e'] + decimal(c.x as nat)
    } else {
        seq!['w'] + decimal((-c.x) as nat)
    };
    ns + ew
}

/// The text of the digit `d`.
fn digit_text(d: u8) -> (r: &'static str)
    requires
        d < 10,
    ensures
        r@ == seq![digit(d as nat)],
{
    proof {
        reveal_strlit("0");
        reveal_strlit("1");
        reveal_strlit("2");
        reveal_strlit("3");
        reveal_strlit("4");
        reveal_strlit("5");
        reveal_strlit("6");
        reveal_strlit("7");
        reveal_strlit("8");
        reveal_strlit("9");
    }
    match d {
        0 => "0",
        1 => "1",
        2 => "2",
        3 => "3",
        4 => "4",
        5 => "5",
        6 => "6",
        7 => "7",
        8 => "8",
        _ => "9",
    }
}

/// `n` written in decimal digits.
pub fn decimal_text(n: u8) -> (r: String)
    ensures
        r@ == decimal(n as nat),
    decreases n,
{
    if n < 10 {
        String::from_str(digit_text(n))
    } else {
        let mut r = decimal_text(n / 10);
        r.append(digit_text(n % 10));
        r
    }
}

/// The name of the room at `c` in a drawing of the floor.
pub fn room_name(c: Coord) -> (r: String)
    ensures
        r@ == room_name_text(c),
{
    let mut r = if c.y >= 0 {
        let mut t = String::from_str("n");
        t.append(decimal_text(c.y as u8).as_str());
        t
    } else {
        let mut t = String::from_str("s");
        t.append(decimal_text((-(c.y as i16)) as u8).as_str());
        t
    };
    if c.x >= 0 {
        r.append("e");
        r.append(decimal_text(c.x as u8).as_str());
    } else {
        r.append("w");
        r.append(decimal_text((-(c.x as i16)) as u8).as_str());
    }
    proof {
        reveal_strlit("n");
        reveal_strlit("s");
        reveal_strlit("e");
        reveal_strlit("w");
        assert(r@ =~= room_name_text(c));
    }
    r
}

/// `a` comes before `b`: by west-east coordinate, then south-north.
pub open spec fn coord_lt(a: Coord, b: Coord) -> bool {
    a.x < b.x || (a.x == b.x && a.y < b.y)
}

/// `a` comes before `b`: by room, then north before east.
pub open spec fn door_lt(a: DoorCoord2, b: DoorCoord2) -> bool {
    coord_lt(a.coord, b.coord) || (a.coord == b.coord && a.dir == Dir2::North && b.dir == Dir2::East)
}

/// The map from keys to values of a sequence of pairs, later pairs winning.
pub open spec fn map_of<K, V>(s: Seq<(K, V)>) -> Map<K, V>
    decreases s.len(),
{
    if s.len() == 0 {
        Map::empty()
    } else {
        map_of(s.drop_last()).insert(s.last().0, s.last().1)
    }
}

/// The keys of `s` are in strictly ascending order by `lt`.
pub open spec fn sorted_by<K, V>(s: Seq<(K, V)>, lt: spec_fn(K, K) -> bool) -> bool {
    forall|i: int, j: int| 0 <= i < j < s.len() ==> lt(#[trigger] s[i].0, #[trigger] s[j].0)
}

/// The map of a sequence of pairs holds exactly its keys, each with the
/// value of its last pair.
pub proof fn lemma_map_of_dom<K, V>(s: Seq<(K, V)>)
    ensures
        forall|k: K| #[trigger] map_of(s).dom().contains(k) <==> exists|i: int| 0 <= i < s.len() && s[i].0 == k,
        forall|i: int| 0 <= i < s.len() && (forall|j: int| i < j < s.len() ==> s[j].0 != s[i].0)
            ==> #[trigger] map_of(s)[s[i].0] == s[i].1,
    decreases s.len(),
{
    if s.len() > 0 {
        let t = s.drop_last();
        lemma_map_of_dom(t);
        assert forall|k: K| #[trigger] map_of(s).dom().contains(k) <==> exists|i: int| 0 <= i < s.len() && s[i].0 == k by {
            if map_of(s).dom().contains(k) && k != s.last().0 {
                assert(map_of(t).dom().contains(k));
                let i = choose|i: int| 0 <= i < t.len() && t[i].0 == k;
                assert(s[i].0 == k);
            }
            if exists|i: int| 0 <= i < s.len() && s[i].0 == k {
                let i = choose|i: int| 0 <= i < s.len() && s[i].0 == k;
                if i < s.len() - 1 {
                    assert(t[i].0 == k);
                    assert(map_of(t).dom().contains(k));
                }
            }
        }
        assert forall|i: int| 0 <= i < s.len() && (forall|j: int| i < j < s.len() ==> s[j].0 != s[i].0)
            implies #[trigger] map_of(s)[s[i].0] == s[i].1 by {
            if i < s.len() - 1 {
                assert(s[s.len() - 1].0 != s[i].0);
                assert(t[i] == s[i]);
                assert forall|j: int| i < j < t.len() implies t[j].0 != t[i].0 by {
                    assert(t[j] == s[j]);
                }
                assert(map_of(t)[t[i].0] == t[i].1);
                assert(map_of(s) == map_of(t).insert(s.last().0, s.last().1));
            }
        }
    }
}

/// Putting a pair with a new key anywhere into the sequence adds it to the
/// map.
pub proof fn lemma_map_of_insert<K, V>(s: Seq<(K, V)>, p: int, e: (K, V))
    requires
        0 <= p <= s.len(),
        forall|i: int| 0 <= i < s.len() ==> s[i].0 != e.0,
    ensures
        map_of(s.insert(p, e)) == map_of(s).insert(e.0, e.1),
    decreases s.len(),
{
    if p == s.len() {
        assert(s.insert(p, e) =~= s.push(e));
        assert(s.push(e).drop_last() =~= s);
    } else {
        let t = s.drop_last();
        lemma_map_of_insert(t, p, e);
        assert(s.insert(p, e).drop_last() =~= t.insert(p, e));
        assert(s.insert(p, e).last() == s.last());
        assert(s.last().0 != e.0);
        assert(map_of(s.insert(p, e)) =~= map_of(s).insert(e.0, e.1));
    }
}

/// The views of the rooms and their descriptions.
pub open spec fn room_views(v: Seq<(Coord, Option<String>)>) -> Seq<(Coord, Option<Seq<char>>)> {
    v.map_values(|e: (Coord, Option<String>)| (e.0, opt_view(e.1)))
}

/// The views of the doors and their descriptions.
pub open spec fn door_views(v: Seq<(DoorCoord2, String)>) -> Seq<(DoorCoord2, Seq<char>)> {
    v.map_values(|e: (DoorCoord2, String)| (e.0, e.1@))
}

/// The text of an optional description.
pub open spec fn opt_view(o: Option<String>) -> Option<Seq<char>> {
    match o {
        Some(s) => Some(s@),
        None => None,
    }
}

/// The position as a room key, where both coordinates fit.
pub open spec fn coord_at(p: (int, int)) -> Coord {
    Coord { x: p.0 as i8, y: p.1 as i8 }
}

/// Coordinates that fit a room position.
pub open spec fn in_i8(p: (int, int)) -> bool {
    -128 <= p.0 <= 127 && -128 <= p.1 <= 127
}

/// A floor of rooms at positions, and doors between neighbouring rooms.
pub struct FloorPlan {
    rooms: Vec<(Coord, Option<String>)>,
    doors: Vec<(DoorCoord2, String)>,
}

impl FloorPlan {
    /// The rooms of the floor, with their descriptions.
    pub closed spec fn rooms(self) -> Map<Coord, Option<Seq<char>>> {
        map_of(room_views(self.rooms@))
    }

    /// The doors of the floor, with their descriptions.
    pub closed spec fn doors(self) -> Map<DoorCoord2, Seq<char>> {
        map_of(door_views(self.doors@))
    }

    /// The rooms and doors are kept in order, and every door leads between
    /// two rooms of the floor.
    pub closed spec fn wf(self) -> bool {
        &&& sorted_by(room_views(self.rooms@), |a: Coord, b: Coord| coord_lt(a, b))
        &&& sorted_by(door_views(self.doors@), |a: DoorCoord2, b: DoorCoord2| door_lt(a, b))
        &&& forall|d: DoorCoord2| #[trigger]
            self.doors().dom().contains(d) ==> self.rooms().dom().contains(d.coord) && in_i8(
                step2(d.coord.x as int, d.coord.y as int, d.dir),
            ) && self.rooms().dom().contains(coord_at(step2(d.coord.x as int, d.coord.y as int, d.dir)))
    }
}

/// The map of a sequence of pairs has finitely many keys.
proof fn lemma_map_of_finite<K, V>(s: Seq<(K, V)>)
    ensures
        map_of(s).dom().finite(),
    decreases s.len(),
{
    if s.len() > 0 {
        lemma_map_of_finite(s.drop_last());
    }
}

impl FloorPlan {
    /// On a well-formed floor every door joins two rooms of the floor:
    /// `new` makes such a floor, and `add_room` and `add_door` keep it so.
    pub proof fn law_doors_between_rooms(self)
        requires
            self.wf(),
        ensures
            forall|k: DoorCoord2| #[trigger]
                self.doors().dom().contains(k) ==> self.rooms().dom().contains(k.coord) && in_i8(
                    step2(k.coord.x as int, k.coord.y as int, k.dir),
                ) && self.rooms().dom().contains(coord_at(step2(k.coord.x as int, k.coord.y as int, k.dir))),
    {
    }

    /// The floor has finitely many rooms.
    pub proof fn lemma_rooms_finite(self)
        ensures
            self.rooms().dom().finite(),
    {
        lemma_map_of_finite(room_views(self.rooms@));
    }
}

/// The number of rooms of the floor.
pub open spec fn room_count(plan: FloorPlan) -> nat {
    plan.rooms().dom().len()
}

impl FloorPlan {
    /// A floor with no rooms and no doors.
    pub fn new() -> (r: Self)
        ensures
            r.wf(),
            r.rooms() == Map::<Coord, Option<Seq<char>>>::empty(),
            r.doors() == Map::<DoorCoord2, Seq<char>>::empty(),
    {
        let r = FloorPlan { rooms: Vec::new(), doors: Vec::new() };
        proof {
            assert(room_views(r.rooms@) =~= Seq::empty());
            assert(door_views(r.doors@) =~= Seq::empty());
        }
        r
    }

    /// Adds a room at a position where there is none yet.
    pub fn add_room(&mut self, coord: Coord, desc: Option<String>)
        requires
            old(self).wf(),
            !old(self).rooms().dom().contains(coord),
        ensures
            final(self).wf(),
            final(self).rooms() == old(self).rooms().insert(coord, opt_view(desc)),
            final(self).doors() == old(self).doors(),
    {
        let ghost s = room_views(self.rooms@);
        proof {
            lemma_map_of_dom(s);
        }
        let mut p: usize = 0;
        while p < self.rooms.len() && !(coord.x < self.rooms[p].0.x || (coord.x == self.rooms[p].0.x
            && coord.y < self.rooms[p].0.y))
            invariant
                p <= self.rooms@.len(),
                s == room_views(self.rooms@),
                forall|j: int| 0 <= j < p ==> coord_lt(#[trigger] s[j].0, coord),
                !map_of(s).dom().contains(coord),
                forall|k: Coord| #[trigger] map_of(s).dom().contains(k) <==> exists|i: int|
                    0 <= i < s.len() && s[i].0 == k,
            decreases self.rooms@.len() - p,
        {
            proof {
                assert(s[p as int].0 == self.rooms@[p as int].0);
                if s[p as int].0 == coord {
                    assert(map_of(s).dom().contains(coord));
                }
            }
            p = p + 1;
        }
        let ghost e = (coord, opt_view(desc));
        let ghost old_self = *self;
        self.rooms.insert(p, (coord, desc));
        proof {
            assert(room_views(self.rooms@) =~= s.insert(p as int, e));
            assert forall|i: int| 0 <= i < s.len() implies s[i].0 != e.0 by {
                if s[i].0 == e.0 {
                    assert(map_of(s).dom().contains(coord));
                }
            }
            lemma_map_of_insert(s, p as int, e);
            let t = s.insert(p as int, e);
            if p < s.len() {
                assert(s[p as int].0 == self.rooms@[p as int + 1].0);
            }
            assert forall|i: int, j: int| 0 <= i < j < t.len() implies coord_lt(#[trigger] t[i].0, #[trigger] t[j].0) by {
                if p < s.len() {
                    assert(coord_lt(coord, s[p as int].0));
                    if j > p as int && i <= p as int && i + 1 != j {
                        assert(coord_lt(s[p as int].0, s[j - 1].0) || p as int == j - 1);
                    }
                }
            }
            assert(sorted_by(room_views(self.rooms@), |a: Coord, b: Coord| coord_lt(a, b)));
            assert(self.rooms() == old_self.rooms().insert(coord, opt_view(desc)));
            assert(self.doors() == old_self.doors());
            assert forall|d: DoorCoord2| #[trigger]
                self.doors().dom().contains(d) implies self.rooms().dom().contains(d.coord) && in_i8(
                step2(d.coord.x as int, d.coord.y as int, d.dir),
            ) && self.rooms().dom().contains(coord_at(step2(d.coord.x as int, d.coord.y as int, d.dir))) by {
                assert(old_self.doors().dom().contains(d));
            }
        }
    }
}

/// The door kept for a door given by a room and a direction.
pub open spec fn door_key(d: DoorCoord4) -> DoorCoord2 {
    door2_of(d.coord.x as int, d.coord.y as int, d.dir)
}

/// A door that can be added to `plan`: its coordinates fit, the rooms on
/// both sides are there and the door is not.
pub open spec fn door_fits(plan: FloorPlan, door: DoorCoord4) -> bool {
    let k = door_key(door);
    &&& door.dir == Dir4::South ==> door.coord.y > -128
    &&& door.dir == Dir4::West ==> door.coord.x > -128
    &&& plan.rooms().dom().contains(k.coord)
    &&& in_i8(step2(k.coord.x as int, k.coord.y as int, k.dir))
    &&& plan.rooms().dom().contains(coord_at(step2(k.coord.x as int, k.coord.y as int, k.dir)))
    &&& !plan.doors().dom().contains(k)
}

/// `a` comes before `b`.
fn door_less(a: &DoorCoord2, b: &DoorCoord2) -> (r: bool)
    ensures
        r == door_lt(*a, *b),
{
    a.coord.x < b.coord.x || (a.coord.x == b.coord.x && a.coord.y < b.coord.y) || (a.coord.x
        == b.coord.x && a.coord.y == b.coord.y && a.dir == Dir2::North && b.dir == Dir2::East)
}

impl FloorPlan {
    /// Adds a door between two rooms that have none.
    pub fn add_door(&mut self, door_coord4: DoorCoord4, desc: String)
        requires
            old(self).wf(),
            door_fits(*old(self), door_coord4),
        ensures
            final(self).wf(),
            final(self).doors() == old(self).doors().insert(door_key(door_coord4), desc@),
            final(self).rooms() == old(self).rooms(),
    {
        let door = DoorCoord2::from(door_coord4);
        let ghost s = door_views(self.doors@);
        proof {
            lemma_map_of_dom(s);
        }
        let mut p: usize = 0;
        while p < self.doors.len() && !door_less(&door, &self.doors[p].0)
            invariant
                p <= self.doors@.len(),
                s == door_views(self.doors@),
                forall|j: int| 0 <= j < p ==> door_lt(#[trigger] s[j].0, door),
                !map_of(s).dom().contains(door),
                forall|k: DoorCoord2| #[trigger] map_of(s).dom().contains(k) <==> exists|i: int|
                    0 <= i < s.len() && s[i].0 == k,
            decreases self.doors@.len() - p,
        {
            proof {
                assert(s[p as int].0 == self.doors@[p as int].0);
                if s[p as int].0 == door {
                    assert(map_of(s).dom().contains(door));
                }
            }
            p = p + 1;
        }
        let ghost e = (door, desc@);
        let ghost old_self = *self;
        self.doors.insert(p, (door, desc));
        proof {
            assert(door_views(self.doors@) =~= s.insert(p as int, e));
            assert forall|i: int| 0 <= i < s.len() implies s[i].0 != e.0 by {
                if s[i].0 == e.0 {
                    assert(map_of(s).dom().contains(door));
                }
            }
            lemma_map_of_insert(s, p as int, e);
            let t = s.insert(p as int, e);
            if p < s.len() {
                assert(s[p as int].0 == self.doors@[p as int + 1].0);
            }
            assert forall|i: int, j: int| 0 <= i < j < t.len() implies door_lt(#[trigger] t[i].0, #[trigger] t[j].0) by {
                if p < s.len() {
                    assert(door_lt(door, s[p as int].0));
                    if j > p as int && i <= p as int && i + 1 != j {
                        assert(door_lt(s[p as int].0, s[j - 1].0) || p as int == j - 1);
                    }
                }
            }
            assert(sorted_by(door_views(self.doors@), |a: DoorCoord2, b: DoorCoord2| door_lt(a, b)));
            assert(self.rooms() == old_self.rooms());
            assert forall|d: DoorCoord2| #[trigger]
                self.doors().dom().contains(d) implies self.rooms().dom().contains(d.coord) && in_i8(
                step2(d.coord.x as int, d.coord.y as int, d.dir),
            ) && self.rooms().dom().contains(coord_at(step2(d.coord.x as int, d.coord.y as int, d.dir))) by {
                if d != door {
                    assert(old_self.doors().dom().contains(d));
                }
            }
        }
    }

    /// The rooms, in order of position, with their descriptions.
    pub fn room_entries(&self) -> (r: &Vec<(Coord, Option<String>)>)
        ensures
            map_of(room_views(r@)) == self.rooms(),
            sorted_by(room_views(r@), |a: Coord, b: Coord| coord_lt(a, b)) <== self.wf(),
    {
        &self.rooms
    }

    /// The doors, in order, with their descriptions.
    pub fn door_entries(&self) -> (r: &Vec<(DoorCoord2, String)>)
        ensures
            map_of(door_views(r@)) == self.doors(),
            sorted_by(door_views(r@), |a: DoorCoord2, b: DoorCoord2| door_lt(a, b)) <== self.wf(),
    {
        &self.doors
    }
}

/// A set of directions, iterated in the order north, east, south, west.
#[derive(Clone, Copy, Debug, PartialEq, Eq, Structural)]
pub struct DirSet {
    pub north: bool,
    pub east: bool,
    pub south: bool,
    pub west: bool,
}

impl DirSet {
    /// The empty set.
    pub open spec fn empty() -> DirSet {
        DirSet { north: false, east: false, south: false, west: false }
    }

    /// `d` is in the set.
    pub open spec fn has(self, d: Dir4) -> bool {
        match d {
            Dir4::North => self.north,
            Dir4::East => self.east,
            Dir4::South => self.south,
            Dir4::West => self.west,
        }
    }

    /// The set with `d` added.
    pub open spec fn with(self, d: Dir4) -> DirSet {
        match d {
            Dir4::North => DirSet { north: true, ..self },
            Dir4::East => DirSet { east: true, ..self },
            Dir4::South => DirSet { south: true, ..self },
            Dir4::West => DirSet { west: true, ..self },
        }
    }

    /// The directions of the set, in order.
    pub open spec fn seq(self) -> Seq<Dir4> {
        let a = if self.north { seq![Dir4::North] } else { Seq::empty() };
        let b = if self.east { a.push(Dir4::East) } else { a };
        let c = if self.south { b.push(Dir4::South) } else { b };
        if self.west { c.push(Dir4::West) } else { c }
    }

    /// The directions of the set, in order.
    pub fn to_vec(&self) -> (r: Vec<Dir4>)
        ensures
            r@ == self.seq(),
    {
        let mut r: Vec<Dir4> = Vec::new();
        if self.north {
            r.push(Dir4::North);
        }
        if self.east {
            r.push(Dir4::East);
        }
        if self.south {
            r.push(Dir4::South);
        }
        if self.west {
            r.push(Dir4::West);
        }
        r
    }
}

impl DirSet {
    /// The directions of the set are in it, distinct, and no more than
    /// three where south is not among them.
    pub proof fn lemma_seq(self)
        ensures
            forall|i: int| 0 <= i < self.seq().len() ==> self.has(#[trigger] self.seq()[i]),
            forall|i: int, j: int|
                0 <= i < j < self.seq().len() ==> #[trigger] self.seq()[i] != #[trigger] self.seq()[j],
            forall|dir: Dir4| #[trigger] self.has(dir) ==> self.seq().contains(dir),
            !self.south ==> self.seq().len() <= 3,
            self.seq().len() == 0 ==> self == DirSet::empty(),
    {
        let a = if self.north { seq![Dir4::North] } else { Seq::empty() };
        let b = if self.east { a.push(Dir4::East) } else { a };
        let c = if self.south { b.push(Dir4::South) } else { b };
        assert forall|dir: Dir4| #[trigger] self.has(dir) implies self.seq().contains(dir) by {
            match dir {
                Dir4::North => assert(self.seq()[0] == Dir4::North),
                Dir4::East => assert(b[b.len() - 1] == Dir4::East && self.seq()[b.len() - 1] == Dir4::East),
                Dir4::South => assert(c[c.len() - 1] == Dir4::South && self.seq()[c.len() - 1] == Dir4::South),
                Dir4::West => assert(self.seq()[self.seq().len() - 1] == Dir4::West),
            }
        }
    }
}

/// A ring of cells around the entrance, from position `-depth` to `depth`.
pub struct Level<T> {
    depth: i8,
    cells: Vec<T>,
}

impl<T> Level<T> {
    /// The ring's depth.
    pub closed spec fn spec_depth(self) -> int {
        self.depth as int
    }

    /// The cell at `pos`.
    pub closed spec fn at(self, pos: int) -> T {
        self.cells@[self.depth + pos]
    }

    /// The ring has one cell for each position from `-depth` to `depth`.
    pub closed spec fn wf(self) -> bool {
        self.depth >= 0 && self.cells@.len() == 2 * self.depth + 1
    }

    /// `pos` is a position of the ring, within reach of its `i8` index.
    pub open spec fn holds(self, pos: int) -> bool {
        -self.spec_depth() <= pos <= self.spec_depth() && self.spec_depth() + pos <= 127
    }

    /// Puts `elem` in the cell at `pos`.
    pub fn set(&mut self, pos: i8, elem: T)
        requires
            old(self).wf(),
            old(self).holds(pos as int),
        ensures
            final(self).wf(),
            final(self).spec_depth() == old(self).spec_depth(),
            final(self).at(pos as int) == elem,
            forall|q: int| q != pos && old(self).holds(q) ==> #[trigger] final(self).at(q) == old(self).at(q),
    {
        let i = (self.depth + pos) as usize;
        self.cells.set(i, elem);
    }

    fn get(&self, pos: i8) -> (r: &T)
        requires
            self.wf(),
            self.holds(pos as int),
        ensures
            *r == self.at(pos as int),
    {
        &self.cells[(self.depth + pos) as usize]
    }
}

impl<D, C> Level<Forest<D, C>> {
    /// A ring of the given depth whose cells are all empty.
    pub fn new_forests(depth: i8) -> (r: Self)
        requires
            depth >= 0,
        ensures
            r.wf(),
            r.spec_depth() == depth,
            forall|q: int| r.holds(q) ==> (#[trigger] r.at(q))@.len() == 0,
    {
        let width = 2 * (depth as usize) + 1;
        let mut forests: Vec<Forest<D, C>> = Vec::with_capacity(width);
        let mut i: usize = 0;
        while i < width
            invariant
                i <= width,
                width == 2 * depth + 1,
                forests@.len() == i,
                forall|j: int| 0 <= j < i ==> (#[trigger] forests@[j])@.len() == 0,
            decreases width - i,
        {
            forests.push(Forest::new());
            i = i + 1;
        }
        Level { depth, cells: forests }
    }

    /// The cell at `pos` holds no room.
    pub fn is_empty(&self, pos: i8) -> (r: bool)
        requires
            self.wf(),
            self.holds(pos as int),
        ensures
            r == (self.at(pos as int)@.len() == 0),
    {
        self.get(pos).is_empty()
    }
}

/// The layout work left in the forests of `cells`.
pub open spec fn cells_fm<D, C>(cells: Seq<Forest<D, C>>) -> int where
    Tree<D, C>: RoomExt + View<V = RoomPlan<D, C>>,

    decreases cells.len(),
{
    if cells.len() == 0 {
        0
    } else {
        cells_fm(cells.drop_last()) + fm(cells.last()@)
    }
}

/// Replacing one forest changes the work left by the difference.
proof fn lemma_cells_fm_update<D, C>(cells: Seq<Forest<D, C>>, i: int, f: Forest<D, C>) where
    Tree<D, C>: RoomExt + View<V = RoomPlan<D, C>>,

    requires
        0 <= i < cells.len(),
    ensures
        cells_fm(cells.update(i, f)) == cells_fm(cells) - fm(cells[i]@) + fm(f@),
    decreases cells.len(),
{
    let u = cells.update(i, f);
    if i < cells.len() - 1 {
        lemma_cells_fm_update(cells.drop_last(), i, f);
        assert(u.drop_last() =~= cells.drop_last().update(i, f));
    } else {
        assert(u.drop_last() =~= cells.drop_last());
    }
}

/// The work left is never negative, and at least that of any one forest.
proof fn lemma_cells_fm_ge<D, C>(cells: Seq<Forest<D, C>>, i: int) where
    Tree<D, C>: RoomExt + View<V = RoomPlan<D, C>>,

    requires
        0 <= i < cells.len(),
    ensures
        cells_fm(cells) >= fm(cells[i]@),
        fm(cells[i]@) >= 0,
    decreases cells.len(),
{
    lemma_cells_fm_nonneg(cells.drop_last());
    lemma_rest_fm(cells.last()@);
    lemma_rest_fm(cells[i]@);
    if i < cells.len() - 1 {
        lemma_cells_fm_ge(cells.drop_last(), i);
    }
}

/// The work left is never negative.
proof fn lemma_cells_fm_nonneg<D, C>(cells: Seq<Forest<D, C>>) where
    Tree<D, C>: RoomExt + View<V = RoomPlan<D, C>>,

    ensures
        cells_fm(cells) >= 0,
    decreases cells.len(),
{
    if cells.len() > 0 {
        lemma_cells_fm_nonneg(cells.drop_last());
        lemma_rest_fm(cells.last()@);
    }
}

/// Cells that all hold nothing hold no work.
proof fn lemma_cells_fm_empty<D, C>(cells: Seq<Forest<D, C>>) where
    Tree<D, C>: RoomExt + View<V = RoomPlan<D, C>>,

    requires
        forall|j: int| 0 <= j < cells.len() ==> (#[trigger] cells[j])@.len() == 0,
    ensures
        cells_fm(cells) == 0,
    decreases cells.len(),
{
    if cells.len() > 0 {
        lemma_cells_fm_empty(cells.drop_last());
    }
}

/// The rooms held in the forests of `cells`.
pub open spec fn cells_w<D, C>(cells: Seq<Forest<D, C>>) -> int where
    Tree<D, C>: RoomExt + View<V = RoomPlan<D, C>>,

    decreases cells.len(),
{
    if cells.len() == 0 {
        0
    } else {
        cells_w(cells.drop_last()) + forest_weights(cells.last()@).0
    }
}

/// Replacing one forest changes the rooms held by the difference.
proof fn lemma_cells_w_update<D, C>(cells: Seq<Forest<D, C>>, i: int, f: Forest<D, C>) where
    Tree<D, C>: RoomExt + View<V = RoomPlan<D, C>>,

    requires
        0 <= i < cells.len(),
    ensures
        cells_w(cells.update(i, f)) == cells_w(cells) - forest_weights(cells[i]@).0 + forest_weights(f@).0,
    decreases cells.len(),
{
    let u = cells.update(i, f);
    if i < cells.len() - 1 {
        lemma_cells_w_update(cells.drop_last(), i, f);
        assert(u.drop_last() =~= cells.drop_last().update(i, f));
    } else {
        assert(u.drop_last() =~= cells.drop_last());
    }
}

/// Cells that all hold nothing hold no rooms.
proof fn lemma_cells_w_empty<D, C>(cells: Seq<Forest<D, C>>) where
    Tree<D, C>: RoomExt + View<V = RoomPlan<D, C>>,

    requires
        forall|j: int| 0 <= j < cells.len() ==> (#[trigger] cells[j])@.len() == 0,
    ensures
        cells_w(cells) == 0,
    decreases cells.len(),
{
    if cells.len() > 0 {
        lemma_cells_w_empty(cells.drop_last());
        crate::room::lemma_forest_total_sum(cells.last()@);
    }
}

impl<D, C> Level<Forest<D, C>> where Tree<D, C>: RoomExt + View<V = RoomPlan<D, C>> {
    /// The layout work left in the ring.
    pub closed spec fn level_fm(self) -> int {
        cells_fm(self.cells@)
    }

    /// The rooms held in the ring's forests.
    pub closed spec fn level_w(self) -> int {
        cells_w(self.cells@)
    }

    /// The rooms labelled `s` held in the ring's forests.
    pub closed spec fn level_lc(self, s: Seq<char>) -> int where C: Describe {
        cells_lc(self.cells@, s)
    }

    /// The door labels held in the ring's forests.
    pub closed spec fn level_dc(self, s: Seq<char>) -> int where D: Describe {
        cells_dc(self.cells@, s)
    }

    /// The door labels of the ring are those of its cells, in order.
    pub proof fn lemma_cells_view_dc(self, s: Seq<char>) where D: Describe
        ensures
            self.level_dc(s) == cells_dc(self.cells_view(), s),
    {
    }

    /// Putting a forest in one cell changes a door label's count by the
    /// difference.
    pub proof fn lemma_level_dc_update(self, other: Self, p: int, s: Seq<char>) where D: Describe
        requires
            self.wf(),
            other.wf(),
            other.spec_depth() == self.spec_depth(),
            self.spec_depth() <= 63,
            self.holds(p),
            forall|q: int| #![trigger other.at(q)] q != p && self.holds(q) ==> other.at(q) == self.at(q),
        ensures
            other.level_dc(s) == self.level_dc(s) - forest_door_count(self.at(p)@, s) + forest_door_count(
                other.at(p)@,
                s,
            ),
    {
        let i = self.depth + p;
        assert forall|j: int| 0 <= j < self.cells@.len() implies #[trigger] other.cells@[j] == self.cells@.update(
            i,
            other.at(p),
        )[j] by {
            if j != i {
                assert(other.at(j - self.depth) == self.at(j - self.depth));
            }
        }
        assert(other.cells@ =~= self.cells@.update(i, other.at(p)));
        lemma_cells_dc_update(self.cells@, i, other.at(p), s);
    }

    /// A ring whose cells hold nothing holds no door labels.
    pub proof fn lemma_level_dc_empty(self, s: Seq<char>) where D: Describe
        requires
            self.wf(),
            self.spec_depth() <= 63,
            forall|q: int| self.holds(q) ==> (#[trigger] self.at(q))@.len() == 0,
        ensures
            self.level_dc(s) == 0,
    {
        assert forall|j: int| 0 <= j < self.cells@.len() implies (#[trigger] self.cells@[j])@.len() == 0 by {
            assert(self.at(j - self.depth)@.len() == 0);
        }
        lemma_cells_dc_empty(self.cells@, s);
    }

    /// The labels of the ring are those of its cells, in order.
    pub proof fn lemma_cells_view_lc(self, s: Seq<char>) where C: Describe
        ensures
            self.level_lc(s) == cells_lc(self.cells_view(), s),
    {
    }

    /// Putting a forest in one cell changes a label's count by the
    /// difference.
    pub proof fn lemma_level_lc_update(self, other: Self, p: int, s: Seq<char>) where C: Describe
        requires
            self.wf(),
            other.wf(),
            other.spec_depth() == self.spec_depth(),
            self.spec_depth() <= 63,
            self.holds(p),
            forall|q: int| #![trigger other.at(q)] q != p && self.holds(q) ==> other.at(q) == self.at(q),
        ensures
            other.level_lc(s) == self.level_lc(s) - forest_label_count(self.at(p)@, s) + forest_label_count(
                other.at(p)@,
                s,
            ),
    {
        let i = self.depth + p;
        assert forall|j: int| 0 <= j < self.cells@.len() implies #[trigger] other.cells@[j] == self.cells@.update(
            i,
            other.at(p),
        )[j] by {
            if j != i {
                assert(other.at(j - self.depth) == self.at(j - self.depth));
            }
        }
        assert(other.cells@ =~= self.cells@.update(i, other.at(p)));
        lemma_cells_lc_update(self.cells@, i, other.at(p), s);
    }

    /// A ring whose cells hold nothing holds no labels.
    pub proof fn lemma_level_lc_empty(self, s: Seq<char>) where C: Describe
        requires
            self.wf(),
            self.spec_depth() <= 63,
            forall|q: int| self.holds(q) ==> (#[trigger] self.at(q))@.len() == 0,
        ensures
            self.level_lc(s) == 0,
    {
        assert forall|j: int| 0 <= j < self.cells@.len() implies (#[trigger] self.cells@[j])@.len() == 0 by {
            assert(self.at(j - self.depth)@.len() == 0);
        }
        lemma_cells_lc_empty(self.cells@, s);
    }

    /// Putting a forest in one cell changes the rooms held by the
    /// difference.
    pub proof fn lemma_level_w_update(self, other: Self, p: int)
        requires
            self.wf(),
            other.wf(),
            other.spec_depth() == self.spec_depth(),
            self.spec_depth() <= 63,
            self.holds(p),
            forall|q: int| #![trigger other.at(q)] q != p && self.holds(q) ==> other.at(q) == self.at(q),
        ensures
            other.level_w() == self.level_w() - forest_weights(self.at(p)@).0 + forest_weights(other.at(p)@).0,
    {
        let i = self.depth + p;
        assert forall|j: int| 0 <= j < self.cells@.len() implies #[trigger] other.cells@[j] == self.cells@.update(
            i,
            other.at(p),
        )[j] by {
            if j != i {
                assert(other.at(j - self.depth) == self.at(j - self.depth));
            }
        }
        assert(other.cells@ =~= self.cells@.update(i, other.at(p)));
        lemma_cells_w_update(self.cells@, i, other.at(p));
    }

    /// A ring whose cells hold nothing holds no rooms.
    pub proof fn lemma_level_w_empty(self)
        requires
            self.wf(),
            self.spec_depth() <= 63,
            forall|q: int| self.holds(q) ==> (#[trigger] self.at(q))@.len() == 0,
        ensures
            self.level_w() == 0,
    {
        assert forall|j: int| 0 <= j < self.cells@.len() implies (#[trigger] self.cells@[j])@.len() == 0 by {
            assert(self.at(j - self.depth)@.len() == 0);
        }
        lemma_cells_w_empty(self.cells@);
    }

    /// The forests of the ring, from position `-depth` on.
    pub closed spec fn cells_view(self) -> Seq<Forest<D, C>> {
        self.cells@
    }

    /// The cell at `q` is the forest at `depth + q`.
    pub proof fn lemma_cells_view(self)
        requires
            self.wf(),
        ensures
            self.cells_view().len() == 2 * self.spec_depth() + 1,
            forall|q: int| #![trigger self.at(q)] -self.spec_depth() <= q <= self.spec_depth() ==> self.at(q)
                == self.cells_view()[self.spec_depth() + q],
            self.level_fm() == cells_fm(self.cells_view()),
            self.level_w() == cells_w(self.cells_view()),
    {
    }

    /// Putting a forest in one cell changes the work left by the difference.
    pub proof fn lemma_level_fm_update(self, other: Self, p: int)
        requires
            self.wf(),
            other.wf(),
            other.spec_depth() == self.spec_depth(),
            self.spec_depth() <= 63,
            self.holds(p),
            forall|q: int| #![trigger other.at(q)] q != p && self.holds(q) ==> other.at(q) == self.at(q),
        ensures
            other.level_fm() == self.level_fm() - fm(self.at(p)@) + fm(other.at(p)@),
    {
        let i = self.depth + p;
        assert forall|j: int| 0 <= j < self.cells@.len() implies #[trigger] other.cells@[j] == self.cells@.update(
            i,
            other.at(p),
        )[j] by {
            if j != i {
                assert(other.at(j - self.depth) == self.at(j - self.depth));
            }
        }
        assert(other.cells@ =~= self.cells@.update(i, other.at(p)));
        lemma_cells_fm_update(self.cells@, i, other.at(p));
    }

    /// A ring whose cells hold nothing holds no work.
    pub proof fn lemma_level_fm_empty(self)
        requires
            self.wf(),
            self.spec_depth() <= 63,
            forall|q: int| self.holds(q) ==> (#[trigger] self.at(q))@.len() == 0,
        ensures
            self.level_fm() == 0,
    {
        assert forall|j: int| 0 <= j < self.cells@.len() implies (#[trigger] self.cells@[j])@.len() == 0 by {
            assert(self.at(j - self.depth)@.len() == 0);
        }
        lemma_cells_fm_empty(self.cells@);
    }

    /// The work left in a ring is never negative.
    pub proof fn lemma_level_fm_nonneg(self)
        ensures
            self.level_fm() >= 0,
    {
        lemma_cells_fm_nonneg(self.cells@);
    }

    /// A ring with a filled cell holds some work.
    pub proof fn lemma_level_fm_pos(self, q: int)
        requires
            self.wf(),
            self.holds(q),
            self.at(q)@.len() > 0,
        ensures
            self.level_fm() >= 1,
    {
        lemma_cells_fm_ge(self.cells@, self.depth + q);
        lemma_forest_weight_ge_len(self.at(q)@);
    }
}

/// The score of a cell whose forest holds `total` rooms, `linear` of them on
/// linear paths: a single room scores highest, then a single linear room
/// ahead of others, then forests that are linear throughout.
pub open spec fn spec_score(total: int, linear: int) -> (int, int) {
    if total == 1 {
        (200, 200)
    } else if linear == 1 {
        (200, 100 + total)
    } else if linear == total {
        (100 + linear, 100 + total)
    } else {
        (linear, total)
    }
}

/// `a` is above `b`, comparing the first parts, then the second.
pub open spec fn score_gt(a: (int, int), b: (int, int)) -> bool {
    a.0 > b.0 || (a.0 == b.0 && a.1 > b.1)
}

impl<D, C> Level<Forest<D, C>> where Tree<D, C>: RoomExt + View<V = RoomPlan<D, C>> {
    /// The number of rooms of the cell at `pos`.
    pub fn weight(&self, pos: i8) -> (r: usize)
        requires
            self.wf(),
            self.holds(pos as int),
            forest_weights(self.at(pos as int)@).0 <= usize::MAX,
        ensures
            r == forest_weights(self.at(pos as int)@).0,
    {
        self.get(pos).weight()
    }

    /// The linear weight of the cell at `pos`.
    pub fn linear_weight(&self, pos: i8) -> (r: usize)
        requires
            self.wf(),
            self.holds(pos as int),
            forest_weights(self.at(pos as int)@).0 <= usize::MAX,
        ensures
            r == forest_weights(self.at(pos as int)@).1 + forest_weights(self.at(pos as int)@).2,
    {
        self.get(pos).linear_weight()
    }

    /// How well the cell at `pos` suits being laid out first.
    pub fn score(&self, pos: i8) -> (r: (isize, isize))
        requires
            self.wf(),
            self.holds(pos as int),
            forest_weights(self.at(pos as int)@).0 + 100 <= isize::MAX,
        ensures
            (r.0 as int, r.1 as int) == spec_score(
                forest_weights(self.at(pos as int)@).0 as int,
                (forest_weights(self.at(pos as int)@).1 + forest_weights(self.at(pos as int)@).2) as int,
            ),
    {
        let forest = self.get(pos);
        proof {
            crate::room::lemma_forest_acc_bound(forest@);
        }
        let total_weight = forest.weight() as isize;
        let linear_weight = forest.linear_weight() as isize;
        if total_weight == 1 {
            (200, 200)
        } else if linear_weight == 1 {
            (200, 100 + total_weight)
        } else if linear_weight == total_weight {
            (100 + linear_weight, 100 + total_weight)
        } else {
            (linear_weight, total_weight)
        }
    }
}

impl Level<DirSet> {
    /// A ring of the given depth whose cells hold no direction.
    pub fn new_sets(depth: i8) -> (r: Self)
        requires
            depth >= 0,
        ensures
            r.wf(),
            r.spec_depth() == depth,
            forall|q: int| r.holds(q) ==> #[trigger] r.at(q) == DirSet::empty(),
    {
        let width = 2 * (depth as usize) + 1;
        let mut sets: Vec<DirSet> = Vec::with_capacity(width);
        let mut i: usize = 0;
        while i < width
            invariant
                i <= width,
                width == 2 * depth + 1,
                sets@.len() == i,
                forall|j: int| 0 <= j < i ==> #[trigger] sets@[j] == DirSet::empty(),
            decreases width - i,
        {
            sets.push(DirSet { north: false, east: false, south: false, west: false });
            i = i + 1;
        }
        Level { depth, cells: sets }
    }

    /// Adds `elem` to the set at `pos`.
    pub fn insert(&mut self, pos: i8, elem: Dir4)
        requires
            old(self).wf(),
            old(self).holds(pos as int),
        ensures
            final(self).wf(),
            final(self).spec_depth() == old(self).spec_depth(),
            final(self).at(pos as int) == old(self).at(pos as int).with(elem),
            forall|q: int| q != pos && old(self).holds(q) ==> #[trigger] final(self).at(q) == old(self).at(q),
    {
        let i = (self.depth + pos) as usize;
        let mut set = self.cells[i];
        match elem {
            Dir4::North => set.north = true,
            Dir4::East => set.east = true,
            Dir4::South => set.south = true,
            Dir4::West => set.west = true,
        }
        self.cells.set(i, set);
    }
}

impl DirSet {
    /// The set with `d` added where `cond` holds.
    pub open spec fn with_if(self, d: Dir4, cond: bool) -> DirSet {
        if cond {
            self.with(d)
        } else {
            self
        }
    }
}

/// The cell at `q` holds some room.
pub open spec fn filled<D, C>(level: Level<Forest<D, C>>, q: int) -> bool {
    level.at(q)@.len() > 0
}

/// Every cell from `a` to `b` holds some room.
pub open spec fn filled_between<D, C>(level: Level<Forest<D, C>>, a: int, b: int) -> bool {
    forall|k: int| a <= k <= b ==> filled(level, k)
}

/// The cells from `start` to `end` are positions of both rings, and their
/// forests are small enough to be scored.
pub open spec fn half_ok<D, C>(level: Level<Forest<D, C>>, alloc: Level<DirSet>, start: int, end: int) -> bool where
    Tree<D, C>: RoomExt + View<V = RoomPlan<D, C>>,
{
    &&& level.wf()
    &&& alloc.wf()
    &&& alloc.spec_depth() == level.spec_depth()
    &&& level.holds(start)
    &&& level.holds(end)
    &&& start <= end
    &&& forall|q: int| start <= q <= end ==> forest_weights(#[trigger] level.at(q)@).0 + 100 <= isize::MAX
}

/// Marks the run of filled cells around `b`: cells from `b` leftwards, down
/// to `start`, get `dir_left`, and cells from `b` rightwards, up to `end`,
/// get `dir_right`, as long as they are filled.
fn fill_run<D, C>(
    level: &Level<Forest<D, C>>,
    alloc: &mut Level<DirSet>,
    b: i8,
    start: i8,
    end: i8,
    dir_left: Dir4,
    dir_right: Dir4,
) where Tree<D, C>: RoomExt + View<V = RoomPlan<D, C>>
    requires
        half_ok(*level, *old(alloc), start as int, end as int),
        start <= b <= end,
    ensures
        final(alloc).wf(),
        final(alloc).spec_depth() == old(alloc).spec_depth(),
        forall|q: int| #![trigger final(alloc).at(q)]
            level.holds(q) ==> final(alloc).at(q) == old(alloc).at(q).with_if(
                dir_left,
                start <= q <= b && filled_between(*level, q, b as int),
            ).with_if(dir_right, b <= q <= end && filled_between(*level, b as int, q)),
{
    let ghost a0 = *alloc;
    let mut pos2 = b;
    while pos2 >= start && !level.is_empty(pos2)
        invariant
            half_ok(*level, *alloc, start as int, end as int),
            alloc.spec_depth() == a0.spec_depth(),
            start - 1 <= pos2 <= b,
            start <= b <= end,
            filled_between(*level, pos2 + 1, b as int),
            forall|q: int| #![trigger alloc.at(q)]
                level.holds(q) ==> alloc.at(q) == a0.at(q).with_if(dir_left, pos2 < q <= b),
        decreases pos2 - start + 1,
    {
        alloc.insert(pos2, dir_left);
        pos2 = pos2 - 1;
    }
    let ghost a1 = *alloc;
    proof {
        assert forall|q: int| level.holds(q) implies (pos2 < q <= b <==> (start <= q <= b && filled_between(*level, q, b as int))) by {
            if start <= q <= pos2 && filled_between(*level, q, b as int) {
                assert(filled(*level, pos2 as int));
            }
        }
    }
    let mut pos2 = b;
    while pos2 <= end && !level.is_empty(pos2)
        invariant
            half_ok(*level, *alloc, start as int, end as int),
            alloc.spec_depth() == a0.spec_depth(),
            b <= pos2 <= end + 1,
            start <= b <= end,
            filled_between(*level, b as int, pos2 - 1),
            forall|q: int| #![trigger alloc.at(q)]
                level.holds(q) ==> alloc.at(q) == a1.at(q).with_if(dir_right, b <= q < pos2),
        decreases end - pos2 + 1,
    {
        alloc.insert(pos2, dir_right);
        pos2 = pos2 + 1;
    }
    proof {
        assert forall|q: int| level.holds(q) implies (b <= q < pos2 <==> (b <= q <= end && filled_between(*level, b as int, q))) by {
            if pos2 <= q <= end && filled_between(*level, b as int, q) {
                assert(filled(*level, pos2 as int));
            }
        }
    }
}

/// The score of the cell at `k`.
pub open spec fn cell_score<D, C>(level: Level<Forest<D, C>>, k: int) -> (int, int) where
    Tree<D, C>: RoomExt + View<V = RoomPlan<D, C>>,
{
    let w = forest_weights(level.at(k)@);
    spec_score(w.0 as int, (w.1 + w.2) as int)
}

/// A cell whose forest is one single room scores (200, 200), and so beats
/// every cell whose forest holds from two to ninety-nine rooms: it is the
/// best cell of any run it stands in with such cells.
pub proof fn law_single_room_scores_best<D, C>(level: Level<Forest<D, C>>, a: int, b: int) where
    Tree<D, C>: RoomExt + View<V = RoomPlan<D, C>>,

    requires
        forest_weights(level.at(a)@).0 == 1,
        2 <= forest_weights(level.at(b)@).0 <= 99,
    ensures
        cell_score(level, a) == (200int, 200int),
        score_gt(cell_score(level, a), cell_score(level, b)),
{
    crate::room::lemma_forest_acc_bound(level.at(b)@);
}

/// `k` lies, within `start..=end`, in the run of filled cells around `q`.
pub open spec fn in_run<D, C>(level: Level<Forest<D, C>>, start: int, end: int, q: int, k: int) -> bool {
    start <= k <= end && if k <= q {
        filled_between(level, k, q)
    } else {
        filled_between(level, q, k)
    }
}

/// `b` is the best cell of the run around `q`: the first of its cells
/// whose score no other cell of the run beats.
pub open spec fn is_best<D, C>(level: Level<Forest<D, C>>, start: int, end: int, q: int, b: int) -> bool where
    Tree<D, C>: RoomExt + View<V = RoomPlan<D, C>>,
{
    &&& in_run(level, start, end, q, b)
    &&& forall|k: int|
        #![trigger in_run(level, start, end, q, k)]
        in_run(level, start, end, q, k) ==> !score_gt(cell_score(level, k), cell_score(level, b))
    &&& forall|k: int|
        #![trigger in_run(level, start, end, q, k)]
        in_run(level, start, end, q, k) && k < b ==> score_gt(cell_score(level, b), cell_score(level, k))
}

/// A maximal run of filled cells from `rs` to `hi` is exactly the run
/// around each of its cells.
pub proof fn lemma_run_is<D, C>(level: Level<Forest<D, C>>, start: int, end: int, rs: int, hi: int, q: int)
    requires
        start <= rs <= q <= hi <= end,
        filled_between(level, rs, hi),
        rs == start || !filled(level, rs - 1),
        hi == end || !filled(level, hi + 1),
    ensures
        forall|k: int| #[trigger] in_run(level, start, end, q, k) <==> rs <= k <= hi,
{
    assert forall|k: int| #[trigger] in_run(level, start, end, q, k) <==> rs <= k <= hi by {
        if in_run(level, start, end, q, k) {
            if k < rs {
                assert(filled(level, rs - 1));
            }
            if k > hi {
                assert(filled(level, hi + 1));
            }
        }
    }
}

/// A run has one best cell only.
pub proof fn lemma_best_unique<D, C>(level: Level<Forest<D, C>>, start: int, end: int, q: int, b1: int, b2: int) where
    Tree<D, C>: RoomExt + View<V = RoomPlan<D, C>>,

    requires
        is_best(level, start, end, q, b1),
        is_best(level, start, end, q, b2),
    ensures
        b1 == b2,
{
    if b1 < b2 {
        assert(in_run(level, start, end, q, b1));
    }
    if b2 < b1 {
        assert(in_run(level, start, end, q, b2));
    }
}

/// The directions that `alloc_half` gives the cell at `q`: `dir_left` to
/// the cells of each run up to its best, `dir_right` from its best on.
pub open spec fn half_marked<D, C>(
    level: Level<Forest<D, C>>,
    before: DirSet,
    after: DirSet,
    start: int,
    end: int,
    q: int,
    dir_left: Dir4,
    dir_right: Dir4,
) -> bool where Tree<D, C>: RoomExt + View<V = RoomPlan<D, C>> {
    if filled(level, q) {
        exists|b: int|
            #[trigger] is_best(level, start, end, q, b) && after == before.with_if(dir_left, q <= b).with_if(
                dir_right,
                b <= q,
            )
    } else {
        after == before
    }
}

/// Allocates directions to the cells from `start` to `end`: in each run of
/// filled cells, the cell with the best score, and the cells before it,
/// get `dir_left`; it and the cells after it get `dir_right`. Returns
/// whether any cell of the range is filled.
fn alloc_half<D, C>(
    level: &Level<Forest<D, C>>,
    alloc: &mut Level<DirSet>,
    start: i8,
    end: i8,
    dir_left: Dir4,
    dir_right: Dir4,
) -> (r: bool) where Tree<D, C>: RoomExt + View<V = RoomPlan<D, C>>
    requires
        half_ok(*level, *old(alloc), start as int, end as int),
    ensures
        r == exists|q: int| start <= q <= end && #[trigger] filled(*level, q),
        final(alloc).wf(),
        final(alloc).spec_depth() == old(alloc).spec_depth(),
        forall|q: int| #![trigger final(alloc).at(q)]
            level.holds(q) && !(start <= q <= end) ==> final(alloc).at(q) == old(alloc).at(q),
        forall|q: int| #![trigger final(alloc).at(q)]
            start <= q <= end ==> half_marked(
                *level,
                old(alloc).at(q),
                final(alloc).at(q),
                start as int,
                end as int,
                q,
                dir_left,
                dir_right,
            ),
{
    let ghost a0 = *alloc;
    let mut best: Option<(i8, (isize, isize))> = None;
    let mut seen_non_empty = false;
    let mut pos: i8 = start;
    let ghost mut rs: int = start as int;
    while pos <= end
        invariant
            half_ok(*level, *alloc, start as int, end as int),
            alloc.spec_depth() == a0.spec_depth(),
            start <= pos <= end + 1,
            seen_non_empty == exists|q: int| start <= q < pos && #[trigger] filled(*level, q),
            start <= rs <= pos,
            rs == start || !filled(*level, rs - 1),
            filled_between(*level, rs, pos - 1),
            best is None ==> rs == pos,
            best matches Some((bp, bs)) ==> {
                &&& rs <= bp < pos
                &&& (bs.0 as int, bs.1 as int) == cell_score(*level, bp as int)
                &&& forall|k: int| rs <= k < pos ==> !score_gt(#[trigger] cell_score(*level, k), cell_score(*level, bp as int))
                &&& forall|k: int| rs <= k < bp ==> score_gt(cell_score(*level, bp as int), #[trigger] cell_score(*level, k))
            },
            forall|q: int| #![trigger alloc.at(q)]
                level.holds(q) && !(start <= q < rs) ==> alloc.at(q) == a0.at(q),
            forall|q: int| #![trigger alloc.at(q)]
                start <= q < rs ==> half_marked(
                    *level,
                    a0.at(q),
                    alloc.at(q),
                    start as int,
                    end as int,
                    q,
                    dir_left,
                    dir_right,
                ),
        decreases end - pos + 1,
    {
        if !level.is_empty(pos) {
            seen_non_empty = true;
            assert(filled(*level, pos as int));
            let score = level.score(pos);
            match best {
                Some((bp, bs)) => {
                    if score.0 > bs.0 || (score.0 == bs.0 && score.1 > bs.1) {
                        best = Some((pos, score));
                    }
                },
                None => {
                    best = Some((pos, score));
                },
            }
        } else {
            if let Some((bp, _)) = best {
                let ghost hi = pos - 1;
                let ghost a_before = *alloc;
                fill_run(level, alloc, bp, start, end, dir_left, dir_right);
                proof {
                    assert forall|q: int| #![trigger alloc.at(q)]
                        start <= q < pos implies half_marked(
                        *level,
                        a0.at(q),
                        alloc.at(q),
                        start as int,
                        end as int,
                        q,
                        dir_left,
                        dir_right,
                    ) by {
                        if q >= rs {
                            lemma_run_is(*level, start as int, end as int, rs, hi, q);
                            assert(is_best(*level, start as int, end as int, q, bp as int));
                            assert(a_before.at(q) == a0.at(q));
                            if start <= q && q <= bp && filled_between(*level, q, bp as int) {
                            }
                        } else {
                            assert(a_before.at(q) == alloc.at(q)) by {
                                if start <= q <= bp && filled_between(*level, q, bp as int) {
                                    assert(filled(*level, rs - 1));
                                }
                            }
                        }
                    }
                    assert forall|q: int| #![trigger alloc.at(q)]
                        level.holds(q) && !(start <= q < pos + 1) implies alloc.at(q) == a0.at(q) by {
                        if bp <= q <= end && filled_between(*level, bp as int, q) {
                            assert(filled(*level, pos as int));
                        }
                    }
                }
            }
            best = None;
            proof {
                rs = pos + 1;
                assert(!filled(*level, pos as int));
                if exists|q: int| start <= q < pos + 1 && #[trigger] filled(*level, q) {
                    let q = choose|q: int| start <= q < pos + 1 && #[trigger] filled(*level, q);
                    assert(q < pos);
                }
            }
        }
        pos = pos + 1;
    }
    if let Some((bp, _)) = best {
        let ghost hi = end as int;
        let ghost a_before = *alloc;
        fill_run(level, alloc, bp, start, end, dir_left, dir_right);
        proof {
            assert forall|q: int| #![trigger alloc.at(q)]
                start <= q <= end implies half_marked(
                *level,
                a0.at(q),
                alloc.at(q),
                start as int,
                end as int,
                q,
                dir_left,
                dir_right,
            ) by {
                if q >= rs {
                    lemma_run_is(*level, start as int, end as int, rs, hi, q);
                    assert(is_best(*level, start as int, end as int, q, bp as int));
                    assert(a_before.at(q) == a0.at(q));
                } else {
                    assert(a_before.at(q) == alloc.at(q)) by {
                        if start <= q <= bp && filled_between(*level, q, bp as int) {
                            assert(filled(*level, rs - 1));
                        }
                    }
                }
            }
        }
    }
    seen_non_empty
}

/// A value that can be written on a floor plan.
pub trait Describe {
    /// The text for the value.
    spec fn spec_describe(&self) -> Seq<char>;

    /// The text for the value.
    fn describe(&self) -> (r: String)
        ensures
            r@ == self.spec_describe(),
    ;
}

/// The text for an optional value, or `default` for none.
pub open spec fn label_or<T: Describe>(o: Option<T>, default: Seq<char>) -> Seq<char> {
    match o {
        Some(t) => t.spec_describe(),
        None => default,
    }
}

/// The label a room's cell gets when the room is laid out: its contents,
/// or "Empty".
pub open spec fn room_label<D, C: Describe>(p: RoomPlan<D, C>) -> Seq<char> {
    label_or(p.contents, "Empty"@)
}

/// How many rooms in and behind `p` are labelled `s`.
pub open spec fn tree_label_count<D, C: Describe>(p: RoomPlan<D, C>, s: Seq<char>) -> nat
    decreases p,
{
    (if room_label(p) == s {
        1nat
    } else {
        0nat
    }) + forest_label_count(p.exits, s)
}

/// How many rooms of the forest `f` are labelled `s`.
pub open spec fn forest_label_count<D, C: Describe>(f: Seq<RoomPlan<D, C>>, s: Seq<char>) -> nat
    decreases f,
{
    if f.len() == 0 {
        0
    } else {
        forest_label_count(f.subrange(0, f.len() - 1), s) + tree_label_count(f[f.len() - 1], s)
    }
}

/// The count of a label in a room, as a function.
pub open spec fn label_key<D, C: Describe>(s: Seq<char>) -> spec_fn(RoomPlan<D, C>) -> nat {
    |p: RoomPlan<D, C>| tree_label_count(p, s)
}

/// The count of a label in a forest adds up the counts in its rooms.
pub proof fn lemma_forest_label_sum<D, C: Describe>(f: Seq<RoomPlan<D, C>>, s: Seq<char>)
    ensures
        forest_label_count(f, s) == sum_by(f, label_key(s)),
    decreases f.len(),
{
    if f.len() > 0 {
        lemma_forest_label_sum(f.subrange(0, f.len() - 1), s);
        crate::room::lemma_sum_by_last(f, label_key(s));
        assert(f.drop_last() =~= f.subrange(0, f.len() - 1));
    }
}

/// Taking a room off a forest with `pop_tree` takes that room's label off
/// the forest's labels; a forest that gives none up keeps its labels.
pub proof fn lemma_pop_labels<D: Describe, C: Describe>(f: Seq<RoomPlan<D, C>>, s: Seq<char>) where
    Tree<D, C>: RoomExt + View<V = RoomPlan<D, C>>,

    ensures
        match spec_pop_tree(f) {
            Ok((_, c, rest)) => forest_label_count(f, s) == (if label_or(c, "Empty"@) == s {
                1nat
            } else {
                0nat
            }) + forest_label_count(rest, s),
            Err(sorted) => forest_label_count(f, s) == forest_label_count(sorted, s),
        },
{
    lemma_forest_label_sum(f, s);
    if f.len() == 1 {
        assert(forest_label_count(f.subrange(0, 0), s) == 0);
        assert(forest_label_count(f, s) == tree_label_count(f[0], s));
        assert(tree_label_count(f[0], s) == (if room_label(f[0]) == s {
            1nat
        } else {
            0nat
        }) + forest_label_count(f[0].exits, s));
    } else {
        let t = sort_by_key(f, weight_key());
        lemma_sort_by_key_perm(f, weight_key(), label_key(s));
        lemma_forest_label_sum(t, s);
        if t.len() > 0 {
            lemma_forest_label_sum(t.drop_first(), s);
            lemma_forest_total_sum(t[0].exits);
            lemma_forest_weight_ge_len(t[0].exits);
            assert(sum_by(t, label_key(s)) == label_key(s)(t[0]) + sum_by(t.drop_first(), label_key(s)));
            if tree_weights(t[0]).0 == 1 {
                assert(t[0].exits.len() == 0);
                assert(forest_label_count(t[0].exits, s) == 0);
                assert(tree_label_count(t[0], s) == (if room_label(t[0]) == s {
                    1nat
                } else {
                    0nat
                }) + forest_label_count(t[0].exits, s));
            }
        }
    }
}

/// The parts of a split hold together the labels of the forest.
pub proof fn lemma_split_labels<D, C: Describe>(f: Seq<RoomPlan<D, C>>, s: Seq<char>) where
    Tree<D, C>: RoomExt + View<V = RoomPlan<D, C>>,

    ensures
        forest_label_count(spec_split2(f).0, s) + forest_label_count(spec_split2(f).1, s) == forest_label_count(
            f,
            s,
        ),
        forest_label_count(spec_split3(f).0, s) + forest_label_count(spec_split3(f).1, s) + forest_label_count(
            spec_split3(f).2,
            s,
        ) == forest_label_count(f, s),
{
    let t = sort_by_key(f, exits_key());
    lemma_sort_by_key_perm(f, exits_key(), label_key(s));
    lemma_split2_fold_sum(t, label_key(s));
    lemma_split3_fold_sum(t, label_key(s));
    lemma_forest_label_sum(f, s);
    lemma_forest_label_sum(split2_fold(t).0, s);
    lemma_forest_label_sum(split2_fold(t).1, s);
    lemma_forest_label_sum(split3_fold(t).0, s);
    lemma_forest_label_sum(split3_fold(t).1, s);
    lemma_forest_label_sum(split3_fold(t).2, s);
}

/// How many rooms of the floor are labelled `s`.
pub open spec fn room_label_count(plan: FloorPlan, s: Seq<char>) -> nat {
    plan.rooms().dom().filter(|c: Coord| plan.rooms()[c] == Some(s)).len()
}

/// Putting a new room labelled `v` on the floor adds one to the count of
/// `v` and leaves the other counts.
pub proof fn lemma_room_label_insert(plan: FloorPlan, plan2: FloorPlan, c: Coord, v: Seq<char>, s: Seq<char>)
    requires
        plan2.rooms() == plan.rooms().insert(c, Some(v)),
        !plan.rooms().dom().contains(c),
    ensures
        room_label_count(plan2, s) == room_label_count(plan, s) + (if v == s {
            1nat
        } else {
            0nat
        }),
{
    plan.lemma_rooms_finite();
    let f1 = plan.rooms().dom().filter(|k: Coord| plan.rooms()[k] == Some(s));
    let f2 = plan2.rooms().dom().filter(|k: Coord| plan2.rooms()[k] == Some(s));
    if v == s {
        assert(f2 =~= f1.insert(c));
        assert(!f1.contains(c));
    } else {
        assert(f2 =~= f1);
    }
}

/// The labels held in the forests of `cells`.
pub open spec fn cells_lc<D, C: Describe>(cells: Seq<Forest<D, C>>, s: Seq<char>) -> int
    decreases cells.len(),
{
    if cells.len() == 0 {
        0
    } else {
        cells_lc(cells.drop_last(), s) + forest_label_count(cells.last()@, s)
    }
}

/// Replacing one forest changes a label's count by the difference.
proof fn lemma_cells_lc_update<D, C: Describe>(cells: Seq<Forest<D, C>>, i: int, f: Forest<D, C>, s: Seq<char>)
    requires
        0 <= i < cells.len(),
    ensures
        cells_lc(cells.update(i, f), s) == cells_lc(cells, s) - forest_label_count(cells[i]@, s)
            + forest_label_count(f@, s),
    decreases cells.len(),
{
    let u = cells.update(i, f);
    if i < cells.len() - 1 {
        lemma_cells_lc_update(cells.drop_last(), i, f, s);
        assert(u.drop_last() =~= cells.drop_last().update(i, f));
    } else {
        assert(u.drop_last() =~= cells.drop_last());
    }
}

/// Cells that all hold nothing hold no labels.
proof fn lemma_cells_lc_empty<D, C: Describe>(cells: Seq<Forest<D, C>>, s: Seq<char>)
    requires
        forall|j: int| 0 <= j < cells.len() ==> (#[trigger] cells[j])@.len() == 0,
    ensures
        cells_lc(cells, s) == 0,
    decreases cells.len(),
{
    if cells.len() > 0 {
        lemma_cells_lc_empty(cells.drop_last(), s);
    }
}

/// The label of the door in front of a room when it is laid out: its
/// entrance, or nothing.
pub open spec fn door_label<D: Describe, C>(p: RoomPlan<D, C>) -> Seq<char> {
    label_or(p.entrance, ""@)
}

/// How many rooms in and behind `p` have a door labelled `s` in front.
pub open spec fn tree_door_count<D: Describe, C>(p: RoomPlan<D, C>, s: Seq<char>) -> nat
    decreases p,
{
    one_if(door_label(p) == s) + forest_door_count(p.exits, s)
}

/// How many rooms of the forest `f` have a door labelled `s` in front.
pub open spec fn forest_door_count<D: Describe, C>(f: Seq<RoomPlan<D, C>>, s: Seq<char>) -> nat
    decreases f,
{
    if f.len() == 0 {
        0
    } else {
        forest_door_count(f.subrange(0, f.len() - 1), s) + tree_door_count(f[f.len() - 1], s)
    }
}

/// The count of a door label in a room, as a function.
pub open spec fn entrance_key<D: Describe, C>(s: Seq<char>) -> spec_fn(RoomPlan<D, C>) -> nat {
    |p: RoomPlan<D, C>| tree_door_count(p, s)
}

/// The count of a door label in a forest adds up the counts in its rooms.
pub proof fn lemma_forest_door_sum<D: Describe, C>(f: Seq<RoomPlan<D, C>>, s: Seq<char>)
    ensures
        forest_door_count(f, s) == sum_by(f, entrance_key(s)),
    decreases f.len(),
{
    if f.len() > 0 {
        lemma_forest_door_sum(f.subrange(0, f.len() - 1), s);
        crate::room::lemma_sum_by_last(f, entrance_key(s));
        assert(f.drop_last() =~= f.subrange(0, f.len() - 1));
    }
}

/// Taking a room off a forest with `pop_tree` takes its entrance off the
/// forest's door labels; a forest that gives none up keeps them.
pub proof fn lemma_pop_doors<D: Describe, C: Describe>(f: Seq<RoomPlan<D, C>>, s: Seq<char>) where
    Tree<D, C>: RoomExt + View<V = RoomPlan<D, C>>,

    ensures
        match spec_pop_tree(f) {
            Ok((e, _, rest)) => forest_door_count(f, s) == one_if(label_or(e, ""@) == s) + forest_door_count(rest, s),
            Err(sorted) => forest_door_count(f, s) == forest_door_count(sorted, s),
        },
{
    lemma_forest_door_sum(f, s);
    if f.len() == 1 {
        assert(forest_door_count(f.subrange(0, 0), s) == 0);
        assert(forest_door_count(f, s) == tree_door_count(f[0], s));
        assert(tree_door_count(f[0], s) == one_if(door_label(f[0]) == s) + forest_door_count(f[0].exits, s));
    } else {
        let t = sort_by_key(f, weight_key());
        lemma_sort_by_key_perm(f, weight_key(), entrance_key(s));
        lemma_forest_door_sum(t, s);
        if t.len() > 0 {
            lemma_forest_door_sum(t.drop_first(), s);
            lemma_forest_total_sum(t[0].exits);
            lemma_forest_weight_ge_len(t[0].exits);
            assert(sum_by(t, entrance_key(s)) == entrance_key(s)(t[0]) + sum_by(t.drop_first(), entrance_key(s)));
            if tree_weights(t[0]).0 == 1 {
                assert(t[0].exits.len() == 0);
                assert(forest_door_count(t[0].exits, s) == 0);
                assert(tree_door_count(t[0], s) == one_if(door_label(t[0]) == s) + forest_door_count(
                    t[0].exits,
                    s,
                ));
            }
        }
    }
}

/// The parts of a split hold together the door labels of the forest.
pub proof fn lemma_split_doors<D: Describe, C>(f: Seq<RoomPlan<D, C>>, s: Seq<char>) where
    Tree<D, C>: RoomExt + View<V = RoomPlan<D, C>>,

    ensures
        forest_door_count(spec_split2(f).0, s) + forest_door_count(spec_split2(f).1, s) == forest_door_count(f, s),
        forest_door_count(spec_split3(f).0, s) + forest_door_count(spec_split3(f).1, s) + forest_door_count(
            spec_split3(f).2,
            s,
        ) == forest_door_count(f, s),
{
    let t = sort_by_key(f, exits_key());
    lemma_sort_by_key_perm(f, exits_key(), entrance_key(s));
    lemma_split2_fold_sum(t, entrance_key(s));
    lemma_split3_fold_sum(t, entrance_key(s));
    lemma_forest_door_sum(f, s);
    lemma_forest_door_sum(split2_fold(t).0, s);
    lemma_forest_door_sum(split2_fold(t).1, s);
    lemma_forest_door_sum(split3_fold(t).0, s);
    lemma_forest_door_sum(split3_fold(t).1, s);
    lemma_forest_door_sum(split3_fold(t).2, s);
}

/// How many doors of the floor are labelled `s`.
pub open spec fn door_label_count(plan: FloorPlan, s: Seq<char>) -> nat {
    doors_labelled(plan, s).len()
}

/// The doors of the floor labelled `s`.
pub open spec fn doors_labelled(plan: FloorPlan, s: Seq<char>) -> Set<DoorCoord2> {
    plan.doors().dom().filter(|k: DoorCoord2| plan.doors()[k] == s)
}

/// The map of a floor's doors has finitely many keys.
proof fn lemma_doors_finite(plan: FloorPlan)
    ensures
        plan.doors().dom().finite(),
{
    lemma_map_of_finite(door_views(plan.doors@));
}

/// Putting a new door labelled `v` on the floor adds one to the count of
/// `v` and leaves the other counts.
pub proof fn lemma_door_label_insert(plan: FloorPlan, plan2: FloorPlan, key: DoorCoord2, v: Seq<char>, s: Seq<char>)
    requires
        plan2.doors() == plan.doors().insert(key, v),
        !plan.doors().dom().contains(key),
    ensures
        door_label_count(plan2, s) == door_label_count(plan, s) + one_if(v == s),
{
    lemma_doors_finite(plan);
    let f1 = doors_labelled(plan, s);
    let f2 = doors_labelled(plan2, s);
    assert(f1.finite());
    if v == s {
        assert(f2 =~= f1.insert(key));
        assert(!f1.contains(key));
        assert(f2.len() == f1.len() + 1);
    } else {
        assert(f2 =~= f1);
    }
}

/// The door labels held in the forests of `cells`.
pub open spec fn cells_dc<D: Describe, C>(cells: Seq<Forest<D, C>>, s: Seq<char>) -> int
    decreases cells.len(),
{
    if cells.len() == 0 {
        0
    } else {
        cells_dc(cells.drop_last(), s) + forest_door_count(cells.last()@, s)
    }
}

/// Replacing one forest changes a door label's count by the difference.
proof fn lemma_cells_dc_update<D: Describe, C>(cells: Seq<Forest<D, C>>, i: int, f: Forest<D, C>, s: Seq<char>)
    requires
        0 <= i < cells.len(),
    ensures
        cells_dc(cells.update(i, f), s) == cells_dc(cells, s) - forest_door_count(cells[i]@, s)
            + forest_door_count(f@, s),
    decreases cells.len(),
{
    let u = cells.update(i, f);
    if i < cells.len() - 1 {
        lemma_cells_dc_update(cells.drop_last(), i, f, s);
        assert(u.drop_last() =~= cells.drop_last().update(i, f));
    } else {
        assert(u.drop_last() =~= cells.drop_last());
    }
}

/// Cells that all hold nothing hold no door labels.
proof fn lemma_cells_dc_empty<D: Describe, C>(cells: Seq<Forest<D, C>>, s: Seq<char>)
    requires
        forall|j: int| 0 <= j < cells.len() ==> (#[trigger] cells[j])@.len() == 0,
    ensures
        cells_dc(cells, s) == 0,
    decreases cells.len(),
{
    if cells.len() > 0 {
        lemma_cells_dc_empty(cells.drop_last(), s);
    }
}

/// The text for an optional value, or `default` for none.
fn describe_or<T: Describe>(o: &Option<T>, default: &str) -> (r: String)
    ensures
        r@ == label_or(*o, default@),
{
    match o {
        Some(t) => t.describe(),
        None => default.to_owned(),
    }
}

/// The column that a room reached in direction `dir` stands in, relative
/// to the room it is reached from.
pub open spec fn delta_of(dir: Dir4) -> int {
    match dir {
        Dir4::East => 1,
        Dir4::West => -1,
        _ => 0,
    }
}

/// The room that `assign` puts at the end of a door from `(x, y)` in
/// direction `dir`: the text of the room that leaves the forest, or
/// "Empty" where none can.
pub open spec fn assigned_room<D: Describe, C: Describe>(s: Seq<RoomPlan<D, C>>) -> Seq<char> where
    Tree<D, C>: RoomExt + View<V = RoomPlan<D, C>>,
{
    match spec_pop_tree(s) {
        Ok((_, c, _)) => label_or(c, "Empty"@),
        Err(_) => "Empty"@,
    }
}

/// The text of the door that `assign` puts in front of that room.
pub open spec fn assigned_door<D: Describe, C: Describe>(s: Seq<RoomPlan<D, C>>) -> Seq<char> where
    Tree<D, C>: RoomExt + View<V = RoomPlan<D, C>>,
{
    match spec_pop_tree(s) {
        Ok((e, _, _)) => label_or(e, ""@),
        Err(_) => ""@,
    }
}

/// The rooms that `assign` passes on to the next ring.
pub open spec fn assigned_rest<D, C>(s: Seq<RoomPlan<D, C>>) -> Seq<RoomPlan<D, C>> where
    Tree<D, C>: RoomExt + View<V = RoomPlan<D, C>>,
{
    match spec_pop_tree(s) {
        Ok((_, _, rest)) => rest,
        Err(sorted) => sorted,
    }
}

/// Lays out a forest through the door from the room at `(x, y)` in
/// direction `dir`: a new room is put there, holding the room that leaves
/// the forest (or empty where none can), and the rest of the forest goes
/// to the cell of the next ring beyond it.
fn assign<D: Describe, C: Describe>(
    next_level: &mut Level<Forest<D, C>>,
    forest: Forest<D, C>,
    x: i8,
    y: i8,
    dir: Dir4,
    floor_plan: &mut FloorPlan,
) where Tree<D, C>: RoomExt + View<V = RoomPlan<D, C>>
    requires
        old(next_level).wf(),
        old(floor_plan).wf(),
        forest_weights(forest@).0 <= usize::MAX,
        dir != Dir4::South,
        -127 <= x <= 126,
        -127 <= y <= 126,
        forest@.len() > 0 ==> {
            &&& old(floor_plan).rooms().dom().contains(Coord { x, y })
            &&& !old(floor_plan).rooms().dom().contains(coord_at(step4(x as int, y as int, dir)))
            &&& old(next_level).holds(x + delta_of(dir))
        },
    ensures
        final(next_level).wf(),
        final(floor_plan).wf(),
        final(next_level).spec_depth() == old(next_level).spec_depth(),
        forest@.len() == 0 ==> *final(next_level) == *old(next_level) && *final(floor_plan) == *old(
            floor_plan,
        ),
        forest@.len() > 0 ==> {
            &&& final(floor_plan).rooms() == old(floor_plan).rooms().insert(
                coord_at(step4(x as int, y as int, dir)),
                Some(assigned_room(forest@)),
            )
            &&& final(floor_plan).doors() == old(floor_plan).doors().insert(
                door2_of(x as int, y as int, dir),
                assigned_door(forest@),
            )
            &&& final(next_level).at(x + delta_of(dir))@ == assigned_rest(forest@)
            &&& forall|q: int| #![trigger final(next_level).at(q)]
                q != x + delta_of(dir) && old(next_level).holds(q) ==> final(next_level).at(q)
                    == old(next_level).at(q)
        },
{
    if forest.is_empty() {
        return ;
    }
    let delta: i8 = match dir {
        Dir4::North => 0,
        Dir4::East => 1,
        Dir4::West => -1,
        Dir4::South => {
            proof {
                assert(false);
            }
            0
        },
    };
    let door_coord = DoorCoord4::from((y, x, dir));
    let room_coord = door_coord.neighbour();
    let ghost plan0 = *floor_plan;
    proof {
        reveal_strlit("Empty");
        reveal_strlit("");
        assert(room_coord == coord_at(step4(x as int, y as int, dir)));
        let k = door_key(door_coord);
        if plan0.doors().dom().contains(k) {
            assert(plan0.rooms().dom().contains(k.coord));
            assert(plan0.rooms().dom().contains(coord_at(step2(k.coord.x as int, k.coord.y as int, k.dir))));
        }
    }
    let forest = match forest.pop_tree() {
        Ok((door, contents, forest)) => {
            let door_label = describe_or(&door, "");
            let room_label = describe_or(&contents, "Empty");
            floor_plan.add_room(room_coord, Some(room_label));
            floor_plan.add_door(door_coord, door_label);
            forest
        },
        Err(forest) => {
            floor_plan.add_room(room_coord, Some("Empty".to_owned()));
            floor_plan.add_door(door_coord, "".to_owned());
            forest
        },
    };
    next_level.set(x + delta, forest);
}

/// The absolute value of `c`.
pub open spec fn abs(c: int) -> int {
    if c < 0 {
        -c
    } else {
        c
    }
}

/// The room at column `c` of ring `r`: the rings are the diamonds of
/// rooms at the same number of steps from the first room.
pub open spec fn ring_room(c: int, r: int) -> Coord {
    Coord { x: c as i8, y: (r - abs(c)) as i8 }
}

/// The ring that the room at `c` lies on.
pub open spec fn ring_of(c: Coord) -> int {
    c.y + abs(c.x as int)
}

/// A direction in which a room at column `x` can lead outwards: never
/// south, east only from the eastern half, west only from the western.
pub open spec fn dir_ok(x: int, dir: Dir4) -> bool {
    dir != Dir4::South && (dir == Dir4::East ==> x >= 0) && (dir == Dir4::West ==> x <= 0)
}

/// Leading outwards from the room at column `x` of ring `d` reaches the
/// room at column `x + delta` of ring `d + 1`.
pub proof fn lemma_step_ring(x: int, d: int, dir: Dir4)
    requires
        dir_ok(x, dir),
        0 <= d <= 62,
        -d <= x <= d,
    ensures
        coord_at(step4(x, d - abs(x), dir)) == ring_room(x + delta_of(dir), d + 1),
        -(d + 1) <= x + delta_of(dir) <= d + 1,
        ring_of(ring_room(x + delta_of(dir), d + 1)) == d + 1,
{
}

/// The parts that a cell's forest `s` is split in for `n` directions: the
/// whole forest for one, the parts of `split2` for two, of `split3` for
/// three.
pub open spec fn cell_parts<D, C>(s: Seq<RoomPlan<D, C>>, n: int) -> Seq<Seq<RoomPlan<D, C>>> where
    Tree<D, C>: RoomExt + View<V = RoomPlan<D, C>>,
{
    if n == 1 {
        seq![s]
    } else if n == 2 {
        seq![spec_split2(s).0, spec_split2(s).1]
    } else if n == 3 {
        seq![spec_split3(s).0, spec_split3(s).1, spec_split3(s).2]
    } else {
        Seq::empty()
    }
}

/// How much layout work the rooms of `s` still hold: twice their number,
/// less one, or nothing where there are none. Putting a room in place,
/// or splitting a forest in two, takes at least one off.
pub open spec fn fm<D, C>(s: Seq<RoomPlan<D, C>>) -> int where
    Tree<D, C>: RoomExt + View<V = RoomPlan<D, C>>,
{
    if s.len() == 0 {
        0
    } else {
        2 * forest_weights(s).0 - 1
    }
}

/// One where `pop_tree` takes a room off `s`, else zero.
pub open spec fn pop_gain<D, C>(s: Seq<RoomPlan<D, C>>) -> int where
    Tree<D, C>: RoomExt + View<V = RoomPlan<D, C>>,
{
    if s.len() > 0 && spec_pop_tree(s) is Ok {
        1
    } else {
        0
    }
}

/// The work left in what `assign` passes on of the parts `parts`.
pub open spec fn rests_fm<D, C>(parts: Seq<Seq<RoomPlan<D, C>>>) -> int where
    Tree<D, C>: RoomExt + View<V = RoomPlan<D, C>>,

    decreases parts.len(),
{
    if parts.len() == 0 {
        0
    } else {
        fm(assigned_rest(parts[0])) + rests_fm(parts.drop_first())
    }
}

/// What `assign` passes on holds less work than the part it was given
/// where a room was taken off it, and never more.
pub proof fn lemma_rest_fm<D, C>(s: Seq<RoomPlan<D, C>>) where
    Tree<D, C>: RoomExt + View<V = RoomPlan<D, C>>,

    ensures
        fm(assigned_rest(s)) + pop_gain(s) <= fm(s),
        fm(s) >= 0,
{
    lemma_pop_tree_weight(s);
    lemma_forest_weight_ge_len(s);
    lemma_forest_weight_ge_len(assigned_rest(s));
}

/// The weights and the numbers of rooms of the parts of a split add up to
/// those of the forest, and a split of rooms holds some in each of two
/// parts (or, for one room, in the first part of two).
pub proof fn lemma_split_totals<D, C>(s: Seq<RoomPlan<D, C>>) where
    Tree<D, C>: RoomExt + View<V = RoomPlan<D, C>>,

    ensures
        forest_weights(spec_split2(s).0).0 + forest_weights(spec_split2(s).1).0 == forest_weights(s).0,
        spec_split2(s).0.len() + spec_split2(s).1.len() == s.len(),
        forest_weights(spec_split3(s).0).0 + forest_weights(spec_split3(s).1).0 + forest_weights(spec_split3(s).2).0
            == forest_weights(s).0,
        spec_split3(s).0.len() + spec_split3(s).1.len() + spec_split3(s).2.len() == s.len(),
        s.len() >= 1 ==> spec_split2(s).0.len() > 0,
        s.len() >= 2 ==> spec_split2(s).1.len() > 0,
        s.len() >= 2 ==> (if spec_split3(s).0.len() > 0 { 1int } else { 0 }) + (if spec_split3(s).1.len() > 0 {
            1int
        } else {
            0
        }) + (if spec_split3(s).2.len() > 0 { 1int } else { 0 }) >= 2,
{
    let t = sort_by_key(s, exits_key());
    let one = |x: RoomPlan<D, C>| 1nat;
    lemma_sort_by_key_perm(s, exits_key(), weight_key());
    lemma_sort_by_key_perm(s, exits_key(), one);
    lemma_split2_fold_sum(t, weight_key());
    lemma_split3_fold_sum(t, weight_key());
    lemma_split2_fold_sum(t, one);
    lemma_split3_fold_sum(t, one);
    lemma_split2_fold_nonempty(t);
    lemma_split3_fold_nonempty(t);
    lemma_sum_by_one(t);
    lemma_sum_by_one(split2_fold(t).0);
    lemma_sum_by_one(split2_fold(t).1);
    lemma_sum_by_one(split3_fold(t).0);
    lemma_sum_by_one(split3_fold(t).1);
    lemma_sum_by_one(split3_fold(t).2);
    lemma_forest_total_sum(s);
    lemma_forest_total_sum(split2_fold(t).0);
    lemma_forest_total_sum(split2_fold(t).1);
    lemma_forest_total_sum(split3_fold(t).0);
    lemma_forest_total_sum(split3_fold(t).1);
    lemma_forest_total_sum(split3_fold(t).2);
}

/// The parts that a forest is split in pass on less work than it holds,
/// and at least one less where it is split for two directions or more.
pub proof fn lemma_cell_parts_fm<D, C>(s: Seq<RoomPlan<D, C>>, n: int) where
    Tree<D, C>: RoomExt + View<V = RoomPlan<D, C>>,

    requires
        1 <= n <= 3,
    ensures
        rests_fm(cell_parts(s, n)) + (if n >= 2 && s.len() > 0 { 1int } else { 0 }) <= fm(s),
        n == 1 ==> rests_fm(cell_parts(s, n)) == fm(assigned_rest(s)),
        n == 2 ==> rests_fm(cell_parts(s, n)) == fm(assigned_rest(spec_split2(s).0)) + fm(
            assigned_rest(spec_split2(s).1),
        ),
        n == 3 ==> rests_fm(cell_parts(s, n)) == fm(assigned_rest(spec_split3(s).0)) + fm(
            assigned_rest(spec_split3(s).1),
        ) + fm(assigned_rest(spec_split3(s).2)),
{
    let parts = cell_parts(s, n);
    lemma_split_totals(s);
    lemma_forest_weight_ge_len(s);
    if n == 1 {
        lemma_rest_fm(s);
        assert(parts.drop_first().len() == 0);
        assert(rests_fm(parts) == fm(assigned_rest(s)) + rests_fm(parts.drop_first()));
    } else if n == 2 {
        let (a, b) = spec_split2(s);
        lemma_rest_fm(a);
        lemma_rest_fm(b);
        lemma_forest_weight_ge_len(a);
        lemma_forest_weight_ge_len(b);
        assert(parts.drop_first() =~= seq![b]);
        assert(parts.drop_first().drop_first().len() == 0);
        assert(rests_fm(parts) == fm(assigned_rest(a)) + fm(assigned_rest(b))) by {
            assert(rests_fm(parts.drop_first()) == fm(assigned_rest(b)) + rests_fm(parts.drop_first().drop_first()));
        }
        if s.len() == 1 {
            assert(a.len() == 1 && b.len() == 0);
            assert(spec_pop_tree(a) is Ok);
        }
    } else {
        let (a, b, c) = spec_split3(s);
        lemma_rest_fm(a);
        lemma_rest_fm(b);
        lemma_rest_fm(c);
        lemma_forest_weight_ge_len(a);
        lemma_forest_weight_ge_len(b);
        lemma_forest_weight_ge_len(c);
        assert(parts.drop_first() =~= seq![b, c]);
        assert(parts.drop_first().drop_first() =~= seq![c]);
        assert(parts.drop_first().drop_first().drop_first().len() == 0);
        assert(rests_fm(parts) == fm(assigned_rest(a)) + fm(assigned_rest(b)) + fm(assigned_rest(c))) by {
            assert(rests_fm(parts.drop_first().drop_first()) == fm(assigned_rest(c)) + rests_fm(
                parts.drop_first().drop_first().drop_first(),
            ));
            assert(rests_fm(parts.drop_first()) == fm(assigned_rest(b)) + rests_fm(parts.drop_first().drop_first()));
        }
        if s.len() == 1 {
            if a.len() == 1 {
                assert(spec_pop_tree(a) is Ok);
            } else if b.len() == 1 {
                assert(spec_pop_tree(b) is Ok);
            } else {
                assert(c.len() == 1);
                assert(spec_pop_tree(c) is Ok);
            }
        }
    }
}

/// From `plan`, `next` to `plan2`, `next2`, the part `part` of the forest
/// of the cell at column `x` of ring `d`, at `(x, y)`, went its way `dir`:
/// where it holds rooms, a room and a door were put there as `assign` puts
/// them and the rest went to the cell beyond; else nothing was put there.
#[verifier::opaque]
pub open spec fn places_part<D: Describe, C: Describe>(
    plan: FloorPlan,
    plan2: FloorPlan,
    next: Level<Forest<D, C>>,
    next2: Level<Forest<D, C>>,
    x: int,
    y: int,
    d: int,
    dir: Dir4,
    part: Seq<RoomPlan<D, C>>,
) -> bool where Tree<D, C>: RoomExt + View<V = RoomPlan<D, C>> {
    let c = ring_room(x + delta_of(dir), d + 1);
    let k = door2_of(x, y, dir);
    if part.len() > 0 {
        &&& plan2.rooms().dom().contains(c)
        &&& plan2.rooms()[c] == Some(assigned_room(part))
        &&& plan2.doors().dom().contains(k)
        &&& plan2.doors()[k] == assigned_door(part)
        &&& next2.at(x + delta_of(dir))@ == assigned_rest(part)
    } else {
        &&& !plan2.rooms().dom().contains(c)
        &&& plan2.doors().dom().contains(k) == plan.doors().dom().contains(k)
        &&& next2.at(x + delta_of(dir)) == next.at(x + delta_of(dir))
    }
}

/// From `plan`, `next` to `plan2`, `next2`, `assign` laid out `part` at
/// `(x, y)` in direction `dir`.
#[verifier::opaque]
pub open spec fn assigned<D: Describe, C: Describe>(
    plan: FloorPlan,
    plan2: FloorPlan,
    next: Level<Forest<D, C>>,
    next2: Level<Forest<D, C>>,
    x: int,
    y: int,
    dir: Dir4,
    part: Seq<RoomPlan<D, C>>,
) -> bool where Tree<D, C>: RoomExt + View<V = RoomPlan<D, C>> {
    &&& next2.spec_depth() == next.spec_depth()
    &&& part.len() == 0 ==> next2 == next && plan2 == plan
    &&& part.len() > 0 ==> {
        &&& plan2.rooms() == plan.rooms().insert(coord_at(step4(x, y, dir)), Some(assigned_room(part)))
        &&& plan2.doors() == plan.doors().insert(door2_of(x, y, dir), assigned_door(part))
        &&& next2.at(x + delta_of(dir))@ == assigned_rest(part)
        &&& forall|q: int| #![trigger next2.at(q)]
            q != x + delta_of(dir) && next.holds(q) ==> next2.at(q) == next.at(q)
    }
}

/// A part laid out by `assign`, from a state that had nothing more in
/// that direction than `plan0`, `next0`, is placed as `places_part` says.
proof fn lemma_assign_places<D: Describe, C: Describe>(
    plan0: FloorPlan,
    plan: FloorPlan,
    plan2: FloorPlan,
    next0: Level<Forest<D, C>>,
    next: Level<Forest<D, C>>,
    next2: Level<Forest<D, C>>,
    x: int,
    y: int,
    d: int,
    dir: Dir4,
    part: Seq<RoomPlan<D, C>>,
) where Tree<D, C>: RoomExt + View<V = RoomPlan<D, C>>
    requires
        assigned(plan, plan2, next, next2, x, y, dir, part),
        dir_ok(x, dir),
        0 <= d <= 62,
        -d <= x <= d,
        y == d - abs(x),
        !plan.rooms().dom().contains(ring_room(x + delta_of(dir), d + 1)),
        plan.doors().dom().contains(door2_of(x, y, dir)) == plan0.doors().dom().contains(door2_of(x, y, dir)),
        next.at(x + delta_of(dir)) == next0.at(x + delta_of(dir)),
    ensures
        places_part(plan0, plan2, next0, next2, x, y, d, dir, part),
{
    reveal(assigned);
    reveal(places_part);
    lemma_step_ring(x, d, dir);
}

/// Laying out a part in direction `dir2` leaves what lies in another
/// direction `dir` as it was.
proof fn lemma_assigned_elsewhere<D: Describe, C: Describe>(
    plan: FloorPlan,
    plan2: FloorPlan,
    next: Level<Forest<D, C>>,
    next2: Level<Forest<D, C>>,
    x: int,
    y: int,
    d: int,
    dir: Dir4,
    dir2: Dir4,
    part2: Seq<RoomPlan<D, C>>,
) where Tree<D, C>: RoomExt + View<V = RoomPlan<D, C>>
    requires
        assigned(plan, plan2, next, next2, x, y, dir2, part2),
        dir != dir2,
        dir_ok(x, dir),
        dir_ok(x, dir2),
        0 <= d <= 62,
        -d <= x <= d,
        y == d - abs(x),
        next.holds(x + delta_of(dir)),
    ensures
        plan2.rooms().dom().contains(ring_room(x + delta_of(dir), d + 1)) == plan.rooms().dom().contains(
            ring_room(x + delta_of(dir), d + 1),
        ),
        plan2.doors().dom().contains(door2_of(x, y, dir)) == plan.doors().dom().contains(door2_of(x, y, dir)),
        next2.at(x + delta_of(dir)) == next.at(x + delta_of(dir)),
        next2.holds(x + delta_of(dir)),
{
    reveal(assigned);
    lemma_step_ring(x, d, dir);
    lemma_step_ring(x, d, dir2);
    assert(ring_room(x + delta_of(dir), d + 1) != ring_room(x + delta_of(dir2), d + 1));
    assert(door2_of(x, y, dir) != door2_of(x, y, dir2));
}

/// Laying out a part into an empty cell of the next ring adds what is
/// passed on of it to the work left there.
proof fn lemma_assigned_fm<D: Describe, C: Describe>(
    plan: FloorPlan,
    plan2: FloorPlan,
    next: Level<Forest<D, C>>,
    next2: Level<Forest<D, C>>,
    x: int,
    y: int,
    dir: Dir4,
    part: Seq<RoomPlan<D, C>>,
) where Tree<D, C>: RoomExt + View<V = RoomPlan<D, C>>
    requires
        assigned(plan, plan2, next, next2, x, y, dir, part),
        next.wf(),
        next2.wf(),
        next.spec_depth() <= 63,
        next.holds(x + delta_of(dir)),
        next.at(x + delta_of(dir))@.len() == 0,
    ensures
        next2.level_fm() == next.level_fm() + fm(assigned_rest(part)),
{
    reveal(assigned);
    lemma_pop_tree_weight(part);
    if part.len() > 0 {
        next.lemma_level_fm_update(next2, x + delta_of(dir));
    }
}

/// Laying out a part into an empty cell of the next ring adds a room for
/// every room that leaves the forests: the rooms of the floor and of the
/// next ring together grow by at least the rooms of the part.
proof fn lemma_assigned_rooms<D: Describe, C: Describe>(
    plan: FloorPlan,
    plan2: FloorPlan,
    next: Level<Forest<D, C>>,
    next2: Level<Forest<D, C>>,
    x: int,
    y: int,
    d: int,
    dir: Dir4,
    part: Seq<RoomPlan<D, C>>,
) where Tree<D, C>: RoomExt + View<V = RoomPlan<D, C>>
    requires
        assigned(plan, plan2, next, next2, x, y, dir, part),
        next.wf(),
        next2.wf(),
        next.spec_depth() <= 63,
        next.holds(x + delta_of(dir)),
        next.at(x + delta_of(dir))@.len() == 0,
        dir_ok(x, dir),
        0 <= d <= 62,
        -d <= x <= d,
        y == d - abs(x),
        !plan.rooms().dom().contains(ring_room(x + delta_of(dir), d + 1)),
    ensures
        room_count(plan2) + next2.level_w() >= room_count(plan) + next.level_w() + forest_weights(part).0,
{
    reveal(assigned);
    lemma_pop_tree_weight(part);
    lemma_step_ring(x, d, dir);
    plan.lemma_rooms_finite();
    crate::room::lemma_forest_total_sum(next.at(x + delta_of(dir))@);
    crate::room::lemma_forest_total_sum(part);
    if part.len() > 0 {
        next.lemma_level_w_update(next2, x + delta_of(dir));
        assert(plan2.rooms().dom() =~= plan.rooms().dom().insert(ring_room(x + delta_of(dir), d + 1)));
    }
}

/// `part` holds rooms, none of which comes off on its own: `assign`
/// puts an empty corridor room in front of it.
pub open spec fn corridor<D, C>(part: Seq<RoomPlan<D, C>>) -> bool where
    Tree<D, C>: RoomExt + View<V = RoomPlan<D, C>>,
{
    part.len() > 0 && spec_pop_tree(part) is Err
}

/// One for `true`, zero for `false`.
pub open spec fn one_if(b: bool) -> nat {
    if b {
        1
    } else {
        0
    }
}

/// Laying out a part into an empty cell of the next ring keeps every
/// label of its rooms, on the floor or in the next ring, and adds an
/// "Empty" room where it puts a corridor.
proof fn lemma_assigned_labels<D: Describe, C: Describe>(
    plan: FloorPlan,
    plan2: FloorPlan,
    next: Level<Forest<D, C>>,
    next2: Level<Forest<D, C>>,
    x: int,
    y: int,
    d: int,
    dir: Dir4,
    part: Seq<RoomPlan<D, C>>,
    s: Seq<char>,
) where Tree<D, C>: RoomExt + View<V = RoomPlan<D, C>>
    requires
        assigned(plan, plan2, next, next2, x, y, dir, part),
        next.wf(),
        next2.wf(),
        next.spec_depth() <= 63,
        next.holds(x + delta_of(dir)),
        next.at(x + delta_of(dir))@.len() == 0,
        dir_ok(x, dir),
        0 <= d <= 62,
        -d <= x <= d,
        y == d - abs(x),
        !plan.rooms().dom().contains(ring_room(x + delta_of(dir), d + 1)),
    ensures
        room_label_count(plan2, s) + next2.level_lc(s) == room_label_count(plan, s) + next.level_lc(s)
            + forest_label_count(part, s) + one_if(corridor(part) && s == "Empty"@),
{
    reveal(assigned);
    lemma_step_ring(x, d, dir);
    lemma_pop_labels(part, s);
    lemma_pop_tree_weight(part);
    assert(forest_label_count(next.at(x + delta_of(dir))@, s) == 0);
    if part.len() > 0 {
        next.lemma_level_lc_update(next2, x + delta_of(dir), s);
        lemma_room_label_insert(plan, plan2, ring_room(x + delta_of(dir), d + 1), assigned_room(part), s);
    } else {
        assert(forest_label_count(part, s) == 0);
    }
}

/// Laying out a part into an empty cell of the next ring keeps the
/// entrance of every room of it, on a door of the floor or in the next
/// ring, and adds an unlabelled door where it puts a corridor.
proof fn lemma_assigned_doors<D: Describe, C: Describe>(
    plan: FloorPlan,
    plan2: FloorPlan,
    next: Level<Forest<D, C>>,
    next2: Level<Forest<D, C>>,
    x: int,
    y: int,
    d: int,
    dir: Dir4,
    part: Seq<RoomPlan<D, C>>,
    s: Seq<char>,
) where Tree<D, C>: RoomExt + View<V = RoomPlan<D, C>>
    requires
        assigned(plan, plan2, next, next2, x, y, dir, part),
        plan.wf(),
        next.wf(),
        next2.wf(),
        next.spec_depth() <= 63,
        next.holds(x + delta_of(dir)),
        next.at(x + delta_of(dir))@.len() == 0,
        dir_ok(x, dir),
        0 <= d <= 62,
        -d <= x <= d,
        y == d - abs(x),
        !plan.rooms().dom().contains(ring_room(x + delta_of(dir), d + 1)),
    ensures
        door_label_count(plan2, s) + next2.level_dc(s) == door_label_count(plan, s) + next.level_dc(s)
            + forest_door_count(part, s) + one_if(corridor(part) && s == ""@),
{
    reveal(assigned);
    lemma_step_ring(x, d, dir);
    lemma_pop_doors(part, s);
    lemma_pop_tree_weight(part);
    assert(forest_door_count(next.at(x + delta_of(dir))@, s) == 0);
    if part.len() > 0 {
        next.lemma_level_dc_update(next2, x + delta_of(dir), s);
        let k = door2_of(x, y, dir);
        if plan.doors().dom().contains(k) {
            assert(plan.rooms().dom().contains(k.coord));
            assert(plan.rooms().dom().contains(coord_at(step2(k.coord.x as int, k.coord.y as int, k.dir))));
            assert(false);
        }
        lemma_door_label_insert(plan, plan2, k, assigned_door(part), s);
    } else {
        assert(forest_door_count(part, s) == 0);
    }
}

/// A part placed in one direction stays placed when another part is laid
/// out in another direction.
proof fn lemma_places_kept<D: Describe, C: Describe>(
    plan0: FloorPlan,
    plan: FloorPlan,
    plan2: FloorPlan,
    next0: Level<Forest<D, C>>,
    next: Level<Forest<D, C>>,
    next2: Level<Forest<D, C>>,
    x: int,
    y: int,
    d: int,
    dir: Dir4,
    part: Seq<RoomPlan<D, C>>,
    dir2: Dir4,
    part2: Seq<RoomPlan<D, C>>,
) where Tree<D, C>: RoomExt + View<V = RoomPlan<D, C>>
    requires
        places_part(plan0, plan, next0, next, x, y, d, dir, part),
        assigned(plan, plan2, next, next2, x, y, dir2, part2),
        dir != dir2,
        dir_ok(x, dir),
        dir_ok(x, dir2),
        0 <= d <= 62,
        -d <= x <= d,
        y == d - abs(x),
        next.holds(x + delta_of(dir)),
    ensures
        places_part(plan0, plan2, next0, next2, x, y, d, dir, part),
{
    reveal(assigned);
    reveal(places_part);
    lemma_step_ring(x, d, dir);
    lemma_step_ring(x, d, dir2);
    assert(ring_room(x + delta_of(dir), d + 1) != ring_room(x + delta_of(dir2), d + 1));
    assert(door2_of(x, y, dir) != door2_of(x, y, dir2));
}

/// What `assign` did, seen on the rooms, the doors and the next ring's
/// view, is what `seffect` says.
proof fn lemma_assigned_effect<D: Describe, C: Describe>(
    plan: FloorPlan,
    plan2: FloorPlan,
    next: Level<Forest<D, C>>,
    next2: Level<Forest<D, C>>,
    x: int,
    y: int,
    dir: Dir4,
    part: Seq<RoomPlan<D, C>>,
) where Tree<D, C>: RoomExt + View<V = RoomPlan<D, C>>
    requires
        assigned(plan, plan2, next, next2, x, y, dir, part),
        next.wf(),
        next2.wf(),
        next.spec_depth() <= 63,
        next.holds(x + delta_of(dir)),
    ensures
        (plan2.rooms(), plan2.doors(), next2.rooms_view()) == seffect(
            (plan.rooms(), plan.doors(), next.rooms_view()),
            x,
            y,
            next.spec_depth() - 1,
            dir,
            part,
        ),
{
    reveal(assigned);
    if part.len() > 0 {
        let i0 = next.spec_depth() + x + delta_of(dir);
        let v = next.rooms_view().update(i0, assigned_rest(part));
        assert forall|i: int| 0 <= i < v.len() implies #[trigger] next2.rooms_view()[i] == v[i] by {
            let q = i - next.spec_depth();
            assert(next2.at(q) == next2.cells@[i]);
            assert(next.at(q) == next.cells@[i]);
            if i != i0 {
                assert(next.holds(q));
            }
        }
        assert(next2.rooms_view() =~= v);
    }
}

/// Lays out the forest of the cell at column `x` of ring `d` through the
/// directions the cell was allocated: split in as many parts as there are
/// directions, each part going its way.
#[verifier::spinoff_prover]
#[verifier::rlimit(100)]
fn place_cell<D: Describe, C: Describe>(
    next_level: &mut Level<Forest<D, C>>,
    forest: Forest<D, C>,
    x: i8,
    y: i8,
    d: i8,
    set: DirSet,
    floor_plan: &mut FloorPlan,
    Ghost(w): Ghost<nat>,
) -> (corridors: Ghost<nat>) where Tree<D, C>: RoomExt + View<V = RoomPlan<D, C>>
    requires
        old(floor_plan).wf(),
        old(next_level).wf(),
        old(next_level).spec_depth() == d + 1,
        0 <= d <= 62,
        -d <= x <= d,
        y == d - abs(x as int),
        forest_weights(forest@).0 <= w,
        w + 100 <= isize::MAX,
        !set.south,
        set.east ==> x >= 0,
        set.west ==> x <= 0,
        forest@.len() > 0 ==> old(floor_plan).rooms().dom().contains(Coord { x, y }),
        forall|dir: Dir4|
            #![trigger set.has(dir)]
            set.has(dir) ==> !old(floor_plan).rooms().dom().contains(ring_room(x + delta_of(dir), d + 1))
                && old(next_level).at(x + delta_of(dir))@.len() == 0,
    ensures
        final(floor_plan).wf(),
        final(next_level).wf(),
        final(next_level).spec_depth() == d + 1,
        forall|c: Coord| #[trigger]
            old(floor_plan).rooms().dom().contains(c) ==> final(floor_plan).rooms().dom().contains(c)
                && final(floor_plan).rooms()[c] == old(floor_plan).rooms()[c],
        forall|k: DoorCoord2| #[trigger]
            old(floor_plan).doors().dom().contains(k) ==> final(floor_plan).doors().dom().contains(k)
                && final(floor_plan).doors()[k] == old(floor_plan).doors()[k],
        forall|c: Coord| #[trigger]
            final(floor_plan).rooms().dom().contains(c) ==> old(floor_plan).rooms().dom().contains(c)
                || exists|dir: Dir4| #[trigger] set.has(dir) && c == ring_room(x + delta_of(dir), d + 1),
        forall|q: int| #![trigger final(next_level).at(q)]
            old(next_level).holds(q) && (forall|dir: Dir4| #[trigger] set.has(dir) ==> q != x + delta_of(dir))
                ==> final(next_level).at(q) == old(next_level).at(q),
        forall|dir: Dir4| #![trigger set.has(dir)]
            set.has(dir) ==> forest_weights(final(next_level).at(x + delta_of(dir))@).0 <= w
                && (final(next_level).at(x + delta_of(dir))@.len() > 0 ==> final(floor_plan).rooms().dom().contains(
                ring_room(x + delta_of(dir), d + 1),
            )),
        forall|i: int|
            0 <= i < set.seq().len() ==> #[trigger] places_part(
                *old(floor_plan),
                *final(floor_plan),
                *old(next_level),
                *final(next_level),
                x as int,
                y as int,
                d as int,
                set.seq()[i],
                cell_parts(forest@, set.seq().len() as int)[i],
            ),
        forall|k: DoorCoord2| #[trigger]
            final(floor_plan).doors().dom().contains(k) ==> old(floor_plan).doors().dom().contains(k)
                || exists|dir: Dir4| #[trigger] set.has(dir) && k == door2_of(x as int, y as int, dir),
        final(next_level).level_fm() + (if set.seq().len() >= 2 && forest@.len() > 0 { 1int } else { 0 })
            <= old(next_level).level_fm() + fm(forest@),
        labelled(*old(floor_plan)) ==> labelled(*final(floor_plan)),
        room_count(*final(floor_plan)) + final(next_level).level_w() >= room_count(*old(floor_plan)) + old(
            next_level,
        ).level_w() + (if set.seq().len() > 0 { forest_weights(forest@).0 as int } else { 0 }),
        forall|s: Seq<char>|
            #[trigger] room_label_count(*final(floor_plan), s) + final(next_level).level_lc(s)
                == room_label_count(*old(floor_plan), s) + old(next_level).level_lc(s) + (if set.seq().len() > 0 {
                forest_label_count(forest@, s) as int
            } else {
                0
            }) + one_if(s == "Empty"@) * corridors@,
        forall|s: Seq<char>|
            #[trigger] door_label_count(*final(floor_plan), s) + final(next_level).level_dc(s)
                == door_label_count(*old(floor_plan), s) + old(next_level).level_dc(s) + (if set.seq().len() > 0 {
                forest_door_count(forest@, s) as int
            } else {
                0
            }) + one_if(s == ""@) * corridors@,
        (final(floor_plan).rooms(), final(floor_plan).doors(), final(next_level).rooms_view()) == splace(
            (old(floor_plan).rooms(), old(floor_plan).doors(), old(next_level).rooms_view()),
            x as int,
            y as int,
            d as int,
            set,
            forest@,
        ),
{
    let dirs = set.to_vec();
    let ghost s = forest@;
    proof {
        set.lemma_seq();
        if s.len() == 0 {
            assert(spec_split2(s).0.len() == 0);
            assert(spec_split2(s).1.len() == 0);
            assert(spec_split3(s).0.len() == 0);
            assert(spec_split3(s).1.len() == 0);
            assert(spec_split3(s).2.len() == 0);
        }
        lemma_split_weights(s);
        lemma_pop_tree_weight(s);
    }
    let ghost p0 = *floor_plan;
    let ghost n0 = *next_level;
    let ghost mut added: nat = 0;
    let ghost xi = x as int;
    let ghost yi = y as int;
    let ghost di = d as int;
    if dirs.len() == 0 {
        proof {
            assert forall|c: Coord| #[trigger] floor_plan.rooms().dom().contains(c) implies old(floor_plan).rooms().dom().contains(c) || exists|dir: Dir4| #[trigger] set.has(dir) && c == ring_room(x + delta_of(dir), d + 1) by {}
            lemma_rest_fm(s);
            assert(forall|t: Seq<char>|
                #[trigger] room_label_count(*floor_plan, t) + next_level.level_lc(t) == room_label_count(p0, t)
                    + n0.level_lc(t) + one_if(t == "Empty"@) * added);
            assert(forall|t: Seq<char>|
                #[trigger] door_label_count(*floor_plan, t) + next_level.level_dc(t) == door_label_count(p0, t)
                    + n0.level_dc(t) + one_if(t == ""@) * added);
        }
    } else if dirs.len() == 1 {
        let dir1 = dirs[0];
        proof {
            lemma_step_ring(x as int, d as int, dir1);
            lemma_pop_tree_weight(s);
        }
        assign(next_level, forest, x, y, dir1, floor_plan);
        proof {
            assert(set.has(dir1));
            let p1 = *floor_plan;
            let n1 = *next_level;
            assert(assigned(p0, p1, n0, n1, xi, yi, dir1, s)) by {
                reveal(assigned);
            }
            lemma_assign_places(p0, p0, p1, n0, n0, n1, xi, yi, di, dir1, s);
            assert(cell_parts(s, 1)[0] == s);
            lemma_assigned_effect(p0, p1, n0, n1, xi, yi, dir1, s);
            lemma_assigned_fm(p0, p1, n0, n1, xi, yi, dir1, s);
            lemma_cell_parts_fm(s, 1);
            if labelled(p0) {
                lemma_assigned_labelled(p0, p1, n0, n1, xi, yi, dir1, s);
            }
            lemma_assigned_rooms(p0, p1, n0, n1, xi, yi, di, dir1, s);
            added = one_if(corridor(s));
            assert forall|t: Seq<char>|
                #[trigger] room_label_count(p1, t) + n1.level_lc(t) == room_label_count(p0, t) + n0.level_lc(t)
                    + forest_label_count(s, t) + one_if(t == "Empty"@) * added by {
                lemma_assigned_labels(p0, p1, n0, n1, xi, yi, di, dir1, s, t);
            }
            assert forall|t: Seq<char>|
                #[trigger] door_label_count(p1, t) + n1.level_dc(t) == door_label_count(p0, t) + n0.level_dc(t)
                    + forest_door_count(s, t) + one_if(t == ""@) * added by {
                lemma_assigned_doors(p0, p1, n0, n1, xi, yi, di, dir1, s, t);
            }
            assert forall|k: DoorCoord2| #[trigger] p1.doors().dom().contains(k) implies p0.doors().dom().contains(k)
                || exists|dir: Dir4| #[trigger] set.has(dir) && k == door2_of(xi, yi, dir) by {
                reveal(assigned);
            }
        }
    } else if dirs.len() == 2 {
        let dir1 = dirs[0];
        let dir2 = dirs[1];
        let (forest1, forest2) = forest.split2();
        proof {
            lemma_step_ring(x as int, d as int, dir1);
            lemma_step_ring(x as int, d as int, dir2);
            lemma_pop_tree_weight(forest1@);
            lemma_pop_tree_weight(forest2@);
            assert(set.has(dir1));
            assert(set.has(dir2));
            assert(dir1 != dir2);
        }
        assign(next_level, forest1, x, y, dir1, floor_plan);
        let ghost p1 = *floor_plan;
        let ghost n1 = *next_level;
        assign(next_level, forest2, x, y, dir2, floor_plan);
        proof {
            let p2 = *floor_plan;
            let n2 = *next_level;
            assert(assigned(p0, p1, n0, n1, xi, yi, dir1, forest1@)) by {
                reveal(assigned);
            }
            assert(assigned(p1, p2, n1, n2, xi, yi, dir2, forest2@)) by {
                reveal(assigned);
            }
            lemma_assign_places(p0, p0, p1, n0, n0, n1, xi, yi, di, dir1, forest1@);
            lemma_assigned_elsewhere(p1, p2, n1, n2, xi, yi, di, dir1, dir2, forest2@);
            lemma_places_kept(p0, p1, p2, n0, n1, n2, xi, yi, di, dir1, forest1@, dir2, forest2@);
            lemma_assigned_elsewhere(p0, p1, n0, n1, xi, yi, di, dir2, dir1, forest1@);
            lemma_assign_places(p0, p1, p2, n0, n1, n2, xi, yi, di, dir2, forest2@);
            assert(cell_parts(s, 2)[0] == forest1@);
            assert(cell_parts(s, 2)[1] == forest2@);
            lemma_assigned_effect(p0, p1, n0, n1, xi, yi, dir1, forest1@);
            lemma_assigned_effect(p1, p2, n1, n2, xi, yi, dir2, forest2@);
            lemma_assigned_fm(p0, p1, n0, n1, xi, yi, dir1, forest1@);
            lemma_assigned_fm(p1, p2, n1, n2, xi, yi, dir2, forest2@);
            lemma_cell_parts_fm(s, 2);
            if labelled(p0) {
                lemma_assigned_labelled(p0, p1, n0, n1, xi, yi, dir1, forest1@);
                lemma_assigned_labelled(p1, p2, n1, n2, xi, yi, dir2, forest2@);
            }
            lemma_split_totals(s);
            lemma_assigned_rooms(p0, p1, n0, n1, xi, yi, di, dir1, forest1@);
            lemma_assigned_rooms(p1, p2, n1, n2, xi, yi, di, dir2, forest2@);
            added = one_if(corridor(forest1@)) + one_if(corridor(forest2@));
            assert forall|t: Seq<char>|
                #[trigger] room_label_count(p2, t) + n2.level_lc(t) == room_label_count(p0, t) + n0.level_lc(t)
                    + forest_label_count(s, t) + one_if(t == "Empty"@) * added by {
                lemma_assigned_labels(p0, p1, n0, n1, xi, yi, di, dir1, forest1@, t);
                lemma_assigned_labels(p1, p2, n1, n2, xi, yi, di, dir2, forest2@, t);
                lemma_split_labels(s, t);
            }
            assert forall|t: Seq<char>|
                #[trigger] door_label_count(p2, t) + n2.level_dc(t) == door_label_count(p0, t) + n0.level_dc(t)
                    + forest_door_count(s, t) + one_if(t == ""@) * added by {
                lemma_assigned_doors(p0, p1, n0, n1, xi, yi, di, dir1, forest1@, t);
                lemma_assigned_doors(p1, p2, n1, n2, xi, yi, di, dir2, forest2@, t);
                lemma_split_doors(s, t);
            }
            assert forall|k: DoorCoord2| #[trigger] p2.doors().dom().contains(k) implies p0.doors().dom().contains(k)
                || exists|dir: Dir4| #[trigger] set.has(dir) && k == door2_of(xi, yi, dir) by {
                reveal(assigned);
            }
        }
    } else {
        proof {
            assert(dirs.len() == 3);
        }
        let dir1 = dirs[0];
        let dir2 = dirs[1];
        let dir3 = dirs[2];
        let (forest1, forest2, forest3) = forest.split3();
        proof {
            lemma_step_ring(x as int, d as int, dir1);
            lemma_step_ring(x as int, d as int, dir2);
            lemma_step_ring(x as int, d as int, dir3);
            lemma_pop_tree_weight(forest1@);
            lemma_pop_tree_weight(forest2@);
            lemma_pop_tree_weight(forest3@);
            assert(set.has(dir1));
            assert(set.has(dir2));
            assert(set.has(dir3));
        }
        assign(next_level, forest1, x, y, dir1, floor_plan);
        let ghost p1 = *floor_plan;
        let ghost n1 = *next_level;
        assign(next_level, forest2, x, y, dir2, floor_plan);
        let ghost p2 = *floor_plan;
        let ghost n2 = *next_level;
        assign(next_level, forest3, x, y, dir3, floor_plan);
        proof {
            let p3 = *floor_plan;
            let n3 = *next_level;
            assert(assigned(p0, p1, n0, n1, xi, yi, dir1, forest1@)) by {
                reveal(assigned);
            }
            assert(assigned(p1, p2, n1, n2, xi, yi, dir2, forest2@)) by {
                reveal(assigned);
            }
            assert(assigned(p2, p3, n2, n3, xi, yi, dir3, forest3@)) by {
                reveal(assigned);
            }
            lemma_assign_places(p0, p0, p1, n0, n0, n1, xi, yi, di, dir1, forest1@);
            lemma_assigned_elsewhere(p1, p2, n1, n2, xi, yi, di, dir1, dir2, forest2@);
            lemma_places_kept(p0, p1, p2, n0, n1, n2, xi, yi, di, dir1, forest1@, dir2, forest2@);
            lemma_places_kept(p0, p2, p3, n0, n2, n3, xi, yi, di, dir1, forest1@, dir3, forest3@);
            lemma_assigned_elsewhere(p0, p1, n0, n1, xi, yi, di, dir2, dir1, forest1@);
            lemma_assign_places(p0, p1, p2, n0, n1, n2, xi, yi, di, dir2, forest2@);
            lemma_assigned_elsewhere(p2, p3, n2, n3, xi, yi, di, dir2, dir3, forest3@);
            lemma_places_kept(p0, p2, p3, n0, n2, n3, xi, yi, di, dir2, forest2@, dir3, forest3@);
            lemma_assigned_elsewhere(p0, p1, n0, n1, xi, yi, di, dir3, dir1, forest1@);
            lemma_assigned_elsewhere(p1, p2, n1, n2, xi, yi, di, dir3, dir2, forest2@);
            lemma_assign_places(p0, p2, p3, n0, n2, n3, xi, yi, di, dir3, forest3@);
            assert(cell_parts(s, 3)[0] == forest1@);
            assert(cell_parts(s, 3)[1] == forest2@);
            assert(cell_parts(s, 3)[2] == forest3@);
            lemma_assigned_effect(p0, p1, n0, n1, xi, yi, dir1, forest1@);
            lemma_assigned_effect(p1, p2, n1, n2, xi, yi, dir2, forest2@);
            lemma_assigned_effect(p2, p3, n2, n3, xi, yi, dir3, forest3@);
            lemma_assigned_fm(p0, p1, n0, n1, xi, yi, dir1, forest1@);
            lemma_assigned_fm(p1, p2, n1, n2, xi, yi, dir2, forest2@);
            lemma_assigned_fm(p2, p3, n2, n3, xi, yi, dir3, forest3@);
            lemma_cell_parts_fm(s, 3);
            if labelled(p0) {
                lemma_assigned_labelled(p0, p1, n0, n1, xi, yi, dir1, forest1@);
                lemma_assigned_labelled(p1, p2, n1, n2, xi, yi, dir2, forest2@);
                lemma_assigned_labelled(p2, p3, n2, n3, xi, yi, dir3, forest3@);
            }
            lemma_split_totals(s);
            lemma_assigned_rooms(p0, p1, n0, n1, xi, yi, di, dir1, forest1@);
            lemma_assigned_rooms(p1, p2, n1, n2, xi, yi, di, dir2, forest2@);
            lemma_assigned_rooms(p2, p3, n2, n3, xi, yi, di, dir3, forest3@);
            added = one_if(corridor(forest1@)) + one_if(corridor(forest2@)) + one_if(corridor(forest3@));
            assert forall|t: Seq<char>|
                #[trigger] room_label_count(p3, t) + n3.level_lc(t) == room_label_count(p0, t) + n0.level_lc(t)
                    + forest_label_count(s, t) + one_if(t == "Empty"@) * added by {
                lemma_assigned_labels(p0, p1, n0, n1, xi, yi, di, dir1, forest1@, t);
                lemma_assigned_labels(p1, p2, n1, n2, xi, yi, di, dir2, forest2@, t);
                lemma_assigned_labels(p2, p3, n2, n3, xi, yi, di, dir3, forest3@, t);
                lemma_split_labels(s, t);
            }
            assert forall|t: Seq<char>|
                #[trigger] door_label_count(p3, t) + n3.level_dc(t) == door_label_count(p0, t) + n0.level_dc(t)
                    + forest_door_count(s, t) + one_if(t == ""@) * added by {
                lemma_assigned_doors(p0, p1, n0, n1, xi, yi, di, dir1, forest1@, t);
                lemma_assigned_doors(p1, p2, n1, n2, xi, yi, di, dir2, forest2@, t);
                lemma_assigned_doors(p2, p3, n2, n3, xi, yi, di, dir3, forest3@, t);
                lemma_split_doors(s, t);
            }
            assert forall|k: DoorCoord2| #[trigger] p3.doors().dom().contains(k) implies p0.doors().dom().contains(k)
                || exists|dir: Dir4| #[trigger] set.has(dir) && k == door2_of(xi, yi, dir) by {
                reveal(assigned);
            }
        }
    }
    Ghost(added)
}

/// The directions allocated to the cells of ring `d` can all be followed
/// at once: none leads south, east only from the eastern half, west only
/// from the western, only filled cells have any, and no two neighbouring
/// cells lead into the same room.
pub open spec fn good_alloc<D, C>(level: Level<Forest<D, C>>, alloc: Level<DirSet>, d: int) -> bool {
    &&& forall|q: int|
        #![trigger alloc.at(q)]
        -d <= q <= d ==> {
            let a = alloc.at(q);
            &&& !a.south
            &&& a.east ==> q >= 0
            &&& a.west ==> q <= 0
            &&& a != DirSet::empty() ==> filled(level, q)
        }
    &&& forall|p: int| -d <= p < 0 ==> !((#[trigger] alloc.at(p)).north && alloc.at(p + 1).west)
    &&& forall|p: int| 0 <= p < d ==> !((#[trigger] alloc.at(p)).east && alloc.at(p + 1).north)
}

/// Two neighbouring filled cells lie in one run, and so share its best
/// cell.
pub proof fn lemma_adjacent_best<D, C>(level: Level<Forest<D, C>>, start: int, end: int, p: int, b1: int, b2: int) where
    Tree<D, C>: RoomExt + View<V = RoomPlan<D, C>>,

    requires
        start <= p < end,
        filled(level, p),
        filled(level, p + 1),
        is_best(level, start, end, p, b1),
        is_best(level, start, end, p + 1, b2),
    ensures
        b1 == b2,
{
    assert forall|k: int| #[trigger] in_run(level, start, end, p, k) <==> in_run(level, start, end, p + 1, k) by {
        if in_run(level, start, end, p, k) && k > p + 1 {
            assert forall|j: int| p + 1 <= j <= k implies filled(level, j) by {
                assert(p <= j <= k);
            }
        }
        if in_run(level, start, end, p + 1, k) && k < p {
            assert forall|j: int| k <= j <= p implies filled(level, j) by {
                assert(k <= j <= p + 1);
            }
        }
    }
    assert(is_best(level, start, end, p, b2));
    lemma_best_unique(level, start, end, p, b1, b2);
}

/// The run around any cell of a run is the run around its best cell, and
/// that cell is the best of its own run.
pub proof fn lemma_best_own<D, C>(level: Level<Forest<D, C>>, start: int, end: int, q: int, b: int) where
    Tree<D, C>: RoomExt + View<V = RoomPlan<D, C>>,

    requires
        is_best(level, start, end, q, b),
    ensures
        is_best(level, start, end, b, b),
{
    assert forall|k: int| #[trigger] in_run(level, start, end, q, k) <==> in_run(level, start, end, b, k) by {
        if in_run(level, start, end, q, k) {
            assert forall|j: int| (if k <= b { k } else { b }) <= j <= (if k <= b { b } else { k }) implies filled(
                level,
                j,
            ) by {
                if (k <= j && j <= q) || (q <= j && j <= k) {
                } else {
                    assert((q <= j && j <= b) || (b <= j && j <= q));
                }
            }
        }
        if in_run(level, start, end, b, k) {
            assert forall|j: int| (if k <= q { k } else { q }) <= j <= (if k <= q { q } else { k }) implies filled(
                level,
                j,
            ) by {
                if (k <= j && j <= b) || (b <= j && j <= k) {
                } else {
                    assert((q <= j && j <= b) || (b <= j && j <= q));
                }
            }
        }
    }
    assert(in_run(level, start, end, b, b)) by {
        assert(in_run(level, start, end, q, b));
        assert forall|j: int| b <= j <= b implies filled(level, j) by {
            assert((q <= j && j <= b) || (b <= j && j <= q));
        }
    }
    assert forall|k: int| #[trigger] in_run(level, start, end, b, k) implies !score_gt(
        cell_score(level, k),
        cell_score(level, b),
    ) by {
        assert(in_run(level, start, end, q, k));
    }
    assert forall|k: int| #[trigger] in_run(level, start, end, b, k) && k < b implies score_gt(
        cell_score(level, b),
        cell_score(level, k),
    ) by {
        assert(in_run(level, start, end, q, k));
    }
}

/// Every filled cell of a ring is allocated a direction at least.
pub proof fn lemma_alloc_covers<D, C>(
    level: Level<Forest<D, C>>,
    a0: Level<DirSet>,
    a1: Level<DirSet>,
    a2: Level<DirSet>,
    d: int,
) where Tree<D, C>: RoomExt + View<V = RoomPlan<D, C>>
    requires
        0 <= d <= 63,
        level.spec_depth() == d,
        a0.spec_depth() == d,
        a1.spec_depth() == d,
        forall|q: int| a0.holds(q) ==> #[trigger] a0.at(q) == DirSet::empty(),
        forall|q: int| #![trigger a1.at(q)] a0.holds(q) && !(-d <= q <= 0) ==> a1.at(q) == a0.at(q),
        forall|q: int| #![trigger a1.at(q)]
            -d <= q <= 0 ==> half_marked(level, a0.at(q), a1.at(q), -d, 0, q, Dir4::West, Dir4::North),
        forall|q: int| #![trigger a2.at(q)] a0.holds(q) && !(0 <= q <= d) ==> a2.at(q) == a1.at(q),
        forall|q: int| #![trigger a2.at(q)]
            0 <= q <= d ==> half_marked(level, a1.at(q), a2.at(q), 0, d, q, Dir4::North, Dir4::East),
    ensures
        forall|q: int| -d <= q <= d && filled(level, q) ==> (#[trigger] a2.at(q)).seq().len() >= 1,
{
    assert forall|q: int| -d <= q <= d && filled(level, q) implies (#[trigger] a2.at(q)).seq().len() >= 1 by {
        assert(a0.holds(q));
        if q <= 0 {
            assert(half_marked(level, a0.at(q), a1.at(q), -d, 0, q, Dir4::West, Dir4::North));
            assert(a1.at(q).west || a1.at(q).north);
            if q == 0 {
                assert(half_marked(level, a1.at(q), a2.at(q), 0, d, q, Dir4::North, Dir4::East));
            } else {
                assert(a2.at(q) == a1.at(q));
            }
            assert(a2.at(q).west || a2.at(q).north);
        } else {
            assert(a1.at(q) == a0.at(q));
            assert(half_marked(level, a1.at(q), a2.at(q), 0, d, q, Dir4::North, Dir4::East));
            assert(a2.at(q).north || a2.at(q).east);
        }
    }
}

/// Where a cell of a ring is filled, some filled cell of it is allocated
/// two directions or more: the best cell of a run.
pub proof fn lemma_alloc_progress<D, C>(
    level: Level<Forest<D, C>>,
    a0: Level<DirSet>,
    a1: Level<DirSet>,
    a2: Level<DirSet>,
    d: int,
    q0: int,
) where Tree<D, C>: RoomExt + View<V = RoomPlan<D, C>>
    requires
        0 <= d <= 63,
        level.spec_depth() == d,
        a0.spec_depth() == d,
        a1.spec_depth() == d,
        forall|q: int| a0.holds(q) ==> #[trigger] a0.at(q) == DirSet::empty(),
        forall|q: int| #![trigger a1.at(q)] a0.holds(q) && !(-d <= q <= 0) ==> a1.at(q) == a0.at(q),
        forall|q: int| #![trigger a1.at(q)]
            -d <= q <= 0 ==> half_marked(level, a0.at(q), a1.at(q), -d, 0, q, Dir4::West, Dir4::North),
        forall|q: int| #![trigger a2.at(q)] a0.holds(q) && !(0 <= q <= d) ==> a2.at(q) == a1.at(q),
        forall|q: int| #![trigger a2.at(q)]
            0 <= q <= d ==> half_marked(level, a1.at(q), a2.at(q), 0, d, q, Dir4::North, Dir4::East),
        -d <= q0 <= d,
        filled(level, q0),
    ensures
        exists|q: int| -d <= q <= d && filled(level, q) && (#[trigger] a2.at(q)).seq().len() >= 2,
{
    if q0 <= 0 {
        assert(half_marked(level, a0.at(q0), a1.at(q0), -d, 0, q0, Dir4::West, Dir4::North));
        let b = choose|b: int| #[trigger] is_best(level, -d, 0, q0, b) && a1.at(q0) == a0.at(q0).with_if(
            Dir4::West,
            q0 <= b,
        ).with_if(Dir4::North, b <= q0);
        lemma_best_own(level, -d, 0, q0, b);
        assert(filled(level, b));
        assert(a0.holds(b));
        assert(half_marked(level, a0.at(b), a1.at(b), -d, 0, b, Dir4::West, Dir4::North));
        let b2 = choose|b2: int| #[trigger] is_best(level, -d, 0, b, b2) && a1.at(b) == a0.at(b).with_if(
            Dir4::West,
            b <= b2,
        ).with_if(Dir4::North, b2 <= b);
        lemma_best_unique(level, -d, 0, b, b, b2);
        assert(a1.at(b).west && a1.at(b).north);
        if b == 0 {
            assert(half_marked(level, a1.at(b), a2.at(b), 0, d, b, Dir4::North, Dir4::East));
        } else {
            assert(a2.at(b) == a1.at(b));
        }
        assert(a2.at(b).west && a2.at(b).north);
        assert(a2.at(b).seq().len() >= 2);
    } else {
        assert(a0.holds(q0));
        assert(half_marked(level, a1.at(q0), a2.at(q0), 0, d, q0, Dir4::North, Dir4::East));
        let b = choose|b: int| #[trigger] is_best(level, 0, d, q0, b) && a2.at(q0) == a1.at(q0).with_if(
            Dir4::North,
            q0 <= b,
        ).with_if(Dir4::East, b <= q0);
        lemma_best_own(level, 0, d, q0, b);
        assert(filled(level, b));
        assert(half_marked(level, a1.at(b), a2.at(b), 0, d, b, Dir4::North, Dir4::East));
        let b2 = choose|b2: int| #[trigger] is_best(level, 0, d, b, b2) && a2.at(b) == a1.at(b).with_if(
            Dir4::North,
            b <= b2,
        ).with_if(Dir4::East, b2 <= b);
        lemma_best_unique(level, 0, d, b, b, b2);
        assert(a2.at(b).north && a2.at(b).east);
        assert(a2.at(b).seq().len() >= 2);
    }
}

/// The directions that the two halves allocate to a ring can all be
/// followed at once.
pub proof fn lemma_good_alloc<D, C>(
    level: Level<Forest<D, C>>,
    a0: Level<DirSet>,
    a1: Level<DirSet>,
    a2: Level<DirSet>,
    d: int,
) where Tree<D, C>: RoomExt + View<V = RoomPlan<D, C>>
    requires
        0 <= d <= 63,
        level.spec_depth() == d,
        a0.spec_depth() == d,
        a1.spec_depth() == d,
        forall|q: int| a0.holds(q) ==> #[trigger] a0.at(q) == DirSet::empty(),
        forall|q: int| #![trigger a1.at(q)] a0.holds(q) && !(-d <= q <= 0) ==> a1.at(q) == a0.at(q),
        forall|q: int| #![trigger a1.at(q)]
            -d <= q <= 0 ==> half_marked(level, a0.at(q), a1.at(q), -d, 0, q, Dir4::West, Dir4::North),
        forall|q: int| #![trigger a2.at(q)] a0.holds(q) && !(0 <= q <= d) ==> a2.at(q) == a1.at(q),
        forall|q: int| #![trigger a2.at(q)]
            0 <= q <= d ==> half_marked(level, a1.at(q), a2.at(q), 0, d, q, Dir4::North, Dir4::East),
    ensures
        good_alloc(level, a2, d),
{
    assert forall|q: int| #![trigger a2.at(q)] -d <= q <= d implies {
        let a = a2.at(q);
        &&& !a.south
        &&& a.east ==> q >= 0
        &&& a.west ==> q <= 0
        &&& a != DirSet::empty() ==> filled(level, q)
    } by {
        assert(a0.holds(q));
        if -d <= q <= 0 {
            assert(half_marked(level, a0.at(q), a1.at(q), -d, 0, q, Dir4::West, Dir4::North));
        } else {
            assert(a1.at(q) == a0.at(q));
        }
        if 0 <= q <= d {
            assert(half_marked(level, a1.at(q), a2.at(q), 0, d, q, Dir4::North, Dir4::East));
        } else {
            assert(a2.at(q) == a1.at(q));
        }
    }
    assert forall|p: int| -d <= p < 0 implies !((#[trigger] a2.at(p)).north && a2.at(p + 1).west) by {
        assert(a0.holds(p));
        assert(a0.holds(p + 1));
        assert(a2.at(p) == a1.at(p));
        assert(half_marked(level, a0.at(p), a1.at(p), -d, 0, p, Dir4::West, Dir4::North));
        assert(half_marked(level, a0.at(p + 1), a1.at(p + 1), -d, 0, p + 1, Dir4::West, Dir4::North));
        if p + 1 == 0 {
            assert(half_marked(level, a1.at(0), a2.at(0), 0, d, 0, Dir4::North, Dir4::East));
        } else {
            assert(a2.at(p + 1) == a1.at(p + 1));
        }
        if a2.at(p).north && a2.at(p + 1).west {
            assert(filled(level, p));
            assert(filled(level, p + 1));
            let b1 = choose|b: int| #[trigger] is_best(level, -d, 0, p, b) && a1.at(p) == a0.at(p).with_if(Dir4::West, p <= b).with_if(Dir4::North, b <= p);
            let b2 = choose|b: int| #[trigger] is_best(level, -d, 0, p + 1, b) && a1.at(p + 1) == a0.at(p + 1).with_if(Dir4::West, p + 1 <= b).with_if(Dir4::North, b <= p + 1);
            lemma_adjacent_best(level, -d, 0, p, b1, b2);
        }
    }
    assert forall|p: int| 0 <= p < d implies !((#[trigger] a2.at(p)).east && a2.at(p + 1).north) by {
        assert(a0.holds(p));
        assert(a0.holds(p + 1));
        assert(a1.at(p + 1) == a0.at(p + 1));
        assert(half_marked(level, a1.at(p), a2.at(p), 0, d, p, Dir4::North, Dir4::East));
        assert(half_marked(level, a1.at(p + 1), a2.at(p + 1), 0, d, p + 1, Dir4::North, Dir4::East));
        if p == 0 {
            assert(half_marked(level, a0.at(0), a1.at(0), -d, 0, 0, Dir4::West, Dir4::North));
        } else {
            assert(a1.at(p) == a0.at(p));
        }
        if a2.at(p).east && a2.at(p + 1).north {
            assert(filled(level, p));
            assert(filled(level, p + 1));
            let b1 = choose|b: int| #[trigger] is_best(level, 0, d, p, b) && a2.at(p) == a1.at(p).with_if(Dir4::North, p <= b).with_if(Dir4::East, b <= p);
            let b2 = choose|b: int| #[trigger] is_best(level, 0, d, p + 1, b) && a2.at(p + 1) == a1.at(p + 1).with_if(Dir4::North, p + 1 <= b).with_if(Dir4::East, b <= p + 1);
            lemma_adjacent_best(level, 0, d, p, b1, b2);
        }
    }
}

/// Under a good allocation, two different cells and directions never lead
/// into the same room of the next ring.
pub proof fn lemma_targets_distinct<D, C>(
    level: Level<Forest<D, C>>,
    alloc: Level<DirSet>,
    d: int,
    q1: int,
    dir1: Dir4,
    q2: int,
    dir2: Dir4,
)
    requires
        good_alloc(level, alloc, d),
        -d <= q1 <= d,
        -d <= q2 <= d,
        alloc.at(q1).has(dir1),
        alloc.at(q2).has(dir2),
        q1 != q2 || dir1 != dir2,
    ensures
        q1 + delta_of(dir1) != q2 + delta_of(dir2),
{
    let a1 = alloc.at(q1);
    let a2 = alloc.at(q2);
    if q1 + delta_of(dir1) == q2 + delta_of(dir2) {
        if q1 + 1 == q2 {
            assert(alloc.at(q1 + 1) == a2);
        }
        if q2 + 1 == q1 {
            assert(alloc.at(q2 + 1) == a1);
        }
    }
}

/// The door in front of the first room, from the room south of it.
pub open spec fn entrance_door() -> DoorCoord2 {
    DoorCoord2 { coord: Coord { x: 0i8, y: -1i8 }, dir: Dir2::North }
}

/// `plan` is a well-formed floor plan that starts as a plan laid out from
/// `tree` does: an unlabelled outside room south of the first room, the
/// first room labelled by `tree`'s contents, the door between them labelled
/// by `tree`'s entrance, and every room within ring 63.
pub open spec fn lays_out<D: Describe, C: Describe>(tree: Tree<D, C>, plan: FloorPlan) -> bool where
    Tree<D, C>: RoomExt + View<V = RoomPlan<D, C>>,
{
    &&& plan.wf()
    &&& plan.rooms().dom().contains(Coord { x: 0i8, y: -1i8 })
    &&& plan.rooms()[Coord { x: 0i8, y: -1i8 }] == None::<Seq<char>>
    &&& plan.rooms().dom().contains(Coord { x: 0i8, y: 0i8 })
    &&& plan.rooms()[Coord { x: 0i8, y: 0i8 }] == match tree.contents {
        Some(c) => Some(c.spec_describe()),
        None => None,
    }
    &&& plan.doors().dom().contains(entrance_door())
    &&& plan.doors()[entrance_door()] == label_or(tree.entrance, ""@)
    &&& forall|c: Coord| #[trigger] plan.rooms().dom().contains(c) ==> -1 <= ring_of(c) <= 63
    &&& labelled(plan)
    &&& room_count(plan) >= forest_weights(tree@.exits).0 + 2
    &&& exists|corridors: nat| #[trigger] layout_labels(tree, plan, corridors)
    &&& forall|k: DoorCoord2| #[trigger]
        plan.doors().dom().contains(k) ==> plan.rooms().dom().contains(k.coord) && in_i8(
            step2(k.coord.x as int, k.coord.y as int, k.dir),
        ) && plan.rooms().dom().contains(coord_at(step2(k.coord.x as int, k.coord.y as int, k.dir)))
    &&& tree.exits@.len() == 0 ==> {
        &&& plan.rooms() == Map::<Coord, Option<Seq<char>>>::empty().insert(
            Coord { x: 0i8, y: -1i8 },
            None,
        ).insert(
            Coord { x: 0i8, y: 0i8 },
            match tree.contents {
                Some(c) => Some(c.spec_describe()),
                None => None,
            },
        )
        &&& plan.doors() == Map::<DoorCoord2, Seq<char>>::empty().insert(
            entrance_door(),
            label_or(tree.entrance, ""@),
        )
    }
}

/// How many times the first room of `tree` carries the label `s`.
pub open spec fn first_label_count<D, C: Describe>(tree: Tree<D, C>, s: Seq<char>) -> nat {
    match tree.contents {
        Some(c) => one_if(c.spec_describe() == s),
        None => 0,
    }
}

/// For every label, the rooms of `plan` carrying it are the first room
/// where it carries it, the rooms of the tree behind it whose contents
/// (or "Empty", for no contents) it names, and, for "Empty", `corridors`
/// corridor rooms more.
pub open spec fn labels_match<D, C: Describe>(tree: Tree<D, C>, plan: FloorPlan, corridors: nat) -> bool where
    Tree<D, C>: View<V = RoomPlan<D, C>>,
{
    forall|s: Seq<char>|
        #[trigger] room_label_count(plan, s) == first_label_count(tree, s) + forest_label_count(tree@.exits, s)
            + one_if(s == "Empty"@) * corridors
}

/// For every label, the doors of `plan` carrying it are the entrance
/// door where the first room's entrance is so labelled (or unlabelled),
/// one door in front of each room of the tree behind it whose entrance
/// (or "", for none) it names, and, for "", `corridors` doors more, in
/// front of the corridor rooms.
pub open spec fn doors_match<D: Describe, C>(tree: Tree<D, C>, plan: FloorPlan, corridors: nat) -> bool where
    Tree<D, C>: View<V = RoomPlan<D, C>>,
{
    forall|s: Seq<char>|
        #[trigger] door_label_count(plan, s) == one_if(label_or(tree.entrance, ""@) == s) + forest_door_count(
            tree@.exits,
            s,
        ) + one_if(s == ""@) * corridors
}

/// The rooms and doors of `plan` carry the labels of the rooms of `tree`
/// and of their entrances, once each, with `corridors` empty corridor
/// rooms and their unlabelled doors added.
pub open spec fn layout_labels<D: Describe, C: Describe>(tree: Tree<D, C>, plan: FloorPlan, corridors: nat) -> bool where
    Tree<D, C>: View<V = RoomPlan<D, C>>,
{
    labels_match(tree, plan, corridors) && doors_match(tree, plan, corridors)
}

/// Every room of `plan` has a label, but the outside room and the first
/// room.
pub open spec fn labelled(plan: FloorPlan) -> bool {
    forall|c: Coord| #[trigger]
        plan.rooms().dom().contains(c) && c != Coord { x: 0i8, y: -1i8 } && c != Coord { x: 0i8, y: 0i8 }
            ==> plan.rooms()[c] is Some
}

/// Laying out a part keeps every room but the outside and first rooms
/// labelled.
proof fn lemma_assigned_labelled<D: Describe, C: Describe>(
    plan: FloorPlan,
    plan2: FloorPlan,
    next: Level<Forest<D, C>>,
    next2: Level<Forest<D, C>>,
    x: int,
    y: int,
    dir: Dir4,
    part: Seq<RoomPlan<D, C>>,
) where Tree<D, C>: RoomExt + View<V = RoomPlan<D, C>>
    requires
        assigned(plan, plan2, next, next2, x, y, dir, part),
        labelled(plan),
    ensures
        labelled(plan2),
{
    reveal(assigned);
}

/// The rooms of the cell at `q` of a ring of depth `d` whose cells, from
/// position `-d` on, hold `cv`.
pub open spec fn cell_rooms<D, C>(cv: Seq<Seq<RoomPlan<D, C>>>, d: int, q: int) -> Seq<RoomPlan<D, C>> {
    cv[d + q]
}

/// The cell at `q` holds some room.
pub open spec fn sfilled<D, C>(cv: Seq<Seq<RoomPlan<D, C>>>, d: int, q: int) -> bool {
    cell_rooms(cv, d, q).len() > 0
}

/// Every cell from `a` to `b` holds some room.
pub open spec fn sfilled_between<D, C>(cv: Seq<Seq<RoomPlan<D, C>>>, d: int, a: int, b: int) -> bool {
    forall|k: int| a <= k <= b ==> sfilled(cv, d, k)
}

/// The score of the cell at `k`.
pub open spec fn sscore<D, C>(cv: Seq<Seq<RoomPlan<D, C>>>, d: int, k: int) -> (int, int) where
    Tree<D, C>: RoomExt + View<V = RoomPlan<D, C>>,
{
    let w = forest_weights(cell_rooms(cv, d, k));
    spec_score(w.0 as int, (w.1 + w.2) as int)
}

/// `k` lies, within `start..=end`, in the run of filled cells around `q`.
pub open spec fn sin_run<D, C>(cv: Seq<Seq<RoomPlan<D, C>>>, d: int, start: int, end: int, q: int, k: int) -> bool {
    start <= k <= end && if k <= q {
        sfilled_between(cv, d, k, q)
    } else {
        sfilled_between(cv, d, q, k)
    }
}

/// `b` is the best cell of the run around `q`: the first of its cells
/// whose score no other cell of the run beats.
pub open spec fn sis_best<D, C>(cv: Seq<Seq<RoomPlan<D, C>>>, d: int, start: int, end: int, q: int, b: int) -> bool where
    Tree<D, C>: RoomExt + View<V = RoomPlan<D, C>>,
{
    &&& sin_run(cv, d, start, end, q, b)
    &&& forall|k: int|
        #![trigger sin_run(cv, d, start, end, q, k)]
        sin_run(cv, d, start, end, q, k) ==> !score_gt(sscore(cv, d, k), sscore(cv, d, b))
    &&& forall|k: int|
        #![trigger sin_run(cv, d, start, end, q, k)]
        sin_run(cv, d, start, end, q, k) && k < b ==> score_gt(sscore(cv, d, b), sscore(cv, d, k))
}

/// The directions that one half of a ring's allocation adds to `before`
/// at `q`: `dir_left` up to the best cell of its run, `dir_right` from it on.
pub open spec fn shalf<D, C>(
    cv: Seq<Seq<RoomPlan<D, C>>>,
    d: int,
    start: int,
    end: int,
    q: int,
    dir_left: Dir4,
    dir_right: Dir4,
    before: DirSet,
) -> DirSet where Tree<D, C>: RoomExt + View<V = RoomPlan<D, C>> {
    if sfilled(cv, d, q) {
        let b = choose|b: int| sis_best(cv, d, start, end, q, b);
        before.with_if(dir_left, q <= b).with_if(dir_right, b <= q)
    } else {
        before
    }
}

/// The directions allocated to the cell at `q` of a ring of depth `d`:
/// those of its western half, west and north, then those of its eastern
/// half, north and east.
pub open spec fn salloc<D, C>(cv: Seq<Seq<RoomPlan<D, C>>>, d: int, q: int) -> DirSet where
    Tree<D, C>: RoomExt + View<V = RoomPlan<D, C>>,
{
    let a1 = if -d <= q <= 0 {
        shalf(cv, d, -d, 0, q, Dir4::West, Dir4::North, DirSet::empty())
    } else {
        DirSet::empty()
    };
    if 0 <= q <= d {
        shalf(cv, d, 0, d, q, Dir4::North, Dir4::East, a1)
    } else {
        a1
    }
}

/// The rooms, doors and next ring of a layout in progress.
pub type LayoutState<D, C> = (Map<Coord, Option<Seq<char>>>, Map<DoorCoord2, Seq<char>>, Seq<Seq<RoomPlan<D, C>>>);

/// What `assign` makes of a layout in progress, laying out `part` at
/// `(x, y)` of ring `d` in direction `dir`.
pub open spec fn seffect<D: Describe, C: Describe>(
    st: LayoutState<D, C>,
    x: int,
    y: int,
    d: int,
    dir: Dir4,
    part: Seq<RoomPlan<D, C>>,
) -> LayoutState<D, C> where Tree<D, C>: RoomExt + View<V = RoomPlan<D, C>> {
    if part.len() == 0 {
        st
    } else {
        (
            st.0.insert(coord_at(step4(x, y, dir)), Some(assigned_room(part))),
            st.1.insert(door2_of(x, y, dir), assigned_door(part)),
            st.2.update((d + 1) + x + delta_of(dir), assigned_rest(part)),
        )
    }
}

/// What `place_cell` makes of a layout in progress, laying out the forest
/// `f` of the cell at `(x, y)` of ring `d` through the directions `set`.
pub open spec fn splace<D: Describe, C: Describe>(
    st: LayoutState<D, C>,
    x: int,
    y: int,
    d: int,
    set: DirSet,
    f: Seq<RoomPlan<D, C>>,
) -> LayoutState<D, C> where Tree<D, C>: RoomExt + View<V = RoomPlan<D, C>> {
    let dirs = set.seq();
    let n = dirs.len() as int;
    let parts = cell_parts(f, n);
    if n == 1 {
        seffect(st, x, y, d, dirs[0], parts[0])
    } else if n == 2 {
        seffect(seffect(st, x, y, d, dirs[0], parts[0]), x, y, d, dirs[1], parts[1])
    } else if n == 3 {
        seffect(seffect(seffect(st, x, y, d, dirs[0], parts[0]), x, y, d, dirs[1], parts[1]), x, y, d, dirs[2], parts[2])
    } else {
        st
    }
}

/// The layout in progress once the first `i` cells of a ring of depth `d`
/// holding `cv` are laid out, from `st`.
pub open spec fn sring_prefix<D: Describe, C: Describe>(
    cv: Seq<Seq<RoomPlan<D, C>>>,
    d: int,
    i: int,
    st: LayoutState<D, C>,
) -> LayoutState<D, C> where Tree<D, C>: RoomExt + View<V = RoomPlan<D, C>>
    decreases i,
{
    if i <= 0 {
        st
    } else {
        let x = i - 1 - d;
        splace(sring_prefix(cv, d, i - 1, st), x, d - abs(x), d, salloc(cv, d, x), cv[i - 1])
    }
}

/// `n` empty cells.
pub open spec fn empty_cells<D, C>(n: int) -> Seq<Seq<RoomPlan<D, C>>> {
    Seq::new(n as nat, |i: int| Seq::<RoomPlan<D, C>>::empty())
}

/// Some cell of `cv` holds a room.
pub open spec fn any_filled<D, C>(cv: Seq<Seq<RoomPlan<D, C>>>) -> bool {
    exists|i: int| 0 <= i < cv.len() && (#[trigger] cv[i]).len() > 0
}

/// The rooms and doors that laying out the rings from depth `d` on, the
/// ring of depth `d` holding `cv`, makes of `rooms` and `doors`; `None`
/// where rooms are still left to lay out at ring 63.
pub open spec fn srings<D: Describe, C: Describe>(
    cv: Seq<Seq<RoomPlan<D, C>>>,
    d: int,
    rooms: Map<Coord, Option<Seq<char>>>,
    doors: Map<DoorCoord2, Seq<char>>,
) -> Option<(Map<Coord, Option<Seq<char>>>, Map<DoorCoord2, Seq<char>>)> where
    Tree<D, C>: RoomExt + View<V = RoomPlan<D, C>>,

    decreases 63 - d,
{
    if !any_filled(cv) {
        Some((rooms, doors))
    } else if d >= 63 || d < 0 {
        None
    } else {
        let st = sring_prefix(cv, d, 2 * d + 1, (rooms, doors, empty_cells(2 * d + 3)));
        srings(st.2, d + 1, st.0, st.1)
    }
}

/// The rooms and doors of the floor that `tree` is laid out on: the
/// outside room and the first room with its door, then ring after ring.
pub open spec fn spec_layout<D: Describe, C: Describe>(tree: Tree<D, C>) -> Option<
    (Map<Coord, Option<Seq<char>>>, Map<DoorCoord2, Seq<char>>),
> where Tree<D, C>: RoomExt + View<V = RoomPlan<D, C>> {
    srings(
        seq![tree@.exits],
        0,
        Map::<Coord, Option<Seq<char>>>::empty().insert(Coord { x: 0i8, y: -1i8 }, None).insert(
            Coord { x: 0i8, y: 0i8 },
            match tree.contents {
                Some(c) => Some(c.spec_describe()),
                None => None,
            },
        ),
        Map::<DoorCoord2, Seq<char>>::empty().insert(entrance_door(), label_or(tree.entrance, ""@)),
    )
}

impl<D, C> Level<Forest<D, C>> {
    /// The rooms of each cell of the ring, from position `-depth` on.
    pub closed spec fn rooms_view(self) -> Seq<Seq<RoomPlan<D, C>>> {
        Seq::new(self.cells@.len(), |i: int| self.cells@[i]@)
    }

    /// The rooms of the cell at `q` are those the view holds for it.
    pub proof fn lemma_rooms_view(self)
        requires
            self.wf(),
        ensures
            self.rooms_view().len() == 2 * self.spec_depth() + 1,
            forall|q: int|
                #![trigger self.at(q)]
                -self.spec_depth() <= q <= self.spec_depth() ==> self.at(q)@ == cell_rooms(
                    self.rooms_view(),
                    self.spec_depth(),
                    q,
                ),
    {
    }
}

/// Where `cv` is the view of `level`, a run of filled cells of either is
/// one of the other.
pub proof fn lemma_filled_between_equiv<D, C>(level: Level<Forest<D, C>>, a: int, b: int)
    requires
        level.wf(),
        -level.spec_depth() <= a,
        b <= level.spec_depth(),
    ensures
        filled_between(level, a, b) == sfilled_between(level.rooms_view(), level.spec_depth(), a, b),
{
    let cv = level.rooms_view();
    let d = level.spec_depth();
    level.lemma_rooms_view();
    if filled_between(level, a, b) {
        assert forall|j: int| a <= j <= b implies #[trigger] sfilled(cv, d, j) by {
            assert(filled(level, j));
            assert(level.at(j)@ == cell_rooms(cv, d, j));
        }
    }
    if sfilled_between(cv, d, a, b) {
        assert forall|j: int| a <= j <= b implies #[trigger] filled(level, j) by {
            assert(sfilled(cv, d, j));
            assert(level.at(j)@ == cell_rooms(cv, d, j));
        }
    }
}

/// Where `cv` is the view of `level`, the runs and best cells that the
/// allocation reads from either are the same.
pub proof fn lemma_best_equiv<D, C>(
    level: Level<Forest<D, C>>,
    start: int,
    end: int,
    q: int,
    b: int,
) where Tree<D, C>: RoomExt + View<V = RoomPlan<D, C>>
    requires
        level.wf(),
        -level.spec_depth() <= start <= q <= end <= level.spec_depth(),
    ensures
        is_best(level, start, end, q, b) == sis_best(level.rooms_view(), level.spec_depth(), start, end, q, b),
        filled(level, q) == sfilled(level.rooms_view(), level.spec_depth(), q),
{
    let cv = level.rooms_view();
    let d = level.spec_depth();
    level.lemma_rooms_view();
    assert forall|k: int| #[trigger] in_run(level, start, end, q, k) == sin_run(cv, d, start, end, q, k) by {
        if start <= k <= end {
            if k <= q {
                lemma_filled_between_equiv(level, k, q);
            } else {
                lemma_filled_between_equiv(level, q, k);
            }
        }
    }
    assert forall|k: int| start <= k <= end implies cell_score(level, k) == sscore(cv, d, k) by {
        assert(level.at(k)@ == cell_rooms(cv, d, k));
    }
    assert(level.at(q)@ == cell_rooms(cv, d, q));
    if start <= b <= end {
        assert(level.at(b)@ == cell_rooms(cv, d, b));
    }
    assert(in_run(level, start, end, q, b) == sin_run(cv, d, start, end, q, b));
    if is_best(level, start, end, q, b) {
        assert forall|k: int| #[trigger] sin_run(cv, d, start, end, q, k) implies !score_gt(
            sscore(cv, d, k),
            sscore(cv, d, b),
        ) by {
            assert(in_run(level, start, end, q, k));
        }
        assert forall|k: int| #[trigger] sin_run(cv, d, start, end, q, k) && k < b implies score_gt(
            sscore(cv, d, b),
            sscore(cv, d, k),
        ) by {
            assert(in_run(level, start, end, q, k));
        }
    }
    if sis_best(cv, d, start, end, q, b) {
        assert forall|k: int| #[trigger] in_run(level, start, end, q, k) implies !score_gt(
            cell_score(level, k),
            cell_score(level, b),
        ) by {
            assert(sin_run(cv, d, start, end, q, k));
        }
        assert forall|k: int| #[trigger] in_run(level, start, end, q, k) && k < b implies score_gt(
            cell_score(level, b),
            cell_score(level, k),
        ) by {
            assert(sin_run(cv, d, start, end, q, k));
        }
    }
}

/// One half's marking at `q`, as `alloc_half` leaves it, is what `shalf`
/// says.
pub proof fn lemma_half_is<D, C>(
    level: Level<Forest<D, C>>,
    before: DirSet,
    after: DirSet,
    start: int,
    end: int,
    q: int,
    dir_left: Dir4,
    dir_right: Dir4,
) where Tree<D, C>: RoomExt + View<V = RoomPlan<D, C>>
    requires
        level.wf(),
        -level.spec_depth() <= start <= q <= end <= level.spec_depth(),
        half_marked(level, before, after, start, end, q, dir_left, dir_right),
    ensures
        after == shalf(level.rooms_view(), level.spec_depth(), start, end, q, dir_left, dir_right, before),
{
    let cv = level.rooms_view();
    let d = level.spec_depth();
    lemma_best_equiv(level, start, end, q, q);
    if filled(level, q) {
        let b = choose|b: int|
            #[trigger] is_best(level, start, end, q, b) && after == before.with_if(dir_left, q <= b).with_if(
                dir_right,
                b <= q,
            );
        lemma_best_equiv(level, start, end, q, b);
        let b2 = choose|b2: int| sis_best(cv, d, start, end, q, b2);
        lemma_best_equiv(level, start, end, q, b2);
        lemma_best_unique(level, start, end, q, b, b2);
    }
}

/// The directions allocated to a ring are those `salloc` says.
pub proof fn lemma_alloc_is<D, C>(
    level: Level<Forest<D, C>>,
    a0: Level<DirSet>,
    a1: Level<DirSet>,
    a2: Level<DirSet>,
    d: int,
) where Tree<D, C>: RoomExt + View<V = RoomPlan<D, C>>
    requires
        0 <= d <= 63,
        level.wf(),
        level.spec_depth() == d,
        a0.spec_depth() == d,
        a1.spec_depth() == d,
        forall|q: int| a0.holds(q) ==> #[trigger] a0.at(q) == DirSet::empty(),
        forall|q: int| #![trigger a1.at(q)] a0.holds(q) && !(-d <= q <= 0) ==> a1.at(q) == a0.at(q),
        forall|q: int| #![trigger a1.at(q)]
            -d <= q <= 0 ==> half_marked(level, a0.at(q), a1.at(q), -d, 0, q, Dir4::West, Dir4::North),
        forall|q: int| #![trigger a2.at(q)] a0.holds(q) && !(0 <= q <= d) ==> a2.at(q) == a1.at(q),
        forall|q: int| #![trigger a2.at(q)]
            0 <= q <= d ==> half_marked(level, a1.at(q), a2.at(q), 0, d, q, Dir4::North, Dir4::East),
    ensures
        forall|q: int| -d <= q <= d ==> #[trigger] a2.at(q) == salloc(level.rooms_view(), d, q),
{
    assert forall|q: int| -d <= q <= d implies #[trigger] a2.at(q) == salloc(level.rooms_view(), d, q) by {
        assert(a0.holds(q));
        if q <= 0 {
            lemma_half_is(level, a0.at(q), a1.at(q), -d, 0, q, Dir4::West, Dir4::North);
        } else {
            assert(a1.at(q) == a0.at(q));
        }
        if q >= 0 {
            lemma_half_is(level, a1.at(q), a2.at(q), 0, d, q, Dir4::North, Dir4::East);
        } else {
            assert(a2.at(q) == a1.at(q));
        }
    }
}

impl<D, C> Level<Forest<D, C>> {
    /// Some cell of the ring's view holds a room exactly where some cell of
    /// the ring is filled.
    pub proof fn lemma_any_filled(self)
        requires
            self.wf(),
        ensures
            any_filled(self.rooms_view()) == exists|q: int|
                -self.spec_depth() <= q <= self.spec_depth() && #[trigger] filled(self, q),
    {
        let d = self.spec_depth();
        let cv = self.rooms_view();
        if any_filled(cv) {
            let i = choose|i: int| 0 <= i < cv.len() && (#[trigger] cv[i]).len() > 0;
            assert(filled(self, i - d));
        }
        if exists|q: int| -d <= q <= d && #[trigger] filled(self, q) {
            let q = choose|q: int| -d <= q <= d && #[trigger] filled(self, q);
            assert(cv[d + q].len() > 0);
        }
    }

    /// A ring whose cells are all empty has a view of empty cells.
    pub proof fn lemma_empty_view(self)
        requires
            self.wf(),
            self.spec_depth() <= 63,
            forall|q: int| self.holds(q) ==> (#[trigger] self.at(q))@.len() == 0,
        ensures
            self.rooms_view() == empty_cells::<D, C>(2 * self.spec_depth() + 1),
    {
        let d = self.spec_depth();
        assert forall|i: int| 0 <= i < 2 * d + 1 implies #[trigger] self.rooms_view()[i] == empty_cells::<D, C>(
            2 * d + 1,
        )[i] by {
            assert(self.holds(i - d));
            assert(self.at(i - d)@.len() == 0);
        }
        assert(self.rooms_view() =~= empty_cells::<D, C>(2 * d + 1));
    }

    /// The view of the ring of depth zero is its one cell.
    pub proof fn lemma_view_single(self)
        requires
            self.wf(),
            self.spec_depth() == 0,
        ensures
            self.rooms_view() == seq![self.at(0)@],
    {
        assert(self.rooms_view() =~= seq![self.at(0)@]);
    }
}

/// Lays out a room and the rooms behind it on a floor: an outside room to
/// the south, the room itself, and then ring after ring of rooms around
/// it, each ring's forests split between the directions its cells were
/// allocated. The rooms and doors are those of `spec_layout(tree)`; `None`
/// where rooms are still left to lay out at ring 63, beyond which a ring's
/// positions no longer fit its `i8` index.
#[verifier::spinoff_prover]
#[verifier::rlimit(60)]
pub fn from_forest<D: Describe, C: Describe>(tree: Tree<D, C>) -> (r: Option<FloorPlan>) where
    Tree<D, C>: RoomExt + View<V = RoomPlan<D, C>>,

    requires
        tree_weights(tree@).0 + 100 <= isize::MAX,
    ensures
        r matches Some(plan) ==> lays_out(tree, plan),
        forest_weights(tree@.exits).0 <= 32 ==> r is Some,
        r is Some <==> spec_layout(tree) is Some,
        r matches Some(plan) ==> spec_layout(tree) == Some((plan.rooms(), plan.doors())),
{
    let mut floor_plan = FloorPlan::new();
    floor_plan.add_room(Coord::from((-1, 0)), None);
    proof {
        tree.lemma_exits_view();
        crate::room::lemma_forest_acc_bound(tree@.exits);
    }
    let Tree { entrance, contents, exits } = tree;
    let door_label = describe_or(&entrance, "");
    let room_label = match &contents {
        Some(c) => Some(c.describe()),
        None => None,
    };
    floor_plan.add_room(Coord::from((0, 0)), room_label);
    proof {
        reveal_strlit("");
    }
    floor_plan.add_door(DoorCoord4::from((-1, 0, Dir4::North)), door_label);
    let ghost plan0 = floor_plan;
    proof {
        assert(plan0.doors().dom().contains(entrance_door()));
        assert(plan0.doors()[entrance_door()] == label_or(entrance, ""@));
        assert(plan0.rooms().dom().contains(Coord { x: 0i8, y: -1i8 }));
        assert(plan0.rooms()[Coord { x: 0i8, y: 0i8 }] == match contents {
            Some(c) => Some(c.spec_describe()),
            None => None::<Seq<char>>,
        });
        assert(plan0.rooms() =~= Map::<Coord, Option<Seq<char>>>::empty().insert(
            Coord { x: 0i8, y: -1i8 },
            None,
        ).insert(
            Coord { x: 0i8, y: 0i8 },
            match contents {
                Some(c) => Some(c.spec_describe()),
                None => None,
            },
        ));
        assert(plan0.doors() =~= Map::<DoorCoord2, Seq<char>>::empty().insert(
            entrance_door(),
            label_or(entrance, ""@),
        ));
        assert(labelled(plan0));
        assert(plan0.rooms().dom() =~= Set::<Coord>::empty().insert(Coord { x: 0i8, y: -1i8 }).insert(
            Coord { x: 0i8, y: 0i8 },
        ));
        assert(room_count(plan0) == 2);
        assert forall|t: Seq<char>| #[trigger] door_label_count(plan0, t) == one_if(label_or(tree.entrance, ""@) == t) by {
            let f = doors_labelled(plan0, t);
            if label_or(tree.entrance, ""@) == t {
                assert(f =~= Set::<DoorCoord2>::empty().insert(entrance_door()));
            } else {
                assert(f =~= Set::<DoorCoord2>::empty());
            }
        }
        assert forall|t: Seq<char>| #[trigger] room_label_count(plan0, t) == first_label_count(tree, t) by {
            let f = plan0.rooms().dom().filter(|c: Coord| plan0.rooms()[c] == Some(t));
            if first_label_count(tree, t) == 1 {
                assert(f =~= Set::<Coord>::empty().insert(Coord { x: 0i8, y: 0i8 }));
            } else {
                assert(f =~= Set::<Coord>::empty());
            }
        }
    }
    let ghost w: nat = forest_weights(exits@).0;
    let mut depth: i8 = 0;
    let mut level = Level::<Forest<D, C>>::new_forests(depth);
    let ghost empty_level = level;
    let ghost m0 = fm(exits@);
    level.set(depth, exits);
    proof {
        empty_level.lemma_level_fm_empty();
        empty_level.lemma_level_fm_update(level, 0);
        empty_level.lemma_level_w_empty();
        empty_level.lemma_level_w_update(level, 0);
        crate::room::lemma_forest_total_sum(empty_level.at(0)@);
        assert forall|t: Seq<char>| #[trigger] level.level_lc(t) == forest_label_count(tree@.exits, t) by {
            empty_level.lemma_level_lc_empty(t);
            empty_level.lemma_level_lc_update(level, 0, t);
            assert(forest_label_count(empty_level.at(0)@, t) == 0);
        }
        assert forall|t: Seq<char>| #[trigger] level.level_dc(t) == forest_door_count(tree@.exits, t) by {
            empty_level.lemma_level_dc_empty(t);
            empty_level.lemma_level_dc_update(level, 0, t);
            assert(forest_door_count(empty_level.at(0)@, t) == 0);
        }
    }
    let ghost mut corr_total: nat = 0;
    proof {
        level.lemma_view_single();
        assert(level.rooms_view() == seq![tree@.exits]);
    }
    loop
        invariant
            srings(level.rooms_view(), depth as int, floor_plan.rooms(), floor_plan.doors()) == spec_layout(tree),
            0 <= depth <= 63,
            level.level_fm() + depth <= m0,
            m0 == fm(tree@.exits),
            labelled(floor_plan),
            depth == 0 ==> floor_plan == plan0,
            room_count(floor_plan) + level.level_w() >= w + 2,
            w == forest_weights(tree@.exits).0,
            forall|t: Seq<char>|
                #[trigger] room_label_count(floor_plan, t) + level.level_lc(t) == room_label_count(plan0, t)
                    + forest_label_count(tree@.exits, t) + one_if(t == "Empty"@) * corr_total,
            forall|t: Seq<char>|
                #[trigger] door_label_count(floor_plan, t) + level.level_dc(t) == door_label_count(plan0, t)
                    + forest_door_count(tree@.exits, t) + one_if(t == ""@) * corr_total,
            level.wf(),
            level.spec_depth() == depth,
            floor_plan.wf(),
            w + 100 <= isize::MAX,
            forall|c: Coord| #[trigger]
                plan0.rooms().dom().contains(c) ==> floor_plan.rooms().dom().contains(c)
                    && floor_plan.rooms()[c] == plan0.rooms()[c],
            floor_plan.doors().dom().contains(entrance_door()),
            floor_plan.doors()[entrance_door()] == plan0.doors()[entrance_door()],
            forall|c: Coord| #[trigger] floor_plan.rooms().dom().contains(c) ==> -1 <= ring_of(c) <= depth,
            forall|q: int| #![trigger level.at(q)]
                level.holds(q) ==> forest_weights(level.at(q)@).0 <= w,
            forall|q: int| #![trigger level.at(q)]
                level.holds(q) && filled(level, q) ==> floor_plan.rooms().dom().contains(ring_room(q, depth as int)),
        ensures
            spec_layout(tree) == Some((floor_plan.rooms(), floor_plan.doors())),
            floor_plan.wf(),
            forall|c: Coord| #[trigger]
                plan0.rooms().dom().contains(c) ==> floor_plan.rooms().dom().contains(c)
                    && floor_plan.rooms()[c] == plan0.rooms()[c],
            floor_plan.doors().dom().contains(entrance_door()),
            floor_plan.doors()[entrance_door()] == plan0.doors()[entrance_door()],
            forall|c: Coord| #[trigger] floor_plan.rooms().dom().contains(c) ==> -1 <= ring_of(c) <= 63,
            labelled(floor_plan),
            m0 == 0 ==> floor_plan == plan0,
            room_count(floor_plan) >= w + 2,
            forall|t: Seq<char>|
                #[trigger] room_label_count(floor_plan, t) == room_label_count(plan0, t) + forest_label_count(
                    tree@.exits,
                    t,
                ) + one_if(t == "Empty"@) * corr_total,
            forall|t: Seq<char>|
                #[trigger] door_label_count(floor_plan, t) == door_label_count(plan0, t) + forest_door_count(
                    tree@.exits,
                    t,
                ) + one_if(t == ""@) * corr_total,
        decreases 63 - depth,
    {
        let mut alloc = Level::new_sets(depth);
        let ghost a0 = alloc;
        let left = alloc_half(&level, &mut alloc, -depth, 0, Dir4::West, Dir4::North);
        let ghost a1 = alloc;
        let right = alloc_half(&level, &mut alloc, 0, depth, Dir4::North, Dir4::East);
        proof {
            level.lemma_any_filled();
        }
        if !(left || right) {
            proof {
                level.lemma_level_fm_nonneg();
                assert forall|q: int| level.holds(q) implies (#[trigger] level.at(q))@.len() == 0 by {
                    if level.at(q)@.len() > 0 {
                        assert(filled(level, q));
                    }
                }
                level.lemma_level_w_empty();
                assert forall|t: Seq<char>| #[trigger] room_label_count(floor_plan, t) == room_label_count(plan0, t)
                    + forest_label_count(tree@.exits, t) + one_if(t == "Empty"@) * corr_total by {
                    level.lemma_level_lc_empty(t);
                }
                assert forall|t: Seq<char>| #[trigger] door_label_count(floor_plan, t) == door_label_count(plan0, t)
                    + forest_door_count(tree@.exits, t) + one_if(t == ""@) * corr_total by {
                    level.lemma_level_dc_empty(t);
                }
            }
            break ;
        }
        let ghost q0 = choose|q: int| -depth <= q <= depth && #[trigger] filled(level, q);
        proof {
            level.lemma_level_fm_pos(q0);
        }
        if depth == 63 {
            proof {
                crate::room::lemma_forest_weight_ge_len(tree@.exits);
            }
            return None;
        }
        proof {
            lemma_good_alloc(level, a0, a1, alloc, depth as int);
            lemma_alloc_progress(level, a0, a1, alloc, depth as int, q0);
            lemma_alloc_covers(level, a0, a1, alloc, depth as int);
            lemma_alloc_is(level, a0, a1, alloc, depth as int);
        }
        let d = depth;
        let mut next_level = Level::<Forest<D, C>>::new_forests(d + 1);
        let ghost lv = level;
        let ghost plan_d = floor_plan;
        let ghost cells0 = level.cells@;
        let Level { depth: _, cells } = level;
        let mut i: usize = 0;
        let ghost mut prog: bool = false;
        let ghost mut corr_round: nat = 0;
        let ghost cv0 = lv.rooms_view();
        let ghost st0 = (plan_d.rooms(), plan_d.doors(), empty_cells::<D, C>(2 * d + 3));
        proof {
            next_level.lemma_empty_view();
            next_level.lemma_level_fm_empty();
            next_level.lemma_level_w_empty();
            lv.lemma_cells_view();
            assert forall|t: Seq<char>| #[trigger] next_level.level_lc(t) == 0 by {
                next_level.lemma_level_lc_empty(t);
            }
            assert forall|t: Seq<char>| #[trigger] next_level.level_dc(t) == 0 by {
                next_level.lemma_level_dc_empty(t);
            }
            assert(cells0.subrange(0, 0).len() == 0);
        }
        for forest in it: cells
            invariant
                it.seq() == cells0,
                i == it.index(),
                cv0 == lv.rooms_view(),
                st0 == (plan_d.rooms(), plan_d.doors(), empty_cells::<D, C>(2 * d + 3)),
                forall|q: int| -d <= q <= d ==> #[trigger] alloc.at(q) == salloc(cv0, d as int, q),
                (floor_plan.rooms(), floor_plan.doors(), next_level.rooms_view()) == sring_prefix(
                    cv0,
                    d as int,
                    i as int,
                    st0,
                ),
                0 <= d <= 62,
                next_level.level_fm() + (if prog { 1int } else { 0 }) <= cells_fm(cells0.subrange(0, i as int)),
                labelled(floor_plan),
                room_count(floor_plan) + next_level.level_w() >= room_count(plan_d) + cells_w(
                    cells0.subrange(0, i as int),
                ),
                forall|t: Seq<char>|
                    #[trigger] room_label_count(floor_plan, t) + next_level.level_lc(t) == room_label_count(plan_d, t)
                        + cells_lc(cells0.subrange(0, i as int), t) + one_if(t == "Empty"@) * corr_round,
                forall|t: Seq<char>|
                    #[trigger] door_label_count(floor_plan, t) + next_level.level_dc(t) == door_label_count(plan_d, t)
                        + cells_dc(cells0.subrange(0, i as int), t) + one_if(t == ""@) * corr_round,
                forall|q: int| -d <= q <= d && filled(lv, q) ==> (#[trigger] alloc.at(q)).seq().len() >= 1,
                forall|q: int|
                    -d <= q < i - d && filled(lv, q) && (#[trigger] alloc.at(q)).seq().len() >= 2 ==> prog,
                cells0.len() == 2 * d + 1,
                forall|q: int| #![trigger lv.at(q)] -d <= q <= d ==> lv.at(q) == cells0[d + q],
                lv.wf(),
                lv.spec_depth() == d,
                cells0 == lv.cells@,
                alloc.wf(),
                alloc.spec_depth() == d,
                good_alloc(lv, alloc, d as int),
                next_level.wf(),
                next_level.spec_depth() == d + 1,
                floor_plan.wf(),
                w + 100 <= isize::MAX,
                forall|q: int| #![trigger lv.at(q)]
                    lv.holds(q) ==> forest_weights(lv.at(q)@).0 <= w,
                forall|q: int| #![trigger lv.at(q)]
                    lv.holds(q) && filled(lv, q) ==> plan_d.rooms().dom().contains(ring_room(q, d as int)),
                forall|c: Coord| #[trigger]
                    plan_d.rooms().dom().contains(c) ==> floor_plan.rooms().dom().contains(c)
                        && floor_plan.rooms()[c] == plan_d.rooms()[c],
                forall|k: DoorCoord2| #[trigger]
                    plan_d.doors().dom().contains(k) ==> floor_plan.doors().dom().contains(k)
                        && floor_plan.doors()[k] == plan_d.doors()[k],
                forall|c: Coord| #[trigger] plan_d.rooms().dom().contains(c) ==> -1 <= ring_of(c) <= d,
                forall|c: Coord| #[trigger]
                    floor_plan.rooms().dom().contains(c) ==> plan_d.rooms().dom().contains(c) || exists|
                        q: int,
                        dir: Dir4,
                    | -d <= q < i - d && #[trigger] alloc.at(q).has(dir) && c == ring_room(
                        q + delta_of(dir),
                        d + 1,
                    ),
                forall|t: int| #![trigger next_level.at(t)]
                    next_level.holds(t) && next_level.at(t)@.len() > 0 ==> exists|q: int, dir: Dir4|
                        -d <= q < i - d && #[trigger] alloc.at(q).has(dir) && t == q + delta_of(dir),
                forall|t: int| #![trigger next_level.at(t)]
                    next_level.holds(t) ==> forest_weights(next_level.at(t)@).0 <= w,
                forall|t: int| #![trigger next_level.at(t)]
                    next_level.holds(t) && next_level.at(t)@.len() > 0 ==> floor_plan.rooms().dom().contains(
                        ring_room(t, d + 1),
                    ),
        {
            let x: i8 = i as i8 - d;
            let y: i8 = d - if x < 0 { -x } else { x };
            let set = *alloc.get(x);
            proof {
                assert(lv.at(x as int) == forest);
                assert(lv.holds(x as int));
                assert(alloc.at(x as int) == set);
                if forest@.len() > 0 {
                    assert(filled(lv, x as int));
                    assert(ring_room(x as int, d as int) == Coord { x, y });
                }
                assert forall|dir: Dir4| #![trigger set.has(dir)] set.has(dir) implies !floor_plan.rooms().dom().contains(
                    ring_room(x + delta_of(dir), d + 1),
                ) && next_level.at(x + delta_of(dir))@.len() == 0 by {
                    lemma_step_ring(x as int, d as int, dir);
                    let c = ring_room(x + delta_of(dir), d + 1);
                    if floor_plan.rooms().dom().contains(c) {
                        if !plan_d.rooms().dom().contains(c) {
                            let (q, dir2) = choose|q: int, dir2: Dir4|
                                -d <= q < i - d && #[trigger] alloc.at(q).has(dir2) && c == ring_room(
                                    q + delta_of(dir2),
                                    d + 1,
                                );
                            lemma_step_ring(q, d as int, dir2);
                            lemma_targets_distinct(lv, alloc, d as int, q, dir2, x as int, dir);
                        }
                    }
                    let t = x + delta_of(dir);
                    assert(next_level.holds(t));
                    if next_level.at(t)@.len() > 0 {
                        let (q, dir2) = choose|q: int, dir2: Dir4|
                            -d <= q < i - d && #[trigger] alloc.at(q).has(dir2) && t == q + delta_of(dir2);
                        lemma_targets_distinct(lv, alloc, d as int, q, dir2, x as int, dir);
                    }
                }
            }
            let ghost plan_before = floor_plan;
            let ghost next_before = next_level;
            let ghost fv = forest@;
            let corr = place_cell(&mut next_level, forest, x, y, d, set, &mut floor_plan, Ghost(w));
            proof {
                assert(cells0[i as int] == lv.at(x as int));
                assert(cells0.subrange(0, i + 1).drop_last() =~= cells0.subrange(0, i as int));
                assert(cells0.subrange(0, i + 1).last() == cells0[i as int]);
                prog = prog || (set.seq().len() >= 2 && fv.len() > 0);
                lv.lemma_rooms_view();
                assert(cv0[i as int] == fv);
                assert(set == salloc(cv0, d as int, x as int));
                assert(sring_prefix(cv0, d as int, i + 1, st0) == splace(
                    sring_prefix(cv0, d as int, i as int, st0),
                    x as int,
                    y as int,
                    d as int,
                    set,
                    fv,
                ));
                if set.seq().len() == 0 {
                    assert(!filled(lv, x as int));
                    crate::room::lemma_forest_total_sum(fv);
                }
                let r0 = corr_round;
                corr_round = corr_round + corr@;
                assert forall|t: Seq<char>|
                    #[trigger] room_label_count(floor_plan, t) + next_level.level_lc(t) == room_label_count(plan_d, t)
                        + cells_lc(cells0.subrange(0, i + 1), t) + one_if(t == "Empty"@) * corr_round by {
                    assert(room_label_count(plan_before, t) + next_before.level_lc(t) == room_label_count(plan_d, t)
                        + cells_lc(cells0.subrange(0, i as int), t) + one_if(t == "Empty"@) * r0);
                    if set.seq().len() == 0 {
                        assert(forest_label_count(fv, t) == 0);
                    }
                    assert(one_if(t == "Empty"@) * corr_round == one_if(t == "Empty"@) * r0 + one_if(t == "Empty"@)
                        * corr@) by (nonlinear_arith)
                        requires
                            corr_round == r0 + corr@,
                    ;
                }
                assert forall|t: Seq<char>|
                    #[trigger] door_label_count(floor_plan, t) + next_level.level_dc(t) == door_label_count(plan_d, t)
                        + cells_dc(cells0.subrange(0, i + 1), t) + one_if(t == ""@) * corr_round by {
                    assert(door_label_count(plan_before, t) + next_before.level_dc(t) == door_label_count(plan_d, t)
                        + cells_dc(cells0.subrange(0, i as int), t) + one_if(t == ""@) * r0);
                    if set.seq().len() == 0 {
                        assert(forest_door_count(fv, t) == 0);
                    }
                    assert(one_if(t == ""@) * corr_round == one_if(t == ""@) * r0 + one_if(t == ""@) * corr@)
                        by (nonlinear_arith)
                        requires
                            corr_round == r0 + corr@,
                    ;
                }
            }
            i = i + 1;
            proof {
                assert forall|c: Coord| #[trigger]
                    floor_plan.rooms().dom().contains(c) implies plan_d.rooms().dom().contains(c) || exists|
                        q: int,
                        dir: Dir4,
                    | -d <= q < i - d && #[trigger] alloc.at(q).has(dir) && c == ring_room(
                        q + delta_of(dir),
                        d + 1,
                    ) by {
                    if !plan_before.rooms().dom().contains(c) {
                        let dir = choose|dir: Dir4| #[trigger] set.has(dir) && c == ring_room(x + delta_of(dir), d + 1);
                        assert(alloc.at(x as int).has(dir));
                    }
                }
                assert forall|t: int| #![trigger next_level.at(t)]
                    next_level.holds(t) && next_level.at(t)@.len() > 0 implies exists|q: int, dir: Dir4|
                        -d <= q < i - d && #[trigger] alloc.at(q).has(dir) && t == q + delta_of(dir) by {
                    if exists|dir: Dir4| #[trigger] set.has(dir) && t == x + delta_of(dir) {
                        let dir = choose|dir: Dir4| #[trigger] set.has(dir) && t == x + delta_of(dir);
                        assert(alloc.at(x as int).has(dir));
                    } else {
                        assert(next_level.at(t) == next_before.at(t));
                    }
                }
                assert forall|t: int| #![trigger next_level.at(t)]
                    next_level.holds(t) implies forest_weights(next_level.at(t)@).0 <= w by {
                    if exists|dir: Dir4| #[trigger] set.has(dir) && t == x + delta_of(dir) {
                    } else {
                        assert(next_level.at(t) == next_before.at(t));
                    }
                }
                assert forall|t: int| #![trigger next_level.at(t)]
                    next_level.holds(t) && next_level.at(t)@.len() > 0 implies floor_plan.rooms().dom().contains(
                        ring_room(t, d + 1),
                    ) by {
                    if exists|dir: Dir4| #[trigger] set.has(dir) && t == x + delta_of(dir) {
                    } else {
                        assert(next_level.at(t) == next_before.at(t));
                        assert(plan_before.rooms().dom().contains(ring_room(t, d + 1)));
                    }
                }
            }
        }
        proof {
            assert forall|c: Coord| #[trigger] floor_plan.rooms().dom().contains(c) implies -1 <= ring_of(c) <= d + 1 by {
                if !plan_d.rooms().dom().contains(c) {
                    let (q, dir) = choose|q: int, dir: Dir4|
                        -d <= q < i - d && #[trigger] alloc.at(q).has(dir) && c == ring_room(
                            q + delta_of(dir),
                            d + 1,
                        );
                    lemma_step_ring(q, d as int, dir);
                }
            }
            assert(cells0.subrange(0, i as int) =~= cells0);
            lv.lemma_cells_view();
            let c0 = corr_total;
            corr_total = corr_total + corr_round;
            assert forall|t: Seq<char>|
                #[trigger] room_label_count(floor_plan, t) + next_level.level_lc(t) == room_label_count(plan0, t)
                    + forest_label_count(tree@.exits, t) + one_if(t == "Empty"@) * corr_total by {
                lv.lemma_cells_view_lc(t);
                assert(room_label_count(plan_d, t) + lv.level_lc(t) == room_label_count(plan0, t) + forest_label_count(
                    tree@.exits,
                    t,
                ) + one_if(t == "Empty"@) * c0);
                assert(one_if(t == "Empty"@) * corr_total == one_if(t == "Empty"@) * c0 + one_if(t == "Empty"@)
                    * corr_round) by (nonlinear_arith)
                    requires
                        corr_total == c0 + corr_round,
                ;
            }
            assert forall|t: Seq<char>|
                #[trigger] door_label_count(floor_plan, t) + next_level.level_dc(t) == door_label_count(plan0, t)
                    + forest_door_count(tree@.exits, t) + one_if(t == ""@) * corr_total by {
                lv.lemma_cells_view_dc(t);
                assert(door_label_count(plan_d, t) + lv.level_dc(t) == door_label_count(plan0, t) + forest_door_count(
                    tree@.exits,
                    t,
                ) + one_if(t == ""@) * c0);
                assert(one_if(t == ""@) * corr_total == one_if(t == ""@) * c0 + one_if(t == ""@) * corr_round)
                    by (nonlinear_arith)
                    requires
                        corr_total == c0 + corr_round,
                ;
            }
            let q1 = choose|q: int| -d <= q <= d && filled(lv, q) && (#[trigger] alloc.at(q)).seq().len() >= 2;
            assert(-d <= q1 < i - d && filled(lv, q1) && alloc.at(q1).seq().len() >= 2);
            assert(prog);
            assert(srings(cv0, d as int, plan_d.rooms(), plan_d.doors()) == srings(
                next_level.rooms_view(),
                d + 1,
                floor_plan.rooms(),
                floor_plan.doors(),
            ));
        }
        depth = d + 1;
        level = next_level;
    }
    proof {
        assert(labels_match(tree, floor_plan, corr_total));
        assert(doors_match(tree, floor_plan, corr_total));
        assert(layout_labels(tree, floor_plan, corr_total));
    }
    Some(floor_plan)
}

} // verus!
