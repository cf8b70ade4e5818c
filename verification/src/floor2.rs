use crate::floor::Coord;
use crate::floor::Describe;
use crate::floor::Dir4;
use crate::floor::DoorCoord4;
use crate::floor::FloorPlan;
use crate::floor::door_fits;
use crate::floor::door_key;
use crate::floor::assigned_rest;
use crate::floor::label_or;
use crate::floor::score_gt;
use crate::room::Forest;
use crate::room::RoomExt;
use crate::room::RoomPlan;
use crate::room::Tree;
use crate::room::forest_weights;
use crate::room::lemma_forest_acc_bound;
use crate::room::spec_pop_tree;
use vstd::prelude::*;

verus! {

/// A way out of a cell of a ring: on to the cell beyond it, or to the one
/// beyond it and east or west.
#[derive(Clone, Copy, Debug, PartialEq, Eq, Structural)]
pub enum Dir3 {
    North,
    East,
    West,
}

/// A set of ways out of a cell, listed north, east, west.
#[derive(Clone, Copy, Debug, PartialEq, Eq, Structural)]
pub struct Dir3Set {
    pub north: bool,
    pub east: bool,
    pub west: bool,
}

impl Dir3Set {
    /// The set with no way out.
    pub open spec fn empty() -> Dir3Set {
        Dir3Set { north: false, east: false, west: false }
    }

    /// The set with `d` added.
    pub open spec fn with(self, d: Dir3) -> Dir3Set {
        match d {
            Dir3::North => Dir3Set { north: true, ..self },
            Dir3::East => Dir3Set { east: true, ..self },
            Dir3::West => Dir3Set { west: true, ..self },
        }
    }

    /// The ways out, in order.
    pub open spec fn seq(self) -> Seq<Dir3> {
        (if self.north {
            seq![Dir3::North]
        } else {
            Seq::empty()
        }) + (if self.east {
            seq![Dir3::East]
        } else {
            Seq::empty()
        }) + (if self.west {
            seq![Dir3::West]
        } else {
            Seq::empty()
        })
    }

    /// The ways out, in order.
    pub fn to_vec(&self) -> (r: Vec<Dir3>)
        ensures
            r@ == self.seq(),
    {
        let mut r: Vec<Dir3> = Vec::new();
        if self.north {
            r.push(Dir3::North);
        }
        if self.east {
            r.push(Dir3::East);
        }
        if self.west {
            r.push(Dir3::West);
        }
        proof {
            assert(r@ =~= self.seq());
        }
        r
    }
}

/// The direction of the floor plan that `d` goes.
pub open spec fn dir4_of(d: Dir3) -> Dir4 {
    match d {
        Dir3::North => Dir4::North,
        Dir3::East => Dir4::East,
        Dir3::West => Dir4::West,
    }
}

/// The column that `d` leads to, relative to the cell it leaves.
pub open spec fn delta3(d: Dir3) -> int {
    match d {
        Dir3::North => 0,
        Dir3::East => 1,
        Dir3::West => -1,
    }
}

/// A ring of cells around the entrance, from position `-depth` to `depth`.
pub struct Level<T> {
    depth: i8,
    cells: Vec<T>,
}

impl<T> Level<T> {
    /// The ring's depth.
    pub closed spec fn spec_depth(self) -> int {
        self.depth as int
    }

    /// The cell at `pos`.
    pub closed spec fn at(self, pos: int) -> T {
        self.cells@[self.depth + pos]
    }

    /// The ring has one cell for each position from `-depth` to `depth`.
    pub closed spec fn wf(self) -> bool {
        self.depth >= 0 && self.cells@.len() == 2 * self.depth + 1
    }

    /// `pos` is a position of the ring, within reach of its `i8` index.
    pub open spec fn holds(self, pos: int) -> bool {
        -self.spec_depth() <= pos <= self.spec_depth() && self.spec_depth() + pos <= 127
    }

    /// Puts `elem` in the cell at `pos`.
    pub fn set(&mut self, pos: i8, elem: T)
        requires
            old(self).wf(),
            old(self).holds(pos as int),
        ensures
            final(self).wf(),
            final(self).spec_depth() == old(self).spec_depth(),
            final(self).at(pos as int) == elem,
            forall|q: int| q != pos && old(self).holds(q) ==> #[trigger] final(self).at(q) == old(self).at(q),
    {
        let i = (self.depth + pos) as usize;
        self.cells.set(i, elem);
    }

    fn get(&self, pos: i8) -> (r: &T)
        requires
            self.wf(),
            self.holds(pos as int),
        ensures
            *r == self.at(pos as int),
    {
        &self.cells[(self.depth + pos) as usize]
    }
}

impl<D, C> Level<Forest<D, C>> {
    /// A ring of the given depth whose cells are all empty.
    pub fn new_forests(depth: i8) -> (r: Self)
        requires
            depth >= 0,
        ensures
            r.wf(),
            r.spec_depth() == depth,
            forall|q: int| r.holds(q) ==> (#[trigger] r.at(q))@.len() == 0,
    {
        let width = 2 * (depth as usize) + 1;
        let mut forests: Vec<Forest<D, C>> = Vec::with_capacity(width);
        let mut i: usize = 0;
        while i < width
            invariant
                i <= width,
                width == 2 * depth + 1,
                forests@.len() == i,
                forall|j: int| 0 <= j < i ==> (#[trigger] forests@[j])@.len() == 0,
            decreases width - i,
        {
            forests.push(Forest::new());
            i = i + 1;
        }
        Level { depth, cells: forests }
    }

    /// The cell at `pos` holds no room.
    pub fn is_empty(&self, pos: i8) -> (r: bool)
        requires
            self.wf(),
            self.holds(pos as int),
        ensures
            r == (self.at(pos as int)@.len() == 0),
    {
        self.get(pos).is_empty()
    }

    /// Takes the forest out of the cell at `pos`, leaving it empty.
    fn take(&mut self, pos: i8) -> (r: Forest<D, C>)
        requires
            old(self).wf(),
            old(self).holds(pos as int),
        ensures
            final(self).wf(),
            final(self).spec_depth() == old(self).spec_depth(),
            r == old(self).at(pos as int),
            final(self).at(pos as int)@.len() == 0,
            forall|q: int| q != pos && old(self).holds(q) ==> #[trigger] final(self).at(q) == old(self).at(q),
    {
        let i = (self.depth + pos) as usize;
        let mut forest = Forest::new();
        std::mem::swap(&mut forest, &mut self.cells[i]);
        forest
    }
}

/// The score of a cell whose forest holds `total` rooms, `linear` of them on
/// linear paths: the fewer linear rooms the better, a single room worst,
/// then the fewer rooms the better.
pub open spec fn score3(total: int, linear: int) -> (int, int) {
    (if total > 1 {
        -linear
    } else {
        isize::MIN as int
    }, -total)
}

impl<D, C> Level<Forest<D, C>> where Tree<D, C>: RoomExt + View<V = RoomPlan<D, C>> {
    /// How well the cell at `pos` suits being laid out first.
    pub fn score(&self, pos: i8) -> (r: (isize, isize))
        requires
            self.wf(),
            self.holds(pos as int),
            forest_weights(self.at(pos as int)@).0 <= isize::MAX,
        ensures
            (r.0 as int, r.1 as int) == score3(
                forest_weights(self.at(pos as int)@).0 as int,
                (forest_weights(self.at(pos as int)@).1 + forest_weights(self.at(pos as int)@).2) as int,
            ),
    {
        let forest = self.get(pos);
        proof {
            lemma_forest_acc_bound(forest@);
        }
        let weight = forest.weight() as isize;
        let x = if weight > 1 {
            -(forest.linear_weight() as isize)
        } else {
            isize::MIN
        };
        (x, -weight)
    }
}

impl Level<Dir3Set> {
    /// A ring of the given depth whose cells have no way out yet.
    pub fn new_sets(depth: i8) -> (r: Self)
        requires
            depth >= 0,
        ensures
            r.wf(),
            r.spec_depth() == depth,
            forall|q: int| r.holds(q) ==> #[trigger] r.at(q) == Dir3Set::empty(),
    {
        let width = 2 * (depth as usize) + 1;
        let mut sets: Vec<Dir3Set> = Vec::with_capacity(width);
        let mut i: usize = 0;
        while i < width
            invariant
                i <= width,
                width == 2 * depth + 1,
                sets@.len() == i,
                forall|j: int| 0 <= j < i ==> #[trigger] sets@[j] == Dir3Set::empty(),
            decreases width - i,
        {
            sets.push(Dir3Set { north: false, east: false, west: false });
            i = i + 1;
        }
        Level { depth, cells: sets }
    }

    /// Adds the way out `elem` to the cell at `pos`.
    pub fn insert(&mut self, pos: i8, elem: Dir3)
        requires
            old(self).wf(),
            old(self).holds(pos as int),
        ensures
            final(self).wf(),
            final(self).spec_depth() == old(self).spec_depth(),
            final(self).at(pos as int) == old(self).at(pos as int).with(elem),
            forall|q: int| q != pos && old(self).holds(q) ==> #[trigger] final(self).at(q) == old(self).at(q),
    {
        let i = (self.depth + pos) as usize;
        let mut set = self.cells[i];
        match elem {
            Dir3::North => set.north = true,
            Dir3::East => set.east = true,
            Dir3::West => set.west = true,
        }
        self.cells.set(i, set);
    }
}

/// Takes the first room off `forest` where it comes off on its own, with
/// the door through `dir` at `(x, y)` and the room at `(x, y)`, and puts
/// what is left in the cell that `dir` leads to on the next ring.
fn allocate<D: Describe, C: Describe>(
    next_level: &mut Level<Forest<D, C>>,
    forest: Forest<D, C>,
    x: i8,
    y: i8,
    dir: Dir3,
    floor_plan: &mut FloorPlan,
) where Tree<D, C>: RoomExt + View<V = RoomPlan<D, C>>
    requires
        old(next_level).wf(),
        old(next_level).holds(x + delta3(dir)),
        old(floor_plan).wf(),
        forest_weights(forest@).0 <= usize::MAX,
        spec_pop_tree(forest@) is Ok ==> door_fits(
            *old(floor_plan),
            DoorCoord4 { coord: Coord { x, y }, dir: dir4_of(dir) },
        ) && !old(floor_plan).rooms().dom().contains(Coord { x, y }),
    ensures
        final(next_level).wf(),
        final(next_level).spec_depth() == old(next_level).spec_depth(),
        final(floor_plan).wf(),
        forall|q: int| q != x + delta3(dir) && old(next_level).holds(q) ==> #[trigger] final(next_level).at(q)
            == old(next_level).at(q),
        final(next_level).at(x + delta3(dir))@ == assigned_rest(forest@),
        spec_pop_tree(forest@) is Err ==> *final(floor_plan) == *old(floor_plan),
        spec_pop_tree(forest@) matches Ok((e, c, _)) ==> {
            &&& final(floor_plan).doors() == old(floor_plan).doors().insert(
                door_key(DoorCoord4 { coord: Coord { x, y }, dir: dir4_of(dir) }),
                label_or(e, ""@),
            )
            &&& final(floor_plan).rooms() == old(floor_plan).rooms().insert(
                Coord { x, y },
                match c {
                    Some(c) => Some(c.spec_describe()),
                    None => None,
                },
            )
        },
{
    let delta: i8 = match dir {
        Dir3::North => 0,
        Dir3::East => 1,
        Dir3::West => -1,
    };
    let dir4 = match dir {
        Dir3::North => Dir4::North,
        Dir3::East => Dir4::East,
        Dir3::West => Dir4::West,
    };
    let forest = match forest.pop_tree() {
        Ok((door, contents, forest)) => {
            let door_label = match &door {
                Some(d) => d.describe(),
                None => "".to_owned(),
            };
            floor_plan.add_door(DoorCoord4 { coord: Coord { x, y }, dir: dir4 }, door_label);
            let room_label = match &contents {
                Some(c) => Some(c.describe()),
                None => None,
            };
            proof {
                assert(floor_plan.rooms().dom().contains(Coord { x, y }));
            }
            floor_plan.add_room(Coord { x, y }, room_label);
            forest
        },
        Err(forest) => forest,
    };
    next_level.set(x + delta, forest);
}

/// Every cell of `level` is empty.
pub open spec fn all_empty<D, C>(level: Level<Forest<D, C>>) -> bool {
    forall|q: int| level.holds(q) ==> (#[trigger] level.at(q))@.len() == 0
}

/// The cell at `q` holds some room.
pub open spec fn filled3<D, C>(level: Level<Forest<D, C>>, q: int) -> bool {
    level.at(q)@.len() > 0
}

/// Every cell from `a` to `b` holds some room.
pub open spec fn filled3_between<D, C>(level: Level<Forest<D, C>>, a: int, b: int) -> bool {
    forall|k: int| a <= k <= b ==> filled3(level, k)
}

/// The score of the cell at `k`.
pub open spec fn score3_at<D, C>(level: Level<Forest<D, C>>, k: int) -> (int, int) where
    Tree<D, C>: RoomExt + View<V = RoomPlan<D, C>>,
{
    let w = forest_weights(level.at(k)@);
    score3(w.0 as int, (w.1 + w.2) as int)
}

/// `k` lies, within `start..=end`, in the run of filled cells around `q`.
pub open spec fn in_run3<D, C>(level: Level<Forest<D, C>>, start: int, end: int, q: int, k: int) -> bool {
    start <= k <= end && if k <= q {
        filled3_between(level, k, q)
    } else {
        filled3_between(level, q, k)
    }
}

/// `b` is the best cell, within `start..=end`, of the run around `q`: the
/// first of those cells whose score no other of them beats.
pub open spec fn is_best3<D, C>(level: Level<Forest<D, C>>, start: int, end: int, q: int, b: int) -> bool where
    Tree<D, C>: RoomExt + View<V = RoomPlan<D, C>>,
{
    &&& in_run3(level, start, end, q, b)
    &&& forall|k: int|
        #![trigger in_run3(level, start, end, q, k)]
        in_run3(level, start, end, q, k) ==> !score_gt(score3_at(level, k), score3_at(level, b))
    &&& forall|k: int|
        #![trigger in_run3(level, start, end, q, k)]
        in_run3(level, start, end, q, k) && k < b ==> score_gt(score3_at(level, b), score3_at(level, k))
}

/// The run of filled cells around `q` reaches into `start..` and ends, at
/// `hi`, before `lim`: an empty cell at `hi + 1` closes it.
pub open spec fn closed_by<D, C>(level: Level<Forest<D, C>>, start: int, lim: int, q: int) -> bool {
    exists|hi: int|
        #![trigger filled3_between(level, q, hi)]
        start <= hi < lim && q <= hi && filled3_between(level, q, hi) && !filled3(level, hi + 1)
}

/// `s` with the ways out that a cell left of the best cell gets (west and
/// north) where `left`, and those of a cell right of it (north and east)
/// where `right`.
pub open spec fn marked3(s: Dir3Set, left: bool, right: bool) -> Dir3Set {
    let s1 = if left {
        s.with(Dir3::West).with(Dir3::North)
    } else {
        s
    };
    if right {
        s1.with(Dir3::North).with(Dir3::East)
    } else {
        s1
    }
}

/// The ways out that `alloc_half` gives the cell at `q`: where its run of
/// filled cells is closed by an empty cell within `start..=end`, west and
/// north up to the run's best cell, north and east from it on.
pub open spec fn half_marked3<D, C>(
    level: Level<Forest<D, C>>,
    before: Dir3Set,
    after: Dir3Set,
    start: int,
    end: int,
    q: int,
) -> bool where Tree<D, C>: RoomExt + View<V = RoomPlan<D, C>> {
    if filled3(level, q) && closed_by(level, start, end, q) {
        exists|b: int| #[trigger] is_best3(level, start, end, q, b) && after == marked3(before, q <= b, b <= q)
    } else {
        after == before
    }
}

/// The run ending at `hi` whose scanned part starts at `rs` is, seen from
/// each of its cells, the cells from `rs` to `hi`.
proof fn lemma_run3_is<D, C>(level: Level<Forest<D, C>>, start: int, end: int, rs: int, hi: int, q: int)
    requires
        start <= rs <= hi < end,
        q <= hi,
        filled3_between(level, q, hi),
        filled3_between(level, rs, hi),
        rs == start || !filled3(level, rs - 1),
        rs <= q || rs == start,
        !filled3(level, hi + 1),
    ensures
        forall|k: int| #[trigger] in_run3(level, start, end, q, k) <==> rs <= k <= hi,
{
    assert forall|k: int| #[trigger] in_run3(level, start, end, q, k) <==> rs <= k <= hi by {
        if in_run3(level, start, end, q, k) {
            if k < rs {
                assert(filled3(level, rs - 1));
            }
            if k > hi {
                assert(filled3(level, hi + 1));
            }
        }
    }
}

/// Marks the run of filled cells around `b`: from `b` leftwards west and
/// north, from `b` rightwards north and east, as long as the cells are
/// filled.
fn fill_run3<D, C>(level: &Level<Forest<D, C>>, alloc: &mut Level<Dir3Set>, b: i8) where
    Tree<D, C>: RoomExt + View<V = RoomPlan<D, C>>,

    requires
        level.wf(),
        old(alloc).wf(),
        old(alloc).spec_depth() == level.spec_depth(),
        level.spec_depth() <= 63,
        level.holds(b as int),
        level.at(-level.spec_depth())@.len() == 0,
        level.at(level.spec_depth())@.len() == 0,
    ensures
        final(alloc).wf(),
        final(alloc).spec_depth() == old(alloc).spec_depth(),
        forall|q: int| #![trigger final(alloc).at(q)]
            level.holds(q) ==> final(alloc).at(q) == marked3(
                old(alloc).at(q),
                q <= b && filled3_between(*level, q, b as int),
                b <= q && filled3_between(*level, b as int, q),
            ),
{
    let ghost a0 = *alloc;
    let mut pos2 = b;
    while !level.is_empty(pos2)
        invariant
            level.wf(),
            alloc.wf(),
            alloc.spec_depth() == level.spec_depth(),
            level.spec_depth() <= 63,
            level.holds(pos2 as int),
            pos2 <= b,
            level.holds(b as int),
            level.at(-level.spec_depth())@.len() == 0,
            filled3_between(*level, pos2 + 1, b as int),
            forall|q: int| #![trigger alloc.at(q)]
                level.holds(q) ==> alloc.at(q) == marked3(a0.at(q), pos2 < q <= b, false),
        decreases pos2 + level.spec_depth(),
    {
        alloc.insert(pos2, Dir3::West);
        alloc.insert(pos2, Dir3::North);
        pos2 = pos2 - 1;
    }
    let ghost a1 = *alloc;
    proof {
        assert forall|q: int| level.holds(q) implies (pos2 < q <= b <==> (q <= b && filled3_between(*level, q, b as int))) by {
            if q <= pos2 && filled3_between(*level, q, b as int) {
                assert(filled3(*level, pos2 as int));
            }
        }
    }
    let mut pos2 = b;
    while !level.is_empty(pos2)
        invariant
            level.wf(),
            alloc.wf(),
            alloc.spec_depth() == level.spec_depth(),
            level.spec_depth() <= 63,
            level.holds(pos2 as int),
            b <= pos2,
            level.holds(b as int),
            level.at(level.spec_depth())@.len() == 0,
            filled3_between(*level, b as int, pos2 - 1),
            forall|q: int| #![trigger alloc.at(q)]
                level.holds(q) ==> alloc.at(q) == marked3(a0.at(q), q <= b && filled3_between(*level, q, b as int), b <= q < pos2),
        decreases level.spec_depth() - pos2,
    {
        alloc.insert(pos2, Dir3::North);
        alloc.insert(pos2, Dir3::East);
        pos2 = pos2 + 1;
    }
    proof {
        assert forall|q: int| level.holds(q) implies (b <= q < pos2 <==> (b <= q && filled3_between(*level, b as int, q))) by {
            if pos2 <= q && filled3_between(*level, b as int, q) {
                assert(filled3(*level, pos2 as int));
            }
        }
    }
}

/// Marks, for each run of non-empty cells from `start` to `end` that ends
/// in an empty cell, the ways out of the cells around the best-scoring cell
/// of the run: west and north to its west, north and east to its east.
/// Tells whether any cell in the range is non-empty.
fn alloc_half<D, C>(level: &Level<Forest<D, C>>, alloc: &mut Level<Dir3Set>, start: i8, end: i8) -> (r: bool) where
    Tree<D, C>: RoomExt + View<V = RoomPlan<D, C>>,

    requires
        level.wf(),
        old(alloc).wf(),
        old(alloc).spec_depth() == level.spec_depth(),
        level.spec_depth() <= 63,
        start <= end ==> level.holds(start as int) && level.holds(end as int),
        level.at(-level.spec_depth())@.len() == 0,
        level.at(level.spec_depth())@.len() == 0,
        forall|q: int| level.holds(q) ==> forest_weights((#[trigger] level.at(q))@).0 <= isize::MAX,
    ensures
        final(alloc).wf(),
        final(alloc).spec_depth() == old(alloc).spec_depth(),
        r <==> exists|q: int| start <= q <= end && (#[trigger] level.at(q))@.len() > 0,
        forall|q: int| level.holds(q) && (#[trigger] level.at(q))@.len() == 0 ==> final(alloc).at(q) == old(alloc).at(q),
        forall|q: int| #![trigger final(alloc).at(q)]
            level.holds(q) ==> half_marked3(*level, old(alloc).at(q), final(alloc).at(q), start as int, end as int, q),
{
    let ghost a0 = *alloc;
    let mut best: Option<(i8, (isize, isize))> = None;
    let mut seen_non_empty = false;
    if start > end {
        return false;
    }
    let mut pos: i8 = start;
    let ghost mut rs: int = start as int;
    while pos <= end
        invariant
            level.wf(),
            alloc.wf(),
            alloc.spec_depth() == level.spec_depth(),
            level.spec_depth() <= 63,
            start <= pos <= end + 1,
            start <= end,
            level.holds(start as int),
            level.holds(end as int),
            level.at(-level.spec_depth())@.len() == 0,
            level.at(level.spec_depth())@.len() == 0,
            forall|q: int| level.holds(q) ==> forest_weights((#[trigger] level.at(q))@).0 <= isize::MAX,
            seen_non_empty <==> exists|q: int| start <= q < pos && (#[trigger] level.at(q))@.len() > 0,
            start <= rs <= pos,
            rs == start || !filled3(*level, rs - 1),
            filled3_between(*level, rs, pos - 1),
            best is None ==> rs == pos,
            best matches Some((bp, bs)) ==> {
                &&& rs <= bp < pos
                &&& (bs.0 as int, bs.1 as int) == score3_at(*level, bp as int)
                &&& forall|k: int| rs <= k < pos ==> !score_gt(#[trigger] score3_at(*level, k), score3_at(*level, bp as int))
                &&& forall|k: int| rs <= k < bp ==> score_gt(score3_at(*level, bp as int), #[trigger] score3_at(*level, k))
            },
            forall|q: int| #![trigger alloc.at(q)]
                level.holds(q) ==> if filled3(*level, q) && closed_by(*level, start as int, pos - 1, q) {
                    half_marked3(*level, a0.at(q), alloc.at(q), start as int, end as int, q)
                } else {
                    alloc.at(q) == a0.at(q)
                },
        decreases end - pos + 1,
    {
        let ghost a_before = *alloc;
        if !level.is_empty(pos) {
            seen_non_empty = true;
            assert(filled3(*level, pos as int));
            let score = level.score(pos);
            match best {
                Some((bp, bs)) => {
                    if score.0 > bs.0 || (score.0 == bs.0 && score.1 > bs.1) {
                        best = Some((pos, score));
                    }
                },
                None => {
                    best = Some((pos, score));
                },
            }
            proof {
                assert forall|q: int| #![trigger alloc.at(q)] level.holds(q) implies (if filled3(*level, q) && closed_by(*level, start as int, pos as int, q) {
                    half_marked3(*level, a0.at(q), alloc.at(q), start as int, end as int, q)
                } else {
                    alloc.at(q) == a0.at(q)
                }) by {
                    if filled3(*level, q) && closed_by(*level, start as int, pos as int, q) {
                        let hi = choose|hi: int|
                            #![trigger filled3_between(*level, q, hi)]
                            start <= hi < pos && q <= hi && filled3_between(*level, q, hi) && !filled3(*level, hi + 1);
                        if hi == pos - 1 {
                            assert(filled3(*level, hi + 1));
                        }
                        assert(closed_by(*level, start as int, pos - 1, q));
                    }
                }
            }
        } else {
            if let Some((bp, _)) = best {
                let ghost hi = pos - 1;
                fill_run3(level, alloc, bp);
                proof {
                    assert forall|q: int| #![trigger alloc.at(q)] level.holds(q) implies (if filled3(*level, q) && closed_by(*level, start as int, pos as int, q) {
                        half_marked3(*level, a0.at(q), alloc.at(q), start as int, end as int, q)
                    } else {
                        alloc.at(q) == a0.at(q)
                    }) by {
                        let in_this = q <= bp && filled3_between(*level, q, bp as int) || bp <= q && filled3_between(*level, bp as int, q);
                        if in_this {
                            assert(filled3(*level, q));
                            if q > hi {
                                assert(filled3(*level, pos as int));
                            }
                            assert(filled3_between(*level, q, hi)) by {
                                assert forall|k: int| q <= k <= hi implies filled3(*level, k) by {
                                    if k <= bp {
                                    } else {
                                        assert(rs <= k);
                                    }
                                }
                            }
                            assert(closed_by(*level, start as int, pos as int, q));
                            if closed_by(*level, start as int, pos - 1, q) {
                                let h2 = choose|h2: int|
                                    #![trigger filled3_between(*level, q, h2)]
                                    start <= h2 < pos - 1 && q <= h2 && filled3_between(*level, q, h2) && !filled3(*level, h2 + 1);
                                if h2 + 1 <= bp {
                                    assert(filled3(*level, h2 + 1));
                                } else {
                                    assert(rs <= h2 + 1 <= hi);
                                    assert(filled3(*level, h2 + 1));
                                }
                            }
                            assert(a_before.at(q) == a0.at(q));
                            assert(rs <= q || rs == start) by {
                                if q < rs && rs != start {
                                    assert(filled3(*level, rs - 1));
                                }
                            }
                            lemma_run3_is(*level, start as int, end as int, rs, hi, q);
                            assert(is_best3(*level, start as int, end as int, q, bp as int));
                        } else {
                            if filled3(*level, q) && closed_by(*level, start as int, pos as int, q) {
                                let h = choose|h: int|
                                    #![trigger filled3_between(*level, q, h)]
                                    start <= h < pos && q <= h && filled3_between(*level, q, h) && !filled3(*level, h + 1);
                                if h == hi {
                                    if q <= bp {
                                        assert(filled3_between(*level, q, bp as int));
                                    } else {
                                        assert(filled3_between(*level, bp as int, q)) by {
                                            assert forall|k: int| bp <= k <= q implies filled3(*level, k) by {
                                                assert(rs <= k);
                                            }
                                        }
                                    }
                                }
                                assert(closed_by(*level, start as int, pos - 1, q));
                            }
                        }
                    }
                }
            } else {
                proof {
                    assert forall|q: int| #![trigger alloc.at(q)] level.holds(q) implies (if filled3(*level, q) && closed_by(*level, start as int, pos as int, q) {
                        half_marked3(*level, a0.at(q), alloc.at(q), start as int, end as int, q)
                    } else {
                        alloc.at(q) == a0.at(q)
                    }) by {
                        if filled3(*level, q) && closed_by(*level, start as int, pos as int, q) {
                            let h = choose|h: int|
                                #![trigger filled3_between(*level, q, h)]
                                start <= h < pos && q <= h && filled3_between(*level, q, h) && !filled3(*level, h + 1);
                            if h == pos - 1 {
                                assert(filled3(*level, h));
                                assert(rs == pos);
                            }
                            assert(closed_by(*level, start as int, pos - 1, q));
                        }
                    }
                }
            }
            best = None;
            proof {
                rs = pos + 1;
                assert(!filled3(*level, pos as int));
                if exists|q: int| start <= q < pos + 1 && (#[trigger] level.at(q))@.len() > 0 {
                    let q = choose|q: int| start <= q < pos + 1 && (#[trigger] level.at(q))@.len() > 0;
                    assert(q < pos);
                }
            }
        }
        pos = pos + 1;
    }
    proof {
        assert forall|q: int| level.holds(q) && (#[trigger] level.at(q))@.len() == 0 implies alloc.at(q) == a0.at(q) by {
            assert(!filled3(*level, q));
        }
    }
    seen_non_empty
}

/// Lays out, ring after ring, the rooms of a ring that starts with no room
/// in it: the one pass finds every cell empty, allocates nothing, and ends.
pub fn doit<D: Describe, C: Describe>() where Tree<D, C>: RoomExt + View<V = RoomPlan<D, C>> {
    let depth: i8 = 0;
    let mut floor_plan = FloorPlan::new();
    let mut level = Level::<Forest<D, C>>::new_forests(depth);
    let mut seen_non_empty = true;
    while seen_non_empty
        invariant
            depth == 0,
            level.wf(),
            seen_non_empty ==> level.spec_depth() == 0,
            floor_plan.wf(),
            all_empty(level),
        decreases if seen_non_empty {
            1int
        } else {
            0int
        },
    {
        let mut alloc = Level::new_sets(depth);
        proof {
            assert(level.holds(0));
        }
        let ghost alloc0 = alloc;
        let a = alloc_half(&level, &mut alloc, depth, 0);
        let ghost alloc1 = alloc;
        let b = alloc_half(&level, &mut alloc, 0, -depth);
        proof {
            assert forall|q: int| alloc.holds(q) implies #[trigger] alloc.at(q) == Dir3Set::empty() by {
                assert(level.holds(q));
                assert(level.at(q)@.len() == 0);
                assert(alloc1.at(q) == alloc0.at(q));
            }
        }
        seen_non_empty = a || b;
        let mut next_level = Level::<Forest<D, C>>::new_forests(depth + 1);
        let width: usize = 2 * (depth as usize) + 1;
        let mut i: usize = 0;
        while i < width
            invariant
                depth == 0,
                i <= width,
                width == 1,
                level.wf(),
                level.spec_depth() == 0,
                alloc.wf(),
                alloc.spec_depth() == 0,
                forall|q: int| alloc.holds(q) ==> #[trigger] alloc.at(q) == Dir3Set::empty(),
                next_level.wf(),
                next_level.spec_depth() == 1,
                all_empty(next_level),
                floor_plan.wf(),
            decreases width - i,
        {
            let x: i8 = (i as i8) - depth;
            let y: i8 = depth - if x < 0 {
                -x
            } else {
                x
            };
            proof {
                assert(alloc.holds(x as int));
            }
            let dirs = alloc.get(x).to_vec();
            let forest = level.take(x);
            if dirs.len() == 0 {
            } else if dirs.len() == 1 {
                allocate(&mut next_level, forest, x, y, dirs[0], &mut floor_plan);
            } else if dirs.len() == 2 {
                let (forest1, forest2) = forest.split2();
                allocate(&mut next_level, forest1, x, y, dirs[0], &mut floor_plan);
                allocate(&mut next_level, forest2, x, y, dirs[1], &mut floor_plan);
            } else if dirs.len() == 3 {
                let (forest1, forest2, forest3) = forest.split3();
                allocate(&mut next_level, forest1, x, y, dirs[0], &mut floor_plan);
                allocate(&mut next_level, forest2, x, y, dirs[1], &mut floor_plan);
                allocate(&mut next_level, forest3, x, y, dirs[2], &mut floor_plan);
            }
            i = i + 1;
        }
        proof {
            assert(!seen_non_empty);
        }
        level = next_level;
    }
}

} // verus!
