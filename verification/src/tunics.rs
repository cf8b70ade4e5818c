pub mod room;

use crate::build_plan::BuildPlan;
use crate::build_plan::Index;
use crate::feature::FeaturePlan;
use crate::feature::Op;
use crate::feature::op_cloned;
use crate::feature::prepends_after_start;
use crate::feature::JoinSelector;
use crate::feature::PrependSelector;
use crate::feature::is_empty_branch;
use crate::feature::joined_nodes;
use crate::feature::nat_max;
use crate::random::Weighted;
use crate::random::WeightedTraversal;
use crate::random::choose_weighted_key;
use crate::random::gen_index;
use crate::random::keyed;
use crate::random::weight_sum;
use crate::random::usize_sum;
use rand::rngs::StdRng;
use crate::floor::Describe;
use self::room::Contents;
use vstd::prelude::*;
use vstd::std_specs::cmp::PartialEqSpec;
use vstd::std_specs::cmp::PartialEqSpecImpl;
use vstd::string::StrSliceExecFns;
use vstd::string::StringExecFns;

verus! {

/// A door between a room and the room before it.
#[derive(Clone, Copy, Debug, PartialEq, Eq, Hash, Structural)]
pub enum Door {
    DungeonEntrance,
    SmallKeyLock,
    BigKeyLock,
    /// A wall that you can bomb through.
    /// Visible on the map but invisible to the eye.
    WeakWall,
    /// A wall that you can bomb through.
    /// Visible both on the map and to the eye.
    VeryWeakWall,
    /// Opens when the parent room is activated.
    ActivationLock,
    /// When the hero enters through it, all doors in the inner room is shut
    /// around the player.
    /// The doors open when the room is activated.
    Trap,
}

/// What a dungeon is built from.
#[derive(Clone, Copy, Debug, PartialEq, Eq, Hash, Structural)]
pub enum Feature {
    Entrance,
    Interior(Contents),
    Obstacle(Obstacle),
}

/// What stands between the hero and the rest of the dungeon.
#[derive(Clone, Copy, Debug, PartialEq, Eq, Hash, Structural)]
pub enum Obstacle {
    Chasm,
    Mote,
    Rubble,
    ArrowChallenge,
    FireChallenge,
    Door(Door),
}

/// What a chest holds.
#[derive(Clone, Copy, Debug, PartialEq, Eq, Hash, Structural)]
pub enum Treasure {
    SmallKey,
    BigKey,
    DungeonMap,
    Compass,
    Item(Item),
}

/// An item that lets the hero past an obstacle.
#[derive(Clone, Copy, Debug, PartialEq, Eq, Hash, Structural)]
pub enum Item {
    BombBag,
    Bow,
    Flippers,
    Glove,
    Grapple,
    Lantern,
}

/// What the inside of a room is for.
#[derive(Clone, Copy, Debug, PartialEq, Eq, Hash, Structural)]
pub enum Interior {
    Boss,
    CulDeSac,
    Fairy,
    Entrance,
    SmallChest(Treasure),
    BigChest(Item),
}

/// A feature, or a step of the plan that only the planning uses: hiding the
/// small chests that follow it.
#[derive(Clone, Copy, Debug)]
pub enum AugFeature {
    Feature(Feature),
    HideSmallChests,
}

impl PartialEq for AugFeature {
    fn eq(&self, other: &Self) -> (r: bool) {
        match (self, other) {
            (AugFeature::Feature(a), AugFeature::Feature(b)) => *a == *b,
            (AugFeature::HideSmallChests, AugFeature::HideSmallChests) => true,
            _ => false,
        }
    }
}

impl PartialEqSpecImpl for AugFeature {
    open spec fn obeys_eq_spec() -> bool {
        true
    }

    open spec fn eq_spec(&self, other: &Self) -> bool {
        *self == *other
    }
}

impl Eq for AugFeature {

}

/// The obstacles that `item` gets the hero past.
pub open spec fn obstacles_of(item: Item) -> Seq<Obstacle> {
    match item {
        Item::BombBag => seq![Obstacle::Door(Door::WeakWall), Obstacle::Door(Door::VeryWeakWall)],
        Item::Glove => seq![Obstacle::Rubble],
        Item::Grapple => seq![Obstacle::Chasm],
        Item::Flippers => seq![Obstacle::Mote],
        Item::Bow => seq![Obstacle::ArrowChallenge],
        Item::Lantern => seq![Obstacle::FireChallenge],
    }
}

impl Item {
    /// The obstacles that the item gets the hero past.
    pub fn get_obstacles(self) -> (r: Vec<Obstacle>)
        ensures
            r@ == obstacles_of(self),
    {
        let r = match self {
            Item::BombBag => vec![Obstacle::Door(Door::WeakWall), Obstacle::Door(Door::VeryWeakWall)],
            Item::Glove => vec![Obstacle::Rubble],
            Item::Grapple => vec![Obstacle::Chasm],
            Item::Flippers => vec![Obstacle::Mote],
            Item::Bow => vec![Obstacle::ArrowChallenge],
            Item::Lantern => vec![Obstacle::FireChallenge],
        };
        proof {
            assert(r@ =~= obstacles_of(self));
        }
        r
    }

    /// The name that `from_name` reads for the item.
    pub open spec fn name(self) -> Seq<char> {
        match self {
            Item::BombBag => "bomb-bag"@,
            Item::Bow => "bow"@,
            Item::Flippers => "flippers"@,
            Item::Glove => "glove"@,
            Item::Grapple => "grapple"@,
            Item::Lantern => "lantern"@,
        }
    }

    /// The item named `s`, if any.
    pub fn from_name(s: &str) -> (r: Result<Item, &'static str>)
        ensures
            r matches Ok(item) ==> s@ == item.name(),
            r is Err ==> forall|item: Item| s@ != #[trigger] item.name(),
            r matches Err(e) ==> e@ == "invalid item"@,
    {
        if str_eq(s, "bomb-bag") {
            Ok(Item::BombBag)
        } else if str_eq(s, "bow") {
            Ok(Item::Bow)
        } else if str_eq(s, "flippers") {
            Ok(Item::Flippers)
        } else if str_eq(s, "glove") {
            Ok(Item::Glove)
        } else if str_eq(s, "grapple") {
            Ok(Item::Grapple)
        } else if str_eq(s, "lantern") {
            Ok(Item::Lantern)
        } else {
            proof {
                assert forall|item: Item| s@ != #[trigger] item.name() by {
                    match item {
                        Item::BombBag => {},
                        Item::Bow => {},
                        Item::Flippers => {},
                        Item::Glove => {},
                        Item::Grapple => {},
                        Item::Lantern => {},
                    }
                }
            }
            Err("invalid item")
        }
    }
}

impl std::str::FromStr for Item {
    type Err = &'static str;

    fn from_str(s: &str) -> (r: Result<Item, &'static str>)
        ensures
            r matches Ok(item) ==> s@ == item.name(),
            r is Err ==> forall|item: Item| s@ != #[trigger] item.name(),
            r matches Err(e) ==> e@ == "invalid item"@,
    {
        Item::from_name(s)
    }
}

/// Whether `a` and `b` hold the same text.
fn str_eq(a: &str, b: &str) -> (r: bool)
    ensures
        r == (a@ == b@),
{
    let n = a.unicode_len();
    if n != b.unicode_len() {
        return false;
    }
    let mut i: usize = 0;
    while i < n
        invariant
            n == a@.len(),
            n == b@.len(),
            i <= n,
            forall|j: int| 0 <= j < i ==> a@[j] == b@[j],
        decreases n - i,
    {
        if a.get_char(i) != b.get_char(i) {
            return false;
        }
        i = i + 1;
    }
    proof {
        assert(a@ =~= b@);
    }
    true
}

/// The text of `inner` between the brackets of `name(..)`.
pub(crate) fn call_text(name: &str, inner: String) -> (r: String)
    ensures
        r@ == name@ + "("@ + inner@ + ")"@,
{
    let mut r = String::from_str(name);
    r.append("(");
    r.append(inner.as_str());
    r.append(")");
    r
}

impl Describe for Door {
    open spec fn spec_describe(&self) -> Seq<char> {
        match *self {
            Door::DungeonEntrance => "DungeonEntrance"@,
            Door::SmallKeyLock => "SmallKeyLock"@,
            Door::BigKeyLock => "BigKeyLock"@,
            Door::WeakWall => "WeakWall"@,
            Door::VeryWeakWall => "VeryWeakWall"@,
            Door::ActivationLock => "ActivationLock"@,
            Door::Trap => "Trap"@,
        }
    }

    fn describe(&self) -> (r: String) {
        match self {
            Door::DungeonEntrance => "DungeonEntrance".to_owned(),
            Door::SmallKeyLock => "SmallKeyLock".to_owned(),
            Door::BigKeyLock => "BigKeyLock".to_owned(),
            Door::WeakWall => "WeakWall".to_owned(),
            Door::VeryWeakWall => "VeryWeakWall".to_owned(),
            Door::ActivationLock => "ActivationLock".to_owned(),
            Door::Trap => "Trap".to_owned(),
        }
    }
}

impl Describe for Item {
    open spec fn spec_describe(&self) -> Seq<char> {
        match *self {
            Item::BombBag => "BombBag"@,
            Item::Bow => "Bow"@,
            Item::Flippers => "Flippers"@,
            Item::Glove => "Glove"@,
            Item::Grapple => "Grapple"@,
            Item::Lantern => "Lantern"@,
        }
    }

    fn describe(&self) -> (r: String) {
        match self {
            Item::BombBag => "BombBag".to_owned(),
            Item::Bow => "Bow".to_owned(),
            Item::Flippers => "Flippers".to_owned(),
            Item::Glove => "Glove".to_owned(),
            Item::Grapple => "Grapple".to_owned(),
            Item::Lantern => "Lantern".to_owned(),
        }
    }
}

impl Describe for Treasure {
    open spec fn spec_describe(&self) -> Seq<char> {
        match *self {
            Treasure::SmallKey => "SmallKey"@,
            Treasure::BigKey => "BigKey"@,
            Treasure::DungeonMap => "Map"@,
            Treasure::Compass => "Compass"@,
            Treasure::Item(item) => "Item"@ + "("@ + item.spec_describe() + ")"@,
        }
    }

    fn describe(&self) -> (r: String) {
        match self {
            Treasure::SmallKey => "SmallKey".to_owned(),
            Treasure::BigKey => "BigKey".to_owned(),
            Treasure::DungeonMap => "Map".to_owned(),
            Treasure::Compass => "Compass".to_owned(),
            Treasure::Item(item) => call_text("Item", item.describe()),
        }
    }
}

/// The sub-plans that `x` brings into a branch it is joined to.
pub open spec fn parts(x: FeaturePlan<Feature>) -> Seq<FeaturePlan<Feature>> {
    match x {
        FeaturePlan::Branch(v) => v@,
        _ => seq![x],
    }
}

/// The sub-plans of the branch that joining `xs` in turn gives, from two
/// plans on.
pub open spec fn reduced(xs: Seq<FeaturePlan<Feature>>) -> Seq<FeaturePlan<Feature>>
    decreases xs.len(),
{
    if xs.len() <= 2 {
        joined_nodes(xs[0], xs[1])
    } else {
        reduced(xs.drop_last()) + parts(xs.last())
    }
}

/// `r` is what `t` lowers to: each step that hides small chests is
/// dropped, and the small chests after it turn secret; a boss is put
/// behind a big key lock, and the small chests after it turn secret; a
/// branch becomes its lowered sub-plans joined in turn (an empty branch
/// where there are none, the one lowered sub-plan where there is one).
pub open spec fn lowers(t: FeaturePlan<AugFeature>, is_below: bool, r: FeaturePlan<Feature>) -> bool
    decreases t,
{
    match t {
        FeaturePlan::Feature(AugFeature::HideSmallChests, next) => lowers(*next, true, r),
        FeaturePlan::Feature(AugFeature::Feature(f), next) => match f {
            Feature::Interior(Contents::SmallChest(tr)) if is_below => r matches FeaturePlan::Feature(
                g,
                n2,
            ) && g == Feature::Interior(Contents::SecretChest(tr)) && lowers(*next, true, *n2),
            Feature::Interior(Contents::Boss) => r matches FeaturePlan::Feature(g1, n1) && g1
                == Feature::Obstacle(Obstacle::Door(Door::BigKeyLock)) && (*n1 matches FeaturePlan::Feature(
                g2,
                n2,
            ) && g2 == f && lowers(*next, true, *n2)),
            _ => r matches FeaturePlan::Feature(g, n2) && g == f && lowers(*next, is_below, *n2),
        },
        FeaturePlan::Branch(nodes) => exists|xs: Seq<FeaturePlan<Feature>>|
            #![trigger reduced(xs)]
            xs.len() == nodes@.len() && (forall|k: int| 0 <= k < xs.len() ==> lowers(#[trigger] nodes@[k], is_below, xs[k]))
                && if xs.len() == 0 {
                is_empty_branch(r)
            } else if xs.len() == 1 {
                r == xs[0]
            } else {
                r matches FeaturePlan::Branch(w) && w@ == reduced(xs)
            },
    }
}

/// Lowers `tree`, with `is_below` telling whether a step that hides small
/// chests, or a boss, stands before it.
fn lower_visit(tree: FeaturePlan<AugFeature>, is_below: bool) -> (r: FeaturePlan<Feature>)
    ensures
        lowers(tree, is_below, r),
        is_below ==> !any_in(r, small_chest()),
        forall|tr: Treasure| #[trigger] any_in(r, chest_holding(tr)) == aug_any_in(tree, chest_holding(tr)),
        forall|tr: Treasure| #[trigger] any_in(r, small_chest_of(tr)) == shown_small(tree, is_below, tr),
    decreases tree,
{
    match tree {
        FeaturePlan::Feature(AugFeature::HideSmallChests, next) => {
            let r = lower_visit(*next, true);
            proof {
                assert(is_below ==> !any_in(r, small_chest()));
                assert forall|tr: Treasure| #[trigger] any_in(r, chest_holding(tr)) == aug_any_in(tree, chest_holding(tr)) by {}
                assert forall|tr: Treasure| #[trigger] any_in(r, small_chest_of(tr)) == shown_small(tree, is_below, tr) by {}
            }
            r
        },
        FeaturePlan::Feature(AugFeature::Feature(feature), next) => {
            match feature {
                Feature::Interior(Contents::SmallChest(treasure)) if is_below => {
                    let n = lower_visit(*next, true);
                    let r = n.prepended(Feature::Interior(Contents::SecretChest(treasure)));
                    proof {
                        let g = Feature::Interior(Contents::SecretChest(treasure));
                        assert(any_in(r, small_chest()) == (small_chest()(g) || any_in(n, small_chest())));
                        assert forall|tr: Treasure| #[trigger] any_in(r, chest_holding(tr)) == aug_any_in(tree, chest_holding(tr)) by {
                            assert(any_in(r, chest_holding(tr)) == (chest_holding(tr)(g) || any_in(n, chest_holding(tr))));
                            assert(aug_any_in(tree, chest_holding(tr)) == (chest_holding(tr)(feature) || aug_any_in(*next, chest_holding(tr))));
                            assert(any_in(n, chest_holding(tr)) == aug_any_in(*next, chest_holding(tr)));
                        }
                        assert forall|tr: Treasure| #[trigger] any_in(r, small_chest_of(tr)) == shown_small(tree, is_below, tr) by {
                            assert(any_in(r, small_chest_of(tr)) == (small_chest_of(tr)(g) || any_in(n, small_chest_of(tr))));
                            assert(shown_small(tree, is_below, tr) == shown_small(*next, true, tr));
                            assert(any_in(n, small_chest_of(tr)) == shown_small(*next, true, tr));
                        }
                    }
                    r
                },
                Feature::Interior(Contents::Boss) => {
                    let n = lower_visit(*next, true);
                    let n1 = n.prepended(Feature::Interior(Contents::Boss));
                    let r = n1.prepended(Feature::Obstacle(Obstacle::Door(Door::BigKeyLock)));
                    proof {
                        let g0 = Feature::Obstacle(Obstacle::Door(Door::BigKeyLock));
                        let g1 = Feature::Interior(Contents::Boss);
                        assert(any_in(r, small_chest()) == (small_chest()(g0) || any_in(n1, small_chest())));
                        assert(any_in(n1, small_chest()) == (small_chest()(g1) || any_in(n, small_chest())));
                        assert forall|tr: Treasure| #[trigger] any_in(r, chest_holding(tr)) == aug_any_in(tree, chest_holding(tr)) by {
                            assert(any_in(r, chest_holding(tr)) == (chest_holding(tr)(g0) || any_in(n1, chest_holding(tr))));
                            assert(any_in(n1, chest_holding(tr)) == (chest_holding(tr)(g1) || any_in(n, chest_holding(tr))));
                            assert(aug_any_in(tree, chest_holding(tr)) == (chest_holding(tr)(feature) || aug_any_in(*next, chest_holding(tr))));
                            assert(any_in(n, chest_holding(tr)) == aug_any_in(*next, chest_holding(tr)));
                        }
                        assert forall|tr: Treasure| #[trigger] any_in(r, small_chest_of(tr)) == shown_small(tree, is_below, tr) by {
                            assert(any_in(r, small_chest_of(tr)) == (small_chest_of(tr)(g0) || any_in(n1, small_chest_of(tr))));
                            assert(any_in(n1, small_chest_of(tr)) == (small_chest_of(tr)(g1) || any_in(n, small_chest_of(tr))));
                            assert(shown_small(tree, is_below, tr) == shown_small(*next, true, tr));
                            assert(any_in(n, small_chest_of(tr)) == shown_small(*next, true, tr));
                        }
                    }
                    r
                },
                _ => {
                    let n = lower_visit(*next, is_below);
                    let r = n.prepended(feature);
                    proof {
                        assert(is_below ==> !any_in(r, small_chest()));
                        assert forall|tr: Treasure| #[trigger] any_in(r, chest_holding(tr)) == aug_any_in(tree, chest_holding(tr)) by {
                            assert(any_in(r, chest_holding(tr)) == (chest_holding(tr)(feature) || any_in(n, chest_holding(tr))));
                            assert(aug_any_in(tree, chest_holding(tr)) == (chest_holding(tr)(feature) || aug_any_in(*next, chest_holding(tr))));
                            assert(any_in(n, chest_holding(tr)) == aug_any_in(*next, chest_holding(tr)));
                        }
                        assert forall|tr: Treasure| #[trigger] any_in(r, small_chest_of(tr)) == shown_small(tree, is_below, tr) by {
                            assert(feature != Feature::Interior(Contents::Boss));
                            assert(any_in(r, small_chest_of(tr)) == (small_chest_of(tr)(feature) || any_in(n, small_chest_of(tr))));
                            assert(shown_small(tree, is_below, tr) == ((!is_below && feature == Feature::Interior(Contents::SmallChest(tr)))
                                || shown_small(*next, is_below, tr)));
                            assert(any_in(n, small_chest_of(tr)) == shown_small(*next, is_below, tr));
                        }
                    }
                    r
                },
            }
        },
        FeaturePlan::Branch(nodes) => {
            let ghost all = nodes@;
            let ghost whole = FeaturePlan::<AugFeature>::Branch(nodes);
            let ghost mut xs: Seq<FeaturePlan<Feature>> = Seq::empty();
            let mut acc: Option<FeaturePlan<Feature>> = None;
            for node in it: nodes
                invariant
                    it.seq() == all,
                    whole == tree,
                    whole matches FeaturePlan::Branch(ns) && ns@ == all,
                    xs.len() == it.index(),
                    forall|k: int| 0 <= k < xs.len() ==> lowers(#[trigger] all[k], is_below, xs[k]),
                    xs.len() == 0 ==> acc is None,
                    xs.len() == 1 ==> acc == Some(xs[0]),
                    xs.len() >= 2 ==> (acc matches Some(FeaturePlan::Branch(w)) && w@ == reduced(xs)),
                    is_below ==> forall|k: int| 0 <= k < xs.len() ==> !any_in(#[trigger] xs[k], small_chest()),
                    forall|k: int, tr: Treasure|
                        0 <= k < xs.len() ==> #[trigger] any_in(xs[k], chest_holding(tr)) == aug_any_in(
                            all[k],
                            chest_holding(tr),
                        ),
                    forall|k: int, tr: Treasure|
                        0 <= k < xs.len() ==> #[trigger] any_in(xs[k], small_chest_of(tr)) == shown_small(
                            all[k],
                            is_below,
                            tr,
                        ),
            {
                proof {
                    assert(node == all[it.index() as int]);
                    assert(decreases_to!(whole => all[it.index() as int]));
                }
                let x = lower_visit(node, is_below);
                let ghost prev = xs;
                proof {
                    xs = xs.push(x);
                    assert(xs.drop_last() =~= prev);
                }
                acc = match acc {
                    None => Some(x),
                    Some(a) => Some(a.join(x)),
                };
            }
            let r = match acc {
                Some(a) => a,
                None => FeaturePlan::default(),
            };
            proof {
                assert(xs.len() == all.len());
                assert(forall|k: int| 0 <= k < xs.len() ==> lowers(#[trigger] all[k], is_below, xs[k]));
                if xs.len() == 0 {
                    assert(is_empty_branch(r));
                }
                assert(reduced(xs) == reduced(xs));
                assert(whole matches FeaturePlan::Branch(ns) && xs.len() == ns@.len() && (forall|k: int|
                    0 <= k < xs.len() ==> lowers(#[trigger] ns@[k], is_below, xs[k])) && if xs.len() == 0 {
                    is_empty_branch(r)
                } else if xs.len() == 1 {
                    r == xs[0]
                } else {
                    r matches FeaturePlan::Branch(w) && w@ == reduced(xs)
                });
                assert(lowers(tree, is_below, r));
                assert(branch_shape(xs, r));
                assert(nodes@ == all);
                if is_below {
                    lemma_any_lowered_branch(xs, r, small_chest());
                    lemma_none_of(xs, small_chest());
                }
                assert forall|tr: Treasure| #[trigger] any_in(r, chest_holding(tr)) == aug_any_in(
                    tree,
                    chest_holding(tr),
                ) by {
                    let p = chest_holding(tr);
                    lemma_any_lowered_branch(xs, r, p);
                    assert forall|k: int| 0 <= k < xs.len() implies #[trigger] any_in(xs[k], p) == aug_any_in(all[k], p) by {
                        assert(any_in(xs[k], chest_holding(tr)) == aug_any_in(all[k], chest_holding(tr)));
                    }
                    lemma_any_of_match(xs, all, p);
                }
                assert forall|tr: Treasure| #[trigger] any_in(r, small_chest_of(tr)) == shown_small(
                    tree,
                    is_below,
                    tr,
                ) by {
                    lemma_any_lowered_branch(xs, r, small_chest_of(tr));
                    lemma_shown_of_match(xs, all, is_below, tr);
                }
            }
            r
        },
    }
}

/// Some feature of `p`, at any depth, satisfies `pred`.
pub open spec fn any_in(p: FeaturePlan<Feature>, pred: spec_fn(Feature) -> bool) -> bool
    decreases p,
{
    match p {
        FeaturePlan::Feature(f, next) => pred(f) || any_in(*next, pred),
        FeaturePlan::Branch(v) => any_of(v@, pred),
    }
}

/// Some plan of `s` has a feature, at any depth, that satisfies `pred`.
pub open spec fn any_of(s: Seq<FeaturePlan<Feature>>, pred: spec_fn(Feature) -> bool) -> bool
    decreases s,
{
    if s.len() == 0 {
        false
    } else {
        any_of(s.subrange(0, s.len() - 1), pred) || any_in(s[s.len() - 1], pred)
    }
}

/// Some plain feature of `p`, at any depth, satisfies `pred`; the steps
/// that hide small chests are no features.
pub open spec fn aug_any_in(p: FeaturePlan<AugFeature>, pred: spec_fn(Feature) -> bool) -> bool
    decreases p,
{
    match p {
        FeaturePlan::Feature(AugFeature::Feature(f), next) => pred(f) || aug_any_in(*next, pred),
        FeaturePlan::Feature(AugFeature::HideSmallChests, next) => aug_any_in(*next, pred),
        FeaturePlan::Branch(v) => aug_any_of(v@, pred),
    }
}

/// Some plan of `s` has a plain feature, at any depth, that satisfies
/// `pred`.
pub open spec fn aug_any_of(s: Seq<FeaturePlan<AugFeature>>, pred: spec_fn(Feature) -> bool) -> bool
    decreases s,
{
    if s.len() == 0 {
        false
    } else {
        aug_any_of(s.subrange(0, s.len() - 1), pred) || aug_any_in(s[s.len() - 1], pred)
    }
}

/// A visible small chest, whatever it holds.
pub open spec fn small_chest() -> spec_fn(Feature) -> bool {
    |f: Feature| f matches Feature::Interior(Contents::SmallChest(_))
}

/// A chest holding `tr`, visible or secret.
pub open spec fn chest_holding(tr: Treasure) -> spec_fn(Feature) -> bool {
    |f: Feature| f == Feature::Interior(Contents::SmallChest(tr)) || f == Feature::Interior(Contents::SecretChest(tr))
}

/// A visible small chest holding `tr`.
pub open spec fn small_chest_of(tr: Treasure) -> spec_fn(Feature) -> bool {
    |f: Feature| f == Feature::Interior(Contents::SmallChest(tr))
}

/// A small chest holding `tr` stands in `t` where it shows: not below a
/// step that hides small chests, nor below a boss, however many other
/// features stand between; `below` tells whether `t` itself lies below
/// one.
pub open spec fn shown_small(t: FeaturePlan<AugFeature>, below: bool, tr: Treasure) -> bool
    decreases t,
{
    match t {
        FeaturePlan::Feature(AugFeature::HideSmallChests, next) => shown_small(*next, true, tr),
        FeaturePlan::Feature(AugFeature::Feature(f), next) => (!below && f == Feature::Interior(
            Contents::SmallChest(tr),
        )) || shown_small(*next, below || f == Feature::Interior(Contents::Boss), tr),
        FeaturePlan::Branch(v) => shown_small_of(v@, below, tr),
    }
}

/// A small chest holding `tr` shows in some plan of `s`.
pub open spec fn shown_small_of(s: Seq<FeaturePlan<AugFeature>>, below: bool, tr: Treasure) -> bool
    decreases s,
{
    if s.len() == 0 {
        false
    } else {
        shown_small_of(s.subrange(0, s.len() - 1), below, tr) || shown_small(s[s.len() - 1], below, tr)
    }
}

/// A sequence with one more plan holds a feature where the shorter one
/// does or the new plan does.
proof fn lemma_any_push(s: Seq<FeaturePlan<Feature>>, x: FeaturePlan<Feature>, pred: spec_fn(Feature) -> bool)
    ensures
        any_of(s.push(x), pred) == (any_of(s, pred) || any_in(x, pred)),
{
    assert(s.push(x).subrange(0, s.len() as int) =~= s);
}

/// Two sequences put together hold a feature where one of them does.
proof fn lemma_any_concat(a: Seq<FeaturePlan<Feature>>, b: Seq<FeaturePlan<Feature>>, pred: spec_fn(Feature) -> bool)
    ensures
        any_of(a + b, pred) == (any_of(a, pred) || any_of(b, pred)),
    decreases b.len(),
{
    if b.len() == 0 {
        assert(a + b =~= a);
    } else {
        let b0 = b.subrange(0, b.len() - 1);
        lemma_any_concat(a, b0, pred);
        assert(a + b =~= (a + b0).push(b[b.len() - 1]));
        assert(b =~= b0.push(b[b.len() - 1]));
        lemma_any_push(a + b0, b[b.len() - 1], pred);
        lemma_any_push(b0, b[b.len() - 1], pred);
    }
}

/// The parts of a plan hold a feature exactly where the plan does.
proof fn lemma_any_parts(x: FeaturePlan<Feature>, pred: spec_fn(Feature) -> bool)
    ensures
        any_of(parts(x), pred) == any_in(x, pred),
{
    match x {
        FeaturePlan::Branch(v) => {},
        _ => {
            lemma_any_push(Seq::empty(), x, pred);
            assert(Seq::<FeaturePlan<Feature>>::empty().push(x) =~= seq![x]);
        },
    }
}

/// Two plans joined hold a feature exactly where one of them does.
proof fn lemma_any_joined(a: FeaturePlan<Feature>, b: FeaturePlan<Feature>, pred: spec_fn(Feature) -> bool)
    ensures
        any_of(joined_nodes(a, b), pred) == (any_in(a, pred) || any_in(b, pred)),
{
    lemma_any_parts(a, pred);
    lemma_any_parts(b, pred);
    match (a, b) {
        (FeaturePlan::Branch(u), FeaturePlan::Branch(v)) => {
            lemma_any_concat(u@, v@, pred);
        },
        (FeaturePlan::Branch(u), f) => {
            lemma_any_push(u@, f, pred);
        },
        (f, FeaturePlan::Branch(u)) => {
            lemma_any_push(u@, f, pred);
        },
        (f1, f2) => {
            lemma_any_push(Seq::empty(), f1, pred);
            lemma_any_push(seq![f1], f2, pred);
            assert(Seq::<FeaturePlan<Feature>>::empty().push(f1) =~= seq![f1]);
            assert(seq![f1].push(f2) =~= seq![f1, f2]);
        },
    }
}

/// Joining plans in turn keeps every feature of them, and makes none up.
proof fn lemma_any_reduced(xs: Seq<FeaturePlan<Feature>>, pred: spec_fn(Feature) -> bool)
    requires
        xs.len() >= 2,
    ensures
        any_of(reduced(xs), pred) == any_of(xs, pred),
    decreases xs.len(),
{
    if xs.len() == 2 {
        lemma_any_joined(xs[0], xs[1], pred);
        lemma_any_push(Seq::empty(), xs[0], pred);
        lemma_any_push(seq![xs[0]], xs[1], pred);
        assert(Seq::<FeaturePlan<Feature>>::empty().push(xs[0]) =~= seq![xs[0]]);
        assert(seq![xs[0]].push(xs[1]) =~= xs);
    } else {
        let init = xs.subrange(0, xs.len() - 1);
        lemma_any_reduced(init, pred);
        lemma_any_parts(xs[xs.len() - 1], pred);
        assert(xs.drop_last() =~= init);
        lemma_any_concat(reduced(init), parts(xs[xs.len() - 1]), pred);
    }
}

/// `r` is the branch that joining the lowered sub-plans `xs` in turn
/// gives.
pub open spec fn branch_shape(xs: Seq<FeaturePlan<Feature>>, r: FeaturePlan<Feature>) -> bool {
    if xs.len() == 0 {
        is_empty_branch(r)
    } else if xs.len() == 1 {
        r == xs[0]
    } else {
        r matches FeaturePlan::Branch(w) && w@ == reduced(xs)
    }
}

/// A lowered branch holds a feature exactly where one of its lowered
/// sub-plans does.
proof fn lemma_any_lowered_branch(xs: Seq<FeaturePlan<Feature>>, r: FeaturePlan<Feature>, pred: spec_fn(Feature) -> bool)
    requires
        branch_shape(xs, r),
    ensures
        any_in(r, pred) == any_of(xs, pred),
{
    if xs.len() == 0 {
        let u = r->Branch_0;
        assert(any_in(r, pred) == any_of(u@, pred));
        assert(!any_of(u@, pred));
    } else if xs.len() == 1 {
        lemma_any_push(Seq::empty(), xs[0], pred);
        assert(Seq::<FeaturePlan<Feature>>::empty().push(xs[0]) =~= xs);
    } else {
        lemma_any_reduced(xs, pred);
    }
}

/// Sub-plans that match one for one in holding a feature match as a
/// whole.
proof fn lemma_any_of_match(xs: Seq<FeaturePlan<Feature>>, ys: Seq<FeaturePlan<AugFeature>>, pred: spec_fn(Feature) -> bool)
    requires
        xs.len() == ys.len(),
        forall|k: int| 0 <= k < xs.len() ==> #[trigger] any_in(xs[k], pred) == aug_any_in(ys[k], pred),
    ensures
        any_of(xs, pred) == aug_any_of(ys, pred),
    decreases xs.len(),
{
    if xs.len() > 0 {
        let n = xs.len() - 1;
        assert forall|k: int| 0 <= k < n implies #[trigger] any_in(xs.subrange(0, n)[k], pred) == aug_any_in(
            ys.subrange(0, n)[k],
            pred,
        ) by {
            assert(any_in(xs[k], pred) == aug_any_in(ys[k], pred));
        }
        lemma_any_of_match(xs.subrange(0, n), ys.subrange(0, n), pred);
        assert(any_in(xs[n], pred) == aug_any_in(ys[n], pred));
    }
}

/// Sub-plans that match one for one in showing a small chest match as a
/// whole.
proof fn lemma_shown_of_match(xs: Seq<FeaturePlan<Feature>>, ys: Seq<FeaturePlan<AugFeature>>, below: bool, tr: Treasure)
    requires
        xs.len() == ys.len(),
        forall|k: int| 0 <= k < xs.len() ==> #[trigger] any_in(xs[k], small_chest_of(tr)) == shown_small(ys[k], below, tr),
    ensures
        any_of(xs, small_chest_of(tr)) == shown_small_of(ys, below, tr),
    decreases xs.len(),
{
    if xs.len() > 0 {
        let n = xs.len() - 1;
        assert forall|k: int| 0 <= k < n implies #[trigger] any_in(xs.subrange(0, n)[k], small_chest_of(tr)) == shown_small(
            ys.subrange(0, n)[k],
            below,
            tr,
        ) by {
            assert(any_in(xs[k], small_chest_of(tr)) == shown_small(ys[k], below, tr));
        }
        lemma_shown_of_match(xs.subrange(0, n), ys.subrange(0, n), below, tr);
        assert(any_in(xs[n], small_chest_of(tr)) == shown_small(ys[n], below, tr));
    }
}

/// Sub-plans none of which holds a feature hold none as a whole.
proof fn lemma_none_of(xs: Seq<FeaturePlan<Feature>>, pred: spec_fn(Feature) -> bool)
    requires
        forall|k: int| 0 <= k < xs.len() ==> !(#[trigger] any_in(xs[k], pred)),
    ensures
        !any_of(xs, pred),
    decreases xs.len(),
{
    if xs.len() > 0 {
        let n = xs.len() - 1;
        assert forall|k: int| 0 <= k < n implies !(#[trigger] any_in(xs.subrange(0, n)[k], pred)) by {
            assert(!any_in(xs[k], pred));
        }
        lemma_none_of(xs.subrange(0, n), pred);
        assert(!any_in(xs[n], pred));
    }
}

/// Turns a plan of features and planning steps into one of features alone:
/// the steps that hide small chests are dropped, and the small chests after
/// them turn secret; a boss is put behind a big key lock, and the small
/// chests after it turn secret.
pub fn lower(feature_plan: FeaturePlan<AugFeature>) -> (r: FeaturePlan<Feature>)
    ensures
        lowers(feature_plan, false, r),
        forall|tr: Treasure| #[trigger] any_in(r, chest_holding(tr)) == aug_any_in(feature_plan, chest_holding(tr)),
        forall|tr: Treasure| #[trigger] any_in(r, small_chest_of(tr)) == shown_small(feature_plan, false, tr),
{
    lower_visit(feature_plan, false)
}

/// How much a level of depth counts in the weight of a join.
pub const NODE_DEPTH_WEIGHT: usize = 1;

/// How much a level of depth of the big key counts in the weight of a join.
pub const BIG_KEY_DEPTH_WEIGHT: usize = 2;

/// The most sub-plans that a feature plan keeps side by side.
pub const MAX_WIDTH: usize = 3;

/// Six items, each once, in the order they are drawn from.
pub open spec fn treasure_pool() -> Seq<Item> {
    seq![Item::BombBag, Item::Bow, Item::Grapple, Item::Glove, Item::Lantern, Item::Flippers]
}

/// No item occurs twice in `s`.
pub open spec fn distinct_items(s: Seq<Item>) -> bool {
    forall|i: int, j: int| 0 <= i < j < s.len() ==> s[i] != s[j]
}

/// The items of `items`, each once: the set of items that a dungeon holds.
pub fn item_set(items: &Vec<Item>) -> (r: Vec<Item>)
    ensures
        distinct_items(r@),
        forall|x: Item| #[trigger] r@.contains(x) <==> items@.contains(x),
{
    let mut r: Vec<Item> = Vec::new();
    let mut k: usize = 0;
    while k < items.len()
        invariant
            k <= items@.len(),
            distinct_items(r@),
            forall|x: Item| #[trigger] r@.contains(x) <==> items@.subrange(0, k as int).contains(x),
        decreases items@.len() - k,
    {
        let x = items[k];
        let mut seen = false;
        let mut m: usize = 0;
        while m < r.len()
            invariant
                m <= r@.len(),
                seen <==> exists|q: int| 0 <= q < m && r@[q] == x,
            decreases r@.len() - m,
        {
            if r[m] == x {
                seen = true;
            }
            m = m + 1;
        }
        let ghost before = r@;
        proof {
            assert(items@.subrange(0, k + 1) =~= items@.subrange(0, k as int).push(x));
        }
        if !seen {
            r.push(x);
            proof {
                assert(!before.contains(x));
                assert forall|y: Item| #[trigger] r@.contains(y) <==> items@.subrange(0, k + 1).contains(y) by {
                    let pre = items@.subrange(0, k as int);
                    assert(items@.subrange(0, k + 1) == pre.push(x));
                    assert(before.contains(y) <==> pre.contains(y));
                    if r@.contains(y) && y != x {
                        let q = choose|q: int| 0 <= q < r@.len() && r@[q] == y;
                        assert(before[q] == y);
                    }
                    if before.contains(y) {
                        let q = choose|q: int| 0 <= q < before.len() && before[q] == y;
                        assert(r@[q] == y);
                    }
                    if y == x {
                        assert(r@[r@.len() - 1] == x);
                        assert(pre.push(x)[k as int] == x);
                    } else {
                        if pre.push(x).contains(y) {
                            let q = choose|q: int| 0 <= q < pre.push(x).len() && pre.push(x)[q] == y;
                            assert(pre[q] == y);
                        }
                        if pre.contains(y) {
                            let q = choose|q: int| 0 <= q < pre.len() && pre[q] == y;
                            assert(pre.push(x)[q] == y);
                        }
                    }
                }
            }
        } else {
            proof {
                assert forall|y: Item| #[trigger] r@.contains(y) <==> items@.subrange(0, k + 1).contains(y) by {
                    let pre = items@.subrange(0, k as int);
                    assert(items@.subrange(0, k + 1) == pre.push(x));
                    assert(r@.contains(y) <==> pre.contains(y));
                    if y == x {
                        let q = choose|q: int| 0 <= q < m && r@[q] == x;
                        assert(r@.contains(x));
                        assert(pre.push(x)[k as int] == x);
                        assert(pre.push(x).contains(x));
                        assert(items@.subrange(0, k + 1).contains(y));
                    } else {
                        if pre.push(x).contains(y) {
                            let q = choose|q: int| 0 <= q < pre.push(x).len() && pre.push(x)[q] == y;
                            assert(pre[q] == y);
                        }
                        if pre.contains(y) {
                            let q = choose|q: int| 0 <= q < pre.len() && pre[q] == y;
                            assert(pre.push(x)[q] == y);
                        }
                    }
                }
            }
        }
        k = k + 1;
    }
    proof {
        assert(items@.subrange(0, k as int) =~= items@);
    }
    r
}

/// Draws `n` different items at random.
pub fn gen_treasure_set(rng: &mut StdRng, n: usize) -> (r: Vec<Item>)
    requires
        n <= 6,
    ensures
        r@.len() == n,
        distinct_items(r@),
{
    let mut all_treasures = vec![
        Item::BombBag,
        Item::Bow,
        Item::Grapple,
        Item::Glove,
        Item::Lantern,
        Item::Flippers,
    ];
    proof {
        assert(all_treasures@ =~= treasure_pool());
    }
    let mut treasures: Vec<Item> = Vec::new();
    for k in 0..n
        invariant
            n <= 6,
            treasures@.len() == k,
            all_treasures@.len() == 6 - k,
            distinct_items(treasures@),
            distinct_items(all_treasures@),
            forall|a: int, b: int|
                0 <= a < treasures@.len() && 0 <= b < all_treasures@.len() ==> treasures@[a] != all_treasures@[b],
    {
        let i = gen_index(rng, all_treasures.len());
        let ghost pool = all_treasures@;
        let ghost before = treasures@;
        let item = all_treasures.swap_remove(i);
        treasures.push(item);
        proof {
            assert(item == pool[i as int]);
            assert forall|a: int, b: int| 0 <= a < b < all_treasures@.len() implies all_treasures@[a] != all_treasures@[b] by {
                let pa = if a == i { pool.len() - 1 } else { a };
                let pb = if b == i { pool.len() - 1 } else { b };
                assert(all_treasures@[a] == pool[pa]);
                assert(all_treasures@[b] == pool[pb]);
            }
            assert forall|a: int, b: int|
                0 <= a < treasures@.len() && 0 <= b < all_treasures@.len() implies treasures@[a] != all_treasures@[b] by {
                let pb = if b == i { pool.len() - 1 } else { b };
                assert(all_treasures@[b] == pool[pb]);
                if a < before.len() {
                    assert(treasures@[a] == before[a]);
                }
            }
            assert forall|a: int, b: int| 0 <= a < b < treasures@.len() implies treasures@[a] != treasures@[b] by {
                if b == before.len() {
                    assert(treasures@[a] == before[a]);
                }
            }
        }
    }
    treasures
}

/// `f` comes with the big key: the boss, a big chest, or the big key
/// itself.
pub open spec fn is_big_key_feature(f: AugFeature) -> bool {
    match f {
        AugFeature::Feature(Feature::Interior(Contents::Boss)) => true,
        AugFeature::Feature(Feature::Interior(Contents::BigChest(_))) => true,
        AugFeature::Feature(Feature::Interior(Contents::SmallChest(Treasure::BigKey))) => true,
        AugFeature::Feature(Feature::Interior(Contents::SecretChest(Treasure::BigKey))) => true,
        _ => false,
    }
}

/// Whether `feature` comes with the big key.
pub fn big_key_pred(feature: &AugFeature) -> (r: bool)
    ensures
        r == is_big_key_feature(*feature),
{
    match feature {
        AugFeature::Feature(Feature::Interior(Contents::Boss)) => true,
        AugFeature::Feature(Feature::Interior(Contents::BigChest(_))) => true,
        AugFeature::Feature(Feature::Interior(Contents::SmallChest(Treasure::BigKey))) => true,
        AugFeature::Feature(Feature::Interior(Contents::SecretChest(Treasure::BigKey))) => true,
        _ => false,
    }
}

/// The depth of the shallowest feature of `t` that comes with the big key.
pub open spec fn big_key_depth(t: FeaturePlan<AugFeature>) -> Option<nat> {
    t.find_depth(big_key_pred)
}

/// The depth of the deepest plan of `nodes` other than the one at `i`, or
/// zero.
pub open spec fn max_depth_except(nodes: Seq<FeaturePlan<AugFeature>>, i: int) -> nat
    decreases nodes.len(),
{
    if nodes.len() == 0 {
        0
    } else if nodes.len() - 1 == i {
        max_depth_except(nodes.drop_last(), i)
    } else {
        nat_max(max_depth_except(nodes.drop_last(), i), nodes.last().depth())
    }
}

/// `x`, or the largest `usize` where it is larger.
pub open spec fn saturated(x: int) -> int {
    if x > usize::MAX {
        usize::MAX as int
    } else {
        x
    }
}

/// How much joining the plan at `k` to the one at `i` weighs: nothing for
/// `i` itself; else more the shallower the plan at `k` is than the deepest
/// of the others, and, where the plan at `i` holds something of the big
/// key, the deeper the big key lies in the plan at `k` (the shallower,
/// where it does not).
pub open spec fn join_weight(nodes: Seq<FeaturePlan<AugFeature>>, i: int, k: int) -> int {
    if k == i {
        0
    } else {
        let g = max_depth_except(nodes, i);
        let bk = match big_key_depth(nodes[k]) {
            Some(d) => d,
            None => g,
        };
        let y: int = if big_key_depth(nodes[i]) is Some {
            bk as int
        } else {
            g - bk
        };
        NODE_DEPTH_WEIGHT * (g - nodes[k].depth()) + BIG_KEY_DEPTH_WEIGHT * y + 1
    }
}

/// The plans of `s` are all `bound` deep at most.
pub open spec fn depths_within(s: Seq<FeaturePlan<AugFeature>>, bound: int) -> bool {
    forall|k: int| 0 <= k < s.len() ==> (#[trigger] s[k]).depth() <= bound
}

/// The product of `a` and `b`, or the largest `usize` where it is larger.
fn saturating_mul(a: usize, b: usize) -> (r: usize)
    ensures
        r == saturated(a * b),
{
    match a.checked_mul(b) {
        Some(p) => p,
        None => usize::MAX,
    }
}

/// The depth of the deepest plan of `nodes` other than the one at `i`.
fn max_depth_except_exec(nodes: &[FeaturePlan<AugFeature>], i: usize) -> (r: usize)
    requires
        depths_within(nodes@, usize::MAX as int),
    ensures
        r == max_depth_except(nodes@, i as int),
{
    let mut acc: usize = 0;
    let mut k: usize = 0;
    while k < nodes.len()
        invariant
            k <= nodes@.len(),
            depths_within(nodes@, usize::MAX as int),
            acc == max_depth_except(nodes@.subrange(0, k as int), i as int),
        decreases nodes@.len() - k,
    {
        proof {
            assert(nodes@.subrange(0, k + 1).drop_last() =~= nodes@.subrange(0, k as int));
            assert(nodes@[k as int].depth() <= usize::MAX);
        }
        if k != i {
            let d = nodes[k].max_depth();
            if d > acc {
                acc = d;
            }
        }
        k = k + 1;
    }
    proof {
        assert(nodes@.subrange(0, nodes@.len() as int) =~= nodes@);
    }
    acc
}

/// A depth found in a plan lies above its bottom.
proof fn lemma_big_key_depth_bound(t: FeaturePlan<AugFeature>)
    ensures
        big_key_depth(t) matches Some(d) ==> d < t.depth(),
{
    crate::feature::lemma_find_depth_bound(t, big_key_pred);
}

/// No plan but the one at `i` is deeper than the deepest of the others.
proof fn lemma_max_depth_except(nodes: Seq<FeaturePlan<AugFeature>>, i: int, k: int)
    requires
        0 <= k < nodes.len(),
        k != i,
    ensures
        nodes[k].depth() <= max_depth_except(nodes, i),
    decreases nodes.len(),
{
    if k < nodes.len() - 1 {
        lemma_max_depth_except(nodes.drop_last(), i, k);
    }
}

/// For each plan of `nodes`, how much joining it to the one at `i`
/// weighs, up to the largest `usize`.
pub fn join_weights(nodes: &[FeaturePlan<AugFeature>], i: usize) -> (r: Vec<usize>)
    requires
        i < nodes@.len(),
        depths_within(nodes@, usize::MAX as int),
    ensures
        r@.len() == nodes@.len(),
        forall|k: int| 0 <= k < nodes@.len() ==> #[trigger] r@[k] == saturated(join_weight(nodes@, i as int, k)),
{
    proof {
        assert(nodes@[i as int].depth() <= usize::MAX);
    }
    let depth = nodes[i].find_feature_depth(&big_key_pred);
    let global_max_depth = max_depth_except_exec(nodes, i);
    let mut r: Vec<usize> = Vec::new();
    let mut k: usize = 0;
    while k < nodes.len()
        invariant
            i < nodes@.len(),
            k <= nodes@.len(),
            depths_within(nodes@, usize::MAX as int),
            global_max_depth == max_depth_except(nodes@, i as int),
            depth matches Some(d) ==> big_key_depth(nodes@[i as int]) == Some(d as nat),
            depth is None ==> big_key_depth(nodes@[i as int]) is None,
            r@.len() == k,
            forall|m: int| 0 <= m < k ==> #[trigger] r@[m] == saturated(join_weight(nodes@, i as int, m)),
        decreases nodes@.len() - k,
    {
        if k == i {
            r.push(0);
        } else {
            proof {
                assert(nodes@[k as int].depth() <= usize::MAX);
                lemma_max_depth_except(nodes@, i as int, k as int);
                lemma_big_key_depth_bound(nodes@[k as int]);
            }
            let node_max_depth = nodes[k].max_depth();
            let big_key_depth = match nodes[k].find_feature_depth(&big_key_pred) {
                Some(d) => d,
                None => global_max_depth,
            };
            let y = if depth.is_some() {
                big_key_depth
            } else {
                global_max_depth - big_key_depth
            };
            let a = saturating_mul(NODE_DEPTH_WEIGHT, global_max_depth - node_max_depth);
            let b = saturating_mul(BIG_KEY_DEPTH_WEIGHT, y);
            let w = a.saturating_add(b).saturating_add(1);
            r.push(w);
        }
        k = k + 1;
    }
    r
}

/// The weights of joining each plan of `nodes` to the one at `i`, as
/// `join_weights` gives them.
pub open spec fn join_weight_seq(nodes: Seq<FeaturePlan<AugFeature>>, i: int) -> Seq<usize> {
    Seq::new(nodes.len(), |k: int| saturated(join_weight(nodes, i, k)) as usize)
}

/// The depths of `nodes` fit in a `usize`, and so do the sums of the
/// weights of joining to any one of them.
pub open spec fn join_weights_fit(nodes: Seq<FeaturePlan<AugFeature>>) -> bool {
    &&& depths_within(nodes, usize::MAX as int)
    &&& forall|i: int| 0 <= i < nodes.len() ==> #[trigger] usize_sum(join_weight_seq(nodes, i)) <= usize::MAX
}

/// Joining any other plan weighs at least one; joining a plan to itself
/// weighs nothing.
proof fn lemma_join_weight_pos(nodes: Seq<FeaturePlan<AugFeature>>, i: int, k: int)
    requires
        0 <= k < nodes.len(),
    ensures
        k != i ==> join_weight(nodes, i, k) >= 1,
        k == i ==> join_weight(nodes, i, k) == 0,
{
    if k != i {
        lemma_max_depth_except(nodes, i, k);
        lemma_big_key_depth_bound(nodes[k]);
    }
}

/// Picks which sub-plans of a feature plan to join, at random, weighing
/// each pair by `join_weights`.
pub struct WeightedJoin {
    rng: StdRng,
}

impl WeightedJoin {
    /// The generator that the selector draws from.
    pub closed spec fn source(self) -> StdRng {
        self.rng
    }
}

/// A join selector that draws from `rng`.
pub fn get_join_selector(rng: StdRng) -> (r: WeightedJoin)
    ensures
        r.source() == rng,
{
    WeightedJoin { rng }
}

impl JoinSelector<AugFeature> for WeightedJoin {
    /// No join for three sub-plans or fewer; for more, a join wherever the
    /// weights fit, and only of two sub-plans whose join weighs something.
    open spec fn joins(&self, nodes: Seq<FeaturePlan<AugFeature>>, r: Option<(usize, usize)>) -> bool {
        &&& nodes.len() <= MAX_WIDTH ==> r is None
        &&& r is Some ==> depths_within(nodes, usize::MAX as int)
        &&& nodes.len() > MAX_WIDTH && join_weights_fit(nodes) ==> r is Some
        &&& r matches Some((i, j)) ==> join_weight(nodes, i as int, j as int) > 0
    }

    fn select_join(&mut self, nodes: &[FeaturePlan<AugFeature>]) -> (r: Option<(usize, usize)>)
        ensures
            nodes@.len() <= MAX_WIDTH ==> r is None && *final(self) == *old(self),
            r is Some ==> depths_within(nodes@, usize::MAX as int),
            nodes@.len() > MAX_WIDTH && join_weights_fit(nodes@) ==> r is Some,
            r matches Some((i, j)) ==> join_weight(nodes@, i as int, j as int) > 0,
    {
        if nodes.len() > MAX_WIDTH {
            let mut k: usize = 0;
            while k < nodes.len()
                invariant
                    k <= nodes@.len(),
                    depths_within(nodes@.subrange(0, k as int), usize::MAX as int),
                decreases nodes@.len() - k,
            {
                if nodes[k].checked_depth().is_none() {
                    return None;
                }
                proof {
                    assert forall|m: int| 0 <= m < k + 1 implies (#[trigger] nodes@.subrange(0, k + 1)[m]).depth() <= usize::MAX by {
                        if m < k {
                            assert(nodes@.subrange(0, k + 1)[m] == nodes@.subrange(0, k as int)[m]);
                        }
                    }
                }
                k = k + 1;
            }
            proof {
                assert(nodes@.subrange(0, nodes@.len() as int) =~= nodes@);
            }
            let i = gen_index(&mut self.rng, nodes.len());
            let weights = join_weights(nodes, i);
            proof {
                assert forall|k: int| 0 <= k < nodes@.len() implies #[trigger] weights@[k] == join_weight_seq(nodes@, i as int)[k] by {
                    lemma_join_weight_pos(nodes@, i as int, k);
                }
                assert(weights@ =~= join_weight_seq(nodes@, i as int));
                let k0: int = if i == 0 { 1 } else { 0 };
                lemma_join_weight_pos(nodes@, i as int, k0);
                assert(weights@[k0] > 0);
                if join_weights_fit(nodes@) {
                    assert(usize_sum(join_weight_seq(nodes@, i as int)) <= usize::MAX);
                }
            }
            match keyed(&weights) {
                Some(items) => {
                    proof {
                        let k0: int = if i == 0 { 1 } else { 0 };
                        assert(items@[k0].weight > 0);
                    }
                    match choose_weighted_key(&mut self.rng, items.as_slice()) {
                        Some(j) => {
                            proof {
                                let m = choose|m: int| 0 <= m < items@.len() && (#[trigger] items@[m]).key == j && items@[m].weight > 0;
                                assert(weights@[m] > 0);
                                assert(m == j);
                            }
                            Some((i, j))
                        },
                        None => None,
                    }
                },
                None => None,
            }
        } else {
            None
        }
    }
}

/// Picks the sub-plan that a feature is put in front of, at random.
pub struct RandomPrepend {
    rng: StdRng,
}

impl RandomPrepend {
    /// The generator that the selector draws from.
    pub closed spec fn source(self) -> StdRng {
        self.rng
    }
}

/// A prepend selector that draws from `rng`.
pub fn get_prepend_selector(rng: StdRng) -> (r: RandomPrepend)
    ensures
        r.source() == rng,
{
    RandomPrepend { rng }
}

impl PrependSelector<AugFeature> for RandomPrepend {
    fn select_prepend(&mut self, nodes: &[FeaturePlan<AugFeature>]) -> (r: usize) {
        gen_index(&mut self.rng, nodes.len())
    }
}

/// A traversal selector that draws from `rng`, weighing each position by
/// the number of steps of `build_plan` from which a chain of arcs leads to
/// it.
pub fn get_traversal_selector(rng: StdRng, build_plan: &BuildPlan<AugFeature>) -> (r: WeightedTraversal)
    requires
        build_plan.wf(),
        build_plan.is_acyclic(),
        build_plan.arcs_within_steps(),
    ensures
        r.weights().len() == build_plan.steps_view().len(),
        forall|i: int| 0 <= i < r.weights().len() ==> #[trigger] r.weights()[i] == build_plan.reach_count(i),
{
    let weights = build_plan.reachable_counts();
    WeightedTraversal::with_weights(rng, weights)
}


/// What a dungeon is to hold: how many small keys (each with a door that
/// it opens), fairies and cul-de-sacs, and the items (each with a big chest
/// and the obstacles it gets the hero past).
pub struct Config {
    pub num_small_keys: usize,
    pub num_fairies: usize,
    pub num_cul_de_sacs: usize,
    pub items: Vec<Item>,
}

/// A step that puts `c` in a sub-plan of its own.
pub open spec fn new_interior(c: Contents) -> Op<AugFeature> {
    Op::New(AugFeature::Feature(Feature::Interior(c)))
}

/// A step that puts `o` in front of each sub-plan.
pub open spec fn each_obstacle(o: Obstacle) -> Op<AugFeature> {
    Op::PrependEach(AugFeature::Feature(Feature::Obstacle(o)))
}

/// The steps that an item brings: its big chest, then the obstacles it
/// gets the hero past.
pub open spec fn item_steps(item: Item) -> Seq<Op<AugFeature>> {
    seq![new_interior(Contents::BigChest(item))] + obstacles_of(item).map_values(|o: Obstacle| each_obstacle(o))
}

/// The steps of the items of `items`, in turn.
pub open spec fn items_steps(items: Seq<Item>) -> Seq<Op<AugFeature>>
    decreases items.len(),
{
    if items.len() == 0 {
        Seq::empty()
    } else {
        items_steps(items.drop_last()) + item_steps(items.last())
    }
}

impl Config {
    /// The position of the boss.
    pub open spec fn boss_pos(self) -> int {
        1 + self.num_cul_de_sacs + self.num_fairies
    }

    /// The position of the big key.
    pub open spec fn big_key_pos(self) -> int {
        self.boss_pos() + 1
    }

    /// The position of the step that hides small chests.
    pub open spec fn hide_pos(self) -> int {
        self.boss_pos() + 2
    }

    /// The position of the compass.
    pub open spec fn compass_pos(self) -> int {
        self.boss_pos() + 3
    }

    /// The position of the big chest of the `m`-th item.
    pub open spec fn item_pos(self, m: int) -> int {
        self.boss_pos() + 4 + items_steps(self.items@.take(m)).len()
    }

    /// The position of the first small key lock.
    pub open spec fn locks_pos(self) -> int {
        self.item_pos(self.items@.len() as int)
    }

    /// The position of the first small key.
    pub open spec fn keys_pos(self) -> int {
        self.locks_pos() + self.num_small_keys
    }

    /// The position of the map.
    pub open spec fn map_pos(self) -> int {
        self.keys_pos() + self.num_small_keys
    }

    /// The steps of the build plan: the entrance, the cul-de-sacs, the
    /// fairies, the boss, the big key, the step that hides small chests,
    /// the compass, the items' steps, the small key locks, the small keys,
    /// and the map.
    pub open spec fn steps(self) -> Seq<Op<AugFeature>> {
        seq![Op::PrependGrouped(AugFeature::Feature(Feature::Entrance))] + Seq::new(
            self.num_cul_de_sacs as nat,
            |i: int| new_interior(Contents::Empty),
        ) + Seq::new(self.num_fairies as nat, |i: int| new_interior(Contents::Fairy)) + seq![
            new_interior(Contents::Boss),
            new_interior(Contents::SmallChest(Treasure::BigKey)),
            Op::PrependEach(AugFeature::HideSmallChests),
            new_interior(Contents::SmallChest(Treasure::Compass)),
        ] + items_steps(self.items@) + Seq::new(
            self.num_small_keys as nat,
            |i: int| Op::PrependOne(AugFeature::Feature(Feature::Obstacle(Obstacle::Door(Door::SmallKeyLock)))),
        ) + Seq::new(self.num_small_keys as nat, |i: int| new_interior(Contents::SmallChest(Treasure::SmallKey)))
            + seq![new_interior(Contents::SmallChest(Treasure::DungeonMap))]
    }
}

/// `i` is the first position of `st` that holds `op`.
pub open spec fn first_at(st: Seq<Op<AugFeature>>, op: Op<AugFeature>, i: int) -> bool {
    &&& 0 <= i < st.len()
    &&& st[i] == op
    &&& forall|j: int| 0 <= j < i ==> st[j] != op
}

impl Config {
    /// The arcs laid out before the items: from the entrance to each
    /// cul-de-sac, each fairy and the compass, from the big key and from the
    /// step that hides small chests to the boss, and from the compass to
    /// that step.
    pub open spec fn start_arc(self, s: int, t: int) -> bool {
        ||| s == 0 && 1 <= t < self.boss_pos()
        ||| s == self.big_key_pos() && t == self.boss_pos()
        ||| s == self.hide_pos() && t == self.boss_pos()
        ||| s == self.compass_pos() && t == self.hide_pos()
        ||| s == 0 && t == self.compass_pos()
    }

    /// The arcs of the `m`-th item that its first `d` obstacles take part
    /// in, with the one from the big key to its big chest: from the big
    /// chest to each obstacle, and from each obstacle to the boss.
    pub open spec fn item_arc(self, m: int, d: int, s: int, t: int) -> bool {
        let p = self.item_pos(m);
        ||| s == self.big_key_pos() && t == p
        ||| s == p && p < t <= p + d
        ||| p < s <= p + d && t == self.boss_pos()
    }

    /// The arcs of the first `n` items.
    pub open spec fn items_arc(self, n: int, s: int, t: int) -> bool {
        exists|m: int| 0 <= m < n && #[trigger] self.item_arc(m, obstacles_of(self.items@[m]).len() as int, s, t)
    }

    /// The arcs of the first `i` small key locks: each to the lock before
    /// it, the first to the big key.
    pub open spec fn lock_arc(self, i: int, s: int, t: int) -> bool {
        let q = self.locks_pos();
        ||| i > 0 && s == q && t == self.big_key_pos()
        ||| q < s < q + i && t == s - 1
    }

    /// The arcs of the first `j` small keys: each to the key before it, the
    /// first to the last lock.
    pub open spec fn key_arc(self, j: int, s: int, t: int) -> bool {
        let q = self.keys_pos();
        ||| j > 0 && s == q && t == q - 1
        ||| q < s < q + j && t == s - 1
    }

    /// The arc that ends the key chain: from the entrance to the last small
    /// key, or to the big key where there are none.
    pub open spec fn chain_arc(self, s: int, t: int) -> bool {
        if self.num_small_keys > 0 {
            s == 0 && t == self.map_pos() - 1
        } else {
            s == 0 && t == self.big_key_pos()
        }
    }

    /// The arcs of the map: from the entrance to it; where there is a weak
    /// wall, from the first very weak wall to the first weak wall and from
    /// the map to that very weak wall, else from the map to the boss.
    pub open spec fn map_arc(self, s: int, t: int) -> bool {
        let st = self.steps();
        let ww = each_obstacle(Obstacle::Door(Door::WeakWall));
        let vww = each_obstacle(Obstacle::Door(Door::VeryWeakWall));
        ||| s == 0 && t == self.map_pos()
        ||| if st.contains(ww) {
            (first_at(st, vww, s) && first_at(st, ww, t)) || (s == self.map_pos() && first_at(st, vww, t))
        } else {
            s == self.map_pos() && t == self.boss_pos()
        }
    }

    /// The arcs of the build plan.
    pub open spec fn arc(self, s: int, t: int) -> bool {
        ||| self.start_arc(s, t)
        ||| self.items_arc(self.items@.len() as int, s, t)
        ||| self.lock_arc(self.num_small_keys as int, s, t)
        ||| self.key_arc(self.num_small_keys as int, s, t)
        ||| self.chain_arc(s, t)
        ||| self.map_arc(s, t)
    }
}

/// The steps of the first `m` items, then the `m`-th item's steps, make the
/// steps of the first `m + 1` items.
pub proof fn lemma_items_steps_take(items: Seq<Item>, m: int)
    requires
        0 <= m < items.len(),
    ensures
        items_steps(items.take(m + 1)) == items_steps(items.take(m)) + item_steps(items[m]),
{
    assert(items.take(m + 1).drop_last() =~= items.take(m));
}

/// The steps of a prefix of the items begin the steps of all of them.
pub proof fn lemma_items_steps_prefix(items: Seq<Item>, m: int)
    requires
        0 <= m <= items.len(),
    ensures
        items_steps(items.take(m)).len() <= items_steps(items).len(),
        items_steps(items).take(items_steps(items.take(m)).len() as int) == items_steps(items.take(m)),
    decreases items.len() - m,
{
    if m == items.len() {
        assert(items.take(m) =~= items);
        assert(items_steps(items).take(items_steps(items).len() as int) =~= items_steps(items));
    } else {
        lemma_items_steps_prefix(items, m + 1);
        lemma_items_steps_take(items, m);
        let a = items_steps(items.take(m));
        let b = items_steps(items.take(m + 1));
        assert(b.take(a.len() as int) =~= a);
        assert(items_steps(items).take(a.len() as int) =~= b.take(a.len() as int));
    }
}

/// The first `n + 1` entries of `st` are its first `n` and the next one.
pub proof fn lemma_take_push<A>(st: Seq<A>, n: int)
    requires
        0 <= n < st.len(),
    ensures
        st.take(n + 1) == st.take(n).push(st[n]),
{
    assert(st.take(n + 1) =~= st.take(n).push(st[n]));
}

/// What each position of the build plan's steps holds.
pub proof fn lemma_steps_at(c: Config)
    ensures
        c.steps().len() == c.map_pos() + 1,
        c.item_pos(0) == c.boss_pos() + 4,
        c.locks_pos() == c.item_pos(0) + items_steps(c.items@).len(),
        c.steps()[0] == Op::PrependGrouped(AugFeature::Feature(Feature::Entrance)),
        forall|i: int| 1 <= i < 1 + c.num_cul_de_sacs ==> #[trigger] c.steps()[i] == new_interior(Contents::Empty),
        forall|i: int| 1 + c.num_cul_de_sacs <= i < c.boss_pos() ==> #[trigger] c.steps()[i] == new_interior(Contents::Fairy),
        c.steps()[c.boss_pos()] == new_interior(Contents::Boss),
        c.steps()[c.big_key_pos()] == new_interior(Contents::SmallChest(Treasure::BigKey)),
        c.steps()[c.hide_pos()] == Op::PrependEach(AugFeature::HideSmallChests),
        c.steps()[c.compass_pos()] == new_interior(Contents::SmallChest(Treasure::Compass)),
        forall|j: int| 0 <= j < items_steps(c.items@).len() ==> #[trigger] c.steps()[c.item_pos(0) + j] == items_steps(c.items@)[j],
        forall|i: int|
            c.locks_pos() <= i < c.keys_pos() ==> #[trigger] c.steps()[i] == Op::PrependOne(
                AugFeature::Feature(Feature::Obstacle(Obstacle::Door(Door::SmallKeyLock))),
            ),
        forall|i: int| c.keys_pos() <= i < c.map_pos() ==> #[trigger] c.steps()[i] == new_interior(Contents::SmallChest(Treasure::SmallKey)),
        c.steps()[c.map_pos()] == new_interior(Contents::SmallChest(Treasure::DungeonMap)),
{
    let cul = c.num_cul_de_sacs as int;
    let fai = c.num_fairies as int;
    let k = c.num_small_keys as int;
    let a = seq![Op::PrependGrouped(AugFeature::Feature(Feature::Entrance))];
    let b = Seq::new(c.num_cul_de_sacs as nat, |i: int| new_interior(Contents::Empty));
    let f = Seq::new(c.num_fairies as nat, |i: int| new_interior(Contents::Fairy));
    let m = seq![
        new_interior(Contents::Boss),
        new_interior(Contents::SmallChest(Treasure::BigKey)),
        Op::PrependEach(AugFeature::HideSmallChests),
        new_interior(Contents::SmallChest(Treasure::Compass)),
    ];
    let it = items_steps(c.items@);
    let l = Seq::new(
        c.num_small_keys as nat,
        |i: int| Op::PrependOne(AugFeature::Feature(Feature::Obstacle(Obstacle::Door(Door::SmallKeyLock)))),
    );
    let ks = Seq::new(c.num_small_keys as nat, |i: int| new_interior(Contents::SmallChest(Treasure::SmallKey)));
    let mp = seq![new_interior(Contents::SmallChest(Treasure::DungeonMap))];
    assert(c.items@.take(0) =~= Seq::<Item>::empty());
    assert(c.items@.take(c.items@.len() as int) =~= c.items@);
    let st = a + b + f + m + it + l + ks + mp;
    assert(c.steps() == st);
    let p0 = 1 + cul + fai + 4;
    assert forall|j: int| 0 <= j < it.len() implies #[trigger] st[p0 + j] == it[j] by {
        assert((a + b + f + m + it)[p0 + j] == it[j]);
        assert((a + b + f + m + it + l + ks)[p0 + j] == it[j]);
    }
    assert forall|i: int| p0 + it.len() <= i < p0 + it.len() + k implies #[trigger] st[i] == l[i - p0 - it.len()] by {
        assert((a + b + f + m + it + l)[i] == l[i - p0 - it.len()]);
        assert((a + b + f + m + it + l + ks)[i] == l[i - p0 - it.len()]);
    }
    assert forall|i: int| p0 + it.len() + k <= i < p0 + it.len() + 2 * k implies #[trigger] st[i] == ks[i - p0 - it.len() - k] by {
        assert((a + b + f + m + it + l + ks)[i] == ks[i - p0 - it.len() - k]);
    }
    assert forall|i: int| 1 <= i < 1 + cul implies #[trigger] st[i] == new_interior(Contents::Empty) by {
        assert((a + b)[i] == b[i - 1]);
        assert((a + b + f)[i] == b[i - 1]);
        assert((a + b + f + m)[i] == b[i - 1]);
        assert((a + b + f + m + it)[i] == b[i - 1]);
        assert((a + b + f + m + it + l)[i] == b[i - 1]);
        assert((a + b + f + m + it + l + ks)[i] == b[i - 1]);
    }
    assert forall|i: int| 1 + cul <= i < 1 + cul + fai implies #[trigger] st[i] == new_interior(Contents::Fairy) by {
        assert((a + b + f)[i] == f[i - 1 - cul]);
        assert((a + b + f + m)[i] == f[i - 1 - cul]);
        assert((a + b + f + m + it)[i] == f[i - 1 - cul]);
        assert((a + b + f + m + it + l)[i] == f[i - 1 - cul]);
        assert((a + b + f + m + it + l + ks)[i] == f[i - 1 - cul]);
    }
    assert forall|i: int| 0 <= i < 4 implies #[trigger] st[1 + cul + fai + i] == m[i] by {
        assert((a + b + f + m)[1 + cul + fai + i] == m[i]);
        assert((a + b + f + m + it)[1 + cul + fai + i] == m[i]);
        assert((a + b + f + m + it + l)[1 + cul + fai + i] == m[i]);
        assert((a + b + f + m + it + l + ks)[1 + cul + fai + i] == m[i]);
    }
    assert(st[1 + cul + fai + 0] == m[0]);
    assert(st[1 + cul + fai + 1] == m[1]);
    assert(st[1 + cul + fai + 2] == m[2]);
    assert(st[1 + cul + fai + 3] == m[3]);
    assert((a + b + f + m + it + l + ks)[0] == a[0]);
}

/// Where the `m`-th item's steps stand among those of all items.
pub proof fn lemma_item_at(items: Seq<Item>, m: int)
    requires
        0 <= m < items.len(),
    ensures
        item_steps(items[m]).len() == 1 + obstacles_of(items[m]).len(),
        item_steps(items[m])[0] == new_interior(Contents::BigChest(items[m])),
        forall|d: int| 0 <= d < obstacles_of(items[m]).len() ==> #[trigger] item_steps(items[m])[1 + d] == each_obstacle(obstacles_of(items[m])[d]),
        items_steps(items.take(m + 1)).len() == items_steps(items.take(m)).len() + item_steps(items[m]).len(),
        items_steps(items.take(m + 1)).len() <= items_steps(items).len(),
        forall|d: int|
            0 <= d < item_steps(items[m]).len() ==> #[trigger] items_steps(items)[items_steps(items.take(m)).len() + d]
                == item_steps(items[m])[d],
{
    lemma_items_steps_take(items, m);
    lemma_items_steps_prefix(items, m + 1);
    let a = items_steps(items.take(m));
    let b = items_steps(items.take(m + 1));
    assert forall|d: int| 0 <= d < item_steps(items[m]).len() implies #[trigger] items_steps(items)[a.len() + d]
        == item_steps(items[m])[d] by {
        assert(items_steps(items).take(b.len() as int)[a.len() + d] == b[a.len() + d]);
    }
}

/// The position, among the items' steps, of the `d`-th step of the `m`-th
/// item.
pub open spec fn item_offset(items: Seq<Item>, m: int, d: int) -> int {
    items_steps(items.take(m)).len() + d
}

/// Each position among the items' steps lies in one item's steps.
pub proof fn lemma_items_steps_decompose(items: Seq<Item>, j: int)
    requires
        0 <= j < items_steps(items).len(),
    ensures
        exists|m: int, d: int|
            0 <= m < items.len() && 0 <= d < item_steps(items[m]).len() && j == #[trigger] item_offset(items, m, d),
    decreases items.len(),
{
    let init = items.drop_last();
    let n = items.len() - 1;
    assert(items.take(n) =~= init);
    if j < items_steps(init).len() {
        lemma_items_steps_decompose(init, j);
        let (m, d) = choose|m: int, d: int|
            0 <= m < init.len() && 0 <= d < item_steps(init[m]).len() && j == #[trigger] item_offset(init, m, d);
        assert(init.take(m) =~= items.take(m));
        assert(item_offset(items, m, d) == j);
    } else {
        let d = j - items_steps(init).len();
        assert(item_offset(items, n, d) == j);
    }
}

/// Two steps are equal by `==` exactly where they are the same.
pub proof fn lemma_op_eq_spec(a: Op<AugFeature>, b: Op<AugFeature>)
    ensures
        PartialEqSpec::eq_spec(&a, &b) <==> a == b,
{
}

/// Where the build plan's steps hold a weak wall, a very weak wall comes
/// right after it.
pub proof fn lemma_weak_walls(c: Config, w: int)
    requires
        0 <= w < c.steps().len(),
        c.steps()[w] == each_obstacle(Obstacle::Door(Door::WeakWall)),
    ensures
        w + 1 < c.steps().len(),
        c.steps()[w + 1] == each_obstacle(Obstacle::Door(Door::VeryWeakWall)),
{
    lemma_steps_at(c);
    let st = c.steps();
    let p0 = c.item_pos(0);
    let its = items_steps(c.items@);
    if 1 <= w < 1 + c.num_cul_de_sacs {
        assert(st[w] == new_interior(Contents::Empty));
    } else if 1 + c.num_cul_de_sacs <= w < c.boss_pos() {
        assert(st[w] == new_interior(Contents::Fairy));
    } else if c.locks_pos() <= w < c.keys_pos() {
        assert(st[w] == Op::PrependOne(AugFeature::Feature(Feature::Obstacle(Obstacle::Door(Door::SmallKeyLock)))));
    } else if c.keys_pos() <= w < c.map_pos() {
        assert(st[w] == new_interior(Contents::SmallChest(Treasure::SmallKey)));
    } else if p0 <= w < c.locks_pos() {
        let j = w - p0;
        assert(st[p0 + j] == its[j]);
        lemma_items_steps_decompose(c.items@, j);
        let (m, d) = choose|m: int, d: int|
            0 <= m < c.items@.len() && 0 <= d < item_steps(c.items@[m]).len() && j == #[trigger] item_offset(c.items@, m, d);
        lemma_item_at(c.items@, m);
        let item = c.items@[m];
        let pm = items_steps(c.items@.take(m)).len() as int;
        assert(its[pm + d] == item_steps(item)[d]);
        if d == 0 {
            assert(item_steps(item)[0] == new_interior(Contents::BigChest(item)));
        } else {
            assert(item_steps(item)[1 + (d - 1)] == each_obstacle(obstacles_of(item)[d - 1]));
            assert(obstacles_of(item)[d - 1] == Obstacle::Door(Door::WeakWall));
            assert(item == Item::BombBag);
            assert(d == 1);
            assert(item_steps(item)[1 + 1int] == each_obstacle(obstacles_of(item)[1]));
            assert(its[pm + 2] == item_steps(item)[2]);
            assert(st[p0 + (j + 1)] == its[j + 1]);
        }
    }
}

/// A rank for each step of the build plan, higher at the source of each
/// arc than at its target.
pub open spec fn config_rank(c: Config, i: int) -> nat {
    let k = c.num_small_keys as int;
    if i == 0 {
        (6 + 2 * k) as nat
    } else if i < c.boss_pos() {
        0
    } else if i == c.boss_pos() {
        0
    } else if i == c.big_key_pos() {
        4
    } else if i == c.hide_pos() {
        1
    } else if i == c.compass_pos() {
        2
    } else if i < c.locks_pos() {
        match c.steps()[i] {
            Op::New(_) => 3,
            Op::PrependEach(AugFeature::Feature(Feature::Obstacle(Obstacle::Door(Door::VeryWeakWall)))) => 2,
            _ => 1,
        }
    } else if i < c.keys_pos() {
        (5 + (i - c.locks_pos())) as nat
    } else if i < c.map_pos() {
        (5 + k + (i - c.keys_pos())) as nat
    } else {
        3
    }
}

/// A step that puts an obstacle in front of each sub-plan belongs to an
/// item.
pub proof fn lemma_obstacle_among_items(c: Config, i: int, o: Obstacle)
    requires
        0 <= i < c.steps().len(),
        c.steps()[i] == each_obstacle(o),
    ensures
        c.item_pos(0) <= i < c.locks_pos(),
{
    lemma_steps_at(c);
    let st = c.steps();
    if 1 <= i < 1 + c.num_cul_de_sacs {
        assert(st[i] == new_interior(Contents::Empty));
    } else if 1 + c.num_cul_de_sacs <= i < c.boss_pos() {
        assert(st[i] == new_interior(Contents::Fairy));
    } else if c.locks_pos() <= i < c.keys_pos() {
        assert(st[i] == Op::PrependOne(AugFeature::Feature(Feature::Obstacle(Obstacle::Door(Door::SmallKeyLock)))));
    } else if c.keys_pos() <= i < c.map_pos() {
        assert(st[i] == new_interior(Contents::SmallChest(Treasure::SmallKey)));
    }
}

/// Each arc of the build plan joins two steps, and goes from a higher rank
/// to a lower one.
pub proof fn lemma_config_arc_ranked(c: Config, s: int, t: int)
    requires
        c.arc(s, t),
    ensures
        0 <= s < c.steps().len(),
        0 <= t < c.steps().len(),
        config_rank(c, t) < config_rank(c, s),
{
    lemma_steps_at(c);
    let st = c.steps();
    lemma_items_steps_prefix(c.items@, c.items@.len() as int);
    if c.items_arc(c.items@.len() as int, s, t) {
        let m = choose|m: int|
            0 <= m < c.items@.len() && #[trigger] c.item_arc(m, obstacles_of(c.items@[m]).len() as int, s, t);
        lemma_item_at(c.items@, m);
        let item = c.items@[m];
        let pm = items_steps(c.items@.take(m)).len() as int;
        let p = c.item_pos(m);
        assert(p == c.item_pos(0) + pm);
        assert(items_steps(c.items@)[pm + 0] == item_steps(item)[0]);
        assert(st[c.item_pos(0) + (pm + 0)] == items_steps(c.items@)[pm + 0]);
        assert(st[p] == new_interior(Contents::BigChest(item)));
        let n = obstacles_of(item).len() as int;
        if p < t <= p + n {
            let e = t - p - 1;
            assert(item_steps(item)[1 + e] == each_obstacle(obstacles_of(item)[e]));
            assert(items_steps(c.items@)[pm + (1 + e)] == item_steps(item)[1 + e]);
            assert(st[c.item_pos(0) + (pm + 1 + e)] == items_steps(c.items@)[pm + 1 + e]);
            assert(st[t] == each_obstacle(obstacles_of(item)[e]));
        }
        if p < s <= p + n {
            let e = s - p - 1;
            assert(item_steps(item)[1 + e] == each_obstacle(obstacles_of(item)[e]));
            assert(items_steps(c.items@)[pm + (1 + e)] == item_steps(item)[1 + e]);
            assert(st[c.item_pos(0) + (pm + 1 + e)] == items_steps(c.items@)[pm + 1 + e]);
            assert(st[s] == each_obstacle(obstacles_of(item)[e]));
        }
    } else if c.map_arc(s, t) && !(s == 0 && t == c.map_pos()) {
        let ww = each_obstacle(Obstacle::Door(Door::WeakWall));
        let vww = each_obstacle(Obstacle::Door(Door::VeryWeakWall));
        if st.contains(ww) {
            if first_at(st, vww, s) && first_at(st, ww, t) {
                lemma_obstacle_among_items(c, s, Obstacle::Door(Door::VeryWeakWall));
                lemma_obstacle_among_items(c, t, Obstacle::Door(Door::WeakWall));
            } else {
                lemma_obstacle_among_items(c, t, Obstacle::Door(Door::VeryWeakWall));
            }
        }
    }
}

/// A plan whose steps and arcs are those of `config` has no cycles, and
/// its arcs join steps.
proof fn lemma_plan_of_config(plan: &BuildPlan<AugFeature>, config: Config)
    requires
        plan.steps_view() == config.steps(),
        forall|s: int, t: int| #[trigger] plan.has_arc(s, t) <==> config.arc(s, t),
    ensures
        plan.is_acyclic(),
        plan.arcs_within_steps(),
{
    let rank = |i: int| config_rank(config, i);
    assert forall|s: int, t: int| #[trigger] plan.has_arc(s, t) implies rank(t) < rank(s) && s
        < plan.steps_view().len() && t < plan.steps_view().len() by {
        lemma_config_arc_ranked(config, s, t);
    }
    assert(plan.ranked_by(rank));
}

impl BuildPlan<AugFeature> {
    /// The build plan of a dungeon that holds what `config` asks for.
    #[verifier::spinoff_prover]
    #[verifier::rlimit(60)]
    pub fn from(config: Config) -> (r: BuildPlan<AugFeature>)
        requires
            config.steps().len() < usize::MAX,
        ensures
            r.wf(),
            r.steps_view() == config.steps(),
            forall|s: int, t: int| #[trigger] r.has_arc(s, t) <==> config.arc(s, t),
            r.is_acyclic(),
            r.arcs_within_steps(),
    {
        let ghost st = config.steps();
        proof {
            lemma_steps_at(config);
        }
        let mut build_plan: BuildPlan<AugFeature> = BuildPlan::new();
        proof {
            lemma_take_push(st, 0);
            assert(st.take(0) =~= Seq::<Op<AugFeature>>::empty());
        }
        let entrance = build_plan.vertex(Op::PrependGrouped(AugFeature::Feature(Feature::Entrance)));
        let n_cul = config.num_cul_de_sacs;
        for i in 0..n_cul
            invariant
                st == config.steps(),
                st.len() < usize::MAX,
                n_cul == config.num_cul_de_sacs,
                entrance.0 == 0,
                build_plan.wf(),
                build_plan.steps_view() == st.take(1 + i),
                build_plan.span() == 1 + i,
                forall|j: int| 1 <= j < 1 + config.num_cul_de_sacs ==> #[trigger] st[j] == new_interior(Contents::Empty),
                st.len() == config.map_pos() + 1,
                forall|s: int, t: int| #[trigger] build_plan.has_arc(s, t) <==> (s == 0 && 1 <= t < 1 + i),
        {
            proof {
                lemma_take_push(st, 1 + i);
            }
            let cul_de_sac = build_plan.vertex(Op::New(AugFeature::Feature(Feature::Interior(Contents::Empty))));
            build_plan.arc(entrance, cul_de_sac);
        }
        let n_fairies = config.num_fairies;
        for i in 0..n_fairies
            invariant
                st == config.steps(),
                st.len() < usize::MAX,
                n_fairies == config.num_fairies,
                entrance.0 == 0,
                build_plan.wf(),
                build_plan.steps_view() == st.take(1 + config.num_cul_de_sacs + i),
                build_plan.span() == 1 + config.num_cul_de_sacs + i,
                forall|j: int| 1 + config.num_cul_de_sacs <= j < config.boss_pos() ==> #[trigger] st[j] == new_interior(Contents::Fairy),
                st.len() == config.map_pos() + 1,
                forall|s: int, t: int| #[trigger] build_plan.has_arc(s, t) <==> (s == 0 && 1 <= t < 1 + config.num_cul_de_sacs + i),
        {
            proof {
                lemma_take_push(st, 1 + config.num_cul_de_sacs + i);
            }
            let fairy = build_plan.vertex(Op::New(AugFeature::Feature(Feature::Interior(Contents::Fairy))));
            build_plan.arc(entrance, fairy);
        }
        proof {
            lemma_take_push(st, config.boss_pos());
        }
        let boss = build_plan.vertex(Op::New(AugFeature::Feature(Feature::Interior(Contents::Boss))));
        proof {
            lemma_take_push(st, config.big_key_pos());
        }
        let big_key = build_plan.vertex(
            Op::New(AugFeature::Feature(Feature::Interior(Contents::SmallChest(Treasure::BigKey)))),
        );
        build_plan.arc(big_key, boss);
        proof {
            lemma_take_push(st, config.hide_pos());
        }
        let hide_chests = build_plan.vertex(Op::PrependEach(AugFeature::HideSmallChests));
        proof {
            lemma_take_push(st, config.compass_pos());
        }
        let compass = build_plan.vertex(
            Op::New(AugFeature::Feature(Feature::Interior(Contents::SmallChest(Treasure::Compass)))),
        );
        build_plan.arc(hide_chests, boss);
        build_plan.arc(compass, hide_chests);
        build_plan.arc(entrance, compass);
        proof {
            assert forall|s: int, t: int| #[trigger] build_plan.has_arc(s, t) <==> config.start_arc(s, t) by {}
            assert(config.items@.take(0) =~= Seq::<Item>::empty());
        }
        let n_items = config.items.len();
        for m in 0..n_items
            invariant
                st == config.steps(),
                st.len() < usize::MAX,
                n_items == config.items@.len(),
                entrance.0 == 0,
                boss.0 == config.boss_pos(),
                big_key.0 == config.big_key_pos(),
                build_plan.wf(),
                build_plan.steps_view() == st.take(config.item_pos(m as int)),
                build_plan.span() == config.item_pos(m as int),
                config.item_pos(m as int) <= config.locks_pos(),
                st.len() == config.map_pos() + 1,
                config.locks_pos() == config.item_pos(0) + items_steps(config.items@).len(),
                forall|j: int| 0 <= j < items_steps(config.items@).len() ==> #[trigger] st[config.item_pos(0) + j] == items_steps(config.items@)[j],
                forall|s: int, t: int|
                    #[trigger] build_plan.has_arc(s, t) <==> config.start_arc(s, t) || config.items_arc(m as int, s, t),
        {
            let item = config.items[m];
            let ghost mi = m as int;
            proof {
                lemma_item_at(config.items@, mi);
                lemma_items_steps_prefix(config.items@, mi + 1);
                let p = config.item_pos(mi);
                assert(st[p] == items_steps(config.items@)[items_steps(config.items@.take(mi)).len() + 0int]);
                lemma_take_push(st, p);
            }
            let big_chest = build_plan.vertex(
                Op::New(AugFeature::Feature(Feature::Interior(Contents::BigChest(item)))),
            );
            build_plan.arc(big_key, big_chest);
            let obstacles = item.get_obstacles();
            proof {
                let pm = items_steps(config.items@.take(mi)).len() as int;
                assert(config.item_pos(mi) == config.item_pos(0) + pm);
                assert forall|e: int| 0 <= e < obstacles_of(item).len() implies #[trigger] st[config.item_pos(mi) + 1 + e]
                    == each_obstacle(obstacles_of(item)[e]) by {
                    assert(items_steps(config.items@)[pm + (1 + e)] == item_steps(config.items@[mi])[1 + e]);
                    assert(st[config.item_pos(0) + (pm + 1 + e)] == items_steps(config.items@)[pm + 1 + e]);
                }
            }
            let n_obstacles = obstacles.len();
            for d in 0..n_obstacles
                invariant
                    st == config.steps(),
                    st.len() < usize::MAX,
                    n_items == config.items@.len(),
                    0 <= mi < n_items,
                    item == config.items@[mi],
                    obstacles@ == obstacles_of(item),
                    n_obstacles == obstacles@.len(),
                    entrance.0 == 0,
                    boss.0 == config.boss_pos(),
                    big_key.0 == config.big_key_pos(),
                    big_chest.0 == config.item_pos(mi),
                    build_plan.wf(),
                    build_plan.steps_view() == st.take(config.item_pos(mi) + 1 + d),
                    build_plan.span() == config.item_pos(mi) + 1 + d,
                    config.item_pos(mi + 1) == config.item_pos(mi) + 1 + obstacles_of(item).len(),
                    config.item_pos(mi + 1) <= config.locks_pos(),
                    st.len() == config.map_pos() + 1,
                    forall|e: int| 0 <= e < obstacles_of(item).len() ==> #[trigger] st[config.item_pos(mi) + 1 + e] == each_obstacle(obstacles_of(item)[e]),
                    forall|s: int, t: int|
                        #[trigger] build_plan.has_arc(s, t) <==> config.start_arc(s, t) || config.items_arc(mi, s, t)
                            || config.item_arc(mi, d as int, s, t),
            {
                proof {
                    lemma_take_push(st, config.item_pos(mi) + 1 + d);
                }
                let obstacle = build_plan.vertex(
                    Op::PrependEach(AugFeature::Feature(Feature::Obstacle(obstacles[d]))),
                );
                build_plan.arc(big_chest, obstacle);
                build_plan.arc(obstacle, boss);
            }
            proof {
                assert forall|s: int, t: int|
                    #[trigger] build_plan.has_arc(s, t) <==> config.start_arc(s, t) || config.items_arc(mi + 1, s, t) by {
                    if config.items_arc(mi + 1, s, t) {
                        let m2 = choose|m2: int| 0 <= m2 < mi + 1 && #[trigger] config.item_arc(m2, obstacles_of(config.items@[m2]).len() as int, s, t);
                        if m2 < mi {
                            assert(config.items_arc(mi, s, t));
                        }
                    }
                    if config.item_arc(mi, n_obstacles as int, s, t) {
                        assert(config.item_arc(mi, obstacles_of(config.items@[mi]).len() as int, s, t));
                    }
                }
            }
        }
        let n_keys = config.num_small_keys;
        let mut last_locked_door: Option<Index> = None;
        for i in 0..n_keys
            invariant
                st == config.steps(),
                st.len() < usize::MAX,
                n_keys == config.num_small_keys,
                n_items == config.items@.len(),
                entrance.0 == 0,
                boss.0 == config.boss_pos(),
                big_key.0 == config.big_key_pos(),
                build_plan.wf(),
                build_plan.steps_view() == st.take(config.locks_pos() + i),
                build_plan.span() == config.locks_pos() + i,
                st.len() == config.map_pos() + 1,
                forall|j: int| config.locks_pos() <= j < config.keys_pos() ==> #[trigger] st[j] == Op::PrependOne(
                    AugFeature::Feature(Feature::Obstacle(Obstacle::Door(Door::SmallKeyLock))),
                ),
                i == 0 ==> last_locked_door is None,
                i > 0 ==> last_locked_door == Some(Index((config.locks_pos() + i - 1) as usize)),
                forall|s: int, t: int|
                    #[trigger] build_plan.has_arc(s, t) <==> config.start_arc(s, t) || config.items_arc(n_items as int, s, t)
                        || config.lock_arc(i as int, s, t),
        {
            proof {
                lemma_take_push(st, config.locks_pos() + i);
            }
            let locked_door = build_plan.vertex(
                Op::PrependOne(AugFeature::Feature(Feature::Obstacle(Obstacle::Door(Door::SmallKeyLock)))),
            );
            match last_locked_door {
                Some(last) => build_plan.arc(locked_door, last),
                None => build_plan.arc(locked_door, big_key),
            }
            last_locked_door = Some(locked_door);
        }
        match last_locked_door {
            Some(last_lock) => {
                let mut last_small_key: Option<Index> = None;
                for j in 0..n_keys
                    invariant
                        st == config.steps(),
                        st.len() < usize::MAX,
                        n_keys == config.num_small_keys,
                        n_keys > 0,
                        n_items == config.items@.len(),
                        entrance.0 == 0,
                        boss.0 == config.boss_pos(),
                        big_key.0 == config.big_key_pos(),
                        last_lock.0 == config.keys_pos() - 1,
                        build_plan.wf(),
                        build_plan.steps_view() == st.take(config.keys_pos() + j),
                        build_plan.span() == config.keys_pos() + j,
                        st.len() == config.map_pos() + 1,
                        forall|k: int| config.keys_pos() <= k < config.map_pos() ==> #[trigger] st[k] == new_interior(
                            Contents::SmallChest(Treasure::SmallKey),
                        ),
                        j == 0 ==> last_small_key is None,
                        j > 0 ==> last_small_key == Some(Index((config.keys_pos() + j - 1) as usize)),
                        forall|s: int, t: int|
                            #[trigger] build_plan.has_arc(s, t) <==> config.start_arc(s, t) || config.items_arc(
                                n_items as int,
                                s,
                                t,
                            ) || config.lock_arc(n_keys as int, s, t) || config.key_arc(j as int, s, t),
                {
                    proof {
                        lemma_take_push(st, config.keys_pos() + j);
                    }
                    let small_key = build_plan.vertex(
                        Op::New(AugFeature::Feature(Feature::Interior(Contents::SmallChest(Treasure::SmallKey)))),
                    );
                    match last_small_key {
                        Some(last) => build_plan.arc(small_key, last),
                        None => build_plan.arc(small_key, last_lock),
                    }
                    last_small_key = Some(small_key);
                }
                match last_small_key {
                    Some(last) => build_plan.arc(entrance, last),
                    None => {},
                }
            },
            None => {
                build_plan.arc(entrance, big_key);
            },
        }
        proof {
            if n_keys == 0 {
                assert forall|s: int, t: int| !config.key_arc(0, s, t) by {}
            }
            assert forall|s: int, t: int|
                #[trigger] build_plan.has_arc(s, t) <==> config.start_arc(s, t) || config.items_arc(n_items as int, s, t)
                    || config.lock_arc(n_keys as int, s, t) || config.key_arc(n_keys as int, s, t)
                    || config.chain_arc(s, t) by {}
            lemma_take_push(st, config.map_pos());
        }
        let map = build_plan.vertex(
            Op::New(AugFeature::Feature(Feature::Interior(Contents::SmallChest(Treasure::DungeonMap)))),
        );
        proof {
            assert(st.take(st.len() as int) =~= st);
        }
        let ghost ww_op = each_obstacle(Obstacle::Door(Door::WeakWall));
        let ghost vww_op = each_obstacle(Obstacle::Door(Door::VeryWeakWall));
        match build_plan.index(Op::PrependEach(AugFeature::Feature(Feature::Obstacle(Obstacle::Door(Door::WeakWall))))) {
            Some(weak_wall) => {
                proof {
                    lemma_op_eq_spec(st[weak_wall.0 as int], ww_op);
                    assert(st[weak_wall.0 as int] == ww_op);
                    lemma_weak_walls(config, weak_wall.0 as int);
                    lemma_op_eq_spec(st[weak_wall.0 + 1], vww_op);
                    assert forall|k: int| 0 <= k < weak_wall.0 implies st[k] != ww_op by {
                        lemma_op_eq_spec(st[k], ww_op);
                    }
                }
                match build_plan.index(
                    Op::PrependEach(AugFeature::Feature(Feature::Obstacle(Obstacle::Door(Door::VeryWeakWall)))),
                ) {
                    Some(very_weak_wall) => {
                        proof {
                            lemma_op_eq_spec(st[very_weak_wall.0 as int], vww_op);
                            assert forall|k: int| 0 <= k < very_weak_wall.0 implies st[k] != vww_op by {
                                lemma_op_eq_spec(st[k], vww_op);
                            }
                            assert(first_at(st, ww_op, weak_wall.0 as int));
                            assert(first_at(st, vww_op, very_weak_wall.0 as int));
                            assert(st.contains(ww_op));
                        }
                        build_plan.arc(very_weak_wall, weak_wall);
                        build_plan.arc(map, very_weak_wall);
                        proof {
                            assert forall|s: int, t: int|
                                (first_at(st, vww_op, s) && first_at(st, ww_op, t)) implies s == very_weak_wall.0 && t == weak_wall.0 by {
                                if s < very_weak_wall.0 {
                                    assert(st[s] != vww_op);
                                }
                                if s > very_weak_wall.0 {
                                    assert(st[very_weak_wall.0 as int] != vww_op);
                                }
                                if t < weak_wall.0 {
                                    assert(st[t] != ww_op);
                                }
                                if t > weak_wall.0 {
                                    assert(st[weak_wall.0 as int] != ww_op);
                                }
                            }
                            assert forall|t: int| first_at(st, vww_op, t) implies t == very_weak_wall.0 by {
                                if t < very_weak_wall.0 {
                                    assert(st[t] != vww_op);
                                }
                                if t > very_weak_wall.0 {
                                    assert(st[very_weak_wall.0 as int] != vww_op);
                                }
                            }
                        }
                    },
                    None => {
                        proof {
                            assert(!PartialEqSpec::eq_spec(&st[weak_wall.0 + 1], &vww_op));
                            assert(false);
                        }
                    },
                }
            },
            None => {
                proof {
                    assert forall|k: int| 0 <= k < st.len() implies st[k] != ww_op by {
                        lemma_op_eq_spec(st[k], ww_op);
                    }
                    assert(!st.contains(ww_op));
                }
                build_plan.arc(map, boss);
            },
        }
        build_plan.arc(entrance, map);
        proof {
            assert forall|s: int, t: int| #[trigger] build_plan.has_arc(s, t) <==> config.arc(s, t) by {}
            lemma_plan_of_config(&build_plan, config);
        }
        build_plan
    }
}

/// In a traversal of a dungeon's plan, each small key lock closed at turn
/// `k` comes after a turn that closes a step putting a feature in a
/// sub-plan of its own.
proof fn lemma_lock_after_new(
    plan: BuildPlan<AugFeature>,
    config: Config,
    xs: Seq<int>,
    opens: Seq<Set<int>>,
    closeds: Seq<Set<int>>,
    k: int,
)
    requires
        plan.steps_view() == config.steps(),
        forall|s: int, t: int| #[trigger] plan.has_arc(s, t) <==> config.arc(s, t),
        plan.is_traversal(xs, opens, closeds),
        0 <= k < xs.len(),
        config.locks_pos() <= xs[k] < config.keys_pos(),
    ensures
        exists|j: int| 0 <= j < k && #[trigger] config.steps()[xs[j]] is New,
    decreases k,
{
    lemma_steps_at(config);
    plan.law_traversal_order(xs, opens, closeds);
    let q = config.locks_pos();
    let target = if xs[k] == q {
        config.big_key_pos()
    } else {
        xs[k] - 1
    };
    assert(config.lock_arc(config.num_small_keys as int, xs[k], target));
    assert(plan.has_arc(xs[k], target));
    let j = choose|j: int| 0 <= j < k && xs[j] == target;
    if xs[k] == q {
        assert(config.steps()[xs[j]] is New);
    } else {
        lemma_lock_after_new(plan, config, xs, opens, closeds, j);
        let i = choose|i: int| 0 <= i < j && #[trigger] config.steps()[xs[i]] is New;
        assert(config.steps()[xs[i]] is New);
    }
}

/// Every build sequence of a dungeon's plan puts a step that makes the
/// plan non-empty before each step that puts a feature in front of one
/// sub-plan, so that a feature plan can be built from it.
pub proof fn law_dungeon_sequence_starts(
    plan: BuildPlan<AugFeature>,
    config: Config,
    r: Seq<Op<AugFeature>>,
    xs: Seq<int>,
    opens: Seq<Set<int>>,
    closeds: Seq<Set<int>>,
)
    requires
        plan.steps_view() == config.steps(),
        forall|s: int, t: int| #[trigger] plan.has_arc(s, t) <==> config.arc(s, t),
        plan.is_traversal(xs, opens, closeds),
        plan.emitted(r, xs, opens),
    ensures
        prepends_after_start(r),
{
    lemma_steps_at(config);
    let st = config.steps();
    assert forall|k: int| 0 <= k < r.len() && #[trigger] r[k] is PrependOne implies exists|j: int|
        0 <= j < k && (r[j] is New || r[j] is PrependGrouped) by {
        assert(0 <= xs[k] < st.len());
        assert(op_cloned(st[xs[k]], r[k]));
        assert(st[xs[k]] is PrependOne);
        let i = xs[k];
        if 1 <= i < 1 + config.num_cul_de_sacs {
            assert(st[i] == new_interior(Contents::Empty));
        } else if 1 + config.num_cul_de_sacs <= i < config.boss_pos() {
            assert(st[i] == new_interior(Contents::Fairy));
        } else if config.keys_pos() <= i < config.map_pos() {
            assert(st[i] == new_interior(Contents::SmallChest(Treasure::SmallKey)));
        } else if config.item_pos(0) <= i < config.locks_pos() {
            let j = i - config.item_pos(0);
            assert(st[config.item_pos(0) + j] == items_steps(config.items@)[j]);
            lemma_items_steps_decompose(config.items@, j);
            let (m, d) = choose|m: int, d: int|
                0 <= m < config.items@.len() && 0 <= d < item_steps(config.items@[m]).len() && j
                    == #[trigger] item_offset(config.items@, m, d);
            lemma_item_at(config.items@, m);
            let pm = items_steps(config.items@.take(m)).len() as int;
            assert(items_steps(config.items@)[pm + d] == item_steps(config.items@[m])[d]);
            if d > 0 {
                assert(item_steps(config.items@[m])[1 + (d - 1)] == each_obstacle(obstacles_of(config.items@[m])[d - 1]));
            }
        }
        assert(config.locks_pos() <= i < config.keys_pos());
        lemma_lock_after_new(plan, config, xs, opens, closeds, k);
        let j = choose|j: int| 0 <= j < k && #[trigger] st[xs[j]] is New;
        assert(op_cloned(st[xs[j]], r[j]));
        assert(r[j] is New);
    }
}

impl Config {
    /// The number of steps of the build plan, where it fits in a `usize`.
    pub fn num_steps(&self) -> (r: Option<usize>)
        ensures
            r matches Some(n) ==> n == self.steps().len(),
            r is None ==> self.steps().len() > usize::MAX,
    {
        proof {
            lemma_steps_at(*self);
            assert(self.items@.take(0) =~= Seq::<Item>::empty());
            assert(self.items@.take(self.items@.len() as int) =~= self.items@);
        }
        let mut items_len: usize = 0;
        let mut m: usize = 0;
        while m < self.items.len()
            invariant
                m <= self.items@.len(),
                items_len == items_steps(self.items@.take(m as int)).len(),
            decreases self.items@.len() - m,
        {
            proof {
                lemma_item_at(self.items@, m as int);
                lemma_items_steps_prefix(self.items@, m as int + 1);
                lemma_items_steps_prefix(self.items@, self.items@.len() as int);
                assert(self.items@.take(self.items@.len() as int) =~= self.items@);
            }
            let n_obstacles = self.items[m].get_obstacles().len();
            match items_len.checked_add(1 + n_obstacles) {
                Some(n) => {
                    items_len = n;
                },
                None => {
                    proof {
                        let all = items_steps(self.items@).len();
                        assert(items_steps(self.items@.take(m + 1)).len() == items_len + 1 + n_obstacles);
                        assert(items_steps(self.items@.take(m + 1)).len() <= all);
                        assert(self.locks_pos() == self.item_pos(0) + all);
                        assert(self.steps().len() >= all);
                        assert(items_len + 1 + n_obstacles > usize::MAX);
                        assert(self.steps().len() > usize::MAX);
                    }
                    return None;
                },
            }
            m = m + 1;
        }
        proof {
            assert(self.items@.take(self.items@.len() as int) =~= self.items@);
        }
        let fixed: usize = 6;
        let parts = [fixed, self.num_cul_de_sacs, self.num_fairies, items_len, self.num_small_keys, self.num_small_keys];
        let mut total: usize = 0;
        let mut k: usize = 0;
        while k < 6
            invariant
                k <= 6,
                self.steps().len() == fixed + self.num_cul_de_sacs + self.num_fairies + items_len + self.num_small_keys
                    + self.num_small_keys,
                parts@ == seq![fixed, self.num_cul_de_sacs, self.num_fairies, items_len, self.num_small_keys, self.num_small_keys],
                total == (if k > 0 { parts@[0] as int } else { 0 }) + (if k > 1 { parts@[1] as int } else { 0 })
                    + (if k > 2 { parts@[2] as int } else { 0 }) + (if k > 3 { parts@[3] as int } else { 0 })
                    + (if k > 4 { parts@[4] as int } else { 0 }) + (if k > 5 { parts@[5] as int } else { 0 }),
            decreases 6 - k,
        {
            match total.checked_add(parts[k]) {
                Some(t) => {
                    total = t;
                },
                None => {
                    return None;
                },
            }
            k = k + 1;
        }
        Some(total)
    }
}

} // verus!
