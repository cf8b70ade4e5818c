use crate::feature::{decides, inc_depth, min_depth, nat_max, satisfies};
use crate::random::choose_from;
use crate::random::positions_below;
use rand::rngs::StdRng;
use vstd::prelude::*;

verus! {

/// A tree of features: a feature followed by the rest of the tree, or a
/// branch of independent sub-trees.
pub enum Tree<F> {
    Feature(F, Box<Tree<F>>),
    Branch(Vec<Tree<F>>),
}

impl<F> Tree<F> {
    /// The depth of the shallowest feature of which `p` holds, if any:
    /// a feature on top is at depth 0, and each feature or branch above
    /// adds one.
    pub open spec fn find_depth<P: Fn(&F) -> bool>(self, p: P) -> Option<nat>
        decreases self,
    {
        match self {
            Tree::Feature(f, next) => if satisfies(p, f) {
                Some(0)
            } else {
                inc_depth(next.find_depth(p))
            },
            Tree::Branch(nodes) => seq_find_depth(nodes@, p),
        }
    }

    /// The number of levels of the tree: a branch counts as a level, and so
    /// does every feature.
    pub open spec fn depth(self) -> nat
        decreases self,
    {
        match self {
            Tree::Feature(_, next) => next.depth() + 1,
            Tree::Branch(nodes) => 1 + seq_depth(nodes@),
        }
    }
}

/// The largest depth among the trees of `s`, or 0 for an empty sequence.
pub open spec fn seq_depth<F>(s: Seq<Tree<F>>) -> nat
    decreases s,
{
    if s.len() == 0 {
        0
    } else {
        nat_max(seq_depth(s.subrange(0, s.len() - 1)), s[s.len() - 1].depth())
    }
}


/// The shallowest depth, one below the branch, of a feature of which `p`
/// holds in any tree of `s`.
pub open spec fn seq_find_depth<F, P: Fn(&F) -> bool>(s: Seq<Tree<F>>, p: P) -> Option<nat>
    decreases s,
{
    if s.len() == 0 {
        None
    } else {
        min_depth(
            seq_find_depth(s.subrange(0, s.len() - 1), p),
            inc_depth(s[s.len() - 1].find_depth(p)),
        )
    }
}

/// The sub-trees of the branch that joining `a` and `b` gives.
pub open spec fn joined_nodes<F>(a: Tree<F>, b: Tree<F>) -> Seq<Tree<F>> {
    match (a, b) {
        (Tree::Branch(u), Tree::Branch(v)) => u@ + v@,
        (Tree::Branch(u), f) => u@.push(f),
        (f, Tree::Branch(u)) => u@.push(f),
        (f1, f2) => seq![f1, f2],
    }
}

/// A depth found in a tree lies within the tree.
pub proof fn lemma_find_depth_bound<F, P: Fn(&F) -> bool>(t: Tree<F>, p: P)
    ensures
        t.find_depth(p) matches Some(d) ==> d < t.depth(),
    decreases t,
{
    match t {
        Tree::Feature(f, next) => {
            lemma_find_depth_bound(*next, p);
        },
        Tree::Branch(nodes) => {
            assert(decreases_to!(t => nodes@));
            lemma_seq_find_depth_bound(nodes@, p);
        },
    }
}

/// A depth found in a sequence of trees is at most the sequence's depth.
pub proof fn lemma_seq_find_depth_bound<F, P: Fn(&F) -> bool>(s: Seq<Tree<F>>, p: P)
    ensures
        seq_find_depth(s, p) matches Some(d) ==> d <= seq_depth(s),
    decreases s,
{
    if s.len() > 0 {
        lemma_seq_find_depth_bound(s.subrange(0, s.len() - 1), p);
        lemma_find_depth_bound(s[s.len() - 1], p);
    }
}

/// Adding one more tree to a sequence combines its depth with the others'.
pub proof fn lemma_seq_depth_push<F>(s: Seq<Tree<F>>, i: int)
    requires
        0 <= i < s.len(),
    ensures
        seq_depth(s.subrange(0, i + 1)) == nat_max(seq_depth(s.subrange(0, i)), s[i].depth()),
{
    assert(s.subrange(0, i + 1).subrange(0, i) =~= s.subrange(0, i));
}

/// Every tree of a sequence is at most as deep as the sequence.
pub proof fn lemma_seq_depth_bound<F>(s: Seq<Tree<F>>, i: int)
    requires
        0 <= i < s.len(),
    ensures
        s[i].depth() <= seq_depth(s),
    decreases s.len(),
{
    if i < s.len() - 1 {
        let t = s.subrange(0, s.len() - 1);
        lemma_seq_depth_bound(t, i);
    }
}

impl<F> Tree<F> {
    /// An empty tree: a branch with no sub-trees.
    pub fn new() -> (r: Self)
        ensures
            r matches Tree::Branch(nodes) && nodes@.len() == 0,
    {
        Tree::Branch(Vec::new())
    }

    /// A tree of one feature over an empty branch.
    pub fn new_feature(feature: F) -> (r: Self)
        ensures
            r matches Tree::Feature(f, next) && f == feature && (*next matches Tree::Branch(
                nodes,
            ) && nodes@.len() == 0),
    {
        Tree::new().prepended(feature)
    }

    /// The tree with `feature` put in front of it.
    pub fn prepended(self, feature: F) -> (r: Self)
        ensures
            r == Tree::Feature(feature, Box::new(self)),
    {
        Tree::Feature(feature, Box::new(self))
    }

    /// Puts `feature` in front of the tree.
    pub fn prepend(&mut self, feature: F)
        ensures
            *final(self) == Tree::Feature(feature, Box::new(*old(self))),
    {
        let mut rest = Tree::new();
        std::mem::swap(&mut rest, self);
        *self = Tree::Feature(feature, Box::new(rest));
    }

    /// Joins another tree beside this one: the sub-trees of branches are
    /// merged into one branch, and a tree that is not a branch becomes one
    /// of its sub-trees.
    pub fn join(&mut self, other: Self)
        ensures
            *final(self) matches Tree::Branch(w) && w@ == joined_nodes(*old(self), other),
    {
        let mut this = Tree::new();
        std::mem::swap(&mut this, self);
        *self = match (this, other) {
            (Tree::Branch(mut u), Tree::Branch(mut v)) => {
                u.append(&mut v);
                Tree::Branch(u)
            },
            (Tree::Branch(mut u), feature) => {
                u.push(feature);
                Tree::Branch(u)
            },
            (this, Tree::Branch(mut u)) => {
                u.push(this);
                Tree::Branch(u)
            },
            (this, f) => Tree::Branch(vec![this, f]),
        };
    }

    /// Drops the feature on top of the tree, if there is one.
    pub fn skip_feature(&mut self)
        ensures
            match *old(self) {
                Tree::Feature(_, next) => *final(self) == *next,
                _ => *final(self) == *old(self),
            },
    {
        let mut this = Tree::new();
        std::mem::swap(&mut this, self);
        *self = match this {
            Tree::Feature(_, next) => *next,
            other => other,
        };
    }

    /// The depth of the shallowest feature of which `predicate` holds.
    pub fn find_feature_depth<P: Fn(&F) -> bool>(&self, predicate: &P) -> (r: Option<usize>)
        requires
            decides(*predicate),
            self.depth() <= usize::MAX,
        ensures
            r matches Some(d) ==> self.find_depth(*predicate) == Some(d as nat),
            r is None ==> self.find_depth(*predicate) is None,
        decreases self,
    {
        proof {
            lemma_find_depth_bound(*self, *predicate);
        }
        match self {
            Tree::Feature(feature, next) => {
                assert(call_requires(*predicate, (feature,)));
                let hit = predicate(feature);
                if hit {
                    Some(0)
                } else {
                    proof {
                        lemma_find_depth_bound(**next, *predicate);
                    }
                    match next.find_feature_depth(predicate) {
                        Some(depth) => Some(depth + 1),
                        None => None,
                    }
                }
            },
            Tree::Branch(nodes) => {
                let mut acc: Option<usize> = None;
                let mut i: usize = 0;
                while i < nodes.len()
                    invariant
                        i <= nodes.len(),
                        decides(*predicate),
                        self.depth() <= usize::MAX,
                        *self == Tree::Branch(*nodes),
                        acc matches Some(d) ==> seq_find_depth(nodes@.subrange(0, i as int), *predicate)
                            == Some(d as nat),
                        acc is None ==> seq_find_depth(nodes@.subrange(0, i as int), *predicate) is None,
                    decreases nodes.len() - i,
                {
                    proof {
                        lemma_seq_depth_bound(nodes@, i as int);
                        assert(nodes@.subrange(0, i + 1).subrange(0, i as int) =~= nodes@.subrange(0, i as int));
                        assert(decreases_to!(*self => nodes@[i as int]));
                        lemma_find_depth_bound(nodes@[i as int], *predicate);
                    }
                    let found = match nodes[i].find_feature_depth(predicate) {
                        Some(depth) => Some(depth + 1),
                        None => None,
                    };
                    acc = match (acc, found) {
                        (Some(a), Some(d)) => Some(if a <= d { a } else { d }),
                        (Some(a), None) => Some(a),
                        (None, d) => d,
                    };
                    i = i + 1;
                }
                proof {
                    assert(nodes@.subrange(0, nodes.len() as int) =~= nodes@);
                }
                acc
            },
        }
    }

    /// The number of levels of the tree, counting branches and features.
    pub fn max_depth(&self) -> (r: usize)
        requires
            self.depth() <= usize::MAX,
        ensures
            r == self.depth(),
        decreases self,
    {
        match self {
            Tree::Feature(_, next) => next.max_depth() + 1,
            Tree::Branch(nodes) => {
                let mut acc: usize = 1;
                let mut i: usize = 0;
                while i < nodes.len()
                    invariant
                        i <= nodes.len(),
                        self.depth() <= usize::MAX,
                        *self == Tree::Branch(*nodes),
                        acc == 1 + seq_depth(nodes@.subrange(0, i as int)),
                    decreases nodes.len() - i,
                {
                    proof {
                        lemma_seq_depth_bound(nodes@, i as int);
                        lemma_seq_depth_push(nodes@, i as int);
                        assert(decreases_to!(*self => nodes@[i as int]));
                    }
                    let d = nodes[i].max_depth();
                    if d + 1 > acc {
                        acc = d + 1;
                    }
                    i = i + 1;
                }
                proof {
                    assert(nodes@.subrange(0, nodes.len() as int) =~= nodes@);
                }
                acc
            }
        }
    }
}

/// A feature that can be applied to a room.
pub trait Feature: Copy {
    type Room: Room + Default;

    /// Whether applying the feature to `room` succeeds, and the room after.
    spec fn spec_apply(self, room: Self::Room) -> (bool, Self::Room);

    /// Applies the feature to the room; `false` where the room does not
    /// take it.
    fn apply(&self, room: &mut Self::Room) -> (r: bool)
        ensures
            (r, *final(room)) == self.spec_apply(*old(room)),
    ;
}

/// A room whose exits can lead to other rooms.
pub trait Room: Sized {
    /// The room that a new room starts as.
    spec fn spec_fresh() -> Self;

    /// A new room, before anything is added to it: what `Default::default`
    /// gives for the room type.
    fn fresh() -> (r: Self)
        ensures
            r == Self::spec_fresh(),
    ;

    /// The room with `exits` added behind its exits.
    spec fn spec_add_exits(self, exits: Seq<Self>) -> Self;

    /// Adds rooms behind the room's exits.
    fn add_exits(self, exits: Vec<Self>) -> (r: Self)
        ensures
            r == self.spec_add_exits(exits@),
    ;
}

/// A step that builds a tree of features.
pub enum Action<F, T> {
    New(F),
    PrependAny(F),
    PrependEach(F),
    PrependGrouped(F),
    TransformEach(T),
}

/// `r` is a room that `t` can be turned into: a feature is applied to the
/// room its rest is turned into, or, where that fails, to a fresh room
/// whose exit leads to the room the failed attempt left; a branch becomes a
/// fresh room whose exits lead to its sub-trees' rooms.
pub open spec fn builds<F: Feature>(t: Tree<F>, r: F::Room) -> bool
    decreases t,
{
    match t {
        Tree::Feature(f, child) => exists|c: F::Room|
            #![trigger f.spec_apply(c)]
            builds(*child, c) && if f.spec_apply(c).0 {
                r == f.spec_apply(c).1
            } else {
                r == f.spec_apply(F::Room::spec_fresh().spec_add_exits(seq![f.spec_apply(c).1])).1
            },
        Tree::Branch(nodes) => exists|rs: Seq<F::Room>|
            #![trigger F::Room::spec_fresh().spec_add_exits(rs)]
            rs.len() == nodes@.len() && (forall|i: int|
                0 <= i < rs.len() ==> builds(#[trigger] nodes@[i], rs[i])) && r == F::Room::spec_fresh().spec_add_exits(
                rs,
            ),
    }
}

impl<F: Feature> Tree<F> {
    /// Turns the tree into a room.
    pub fn into_room(self) -> (r: F::Room)
        ensures
            builds(self, r),
        decreases self,
    {
        match self {
            Tree::Feature(feature, child) => {
                let mut room = child.into_room();
                let ghost c = room;
                if feature.apply(&mut room) {
                    proof {
                        assert(builds(*child, c));
                        assert(feature.spec_apply(c).0);
                        assert(builds(self, room));
                    }
                    room
                } else {
                    let ghost after = room;
                    let d = F::Room::fresh();
                    let ghost dv = d;
                    let exits = vec![room];
                    proof {
                        assert(exits@ =~= seq![after]);
                    }
                    let mut room = d.add_exits(exits);
                    let ghost w = room;
                    feature.apply(&mut room);
                    proof {
                        assert(builds(*child, c));
                        assert(w == dv.spec_add_exits(seq![feature.spec_apply(c).1]));
                        assert(room == feature.spec_apply(dv.spec_add_exits(seq![feature.spec_apply(c).1])).1);
                        assert(builds(self, room));
                    }
                    room
                }
            },
            Tree::Branch(nodes) => {
                let ghost all = nodes@;
                let ghost whole = Tree::<F>::Branch(nodes);
                let mut rooms: Vec<F::Room> = Vec::new();
                for node in it: nodes
                    invariant
                        it.seq() == all,
                        whole == self,
                        whole matches Tree::Branch(ns) && ns@ == all,
                        rooms@.len() == it.index(),
                        forall|i: int| 0 <= i < it.index() ==> builds(#[trigger] all[i], rooms@[i]),
                {
                    proof {
                        assert(node == all[it.index() as int]);
                        assert(decreases_to!(whole => all[it.index() as int]));
                    }
                    rooms.push(node.into_room());
                }
                let d = F::Room::fresh();
                let ghost rs = rooms@;
                let r = d.add_exits(rooms);
                proof {
                    assert(builds(self, r));
                }
                r
            },
        }
    }
}

/// A way to make a tree more compact, which may draw on chance.
pub trait Compacter<F> {
    /// The compacted tree.
    fn compact(&self, rng: &mut StdRng, tree: Tree<F>) -> Tree<F>;
}

/// A change to a tree that may draw on chance.
pub trait Transform<F>: Copy {
    /// `after` is a tree that the change may turn `before` into. A change
    /// that says nothing more of itself allows any tree.
    open spec fn transforms(&self, before: Tree<F>, after: Tree<F>) -> bool {
        true
    }

    /// The tree that the change turns `tree` into.
    fn apply(&self, rng: &mut StdRng, tree: Tree<F>) -> (r: Tree<F>)
        ensures
            self.transforms(tree, r),
    ;
}

impl<F> Default for Tree<F> {
    /// An empty tree: a branch with no sub-trees.
    fn default() -> (r: Self)
        ensures
            r matches Tree::Branch(nodes) && nodes@.len() == 0,
    {
        Tree::new()
    }
}

/// `t` is the tree of the single feature `f`.
pub open spec fn is_single<F>(t: Tree<F>, f: F) -> bool {
    t matches Tree::Feature(g, next) && g == f && (*next matches Tree::Branch(u) && u@.len() == 0)
}

/// `r` is a tree that `action` can turn `tree` into, whatever is drawn: a
/// new feature goes beside the sub-trees; a feature is put in front of one
/// sub-tree, of each, or of the whole tree; a change is applied to each
/// sub-tree, or to the tree. Where the tree is no branch, it takes the place
/// of the one sub-tree.
pub open spec fn applied<F, T: Transform<F>>(action: Action<F, T>, tree: Tree<F>, r: Tree<F>) -> bool {
    match action {
        Action::New(f) => match tree {
            Tree::Branch(nodes) => r matches Tree::Branch(w) && w@.len() == nodes@.len() + 1
                && w@.take(nodes@.len() as int) == nodes@ && is_single(w@.last(), f),
            _ => r matches Tree::Branch(w) && w@.len() == 2 && w@[0] == tree && is_single(w@[1], f),
        },
        Action::PrependAny(f) => match tree {
            Tree::Branch(nodes) => r matches Tree::Branch(w) && exists|i: int|
                0 <= i < nodes@.len() && w@ == nodes@.update(i, Tree::Feature(f, Box::new(#[trigger] nodes@[i]))),
            _ => r == Tree::Feature(f, Box::new(tree)),
        },
        Action::PrependEach(f) => match tree {
            Tree::Branch(nodes) => r matches Tree::Branch(w) && w@.len() == nodes@.len() && forall|k: int|
                0 <= k < w@.len() ==> #[trigger] w@[k] == Tree::Feature(f, Box::new(nodes@[k])),
            _ => r == Tree::Feature(f, Box::new(tree)),
        },
        Action::PrependGrouped(f) => r == Tree::Feature(f, Box::new(tree)),
        Action::TransformEach(t) => match tree {
            Tree::Branch(nodes) => r matches Tree::Branch(w) && w@.len() == nodes@.len() && forall|k: int|
                0 <= k < w@.len() ==> t.transforms(#[trigger] nodes@[k], w@[k]),
            _ => t.transforms(tree, r),
        },
    }
}

impl<F: Copy, T: Transform<F>> Action<F, T> {
    /// Turns `tree` by the action, drawing from `rng` which sub-tree a
    /// feature is put in front of, and for each change applied.
    pub fn apply(&self, rng: &mut StdRng, tree: Tree<F>) -> (r: Tree<F>)
        requires
            *self matches Action::PrependAny(_) ==> (tree matches Tree::Branch(nodes) ==> nodes@.len() > 0),
        ensures
            applied(*self, tree, r),
    {
        match self {
            Action::New(feature) => {
                let feature = Tree::new_feature(*feature);
                match tree {
                    Tree::Branch(mut nodes) => {
                        let ghost before = nodes@;
                        nodes.push(feature);
                        proof {
                            assert(nodes@.take(before.len() as int) =~= before);
                        }
                        Tree::Branch(nodes)
                    },
                    _ => {
                        let r = Tree::Branch(vec![tree, feature]);
                        r
                    },
                }
            },
            Action::PrependAny(feature) => match tree {
                Tree::Branch(mut nodes) => {
                    let positions = positions_below(nodes.len());
                    match choose_from(rng, positions.as_slice()) {
                        Some(i) => {
                            let ghost before = nodes@;
                            let ghost k = choose|k: int| 0 <= k < positions@.len() && positions@[k] == i;
                            let mut node = Tree::new();
                            std::mem::swap(&mut node, &mut nodes[i]);
                            let ghost taken = node;
                            nodes.set(i, node.prepended(*feature));
                            proof {
                                assert(taken == before[i as int]);
                                assert(nodes@ =~= before.update(i as int, Tree::Feature(*feature, Box::new(before[i as int]))));
                            }
                            Tree::Branch(nodes)
                        },
                        None => {
                            proof {
                                assert(positions@.len() > 0);
                            }
                            Tree::Branch(nodes)
                        },
                    }
                },
                _ => tree.prepended(*feature),
            },
            Action::PrependEach(feature) => match tree {
                Tree::Branch(nodes) => {
                    let ghost u = nodes@;
                    let mut out: Vec<Tree<F>> = Vec::new();
                    for node in it: nodes
                        invariant
                            it.seq() == u,
                            out@.len() == it.index(),
                            forall|k: int| 0 <= k < it.index() ==> #[trigger] out@[k] == Tree::Feature(*feature, Box::new(u[k])),
                    {
                        out.push(node.prepended(*feature));
                    }
                    Tree::Branch(out)
                },
                _ => tree.prepended(*feature),
            },
            Action::PrependGrouped(feature) => tree.prepended(*feature),
            Action::TransformEach(transform) => match tree {
                Tree::Branch(nodes) => {
                    let ghost u = nodes@;
                    let mut out: Vec<Tree<F>> = Vec::new();
                    for node in it: nodes
                        invariant
                            it.seq() == u,
                            out@.len() == it.index(),
                            forall|k: int| 0 <= k < it.index() ==> transform.transforms(#[trigger] u[k], out@[k]),
                    {
                        out.push(transform.apply(rng, node));
                    }
                    Tree::Branch(out)
                },
                _ => transform.apply(rng, tree),
            },
        }
    }
}

} // verus!
