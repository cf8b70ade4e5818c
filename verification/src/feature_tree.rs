use crate::feature::{decides, inc_depth, min_depth, nat_max, satisfies};
use crate::random::choose_from;
use crate::random::positions_below;
use rand::rngs::StdRng;
use vstd::prelude::*;

verus! {

/// A tree of features: a feature followed by the rest of the tree, or a
/// branch of independent sub-trees.
pub enum FeatureTree<F> {
    Feature(F, Box<FeatureTree<F>>),
    Branch(Vec<FeatureTree<F>>),
}

impl<F> FeatureTree<F> {
    /// The depth of the shallowest feature of which `p` holds, if any:
    /// a feature on top is at depth 0, and each feature or branch above
    /// adds one.
    pub open spec fn find_depth<P: Fn(&F) -> bool>(self, p: P) -> Option<nat>
        decreases self,
    {
        match self {
            FeatureTree::Feature(f, next) => if satisfies(p, f) {
                Some(0)
            } else {
                inc_depth(next.find_depth(p))
            },
            FeatureTree::Branch(nodes) => seq_find_depth(nodes@, p),
        }
    }

    /// The number of levels of the tree: a branch counts as a level, and so
    /// does every feature.
    pub open spec fn depth(self) -> nat
        decreases self,
    {
        match self {
            FeatureTree::Feature(_, next) => next.depth() + 1,
            FeatureTree::Branch(nodes) => 1 + seq_depth(nodes@),
        }
    }
}

/// The largest depth among the trees of `s`, or 0 for an empty sequence.
pub open spec fn seq_depth<F>(s: Seq<FeatureTree<F>>) -> nat
    decreases s,
{
    if s.len() == 0 {
        0
    } else {
        nat_max(seq_depth(s.subrange(0, s.len() - 1)), s[s.len() - 1].depth())
    }
}


/// The shallowest depth, one below the branch, of a feature of which `p`
/// holds in any tree of `s`.
pub open spec fn seq_find_depth<F, P: Fn(&F) -> bool>(s: Seq<FeatureTree<F>>, p: P) -> Option<nat>
    decreases s,
{
    if s.len() == 0 {
        None
    } else {
        min_depth(
            seq_find_depth(s.subrange(0, s.len() - 1), p),
            inc_depth(s[s.len() - 1].find_depth(p)),
        )
    }
}

/// The sub-trees of the branch that joining `a` and `b` gives.
pub open spec fn joined_nodes<F>(a: FeatureTree<F>, b: FeatureTree<F>) -> Seq<FeatureTree<F>> {
    match (a, b) {
        (FeatureTree::Branch(u), FeatureTree::Branch(v)) => u@ + v@,
        (FeatureTree::Branch(u), f) => u@.push(f),
        (f, FeatureTree::Branch(u)) => u@.push(f),
        (f1, f2) => seq![f1, f2],
    }
}

/// A depth found in a tree lies within the tree.
pub proof fn lemma_find_depth_bound<F, P: Fn(&F) -> bool>(t: FeatureTree<F>, p: P)
    ensures
        t.find_depth(p) matches Some(d) ==> d < t.depth(),
    decreases t,
{
    match t {
        FeatureTree::Feature(f, next) => {
            lemma_find_depth_bound(*next, p);
        },
        FeatureTree::Branch(nodes) => {
            assert(decreases_to!(t => nodes@));
            lemma_seq_find_depth_bound(nodes@, p);
        },
    }
}

/// A depth found in a sequence of trees is at most the sequence's depth.
pub proof fn lemma_seq_find_depth_bound<F, P: Fn(&F) -> bool>(s: Seq<FeatureTree<F>>, p: P)
    ensures
        seq_find_depth(s, p) matches Some(d) ==> d <= seq_depth(s),
    decreases s,
{
    if s.len() > 0 {
        lemma_seq_find_depth_bound(s.subrange(0, s.len() - 1), p);
        lemma_find_depth_bound(s[s.len() - 1], p);
    }
}

/// Adding one more tree to a sequence combines its depth with the others'.
pub proof fn lemma_seq_depth_push<F>(s: Seq<FeatureTree<F>>, i: int)
    requires
        0 <= i < s.len(),
    ensures
        seq_depth(s.subrange(0, i + 1)) == nat_max(seq_depth(s.subrange(0, i)), s[i].depth()),
{
    assert(s.subrange(0, i + 1).subrange(0, i) =~= s.subrange(0, i));
}

/// Every tree of a sequence is at most as deep as the sequence.
pub proof fn lemma_seq_depth_bound<F>(s: Seq<FeatureTree<F>>, i: int)
    requires
        0 <= i < s.len(),
    ensures
        s[i].depth() <= seq_depth(s),
    decreases s.len(),
{
    if i < s.len() - 1 {
        let t = s.subrange(0, s.len() - 1);
        lemma_seq_depth_bound(t, i);
    }
}

impl<F> FeatureTree<F> {
    /// An empty tree: a branch with no sub-trees.
    pub fn new() -> (r: Self)
        ensures
            r matches FeatureTree::Branch(nodes) && nodes@.len() == 0,
    {
        FeatureTree::Branch(Vec::new())
    }

    /// A tree of one feature over an empty branch.
    pub fn new_feature(feature: F) -> (r: Self)
        ensures
            r matches FeatureTree::Feature(f, next) && f == feature && (*next matches FeatureTree::Branch(
                nodes,
            ) && nodes@.len() == 0),
    {
        FeatureTree::new().prepended(feature)
    }

    /// The tree with `feature` put in front of it.
    pub fn prepended(self, feature: F) -> (r: Self)
        ensures
            r == FeatureTree::Feature(feature, Box::new(self)),
    {
        FeatureTree::Feature(feature, Box::new(self))
    }

    /// Puts `feature` in front of the tree.
    pub fn prepend(&mut self, feature: F)
        ensures
            *final(self) == FeatureTree::Feature(feature, Box::new(*old(self))),
    {
        let mut rest = FeatureTree::new();
        std::mem::swap(&mut rest, self);
        *self = FeatureTree::Feature(feature, Box::new(rest));
    }

    /// Joins another tree beside this one: the sub-trees of branches are
    /// merged into one branch, and a tree that is not a branch becomes one
    /// of its sub-trees.
    pub fn join(&mut self, other: Self)
        ensures
            *final(self) matches FeatureTree::Branch(w) && w@ == joined_nodes(*old(self), other),
    {
        let mut this = FeatureTree::new();
        std::mem::swap(&mut this, self);
        *self = match (this, other) {
            (FeatureTree::Branch(mut u), FeatureTree::Branch(mut v)) => {
                u.append(&mut v);
                FeatureTree::Branch(u)
            },
            (FeatureTree::Branch(mut u), feature) => {
                u.push(feature);
                FeatureTree::Branch(u)
            },
            (this, FeatureTree::Branch(mut u)) => {
                u.push(this);
                FeatureTree::Branch(u)
            },
            (this, f) => FeatureTree::Branch(vec![this, f]),
        };
    }

    /// Drops the feature on top of the tree, if there is one.
    pub fn skip_feature(&mut self)
        ensures
            match *old(self) {
                FeatureTree::Feature(_, next) => *final(self) == *next,
                _ => *final(self) == *old(self),
            },
    {
        let mut this = FeatureTree::new();
        std::mem::swap(&mut this, self);
        *self = match this {
            FeatureTree::Feature(_, next) => *next,
            other => other,
        };
    }

    /// The depth of the shallowest feature of which `predicate` holds.
    pub fn find_feature_depth<P: Fn(&F) -> bool>(&self, predicate: &P) -> (r: Option<usize>)
        requires
            decides(*predicate),
            self.depth() <= usize::MAX,
        ensures
            r matches Some(d) ==> self.find_depth(*predicate) == Some(d as nat),
            r is None ==> self.find_depth(*predicate) is None,
        decreases self,
    {
        proof {
            lemma_find_depth_bound(*self, *predicate);
        }
        match self {
            FeatureTree::Feature(feature, next) => {
                assert(call_requires(*predicate, (feature,)));
                let hit = predicate(feature);
                if hit {
                    Some(0)
                } else {
                    proof {
                        lemma_find_depth_bound(**next, *predicate);
                    }
                    match next.find_feature_depth(predicate) {
                        Some(depth) => Some(depth + 1),
                        None => None,
                    }
                }
            },
            FeatureTree::Branch(nodes) => {
                let mut acc: Option<usize> = None;
                let mut i: usize = 0;
                while i < nodes.len()
                    invariant
                        i <= nodes.len(),
                        decides(*predicate),
                        self.depth() <= usize::MAX,
                        *self == FeatureTree::Branch(*nodes),
                        acc matches Some(d) ==> seq_find_depth(nodes@.subrange(0, i as int), *predicate)
                            == Some(d as nat),
                        acc is None ==> seq_find_depth(nodes@.subrange(0, i as int), *predicate) is None,
                    decreases nodes.len() - i,
                {
                    proof {
                        lemma_seq_depth_bound(nodes@, i as int);
                        assert(nodes@.subrange(0, i + 1).subrange(0, i as int) =~= nodes@.subrange(0, i as int));
                        assert(decreases_to!(*self => nodes@[i as int]));
                        lemma_find_depth_bound(nodes@[i as int], *predicate);
                    }
                    let found = match nodes[i].find_feature_depth(predicate) {
                        Some(depth) => Some(depth + 1),
                        None => None,
                    };
                    acc = match (acc, found) {
                        (Some(a), Some(d)) => Some(if a <= d { a } else { d }),
                        (Some(a), None) => Some(a),
                        (None, d) => d,
                    };
                    i = i + 1;
                }
                proof {
                    assert(nodes@.subrange(0, nodes.len() as int) =~= nodes@);
                }
                acc
            },
        }
    }

    /// The number of levels of the tree, counting branches and features.
    pub fn max_depth(&self) -> (r: usize)
        requires
            self.depth() <= usize::MAX,
        ensures
            r == self.depth(),
        decreases self,
    {
        match self {
            FeatureTree::Feature(_, next) => next.max_depth() + 1,
            FeatureTree::Branch(nodes) => {
                let mut acc: usize = 1;
                let mut i: usize = 0;
                while i < nodes.len()
                    invariant
                        i <= nodes.len(),
                        self.depth() <= usize::MAX,
                        *self == FeatureTree::Branch(*nodes),
                        acc == 1 + seq_depth(nodes@.subrange(0, i as int)),
                    decreases nodes.len() - i,
                {
                    proof {
                        lemma_seq_depth_bound(nodes@, i as int);
                        lemma_seq_depth_push(nodes@, i as int);
                        assert(decreases_to!(*self => nodes@[i as int]));
                    }
                    let d = nodes[i].max_depth();
                    if d + 1 > acc {
                        acc = d + 1;
                    }
                    i = i + 1;
                }
                proof {
                    assert(nodes@.subrange(0, nodes.len() as int) =~= nodes@);
                }
                acc
            }
        }
    }
}

/// A feature that can be applied to a room.
pub trait Feature: Copy {
    type Room: Default + Room;

    /// The room that applying the feature to `room` gives, or the feature
    /// and room handed back where the room does not take it.
    spec fn spec_apply(self, room: Self::Room) -> Result<Self::Room, (Self, Self::Room)>;

    /// Applies the feature to the room.
    fn apply(self, room: Self::Room) -> (r: Result<Self::Room, (Self, Self::Room)>)
        ensures
            r == self.spec_apply(room),
    ;
}

/// A room whose exits can lead to other rooms.
pub trait Room: Sized {
    /// The room that a new room starts as.
    spec fn spec_fresh() -> Self;

    /// A new room, before anything is added to it: what `Default::default`
    /// gives for the room type.
    fn fresh() -> (r: Self)
        ensures
            r == Self::spec_fresh(),
    ;

    /// The room with `exits` added behind its exits.
    spec fn spec_add_exits(self, exits: Seq<Self>) -> Self;

    /// Adds rooms behind the room's exits.
    fn add_exits(self, exits: Vec<Self>) -> (r: Self)
        ensures
            r == self.spec_add_exits(exits@),
    ;
}

/// A step that builds a tree of features.
pub enum Action<F, T> {
    New(F),
    PrependAny(F),
    PrependEach(F),
    PrependGrouped(F),
    TransformEach(T),
}

/// `r` is a room that `t` can be turned into: a feature is applied to the
/// room its rest is turned into, or, where the room does not take it, the
/// handed-back feature to a fresh room whose exit leads to the
/// handed-back room; a branch becomes a fresh room whose exits lead to
/// its sub-trees' rooms.
pub open spec fn builds<F: Feature>(t: FeatureTree<F>, r: F::Room) -> bool
    decreases t,
{
    match t {
        FeatureTree::Feature(f, child) => exists|c: F::Room|
            #![trigger f.spec_apply(c)]
            builds(*child, c) && match f.spec_apply(c) {
                Ok(x) => r == x,
                Err((g, room)) => g.spec_apply(F::Room::spec_fresh().spec_add_exits(seq![room])) == Ok::<
                    F::Room,
                    (F, F::Room),
                >(r),
            },
        FeatureTree::Branch(nodes) => exists|rs: Seq<F::Room>|
            #![trigger F::Room::spec_fresh().spec_add_exits(rs)]
            rs.len() == nodes@.len() && (forall|i: int|
                0 <= i < rs.len() ==> builds(#[trigger] nodes@[i], rs[i])) && r == F::Room::spec_fresh().spec_add_exits(
                rs,
            ),
    }
}

/// Turning `t` into a room never meets a feature that neither the room nor
/// a fresh room in front of it takes.
pub open spec fn applies<F: Feature>(t: FeatureTree<F>) -> bool
    decreases t,
{
    match t {
        FeatureTree::Feature(f, child) => applies(*child) && forall|c: F::Room|
            #![trigger f.spec_apply(c)]
            builds(*child, c) ==> match f.spec_apply(c) {
                Ok(_) => true,
                Err((g, room)) => g.spec_apply(F::Room::spec_fresh().spec_add_exits(seq![room])) is Ok,
            },
        FeatureTree::Branch(nodes) => forall|i: int|
            0 <= i < nodes@.len() ==> applies(#[trigger] nodes@[i]),
    }
}

impl<F: Feature> FeatureTree<F> {
    /// Turns the tree into a room.
    pub fn into_room(self) -> (r: F::Room)
        requires
            applies(self),
        ensures
            builds(self, r),
        decreases self,
    {
        match self {
            FeatureTree::Feature(feature, child) => {
                let room = child.into_room();
                let ghost c = room;
                match feature.apply(room) {
                    Ok(room) => {
                        proof {
                            assert(builds(*child, c));
                        }
                        room
                    },
                    Err((feature2, room)) => {
                        let ghost after = room;
                        let d = F::Room::fresh();
                        let ghost dv = d;
                        let exits = vec![room];
                        proof {
                            assert(exits@ =~= seq![after]);
                        }
                        let outer = d.add_exits(exits);
                        proof {
                            assert(builds(*child, c));
                            assert(feature2.spec_apply(dv.spec_add_exits(seq![after])) is Ok);
                        }
                        match feature2.apply(outer) {
                            Ok(room) => room,
                            Err((_, room)) => room,
                        }
                    },
                }
            },
            FeatureTree::Branch(nodes) => {
                let ghost all = nodes@;
                let ghost whole = FeatureTree::<F>::Branch(nodes);
                let mut rooms: Vec<F::Room> = Vec::new();
                for node in it: nodes
                    invariant
                        it.seq() == all,
                        whole == self,
                        applies(whole),
                        whole matches FeatureTree::Branch(ns) && ns@ == all,
                        rooms@.len() == it.index(),
                        forall|i: int| 0 <= i < it.index() ==> builds(#[trigger] all[i], rooms@[i]),
                {
                    proof {
                        assert(node == all[it.index() as int]);
                        assert(decreases_to!(whole => all[it.index() as int]));
                    }
                    rooms.push(node.into_room());
                }
                let d = F::Room::fresh();
                let r = d.add_exits(rooms);
                proof {
                    assert(builds(self, r));
                }
                r
            },
        }
    }
}

/// A change to a tree that may draw on chance.
pub trait Transform<F>: Copy {
    /// `after` is a tree that the change may turn `before` into. A change
    /// that says nothing more of itself allows any tree.
    open spec fn transforms(&self, before: FeatureTree<F>, after: FeatureTree<F>) -> bool {
        true
    }

    /// The tree that the change turns `tree` into.
    fn apply(&self, rng: &mut StdRng, tree: FeatureTree<F>) -> (r: FeatureTree<F>)
        ensures
            self.transforms(tree, r),
    ;
}

impl<F> Default for FeatureTree<F> {
    /// An empty tree: a branch with no sub-trees.
    fn default() -> (r: Self)
        ensures
            r matches FeatureTree::Branch(nodes) && nodes@.len() == 0,
    {
        FeatureTree::new()
    }
}

/// `t` is the tree of the single feature `f`.
pub open spec fn is_single<F>(t: FeatureTree<F>, f: F) -> bool {
    t matches FeatureTree::Feature(g, next) && g == f && (*next matches FeatureTree::Branch(u) && u@.len() == 0)
}

/// `r` is a tree that `action` can turn `tree` into, whatever is drawn: a
/// new feature goes beside the sub-trees; a feature is put in front of one
/// sub-tree, of each, or of the whole tree; a change is applied to each
/// sub-tree, or to the tree. Where the tree is no branch, it takes the place
/// of the one sub-tree.
pub open spec fn applied<F, T: Transform<F>>(action: Action<F, T>, tree: FeatureTree<F>, r: FeatureTree<F>) -> bool {
    match action {
        Action::New(f) => match tree {
            FeatureTree::Branch(nodes) => r matches FeatureTree::Branch(w) && w@.len() == nodes@.len() + 1
                && w@.take(nodes@.len() as int) == nodes@ && is_single(w@.last(), f),
            _ => r matches FeatureTree::Branch(w) && w@.len() == 2 && w@[0] == tree && is_single(w@[1], f),
        },
        Action::PrependAny(f) => match tree {
            FeatureTree::Branch(nodes) => r matches FeatureTree::Branch(w) && exists|i: int|
                0 <= i < nodes@.len() && w@ == nodes@.update(i, FeatureTree::Feature(f, Box::new(#[trigger] nodes@[i]))),
            _ => r == FeatureTree::Feature(f, Box::new(tree)),
        },
        Action::PrependEach(f) => match tree {
            FeatureTree::Branch(nodes) => r matches FeatureTree::Branch(w) && w@.len() == nodes@.len() && forall|k: int|
                0 <= k < w@.len() ==> #[trigger] w@[k] == FeatureTree::Feature(f, Box::new(nodes@[k])),
            _ => r == FeatureTree::Feature(f, Box::new(tree)),
        },
        Action::PrependGrouped(f) => r == FeatureTree::Feature(f, Box::new(tree)),
        Action::TransformEach(t) => match tree {
            FeatureTree::Branch(nodes) => r matches FeatureTree::Branch(w) && w@.len() == nodes@.len() && forall|k: int|
                0 <= k < w@.len() ==> t.transforms(#[trigger] nodes@[k], w@[k]),
            _ => t.transforms(tree, r),
        },
    }
}

impl<F: Copy, T: Transform<F>> Action<F, T> {
    /// Turns `tree` by the action, drawing from `rng` which sub-tree a
    /// feature is put in front of, and for each change applied.
    pub fn apply(&self, rng: &mut StdRng, tree: FeatureTree<F>) -> (r: FeatureTree<F>)
        requires
            *self matches Action::PrependAny(_) ==> (tree matches FeatureTree::Branch(nodes) ==> nodes@.len() > 0),
        ensures
            applied(*self, tree, r),
    {
        match self {
            Action::New(feature) => {
                let feature = FeatureTree::new_feature(*feature);
                match tree {
                    FeatureTree::Branch(mut nodes) => {
                        let ghost before = nodes@;
                        nodes.push(feature);
                        proof {
                            assert(nodes@.take(before.len() as int) =~= before);
                        }
                        FeatureTree::Branch(nodes)
                    },
                    _ => {
                        let r = FeatureTree::Branch(vec![tree, feature]);
                        r
                    },
                }
            },
            Action::PrependAny(feature) => match tree {
                FeatureTree::Branch(mut nodes) => {
                    let positions = positions_below(nodes.len());
                    match choose_from(rng, positions.as_slice()) {
                        Some(i) => {
                            let ghost before = nodes@;
                            let ghost k = choose|k: int| 0 <= k < positions@.len() && positions@[k] == i;
                            let mut node = FeatureTree::new();
                            std::mem::swap(&mut node, &mut nodes[i]);
                            let ghost taken = node;
                            nodes.set(i, node.prepended(*feature));
                            proof {
                                assert(taken == before[i as int]);
                                assert(nodes@ =~= before.update(i as int, FeatureTree::Feature(*feature, Box::new(before[i as int]))));
                            }
                            FeatureTree::Branch(nodes)
                        },
                        None => {
                            proof {
                                assert(positions@.len() > 0);
                            }
                            FeatureTree::Branch(nodes)
                        },
                    }
                },
                _ => tree.prepended(*feature),
            },
            Action::PrependEach(feature) => match tree {
                FeatureTree::Branch(nodes) => {
                    let ghost u = nodes@;
                    let mut out: Vec<FeatureTree<F>> = Vec::new();
                    for node in it: nodes
                        invariant
                            it.seq() == u,
                            out@.len() == it.index(),
                            forall|k: int| 0 <= k < it.index() ==> #[trigger] out@[k] == FeatureTree::Feature(*feature, Box::new(u[k])),
                    {
                        out.push(node.prepended(*feature));
                    }
                    FeatureTree::Branch(out)
                },
                _ => tree.prepended(*feature),
            },
            Action::PrependGrouped(feature) => tree.prepended(*feature),
            Action::TransformEach(transform) => match tree {
                FeatureTree::Branch(nodes) => {
                    let ghost u = nodes@;
                    let mut out: Vec<FeatureTree<F>> = Vec::new();
                    for node in it: nodes
                        invariant
                            it.seq() == u,
                            out@.len() == it.index(),
                            forall|k: int| 0 <= k < it.index() ==> transform.transforms(#[trigger] u[k], out@[k]),
                    {
                        out.push(transform.apply(rng, node));
                    }
                    FeatureTree::Branch(out)
                },
                _ => transform.apply(rng, tree),
            },
        }
    }
}

} // verus!
