use vstd::prelude::*;
use vstd::std_specs::cmp::PartialEqSpec;
use vstd::std_specs::cmp::PartialEqSpecImpl;

verus! {

/// A tree of features: a feature followed by the rest of the plan, or a
/// branch of independent sub-plans.
pub enum FeaturePlan<F> {
    Feature(F, Box<FeaturePlan<F>>),
    Branch(Vec<FeaturePlan<F>>),
}

/// A step that builds a feature plan.
#[derive(Debug)]
pub enum Op<F> {
    /// A feature that starts a sub-plan of its own beside the others.
    New(F),
    /// A feature put in front of one of the sub-plans.
    PrependOne(F),
    /// A feature put in front of each of the sub-plans.
    PrependEach(F),
    /// A feature put in front of the whole plan.
    PrependGrouped(F),
}

/// Picks the sub-plans of a branch that are joined into one.
pub trait JoinSelector<F> {
    /// `r` is an answer that the selector, as it stands, may give for
    /// `nodes`. A selector that says nothing more of itself may give any.
    open spec fn joins(&self, nodes: Seq<FeaturePlan<F>>, r: Option<(usize, usize)>) -> bool {
        true
    }

    /// Two distinct positions of `nodes`, or `None` to join nothing: an
    /// answer that the selector may give.
    fn select_join(&mut self, nodes: &[FeaturePlan<F>]) -> (r: Option<(usize, usize)>)
        ensures
            r matches Some((i, j)) ==> i != j && i < nodes@.len() && j < nodes@.len(),
            old(self).joins(nodes@, r),
    ;
}

/// Picks the sub-plan of a branch that a feature is put in front of.
pub trait PrependSelector<F> {
    /// `r` is a position that the selector, as it stands, may pick among
    /// `nodes`. A selector that says nothing more of itself may pick any.
    open spec fn prepends(&self, nodes: Seq<FeaturePlan<F>>, r: usize) -> bool {
        true
    }

    /// A position of `nodes`, one that the selector may pick.
    fn select_prepend(&mut self, nodes: &[FeaturePlan<F>]) -> (r: usize)
        requires
            nodes@.len() > 0,
        ensures
            r < nodes@.len(),
            old(self).prepends(nodes@, r),
    ;
}

/// `t` is an empty branch.
pub open spec fn is_empty_branch<F>(t: FeaturePlan<F>) -> bool {
    t matches FeaturePlan::Branch(u) && u@.len() == 0
}

/// `t` is the plan of the single feature `f`.
pub open spec fn is_single_feature<F>(t: FeaturePlan<F>, f: F) -> bool {
    t matches FeaturePlan::Feature(g, next) && g == f && is_empty_branch(*next)
}

/// `ns` are the sub-plans once the plan of the single feature `f` is put
/// beside `p`: appended to a branch, or next to a plan that is not one.
pub open spec fn added_beside<F>(p: FeaturePlan<F>, f: F, ns: Seq<FeaturePlan<F>>) -> bool {
    match p {
        FeaturePlan::Branch(u) => ns.len() == u@.len() + 1 && ns.subrange(0, u@.len() as int) == u@
            && is_single_feature(ns[u@.len() as int], f),
        _ => ns.len() == 2 && ns[0] == p && is_single_feature(ns[1], f),
    }
}

/// `s` with its element at `k` removed, the last element taking its place.
pub open spec fn seq_swap_remove<T>(s: Seq<T>, k: int) -> Seq<T> {
    s.update(k, s.last()).drop_last()
}

/// `w` is `ns` with the sub-plans at `i` and `j` taken out (the higher
/// position first, each by swapping in the last one) and their join put at
/// the end.
pub open spec fn joined_at<F>(ns: Seq<FeaturePlan<F>>, i: int, j: int, w: Seq<FeaturePlan<F>>) -> bool {
    let hi = if i < j { j } else { i };
    let lo = if i < j { i } else { j };
    let rest = seq_swap_remove(seq_swap_remove(ns, hi), lo);
    &&& w.len() == rest.len() + 1
    &&& w.subrange(0, rest.len() as int) == rest
    &&& w[rest.len() as int] matches FeaturePlan::Branch(x) && x@ == joined_nodes(ns[hi], ns[lo])
}

/// `w` is `u` with a clone of `f` put in front of each sub-plan.
pub open spec fn prepended_each<F: Clone>(u: Seq<FeaturePlan<F>>, f: F, w: Seq<FeaturePlan<F>>) -> bool {
    &&& w.len() == u.len()
    &&& forall|k: int|
        0 <= k < u.len() ==> (#[trigger] w[k] matches FeaturePlan::Feature(g, next) && cloned(f, g)
            && *next == u[k])
}

/// `q` is a plan that `op` can turn `p` into, for some answer of the
/// selectors.
pub open spec fn step_to<F: Clone>(p: FeaturePlan<F>, op: Op<F>, q: FeaturePlan<F>) -> bool {
    match op {
        Op::New(f) => exists|ns: Seq<FeaturePlan<F>>|
            #![trigger added_beside(p, f, ns)]
            added_beside(p, f, ns) && (q matches FeaturePlan::Branch(w) && (w@ == ns || (ns.len() > 2
                && exists|i: int, j: int|
                0 <= i < ns.len() && 0 <= j < ns.len() && i != j && #[trigger] joined_at(ns, i, j, w@)))),
        Op::PrependOne(f) => match p {
            FeaturePlan::Branch(u) => q matches FeaturePlan::Branch(w) && exists|i: int|
                0 <= i < u@.len() && w@ == u@.update(i, FeaturePlan::Feature(f, Box::new(#[trigger] u@[i]))),
            _ => q == FeaturePlan::Feature(f, Box::new(p)),
        },
        Op::PrependEach(f) => match p {
            FeaturePlan::Branch(u) => q matches FeaturePlan::Branch(w) && prepended_each(u@, f, w@),
            _ => q == FeaturePlan::Feature(f, Box::new(p)),
        },
        Op::PrependGrouped(f) => q == FeaturePlan::Feature(f, Box::new(p)),
    }
}

/// `q` is what `op` turns `p` into with the selectors' answers: the join
/// selector, standing at `j` before the step and at `j2` after, answers
/// `ja` where the step asks it; the prepend selector, standing at `s` and
/// `s2`, answers `sa` where the step asks it. A selector that the step does
/// not ask stays as it stands.
pub open spec fn step_driven<F: Clone, J: JoinSelector<F>, P: PrependSelector<F>>(
    p: FeaturePlan<F>,
    op: Op<F>,
    q: FeaturePlan<F>,
    j: J,
    j2: J,
    ja: Option<(usize, usize)>,
    s: P,
    s2: P,
    sa: usize,
) -> bool {
    match op {
        Op::New(f) => s2 == s && exists|ns: Seq<FeaturePlan<F>>|
            #![trigger added_beside(p, f, ns)]
            added_beside(p, f, ns) && (if ns.len() > 2 {
                &&& j.joins(ns, ja)
                &&& match ja {
                    Some((a, b)) => q matches FeaturePlan::Branch(w) && joined_at(ns, a as int, b as int, w@),
                    None => q matches FeaturePlan::Branch(w) && w@ == ns,
                }
            } else {
                &&& j2 == j
                &&& q matches FeaturePlan::Branch(w) && w@ == ns
            }),
        Op::PrependOne(f) => j2 == j && (match p {
            FeaturePlan::Branch(u) => {
                &&& s.prepends(u@, sa)
                &&& sa < u@.len()
                &&& q matches FeaturePlan::Branch(w) && w@ == u@.update(
                    sa as int,
                    FeaturePlan::Feature(f, Box::new(u@[sa as int])),
                )
            },
            _ => s2 == s && q == FeaturePlan::Feature(f, Box::new(p)),
        }),
        Op::PrependEach(f) => j2 == j && s2 == s && (match p {
            FeaturePlan::Branch(u) => q matches FeaturePlan::Branch(w) && prepended_each(u@, f, w@),
            _ => q == FeaturePlan::Feature(f, Box::new(p)),
        }),
        Op::PrependGrouped(f) => j2 == j && s2 == s && q == FeaturePlan::Feature(f, Box::new(p)),
    }
}

/// Running `steps` went through the plans `ps`, the join selector through
/// the states `js` giving the answers `ja`, and the prepend selector
/// through the states `ss` giving the answers `sa`.
pub open spec fn is_driven_run<F: Clone, J: JoinSelector<F>, P: PrependSelector<F>>(
    steps: Seq<Op<F>>,
    ps: Seq<FeaturePlan<F>>,
    js: Seq<J>,
    ja: Seq<Option<(usize, usize)>>,
    ss: Seq<P>,
    sa: Seq<usize>,
) -> bool {
    &&& ps.len() == steps.len() + 1
    &&& js.len() == steps.len() + 1
    &&& ss.len() == steps.len() + 1
    &&& ja.len() == steps.len()
    &&& sa.len() == steps.len()
    &&& is_empty_branch(ps[0])
    &&& forall|k: int|
        0 <= k < steps.len() ==> #[trigger] step_driven(ps[k], steps[k], ps[k + 1], js[k], js[k + 1], ja[k], ss[k], ss[k + 1], sa[k])
}

/// `ps` are the plans that running `steps` from an empty branch goes
/// through, one step after the other.
pub open spec fn is_run<F: Clone>(steps: Seq<Op<F>>, ps: Seq<FeaturePlan<F>>) -> bool {
    &&& ps.len() == steps.len() + 1
    &&& is_empty_branch(ps[0])
    &&& forall|k: int| 0 <= k < steps.len() ==> #[trigger] step_to(ps[k], steps[k], ps[k + 1])
}

/// Each step that puts a feature in front of one sub-plan comes after a
/// step that makes the plan non-empty.
pub open spec fn prepends_after_start<F>(steps: Seq<Op<F>>) -> bool {
    forall|k: int|
        0 <= k < steps.len() && #[trigger] steps[k] is PrependOne ==> exists|j: int|
            0 <= j < k && (steps[j] is New || steps[j] is PrependGrouped)
}

/// The largest of `a` and `b`.
pub open spec fn nat_max(a: nat, b: nat) -> nat {
    if a >= b { a } else { b }
}

/// `p` holds of `f`: a call of `p` on `f` may return `true`.
pub open spec fn satisfies<F, P: Fn(&F) -> bool>(p: P, f: F) -> bool {
    call_ensures(p, (&f,), true)
}

/// `p` can be called on every feature and answers each one way only.
pub open spec fn decides<F, P: Fn(&F) -> bool>(p: P) -> bool {
    forall|f: F|
        #![trigger call_requires(p, (&f,))]
        call_requires(p, (&f,)) && !(call_ensures(p, (&f,), true) && call_ensures(p, (&f,), false))
}

/// One more level above a depth found below.
pub open spec fn inc_depth(o: Option<nat>) -> Option<nat> {
    match o {
        Some(d) => Some(d + 1),
        None => None,
    }
}

/// The shallower of two depths, where either may be missing.
pub open spec fn min_depth(a: Option<nat>, b: Option<nat>) -> Option<nat> {
    match (a, b) {
        (Some(x), Some(y)) => Some(if x <= y { x } else { y }),
        (Some(x), None) => Some(x),
        (None, b) => b,
    }
}

impl<F> FeaturePlan<F> {
    /// The depth of the shallowest feature of which `p` holds, if any:
    /// a feature on top is at depth 0, and each feature or branch above
    /// adds one.
    pub open spec fn find_depth<P: Fn(&F) -> bool>(self, p: P) -> Option<nat>
        decreases self,
    {
        match self {
            FeaturePlan::Feature(f, next) => if satisfies(p, f) {
                Some(0)
            } else {
                inc_depth(next.find_depth(p))
            },
            FeaturePlan::Branch(nodes) => seq_find_depth(nodes@, p),
        }
    }

    /// The number of levels of the plan: a branch counts as a level, and so
    /// does every feature.
    pub open spec fn depth(self) -> nat
        decreases self,
    {
        match self {
            FeaturePlan::Feature(_, next) => next.depth() + 1,
            FeaturePlan::Branch(nodes) => 1 + seq_depth(nodes@),
        }
    }
}

/// The largest depth among the plans of `s`, or 0 for an empty sequence.
pub open spec fn seq_depth<F>(s: Seq<FeaturePlan<F>>) -> nat
    decreases s,
{
    if s.len() == 0 {
        0
    } else {
        nat_max(seq_depth(s.subrange(0, s.len() - 1)), s[s.len() - 1].depth())
    }
}


/// The shallowest depth, one below the branch, of a feature of which `p`
/// holds in any plan of `s`.
pub open spec fn seq_find_depth<F, P: Fn(&F) -> bool>(s: Seq<FeaturePlan<F>>, p: P) -> Option<nat>
    decreases s,
{
    if s.len() == 0 {
        None
    } else {
        min_depth(
            seq_find_depth(s.subrange(0, s.len() - 1), p),
            inc_depth(s[s.len() - 1].find_depth(p)),
        )
    }
}

/// The sub-plans of the branch that joining `a` and `b` gives.
pub open spec fn joined_nodes<F>(a: FeaturePlan<F>, b: FeaturePlan<F>) -> Seq<FeaturePlan<F>> {
    match (a, b) {
        (FeaturePlan::Branch(u), FeaturePlan::Branch(v)) => u@ + v@,
        (FeaturePlan::Branch(u), f) => u@.push(f),
        (f, FeaturePlan::Branch(u)) => u@.push(f),
        (f1, f2) => seq![f1, f2],
    }
}

/// A depth found in a plan lies within the plan.
pub proof fn lemma_find_depth_bound<F, P: Fn(&F) -> bool>(t: FeaturePlan<F>, p: P)
    ensures
        t.find_depth(p) matches Some(d) ==> d < t.depth(),
    decreases t,
{
    match t {
        FeaturePlan::Feature(f, next) => {
            lemma_find_depth_bound(*next, p);
        },
        FeaturePlan::Branch(nodes) => {
            assert(decreases_to!(t => nodes@));
            lemma_seq_find_depth_bound(nodes@, p);
        },
    }
}

/// A depth found in a sequence of plans is at most the sequence's depth.
pub proof fn lemma_seq_find_depth_bound<F, P: Fn(&F) -> bool>(s: Seq<FeaturePlan<F>>, p: P)
    ensures
        seq_find_depth(s, p) matches Some(d) ==> d <= seq_depth(s),
    decreases s,
{
    if s.len() > 0 {
        lemma_seq_find_depth_bound(s.subrange(0, s.len() - 1), p);
        lemma_find_depth_bound(s[s.len() - 1], p);
    }
}

/// Adding one more plan to a sequence combines its depth with the others'.
pub proof fn lemma_seq_depth_push<F>(s: Seq<FeaturePlan<F>>, i: int)
    requires
        0 <= i < s.len(),
    ensures
        seq_depth(s.subrange(0, i + 1)) == nat_max(seq_depth(s.subrange(0, i)), s[i].depth()),
{
    assert(s.subrange(0, i + 1).subrange(0, i) =~= s.subrange(0, i));
}

/// Every plan of a sequence is at most as deep as the sequence.
pub proof fn lemma_seq_depth_bound<F>(s: Seq<FeaturePlan<F>>, i: int)
    requires
        0 <= i < s.len(),
    ensures
        s[i].depth() <= seq_depth(s),
    decreases s.len(),
{
    if i < s.len() - 1 {
        let t = s.subrange(0, s.len() - 1);
        lemma_seq_depth_bound(t, i);
    }
}

/// `b` is `a` with its feature cloned.
pub open spec fn op_cloned<F: Clone>(a: Op<F>, b: Op<F>) -> bool {
    match (a, b) {
        (Op::New(x), Op::New(y)) => cloned(x, y),
        (Op::PrependOne(x), Op::PrependOne(y)) => cloned(x, y),
        (Op::PrependEach(x), Op::PrependEach(y)) => cloned(x, y),
        (Op::PrependGrouped(x), Op::PrependGrouped(y)) => cloned(x, y),
        _ => false,
    }
}

impl<F: Clone> Clone for Op<F> {
    fn clone(&self) -> (r: Self)
        ensures
            op_cloned(*self, r),
    {
        match self {
            Op::New(x) => Op::New(x.clone()),
            Op::PrependOne(x) => Op::PrependOne(x.clone()),
            Op::PrependEach(x) => Op::PrependEach(x.clone()),
            Op::PrependGrouped(x) => Op::PrependGrouped(x.clone()),
        }
    }
}

impl<F: PartialEq> PartialEq for Op<F> {
    fn eq(&self, other: &Self) -> (r: bool) {
        match (self, other) {
            (Op::New(x), Op::New(y)) => x == y,
            (Op::PrependOne(x), Op::PrependOne(y)) => x == y,
            (Op::PrependEach(x), Op::PrependEach(y)) => x == y,
            (Op::PrependGrouped(x), Op::PrependGrouped(y)) => x == y,
            _ => false,
        }
    }
}

impl<F: PartialEq> PartialEqSpecImpl for Op<F> {
    open spec fn obeys_eq_spec() -> bool {
        F::obeys_eq_spec()
    }

    open spec fn eq_spec(&self, other: &Self) -> bool {
        match (*self, *other) {
            (Op::New(x), Op::New(y)) => x.eq_spec(&y),
            (Op::PrependOne(x), Op::PrependOne(y)) => x.eq_spec(&y),
            (Op::PrependEach(x), Op::PrependEach(y)) => x.eq_spec(&y),
            (Op::PrependGrouped(x), Op::PrependGrouped(y)) => x.eq_spec(&y),
            _ => false,
        }
    }
}

impl<F: Eq> Eq for Op<F> {

}

impl<F> Default for FeaturePlan<F> {
    fn default() -> (r: Self)
        ensures
            is_empty_branch(r),
    {
        FeaturePlan::new()
    }
}

impl<F> FeaturePlan<F> {
    /// An empty plan: a branch with no sub-plans.
    pub fn new() -> (r: Self)
        ensures
            r matches FeaturePlan::Branch(nodes) && nodes@.len() == 0,
    {
        FeaturePlan::Branch(Vec::new())
    }

    /// A plan of one feature over an empty branch.
    pub fn new_feature(feature: F) -> (r: Self)
        ensures
            r matches FeaturePlan::Feature(f, next) && f == feature && (*next matches FeaturePlan::Branch(
                nodes,
            ) && nodes@.len() == 0),
    {
        FeaturePlan::new().prepended(feature)
    }

    /// The plan with `feature` put in front of it.
    pub fn prepended(self, feature: F) -> (r: Self)
        ensures
            r == FeaturePlan::Feature(feature, Box::new(self)),
    {
        FeaturePlan::Feature(feature, Box::new(self))
    }

    /// Puts `feature` in front of the plan.
    pub fn prepend(&mut self, feature: F)
        ensures
            *final(self) == FeaturePlan::Feature(feature, Box::new(*old(self))),
    {
        let mut rest = FeaturePlan::new();
        std::mem::swap(&mut rest, self);
        *self = FeaturePlan::Feature(feature, Box::new(rest));
    }

    /// Joins two plans side by side: the sub-plans of branches are merged
    /// into one branch, and a plan that is not a branch becomes one of its
    /// sub-plans.
    pub fn join(self, other: Self) -> (r: Self)
        ensures
            r matches FeaturePlan::Branch(w) && w@ == joined_nodes(self, other),
    {
        match (self, other) {
            (FeaturePlan::Branch(mut u), FeaturePlan::Branch(mut v)) => {
                u.append(&mut v);
                FeaturePlan::Branch(u)
            },
            (FeaturePlan::Branch(mut u), feature) => {
                u.push(feature);
                FeaturePlan::Branch(u)
            },
            (feature, FeaturePlan::Branch(mut u)) => {
                u.push(feature);
                FeaturePlan::Branch(u)
            },
            (feature1, feature2) => FeaturePlan::Branch(vec![feature1, feature2]),
        }
    }

    /// The sub-plans once the plan of the single feature `feature` is put
    /// beside this plan.
    pub fn add_beside(self, feature: F) -> (r: Vec<FeaturePlan<F>>)
        ensures
            added_beside(self, feature, r@),
    {
        let leaf = FeaturePlan::new_feature(feature);
        match self {
            FeaturePlan::Branch(mut nodes) => {
                let ghost old_nodes = nodes@;
                nodes.push(leaf);
                assert(nodes@.subrange(0, old_nodes.len() as int) =~= old_nodes);
                nodes
            },
            other => vec![other, leaf],
        }
    }

    /// Takes the sub-plans at `i` and `j` out of `nodes` (the higher
    /// position first) and puts their join at the end.
    pub fn join_at(mut nodes: Vec<FeaturePlan<F>>, i: usize, j: usize) -> (r: Vec<FeaturePlan<F>>)
        requires
            i != j,
            i < nodes@.len(),
            j < nodes@.len(),
        ensures
            joined_at(nodes@, i as int, j as int, r@),
    {
        let ghost ns = nodes@;
        let (m, n) = if i < j {
            let m = nodes.swap_remove(j);
            let n = nodes.swap_remove(i);
            (m, n)
        } else {
            let m = nodes.swap_remove(i);
            let n = nodes.swap_remove(j);
            (m, n)
        };
        let ghost rest = nodes@;
        nodes.push(m.join(n));
        assert(nodes@.subrange(0, rest.len() as int) =~= rest);
        nodes
    }

    /// Puts `feature` in front of the sub-plan at `i`.
    pub fn prepend_at(nodes: &mut Vec<FeaturePlan<F>>, i: usize, feature: F)
        requires
            i < old(nodes)@.len(),
        ensures
            final(nodes)@ == old(nodes)@.update(i as int, FeaturePlan::Feature(feature, Box::new(old(nodes)@[i as int]))),
    {
        let mut node = FeaturePlan::new();
        std::mem::swap(&mut node, &mut nodes[i]);
        node.prepend(feature);
        nodes.set(i, node);
    }

    /// The depth of the shallowest feature of which `predicate` holds.
    pub fn find_feature_depth<P: Fn(&F) -> bool>(&self, predicate: &P) -> (r: Option<usize>)
        requires
            decides(*predicate),
            self.depth() <= usize::MAX,
        ensures
            r matches Some(d) ==> self.find_depth(*predicate) == Some(d as nat),
            r is None ==> self.find_depth(*predicate) is None,
        decreases self,
    {
        proof {
            lemma_find_depth_bound(*self, *predicate);
        }
        match self {
            FeaturePlan::Feature(feature, next) => {
                assert(call_requires(*predicate, (feature,)));
                let hit = predicate(feature);
                if hit {
                    Some(0)
                } else {
                    proof {
                        lemma_find_depth_bound(**next, *predicate);
                    }
                    match next.find_feature_depth(predicate) {
                        Some(depth) => Some(depth + 1),
                        None => None,
                    }
                }
            },
            FeaturePlan::Branch(nodes) => {
                let mut acc: Option<usize> = None;
                let mut i: usize = 0;
                while i < nodes.len()
                    invariant
                        i <= nodes.len(),
                        decides(*predicate),
                        self.depth() <= usize::MAX,
                        *self == FeaturePlan::Branch(*nodes),
                        acc matches Some(d) ==> seq_find_depth(nodes@.subrange(0, i as int), *predicate)
                            == Some(d as nat),
                        acc is None ==> seq_find_depth(nodes@.subrange(0, i as int), *predicate) is None,
                    decreases nodes.len() - i,
                {
                    proof {
                        lemma_seq_depth_bound(nodes@, i as int);
                        assert(nodes@.subrange(0, i + 1).subrange(0, i as int) =~= nodes@.subrange(0, i as int));
                        assert(decreases_to!(*self => nodes@[i as int]));
                        lemma_find_depth_bound(nodes@[i as int], *predicate);
                    }
                    let found = match nodes[i].find_feature_depth(predicate) {
                        Some(depth) => Some(depth + 1),
                        None => None,
                    };
                    acc = match (acc, found) {
                        (Some(a), Some(d)) => Some(if a <= d { a } else { d }),
                        (Some(a), None) => Some(a),
                        (None, d) => d,
                    };
                    i = i + 1;
                }
                proof {
                    assert(nodes@.subrange(0, nodes.len() as int) =~= nodes@);
                }
                acc
            },
        }
    }

    /// The number of levels of the plan, counting branches and features.
    pub fn max_depth(&self) -> (r: usize)
        requires
            self.depth() <= usize::MAX,
        ensures
            r == self.depth(),
        decreases self,
    {
        match self {
            FeaturePlan::Feature(_, next) => next.max_depth() + 1,
            FeaturePlan::Branch(nodes) => {
                let mut acc: usize = 1;
                let mut i: usize = 0;
                while i < nodes.len()
                    invariant
                        i <= nodes.len(),
                        self.depth() <= usize::MAX,
                        *self == FeaturePlan::Branch(*nodes),
                        acc == 1 + seq_depth(nodes@.subrange(0, i as int)),
                    decreases nodes.len() - i,
                {
                    proof {
                        lemma_seq_depth_bound(nodes@, i as int);
                        lemma_seq_depth_push(nodes@, i as int);
                        assert(decreases_to!(*self => nodes@[i as int]));
                    }
                    let d = nodes[i].max_depth();
                    if d + 1 > acc {
                        acc = d + 1;
                    }
                    i = i + 1;
                }
                proof {
                    assert(nodes@.subrange(0, nodes.len() as int) =~= nodes@);
                }
                acc
            }
        }
    }
}

impl<F> FeaturePlan<F> {
    /// The depth of the plan, where it fits in a `usize`.
    pub fn checked_depth(&self) -> (r: Option<usize>)
        ensures
            r matches Some(d) ==> d == self.depth(),
            r is None ==> self.depth() > usize::MAX,
        decreases self,
    {
        match self {
            FeaturePlan::Feature(_, next) => match next.checked_depth() {
                Some(d) => d.checked_add(1),
                None => None,
            },
            FeaturePlan::Branch(nodes) => {
                let mut acc: usize = 1;
                let mut i: usize = 0;
                while i < nodes.len()
                    invariant
                        i <= nodes.len(),
                        *self == FeaturePlan::Branch(*nodes),
                        self.depth() == 1 + seq_depth(nodes@),
                        acc == 1 + seq_depth(nodes@.subrange(0, i as int)),
                    decreases nodes.len() - i,
                {
                    proof {
                        lemma_seq_depth_bound(nodes@, i as int);
                        lemma_seq_depth_push(nodes@, i as int);
                        assert(decreases_to!(*self => nodes@[i as int]));
                    }
                    match nodes[i].checked_depth() {
                        Some(d) => {
                            if d >= acc {
                                if d == usize::MAX {
                                    return None;
                                }
                                acc = d + 1;
                            }
                        },
                        None => {
                            return None;
                        },
                    }
                    i = i + 1;
                }
                proof {
                    assert(nodes@.subrange(0, nodes.len() as int) =~= nodes@);
                }
                Some(acc)
            },
        }
    }
}

impl<F: Clone> FeaturePlan<F> {
    /// Puts a clone of `feature` in front of each sub-plan.
    pub fn prepend_each(nodes: Vec<FeaturePlan<F>>, feature: F) -> (r: Vec<FeaturePlan<F>>)
        ensures
            prepended_each(nodes@, feature, r@),
    {
        let ghost u = nodes@;
        let mut out: Vec<FeaturePlan<F>> = Vec::new();
        for node in it: nodes
            invariant
                it.seq() == u,
                out@.len() == it.index(),
                forall|k: int|
                    0 <= k < it.index() ==> (#[trigger] out@[k] matches FeaturePlan::Feature(g, next)
                        && cloned(feature, g) && *next == u[k]),
        {
            let g = feature.clone();
            out.push(node.prepended(g));
        }
        out
    }

    /// Builds a plan from an empty branch by running `steps` in order.
    /// `join_selector` decides, each time a new feature leaves more than two
    /// sub-plans, which two of them are joined; `prepend_selector` decides
    /// which sub-plan a feature is put in front of.
    pub fn from_steps<J: JoinSelector<F>, P: PrependSelector<F>>(
        join_selector: &mut J,
        prepend_selector: &mut P,
        steps: Vec<Op<F>>,
    ) -> (r: FeaturePlan<F>)
        requires
            prepends_after_start(steps@),
        ensures
            exists|ps: Seq<FeaturePlan<F>>| is_run(steps@, ps) && ps.last() == r,
            exists|ps: Seq<FeaturePlan<F>>, js: Seq<J>, ja: Seq<Option<(usize, usize)>>, ss: Seq<P>, sa: Seq<usize>|
                #[trigger] is_driven_run(steps@, ps, js, ja, ss, sa) && ps.last() == r && js[0] == *old(join_selector)
                    && js.last() == *final(join_selector) && ss[0] == *old(prepend_selector) && ss.last()
                    == *final(prepend_selector),
    {
        let ghost all = steps@;
        let mut feature_plan = FeaturePlan::new();
        let ghost mut ps: Seq<FeaturePlan<F>> = seq![feature_plan];
        let ghost mut js: Seq<J> = seq![*join_selector];
        let ghost mut ja: Seq<Option<(usize, usize)>> = Seq::empty();
        let ghost mut ss: Seq<P> = seq![*prepend_selector];
        let ghost mut sa: Seq<usize> = Seq::empty();
        let ghost j_first = *join_selector;
        let ghost s_first = *prepend_selector;
        let ghost mut started = false;
        for step in it: steps
            invariant
                it.seq() == all,
                js.len() == it.index() + 1,
                ss.len() == it.index() + 1,
                ja.len() == it.index(),
                sa.len() == it.index(),
                js[0] == j_first,
                ss[0] == s_first,
                js.last() == *join_selector,
                ss.last() == *prepend_selector,
                forall|k: int|
                    0 <= k < it.index() ==> #[trigger] step_driven(ps[k], all[k], ps[k + 1], js[k], js[k + 1], ja[k], ss[k], ss[k + 1], sa[k]),
                prepends_after_start(all),
                ps.len() == it.index() + 1,
                is_empty_branch(ps[0]),
                forall|k: int| 0 <= k < it.index() ==> #[trigger] step_to(ps[k], all[k], ps[k + 1]),
                ps.last() == feature_plan,
                started <==> exists|j: int|
                    0 <= j < it.index() && (all[j] is New || all[j] is PrependGrouped),
                !started ==> is_empty_branch(feature_plan),
                started ==> !is_empty_branch(feature_plan),
        {
            let ghost before = feature_plan;
            let ghost k = it.index() as int;
            let ghost j0 = *join_selector;
            let ghost s0 = *prepend_selector;
            let ghost mut jans: Option<(usize, usize)> = None;
            let ghost mut sans: usize = 0;
            feature_plan = match step {
                Op::New(feature) => {
                    let nodes = feature_plan.add_beside(feature);
                    let ghost ns = nodes@;
                    let nodes = if nodes.len() > 2 {
                        let answer = join_selector.select_join(nodes.as_slice());
                        proof {
                            jans = answer;
                        }
                        match answer {
                            Some((i, j)) => {
                                let w = FeaturePlan::join_at(nodes, i, j);
                                assert(joined_at(ns, i as int, j as int, w@));
                                w
                            },
                            None => nodes,
                        }
                    } else {
                        nodes
                    };
                    assert(added_beside(before, feature, ns));
                    FeaturePlan::Branch(nodes)
                },
                Op::PrependOne(feature) => match feature_plan {
                    FeaturePlan::Branch(mut nodes) => {
                        proof {
                            assert(all[k] is PrependOne);
                            assert(started);
                        }
                        let i = prepend_selector.select_prepend(nodes.as_slice());
                        proof {
                            sans = i;
                        }
                        let ghost u = nodes@;
                        FeaturePlan::prepend_at(&mut nodes, i, feature);
                        FeaturePlan::Branch(nodes)
                    },
                    other => other.prepended(feature),
                },
                Op::PrependEach(feature) => match feature_plan {
                    FeaturePlan::Branch(nodes) => FeaturePlan::Branch(
                        FeaturePlan::prepend_each(nodes, feature),
                    ),
                    other => other.prepended(feature),
                },
                Op::PrependGrouped(feature) => feature_plan.prepended(feature),
            };
            proof {
                assert(step_to(before, all[k], feature_plan));
                assert(step_driven(before, all[k], feature_plan, j0, *join_selector, jans, s0, *prepend_selector, sans));
                let ps2 = ps.push(feature_plan);
                let js2 = js.push(*join_selector);
                let ja2 = ja.push(jans);
                let ss2 = ss.push(*prepend_selector);
                let sa2 = sa.push(sans);
                assert forall|m: int| 0 <= m < k + 1 implies #[trigger] step_driven(ps2[m], all[m], ps2[m + 1], js2[m], js2[m + 1], ja2[m], ss2[m], ss2[m + 1], sa2[m]) by {
                    if m < k {
                        assert(ps2[m] == ps[m] && ps2[m + 1] == ps[m + 1] && js2[m] == js[m] && js2[m + 1] == js[m + 1]);
                        assert(ss2[m] == ss[m] && ss2[m + 1] == ss[m + 1] && ja2[m] == ja[m] && sa2[m] == sa[m]);
                    }
                }
                js = js2;
                ja = ja2;
                ss = ss2;
                sa = sa2;
                ps = ps.push(feature_plan);
                if all[k] is New || all[k] is PrependGrouped {
                    started = true;
                }
            }
        }
        proof {
            assert(is_driven_run(all, ps, js, ja, ss, sa));
        }
        feature_plan
    }
}

/// Whether each step of `steps` that puts a feature in front of one
/// sub-plan comes after a step that makes the plan non-empty.
pub fn starts_before_prepends<F>(steps: &[Op<F>]) -> (r: bool)
    ensures
        r == prepends_after_start(steps@),
{
    let mut started = false;
    let mut k: usize = 0;
    while k < steps.len()
        invariant
            k <= steps@.len(),
            started <==> exists|j: int| 0 <= j < k && (steps@[j] is New || steps@[j] is PrependGrouped),
            forall|m: int|
                0 <= m < k && #[trigger] steps@[m] is PrependOne ==> exists|j: int|
                    0 <= j < m && (steps@[j] is New || steps@[j] is PrependGrouped),
        decreases steps@.len() - k,
    {
        match &steps[k] {
            Op::PrependOne(_) => {
                if !started {
                    proof {
                        assert(steps@[k as int] is PrependOne);
                    }
                    return false;
                }
            },
            Op::New(_) | Op::PrependGrouped(_) => {
                started = true;
            },
            Op::PrependEach(_) => {},
        }
        k = k + 1;
    }
    true
}

} // verus!
