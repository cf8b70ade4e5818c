use crate::bits::Bits;
use crate::bits::bits_of;
use crate::bits::count_bits;
use crate::bits::or_bits;
use crate::bits::set_bit;
use crate::bits::zeros;
use crate::feature::Op;
use crate::feature::op_cloned;
use vstd::std_specs::cmp::PartialEqSpec;
use vstd::prelude::*;

verus! {

/// The position of a step in a build plan.
#[derive(Clone, Copy, Debug, PartialEq, Eq, Structural)]
pub struct Index(pub usize);

/// Steps, and arcs between them: an arc from a step to another says that
/// the other is built first.
pub struct BuildPlan<E> {
    steps: Vec<Op<E>>,
    outgoing: Vec<Vec<Index>>,
    incoming: Vec<Vec<Index>>,
}

/// The elements of `s` are in strictly ascending order.
pub open spec fn strictly_sorted(s: Seq<Index>) -> bool {
    forall|i: int, j: int| 0 <= i < j < s.len() ==> (#[trigger] s[i]).0 < (#[trigger] s[j]).0
}

impl<E> BuildPlan<E> {
    /// The steps of the plan.
    pub closed spec fn steps_view(self) -> Seq<Op<E>> {
        self.steps@
    }

    /// The number of positions that arcs may reach: at least the number of
    /// steps.
    pub closed spec fn span(self) -> nat {
        self.outgoing@.len()
    }

    /// The targets of the arcs from `s`, in ascending order.
    pub closed spec fn out(self, s: int) -> Seq<Index> {
        if 0 <= s < self.outgoing@.len() {
            self.outgoing@[s]@
        } else {
            Seq::empty()
        }
    }

    /// The sources of the arcs to `t`, in ascending order.
    pub closed spec fn inn(self, t: int) -> Seq<Index> {
        if 0 <= t < self.incoming@.len() {
            self.incoming@[t]@
        } else {
            Seq::empty()
        }
    }

    /// There is an arc from `s` to `t`.
    pub open spec fn has_arc(self, s: int, t: int) -> bool {
        0 <= t < self.span() && self.out(s).contains(Index(t as usize))
    }

    /// The arcs are kept in order from both ends, each within the span.
    pub closed spec fn wf(self) -> bool {
        &&& self.outgoing@.len() == self.incoming@.len()
        &&& self.outgoing@.len() >= self.steps@.len()
        &&& self.outgoing@.len() <= usize::MAX
        &&& forall|s: int| 0 <= s < self.outgoing@.len() ==> strictly_sorted(#[trigger] self.outgoing@[s]@)
        &&& forall|t: int| 0 <= t < self.incoming@.len() ==> strictly_sorted(#[trigger] self.incoming@[t]@)
        &&& forall|s: int, k: int|
            0 <= s < self.outgoing@.len() && 0 <= k < self.outgoing@[s]@.len() ==> (#[trigger] self.outgoing@[s]@[k]).0
                < self.outgoing@.len()
        &&& forall|t: int, k: int|
            0 <= t < self.incoming@.len() && 0 <= k < self.incoming@[t]@.len() ==> (#[trigger] self.incoming@[t]@[k]).0
                < self.incoming@.len()
        &&& forall|s: int, t: int|
            0 <= s < self.outgoing@.len() && 0 <= t < self.outgoing@.len() ==> (#[trigger] self.out(s).contains(
                Index(t as usize),
            ) <==> #[trigger] self.inn(t).contains(Index(s as usize)))
    }
}

/// Adds `x` to a strictly ascending vector of indices, unless it is there.
pub(crate) fn insert_sorted(v: &mut Vec<Index>, x: Index)
    requires
        strictly_sorted(old(v)@),
    ensures
        strictly_sorted(final(v)@),
        forall|y: Index| #[trigger] final(v)@.contains(y) <==> old(v)@.contains(y) || y == x,
{
    let mut p: usize = 0;
    while p < v.len() && v[p].0 < x.0
        invariant
            p <= v@.len(),
            strictly_sorted(v@),
            forall|j: int| 0 <= j < p ==> (#[trigger] v@[j]).0 < x.0,
        decreases v@.len() - p,
    {
        p = p + 1;
    }
    if p < v.len() && v[p].0 == x.0 {
        proof {
            assert(v@[p as int] == x);
        }
        return ;
    }
    let ghost old_v = v@;
    v.insert(p, x);
    proof {
        assert forall|i: int, j: int| 0 <= i < j < v@.len() implies (#[trigger] v@[i]).0 < (#[trigger] v@[j]).0 by {
            if p < old_v.len() {
                assert(x.0 < old_v[p as int].0);
            }
            if i < p && j > p {
                assert(old_v[i].0 < x.0);
            }
            if i == p && j > p + 1 {
                assert(old_v[p as int].0 <= old_v[j - 1].0);
            }
        }
        assert forall|y: Index| #[trigger] v@.contains(y) <==> old_v.contains(y) || y == x by {
            if old_v.contains(y) {
                let k = choose|k: int| 0 <= k < old_v.len() && old_v[k] == y;
                if k < p {
                    assert(v@[k] == y);
                } else {
                    assert(v@[k + 1] == y);
                }
            }
            if y == x {
                assert(v@[p as int] == y);
            }
            if v@.contains(y) {
                let k = choose|k: int| 0 <= k < v@.len() && v@[k] == y;
                if k < p {
                    assert(old_v[k] == y);
                } else if k > p {
                    assert(old_v[k - 1] == y);
                }
            }
        }
    }
}

impl<E> BuildPlan<E> {
    /// A plan with no steps and no arcs.
    pub fn new() -> (r: Self)
        ensures
            r.wf(),
            r.steps_view().len() == 0,
            r.span() == 0,
            forall|s: int, t: int| !r.has_arc(s, t),
    {
        BuildPlan { steps: Vec::new(), outgoing: Vec::new(), incoming: Vec::new() }
    }

    /// Adds a step and returns its position.
    pub fn vertex(&mut self, vertex: Op<E>) -> (r: Index)
        requires
            old(self).wf(),
            old(self).span() < usize::MAX,
        ensures
            final(self).wf(),
            final(self).steps_view() == old(self).steps_view().push(vertex),
            r.0 == old(self).steps_view().len(),
            forall|s: int, t: int| final(self).has_arc(s, t) == old(self).has_arc(s, t),
            final(self).span() == if old(self).span() > old(self).steps_view().len() {
                old(self).span()
            } else {
                old(self).span() + 1
            },
    {
        let ghost before = *self;
        let i = self.steps.len();
        self.steps.push(vertex);
        if self.outgoing.len() < self.steps.len() {
            self.outgoing.push(Vec::new());
            self.incoming.push(Vec::new());
            proof {
                assert forall|s: int| 0 <= s < self.outgoing@.len() implies strictly_sorted(#[trigger] self.outgoing@[s]@) by {
                    if s < before.outgoing@.len() {
                        assert(self.outgoing@[s] == before.outgoing@[s]);
                    }
                }
                assert forall|t: int| 0 <= t < self.incoming@.len() implies strictly_sorted(#[trigger] self.incoming@[t]@) by {
                    if t < before.incoming@.len() {
                        assert(self.incoming@[t] == before.incoming@[t]);
                    }
                }
                assert forall|s: int, k: int|
                    0 <= s < self.outgoing@.len() && 0 <= k < self.outgoing@[s]@.len() implies (#[trigger] self.outgoing@[s]@[k]).0
                        < self.outgoing@.len() by {
                    assert(self.outgoing@[s] == before.outgoing@[s]);
                }
                assert forall|t: int, k: int|
                    0 <= t < self.incoming@.len() && 0 <= k < self.incoming@[t]@.len() implies (#[trigger] self.incoming@[t]@[k]).0
                        < self.incoming@.len() by {
                    assert(self.incoming@[t] == before.incoming@[t]);
                }
                assert forall|s: int, t: int|
                    0 <= s < self.outgoing@.len() && 0 <= t < self.outgoing@.len() implies (#[trigger] self.out(s).contains(
                        Index(t as usize),
                    ) <==> #[trigger] self.inn(t).contains(Index(s as usize))) by {
                    let n0 = before.outgoing@.len() as int;
                    if s < n0 {
                        assert(self.out(s) == before.out(s));
                    } else {
                        assert(self.out(s) =~= Seq::empty());
                    }
                    if t < n0 {
                        assert(self.inn(t) == before.inn(t));
                    } else {
                        assert(self.inn(t) =~= Seq::empty());
                    }
                    if s < n0 && t == n0 && self.out(s).contains(Index(t as usize)) {
                        let k = choose|k: int| 0 <= k < before.out(s).len() && before.out(s)[k] == Index(t as usize);
                        assert(before.outgoing@[s]@[k].0 < before.outgoing@.len());
                    }
                    if t < n0 && s == n0 && self.inn(t).contains(Index(s as usize)) {
                        let k = choose|k: int| 0 <= k < before.inn(t).len() && before.inn(t)[k] == Index(s as usize);
                        assert(before.incoming@[t]@[k].0 < before.incoming@.len());
                    }
                }
                assert forall|s: int, t: int| self.has_arc(s, t) == before.has_arc(s, t) by {
                    if 0 <= s < before.outgoing@.len() {
                        assert(self.out(s) == before.out(s));
                    } else if s == before.outgoing@.len() {
                        assert(self.out(s) =~= Seq::empty());
                    }
                }
            }
        } else {
            proof {
                assert forall|s: int, t: int|
                    0 <= s < self.outgoing@.len() && 0 <= t < self.outgoing@.len() implies (#[trigger] self.out(s).contains(
                        Index(t as usize),
                    ) <==> #[trigger] self.inn(t).contains(Index(s as usize))) by {
                    assert(self.out(s) == before.out(s));
                    assert(self.inn(t) == before.inn(t));
                }
            }
        }
        Index(i)
    }
}

impl<E> BuildPlan<E> {
    /// Widens the span to at least `n` positions.
    fn grow(&mut self, n: usize)
        requires
            old(self).wf(),
        ensures
            final(self).wf(),
            final(self).steps_view() == old(self).steps_view(),
            final(self).span() == if old(self).span() >= n { old(self).span() } else { n as nat },
            forall|s: int| #[trigger] final(self).out(s) == old(self).out(s),
            forall|t: int| #[trigger] final(self).inn(t) == old(self).inn(t),
    {
        while self.outgoing.len() < n
            invariant
                self.wf(),
                self.steps_view() == old(self).steps_view(),
                self.span() == if old(self).span() >= n { old(self).span() } else if self.span() >= n { n as nat } else { self.span() },
                self.span() >= old(self).span(),
                forall|s: int| #[trigger] self.out(s) == old(self).out(s),
                forall|t: int| #[trigger] self.inn(t) == old(self).inn(t),
            decreases n - self.outgoing@.len(),
        {
            let ghost before = *self;
            self.outgoing.push(Vec::new());
            self.incoming.push(Vec::new());
            proof {
                let n0 = before.outgoing@.len() as int;
                assert forall|s: int| #[trigger] self.out(s) == before.out(s) by {
                    if s == n0 {
                        assert(self.out(s) =~= Seq::empty());
                    }
                }
                assert forall|t: int| #[trigger] self.inn(t) == before.inn(t) by {
                    if t == n0 {
                        assert(self.inn(t) =~= Seq::empty());
                    }
                }
                assert forall|s: int| 0 <= s < self.outgoing@.len() implies strictly_sorted(#[trigger] self.outgoing@[s]@) by {
                    if s < n0 {
                        assert(self.outgoing@[s] == before.outgoing@[s]);
                    }
                }
                assert forall|t: int| 0 <= t < self.incoming@.len() implies strictly_sorted(#[trigger] self.incoming@[t]@) by {
                    if t < n0 {
                        assert(self.incoming@[t] == before.incoming@[t]);
                    }
                }
                assert forall|s: int, k: int|
                    0 <= s < self.outgoing@.len() && 0 <= k < self.outgoing@[s]@.len() implies (#[trigger] self.outgoing@[s]@[k]).0
                        < self.outgoing@.len() by {
                    assert(self.outgoing@[s] == before.outgoing@[s]);
                }
                assert forall|t: int, k: int|
                    0 <= t < self.incoming@.len() && 0 <= k < self.incoming@[t]@.len() implies (#[trigger] self.incoming@[t]@[k]).0
                        < self.incoming@.len() by {
                    assert(self.incoming@[t] == before.incoming@[t]);
                }
                assert forall|s: int, t: int|
                    0 <= s < self.outgoing@.len() && 0 <= t < self.outgoing@.len() implies (#[trigger] self.out(s).contains(
                        Index(t as usize),
                    ) <==> #[trigger] self.inn(t).contains(Index(s as usize))) by {
                    if s < n0 && t == n0 && self.out(s).contains(Index(t as usize)) {
                        let k = choose|k: int| 0 <= k < before.out(s).len() && before.out(s)[k] == Index(t as usize);
                        assert(before.outgoing@[s]@[k].0 < before.outgoing@.len());
                    }
                    if t < n0 && s == n0 && self.inn(t).contains(Index(s as usize)) {
                        let k = choose|k: int| 0 <= k < before.inn(t).len() && before.inn(t)[k] == Index(s as usize);
                        assert(before.incoming@[t]@[k].0 < before.incoming@.len());
                    }
                }
            }
        }
    }

    /// Adds an arc from `source` to `dest`: `dest` is built before
    /// `source`.
    pub fn arc(&mut self, source: Index, dest: Index)
        requires
            old(self).wf(),
            source.0 < usize::MAX,
            dest.0 < usize::MAX,
        ensures
            final(self).wf(),
            final(self).steps_view() == old(self).steps_view(),
            forall|s: int, t: int|
                #[trigger] final(self).has_arc(s, t) == (old(self).has_arc(s, t) || (s == source.0 && t
                    == dest.0)),
            final(self).span() == if old(self).span() > source.0 && old(self).span() > dest.0 {
                old(self).span() as int
            } else if source.0 < dest.0 {
                dest.0 + 1
            } else {
                source.0 + 1
            },
    {
        let n = if source.0 < dest.0 { dest.0 + 1 } else { source.0 + 1 };
        let ghost o = *self;
        self.grow(n);
        let ghost g = *self;
        let mut targets: Vec<Index> = Vec::new();
        std::mem::swap(&mut targets, &mut self.outgoing[source.0]);
        insert_sorted(&mut targets, dest);
        let ghost tv = targets@;
        self.outgoing.set(source.0, targets);
        let mut sources: Vec<Index> = Vec::new();
        std::mem::swap(&mut sources, &mut self.incoming[dest.0]);
        insert_sorted(&mut sources, source);
        self.incoming.set(dest.0, sources);
        proof {
            let len = self.outgoing@.len() as int;
            assert forall|s: int| #![trigger self.out(s)]
                self.out(s) == if s == source.0 { self.out(s) } else { g.out(s) } by {
                if s != source.0 && 0 <= s < len {
                    assert(self.outgoing@[s] == g.outgoing@[s]);
                }
            }
            assert forall|t: int| #![trigger self.inn(t)]
                self.inn(t) == if t == dest.0 { self.inn(t) } else { g.inn(t) } by {
                if t != dest.0 && 0 <= t < len {
                    assert(self.incoming@[t] == g.incoming@[t]);
                }
            }
            assert forall|s: int| 0 <= s < self.outgoing@.len() implies strictly_sorted(#[trigger] self.outgoing@[s]@) by {
                if s != source.0 {
                    assert(self.outgoing@[s] == g.outgoing@[s]);
                }
            }
            assert forall|t: int| 0 <= t < self.incoming@.len() implies strictly_sorted(#[trigger] self.incoming@[t]@) by {
                if t != dest.0 {
                    assert(self.incoming@[t] == g.incoming@[t]);
                }
            }
            assert forall|s: int, k: int|
                0 <= s < self.outgoing@.len() && 0 <= k < self.outgoing@[s]@.len() implies (#[trigger] self.outgoing@[s]@[k]).0
                    < self.outgoing@.len() by {
                if s != source.0 {
                    assert(self.outgoing@[s] == g.outgoing@[s]);
                } else {
                    let e = self.outgoing@[s]@[k];
                    assert(self.outgoing@[s]@.contains(e));
                    if e != dest {
                        let j = choose|j: int| 0 <= j < g.outgoing@[s]@.len() && g.outgoing@[s]@[j] == e;
                        assert(g.outgoing@[s]@[j].0 < g.outgoing@.len());
                    }
                }
            }
            assert forall|t: int, k: int|
                0 <= t < self.incoming@.len() && 0 <= k < self.incoming@[t]@.len() implies (#[trigger] self.incoming@[t]@[k]).0
                    < self.incoming@.len() by {
                if t != dest.0 {
                    assert(self.incoming@[t] == g.incoming@[t]);
                } else {
                    let e = self.incoming@[t]@[k];
                    assert(self.incoming@[t]@.contains(e));
                    if e != source {
                        let j = choose|j: int| 0 <= j < g.incoming@[t]@.len() && g.incoming@[t]@[j] == e;
                        assert(g.incoming@[t]@[j].0 < g.incoming@.len());
                    }
                }
            }
            assert forall|s: int, t: int|
                0 <= s < self.outgoing@.len() && 0 <= t < self.outgoing@.len() implies (#[trigger] self.out(s).contains(
                    Index(t as usize),
                ) <==> #[trigger] self.inn(t).contains(Index(s as usize))) by {
                assert(g.out(s).contains(Index(t as usize)) <==> g.inn(t).contains(Index(s as usize)));
            }
            assert forall|s: int, t: int|
                #[trigger] self.has_arc(s, t) == (o.has_arc(s, t) || (s == source.0 && t == dest.0)) by {
                assert(g.out(s) == o.out(s));
                if s == source.0 {
                    assert(self.out(s) == tv);
                    assert(g.out(s) == g.outgoing@[s]@);
                    if 0 <= t < len {
                        assert(tv.contains(Index(t as usize)) <==> g.out(s).contains(Index(t as usize)) || Index(t as usize) == dest);
                    }
                    if o.has_arc(s, t) {
                        assert(0 <= t < len);
                    }
                }
            }
        }
    }
}

/// No index occurs twice in `r`.
pub open spec fn distinct(r: Seq<Index>) -> bool {
    forall|i: int, j: int| 0 <= i < j < r.len() ==> r[i] != r[j]
}

impl<E> BuildPlan<E> {
    /// Each arc goes from a higher rank to a lower one.
    pub open spec fn ranked_by(self, rank: spec_fn(int) -> nat) -> bool {
        forall|s: int, t: int| #[trigger] self.has_arc(s, t) ==> rank(t) < rank(s)
    }

    /// No chain of arcs leads back to where it started.
    pub open spec fn is_acyclic(self) -> bool {
        exists|rank: spec_fn(int) -> nat| self.ranked_by(rank)
    }

    /// Each arc from an entry of `r` ends at an entry before it.
    pub open spec fn arcs_point_back(self, r: Seq<Index>) -> bool {
        forall|i: int, t: int|
            0 <= i < r.len() && #[trigger] self.has_arc(r[i].0 as int, t) ==> exists|j: int|
                0 <= j < i && r[j].0 == t
    }

    /// Each entry of `r` past the steps is the target of an arc from an
    /// entry after it.
    pub open spec fn extras_reached(self, r: Seq<Index>) -> bool {
        forall|i: int|
            0 <= i < r.len() && r[i].0 >= self.steps_view().len() ==> exists|j: int|
                i < j < r.len() && #[trigger] self.has_arc(r[j].0 as int, r[i].0 as int)
    }

    /// The state of a depth-first walk: `perm` marks the positions listed
    /// in `r`, once each, and every arc from a listed position points back.
    pub open spec fn walk_state(self, perm: Seq<bool>, r: Seq<Index>) -> bool {
        &&& perm.len() == self.span()
        &&& distinct(r)
        &&& forall|i: int| 0 <= i < perm.len() ==> (#[trigger] perm[i] <==> r.contains(Index(i as usize)))
        &&& forall|k: int| 0 <= k < r.len() ==> (#[trigger] r[k]).0 < self.span()
        &&& self.arcs_point_back(r)
    }

    /// The arcs from `s` are those to the entries of `out(s)`.
    pub proof fn lemma_out(self, s: int)
        requires
            self.wf(),
        ensures
            forall|k: int| 0 <= k < self.out(s).len() ==> (#[trigger] self.out(s)[k]).0 < self.span(),
            forall|x: Index| #[trigger] self.out(s).contains(x) <==> self.has_arc(s, x.0 as int),
            strictly_sorted(self.out(s)),
            self.out(s).len() > 0 ==> 0 <= s < self.span(),
    {
        assert forall|x: Index| #[trigger] self.out(s).contains(x) implies self.has_arc(s, x.0 as int) by {
            let k = choose|k: int| 0 <= k < self.out(s).len() && self.out(s)[k] == x;
            assert(self.outgoing@[s]@[k].0 < self.outgoing@.len());
            assert(Index(x.0 as int as usize) == x);
        }
    }

    /// The arcs to `t` are those from the entries of `inn(t)`.
    pub proof fn lemma_inn(self, t: int)
        requires
            self.wf(),
        ensures
            forall|k: int| 0 <= k < self.inn(t).len() ==> (#[trigger] self.inn(t)[k]).0 < self.span(),
            forall|x: Index| #[trigger] self.inn(t).contains(x) <==> self.has_arc(x.0 as int, t),
            strictly_sorted(self.inn(t)),
    {
        assert forall|x: Index| #[trigger] self.inn(t).contains(x) <==> self.has_arc(x.0 as int, t) by {
            if self.inn(t).contains(x) {
                let k = choose|k: int| 0 <= k < self.inn(t).len() && self.inn(t)[k] == x;
                assert(self.incoming@[t]@[k].0 < self.incoming@.len());
                assert(Index(t as usize).0 == t);
                assert(Index(x.0 as int as usize) == x);
                assert(self.out(x.0 as int).contains(Index(t as usize)));
            }
            if self.has_arc(x.0 as int, t) {
                assert(Index(x.0 as int as usize) == x);
                assert(self.out(x.0 as int).len() > 0);
            }
        }
    }
}

/// A copy of `v`.
pub(crate) fn copy_indices(v: &Vec<Index>) -> (r: Vec<Index>)
    ensures
        r@ == v@,
{
    let mut r: Vec<Index> = Vec::new();
    for k in 0..v.len()
        invariant
            r@ == v@.subrange(0, k as int),
    {
        r.push(v[k]);
    }
    r
}

impl<E> BuildPlan<E> {
    /// The steps, in the order in which they were added.
    pub fn steps(&self) -> (r: &[Op<E>])
        ensures
            r@ == self.steps_view(),
    {
        self.steps.as_slice()
    }

    /// The positions of the steps, in ascending order.
    pub fn indices(&self) -> (r: Vec<Index>)
        ensures
            r@.len() == self.steps_view().len(),
            forall|k: int| 0 <= k < r@.len() ==> (#[trigger] r@[k]).0 == k,
    {
        let mut r: Vec<Index> = Vec::new();
        for i in 0..self.steps.len()
            invariant
                r@.len() == i,
                forall|k: int| 0 <= k < r@.len() ==> (#[trigger] r@[k]).0 == k,
        {
            r.push(Index(i));
        }
        r
    }

    /// The targets of the arcs from `source`, in ascending order.
    pub fn outgoing(&self, source: Index) -> (r: Vec<Index>)
        requires
            self.wf(),
        ensures
            r@ == self.out(source.0 as int),
            strictly_sorted(r@),
            forall|x: Index| #[trigger] r@.contains(x) <==> self.has_arc(source.0 as int, x.0 as int),
    {
        proof {
            self.lemma_out(source.0 as int);
        }
        if source.0 < self.outgoing.len() {
            copy_indices(&self.outgoing[source.0])
        } else {
            Vec::new()
        }
    }

    /// The sources of the arcs to `target`, in ascending order.
    pub fn incoming(&self, target: Index) -> (r: Vec<Index>)
        requires
            self.wf(),
        ensures
            r@ == self.inn(target.0 as int),
            strictly_sorted(r@),
            forall|x: Index| #[trigger] r@.contains(x) <==> self.has_arc(x.0 as int, target.0 as int),
    {
        proof {
            self.lemma_inn(target.0 as int);
        }
        if target.0 < self.incoming.len() {
            copy_indices(&self.incoming[target.0])
        } else {
            Vec::new()
        }
    }

    /// Lists `x` and every position reached from it that is not listed
    /// yet, each after the targets of its arcs.
    #[verifier::spinoff_prover]
    #[verifier::rlimit(50)]
    fn visit(
        &self,
        x: Index,
        perm: &mut Vec<bool>,
        result: &mut Vec<Index>,
        Ghost(rank): Ghost<spec_fn(int) -> nat>,
    )
        requires
            self.wf(),
            self.ranked_by(rank),
            x.0 < self.span(),
            self.walk_state(old(perm)@, old(result)@),
        ensures
            self.walk_state(final(perm)@, final(result)@),
            final(result)@.len() >= old(result)@.len(),
            final(result)@.subrange(0, old(result)@.len() as int) == old(result)@,
            final(result)@.contains(x),
            forall|i: int|
                old(result)@.len() <= i < final(result)@.len() ==> rank((#[trigger] final(result)@[i]).0 as int)
                    <= rank(x.0 as int),
            forall|i: int|
                old(result)@.len() <= i < final(result)@.len() && (#[trigger] final(result)@[i]) != x
                    ==> exists|j: int|
                    i < j < final(result)@.len() && self.has_arc(final(result)@[j].0 as int, final(result)@[i].0 as int),
        decreases rank(x.0 as int),
    {
        if perm[x.0] {
            return ;
        }
        let ghost r0 = result@;
        let ghost xi = x.0 as int;
        proof {
            self.lemma_out(xi);
            assert(self.out(xi) == self.outgoing@[xi]@);
        }
        let n_targets = self.outgoing[x.0].len();
        let mut k: usize = 0;
        while k < n_targets
            invariant
                self.wf(),
                self.ranked_by(rank),
                x.0 < self.span(),
                xi == x.0,
                n_targets == self.out(xi).len(),
                self.out(xi) == self.outgoing@[xi]@,
                forall|x2: Index| #[trigger] self.out(xi).contains(x2) <==> self.has_arc(xi, x2.0 as int),
                forall|m: int| 0 <= m < self.out(xi).len() ==> (#[trigger] self.out(xi)[m]).0 < self.span(),
                self.walk_state(perm@, result@),
                k <= n_targets,
                result@.len() >= r0.len(),
                result@.subrange(0, r0.len() as int) == r0,
                !result@.contains(x),
                !perm@[xi],
                forall|m: int| 0 <= m < k ==> result@.contains(#[trigger] self.out(xi)[m]),
                forall|i: int|
                    r0.len() <= i < result@.len() ==> rank((#[trigger] result@[i]).0 as int) < rank(xi),
                forall|i: int|
                    r0.len() <= i < result@.len() ==> self.has_arc(xi, (#[trigger] result@[i]).0 as int)
                        || exists|j: int|
                        i < j < result@.len() && self.has_arc(result@[j].0 as int, result@[i].0 as int),
            decreases n_targets - k,
        {
            let t = self.outgoing[x.0][k];
            let ghost before = result@;
            proof {
                assert(self.out(xi).contains(t));
                assert(self.has_arc(xi, t.0 as int));
            }
            self.visit(t, perm, result, Ghost(rank));
            proof {
                assert forall|m: int| 0 <= m < k + 1 implies result@.contains(#[trigger] self.out(xi)[m]) by {
                    if m < k {
                        let q = choose|q: int| 0 <= q < before.len() && before[q] == self.out(xi)[m];
                        assert(result@[q] == before[q]);
                    }
                }
                assert forall|i: int|
                    r0.len() <= i < result@.len() implies self.has_arc(xi, (#[trigger] result@[i]).0 as int)
                        || exists|j: int|
                        i < j < result@.len() && self.has_arc(result@[j].0 as int, result@[i].0 as int) by {
                    if i < before.len() {
                        assert(result@[i] == before[i]);
                        if !self.has_arc(xi, before[i].0 as int) {
                            let j = choose|j: int|
                                i < j < before.len() && self.has_arc(before[j].0 as int, before[i].0 as int);
                            assert(result@[j] == before[j]);
                        }
                    }
                }
                assert forall|i: int| r0.len() <= i < result@.len() implies rank((#[trigger] result@[i]).0 as int) < rank(xi) by {
                    if i < before.len() {
                        assert(result@[i] == before[i]);
                    }
                }
                assert(result@.subrange(0, r0.len() as int) =~= before.subrange(0, r0.len() as int));
                if result@.contains(x) {
                    let q = choose|q: int| 0 <= q < result@.len() && result@[q] == x;
                    if q >= before.len() {
                        assert(rank(result@[q].0 as int) <= rank(t.0 as int));
                    } else {
                        assert(before[q] == x);
                        assert(false);
                    }
                }
                assert(!perm@[xi]);
            }
            k = k + 1;
        }
        let ghost mid = result@;
        perm.set(x.0, true);
        result.push(x);
        proof {
            let len = result@.len() as int;
            assert(result@[len - 1] == x);
            assert forall|i: int| 0 <= i < perm@.len() implies (#[trigger] perm@[i] <==> result@.contains(Index(i as usize))) by {
                if i != xi {
                    if mid.contains(Index(i as usize)) {
                        let q = choose|q: int| 0 <= q < mid.len() && mid[q] == Index(i as usize);
                        assert(result@[q] == mid[q]);
                    }
                    if result@.contains(Index(i as usize)) {
                        let q = choose|q: int| 0 <= q < result@.len() && result@[q] == Index(i as usize);
                        if q < mid.len() {
                            assert(mid[q] == Index(i as usize));
                        }
                    }
                }
            }
            assert forall|a: int, b: int| 0 <= a < b < result@.len() implies result@[a] != result@[b] by {
                if b == len - 1 {
                    assert(mid[a] == result@[a]);
                    assert(mid.contains(result@[a]));
                }
            }
            assert forall|i: int, t: int|
                0 <= i < result@.len() && #[trigger] self.has_arc(result@[i].0 as int, t) implies exists|j: int|
                    0 <= j < i && result@[j].0 == t by {
                if i < len - 1 {
                    assert(result@[i] == mid[i]);
                    let j = choose|j: int| 0 <= j < i && mid[j].0 == t;
                    assert(result@[j] == mid[j]);
                } else {
                    assert(self.out(xi).contains(Index(t as usize)));
                    let m = choose|m: int| 0 <= m < self.out(xi).len() && self.out(xi)[m] == Index(t as usize);
                    assert(mid.contains(self.out(xi)[m]));
                    let j = choose|j: int| 0 <= j < mid.len() && mid[j] == self.out(xi)[m];
                    assert(result@[j] == mid[j]);
                }
            }
            assert forall|i: int|
                r0.len() <= i < result@.len() && (#[trigger] result@[i]) != x implies exists|j: int|
                    i < j < result@.len() && self.has_arc(result@[j].0 as int, result@[i].0 as int) by {
                assert(result@[i] == mid[i]);
                if self.has_arc(xi, mid[i].0 as int) {
                    assert(self.has_arc(result@[len - 1].0 as int, result@[i].0 as int));
                } else {
                    let j = choose|j: int| i < j < mid.len() && self.has_arc(mid[j].0 as int, mid[i].0 as int);
                    assert(result@[j] == mid[j]);
                }
            }
            assert forall|i: int| old(result)@.len() <= i < result@.len() implies rank((#[trigger] result@[i]).0 as int)
                <= rank(x.0 as int) by {
                if i < len - 1 {
                    assert(result@[i] == mid[i]);
                }
            }
            assert(result@.subrange(0, r0.len() as int) =~= mid.subrange(0, r0.len() as int));
        }
    }

    /// The positions of the steps and of every position their arcs reach,
    /// each once, each after the targets of its arcs.
    pub fn sorted(&self) -> (r: Vec<Index>)
        requires
            self.wf(),
            self.is_acyclic(),
        ensures
            distinct(r@),
            forall|x: Index| x.0 < self.steps_view().len() ==> #[trigger] r@.contains(x),
            forall|k: int| 0 <= k < r@.len() ==> (#[trigger] r@[k]).0 < self.span(),
            self.arcs_point_back(r@),
            self.extras_reached(r@),
    {
        let ghost rank = choose|rank: spec_fn(int) -> nat| self.ranked_by(rank);
        let span = self.outgoing.len();
        let mut perm: Vec<bool> = Vec::new();
        for i in 0..span
            invariant
                perm@.len() == i,
                forall|j: int| 0 <= j < i ==> !(#[trigger] perm@[j]),
        {
            perm.push(false);
        }
        let mut result: Vec<Index> = Vec::new();
        let n = self.steps.len();
        for i in 0..n
            invariant
                self.wf(),
                self.ranked_by(rank),
                n == self.steps_view().len(),
                n <= self.span(),
                self.walk_state(perm@, result@),
                forall|x: Index| x.0 < i ==> #[trigger] result@.contains(x),
                self.extras_reached(result@),
        {
            let ghost before = result@;
            if !perm[i] {
                self.visit(Index(i), &mut perm, &mut result, Ghost(rank));
                proof {
                    assert forall|x: Index| x.0 < i + 1 implies #[trigger] result@.contains(x) by {
                        if x.0 < i {
                            assert(before.contains(x));
                            let q = choose|q: int| 0 <= q < before.len() && before[q] == x;
                            assert(result@.subrange(0, before.len() as int)[q] == result@[q]);
                            assert(result@[q] == before[q]);
                        } else {
                            assert(x == Index(i));
                        }
                    }
                    assert forall|a: int|
                        0 <= a < result@.len() && result@[a].0 >= self.steps_view().len() implies exists|j: int|
                            a < j < result@.len() && #[trigger] self.has_arc(result@[j].0 as int, result@[a].0 as int) by {
                        if a < before.len() {
                            assert(result@.subrange(0, before.len() as int)[a] == result@[a]);
                            assert(result@[a] == before[a]);
                            let j = choose|j: int|
                                a < j < before.len() && #[trigger] self.has_arc(before[j].0 as int, before[a].0 as int);
                            assert(result@.subrange(0, before.len() as int)[j] == result@[j]);
                            assert(result@[j] == before[j]);
                        } else {
                            assert(result@[a] != Index(i));
                        }
                    }
                }
            } else {
                proof {
                    assert(perm@[i as int]);
                    assert(Index(i as int as usize) == Index(i));
                }
            }
        }
        result
    }
}

impl<E: Clone> BuildPlan<E> {
    /// A clone of the step at `index`, if there is one.
    pub fn get(&self, index: &Index) -> (r: Option<Op<E>>)
        ensures
            index.0 < self.steps_view().len() <==> r is Some,
            r matches Some(op) ==> op_cloned(self.steps_view()[index.0 as int], op),
    {
        if index.0 < self.steps.len() {
            Some(self.steps[index.0].clone())
        } else {
            None
        }
    }
}

impl<E: PartialEq> BuildPlan<E> {
    /// The position of the first step equal to `vertex`, if any.
    pub fn index(&self, vertex: Op<E>) -> (r: Option<Index>)
        ensures
            r matches Some(i) ==> i.0 < self.steps_view().len(),
            E::obeys_eq_spec() ==> (r matches Some(i) ==> self.steps_view()[i.0 as int].eq_spec(&vertex)),
            E::obeys_eq_spec() ==> (r matches Some(i) ==> forall|k: int|
                0 <= k < i.0 ==> !(#[trigger] self.steps_view()[k]).eq_spec(&vertex)),
            E::obeys_eq_spec() ==> (r is None <==> forall|k: int|
                0 <= k < self.steps_view().len() ==> !(#[trigger] self.steps_view()[k]).eq_spec(&vertex)),
    {
        let mut k: usize = 0;
        while k < self.steps.len()
            invariant
                k <= self.steps_view().len(),
                E::obeys_eq_spec() ==> forall|m: int|
                    0 <= m < k ==> !(#[trigger] self.steps_view()[m]).eq_spec(&vertex),
            decreases self.steps_view().len() - k,
        {
            if self.steps[k] == vertex {
                return Some(Index(k));
            }
            k = k + 1;
        }
        None
    }
}

/// The number of entries of `m` that are set.
pub open spec fn count_true(m: Seq<bool>) -> nat
    decreases m.len(),
{
    if m.len() == 0 {
        0
    } else {
        count_true(m.drop_last()) + if m.last() {
            1nat
        } else {
            0nat
        }
    }
}

/// Setting an entry that was clear adds one to the count.
pub proof fn lemma_count_true_set(m: Seq<bool>, i: int)
    requires
        0 <= i < m.len(),
        !m[i],
    ensures
        count_true(m.update(i, true)) == count_true(m) + 1,
    decreases m.len(),
{
    let u = m.update(i, true);
    if i < m.len() - 1 {
        assert(u.drop_last() =~= m.drop_last().update(i, true));
        lemma_count_true_set(m.drop_last(), i);
    } else {
        assert(u.drop_last() =~= m.drop_last());
    }
}

/// A count never exceeds the length.
pub proof fn lemma_count_true_bound(m: Seq<bool>)
    ensures
        count_true(m) <= m.len(),
    decreases m.len(),
{
    if m.len() > 0 {
        lemma_count_true_bound(m.drop_last());
    }
}

impl<E> BuildPlan<E> {
    /// Every arc joins two steps.
    pub open spec fn arcs_within_steps(self) -> bool {
        forall|s: int, t: int|
            #[trigger] self.has_arc(s, t) ==> s < self.steps_view().len() && t < self.steps_view().len()
    }

    /// `p` is a chain of arcs.
    pub open spec fn is_path(self, p: Seq<int>) -> bool {
        &&& p.len() >= 1
        &&& forall|k: int| 0 <= k < p.len() - 1 ==> #[trigger] self.has_arc(p[k], p[k + 1])
    }

    /// A chain of arcs, possibly of none, leads from `j` to `i`.
    pub open spec fn reaches(self, j: int, i: int) -> bool {
        exists|p: Seq<int>| #[trigger] self.is_path(p) && p[0] == j && p.last() == i
    }

    /// For each step, whether a chain of arcs, possibly of none, leads
    /// from it to `i`.
    pub open spec fn reach_mask(self, i: int) -> Seq<bool> {
        Seq::new(self.steps_view().len(), |j: int| self.reaches(j, i))
    }

    /// The number of steps from which a chain of arcs, possibly of none,
    /// leads to `i`.
    pub open spec fn reach_count(self, i: int) -> nat {
        count_true(self.reach_mask(i))
    }

    /// A chain to `i` is empty or ends with an arc from a position that the
    /// rest of the chain reaches.
    pub proof fn lemma_reaches_step(self, j: int, i: int)
        ensures
            self.reaches(j, i) <==> j == i || exists|s: int| #[trigger] self.has_arc(s, i) && self.reaches(j, s),
    {
        if self.reaches(j, i) {
            let p = choose|p: Seq<int>| #[trigger] self.is_path(p) && p[0] == j && p.last() == i;
            if p.len() > 1 {
                let q = p.drop_last();
                let k = p.len() - 2;
                assert(self.has_arc(p[k], p[k + 1]));
                assert(self.is_path(q)) by {
                    assert forall|m: int| 0 <= m < q.len() - 1 implies #[trigger] self.has_arc(q[m], q[m + 1]) by {
                        assert(self.has_arc(p[m], p[m + 1]));
                    }
                }
                assert(self.reaches(j, q.last()));
            }
        }
        if j == i {
            assert(self.is_path(seq![i]));
        }
        if exists|s: int| #[trigger] self.has_arc(s, i) && self.reaches(j, s) {
            let s = choose|s: int| #[trigger] self.has_arc(s, i) && self.reaches(j, s);
            let q = choose|q: Seq<int>| #[trigger] self.is_path(q) && q[0] == j && q.last() == s;
            let p = q.push(i);
            assert forall|k: int| 0 <= k < p.len() - 1 implies #[trigger] self.has_arc(p[k], p[k + 1]) by {
                if k < q.len() - 1 {
                    assert(self.has_arc(q[k], q[k + 1]));
                }
            }
            assert(self.is_path(p));
        }
    }
}

impl<E> BuildPlan<E> {
    /// For each step, the number of steps, itself included, from which a
    /// chain of arcs leads to it.
    pub fn reachable_counts(&self) -> (r: Vec<usize>)
        requires
            self.wf(),
            self.is_acyclic(),
            self.arcs_within_steps(),
        ensures
            r@.len() == self.steps_view().len(),
            forall|i: int| 0 <= i < r@.len() ==> #[trigger] r@[i] == self.reach_count(i),
    {
        let order = self.sorted();
        let n = self.steps.len();
        let span = self.outgoing.len();
        let mut masks: Vec<Bits> = Vec::new();
        for i in 0..span
            invariant
                masks@.len() == i,
        {
            masks.push(zeros(0));
        }
        proof {
            assert forall|k: int| 0 <= k < order@.len() implies (#[trigger] order@[k]).0 < n by {
                if order@[k].0 >= n {
                    let j = choose|j: int|
                        k < j < order@.len() && #[trigger] self.has_arc(order@[j].0 as int, order@[k].0 as int);
                }
            }
        }
        let mut k = order.len();
        while k > 0
            invariant
                self.wf(),
                self.arcs_within_steps(),
                n == self.steps_view().len(),
                n <= span,
                span == self.span(),
                masks@.len() == span,
                k <= order@.len(),
                distinct(order@),
                self.arcs_point_back(order@),
                forall|x: Index| x.0 < n ==> #[trigger] order@.contains(x),
                forall|q: int| 0 <= q < order@.len() ==> (#[trigger] order@[q]).0 < n,
                forall|q: int| k <= q < order@.len() ==> #[trigger] bits_of(masks@[order@[q].0 as int]) == self.reach_mask(order@[q].0 as int),
            decreases k,
        {
            k = k - 1;
            let x = order[k];
            let ghost xi = x.0 as int;
            let mut bv = zeros(n);
            set_bit(&mut bv, x.0, true);
            proof {
                self.lemma_inn(xi);
                assert(self.inn(xi) == self.incoming@[xi]@);
            }
            let n_sources = self.incoming[x.0].len();
            let mut m: usize = 0;
            while m < n_sources
                invariant
                    self.wf(),
                    self.arcs_within_steps(),
                    n == self.steps_view().len(),
                    span == self.span(),
                    masks@.len() == span,
                    xi == x.0,
                    0 <= xi < n,
                    k < order@.len(),
                    order@[k as int] == x,
                    distinct(order@),
                    self.arcs_point_back(order@),
                    forall|y: Index| y.0 < n ==> #[trigger] order@.contains(y),
                    forall|q: int| k < q < order@.len() ==> #[trigger] bits_of(masks@[order@[q].0 as int]) == self.reach_mask(order@[q].0 as int),
                    n_sources == self.inn(xi).len(),
                    self.inn(xi) == self.incoming@[xi]@,
                    forall|y: Index| #[trigger] self.inn(xi).contains(y) <==> self.has_arc(y.0 as int, xi),
                    m <= n_sources,
                    bits_of(bv).len() == n,
                    forall|j: int|
                        0 <= j < n ==> (#[trigger] bits_of(bv)[j] <==> (j == xi || exists|m2: int|
                            0 <= m2 < m && self.reaches(j, self.inn(xi)[m2].0 as int))),
                decreases n_sources - m,
            {
                let src = self.incoming[x.0][m];
                let ghost si = src.0 as int;
                proof {
                    assert(self.inn(xi).contains(src));
                    assert(self.has_arc(si, xi));
                    assert(order@.contains(src));
                    let q = choose|q: int| 0 <= q < order@.len() && order@[q] == src;
                    assert(self.has_arc(order@[q].0 as int, xi));
                    let jj = choose|jj: int| 0 <= jj < q && order@[jj].0 == xi;
                    assert(order@[jj] == x);
                    assert(jj == k);
                    assert(bits_of(masks@[order@[q].0 as int]) == self.reach_mask(si));
                }
                let ghost old_bv = bits_of(bv);
                or_bits(&mut bv, &masks[src.0]);
                proof {
                    assert forall|j: int|
                        0 <= j < n implies (#[trigger] bits_of(bv)[j] <==> (j == xi || exists|m2: int|
                            0 <= m2 < m + 1 && self.reaches(j, self.inn(xi)[m2].0 as int))) by {
                        if exists|m2: int| 0 <= m2 < m + 1 && self.reaches(j, self.inn(xi)[m2].0 as int) {
                            let m2 = choose|m2: int| 0 <= m2 < m + 1 && self.reaches(j, self.inn(xi)[m2].0 as int);
                            if m2 < m {
                                assert(old_bv[j]);
                            }
                        }
                        if self.reaches(j, si) {
                            assert(self.inn(xi)[m as int] == src);
                        }
                    }
                }
                m = m + 1;
            }
            proof {
                assert forall|j: int| 0 <= j < n implies #[trigger] bits_of(bv)[j] == self.reach_mask(xi)[j] by {
                    self.lemma_reaches_step(j, xi);
                    if exists|s: int| #[trigger] self.has_arc(s, xi) && self.reaches(j, s) {
                        let s = choose|s: int| #[trigger] self.has_arc(s, xi) && self.reaches(j, s);
                        assert(s < n);
                        assert(self.inn(xi).contains(Index(s as usize)));
                        let m2 = choose|m2: int| 0 <= m2 < self.inn(xi).len() && self.inn(xi)[m2] == Index(s as usize);
                        assert(self.reaches(j, self.inn(xi)[m2].0 as int));
                    }
                    if exists|m2: int| 0 <= m2 < n_sources && self.reaches(j, self.inn(xi)[m2].0 as int) {
                        let m2 = choose|m2: int| 0 <= m2 < n_sources && self.reaches(j, self.inn(xi)[m2].0 as int);
                        assert(self.inn(xi).contains(self.inn(xi)[m2]));
                        assert(self.has_arc(self.inn(xi)[m2].0 as int, xi));
                    }
                }
                assert(bits_of(bv) =~= self.reach_mask(xi));
            }
            masks.set(x.0, bv);
            proof {
                assert forall|q: int| k <= q < order@.len() implies #[trigger] bits_of(masks@[order@[q].0 as int]) == self.reach_mask(order@[q].0 as int) by {
                    if q > k {
                        assert(order@[q] != order@[k as int]);
                    }
                }
            }
        }
        let mut counts: Vec<usize> = Vec::new();
        for i in 0..n
            invariant
                n == self.steps_view().len(),
                masks@.len() == span,
                n <= span,
                forall|x: Index| x.0 < n ==> #[trigger] order@.contains(x),
                forall|q: int| 0 <= q < order@.len() ==> #[trigger] bits_of(masks@[order@[q].0 as int]) == self.reach_mask(order@[q].0 as int),
                counts@.len() == i,
                forall|j: int| 0 <= j < i ==> #[trigger] counts@[j] == self.reach_count(j),
        {
            proof {
                assert(order@.contains(Index(i)));
                let q = choose|q: int| 0 <= q < order@.len() && order@[q] == Index(i);
                assert(bits_of(masks@[order@[q].0 as int]) == self.reach_mask(i as int));
                assert(bits_of(masks@[i as int]) == self.reach_mask(i as int));
            }
            let c = count_bits(&masks[i]);
            counts.push(c);
        }
        counts
    }
}

/// Picks the position that a build sequence closes next.
pub trait TraversalSelector {
    /// `r` is a position that the selector, as it stands, may pick among
    /// `open`. A selector that says nothing more of itself may pick any.
    open spec fn picks(&self, open: Seq<Index>, r: Index) -> bool {
        true
    }

    /// One of the open positions, one that the selector may pick.
    fn select_traversal(&mut self, open: &[Index]) -> (r: Index)
        requires
            open@.len() > 0,
        ensures
            open@.contains(r),
            old(self).picks(open@, r),
    ;
}

/// Each position `xs[k]` was picked by the selector, as it stood before
/// the pick (`states[k]`, the first being `first`), among the open
/// positions `offered[k]`, which are those of `opens[k]`.
pub open spec fn chosen_by<T: TraversalSelector>(
    xs: Seq<int>,
    opens: Seq<Set<int>>,
    offered: Seq<Seq<Index>>,
    picked: Seq<Index>,
    states: Seq<T>,
    first: T,
) -> bool {
    &&& offered.len() == xs.len()
    &&& picked.len() == xs.len()
    &&& states.len() == xs.len()
    &&& xs.len() > 0 ==> states[0] == first
    &&& forall|k: int|
        0 <= k < xs.len() ==> positions(#[trigger] offered[k]) == opens[k] && picked[k].0 == xs[k]
            && states[k].picks(offered[k], picked[k])
}

/// The positions that occur in `v`.
pub open spec fn positions(v: Seq<Index>) -> Set<int> {
    Set::new(|i: int| exists|k: int| 0 <= k < v.len() && #[trigger] v[k].0 == i)
}

/// The positions that `c` marks.
pub open spec fn marked(c: Seq<bool>) -> Set<int> {
    Set::new(|i: int| 0 <= i < c.len() && c[i])
}

impl<E> BuildPlan<E> {
    /// The steps that no arc leaves.
    pub open spec fn initially_open(self) -> Set<int> {
        Set::new(|i: int| 0 <= i < self.steps_view().len() && forall|t: int| !#[trigger] self.has_arc(i, t))
    }

    /// The sources of arcs to `x` whose arcs all end in `closed`.
    pub open spec fn freed(self, x: int, closed: Set<int>) -> Set<int> {
        Set::new(|s: int| self.has_arc(s, x) && forall|t: int| #[trigger] self.has_arc(s, t) ==> closed.contains(t))
    }

    /// Closing the open position `x` moves it from `open` to `closed`, and
    /// opens each source of an arc to `x` whose arcs then all end at
    /// closed positions.
    pub open spec fn closes(self, open: Set<int>, closed: Set<int>, x: int, open2: Set<int>, closed2: Set<int>) -> bool {
        &&& open.contains(x)
        &&& closed2 == closed.insert(x)
        &&& open2 == open.remove(x).union(self.freed(x, closed2))
    }

    /// `xs` are the positions closed in turn, from the steps that no arc
    /// leaves; `opens[k]` and `closeds[k]` are the open and closed
    /// positions before the `k`-th is closed, and after the last.
    pub open spec fn is_traversal(self, xs: Seq<int>, opens: Seq<Set<int>>, closeds: Seq<Set<int>>) -> bool {
        &&& opens.len() == xs.len() + 1
        &&& closeds.len() == xs.len() + 1
        &&& opens[0] == self.initially_open()
        &&& closeds[0] == Set::<int>::empty()
        &&& forall|k: int| 0 <= k < xs.len() ==> #[trigger] self.closes(opens[k], closeds[k], xs[k], opens[k + 1], closeds[k + 1])
    }

    /// What holds at each state of a traversal.
    pub proof fn lemma_traversal_state(self, xs: Seq<int>, opens: Seq<Set<int>>, closeds: Seq<Set<int>>, k: int)
        requires
            self.is_traversal(xs, opens, closeds),
            0 <= k <= xs.len(),
        ensures
            forall|i: int| #[trigger] closeds[k].contains(i) <==> exists|j: int| 0 <= j < k && xs[j] == i,
            forall|i: int| opens[k].contains(i) ==> !closeds[k].contains(i),
            forall|y: int, t: int|
                (opens[k].contains(y) || closeds[k].contains(y)) && #[trigger] self.has_arc(y, t) ==> closeds[k].contains(t),
            forall|y: int|
                0 <= y < self.steps_view().len() && !opens[k].contains(y) && !closeds[k].contains(y) ==> exists|t: int|
                    #[trigger] self.has_arc(y, t) && !closeds[k].contains(t),
            forall|a: int, b: int| 0 <= a < b < k ==> xs[a] != xs[b],
        decreases k,
    {
        if k > 0 {
            self.lemma_traversal_state(xs, opens, closeds, k - 1);
            let j = k - 1;
            assert(self.closes(opens[j], closeds[j], xs[j], opens[j + 1], closeds[j + 1]));
            let x = xs[j];
            assert forall|i: int| #[trigger] closeds[k].contains(i) <==> exists|m: int| 0 <= m < k && xs[m] == i by {
                if closeds[k].contains(i) && i != x {
                    assert(closeds[j].contains(i));
                }
            }
            assert forall|i: int| opens[k].contains(i) implies !closeds[k].contains(i) by {
                if i != x && opens[j].contains(i) {
                } else if i != x {
                    assert(self.freed(x, closeds[k]).contains(i));
                    assert(self.has_arc(i, x));
                    if closeds[j].contains(i) {
                        assert(closeds[j].contains(x));
                    }
                }
            }
            assert forall|y: int, t: int|
                (opens[k].contains(y) || closeds[k].contains(y)) && #[trigger] self.has_arc(y, t) implies closeds[k].contains(t) by {
                if opens[j].contains(y) || closeds[j].contains(y) {
                } else if y == x {
                } else {
                    assert(self.freed(x, closeds[k]).contains(y));
                }
            }
            assert forall|y: int|
                0 <= y < self.steps_view().len() && !opens[k].contains(y) && !closeds[k].contains(y) implies exists|t: int|
                    #[trigger] self.has_arc(y, t) && !closeds[k].contains(t) by {
                if self.has_arc(y, x) {
                    assert(!self.freed(x, closeds[k]).contains(y));
                } else {
                    assert(!opens[j].contains(y));
                    let t = choose|t: int| #[trigger] self.has_arc(y, t) && !closeds[j].contains(t);
                    assert(t != x);
                }
            }
            assert forall|a: int, b: int| 0 <= a < b < k implies xs[a] != xs[b] by {
                if b == j {
                    assert(closeds[j].contains(xs[a]));
                }
            }
        }
    }

    /// A traversal closes no position twice, and closes each position only
    /// after the targets of its arcs.
    pub proof fn law_traversal_order(self, xs: Seq<int>, opens: Seq<Set<int>>, closeds: Seq<Set<int>>)
        requires
            self.is_traversal(xs, opens, closeds),
        ensures
            forall|a: int, b: int| 0 <= a < b < xs.len() ==> xs[a] != xs[b],
            forall|k: int, t: int| 0 <= k < xs.len() && #[trigger] self.has_arc(xs[k], t) ==> exists|j: int| 0 <= j < k && xs[j] == t,
    {
        self.lemma_traversal_state(xs, opens, closeds, xs.len() as int);
        assert forall|k: int, t: int| 0 <= k < xs.len() && #[trigger] self.has_arc(xs[k], t) implies exists|j: int|
            0 <= j < k && xs[j] == t by {
            self.lemma_traversal_state(xs, opens, closeds, k);
            assert(self.closes(opens[k], closeds[k], xs[k], opens[k + 1], closeds[k + 1]));
            assert(closeds[k].contains(t));
        }
    }

    /// A traversal of a plan without cycles whose arcs join steps, that ends
    /// with nothing open, has closed every step.
    pub proof fn law_traversal_complete(self, xs: Seq<int>, opens: Seq<Set<int>>, closeds: Seq<Set<int>>)
        requires
            self.is_traversal(xs, opens, closeds),
            opens.last() == Set::<int>::empty(),
            self.is_acyclic(),
            self.arcs_within_steps(),
        ensures
            forall|i: int| 0 <= i < self.steps_view().len() ==> #[trigger] xs.contains(i),
    {
        let k = xs.len() as int;
        self.lemma_traversal_state(xs, opens, closeds, k);
        let rank = choose|rank: spec_fn(int) -> nat| self.ranked_by(rank);
        assert forall|i: int| 0 <= i < self.steps_view().len() implies #[trigger] xs.contains(i) by {
            self.lemma_all_closed(closeds[k], rank, i);
            let j = choose|j: int| 0 <= j < k && xs[j] == i;
        }
    }

    /// Where every step left open has an arc to a position left open, no
    /// step is left open.
    proof fn lemma_all_closed(self, closed: Set<int>, rank: spec_fn(int) -> nat, y: int)
        requires
            self.ranked_by(rank),
            self.arcs_within_steps(),
            0 <= y < self.steps_view().len(),
            forall|z: int|
                0 <= z < self.steps_view().len() && !closed.contains(z) ==> exists|t: int|
                    #[trigger] self.has_arc(z, t) && !closed.contains(t),
        ensures
            closed.contains(y),
        decreases rank(y),
    {
        if !closed.contains(y) {
            let t = choose|t: int| #[trigger] self.has_arc(y, t) && !closed.contains(t);
            self.lemma_all_closed(closed, rank, t);
        }
    }

    /// Whether every arc from `s` ends at a position that `closed` marks.
    fn all_closed(&self, s: Index, closed: &Vec<bool>) -> (r: bool)
        requires
            self.wf(),
            closed@.len() == self.span(),
        ensures
            r <==> forall|t: int| #[trigger] self.has_arc(s.0 as int, t) ==> marked(closed@).contains(t),
    {
        proof {
            self.lemma_out(s.0 as int);
        }
        if s.0 >= self.outgoing.len() {
            proof {
                assert forall|t: int| #[trigger] self.has_arc(s.0 as int, t) implies marked(closed@).contains(t) by {
                    assert(self.out(s.0 as int).len() > 0);
                }
            }
            return true;
        }
        let ghost si = s.0 as int;
        proof {
            assert(self.out(si) == self.outgoing@[si]@);
        }
        let n_targets = self.outgoing[s.0].len();
        let mut k: usize = 0;
        while k < n_targets
            invariant
                self.wf(),
                closed@.len() == self.span(),
                si == s.0,
                0 <= si < self.span(),
                self.out(si) == self.outgoing@[si]@,
                n_targets == self.out(si).len(),
                forall|m: int| 0 <= m < self.out(si).len() ==> (#[trigger] self.out(si)[m]).0 < self.span(),
                forall|x: Index| #[trigger] self.out(si).contains(x) <==> self.has_arc(si, x.0 as int),
                k <= n_targets,
                forall|m: int| 0 <= m < k ==> marked(closed@).contains((#[trigger] self.out(si)[m]).0 as int),
            decreases n_targets - k,
        {
            let t = self.outgoing[s.0][k];
            if !closed[t.0] {
                proof {
                    assert(self.out(si).contains(t));
                    assert(self.has_arc(si, t.0 as int));
                }
                return false;
            }
            k = k + 1;
        }
        proof {
            assert forall|t: int| #[trigger] self.has_arc(si, t) implies marked(closed@).contains(t) by {
                assert(self.out(si).contains(Index(t as usize)));
                let m = choose|m: int| 0 <= m < self.out(si).len() && self.out(si)[m] == Index(t as usize);
                assert(marked(closed@).contains((self.out(si)[m]).0 as int));
            }
        }
        true
    }
}

/// The entries of `v` other than `x`, in order.
pub(crate) fn without(v: &Vec<Index>, x: Index) -> (r: Vec<Index>)
    ensures
        positions(r@) == positions(v@).remove(x.0 as int),
        forall|k: int| 0 <= k < r@.len() ==> v@.contains(#[trigger] r@[k]),
{
    let mut r: Vec<Index> = Vec::new();
    for k in 0..v.len()
        invariant
            forall|i: int|
                #[trigger] positions(r@).contains(i) <==> (exists|q: int| 0 <= q < k && v@[q].0 == i) && i != x.0,
            forall|m: int| 0 <= m < r@.len() ==> v@.contains(#[trigger] r@[m]),
    {
        let ghost before = r@;
        if v[k].0 != x.0 {
            r.push(v[k]);
        }
        proof {
            assert forall|i: int|
                #[trigger] positions(r@).contains(i) <==> (exists|q: int| 0 <= q < k + 1 && v@[q].0 == i) && i != x.0 by {
                if positions(r@).contains(i) {
                    let m = choose|m: int| 0 <= m < r@.len() && #[trigger] r@[m].0 == i;
                    if m < before.len() {
                        assert(before[m] == r@[m]);
                        assert(positions(before).contains(i));
                    }
                }
                if (exists|q: int| 0 <= q < k + 1 && v@[q].0 == i) && i != x.0 {
                    let q = choose|q: int| 0 <= q < k + 1 && v@[q].0 == i;
                    if q < k {
                        assert(positions(before).contains(i));
                        let m = choose|m: int| 0 <= m < before.len() && #[trigger] before[m].0 == i;
                        assert(r@[m] == before[m]);
                    } else {
                        assert(r@[r@.len() - 1] == v@[q]);
                    }
                }
                if positions(before).contains(i) {
                    let m = choose|m: int| 0 <= m < before.len() && #[trigger] before[m].0 == i;
                    assert(r@[m] == before[m]);
                }
            }
            assert forall|m: int| 0 <= m < r@.len() implies v@.contains(#[trigger] r@[m]) by {
                if m < before.len() {
                    assert(r@[m] == before[m]);
                } else {
                    assert(r@[m] == v@[k as int]);
                }
            }
        }
    }
    proof {
        assert(positions(r@) =~= positions(v@).remove(x.0 as int));
    }
    r
}

impl<E: Clone> BuildPlan<E> {
    /// `r` holds clones of the steps at the positions `xs`, in turn, up to
    /// the end of the traversal whose open positions are `opens`: where
    /// nothing is left open, or before a closed position that is no step.
    /// Without cycles, and with every arc joining two steps, every step is
    /// closed.
    pub open spec fn emitted(self, r: Seq<Op<E>>, xs: Seq<int>, opens: Seq<Set<int>>) -> bool {
        &&& if r.len() == xs.len() {
            opens.last() == Set::<int>::empty()
        } else {
            r.len() + 1 == xs.len() && xs.last() >= self.steps_view().len()
        }
        &&& forall|k: int| 0 <= k < r.len() ==> 0 <= #[trigger] xs[k] < self.steps_view().len()
        &&& forall|k: int| 0 <= k < r.len() ==> op_cloned(self.steps_view()[xs[k]], #[trigger] r[k])
        &&& (self.is_acyclic() && self.arcs_within_steps()) ==> r.len() == xs.len() && forall|i: int|
            0 <= i < self.steps_view().len() ==> #[trigger] xs.contains(i)
    }

    /// The steps in the order in which a traversal closes their positions,
    /// `traversal_selector` picking each among the open ones. The sequence
    /// ends where nothing is left open, or before a closed position that is
    /// no step.
    pub fn build_sequence<T: TraversalSelector>(&self, traversal_selector: &mut T) -> (r: Vec<Op<E>>)
        requires
            self.wf(),
        ensures
            exists|xs: Seq<int>, opens: Seq<Set<int>>, closeds: Seq<Set<int>>|
                #[trigger] self.is_traversal(xs, opens, closeds) && self.emitted(r@, xs, opens),
            exists|xs: Seq<int>, opens: Seq<Set<int>>, closeds: Seq<Set<int>>, offered: Seq<Seq<Index>>, picked: Seq<Index>, states: Seq<T>|
                #[trigger] self.is_traversal(xs, opens, closeds) && self.emitted(r@, xs, opens) && #[trigger] chosen_by(
                    xs,
                    opens,
                    offered,
                    picked,
                    states,
                    *old(traversal_selector),
                ),
    {
        let ghost sel0 = *traversal_selector;
        let span = self.outgoing.len();
        let n = self.steps.len();
        let mut open: Vec<Index> = Vec::new();
        for i in 0..n
            invariant
                self.wf(),
                n == self.steps_view().len(),
                n <= span,
                span == self.span(),
                forall|j: int| #[trigger] positions(open@).contains(j) <==> 0 <= j < i && self.initially_open().contains(j),
                forall|k: int| 0 <= k < open@.len() ==> (#[trigger] open@[k]).0 < n,
        {
            let ghost before = open@;
            proof {
                self.lemma_out(i as int);
                assert(self.out(i as int) == self.outgoing@[i as int]@);
            }
            if self.outgoing[i].len() == 0 {
                open.push(Index(i));
            }
            proof {
                assert forall|j: int| #[trigger] positions(open@).contains(j) <==> 0 <= j < i + 1
                    && self.initially_open().contains(j) by {
                    if positions(open@).contains(j) {
                        let m = choose|m: int| 0 <= m < open@.len() && #[trigger] open@[m].0 == j;
                        if m < before.len() {
                            assert(open@[m] == before[m]);
                            assert(positions(before).contains(j));
                        }
                    }
                    if 0 <= j < i && self.initially_open().contains(j) {
                        assert(positions(before).contains(j));
                        let m = choose|m: int| 0 <= m < before.len() && #[trigger] before[m].0 == j;
                        assert(open@[m] == before[m]);
                    }
                    if j == i && self.initially_open().contains(j) {
                        if self.out(j).len() > 0 {
                            assert(self.out(j).contains(self.out(j)[0]));
                            assert(self.has_arc(j, self.out(j)[0].0 as int));
                        }
                        assert(open@[open@.len() - 1].0 == j);
                    }
                    if j == i && self.out(j).len() == 0 {
                        assert forall|t: int| !#[trigger] self.has_arc(j, t) by {
                            if self.has_arc(j, t) {
                                assert(self.out(j).contains(Index(t as usize)));
                            }
                        }
                    }
                }
                assert forall|k: int| 0 <= k < open@.len() implies (#[trigger] open@[k]).0 < n by {
                    if k < before.len() {
                        assert(open@[k] == before[k]);
                    }
                }
            }
        }
        let mut closed: Vec<bool> = Vec::new();
        for i in 0..span
            invariant
                closed@.len() == i,
                forall|j: int| 0 <= j < i ==> !(#[trigger] closed@[j]),
        {
            closed.push(false);
        }
        let mut out: Vec<Op<E>> = Vec::new();
        let mut stopped = false;
        let ghost mut xs: Seq<int> = Seq::empty();
        let ghost mut opens: Seq<Set<int>> = seq![self.initially_open()];
        let ghost mut closeds: Seq<Set<int>> = seq![Set::<int>::empty()];
        let ghost mut offered: Seq<Seq<Index>> = Seq::empty();
        let ghost mut picked: Seq<Index> = Seq::empty();
        let ghost mut states: Seq<T> = Seq::empty();
        proof {
            assert(positions(open@) =~= self.initially_open());
            assert(marked(closed@) =~= Set::<int>::empty());
            lemma_count_true_bound(closed@);
        }
        while open.len() > 0 && !stopped
            invariant
                self.wf(),
                n == self.steps_view().len(),
                n <= span,
                span == self.span(),
                closed@.len() == span,
                count_true(closed@) <= span,
                self.is_traversal(xs, opens, closeds),
                positions(open@) == opens.last(),
                marked(closed@) == closeds.last(),
                forall|k: int| 0 <= k < open@.len() ==> (#[trigger] open@[k]).0 < span,
                self.arcs_within_steps() ==> forall|k: int| 0 <= k < open@.len() ==> (#[trigger] open@[k]).0 < n,
                self.arcs_within_steps() ==> !stopped,
                !stopped ==> out@.len() == xs.len(),
                stopped ==> out@.len() + 1 == xs.len() && xs.last() >= n,
                forall|k: int| 0 <= k < out@.len() ==> 0 <= #[trigger] xs[k] < n,
                forall|k: int| 0 <= k < out@.len() ==> op_cloned(self.steps_view()[xs[k]], #[trigger] out@[k]),
                chosen_by(xs, opens, offered, picked, states, sel0),
                xs.len() == 0 ==> *traversal_selector == sel0,
            decreases span - count_true(closed@),
        {
            let ghost st = *traversal_selector;
            let ghost off = open@;
            let x = traversal_selector.select_traversal(open.as_slice());
            let ghost xs0 = xs;
            let ghost out0 = out@;
            let ghost xi = x.0 as int;
            let ghost last = xs.len() as int;
            proof {
                let q = choose|q: int| 0 <= q < open@.len() && open@[q] == x;
                assert(open@[q].0 == xi);
                assert(positions(open@).contains(xi));
                self.lemma_traversal_state(xs, opens, closeds, last);
                assert(!closeds[last].contains(xi));
                assert(!closed@[xi]);
                lemma_count_true_set(closed@, xi);
                lemma_count_true_bound(closed@.update(xi, true));
            }
            let mut kept = without(&open, x);
            closed.set(x.0, true);
            let ghost closed2 = marked(closed@);
            proof {
                assert(closed2 =~= closeds.last().insert(xi));
                self.lemma_inn(xi);
                assert(self.inn(xi) == self.incoming@[xi]@);
            }
            let ghost base = positions(kept@);
            let n_sources = self.incoming[x.0].len();
            let mut m: usize = 0;
            while m < n_sources
                invariant
                    self.wf(),
                    n == self.steps_view().len(),
                    span == self.span(),
                    closed@.len() == span,
                    closed2 == marked(closed@),
                    0 <= xi < span,
                    xi == x.0,
                    n_sources == self.inn(xi).len(),
                    self.inn(xi) == self.incoming@[xi]@,
                    forall|y: Index| #[trigger] self.inn(xi).contains(y) <==> self.has_arc(y.0 as int, xi),
                    forall|k: int| 0 <= k < self.inn(xi).len() ==> (#[trigger] self.inn(xi)[k]).0 < span,
                    m <= n_sources,
                    forall|i: int|
                        #[trigger] positions(kept@).contains(i) <==> base.contains(i) || exists|q: int|
                            0 <= q < m && self.inn(xi)[q].0 == i && self.freed(xi, closed2).contains(i),
                    forall|k: int| 0 <= k < kept@.len() ==> (#[trigger] kept@[k]).0 < span,
                    self.arcs_within_steps() ==> forall|k: int| 0 <= k < kept@.len() ==> (#[trigger] kept@[k]).0 < n,
                decreases n_sources - m,
            {
                let src = self.incoming[x.0][m];
                let ghost before = kept@;
                let ok = self.all_closed(src, &closed);
                proof {
                    assert(self.inn(xi).contains(src));
                    assert(self.has_arc(src.0 as int, xi));
                }
                if ok {
                    kept.push(src);
                }
                proof {
                    let si = src.0 as int;
                    assert(ok <==> self.freed(xi, closed2).contains(si));
                    assert forall|i: int|
                        #[trigger] positions(kept@).contains(i) <==> base.contains(i) || exists|q: int|
                            0 <= q < m + 1 && self.inn(xi)[q].0 == i && self.freed(xi, closed2).contains(i) by {
                        if positions(kept@).contains(i) {
                            let k = choose|k: int| 0 <= k < kept@.len() && #[trigger] kept@[k].0 == i;
                            if k < before.len() {
                                assert(before[k] == kept@[k]);
                                assert(positions(before).contains(i));
                            } else {
                                assert(self.inn(xi)[m as int].0 == i);
                            }
                        }
                        if positions(before).contains(i) {
                            let k = choose|k: int| 0 <= k < before.len() && #[trigger] before[k].0 == i;
                            assert(kept@[k] == before[k]);
                        }
                        if exists|q: int| 0 <= q < m + 1 && self.inn(xi)[q].0 == i && self.freed(xi, closed2).contains(i) {
                            let q = choose|q: int| 0 <= q < m + 1 && self.inn(xi)[q].0 == i && self.freed(xi, closed2).contains(i);
                            if q == m {
                                assert(kept@[kept@.len() - 1].0 == i);
                            }
                        }
                    }
                    assert forall|k: int| 0 <= k < kept@.len() implies (#[trigger] kept@[k]).0 < span by {
                        if k < before.len() {
                            assert(kept@[k] == before[k]);
                        }
                    }
                    if self.arcs_within_steps() {
                        assert forall|k: int| 0 <= k < kept@.len() implies (#[trigger] kept@[k]).0 < n by {
                            if k < before.len() {
                                assert(kept@[k] == before[k]);
                            } else {
                                assert(self.has_arc(si, xi));
                            }
                        }
                    }
                }
                m = m + 1;
            }
            proof {
                let opened = opens.last().remove(xi).union(self.freed(xi, closed2));
                assert forall|i: int| #[trigger] positions(kept@).contains(i) <==> opened.contains(i) by {
                    if self.freed(xi, closed2).contains(i) {
                        assert(self.has_arc(i, xi));
                        assert(self.inn(xi).contains(Index(i as usize)));
                        let q = choose|q: int| 0 <= q < self.inn(xi).len() && self.inn(xi)[q] == Index(i as usize);
                        assert(self.inn(xi)[q].0 == i);
                    }
                }
                assert(positions(kept@) =~= opened);
                assert(self.closes(opens.last(), closeds.last(), xi, opened, closed2));
                let xs2 = xs.push(xi);
                let opens2 = opens.push(opened);
                let closeds2 = closeds.push(closed2);
                let offered2 = offered.push(off);
                let picked2 = picked.push(x);
                let states2 = states.push(st);
                assert forall|k: int| 0 <= k < xs2.len() implies positions(#[trigger] offered2[k]) == opens2[k]
                    && picked2[k].0 == xs2[k] && states2[k].picks(offered2[k], picked2[k]) by {
                    if k < xs.len() {
                        assert(offered2[k] == offered[k]);
                    }
                }
                offered = offered2;
                picked = picked2;
                states = states2;
                assert forall|k: int| 0 <= k < xs2.len() implies #[trigger] self.closes(opens2[k], closeds2[k], xs2[k], opens2[k + 1], closeds2[k + 1]) by {
                    if k < xs.len() {
                        assert(self.closes(opens[k], closeds[k], xs[k], opens[k + 1], closeds[k + 1]));
                    }
                }
                xs = xs2;
                opens = opens2;
                closeds = closeds2;
                if self.arcs_within_steps() {
                    assert(open@.contains(x));
                }
            }
            open = kept;
            proof {
                assert forall|k: int| 0 <= k < xs0.len() implies xs[k] == xs0[k] by {}
                assert(xs[xs0.len() as int] == xi);
            }
            match self.get(&x) {
                Some(op) => {
                    let ghost before = out@;
                    out.push(op);
                    proof {
                        assert forall|k: int| 0 <= k < out@.len() implies 0 <= #[trigger] xs[k] < n by {
                            if k < before.len() {
                                assert(xs[k] == xs0[k]);
                            } else {
                                assert(k == xs0.len());
                            }
                        }
                        assert forall|k: int|
                            0 <= k < out@.len() implies op_cloned(self.steps_view()[xs[k]], #[trigger] out@[k]) by {
                            if k < before.len() {
                                assert(out@[k] == before[k]);
                                assert(xs[k] == xs0[k]);
                            } else {
                                assert(k == xs0.len());
                            }
                        }
                    }
                },
                None => {
                    stopped = true;
                    proof {
                        assert(out@ == out0);
                        assert forall|k: int| 0 <= k < out@.len() implies 0 <= #[trigger] xs[k] < n by {
                            assert(xs[k] == xs0[k]);
                        }
                        assert forall|k: int|
                            0 <= k < out@.len() implies op_cloned(self.steps_view()[xs[k]], #[trigger] out@[k]) by {
                            assert(xs[k] == xs0[k]);
                        }
                    }
                },
            }

        }
        proof {
            if !stopped {
                assert(positions(open@) =~= Set::<int>::empty());
            }
            if self.is_acyclic() && self.arcs_within_steps() {
                self.law_traversal_complete(xs, opens, closeds);
            }
            assert(self.is_traversal(xs, opens, closeds));
            assert(self.emitted(out@, xs, opens));
            assert(chosen_by(xs, opens, offered, picked, states, sel0));
            assert(if out@.len() == xs.len() {
                opens.last() == Set::<int>::empty()
            } else {
                out@.len() + 1 == xs.len() && xs.last() >= self.steps_view().len()
            });
            assert((self.is_acyclic() && self.arcs_within_steps()) ==> out@.len() == xs.len() && forall|i: int|
                0 <= i < self.steps_view().len() ==> #[trigger] xs.contains(i));
        }
        out
    }
}

impl<E> Default for BuildPlan<E> {
    /// A plan with no steps and no arcs.
    fn default() -> (r: Self)
        ensures
            r.wf(),
            r.steps_view().len() == 0,
            forall|s: int, t: int| !r.has_arc(s, t),
    {
        BuildPlan::new()
    }
}

/// The position of `x` in `order`, where it occurs.
pub open spec fn index_in(order: Seq<int>, x: int) -> nat {
    (choose|k: int| 0 <= k < order.len() && order[k] == x) as nat
}

impl<E> BuildPlan<E> {
    /// Where every position of the span was closed, each after the targets
    /// of its arcs, the order of closing ranks the arcs.
    proof fn lemma_closed_ranked(self, order: Seq<int>, c: Seq<bool>)
        requires
            self.wf(),
            c.len() == self.span(),
            forall|q: int| 0 <= q < c.len() ==> #[trigger] c[q],
            forall|x: int| #[trigger] marked(c).contains(x) <==> order.contains(x),
            forall|a: int, b: int| 0 <= a < b < order.len() ==> order[a] != order[b],
            forall|k: int, t: int|
                0 <= k < order.len() && #[trigger] self.has_arc(order[k], t) ==> exists|j: int|
                    0 <= j < k && order[j] == t,
        ensures
            self.is_acyclic(),
    {
        let rank = |x: int| index_in(order, x);
        assert forall|s: int, t: int| #[trigger] self.has_arc(s, t) implies rank(t) < rank(s) by {
            self.lemma_out(s);
            if !(0 <= s < self.span()) {
                assert(self.out(s).contains(Index(t as usize)));
            }
            assert(c[s]);
            assert(marked(c).contains(s));
            let k = choose|k: int| 0 <= k < order.len() && order[k] == s;
            let j = choose|j: int| 0 <= j < k && order[j] == t;
            assert(order.contains(t));
            assert(index_in(order, s) == k);
            assert(index_in(order, t) == j);
        }
        assert(self.ranked_by(rank));
    }

    /// Where every open position of the span has an arc to another open
    /// position, no ranking of the arcs can exist: each position is closed.
    proof fn lemma_stuck(self, closed: Set<int>, rank: spec_fn(int) -> nat, y: int)
        requires
            self.ranked_by(rank),
            0 <= y < self.span(),
            forall|z: int|
                0 <= z < self.span() && !closed.contains(z) ==> exists|t: int|
                    #[trigger] self.has_arc(z, t) && !closed.contains(t),
        ensures
            closed.contains(y),
        decreases rank(y),
    {
        if !closed.contains(y) {
            let t = choose|t: int| #[trigger] self.has_arc(y, t) && !closed.contains(t);
            self.lemma_stuck(closed, rank, t);
        }
    }

    /// Whether no chain of arcs leads back to where it started: positions
    /// are closed, round after round, once every arc from them ends at a
    /// closed position; the plan has no cycle exactly where all of them
    /// end up closed.
    #[verifier::spinoff_prover]
    #[verifier::rlimit(100)]
    pub fn acyclic(&self) -> (r: bool)
        requires
            self.wf(),
        ensures
            r == self.is_acyclic(),
    {
        let span = self.outgoing.len();
        let mut closed: Vec<bool> = Vec::new();
        for i in 0..span
            invariant
                closed@.len() == i,
                forall|j: int| 0 <= j < i ==> !(#[trigger] closed@[j]),
        {
            closed.push(false);
        }
        let ghost mut order: Seq<int> = Seq::empty();
        proof {
            assert(marked(closed@) =~= Set::<int>::empty());
            lemma_count_true_bound(closed@);
        }
        let mut changed = true;
        while changed
            invariant
                self.wf(),
                span == self.span(),
                closed@.len() == span,
                count_true(closed@) <= span,
                forall|x: int| #[trigger] marked(closed@).contains(x) <==> order.contains(x),
                forall|k: int| 0 <= k < order.len() ==> 0 <= #[trigger] order[k] < span,
                forall|a: int, b: int| 0 <= a < b < order.len() ==> order[a] != order[b],
                forall|k: int, t: int|
                    0 <= k < order.len() && #[trigger] self.has_arc(order[k], t) ==> exists|j: int|
                        0 <= j < k && order[j] == t,
                !changed ==> forall|z: int|
                    0 <= z < span && !marked(closed@).contains(z) ==> exists|t: int|
                        #[trigger] self.has_arc(z, t) && !marked(closed@).contains(t),
            decreases span - count_true(closed@) + (if changed { 1int } else { 0 }),
        {
            let ghost c0 = count_true(closed@);
            let ghost closed0 = closed@;
            changed = false;
            for p in 0..span
                invariant
                    self.wf(),
                    span == self.span(),
                    closed@.len() == span,
                    count_true(closed@) <= span,
                    forall|x: int| #[trigger] marked(closed@).contains(x) <==> order.contains(x),
                    forall|k: int| 0 <= k < order.len() ==> 0 <= #[trigger] order[k] < span,
                    forall|a: int, b: int| 0 <= a < b < order.len() ==> order[a] != order[b],
                    forall|k: int, t: int|
                        0 <= k < order.len() && #[trigger] self.has_arc(order[k], t) ==> exists|j: int|
                            0 <= j < k && order[j] == t,
                    changed ==> count_true(closed@) > c0,
                    !changed ==> closed@ == closed0 && count_true(closed@) == c0,
                    !changed ==> forall|z: int|
                        0 <= z < p && !marked(closed@).contains(z) ==> exists|t: int|
                            #[trigger] self.has_arc(z, t) && !marked(closed@).contains(t),
            {
                if !closed[p] && self.all_closed(Index(p), &closed) {
                    let ghost before = closed@;
                    let ghost o0 = order;
                    proof {
                        lemma_count_true_set(closed@, p as int);
                        lemma_count_true_bound(closed@.update(p as int, true));
                        assert(!marked(before).contains(p as int));
                        assert(!order.contains(p as int));
                    }
                    closed.set(p, true);
                    proof {
                        order = order.push(p as int);
                        assert forall|x: int| #[trigger] marked(closed@).contains(x) <==> order.contains(x) by {
                            if x != p {
                                assert(marked(closed@).contains(x) == marked(before).contains(x));
                                if o0.contains(x) {
                                    let k = choose|k: int| 0 <= k < o0.len() && o0[k] == x;
                                    assert(order[k] == x);
                                }
                                if order.contains(x) {
                                    let k = choose|k: int| 0 <= k < order.len() && order[k] == x;
                                    assert(o0[k] == x);
                                }
                            } else {
                                assert(order[order.len() - 1] == x);
                            }
                        }
                        assert forall|k: int, t: int|
                            0 <= k < order.len() && #[trigger] self.has_arc(order[k], t) implies exists|j: int|
                                0 <= j < k && order[j] == t by {
                            if k < o0.len() {
                                assert(order[k] == o0[k]);
                                let j = choose|j: int| 0 <= j < k && o0[j] == t;
                                assert(order[j] == t);
                            } else {
                                assert(order[k] == p as int);
                                assert(self.has_arc(Index(p).0 as int, t));
                                assert(marked(before).contains(t));
                                let j = choose|j: int| 0 <= j < o0.len() && o0[j] == t;
                                assert(order[j] == t);
                            }
                        }
                        assert forall|a: int, b: int| 0 <= a < b < order.len() implies order[a] != order[b] by {
                            if b == o0.len() {
                                assert(o0.contains(order[a]));
                            }
                        }
                    }
                    changed = true;
                }
            }
        }
        let mut all = true;
        for p in 0..span
            invariant
                closed@.len() == span,
                all <==> forall|q: int| 0 <= q < p ==> #[trigger] closed@[q],
        {
            if !closed[p] {
                all = false;
            }
        }
        proof {
            if all {
                self.lemma_closed_ranked(order, closed@);
            } else {
                let y = choose|q: int| 0 <= q < span && !closed@[q];
                assert(!marked(closed@).contains(y));
                if self.is_acyclic() {
                    let rank = choose|rank: spec_fn(int) -> nat| self.ranked_by(rank);
                    self.lemma_stuck(marked(closed@), rank, y);
                }
            }
        }
        all
    }

    /// The positions of the steps and of every position their arcs reach,
    /// each after the targets of its arcs, as `sorted` gives them; `None`
    /// where a chain of arcs leads back to where it started.
    pub fn checked_sorted(&self) -> (r: Option<Vec<Index>>)
        requires
            self.wf(),
        ensures
            r is Some <==> self.is_acyclic(),
            r matches Some(v) ==> {
                &&& distinct(v@)
                &&& forall|x: Index| x.0 < self.steps_view().len() ==> #[trigger] v@.contains(x)
                &&& forall|k: int| 0 <= k < v@.len() ==> (#[trigger] v@[k]).0 < self.span()
                &&& self.arcs_point_back(v@)
                &&& self.extras_reached(v@)
            },
    {
        if self.acyclic() {
            Some(self.sorted())
        } else {
            None
        }
    }
}

impl<E> BuildPlan<E> {
    /// Whether every arc joins two steps.
    pub fn arcs_join_steps(&self) -> (r: bool)
        requires
            self.wf(),
        ensures
            r == self.arcs_within_steps(),
    {
        let n = self.steps.len();
        let span = self.outgoing.len();
        let mut s: usize = 0;
        while s < span
            invariant
                self.wf(),
                n == self.steps_view().len(),
                span == self.span(),
                s <= span,
                forall|a: int, t: int|
                    0 <= a < s && #[trigger] self.has_arc(a, t) ==> a < n && t < n,
            decreases span - s,
        {
            proof {
                self.lemma_out(s as int);
                assert(self.out(s as int) == self.outgoing@[s as int]@);
            }
            let m = self.outgoing[s].len();
            if m > 0 && s >= n {
                proof {
                    assert(self.has_arc(s as int, self.out(s as int)[0].0 as int));
                }
                return false;
            }
            let mut k: usize = 0;
            while k < m
                invariant
                    self.wf(),
                    n == self.steps_view().len(),
                    span == self.span(),
                    s < span,
                    m == self.out(s as int).len(),
                    self.out(s as int) == self.outgoing@[s as int]@,
                    k <= m,
                    m > 0 ==> s < n,
                    forall|j: int| 0 <= j < k ==> (#[trigger] self.out(s as int)[j]).0 < n,
                decreases m - k,
            {
                if self.outgoing[s][k].0 >= n {
                    proof {
                        self.lemma_out(s as int);
                        assert(self.out(s as int).contains(self.out(s as int)[k as int]));
                    }
                    return false;
                }
                k = k + 1;
            }
            proof {
                self.lemma_out(s as int);
                assert forall|a: int, t: int| 0 <= a < s + 1 && #[trigger] self.has_arc(a, t) implies a < n && t < n by {
                    if a == s {
                        let j = choose|j: int| 0 <= j < self.out(a).len() && self.out(a)[j] == Index(t as usize);
                        assert(self.out(a)[j].0 < n);
                    }
                }
            }
            s = s + 1;
        }
        proof {
            assert forall|a: int, t: int| #[trigger] self.has_arc(a, t) implies a < n && t < n by {
                self.lemma_out(a);
                assert(self.out(a).contains(Index(t as usize)));
            }
        }
        true
    }

    /// The number of steps from which a chain of arcs leads to each step,
    /// as `reachable_counts` gives them; `None` where a chain of arcs leads
    /// back to where it started, or an arc leaves the steps.
    pub fn checked_reachable_counts(&self) -> (r: Option<Vec<usize>>)
        requires
            self.wf(),
        ensures
            r is Some <==> self.is_acyclic() && self.arcs_within_steps(),
            r matches Some(v) ==> v@.len() == self.steps_view().len() && forall|i: int|
                0 <= i < v@.len() ==> #[trigger] v@[i] == self.reach_count(i),
    {
        if self.acyclic() && self.arcs_join_steps() {
            Some(self.reachable_counts())
        } else {
            None
        }
    }
}

} // verus!
