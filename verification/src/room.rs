use crate::feature::FeaturePlan;
use vstd::multiset::Multiset;
use vstd::prelude::*;

verus! {

/// A room: the door it is entered through, what it holds, and the rooms
/// that its exits lead to.
pub struct Tree<D, C> {
    pub entrance: Option<D>,
    pub contents: Option<C>,
    pub exits: Forest<D, C>,
}

/// The rooms behind the exits of a room, in order.
pub struct Forest<D, C>(pub Vec<Tree<D, C>>);

/// The mathematical value of a room and of all rooms behind it.
#[verifier::ext_equal]
pub struct RoomPlan<D, C> {
    pub entrance: Option<D>,
    pub contents: Option<C>,
    pub exits: Seq<RoomPlan<D, C>>,
}

impl<D, C> Tree<D, C> {
    /// The room as a value.
    pub open spec fn plan(self) -> RoomPlan<D, C>
        decreases self,
    {
        RoomPlan {
            entrance: self.entrance,
            contents: self.contents,
            exits: Seq::new(
                self.exits.0@.len(),
                |i: int|
                    if 0 <= i < self.exits.0@.len() {
                        self.exits.0@[i].plan()
                    } else {
                        RoomPlan { entrance: None, contents: None, exits: Seq::empty() }
                    },
            ),
        }
    }
}

impl<D, C> View for Tree<D, C> {
    type V = RoomPlan<D, C>;

    open spec fn view(&self) -> RoomPlan<D, C> {
        self.plan()
    }
}

impl<D, C> View for Forest<D, C> {
    type V = Seq<RoomPlan<D, C>>;

    open spec fn view(&self) -> Seq<RoomPlan<D, C>> {
        Seq::new(self.0@.len(), |i: int| self.0@[i]@)
    }
}

/// A room that can take features, and that may be a boundary: one whose
/// entrance separates it from the room before it.
pub trait RoomExt: View + Sized {
    type Feature;

    /// The room is a boundary.
    spec fn spec_is_boundary(v: Self::V) -> bool;

    /// The room that `feature` turns `v` into, or `None` where the room
    /// cannot take it.
    spec fn spec_add_feature(v: Self::V, feature: Self::Feature) -> Option<Self::V>;

    /// Gives the room the feature, or hands both back unchanged.
    fn add_feature(self, feature: Self::Feature) -> (r: Result<Self, (Self::Feature, Self)>)
        ensures
            match r {
                Ok(room) => Self::spec_add_feature(self@, feature) == Some(room@),
                Err((f, room)) => Self::spec_add_feature(self@, feature) is None && f == feature
                    && room == self,
            },
    ;

    /// The room is a boundary.
    fn is_boundary(&self) -> (b: bool)
        ensures
            b == Self::spec_is_boundary(self@),
    ;
}

/// Where `acc` is the length of the one chain of rooms so far that ends in
/// boundaries (`Some(0)` for none yet, `None` for more than one), the same
/// after a tree whose such chain has length `app`.
pub open spec fn combine_app(acc: Option<nat>, app: nat) -> Option<nat> {
    if acc == Some(0nat) {
        Some(app)
    } else if app == 0 {
        acc
    } else {
        None
    }
}

/// The weights of a room: the number of rooms (`.0`), the number of rooms
/// on the linear path that leads up to the first boundary (`.1`), and the
/// length of the single linear path through boundaries that follows
/// (`.2`).
pub open spec fn tree_weights<D, C>(p: RoomPlan<D, C>) -> (nat, nat, nat) where
    Tree<D, C>: RoomExt + View<V = RoomPlan<D, C>>,

    decreases p,
{
    let (tot, bnd, app) = forest_acc(p.exits);
    let app = match app {
        Some(a) => a,
        None => 0,
    };
    if <Tree<D, C> as RoomExt>::spec_is_boundary(p) {
        (tot + 1, 0, bnd + app + 1)
    } else {
        (tot + 1, bnd + 1, app)
    }
}

/// The weights of the rooms of `s` added up, with the boundary chain
/// combined by `combine_app`.
pub open spec fn forest_acc<D, C>(s: Seq<RoomPlan<D, C>>) -> (nat, nat, Option<nat>) where
    Tree<D, C>: RoomExt + View<V = RoomPlan<D, C>>,

    decreases s,
{
    if s.len() == 0 {
        (0, 0, Some(0))
    } else {
        let (at, ab, aa) = forest_acc(s.subrange(0, s.len() - 1));
        let (t, b, a) = tree_weights(s[s.len() - 1]);
        (at + t, ab + b, combine_app(aa, a))
    }
}

/// The weights of a sequence of rooms.
pub open spec fn forest_weights<D, C>(s: Seq<RoomPlan<D, C>>) -> (nat, nat, nat) where
    Tree<D, C>: RoomExt + View<V = RoomPlan<D, C>>,
{
    let (t, b, a) = forest_acc(s);
    (t, b, match a {
        Some(a) => a,
        None => 0,
    })
}

/// The room with no entrance and no contents whose one exit leads to `p`.
pub open spec fn wrapped<D, C>(p: RoomPlan<D, C>) -> RoomPlan<D, C> {
    RoomPlan { entrance: None, contents: None, exits: seq![p] }
}

/// The room that `f` turns `p` into, where `p` takes it; else the room it
/// turns a new room in front of `p` into; `None` where neither takes it.
pub open spec fn retried<D, C>(p: RoomPlan<D, C>, f: <Tree<D, C> as RoomExt>::Feature) -> Option<
    RoomPlan<D, C>,
> where Tree<D, C>: RoomExt + View<V = RoomPlan<D, C>> {
    match <Tree<D, C> as RoomExt>::spec_add_feature(p, f) {
        Some(q) => Some(q),
        None => <Tree<D, C> as RoomExt>::spec_add_feature(wrapped(p), f),
    }
}

/// The room that a feature plan is turned into: a feature is added to the
/// room its rest is turned into (in front of it where it cannot take it),
/// and a branch becomes an empty room whose exits lead to its sub-plans'
/// rooms. `None` where a feature is refused both times.
pub open spec fn built<D, C>(plan: FeaturePlan<<Tree<D, C> as RoomExt>::Feature>) -> Option<
    RoomPlan<D, C>,
> where Tree<D, C>: RoomExt + View<V = RoomPlan<D, C>>
    decreases plan,
{
    match plan {
        FeaturePlan::Feature(f, next) => match built::<D, C>(*next) {
            Some(p) => retried(p, f),
            None => None,
        },
        FeaturePlan::Branch(nodes) => match built_seq::<D, C>(nodes@) {
            Some(ps) => Some(RoomPlan { entrance: None, contents: None, exits: ps }),
            None => None,
        },
    }
}

/// The rooms that a sequence of feature plans is turned into, or `None`
/// where one of them cannot be.
pub open spec fn built_seq<D, C>(s: Seq<FeaturePlan<<Tree<D, C> as RoomExt>::Feature>>) -> Option<
    Seq<RoomPlan<D, C>>,
> where Tree<D, C>: RoomExt + View<V = RoomPlan<D, C>>
    decreases s,
{
    if s.len() == 0 {
        Some(Seq::empty())
    } else {
        match (built_seq::<D, C>(s.subrange(0, s.len() - 1)), built::<D, C>(s[s.len() - 1])) {
            (Some(ps), Some(p)) => Some(ps.push(p)),
            _ => None,
        }
    }
}

/// Where a sequence of feature plans can be turned into rooms, so can each
/// prefix and each of its plans, the rooms of one more plan coming after.
pub proof fn lemma_built_seq_prefix<D, C>(s: Seq<FeaturePlan<<Tree<D, C> as RoomExt>::Feature>>, i: int) where
    Tree<D, C>: RoomExt + View<V = RoomPlan<D, C>>,

    requires
        0 <= i < s.len(),
        built_seq::<D, C>(s) is Some,
    ensures
        built::<D, C>(s[i]) is Some,
        built_seq::<D, C>(s.subrange(0, i)) is Some,
        built_seq::<D, C>(s.subrange(0, i + 1)) == Some(
            built_seq::<D, C>(s.subrange(0, i)).unwrap().push(built::<D, C>(s[i]).unwrap()),
        ),
    decreases s.len(),
{
    assert(s.subrange(0, i + 1).subrange(0, i) =~= s.subrange(0, i));
    if i < s.len() - 1 {
        let t = s.subrange(0, s.len() - 1);
        lemma_built_seq_prefix::<D, C>(t, i);
        assert(t.subrange(0, i) =~= s.subrange(0, i));
        assert(t.subrange(0, i + 1) =~= s.subrange(0, i + 1));
    }
}

/// The position, from `from` on, of the first element of `s` whose key
/// is above `k`, or the length of `s`.
pub open spec fn insert_pos<T>(s: Seq<T>, key: spec_fn(T) -> nat, k: nat, from: int) -> int
    decreases s.len() - from,
{
    if from >= s.len() {
        s.len() as int
    } else if key(s[from]) > k {
        from
    } else {
        insert_pos(s, key, k, from + 1)
    }
}

/// `s` sorted by `key`, ascending, elements of equal key keeping their
/// order: each element in turn is put after all earlier ones whose key is
/// not above its own.
pub open spec fn sort_by_key<T>(s: Seq<T>, key: spec_fn(T) -> nat) -> Seq<T>
    decreases s.len(),
{
    if s.len() == 0 {
        s
    } else {
        let r = sort_by_key(s.drop_last(), key);
        r.insert(insert_pos(r, key, key(s.last()), 0), s.last())
    }
}

/// The number of rooms of a room, as the key it is sorted by.
pub open spec fn weight_key<D, C>() -> spec_fn(RoomPlan<D, C>) -> nat where
    Tree<D, C>: RoomExt + View<V = RoomPlan<D, C>>,
{
    |p: RoomPlan<D, C>| tree_weights(p).0
}

/// The linear weight of the rooms behind a room's exits, as the key it is
/// sorted by.
pub open spec fn exits_key<D, C>() -> spec_fn(RoomPlan<D, C>) -> nat where
    Tree<D, C>: RoomExt + View<V = RoomPlan<D, C>>,
{
    |p: RoomPlan<D, C>| forest_weights(p.exits).1 + forest_weights(p.exits).2
}

/// The linear weight of a room.
pub open spec fn linear_weight_of<D, C>(p: RoomPlan<D, C>) -> nat where
    Tree<D, C>: RoomExt + View<V = RoomPlan<D, C>>,
{
    tree_weights(p).1 + tree_weights(p).2
}

/// The views of a vector of rooms.
pub open spec fn views<D, C>(v: Seq<Tree<D, C>>) -> Seq<RoomPlan<D, C>> {
    v.map_values(|t: Tree<D, C>| t@)
}

/// The sum of `f` over the elements of `s`.
pub open spec fn sum_by<T>(s: Seq<T>, f: spec_fn(T) -> nat) -> nat
    decreases s.len(),
{
    if s.len() == 0 {
        0
    } else {
        f(s[0]) + sum_by(s.drop_first(), f)
    }
}

/// Inserting an element anywhere adds its value to the sum.
pub proof fn lemma_sum_by_insert<T>(s: Seq<T>, p: int, x: T, f: spec_fn(T) -> nat)
    requires
        0 <= p <= s.len(),
    ensures
        sum_by(s.insert(p, x), f) == sum_by(s, f) + f(x),
    decreases s.len(),
{
    if p == 0 {
        assert(s.insert(p, x).drop_first() =~= s);
    } else {
        assert(s.insert(p, x).drop_first() =~= s.drop_first().insert(p - 1, x));
        lemma_sum_by_insert(s.drop_first(), p - 1, x, f);
    }
}

/// The sum counts the last element after all the others.
pub proof fn lemma_sum_by_last<T>(s: Seq<T>, f: spec_fn(T) -> nat)
    requires
        s.len() > 0,
    ensures
        sum_by(s, f) == sum_by(s.drop_last(), f) + f(s.last()),
{
    assert(s.drop_last().insert(s.len() - 1, s.last()) =~= s);
    lemma_sum_by_insert(s.drop_last(), s.len() - 1, s.last(), f);
}

/// A sum is at least a sum of values that are each no larger.
pub proof fn lemma_sum_by_le<T>(s: Seq<T>, f: spec_fn(T) -> nat, g: spec_fn(T) -> nat)
    requires
        forall|x: T| #[trigger] f(x) <= g(x),
    ensures
        sum_by(s, f) <= sum_by(s, g),
    decreases s.len(),
{
    if s.len() > 0 {
        lemma_sum_by_le(s.drop_first(), f, g);
    }
}

/// The insertion position lies within the sequence, after every element
/// whose key is not above `k` and before the first one that is.
pub proof fn lemma_insert_pos<T>(s: Seq<T>, key: spec_fn(T) -> nat, k: nat, from: int)
    requires
        0 <= from <= s.len(),
    ensures
        from <= insert_pos(s, key, k, from) <= s.len(),
        forall|j: int| from <= j < insert_pos(s, key, k, from) ==> key(#[trigger] s[j]) <= k,
        insert_pos(s, key, k, from) < s.len() ==> key(s[insert_pos(s, key, k, from)]) > k,
    decreases s.len() - from,
{
    if from < s.len() && key(s[from]) <= k {
        lemma_insert_pos(s, key, k, from + 1);
    }
}

/// Sorting keeps the length, the elements and every sum over them.
pub proof fn lemma_sort_by_key_perm<T>(s: Seq<T>, key: spec_fn(T) -> nat, f: spec_fn(T) -> nat)
    ensures
        sort_by_key(s, key).len() == s.len(),
        sort_by_key(s, key).to_multiset() == s.to_multiset(),
        sum_by(sort_by_key(s, key), f) == sum_by(s, f),
    decreases s.len(),
{
    if s.len() > 0 {
        let r = sort_by_key(s.drop_last(), key);
        lemma_sort_by_key_perm(s.drop_last(), key, f);
        let p = insert_pos(r, key, key(s.last()), 0);
        lemma_insert_pos(r, key, key(s.last()), 0);
        lemma_sum_by_insert(r, p, s.last(), f);
        lemma_sum_by_last(s, f);
        vstd::seq_lib::to_multiset_insert(r, p, s.last());
        assert(s.drop_last().push(s.last()) =~= s);
        vstd::seq_lib::to_multiset_build(s.drop_last(), s.last());
    }
}

/// Sorting by a key leaves the keys in ascending order: `sort_by_weight`
/// leaves the rooms in ascending order of weight.
pub proof fn law_sort_by_key_sorted<T>(s: Seq<T>, key: spec_fn(T) -> nat)
    ensures
        forall|i: int, j: int|
            0 <= i <= j < sort_by_key(s, key).len() ==> key(sort_by_key(s, key)[i]) <= key(
                sort_by_key(s, key)[j],
            ),
    decreases s.len(),
{
    if s.len() > 0 {
        let r = sort_by_key(s.drop_last(), key);
        law_sort_by_key_sorted(s.drop_last(), key);
        lemma_sort_by_key_perm(s.drop_last(), key, |x: T| 0nat);
        lemma_insert_pos(r, key, key(s.last()), 0);
    }
}

/// The elements whose key is `k`, as a test.
pub open spec fn key_is<T>(key: spec_fn(T) -> nat, k: nat) -> spec_fn(T) -> bool {
    |x: T| key(x) == k
}

/// Sorting by a key is stable: the elements of each key come out in the
/// order they came in.
pub proof fn law_sort_by_key_stable<T>(s: Seq<T>, key: spec_fn(T) -> nat, k: nat)
    ensures
        sort_by_key(s, key).filter(key_is(key, k)) == s.filter(key_is(key, k)),
    decreases s.len(),
{
    if s.len() > 0 {
        let x = s.last();
        let r = sort_by_key(s.drop_last(), key);
        let p = insert_pos(r, key, key(x), 0);
        let pred = key_is(key, k);
        law_sort_by_key_stable(s.drop_last(), key, k);
        law_sort_by_key_sorted(s.drop_last(), key);
        lemma_sort_by_key_perm(s.drop_last(), key, |y: T| 0nat);
        lemma_insert_pos(r, key, key(x), 0);
        let lo = r.subrange(0, p);
        let hi = r.subrange(p, r.len() as int);
        assert(r.insert(p, x) =~= lo + seq![x] + hi);
        assert(r =~= lo + hi);
        Seq::filter_distributes_over_add(lo + seq![x], hi, pred);
        Seq::filter_distributes_over_add(lo, seq![x], pred);
        Seq::filter_distributes_over_add(lo, hi, pred);
        assert(seq![x] =~= Seq::<T>::empty().push(x));
        Seq::<T>::empty().lemma_filter_push(x, pred);
        assert(Seq::<T>::empty().filter(pred) =~= Seq::<T>::empty()) by {
            reveal(Seq::filter);
        }
        s.drop_last().lemma_filter_push(x, pred);
        assert(s.drop_last().push(x) =~= s);
        if key(x) == k {
            assert forall|j: int| 0 <= j < hi.len() implies !pred(#[trigger] hi[j]) by {
                assert(key(r[p]) > key(x));
                assert(key(r[p]) <= key(r[p + j]));
            }
            hi.lemma_all_neg_filter_empty(pred);
            assert(hi.filter(pred) =~= Seq::<T>::empty());
        }
    }
}

/// The total number of rooms of a sequence of rooms is the sum of theirs.
pub proof fn lemma_forest_total_sum<D, C>(s: Seq<RoomPlan<D, C>>) where
    Tree<D, C>: RoomExt + View<V = RoomPlan<D, C>>,

    ensures
        forest_acc(s).0 == sum_by(s, weight_key()),
    decreases s.len(),
{
    if s.len() > 0 {
        lemma_forest_total_sum(s.subrange(0, s.len() - 1));
        lemma_sum_by_last(s, weight_key());
        assert(s.drop_last() =~= s.subrange(0, s.len() - 1));
    }
}

/// Sorts rooms by the keys given beside them, stably.
fn sort_trees<D, C>(trees: Vec<Tree<D, C>>, keys: Vec<usize>, Ghost(key): Ghost<
    spec_fn(RoomPlan<D, C>) -> nat,
>) -> (r: Vec<Tree<D, C>>)
    requires
        keys@.len() == trees@.len(),
        forall|i: int| 0 <= i < keys@.len() ==> keys@[i] == key(#[trigger] trees@[i]@),
    ensures
        views(r@) == sort_by_key(views(trees@), key),
{
    let ghost all = views(trees@);
    let mut out: Vec<Tree<D, C>> = Vec::new();
    let mut out_keys: Vec<usize> = Vec::new();
    let mut idx: usize = 0;
    let n = keys.len();
    for tree in it: trees
        invariant
            it.seq() == trees@,
            n == keys@.len(),
            idx == it.index(),
            all == views(trees@),
            keys@.len() == trees@.len(),
            forall|i: int| 0 <= i < keys@.len() ==> keys@[i] == key(#[trigger] trees@[i]@),
            out_keys@.len() == out@.len(),
            forall|j: int| 0 <= j < out@.len() ==> out_keys@[j] == key(#[trigger] out@[j]@),
            views(out@) == sort_by_key(all.subrange(0, idx as int), key),
    {
        let k = keys[idx];
        let ghost r = views(out@);
        let mut p: usize = 0;
        while p < out_keys.len() && out_keys[p] <= k
            invariant
                p <= out_keys@.len(),
                out_keys@.len() == out@.len(),
                r == views(out@),
                forall|j: int| 0 <= j < out@.len() ==> out_keys@[j] == key(#[trigger] out@[j]@),
                insert_pos(r, key, k as nat, 0) == insert_pos(r, key, k as nat, p as int),
            decreases out_keys@.len() - p,
        {
            assert(r[p as int] == out@[p as int]@);
            p = p + 1;
        }
        proof {
            if p < out_keys@.len() {
                assert(r[p as int] == out@[p as int]@);
            }
            assert(all.subrange(0, idx + 1).drop_last() =~= all.subrange(0, idx as int));
            assert(all[idx as int] == tree@);
        }
        out.insert(p, tree);
        out_keys.insert(p, k);
        idx = idx + 1;
        proof {
            assert(views(out@) =~= r.insert(p as int, tree@));
        }
    }
    proof {
        assert(all.subrange(0, idx as int) =~= all);
    }
    out
}

/// `f` puts `t` into the first of `a` and `b`, then swaps the two where the
/// first's score has grown above the second's.
pub open spec fn split2_step<D, C>(
    st: (Seq<RoomPlan<D, C>>, Seq<RoomPlan<D, C>>, nat, nat),
    t: RoomPlan<D, C>,
) -> (Seq<RoomPlan<D, C>>, Seq<RoomPlan<D, C>>, nat, nat) where
    Tree<D, C>: RoomExt + View<V = RoomPlan<D, C>>,
{
    let (a, b, sa, sb) = st;
    let sa2 = sa + linear_weight_of(t);
    let a2 = a.push(t);
    if sa2 > sb {
        (b, a2, sb, sa2)
    } else {
        (a2, b, sa2, sb)
    }
}

/// The parts and scores after the rooms of `s` are dealt out from the last
/// to the first, each to the part with the lower score.
pub open spec fn split2_fold<D, C>(s: Seq<RoomPlan<D, C>>) -> (
    Seq<RoomPlan<D, C>>,
    Seq<RoomPlan<D, C>>,
    nat,
    nat,
) where Tree<D, C>: RoomExt + View<V = RoomPlan<D, C>>
    decreases s.len(),
{
    if s.len() == 0 {
        (Seq::empty(), Seq::empty(), 0, 0)
    } else {
        split2_step(split2_fold(s.drop_first()), s[0])
    }
}

/// The two forests that `split2` makes of `s`: the rooms sorted by the
/// linear weight behind their exits, then dealt out from the heaviest.
pub open spec fn spec_split2<D, C>(s: Seq<RoomPlan<D, C>>) -> (Seq<RoomPlan<D, C>>, Seq<RoomPlan<D, C>>) where
    Tree<D, C>: RoomExt + View<V = RoomPlan<D, C>>,
{
    let (a, b, _, _) = split2_fold(sort_by_key(s, exits_key()));
    (b, a)
}

/// Three parts: the room goes to the first, which is swapped with the
/// second where its score has grown above it, and then the second with the
/// third likewise.
pub open spec fn split3_step<D, C>(
    st: (Seq<RoomPlan<D, C>>, Seq<RoomPlan<D, C>>, Seq<RoomPlan<D, C>>, nat, nat, nat),
    t: RoomPlan<D, C>,
) -> (Seq<RoomPlan<D, C>>, Seq<RoomPlan<D, C>>, Seq<RoomPlan<D, C>>, nat, nat, nat) where
    Tree<D, C>: RoomExt + View<V = RoomPlan<D, C>>,
{
    let (a, b, c, sa, sb, sc) = st;
    let sa1 = sa + linear_weight_of(t);
    let a1 = a.push(t);
    let (a2, b2, sa2, sb2) = if sa1 > sb {
        (b, a1, sb, sa1)
    } else {
        (a1, b, sa1, sb)
    };
    if sb2 > sc {
        (a2, c, b2, sa2, sc, sb2)
    } else {
        (a2, b2, c, sa2, sb2, sc)
    }
}

/// The three parts and scores after the rooms of `s` are dealt out from
/// the last to the first.
pub open spec fn split3_fold<D, C>(s: Seq<RoomPlan<D, C>>) -> (
    Seq<RoomPlan<D, C>>,
    Seq<RoomPlan<D, C>>,
    Seq<RoomPlan<D, C>>,
    nat,
    nat,
    nat,
) where Tree<D, C>: RoomExt + View<V = RoomPlan<D, C>>
    decreases s.len(),
{
    if s.len() == 0 {
        (Seq::empty(), Seq::empty(), Seq::empty(), 0, 0, 0)
    } else {
        split3_step(split3_fold(s.drop_first()), s[0])
    }
}

/// The three forests that `split3` makes of `s`.
pub open spec fn spec_split3<D, C>(s: Seq<RoomPlan<D, C>>) -> (
    Seq<RoomPlan<D, C>>,
    Seq<RoomPlan<D, C>>,
    Seq<RoomPlan<D, C>>,
) where Tree<D, C>: RoomExt + View<V = RoomPlan<D, C>>
{
    let (a, b, c, _, _, _) = split3_fold(sort_by_key(s, exits_key()));
    (a, c, b)
}

/// What `pop_tree` makes of the rooms `s`: the parts of the only room, or
/// of the lightest room where it is a single room that is no boundary
/// (with the other rooms, sorted by weight); else the rooms sorted by
/// weight.
pub open spec fn spec_pop_tree<D, C>(s: Seq<RoomPlan<D, C>>) -> Result<
    (Option<D>, Option<C>, Seq<RoomPlan<D, C>>),
    Seq<RoomPlan<D, C>>,
> where Tree<D, C>: RoomExt + View<V = RoomPlan<D, C>> {
    if s.len() == 1 {
        Ok((s[0].entrance, s[0].contents, s[0].exits))
    } else {
        let t = sort_by_key(s, weight_key());
        if t.len() > 0 && !<Tree<D, C> as RoomExt>::spec_is_boundary(t[0]) && tree_weights(t[0]).0
            == 1 {
            Ok((t[0].entrance, t[0].contents, t.drop_first()))
        } else {
            Err(t)
        }
    }
}

/// `pop_tree` loses no room and makes none up: the room it takes off is
/// one of the forest's, and the forest it leaves is the others with that
/// room's exits; where it takes none off, it leaves the same rooms.
pub proof fn law_pop_tree_keeps_rooms<D, C>(s: Seq<RoomPlan<D, C>>) where
    Tree<D, C>: RoomExt + View<V = RoomPlan<D, C>>,

    ensures
        match spec_pop_tree(s) {
            Ok((e, c, rest)) => exists|i: int|
                0 <= i < s.len() && (#[trigger] s[i]).entrance == e && s[i].contents == c
                    && rest.to_multiset() == s.to_multiset().remove(s[i]).add(s[i].exits.to_multiset()),
            Err(t) => t.to_multiset() == s.to_multiset(),
        },
{
    broadcast use vstd::seq_lib::group_to_multiset_ensures;
    broadcast use vstd::multiset::group_multiset_axioms;

    if s.len() == 1 {
        assert(s =~= Seq::<RoomPlan<D, C>>::empty().push(s[0]));
        vstd::seq_lib::to_multiset_build(Seq::<RoomPlan<D, C>>::empty(), s[0]);
        assert(Seq::<RoomPlan<D, C>>::empty().to_multiset() =~= Multiset::empty());
        assert(s.to_multiset().remove(s[0]) =~= Multiset::empty());
        assert(s[0].exits.to_multiset() =~= s.to_multiset().remove(s[0]).add(s[0].exits.to_multiset()));
        assert(s[0].entrance == s[0].entrance);
    } else {
        let t = sort_by_key(s, weight_key());
        lemma_sort_by_key_perm(s, weight_key(), weight_key());
        if t.len() > 0 && !<Tree<D, C> as RoomExt>::spec_is_boundary(t[0]) && tree_weights(t[0]).0 == 1 {
            lemma_forest_weight_ge_len(t[0].exits);
            assert(t[0].exits.len() == 0);
            assert(t[0].exits.to_multiset() =~= Multiset::empty());
            assert(t.contains(t[0]));
            assert(t.to_multiset().count(t[0]) > 0);
            assert(s.contains(t[0]));
            let i = choose|i: int| 0 <= i < s.len() && s[i] == t[0];
            vstd::seq_lib::to_multiset_insert(t.drop_first(), 0, t[0]);
            assert(t.drop_first().insert(0, t[0]) =~= t);
            assert(t.drop_first().to_multiset() =~= s.to_multiset().remove(s[i]).add(s[i].exits.to_multiset()));
            assert((#[trigger] s[i]).entrance == t[0].entrance);
        }
    }
}

/// The linear weight of a room, as a function.
pub open spec fn linear_key<D, C>() -> spec_fn(RoomPlan<D, C>) -> nat where
    Tree<D, C>: RoomExt + View<V = RoomPlan<D, C>>,
{
    |p: RoomPlan<D, C>| linear_weight_of(p)
}

/// A sum over a suffix is at most the sum over the whole.
pub proof fn lemma_sum_by_suffix<T>(s: Seq<T>, k: int, f: spec_fn(T) -> nat)
    requires
        0 <= k <= s.len(),
    ensures
        sum_by(s.subrange(k, s.len() as int), f) <= sum_by(s, f),
        k < s.len() ==> f(s[k]) <= sum_by(s.subrange(k, s.len() as int), f),
    decreases k,
{
    if k > 0 {
        assert(s.drop_first().subrange(k - 1, s.len() - 1) =~= s.subrange(k, s.len() as int));
        lemma_sum_by_suffix(s.drop_first(), k - 1, f);
    } else {
        assert(s.subrange(0, s.len() as int) =~= s);
        if s.len() > 0 {
        }
    }
}

/// The linear weight of a room is at most its number of rooms, and so are
/// their sums.
pub proof fn lemma_linear_le_weight<D, C>(s: Seq<RoomPlan<D, C>>) where
    Tree<D, C>: RoomExt + View<V = RoomPlan<D, C>>,

    ensures
        sum_by(s, linear_key()) <= sum_by(s, weight_key()),
{
    assert forall|p: RoomPlan<D, C>| #[trigger] linear_key()(p) <= weight_key()(p) by {
        lemma_tree_weights_bound(p);
    }
    lemma_sum_by_le(s, linear_key(), weight_key());
}

/// The scores of `split2_fold` add up to the linear weights dealt out.
pub proof fn lemma_split2_scores<D, C>(s: Seq<RoomPlan<D, C>>) where
    Tree<D, C>: RoomExt + View<V = RoomPlan<D, C>>,

    ensures
        split2_fold(s).2 + split2_fold(s).3 == sum_by(s, linear_key()),
    decreases s.len(),
{
    if s.len() > 0 {
        lemma_split2_scores(s.drop_first());
    }
}

/// The scores of `split3_fold` add up to the linear weights dealt out.
pub proof fn lemma_split3_scores<D, C>(s: Seq<RoomPlan<D, C>>) where
    Tree<D, C>: RoomExt + View<V = RoomPlan<D, C>>,

    ensures
        split3_fold(s).3 + split3_fold(s).4 + split3_fold(s).5 == sum_by(s, linear_key()),
    decreases s.len(),
{
    if s.len() > 0 {
        lemma_split3_scores(s.drop_first());
    }
}

/// The value that `combine_app` keeps, 0 for none.
pub open spec fn app_value(a: Option<nat>) -> nat {
    match a {
        Some(a) => a,
        None => 0,
    }
}

/// The two chains of a room never hold more rooms than the room does.
pub proof fn lemma_tree_weights_bound<D, C>(p: RoomPlan<D, C>) where
    Tree<D, C>: RoomExt + View<V = RoomPlan<D, C>>,

    ensures
        tree_weights(p).1 + tree_weights(p).2 <= tree_weights(p).0,
        tree_weights(p).0 >= 1,
    decreases p,
{
    lemma_forest_acc_bound(p.exits);
}

/// The two chains of a sequence of rooms never hold more rooms than it.
pub proof fn lemma_forest_acc_bound<D, C>(s: Seq<RoomPlan<D, C>>) where
    Tree<D, C>: RoomExt + View<V = RoomPlan<D, C>>,

    ensures
        forest_acc(s).1 + app_value(forest_acc(s).2) <= forest_acc(s).0,
    decreases s,
{
    if s.len() > 0 {
        lemma_forest_acc_bound(s.subrange(0, s.len() - 1));
        lemma_tree_weights_bound(s[s.len() - 1]);
    }
}

/// A prefix of a sequence of rooms, and each of its rooms, weighs at most
/// what the sequence weighs.
pub proof fn lemma_forest_acc_prefix<D, C>(s: Seq<RoomPlan<D, C>>, i: int) where
    Tree<D, C>: RoomExt + View<V = RoomPlan<D, C>>,

    requires
        0 <= i < s.len(),
    ensures
        forest_acc(s.subrange(0, i)).0 + tree_weights(s[i]).0 <= forest_acc(s).0,
        forest_acc(s.subrange(0, i + 1)) == ({
            let (at, ab, aa) = forest_acc(s.subrange(0, i));
            let (t, b, a) = tree_weights(s[i]);
            (at + t, ab + b, combine_app(aa, a))
        }),
    decreases s.len(),
{
    assert(s.subrange(0, i + 1).subrange(0, i) =~= s.subrange(0, i));
    if i < s.len() - 1 {
        let t = s.subrange(0, s.len() - 1);
        lemma_forest_acc_prefix(t, i);
        assert(t.subrange(0, i) =~= s.subrange(0, i));
    }
}

impl<D, C> Tree<D, C> {
    /// The rooms behind a room's exits, as values, are those of its forest.
    pub proof fn lemma_exits_view(&self)
        ensures
            self@.exits == self.exits@,
    {
        let v = self@;
        assert(v.exits.len() == self.exits.0@.len());
        assert forall|i: int| 0 <= i < v.exits.len() implies v.exits[i] == self.exits@[i] by {
            assert(v.exits[i] == self.exits.0@[i]@);
        }
        assert(v.exits =~= self.exits@);
    }
}

impl<D, C> Forest<D, C> {
    /// A forest of no rooms.
    pub fn new() -> (r: Self)
        ensures
            r@.len() == 0,
    {
        Forest(Vec::new())
    }

    /// The forest of the given rooms, in order.
    pub fn from(trees: Vec<Tree<D, C>>) -> (r: Self)
        ensures
            r@ == trees@.map_values(|t: Tree<D, C>| t@),
    {
        let r = Forest(trees);
        assert(r@ =~= trees@.map_values(|t: Tree<D, C>| t@));
        r
    }

    /// The forest holds no room.
    pub fn is_empty(&self) -> (r: bool)
        ensures
            r == (self@.len() == 0),
    {
        self.0.len() == 0
    }

    /// The rooms of the forest, in order.
    pub fn into_iter(self) -> (r: Vec<Tree<D, C>>)
        ensures
            r@.map_values(|t: Tree<D, C>| t@) == self@,
    {
        let r = self.0;
        assert(r@.map_values(|t: Tree<D, C>| t@) =~= self@);
        r
    }
}

impl<D, C> Forest<D, C> {
    /// The forest's view is that of the rooms in its vector.
    pub proof fn lemma_view(&self)
        ensures
            self@ == views(self.0@),
            self@.len() == self.0@.len(),
    {
        assert(self@ =~= views(self.0@));
    }
}

impl<D, C> Forest<D, C> where Tree<D, C>: RoomExt + View<V = RoomPlan<D, C>> {
    /// The number of rooms of each room of the forest.
    fn weight_keys(&self) -> (r: Vec<usize>)
        requires
            forest_weights(self@).0 <= usize::MAX,
        ensures
            r@.len() == self.0@.len(),
            forall|i: int| 0 <= i < r@.len() ==> r@[i] == weight_key()(#[trigger] self.0@[i]@),
    {
        let mut r: Vec<usize> = Vec::new();
        let mut i: usize = 0;
        proof {
            self.lemma_view();
        }
        while i < self.0.len()
            invariant
                i <= self.0@.len(),
                self@ == views(self.0@),
                forest_weights(self@).0 <= usize::MAX,
                r@.len() == i,
                forall|j: int| 0 <= j < i ==> r@[j] == weight_key()(#[trigger] self.0@[j]@),
            decreases self.0@.len() - i,
        {
            proof {
                lemma_forest_acc_prefix(self@, i as int);
                assert(self@[i as int] == self.0@[i as int]@);
            }
            r.push(self.0[i].weight());
            i = i + 1;
        }
        r
    }

    /// The linear weight behind the exits of each room of the forest.
    fn exits_keys(&self) -> (r: Vec<usize>)
        requires
            forest_weights(self@).0 <= usize::MAX,
        ensures
            r@.len() == self.0@.len(),
            forall|i: int| 0 <= i < r@.len() ==> r@[i] == exits_key()(#[trigger] self.0@[i]@),
    {
        let mut r: Vec<usize> = Vec::new();
        let mut i: usize = 0;
        proof {
            self.lemma_view();
        }
        while i < self.0.len()
            invariant
                i <= self.0@.len(),
                self@ == views(self.0@),
                forest_weights(self@).0 <= usize::MAX,
                r@.len() == i,
                forall|j: int| 0 <= j < i ==> r@[j] == exits_key()(#[trigger] self.0@[j]@),
            decreases self.0@.len() - i,
        {
            proof {
                lemma_forest_acc_prefix(self@, i as int);
                assert(self@[i as int] == self.0@[i as int]@);
                self.0@[i as int].lemma_exits_view();
            }
            r.push(self.0[i].exits.linear_weight());
            i = i + 1;
        }
        r
    }

    /// The rooms sorted by the linear weight behind their exits, with the
    /// bound that holds of each and of their sums.
    fn sorted_by_exits(self) -> (r: Vec<Tree<D, C>>)
        requires
            forest_weights(self@).0 <= usize::MAX,
        ensures
            views(r@) == sort_by_key(self@, exits_key()),
            sum_by(views(r@), weight_key()) <= usize::MAX,
    {
        let keys = self.exits_keys();
        proof {
            self.lemma_view();
            lemma_sort_by_key_perm(self@, exits_key(), weight_key());
            lemma_forest_total_sum(self@);
        }
        sort_trees(self.0, keys, Ghost(exits_key()))
    }

    /// Splits the forest in two, the rooms dealt out from the one with the
    /// most linear weight behind its exits down, each to the part with the
    /// lower linear weight so far.
    pub fn split2(self) -> (r: (Self, Self))
        requires
            forest_weights(self@).0 <= usize::MAX,
        ensures
            (r.0@, r.1@) == spec_split2(self@),
    {
        let ghost all = self@;
        let mut rest = self.sorted_by_exits();
        let ghost t = views(rest@);
        let n = rest.len();
        let mut a: Forest<D, C> = Forest::new();
        let mut b: Forest<D, C> = Forest::new();
        let mut a_score: usize = 0;
        let mut b_score: usize = 0;
        proof {
            lemma_linear_le_weight(t);
            assert(t.subrange(n as int, n as int) =~= Seq::<RoomPlan<D, C>>::empty());
            assert(t.subrange(0, n as int) =~= t);
        }
        while rest.len() > 0
            invariant
                n == t.len(),
                rest@.len() <= n,
                views(rest@) == t.subrange(0, rest@.len() as int),
                sum_by(t, linear_key()) <= sum_by(t, weight_key()),
                sum_by(t, weight_key()) <= usize::MAX,
                (a@, b@, a_score as nat, b_score as nat) == split2_fold(
                    t.subrange(rest@.len() as int, n as int),
                ),
            decreases rest@.len(),
        {
            let ghost k = (rest@.len() - 1) as int;
            let ghost pre = rest@;
            let tree = rest.pop().unwrap();
            proof {
                assert(t[k] == tree@) by {
                    assert(views(pre)[k] == pre[k]@);
                };
                assert(views(rest@) =~= t.subrange(0, k));
                assert(t.subrange(k, n as int).drop_first() =~= t.subrange(k + 1, n as int));
                lemma_split2_scores(t.subrange(k, n as int));
                lemma_sum_by_suffix(t, k, linear_key());
                lemma_sum_by_suffix(t, k, weight_key());
                lemma_tree_weights_bound(tree@);
                a.lemma_view();
            }
            a_score = a_score + tree.linear_weight();
            let ghost pre_vec = a.0@;
            let ghost tv = tree@;
            a.0.push(tree);
            proof {
                a.lemma_view();
                assert(views(a.0@) =~= views(pre_vec).push(tv));
            }
            if a_score > b_score {
                std::mem::swap(&mut a, &mut b);
                std::mem::swap(&mut a_score, &mut b_score);
            }
        }
        (b, a)
    }

    /// Splits the forest in three, the rooms dealt out from the one with the
    /// most linear weight behind its exits down, each to the part with the
    /// lowest linear weight so far.
    pub fn split3(self) -> (r: (Self, Self, Self))
        requires
            forest_weights(self@).0 <= usize::MAX,
        ensures
            (r.0@, r.1@, r.2@) == spec_split3(self@),
    {
        let mut rest = self.sorted_by_exits();
        let ghost t = views(rest@);
        let n = rest.len();
        let mut a: Forest<D, C> = Forest::new();
        let mut b: Forest<D, C> = Forest::new();
        let mut c: Forest<D, C> = Forest::new();
        let mut a_score: usize = 0;
        let mut b_score: usize = 0;
        let mut c_score: usize = 0;
        proof {
            lemma_linear_le_weight(t);
            assert(t.subrange(n as int, n as int) =~= Seq::<RoomPlan<D, C>>::empty());
            assert(t.subrange(0, n as int) =~= t);
        }
        while rest.len() > 0
            invariant
                n == t.len(),
                rest@.len() <= n,
                views(rest@) == t.subrange(0, rest@.len() as int),
                sum_by(t, linear_key()) <= sum_by(t, weight_key()),
                sum_by(t, weight_key()) <= usize::MAX,
                (a@, b@, c@, a_score as nat, b_score as nat, c_score as nat) == split3_fold(
                    t.subrange(rest@.len() as int, n as int),
                ),
            decreases rest@.len(),
        {
            let ghost k = (rest@.len() - 1) as int;
            let ghost pre = rest@;
            let tree = rest.pop().unwrap();
            proof {
                assert(t[k] == tree@) by {
                    assert(views(pre)[k] == pre[k]@);
                };
                assert(views(rest@) =~= t.subrange(0, k));
                assert(t.subrange(k, n as int).drop_first() =~= t.subrange(k + 1, n as int));
                lemma_split3_scores(t.subrange(k, n as int));
                lemma_sum_by_suffix(t, k, linear_key());
                lemma_sum_by_suffix(t, k, weight_key());
                lemma_tree_weights_bound(tree@);
                a.lemma_view();
            }
            a_score = a_score + tree.linear_weight();
            let ghost pre_vec = a.0@;
            let ghost tv = tree@;
            a.0.push(tree);
            proof {
                a.lemma_view();
                assert(views(a.0@) =~= views(pre_vec).push(tv));
            }
            if a_score > b_score {
                std::mem::swap(&mut a, &mut b);
                std::mem::swap(&mut a_score, &mut b_score);
            }
            if b_score > c_score {
                std::mem::swap(&mut b, &mut c);
                std::mem::swap(&mut b_score, &mut c_score);
            }
        }
        (a, c, b)
    }

    /// Takes out a room that can stand in front of the whole forest without
    /// changing what it means: the only room, or the lightest room where it
    /// is a single room that is no boundary. Otherwise hands the forest
    /// back, sorted by weight.
    pub fn pop_tree(self) -> (r: Result<(Option<D>, Option<C>, Self), Self>)
        requires
            forest_weights(self@).0 <= usize::MAX,
        ensures
            match r {
                Ok((e, c, f)) => spec_pop_tree(self@) == Ok::<
                    (Option<D>, Option<C>, Seq<RoomPlan<D, C>>),
                    Seq<RoomPlan<D, C>>,
                >((e, c, f@)),
                Err(f) => spec_pop_tree(self@) == Err::<
                    (Option<D>, Option<C>, Seq<RoomPlan<D, C>>),
                    Seq<RoomPlan<D, C>>,
                >(f@),
            },
    {
        let mut this = self;
        proof {
            this.lemma_view();
        }
        if this.0.len() == 1 {
            let ghost pre = this.0@;
            let ghost s0 = this@;
            let tree = this.0.remove(0);
            proof {
                tree.lemma_exits_view();
                assert(s0[0] == pre[0]@);
            }
            let Tree { entrance, contents, exits } = tree;
            return Ok((entrance, contents, exits));
        }
        let ghost s = this@;
        this.sort_by_weight();
        proof {
            this.lemma_view();
            lemma_sort_by_key_perm(s, weight_key(), weight_key());
            lemma_forest_total_sum(s);
            if this.0@.len() > 0 {
                lemma_sum_by_suffix(this@, 0, weight_key());
                assert(this@.subrange(0, this@.len() as int) =~= this@);
                assert(this@[0] == this.0@[0]@);
            }
        }
        let ok = this.0.len() > 0 && !this.0[0].is_boundary() && this.0[0].weight() == 1;
        if ok {
            let Tree { entrance, contents, .. } = this.0.remove(0);
            proof {
                this.lemma_view();
                assert(this@ =~= sort_by_key(s, weight_key()).drop_first());
            }
            Ok((entrance, contents, this))
        } else {
            Err(this)
        }
    }

    /// Sorts the rooms by the number of rooms they hold, stably.
    pub fn sort_by_weight(&mut self)
        requires
            forest_weights(old(self)@).0 <= usize::MAX,
        ensures
            final(self)@ == sort_by_key(old(self)@, weight_key()),
    {
        let keys = self.weight_keys();
        let mut trees: Vec<Tree<D, C>> = Vec::new();
        std::mem::swap(&mut trees, &mut self.0);
        proof {
            old(self).lemma_view();
        }
        self.0 = sort_trees(trees, keys, Ghost(weight_key()));
        proof {
            self.lemma_view();
        }
    }

    /// The number of rooms in the forest.
    pub fn weight(&self) -> (r: usize)
        requires
            forest_weights(self@).0 <= usize::MAX,
        ensures
            r == forest_weights(self@).0,
    {
        let (tot, _, _) = self.weights();
        tot
    }

    /// The number of rooms on the forest's linear paths: to the first
    /// boundary, and the one path through boundaries after it.
    pub fn linear_weight(&self) -> (r: usize)
        requires
            forest_weights(self@).0 <= usize::MAX,
        ensures
            r == forest_weights(self@).1 + forest_weights(self@).2,
    {
        proof {
            lemma_forest_acc_bound(self@);
        }
        let (_, bnd, app) = self.weights();
        bnd + app
    }

    /// The weights of the rooms of the forest, added up.
    pub fn weights(&self) -> (r: (usize, usize, usize))
        requires
            forest_weights(self@).0 <= usize::MAX,
        ensures
            r.0 == forest_weights(self@).0,
            r.1 == forest_weights(self@).1,
            r.2 == forest_weights(self@).2,
        decreases self,
    {
        let mut tot: usize = 0;
        let mut bnd: usize = 0;
        let mut app: Option<usize> = Some(0);
        let mut i: usize = 0;
        while i < self.0.len()
            invariant
                i <= self.0@.len(),
                forest_weights(self@).0 <= usize::MAX,
                tot == forest_acc(self@.subrange(0, i as int)).0,
                bnd == forest_acc(self@.subrange(0, i as int)).1,
                app matches Some(a) ==> forest_acc(self@.subrange(0, i as int)).2 == Some(a as nat),
                app is None ==> forest_acc(self@.subrange(0, i as int)).2 is None,
            decreases self.0@.len() - i,
        {
            proof {
                lemma_forest_acc_prefix(self@, i as int);
                lemma_forest_acc_bound(self@.subrange(0, i as int + 1));
                lemma_forest_acc_bound(self@);
                assert(decreases_to!(*self => self.0@[i as int]));
                assert(self@[i as int] == self.0@[i as int]@);
                lemma_tree_weights_bound(self@[i as int]);
            }
            let (t, b, a) = self.0[i].weights();
            tot = tot + t;
            bnd = bnd + b;
            app = match app {
                Some(0) => Some(a),
                acc => if a == 0 {
                    acc
                } else {
                    None
                },
            };
            i = i + 1;
        }
        proof {
            assert(self@.subrange(0, self.0@.len() as int) =~= self@);
        }
        (tot, bnd, match app {
            Some(a) => a,
            None => 0,
        })
    }
}

impl<D, C> Tree<D, C> {
    /// The room with the given rooms added behind its exits, after the
    /// others.
    pub fn add_exits(self, exits: Vec<Tree<D, C>>) -> (r: Self)
        ensures
            r@ == (RoomPlan {
                exits: self@.exits + exits@.map_values(|t: Tree<D, C>| t@),
                ..self@
            }),
    {
        let Tree { entrance, contents, exits: Forest(mut trees) } = self;
        let ghost added = exits@;
        let mut exits = exits;
        trees.append(&mut exits);
        let r = Tree { entrance, contents, exits: Forest(trees) };
        proof {
            self.lemma_exits_view();
            r.lemma_exits_view();
            assert(r@.exits =~= self@.exits + added.map_values(|t: Tree<D, C>| t@));
        }
        r
    }
}

impl<D, C> Default for Tree<D, C> {
    /// A room with no entrance, no contents and no exits.
    fn default() -> (r: Self)
        ensures
            r@ == (RoomPlan::<D, C> { entrance: None, contents: None, exits: Seq::empty() }),
    {
        let r = Tree { entrance: None, contents: None, exits: Forest::new() };
        proof {
            r.lemma_exits_view();
            assert(r@.exits =~= Seq::empty());
        }
        r
    }
}

impl<D, C> Tree<D, C> where Tree<D, C>: RoomExt + View<V = RoomPlan<D, C>> {
    /// Adds the feature to the room, or, where the room cannot take it, to
    /// a new room in front of it.
    pub fn add_feature_retry(self, feature: <Self as RoomExt>::Feature) -> (r: Self)
        requires
            retried(self@, feature) is Some,
        ensures
            retried(self@, feature) == Some(r@),
    {
        match self.add_feature(feature) {
            Ok(room) => room,
            Err((feature, room)) => {
                let ghost inner = room@;
                let exits = vec![room];
                proof {
                    assert(exits@.map_values(|t: Tree<D, C>| t@) =~= seq![inner]);
                }
                let outer = Tree::default().add_exits(exits);
                proof {
                    assert(outer@.exits =~= seq![inner]);
                    assert(outer@ =~= wrapped(inner));
                }
                match outer.add_feature(feature) {
                    Ok(room) => room,
                    Err((_, room)) => room,
                }
            },
        }
    }

    /// The room that a feature plan is turned into.
    pub fn from_feature_plan(feature_plan: FeaturePlan<<Self as RoomExt>::Feature>) -> (r: Self)
        requires
            built::<D, C>(feature_plan) is Some,
        ensures
            built::<D, C>(feature_plan) == Some(r@),
        decreases feature_plan,
    {
        match feature_plan {
            FeaturePlan::Feature(feature, child) => {
                let room = Self::from_feature_plan(*child);
                room.add_feature_retry(feature)
            },
            FeaturePlan::Branch(nodes) => {
                let ghost all = nodes@;
                let ghost whole = FeaturePlan::<<Self as RoomExt>::Feature>::Branch(nodes);
                let mut rooms: Vec<Self> = Vec::new();
                for node in it: nodes
                    invariant
                        it.seq() == all,
                        all == nodes@,
                        whole == feature_plan,
                        whole matches FeaturePlan::Branch(ns) && ns@ == all,
                        built::<D, C>(whole) is Some,
                        built_seq::<D, C>(all) is Some,
                        built_seq::<D, C>(all.subrange(0, it.index() as int)) == Some(
                            rooms@.map_values(|t: Tree<D, C>| t@),
                        ),
                {
                    let ghost k = it.index() as int;
                    proof {
                        assert(node == all[k]);
                        assert(decreases_to!(whole => all[k]));
                        lemma_built_seq_prefix::<D, C>(all, k);
                    }
                    let room = Self::from_feature_plan(node);
                    rooms.push(room);
                    proof {
                        assert(rooms@.map_values(|t: Tree<D, C>| t@) =~= rooms@.drop_last().map_values(|t: Tree<D, C>| t@).push(room@));
                    }
                }
                proof {
                    assert(all.subrange(0, all.len() as int) =~= all);
                }
                let ghost ps = rooms@.map_values(|t: Tree<D, C>| t@);
                let r = Tree::default().add_exits(rooms);
                proof {
                    assert(r@.exits =~= ps);
                    assert(r@ =~= RoomPlan { entrance: None, contents: None, exits: ps });
                }
                r
            },
        }
    }

    /// The number of rooms of the room, itself included.
    pub fn weight(&self) -> (r: usize)
        requires
            tree_weights(self@).0 <= usize::MAX,
        ensures
            r == tree_weights(self@).0,
    {
        let (tot, _, _) = self.weights();
        tot
    }

    /// The number of rooms on the room's linear paths.
    pub fn linear_weight(&self) -> (r: usize)
        requires
            tree_weights(self@).0 <= usize::MAX,
        ensures
            r == tree_weights(self@).1 + tree_weights(self@).2,
    {
        proof {
            lemma_tree_weights_bound(self@);
        }
        let (_, bnd, app) = self.weights();
        bnd + app
    }

    /// The weights of the room: the rooms it holds, the linear path to its
    /// first boundary, and the linear path through boundaries after it.
    pub fn weights(&self) -> (r: (usize, usize, usize))
        requires
            tree_weights(self@).0 <= usize::MAX,
        ensures
            r.0 == tree_weights(self@).0,
            r.1 == tree_weights(self@).1,
            r.2 == tree_weights(self@).2,
        decreases self,
    {
        proof {
            self.lemma_exits_view();
            lemma_forest_acc_bound(self@.exits);
        }
        let (tot, bnd, app) = self.exits.weights();
        if self.is_boundary() {
            (tot + 1, 0, bnd + app + 1)
        } else {
            (tot + 1, bnd + 1, app)
        }
    }
}

/// Rooms without doors or contents of their own: a room is a boundary
/// where it has an entrance, and takes a feature only then, unchanged.
impl RoomExt for Tree<(), ()> {
    type Feature = ();

    open spec fn spec_is_boundary(v: RoomPlan<(), ()>) -> bool {
        v.entrance is Some
    }

    open spec fn spec_add_feature(v: RoomPlan<(), ()>, feature: ()) -> Option<RoomPlan<(), ()>> {
        if v.entrance is None {
            None
        } else {
            Some(v)
        }
    }

    fn add_feature(self, feature: ()) -> (r: Result<Self, ((), Self)>) {
        if self.entrance.is_none() {
            Err((feature, self))
        } else {
            Ok(self)
        }
    }

    fn is_boundary(&self) -> (b: bool) {
        self.entrance.is_some()
    }
}

/// Dealing rooms out into two parts loses none and adds none, and leaves
/// the first part's score at most the second's.
pub proof fn lemma_split2_fold_parts<D, C>(s: Seq<RoomPlan<D, C>>) where
    Tree<D, C>: RoomExt + View<V = RoomPlan<D, C>>,

    ensures
        split2_fold(s).0.to_multiset().add(split2_fold(s).1.to_multiset()) == s.to_multiset(),
        split2_fold(s).2 <= split2_fold(s).3,
    decreases s.len(),
{
    broadcast use vstd::seq_lib::to_multiset_build;
    broadcast use vstd::multiset::group_multiset_axioms;

    if s.len() == 0 {
        broadcast use vstd::seq_lib::group_to_multiset_ensures;

        assert(s =~= Seq::<RoomPlan<D, C>>::empty());
        assert(s.to_multiset() =~= Multiset::empty());
    } else {
        lemma_split2_fold_parts(s.drop_first());
        vstd::seq_lib::to_multiset_insert(s.drop_first(), 0, s[0]);
        assert(s.drop_first().insert(0, s[0]) =~= s);
        let (a, b, _, _) = split2_fold(s.drop_first());
        assert(a.push(s[0]).to_multiset().add(b.to_multiset()) =~= s.to_multiset());
        assert(b.to_multiset().add(a.push(s[0]).to_multiset()) =~= s.to_multiset());
    }
}

/// Dealing rooms out into three parts loses none and adds none, and leaves
/// the parts' scores in ascending order.
pub proof fn lemma_split3_fold_parts<D, C>(s: Seq<RoomPlan<D, C>>) where
    Tree<D, C>: RoomExt + View<V = RoomPlan<D, C>>,

    ensures
        split3_fold(s).0.to_multiset().add(split3_fold(s).1.to_multiset()).add(
            split3_fold(s).2.to_multiset(),
        ) == s.to_multiset(),
        split3_fold(s).3 <= split3_fold(s).4 <= split3_fold(s).5,
    decreases s.len(),
{
    broadcast use vstd::seq_lib::to_multiset_build;
    broadcast use vstd::multiset::group_multiset_axioms;

    if s.len() == 0 {
        broadcast use vstd::seq_lib::group_to_multiset_ensures;

        assert(s =~= Seq::<RoomPlan<D, C>>::empty());
        assert(s.to_multiset() =~= Multiset::empty());
    } else {
        lemma_split3_fold_parts(s.drop_first());
        vstd::seq_lib::to_multiset_insert(s.drop_first(), 0, s[0]);
        assert(s.drop_first().insert(0, s[0]) =~= s);
        let (a, b, c, _, _, _) = split3_fold(s.drop_first());
        let a1 = a.push(s[0]);
        assert(a1.to_multiset() =~= a.to_multiset().insert(s[0]));
        let r = split3_fold(s);
        assert(r.0.to_multiset().add(r.1.to_multiset()).add(r.2.to_multiset()) =~= s.to_multiset());
    }
}

/// `split2` deals every room of the forest to exactly one of the two parts,
/// and the first part carries at least the linear weight of the second.
pub proof fn law_split2_partitions<D, C>(s: Seq<RoomPlan<D, C>>) where
    Tree<D, C>: RoomExt + View<V = RoomPlan<D, C>>,

    ensures
        spec_split2(s).0.to_multiset().add(spec_split2(s).1.to_multiset()) == s.to_multiset(),
        sum_by(spec_split2(s).1, linear_key()) <= sum_by(spec_split2(s).0, linear_key()),
{
    broadcast use vstd::multiset::group_multiset_axioms;

    let t = sort_by_key(s, exits_key());
    lemma_sort_by_key_perm(s, exits_key(), linear_key());
    lemma_split2_fold_parts(t);
    lemma_split2_sums(t);
    let (a, b, _, _) = split2_fold(t);
    assert(b.to_multiset().add(a.to_multiset()) =~= a.to_multiset().add(b.to_multiset()));
}

/// The scores of `split2_fold` are the linear weights of its parts.
pub proof fn lemma_split2_sums<D, C>(s: Seq<RoomPlan<D, C>>) where
    Tree<D, C>: RoomExt + View<V = RoomPlan<D, C>>,

    ensures
        split2_fold(s).2 == sum_by(split2_fold(s).0, linear_key()),
        split2_fold(s).3 == sum_by(split2_fold(s).1, linear_key()),
    decreases s.len(),
{
    if s.len() > 0 {
        lemma_split2_sums(s.drop_first());
        let (a, _, _, _) = split2_fold(s.drop_first());
        lemma_sum_by_last(a.push(s[0]), linear_key());
        assert(a.push(s[0]).drop_last() =~= a);
    }
}

/// The scores of `split3_fold` are the linear weights of its parts.
pub proof fn lemma_split3_sums<D, C>(s: Seq<RoomPlan<D, C>>) where
    Tree<D, C>: RoomExt + View<V = RoomPlan<D, C>>,

    ensures
        split3_fold(s).3 == sum_by(split3_fold(s).0, linear_key()),
        split3_fold(s).4 == sum_by(split3_fold(s).1, linear_key()),
        split3_fold(s).5 == sum_by(split3_fold(s).2, linear_key()),
    decreases s.len(),
{
    if s.len() > 0 {
        lemma_split3_sums(s.drop_first());
        let (a, _, _, _, _, _) = split3_fold(s.drop_first());
        lemma_sum_by_last(a.push(s[0]), linear_key());
        assert(a.push(s[0]).drop_last() =~= a);
    }
}

/// `split3` deals every room of the forest to exactly one of the three
/// parts; the second part carries the most linear weight and the first the
/// least.
pub proof fn law_split3_partitions<D, C>(s: Seq<RoomPlan<D, C>>) where
    Tree<D, C>: RoomExt + View<V = RoomPlan<D, C>>,

    ensures
        spec_split3(s).0.to_multiset().add(spec_split3(s).1.to_multiset()).add(
            spec_split3(s).2.to_multiset(),
        ) == s.to_multiset(),
        sum_by(spec_split3(s).0, linear_key()) <= sum_by(spec_split3(s).2, linear_key()),
        sum_by(spec_split3(s).2, linear_key()) <= sum_by(spec_split3(s).1, linear_key()),
{
    broadcast use vstd::multiset::group_multiset_axioms;

    let t = sort_by_key(s, exits_key());
    lemma_sort_by_key_perm(s, exits_key(), linear_key());
    lemma_split3_fold_parts(t);
    lemma_split3_sums(t);
    let (a, b, c, _, _, _) = split3_fold(t);
    assert(a.to_multiset().add(c.to_multiset()).add(b.to_multiset()) =~= a.to_multiset().add(
        b.to_multiset(),
    ).add(c.to_multiset()));
}

/// Dealing rooms out into two parts leaves the second part's score above
/// the first's by no more than the heaviest room's linear weight.
pub proof fn lemma_split2_fold_balanced<D, C>(s: Seq<RoomPlan<D, C>>, m: nat) where
    Tree<D, C>: RoomExt + View<V = RoomPlan<D, C>>,

    requires
        forall|i: int| 0 <= i < s.len() ==> linear_weight_of(#[trigger] s[i]) <= m,
    ensures
        split2_fold(s).3 <= split2_fold(s).2 + m,
    decreases s.len(),
{
    if s.len() > 0 {
        assert forall|i: int| 0 <= i < s.drop_first().len() implies linear_weight_of(#[trigger] s.drop_first()[i])
            <= m by {
            assert(s.drop_first()[i] == s[i + 1]);
        }
        lemma_split2_fold_balanced(s.drop_first(), m);
        lemma_split2_fold_parts(s.drop_first());
        assert(linear_weight_of(s[0]) <= m);
    }
}

/// Dealing rooms out into three parts leaves the highest score above the
/// lowest by no more than the heaviest room's linear weight.
pub proof fn lemma_split3_fold_balanced<D, C>(s: Seq<RoomPlan<D, C>>, m: nat) where
    Tree<D, C>: RoomExt + View<V = RoomPlan<D, C>>,

    requires
        forall|i: int| 0 <= i < s.len() ==> linear_weight_of(#[trigger] s[i]) <= m,
    ensures
        split3_fold(s).5 <= split3_fold(s).3 + m,
    decreases s.len(),
{
    if s.len() > 0 {
        assert forall|i: int| 0 <= i < s.drop_first().len() implies linear_weight_of(#[trigger] s.drop_first()[i])
            <= m by {
            assert(s.drop_first()[i] == s[i + 1]);
        }
        lemma_split3_fold_balanced(s.drop_first(), m);
        lemma_split3_fold_parts(s.drop_first());
        assert(linear_weight_of(s[0]) <= m);
    }
}

/// Sorting keeps each element's bound: every element of the sorted rooms
/// is one of the rooms.
proof fn lemma_sorted_bound<D, C>(s: Seq<RoomPlan<D, C>>, m: nat) where
    Tree<D, C>: RoomExt + View<V = RoomPlan<D, C>>,

    requires
        forall|i: int| 0 <= i < s.len() ==> linear_weight_of(#[trigger] s[i]) <= m,
    ensures
        forall|i: int|
            0 <= i < sort_by_key(s, exits_key()).len() ==> linear_weight_of(#[trigger] sort_by_key(s, exits_key())[i])
                <= m,
{
    broadcast use vstd::seq_lib::group_to_multiset_ensures;

    let t = sort_by_key(s, exits_key());
    lemma_sort_by_key_perm(s, exits_key(), linear_key());
    assert forall|i: int| 0 <= i < t.len() implies linear_weight_of(#[trigger] t[i]) <= m by {
        assert(t.contains(t[i]));
        assert(t.to_multiset().count(t[i]) > 0);
        assert(s.contains(t[i]));
    }
}

/// `split2` keeps its parts balanced: the heavier part's linear weight
/// exceeds the lighter's by at most the linear weight of the heaviest
/// room.
pub proof fn law_split2_balanced<D, C>(s: Seq<RoomPlan<D, C>>, m: nat) where
    Tree<D, C>: RoomExt + View<V = RoomPlan<D, C>>,

    requires
        forall|i: int| 0 <= i < s.len() ==> linear_weight_of(#[trigger] s[i]) <= m,
    ensures
        sum_by(spec_split2(s).0, linear_key()) <= sum_by(spec_split2(s).1, linear_key()) + m,
{
    let t = sort_by_key(s, exits_key());
    lemma_sorted_bound(s, m);
    lemma_split2_fold_balanced(t, m);
    lemma_split2_sums(t);
}

/// `split3` keeps its parts balanced: the heaviest part's linear weight
/// exceeds the lightest's by at most the linear weight of the heaviest
/// room.
pub proof fn law_split3_balanced<D, C>(s: Seq<RoomPlan<D, C>>, m: nat) where
    Tree<D, C>: RoomExt + View<V = RoomPlan<D, C>>,

    requires
        forall|i: int| 0 <= i < s.len() ==> linear_weight_of(#[trigger] s[i]) <= m,
    ensures
        sum_by(spec_split3(s).1, linear_key()) <= sum_by(spec_split3(s).0, linear_key()) + m,
{
    let t = sort_by_key(s, exits_key());
    lemma_sorted_bound(s, m);
    lemma_split3_fold_balanced(t, m);
    lemma_split3_sums(t);
}

/// The sums of `f` over the parts that `split2_fold` deals add up to its
/// sum over all the rooms.
pub proof fn lemma_split2_fold_sum<D, C>(s: Seq<RoomPlan<D, C>>, f: spec_fn(RoomPlan<D, C>) -> nat) where
    Tree<D, C>: RoomExt + View<V = RoomPlan<D, C>>,

    ensures
        sum_by(split2_fold(s).0, f) + sum_by(split2_fold(s).1, f) == sum_by(s, f),
    decreases s.len(),
{
    if s.len() > 0 {
        lemma_split2_fold_sum(s.drop_first(), f);
        let (a, _, _, _) = split2_fold(s.drop_first());
        lemma_sum_by_last(a.push(s[0]), f);
        assert(a.push(s[0]).drop_last() =~= a);
    }
}

/// The sums of `f` over the parts that `split3_fold` deals add up to its
/// sum over all the rooms.
pub proof fn lemma_split3_fold_sum<D, C>(s: Seq<RoomPlan<D, C>>, f: spec_fn(RoomPlan<D, C>) -> nat) where
    Tree<D, C>: RoomExt + View<V = RoomPlan<D, C>>,

    ensures
        sum_by(split3_fold(s).0, f) + sum_by(split3_fold(s).1, f) + sum_by(split3_fold(s).2, f) == sum_by(s, f),
    decreases s.len(),
{
    if s.len() > 0 {
        lemma_split3_fold_sum(s.drop_first(), f);
        let (a, _, _, _, _, _) = split3_fold(s.drop_first());
        lemma_sum_by_last(a.push(s[0]), f);
        assert(a.push(s[0]).drop_last() =~= a);
    }
}

/// No part that `split2` or `split3` makes holds more rooms than the
/// forest.
pub proof fn lemma_split_weights<D, C>(s: Seq<RoomPlan<D, C>>) where
    Tree<D, C>: RoomExt + View<V = RoomPlan<D, C>>,

    ensures
        forest_weights(spec_split2(s).0).0 <= forest_weights(s).0,
        forest_weights(spec_split2(s).1).0 <= forest_weights(s).0,
        forest_weights(spec_split3(s).0).0 <= forest_weights(s).0,
        forest_weights(spec_split3(s).1).0 <= forest_weights(s).0,
        forest_weights(spec_split3(s).2).0 <= forest_weights(s).0,
{
    let t = sort_by_key(s, exits_key());
    lemma_sort_by_key_perm(s, exits_key(), weight_key());
    lemma_split2_fold_sum(t, weight_key());
    lemma_split3_fold_sum(t, weight_key());
    lemma_forest_total_sum(s);
    lemma_forest_total_sum(spec_split2(s).0);
    lemma_forest_total_sum(spec_split2(s).1);
    lemma_forest_total_sum(spec_split3(s).0);
    lemma_forest_total_sum(spec_split3(s).1);
    lemma_forest_total_sum(spec_split3(s).2);
}

/// What `pop_tree` leaves of a forest holds no more rooms than it.
pub proof fn lemma_pop_tree_weight<D, C>(s: Seq<RoomPlan<D, C>>) where
    Tree<D, C>: RoomExt + View<V = RoomPlan<D, C>>,

    ensures
        match spec_pop_tree(s) {
            Ok((_, _, rest)) => forest_weights(rest).0 + 1 == forest_weights(s).0,
            Err(sorted) => forest_weights(sorted).0 == forest_weights(s).0 && sorted.len() == s.len(),
        },
{
    lemma_forest_total_sum(s);
    if s.len() == 1 {
        lemma_forest_acc_prefix(s, 0);
        lemma_forest_total_sum(s[0].exits);
        assert(s.drop_first().len() == 0);
        assert(sum_by(s, weight_key()) == tree_weights(s[0]).0 + sum_by(s.drop_first(), weight_key()));
    } else {
        let t = sort_by_key(s, weight_key());
        lemma_sort_by_key_perm(s, weight_key(), weight_key());
        lemma_forest_total_sum(t);
        if t.len() > 0 {
            lemma_sum_by_suffix(t, 1, weight_key());
            assert(t.drop_first() =~= t.subrange(1, t.len() as int));
            lemma_forest_total_sum(t.drop_first());
        }
    }
}

/// A room's linear weight lies between one and its weight: at least the
/// room itself lies on a linear path, and no more rooms than it holds.
pub proof fn law_linear_weight_bounds<D, C>(p: RoomPlan<D, C>) where
    Tree<D, C>: RoomExt + View<V = RoomPlan<D, C>>,

    ensures
        1 <= linear_weight_of(p) <= tree_weights(p).0,
{
    lemma_tree_weights_bound(p);
    lemma_room_weights_pos(p);
}

/// Turning a feature plan into rooms goes by its shape: a branch becomes
/// a room with no entrance and no contents whose exits lead to the rooms
/// of its sub-plans, in order; a feature is added, with a retry, to the
/// room of the plan behind it. So the empty plan becomes the room that
/// `Tree::default` makes.
pub proof fn law_built_by_shape<D, C>(plan: FeaturePlan<<Tree<D, C> as RoomExt>::Feature>) where
    Tree<D, C>: RoomExt + View<V = RoomPlan<D, C>>,

    ensures
        plan matches FeaturePlan::Branch(ns) ==> built::<D, C>(plan) == match built_seq::<D, C>(ns@) {
            Some(ps) => Some(RoomPlan::<D, C> { entrance: None, contents: None, exits: ps }),
            None => None,
        },
        plan matches FeaturePlan::Feature(f, next) ==> built::<D, C>(plan) == match built::<D, C>(*next) {
            Some(p) => retried(p, f),
            None => None,
        },
        plan matches FeaturePlan::Branch(ns) && ns@.len() == 0 ==> built::<D, C>(plan) == Some(
            RoomPlan::<D, C> { entrance: None, contents: None, exits: Seq::empty() },
        ),
{
    if let FeaturePlan::Branch(ns) = plan {
        if ns@.len() == 0 {
            assert(built_seq::<D, C>(ns@) == Some(Seq::<RoomPlan<D, C>>::empty()));
        }
    }
}

/// A sum of ones counts the elements.
pub proof fn lemma_sum_by_one<T>(s: Seq<T>)
    ensures
        sum_by(s, |x: T| 1nat) == s.len(),
    decreases s.len(),
{
    if s.len() > 0 {
        lemma_sum_by_one(s.drop_first());
    }
}

/// Every room holds at least one room, and weighs at least one linearly.
pub proof fn lemma_room_weights_pos<D, C>(p: RoomPlan<D, C>) where
    Tree<D, C>: RoomExt + View<V = RoomPlan<D, C>>,

    ensures
        tree_weights(p).0 >= 1,
        linear_weight_of(p) >= 1,
{
}

/// A forest holds at least as many rooms as it has trees.
pub proof fn lemma_forest_weight_ge_len<D, C>(s: Seq<RoomPlan<D, C>>) where
    Tree<D, C>: RoomExt + View<V = RoomPlan<D, C>>,

    ensures
        forest_weights(s).0 >= s.len(),
    decreases s.len(),
{
    lemma_forest_total_sum(s);
    lemma_weight_sum_ge_len(s);
}

/// The weights of the trees of `s` add up to at least their number.
proof fn lemma_weight_sum_ge_len<D, C>(s: Seq<RoomPlan<D, C>>) where
    Tree<D, C>: RoomExt + View<V = RoomPlan<D, C>>,

    ensures
        sum_by(s, weight_key()) >= s.len(),
    decreases s.len(),
{
    if s.len() > 0 {
        lemma_room_weights_pos(s[0]);
        lemma_weight_sum_ge_len(s.drop_first());
    }
}

/// Dealing out one room or more leaves the second part of `split2_fold`
/// holding some; two or more, both parts.
pub proof fn lemma_split2_fold_nonempty<D, C>(s: Seq<RoomPlan<D, C>>) where
    Tree<D, C>: RoomExt + View<V = RoomPlan<D, C>>,

    ensures
        s.len() >= 1 ==> split2_fold(s).1.len() > 0,
        s.len() >= 2 ==> split2_fold(s).0.len() > 0,
    decreases s.len(),
{
    if s.len() > 0 {
        lemma_split2_fold_nonempty(s.drop_first());
        lemma_room_weights_pos(s[0]);
        if s.len() == 1 {
            assert(split2_fold(s.drop_first()).3 == 0);
        }
    }
}

/// Dealing out one room or more leaves the third part of `split3_fold`
/// holding some; two or more, at least two parts.
pub proof fn lemma_split3_fold_nonempty<D, C>(s: Seq<RoomPlan<D, C>>) where
    Tree<D, C>: RoomExt + View<V = RoomPlan<D, C>>,

    ensures
        s.len() >= 1 ==> split3_fold(s).2.len() > 0,
        s.len() >= 2 ==> (if split3_fold(s).0.len() > 0 { 1int } else { 0 }) + (if split3_fold(s).1.len() > 0 {
            1int
        } else {
            0
        }) + (if split3_fold(s).2.len() > 0 { 1int } else { 0 }) >= 2,
    decreases s.len(),
{
    if s.len() > 0 {
        lemma_split3_fold_nonempty(s.drop_first());
        lemma_split3_fold_parts(s.drop_first());
        lemma_room_weights_pos(s[0]);
        if s.len() == 1 {
            assert(split3_fold(s.drop_first()).4 == 0);
            assert(split3_fold(s.drop_first()).5 == 0);
        }
    }
}

/// The rooms of a prefix of a sequence are no more than those of all of it.
pub proof fn lemma_forest_total_prefix<D, C>(s: Seq<RoomPlan<D, C>>, i: int) where
    Tree<D, C>: RoomExt + View<V = RoomPlan<D, C>>,

    requires
        0 <= i <= s.len(),
    ensures
        forest_acc(s.subrange(0, i)).0 <= forest_acc(s).0,
    decreases s.len() - i,
{
    if i < s.len() {
        lemma_forest_total_prefix(s, i + 1);
        assert(s.subrange(0, i + 1).subrange(0, i) =~= s.subrange(0, i));
    } else {
        assert(s.subrange(0, i) =~= s);
    }
}

impl<D, C> Tree<D, C> where Tree<D, C>: RoomExt + View<V = RoomPlan<D, C>> {
    /// The number of rooms in and behind this room, where it fits in a
    /// `usize`.
    pub fn checked_weight(&self) -> (r: Option<usize>)
        ensures
            r matches Some(w) ==> w == tree_weights(self@).0,
            r is None ==> tree_weights(self@).0 > usize::MAX,
        decreases self,
    {
        proof {
            self.lemma_exits_view();
        }
        let ghost s = self@.exits;
        let mut acc: usize = 1;
        let mut i: usize = 0;
        while i < self.exits.0.len()
            invariant
                i <= self.exits.0@.len(),
                s == self@.exits,
                s == self.exits@,
                s.len() == self.exits.0@.len(),
                acc == forest_acc(s.subrange(0, i as int)).0 + 1,
                tree_weights(self@).0 == forest_acc(s).0 + 1,
            decreases self.exits.0@.len() - i,
        {
            proof {
                assert(s.subrange(0, i + 1).subrange(0, i as int) =~= s.subrange(0, i as int));
                assert(s[i as int] == self.exits.0@[i as int]@);
                assert(decreases_to!(*self => self.exits.0@[i as int]));
                lemma_forest_total_prefix(s, i + 1);
            }
            match self.exits.0[i].checked_weight() {
                Some(w) => match acc.checked_add(w) {
                    Some(a) => {
                        acc = a;
                    },
                    None => {
                        return None;
                    },
                },
                None => {
                    return None;
                },
            }
            i = i + 1;
        }
        proof {
            assert(s.subrange(0, i as int) =~= s);
        }
        Some(acc)
    }
}

} // verus!
