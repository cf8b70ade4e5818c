use crate::build_plan::BuildPlan;
use crate::feature::FeaturePlan;
use crate::feature::Op;
use crate::feature::is_run;
use crate::feature::prepends_after_start;
use crate::floor::FloorPlan;
use crate::floor::from_forest;
use crate::floor::lays_out;
use crate::floor::spec_layout;
use crate::room::forest_weights;
use crate::room::tree_weights;
use crate::room::Tree;
use crate::room::built;
use crate::tunics::AugFeature;
use crate::tunics::Config;
use crate::tunics::Door;
use crate::tunics::Feature;
use crate::tunics::Item;
use crate::random::gen_index;
use crate::tunics::get_join_selector;
use crate::tunics::get_prepend_selector;
use crate::tunics::get_traversal_selector;
use crate::tunics::law_dungeon_sequence_starts;
use crate::tunics::lower;
use crate::tunics::lowers;
use crate::tunics::obstacles_of;
use crate::tunics::room::Contents;
use crate::tunics::room::rooms_of;
use rand::rngs::StdRng;
use rand::Rng;
use rand::SeedableRng;
use vstd::prelude::*;

verus! {

/// Calls `StdRng::seed_from_u64`: a generator started from `seed`.
#[verifier::external_body]
fn seeded(seed: u64) -> StdRng {
    StdRng::seed_from_u64(seed)
}

/// Calls `Rng::gen` for a `u64`: any number may come out.
#[verifier::external_body]
fn next_seed(rng: &mut StdRng) -> u64 {
    rng.gen()
}

/// `plan` is the build plan of `config`.
pub open spec fn plan_of(plan: BuildPlan<AugFeature>, config: Config) -> bool {
    &&& plan.wf()
    &&& plan.steps_view() == config.steps()
    &&& forall|s: int, t: int| #[trigger] plan.has_arc(s, t) <==> config.arc(s, t)
}

/// `seq` is the sequence of steps of a traversal of `config`'s build plan
/// that closes every step.
pub open spec fn sequence_of(seq: Seq<Op<AugFeature>>, config: Config) -> bool {
    exists|plan: BuildPlan<AugFeature>, xs: Seq<int>, opens: Seq<Set<int>>, closeds: Seq<Set<int>>|
        #[trigger] plan_of(plan, config) && #[trigger] plan.is_traversal(xs, opens, closeds) && plan.emitted(
            seq,
            xs,
            opens,
        )
}

/// `fp` is a feature plan that a build sequence of `config` builds.
pub open spec fn feature_plan_of(fp: FeaturePlan<AugFeature>, config: Config) -> bool {
    exists|steps: Seq<Op<AugFeature>>, ps: Seq<FeaturePlan<AugFeature>>|
        #[trigger] sequence_of(steps, config) && #[trigger] is_run(steps, ps) && ps.last() == fp
}

/// A copy of `config`.
fn copy_config(config: &Config) -> (r: Config)
    ensures
        r.num_small_keys == config.num_small_keys,
        r.num_fairies == config.num_fairies,
        r.num_cul_de_sacs == config.num_cul_de_sacs,
        r.items@ == config.items@,
{
    let mut items: Vec<Item> = Vec::new();
    for k in 0..config.items.len()
        invariant
            items@ == config.items@.subrange(0, k as int),
    {
        items.push(config.items[k]);
    }
    proof {
        assert(items@ =~= config.items@);
    }
    Config {
        num_small_keys: config.num_small_keys,
        num_fairies: config.num_fairies,
        num_cul_de_sacs: config.num_cul_de_sacs,
        items,
    }
}

/// A generator started from `seed`, and the build plan of `config`.
pub fn build_plan(seed: u64, config: &Config) -> (r: (StdRng, BuildPlan<AugFeature>))
    requires
        config.steps().len() < usize::MAX,
    ensures
        plan_of(r.1, *config),
        r.1.is_acyclic(),
        r.1.arcs_within_steps(),
{
    let rng = seeded(seed);
    let copy = copy_config(config);
    proof {
        assert(copy.steps() == config.steps());
    }
    let plan = BuildPlan::from(copy);
    proof {
        assert forall|m: int| #[trigger] copy.item_pos(m) == config.item_pos(m) by {}
        assert forall|s: int, t: int| #[trigger] plan.has_arc(s, t) <==> config.arc(s, t) by {
            if copy.items_arc(copy.items@.len() as int, s, t) {
                let m = choose|m: int| 0 <= m < copy.items@.len() && #[trigger] copy.item_arc(m, obstacles_of(copy.items@[m]).len() as int, s, t);
                assert(config.item_arc(m, obstacles_of(config.items@[m]).len() as int, s, t));
            }
            if config.items_arc(config.items@.len() as int, s, t) {
                let m = choose|m: int| 0 <= m < config.items@.len() && #[trigger] config.item_arc(m, obstacles_of(config.items@[m]).len() as int, s, t);
                assert(copy.item_arc(m, obstacles_of(copy.items@[m]).len() as int, s, t));
            }
            assert(copy.arc(s, t) == config.arc(s, t));
        }
    }
    (rng, plan)
}

/// The generator after `build_plan`, and a build sequence of `config`'s
/// plan drawn from a generator seeded from it: every step, once each.
pub fn build_sequence(seed: u64, config: &Config) -> (r: (StdRng, Vec<Op<AugFeature>>))
    requires
        config.steps().len() < usize::MAX,
    ensures
        sequence_of(r.1@, *config),
        prepends_after_start(r.1@),
{
    let (mut rng, build_plan) = build_plan(seed, config);
    let rng1 = seeded(next_seed(&mut rng));
    let mut traversal_selector = get_traversal_selector(rng1, &build_plan);
    let build_sequence = build_plan.build_sequence(&mut traversal_selector);
    proof {
        let (xs, opens, closeds) = choose|xs: Seq<int>, opens: Seq<Set<int>>, closeds: Seq<Set<int>>|
            #[trigger] build_plan.is_traversal(xs, opens, closeds) && build_plan.emitted(build_sequence@, xs, opens);
        law_dungeon_sequence_starts(build_plan, *config, build_sequence@, xs, opens, closeds);
        assert(plan_of(build_plan, *config));
        assert(build_plan.is_traversal(xs, opens, closeds));
    }
    (rng, build_sequence)
}

/// The generator after `build_sequence`, and the feature plan that the
/// build sequence builds, with sub-plans picked and joined at random from
/// generators seeded from it.
pub fn feature_plan1(seed: u64, config: &Config) -> (r: (StdRng, FeaturePlan<AugFeature>))
    requires
        config.steps().len() < usize::MAX,
    ensures
        feature_plan_of(r.1, *config),
{
    let (mut rng, build_sequence) = build_sequence(seed, config);
    let rng2 = seeded(next_seed(&mut rng));
    let rng3 = seeded(next_seed(&mut rng));
    let mut prepend_selector = get_prepend_selector(rng2);
    let mut join_selector = get_join_selector(rng3);
    let ghost steps = build_sequence@;
    let feature_plan = FeaturePlan::from_steps(&mut join_selector, &mut prepend_selector, build_sequence);
    proof {
        let ps = choose|ps: Seq<FeaturePlan<AugFeature>>| is_run(steps, ps) && ps.last() == feature_plan;
        assert(sequence_of(steps, *config));
        assert(is_run(steps, ps));
    }
    (rng, feature_plan)
}

/// The generator after `feature_plan1` and one more draw, and the lowered
/// feature plan.
pub fn feature_plan2(seed: u64, config: &Config) -> (r: (StdRng, FeaturePlan<Feature>))
    requires
        config.steps().len() < usize::MAX,
    ensures
        exists|fp: FeaturePlan<AugFeature>| #[trigger] feature_plan_of(fp, *config) && lowers(fp, false, r.1),
{
    let (mut rng, feature_plan) = feature_plan1(seed, config);
    let _rng4 = next_seed(&mut rng);
    let ghost fp = feature_plan;
    let lowered = lower(feature_plan);
    proof {
        assert(feature_plan_of(fp, *config));
    }
    (rng, lowered)
}

/// The generator after `feature_plan2`, and the rooms that the lowered
/// feature plan is turned into.
pub fn room_plan(seed: u64, config: &Config) -> (r: (StdRng, Tree<Door, Contents>))
    requires
        config.steps().len() < usize::MAX,
    ensures
        exists|fp: FeaturePlan<AugFeature>, lp: FeaturePlan<Feature>|
            #[trigger] feature_plan_of(fp, *config) && #[trigger] lowers(fp, false, lp) && built::<Door, Contents>(lp)
                == Some(r.1@),
{
    let (rng, feature_plan) = feature_plan2(seed, config);
    let ghost lp = feature_plan;
    let rooms = rooms_of(feature_plan);
    proof {
        let fp = choose|fp: FeaturePlan<AugFeature>| #[trigger] feature_plan_of(fp, *config) && lowers(fp, false, lp);
        assert(feature_plan_of(fp, *config) && lowers(fp, false, lp));
    }
    (rng, rooms)
}

/// The generator after `room_plan`, and the floor plan that its rooms are
/// laid out on; `None` where they do not fit.
pub fn floor_plan(seed: u64, config: &Config) -> (r: (StdRng, Option<FloorPlan>))
    requires
        config.steps().len() < usize::MAX,
    ensures
        exists|fp: FeaturePlan<AugFeature>, lp: FeaturePlan<Feature>, rooms: Tree<Door, Contents>|
            #[trigger] feature_plan_of(fp, *config) && #[trigger] lowers(fp, false, lp) && built::<Door, Contents>(lp)
                == Some(#[trigger] rooms@) && (r.1 matches Some(plan) ==> lays_out(rooms, plan)) && (forest_weights(
                rooms@.exits,
            ).0 <= 32 ==> r.1 is Some) && (r.1 is Some <==> tree_weights(rooms@).0 + 100 <= isize::MAX
                && spec_layout(rooms) is Some) && (r.1 matches Some(plan) ==> spec_layout(rooms) == Some(
                (plan.rooms(), plan.doors()),
            )),
{
    let (rng, room_plan) = room_plan(seed, config);
    let ghost rooms = room_plan;
    proof {
        let (fp, lp) = choose|fp: FeaturePlan<AugFeature>, lp: FeaturePlan<Feature>|
            #[trigger] feature_plan_of(fp, *config) && #[trigger] lowers(fp, false, lp) && built::<Door, Contents>(lp)
                == Some(rooms@);
        assert(feature_plan_of(fp, *config) && lowers(fp, false, lp) && built::<Door, Contents>(lp) == Some(rooms@));
    }
    proof {
        room_plan.lemma_exits_view();
        crate::room::lemma_forest_acc_bound(rooms@.exits);
    }
    match room_plan.checked_weight() {
        Some(w) => {
            if w <= (isize::MAX - 100) as usize {
                (rng, from_forest(room_plan))
            } else {
                (rng, None)
            }
        },
        None => (rng, None),
    }
}

/// The number of entries of `wanted` left to chance.
pub open spec fn count_open(wanted: Seq<Option<Item>>) -> nat
    decreases wanted.len(),
{
    if wanted.len() == 0 {
        0
    } else {
        count_open(wanted.drop_last()) + if wanted.last() is None {
            1nat
        } else {
            0nat
        }
    }
}

/// The items that `wanted` asks for, each entry left to chance drawn from
/// `rng` among the six items not drawn yet.
pub fn pick_items(rng: &mut StdRng, wanted: &Vec<Option<Item>>) -> (r: Vec<Item>)
    requires
        count_open(wanted@) <= 6,
    ensures
        r@.len() == wanted@.len(),
        forall|k: int| 0 <= k < wanted@.len() && wanted@[k] is Some ==> r@[k] == wanted@[k]->0,
        forall|a: int, b: int|
            0 <= a < b < wanted@.len() && wanted@[a] is None && wanted@[b] is None ==> r@[a] != r@[b],
{
    let mut all_items = vec![Item::BombBag, Item::Bow, Item::Flippers, Item::Glove, Item::Grapple, Item::Lantern];
    let mut items: Vec<Item> = Vec::new();
    let mut k: usize = 0;
    while k < wanted.len()
        invariant
            k <= wanted@.len(),
            count_open(wanted@) <= 6,
            items@.len() == k,
            all_items@.len() + count_open(wanted@.subrange(0, k as int)) == 6,
            forall|m: int| 0 <= m < k && wanted@[m] is Some ==> items@[m] == wanted@[m]->0,
            forall|a: int, b: int| 0 <= a < b < all_items@.len() ==> all_items@[a] != all_items@[b],
            forall|a: int, b: int|
                0 <= a < k && wanted@[a] is None && 0 <= b < all_items@.len() ==> items@[a] != all_items@[b],
            forall|a: int, b: int| 0 <= a < b < k && wanted@[a] is None && wanted@[b] is None ==> items@[a] != items@[b],
        decreases wanted@.len() - k,
    {
        proof {
            assert(wanted@.subrange(0, k + 1).drop_last() =~= wanted@.subrange(0, k as int));
            lemma_count_open_prefix(wanted@, k + 1);
        }
        let ghost before = items@;
        let ghost pool = all_items@;
        match wanted[k] {
            Some(item) => {
                items.push(item);
                proof {
                    assert forall|a: int, b: int|
                        0 <= a < k + 1 && wanted@[a] is None && 0 <= b < all_items@.len() implies items@[a] != all_items@[b] by {
                        assert(items@[a] == before[a]);
                    }
                    assert forall|a: int, b: int|
                        0 <= a < b < k + 1 && wanted@[a] is None && wanted@[b] is None implies items@[a] != items@[b] by {
                        assert(items@[a] == before[a]);
                        assert(items@[b] == before[b]);
                    }
                }
            },
            None => {
                let i = gen_index(rng, all_items.len());
                let item = all_items.swap_remove(i);
                items.push(item);
                proof {
                    assert(item == pool[i as int]);
                    assert forall|a: int, b: int| 0 <= a < b < all_items@.len() implies all_items@[a] != all_items@[b] by {
                        let pa = if a == i { pool.len() - 1 } else { a };
                        let pb = if b == i { pool.len() - 1 } else { b };
                        assert(all_items@[a] == pool[pa]);
                        assert(all_items@[b] == pool[pb]);
                    }
                    assert forall|a: int, b: int|
                        0 <= a < k + 1 && wanted@[a] is None && 0 <= b < all_items@.len() implies items@[a] != all_items@[b] by {
                        let pb = if b == i { pool.len() - 1 } else { b };
                        assert(all_items@[b] == pool[pb]);
                        if a < k {
                            assert(items@[a] == before[a]);
                        }
                    }
                    assert forall|a: int, b: int|
                        0 <= a < b < k + 1 && wanted@[a] is None && wanted@[b] is None implies items@[a] != items@[b] by {
                        assert(items@[a] == before[a]);
                        if b < k {
                            assert(items@[b] == before[b]);
                        }
                    }
                }
            },
        }
        k = k + 1;
    }
    items
}

/// The entries of a prefix left to chance are no more than all of them.
proof fn lemma_count_open_prefix(wanted: Seq<Option<Item>>, k: int)
    requires
        0 <= k <= wanted.len(),
    ensures
        count_open(wanted.subrange(0, k)) <= count_open(wanted),
    decreases wanted.len() - k,
{
    if k < wanted.len() {
        lemma_count_open_prefix(wanted, k + 1);
        assert(wanted.subrange(0, k + 1).drop_last() =~= wanted.subrange(0, k));
    } else {
        assert(wanted.subrange(0, k) =~= wanted);
    }
}

} // verus!
