use tunics_algo::feature::starts_before_prepends;
use tunics_algo::feature::FeaturePlan;
use tunics_algo::feature::JoinSelector;
use tunics_algo::feature::Op;
use tunics_algo::feature::PrependSelector;
use tunics_algo::room::Forest;
use tunics_algo::room::Tree;

struct JoinFirstTwo;

impl JoinSelector<u8> for JoinFirstTwo {
    fn select_join(&mut self, nodes: &[FeaturePlan<u8>]) -> Option<(usize, usize)> {
        if nodes.len() > 3 {
            Some((0, 1))
        } else {
            None
        }
    }
}

struct PrependLast;

impl PrependSelector<u8> for PrependLast {
    fn select_prepend(&mut self, nodes: &[FeaturePlan<u8>]) -> usize {
        nodes.len() - 1
    }
}

fn tops(plan: &FeaturePlan<u8>) -> Vec<Option<u8>> {
    match plan {
        FeaturePlan::Branch(nodes) => nodes
            .iter()
            .map(|n| match n {
                FeaturePlan::Feature(f, _) => Some(*f),
                FeaturePlan::Branch(_) => None,
            })
            .collect(),
        FeaturePlan::Feature(f, _) => vec![Some(*f)],
    }
}

#[test]
fn from_steps_builds_sub_plans_side_by_side() {
    let steps = vec![Op::New(1), Op::New(2), Op::New(3), Op::PrependOne(4)];
    let plan = FeaturePlan::from_steps(&mut JoinFirstTwo, &mut PrependLast, steps);
    assert_eq!(vec![Some(1), Some(2), Some(4)], tops(&plan));
}

#[test]
fn from_steps_joins_wide_branches() {
    let steps = vec![Op::New(1), Op::New(2), Op::New(3), Op::New(4)];
    let plan = FeaturePlan::from_steps(&mut JoinFirstTwo, &mut PrependLast, steps);
    // the second, then the first sub-plan are swapped out (each by the
    // last one), and their join is put last
    assert_eq!(vec![Some(3), Some(4), None], tops(&plan));
    assert_eq!(4, plan.max_depth());
}

#[test]
fn from_steps_prepends_each_and_grouped() {
    let steps = vec![Op::New(1), Op::New(2), Op::PrependEach(5), Op::PrependGrouped(6)];
    let plan = FeaturePlan::from_steps(&mut JoinFirstTwo, &mut PrependLast, steps);
    match &plan {
        FeaturePlan::Feature(6, next) => assert_eq!(vec![Some(5), Some(5)], tops(next)),
        _ => panic!("expected the grouped feature on top"),
    }
}

#[test]
fn prepends_need_a_start() {
    assert!(starts_before_prepends::<u8>(&[Op::New(1), Op::PrependOne(2)]));
    assert!(!starts_before_prepends::<u8>(&[Op::PrependEach(1), Op::PrependOne(2)]));
    assert!(starts_before_prepends::<u8>(&[]));
}

#[test]
fn join_merges_branches() {
    let a: FeaturePlan<u8> = FeaturePlan::new_feature(1);
    let b: FeaturePlan<u8> = FeaturePlan::Branch(vec![FeaturePlan::new_feature(2), FeaturePlan::new_feature(3)]);
    assert_eq!(vec![Some(2), Some(3), Some(1)], tops(&a.join(b)));
}

fn empty(exits: Vec<Tree<(), ()>>) -> Tree<(), ()> {
    Tree {
        entrance: None,
        contents: None,
        exits: Forest::from(exits),
    }
}

fn boundary(exits: Vec<Tree<(), ()>>) -> Tree<(), ()> {
    Tree {
        entrance: Some(()),
        contents: None,
        exits: Forest::from(exits),
    }
}

#[test]
fn splitting_a_forest_keeps_every_room() {
    let forest = || {
        Forest::from(vec![
            empty(vec![]),
            boundary(vec![empty(vec![])]),
            empty(vec![empty(vec![]), empty(vec![])]),
            boundary(vec![]),
            empty(vec![boundary(vec![])]),
        ])
    };
    let total = forest().weight();
    assert_eq!(9, total);
    let (a, b) = forest().split2();
    assert_eq!(5, a.into_iter().len() + b.into_iter().len());
    let (a, b) = forest().split2();
    assert_eq!(total, a.weight() + b.weight());
    let linear = |f: Forest<(), ()>| f.into_iter().iter().map(|t| t.linear_weight()).sum::<usize>();
    assert!(linear(b) <= linear(a));
    let (a, b, c) = forest().split3();
    assert_eq!(total, a.weight() + b.weight() + c.weight());
    let (a, b, c) = forest().split3();
    let (la, lb, lc) = (linear(a), linear(b), linear(c));
    assert!(la <= lc && lc <= lb);
    let (a, b, c) = forest().split3();
    assert_eq!(5, a.into_iter().len() + b.into_iter().len() + c.into_iter().len());
}

#[test]
fn popping_a_lone_room() {
    let forest = Forest::from(vec![empty(vec![empty(vec![])])]);
    match forest.pop_tree() {
        Ok((entrance, contents, rest)) => {
            assert_eq!(None, entrance);
            assert_eq!(None, contents);
            assert_eq!(1, rest.weight());
        }
        Err(_) => panic!("a lone room comes off"),
    }
    let forest = Forest::from(vec![boundary(vec![]), boundary(vec![])]);
    assert!(forest.pop_tree().is_err());
}

#[test]
fn sorting_by_weight_orders_the_rooms() {
    let mut forest = Forest::from(vec![
        empty(vec![empty(vec![]), empty(vec![])]),
        boundary(vec![]),
        empty(vec![empty(vec![])]),
        boundary(vec![empty(vec![])]),
    ]);
    forest.sort_by_weight();
    let weights: Vec<usize> = forest.into_iter().iter().map(|t| t.weight()).collect();
    // stable: the two rooms of weight 2 keep their order
    assert_eq!(vec![1, 2, 2, 3], weights);
}

struct JoinEnds {
    calls: usize,
}

impl JoinSelector<u8> for JoinEnds {
    fn select_join(&mut self, nodes: &[FeaturePlan<u8>]) -> Option<(usize, usize)> {
        self.calls += 1;
        assert_eq!(3, nodes.len());
        Some((0, 2))
    }
}

struct NeverPrepend;

impl PrependSelector<u8> for NeverPrepend {
    fn select_prepend(&mut self, _nodes: &[FeaturePlan<u8>]) -> usize {
        panic!("no step puts a feature in front of one sub-plan")
    }
}

#[test]
fn join_follows_the_selector() {
    let mut join = JoinEnds { calls: 0 };
    let mut prepend = NeverPrepend;
    let steps = vec![Op::New(1u8), Op::New(2), Op::New(3)];
    let plan = FeaturePlan::from_steps(&mut join, &mut prepend, steps);
    assert_eq!(1, join.calls);
    match &plan {
        FeaturePlan::Branch(nodes) => {
            assert_eq!(2, nodes.len());
            assert_eq!(vec![Some(2), None], tops(&plan));
            assert_eq!(vec![Some(3), Some(1)], tops(&nodes[1]));
        }
        _ => panic!("expected a branch"),
    }
}

#[test]
fn sorting_keeps_rooms_of_one_weight_in_order() {
    let mut forest = Forest::from(vec![
        empty(vec![empty(vec![])]),
        boundary(vec![]),
        boundary(vec![empty(vec![])]),
    ]);
    forest.sort_by_weight();
    let rooms = forest.into_iter();
    assert_eq!(Some(()), rooms[0].entrance);
    assert_eq!(None, rooms[1].entrance);
    assert_eq!(Some(()), rooms[2].entrance);
}

#[test]
fn splitting_keeps_the_parts_balanced() {
    let forest = || {
        Forest::from(vec![
            empty(vec![empty(vec![empty(vec![])])]),
            empty(vec![]),
            boundary(vec![]),
            empty(vec![empty(vec![])]),
            empty(vec![]),
        ])
    };
    let heaviest = forest().into_iter().iter().map(|t| t.linear_weight()).max().unwrap();
    assert_eq!(3, heaviest);
    let linear = |f: Forest<(), ()>| f.into_iter().iter().map(|t| t.linear_weight()).sum::<usize>();
    let (a, b) = forest().split2();
    let (la, lb) = (linear(a), linear(b));
    assert!(lb <= la && la <= lb + heaviest);
    let (a, b, c) = forest().split3();
    let (la, lb, lc) = (linear(a), linear(b), linear(c));
    assert!(la <= lc && lc <= lb && lb <= la + heaviest);
}

#[test]
fn popping_a_room_keeps_the_others() {
    let forest = Forest::from(vec![empty(vec![empty(vec![])]), empty(vec![])]);
    match forest.pop_tree() {
        Ok((entrance, contents, rest)) => {
            assert_eq!(None, entrance);
            assert_eq!(None, contents);
            let rest = rest.into_iter();
            assert_eq!(1, rest.len());
            assert_eq!(2, rest[0].weight());
        }
        Err(_) => panic!("a single room without a boundary comes off"),
    }
}
