use tunics_algo::build_plan::BuildPlan;
use tunics_algo::build_plan::Index;
use tunics_algo::build_plan::TraversalSelector;
use tunics_algo::feature::Op;

struct First;

impl TraversalSelector for First {
    fn select_traversal(&mut self, open: &[Index]) -> Index {
        open[0]
    }
}

struct Last;

impl TraversalSelector for Last {
    fn select_traversal(&mut self, open: &[Index]) -> Index {
        open[open.len() - 1]
    }
}

fn chain() -> BuildPlan<u32> {
    let mut plan = BuildPlan::new();
    let a = plan.vertex(Op::New(10));
    let b = plan.vertex(Op::PrependEach(11));
    let c = plan.vertex(Op::PrependOne(12));
    plan.arc(b, a);
    plan.arc(c, b);
    plan
}

fn label(op: &Op<u32>) -> u32 {
    match op {
        Op::New(x) | Op::PrependOne(x) | Op::PrependEach(x) | Op::PrependGrouped(x) => *x,
    }
}

#[test]
fn vertex_numbers_steps_in_order() {
    let mut plan: BuildPlan<u32> = BuildPlan::new();
    assert_eq!(Index(0), plan.vertex(Op::New(1)));
    assert_eq!(Index(1), plan.vertex(Op::New(2)));
    assert_eq!(2, plan.steps().len());
    assert_eq!(vec![Index(0), Index(1)], plan.indices());
    assert_eq!(Some(2), plan.get(&Index(1)).map(|op| label(&op)));
    assert!(plan.get(&Index(2)).is_none());
}

#[test]
fn index_finds_first_equal_step() {
    let mut plan: BuildPlan<u32> = BuildPlan::default();
    plan.vertex(Op::New(1));
    plan.vertex(Op::PrependEach(1));
    plan.vertex(Op::PrependEach(1));
    assert_eq!(Some(Index(1)), plan.index(Op::PrependEach(1)));
    assert_eq!(None, plan.index(Op::PrependOne(1)));
}

#[test]
fn arcs_are_kept_sorted_from_both_ends() {
    let mut plan: BuildPlan<u32> = BuildPlan::new();
    for k in 0..4 {
        plan.vertex(Op::New(k));
    }
    plan.arc(Index(0), Index(3));
    plan.arc(Index(0), Index(1));
    plan.arc(Index(0), Index(3));
    plan.arc(Index(2), Index(1));
    assert_eq!(vec![Index(1), Index(3)], plan.outgoing(Index(0)));
    assert_eq!(vec![Index(0), Index(2)], plan.incoming(Index(1)));
    assert_eq!(Vec::<Index>::new(), plan.outgoing(Index(3)));
    assert_eq!(Vec::<Index>::new(), plan.incoming(Index(7)));
}

#[test]
fn sorted_puts_targets_first() {
    let plan = chain();
    assert_eq!(vec![Index(0), Index(1), Index(2)], plan.sorted());
}

#[test]
fn sorted_lists_reached_positions_past_the_steps() {
    let mut plan: BuildPlan<u32> = BuildPlan::new();
    plan.vertex(Op::New(0));
    plan.arc(Index(0), Index(3));
    assert_eq!(vec![Index(3), Index(0)], plan.sorted());
}

#[test]
fn reachable_counts_count_the_steps_that_lead_to_each() {
    let plan = chain();
    assert_eq!(vec![3, 2, 1], plan.reachable_counts());
}

#[test]
fn build_sequence_closes_targets_first() {
    let plan = chain();
    let seq: Vec<u32> = plan.build_sequence(&mut First).iter().map(label).collect();
    assert_eq!(vec![10, 11, 12], seq);
}

#[test]
fn build_sequence_follows_the_selector() {
    let mut plan: BuildPlan<u32> = BuildPlan::new();
    for k in 0..3 {
        plan.vertex(Op::New(k));
    }
    plan.arc(Index(2), Index(0));
    let first: Vec<u32> = plan.build_sequence(&mut First).iter().map(label).collect();
    assert_eq!(vec![0, 1, 2], first);
    let last: Vec<u32> = plan.build_sequence(&mut Last).iter().map(label).collect();
    assert_eq!(vec![1, 0, 2], last);
}

#[test]
fn build_sequence_stops_before_a_position_that_is_no_step() {
    let mut plan: BuildPlan<u32> = BuildPlan::new();
    plan.vertex(Op::New(7));
    plan.arc(Index(3), Index(0));
    let seq: Vec<u32> = plan.build_sequence(&mut First).iter().map(label).collect();
    assert_eq!(vec![7], seq);
}

#[test]
fn cycles_are_found() {
    let plan = chain();
    assert!(plan.acyclic());
    assert_eq!(Some(plan.sorted()), plan.checked_sorted());
    let mut looped = chain();
    looped.arc(Index(0), Index(2));
    assert!(!looped.acyclic());
    assert_eq!(None, looped.checked_sorted());
}

#[test]
fn checked_counts_need_a_plain_graph() {
    let plan = chain();
    assert!(plan.arcs_join_steps());
    assert_eq!(Some(plan.reachable_counts()), plan.checked_reachable_counts());
    let mut dangling = chain();
    dangling.arc(Index(2), Index(5));
    assert!(!dangling.arcs_join_steps());
    assert_eq!(None, dangling.checked_reachable_counts());
}
