use tunics_algo::build_plan::Index;
use tunics_algo::outline::Outline;
use rand::rngs::StdRng;
use rand::SeedableRng;

fn diamond() -> Outline<&'static str> {
    let mut outline = Outline::new();
    let a = outline.node("a");
    let b = outline.node("b");
    let c = outline.node("c");
    let d = outline.node("d");
    outline.dep(b, a);
    outline.dep(c, a);
    outline.dep(d, b);
    outline.dep(d, c);
    outline
}

#[test]
fn outline_nodes_and_deps() {
    let outline = diamond();
    assert_eq!(vec!["a", "b", "c", "d"], outline.nodes().to_vec());
    assert_eq!(vec![Index(1), Index(2)], outline.deps(Index(3)));
    assert_eq!(vec![Index(1), Index(2)], outline.rev_deps(Index(0)));
    assert_eq!(Some("c"), outline.get(&Index(2)));
    assert_eq!(Some(Index(3)), outline.index("d"));
    assert_eq!(4, outline.indices().len());
}

#[test]
fn outline_sorted_and_counts() {
    let outline = diamond();
    assert_eq!(vec![Index(0), Index(1), Index(2), Index(3)], outline.sorted());
    assert_eq!(vec![4, 2, 2, 1], outline.reachable_counts());
}

#[test]
fn outline_action_iter_takes_each_action_once_after_its_deps() {
    let outline = diamond();
    for seed in 0..20u64 {
        let actions = outline.action_iter(StdRng::seed_from_u64(seed));
        assert_eq!(4, actions.len());
        assert_eq!("a", actions[0]);
        assert_eq!("d", actions[3]);
    }
}

#[test]
fn outline_cycles_are_found() {
    let outline = diamond();
    assert!(outline.acyclic());
    assert!(outline.checked_sorted().is_some());
    let mut looped = diamond();
    looped.dep(Index(0), Index(3));
    assert!(!looped.acyclic());
    assert!(looped.checked_sorted().is_none());
}

#[test]
fn outline_checked_counts() {
    let outline = diamond();
    assert!(outline.deps_join_nodes());
    assert_eq!(Some(outline.reachable_counts()), outline.checked_reachable_counts());
    let mut looped = diamond();
    looped.dep(Index(0), Index(3));
    assert_eq!(None, looped.checked_reachable_counts());
}
