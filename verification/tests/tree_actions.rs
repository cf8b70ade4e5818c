use rand::rngs::StdRng;
use rand::SeedableRng;
use tunics_algo::event_tree::Action;
use tunics_algo::event_tree::Transform;
use tunics_algo::event_tree::Tree;

#[derive(Clone, Copy, Debug, PartialEq)]
struct Step(u8);

#[derive(Clone, Copy)]
struct Skip;

impl Transform<Step> for Skip {
    fn apply(&self, _rng: &mut StdRng, mut tree: Tree<Step>) -> Tree<Step> {
        tree.skip_feature();
        tree
    }
}

fn leaf() -> Tree<Step> {
    Tree::Branch(Vec::new())
}

fn top(t: &Tree<Step>) -> Option<u8> {
    match t {
        Tree::Feature(Step(k), _) => Some(*k),
        Tree::Branch(_) => None,
    }
}

#[test]
fn new_goes_beside() {
    let mut rng = StdRng::seed_from_u64(1);
    let t = Action::<Step, Skip>::New(Step(1)).apply(&mut rng, leaf());
    let t = Action::<Step, Skip>::New(Step(2)).apply(&mut rng, t);
    match &t {
        Tree::Branch(nodes) => {
            assert_eq!(2, nodes.len());
            assert_eq!(Some(2), top(&nodes[1]));
        }
        _ => panic!("expected a branch"),
    }
}

#[test]
fn prepend_any_goes_in_front_of_one() {
    for seed in 0..10u64 {
        let mut rng = StdRng::seed_from_u64(seed);
        let t = Tree::Branch(vec![leaf(), leaf(), leaf()]);
        let t = Action::<Step, Skip>::PrependAny(Step(5)).apply(&mut rng, t);
        match &t {
            Tree::Branch(nodes) => {
                assert_eq!(3, nodes.len());
                assert_eq!(1, nodes.iter().filter(|n| top(n) == Some(5)).count());
            }
            _ => panic!("expected a branch"),
        }
    }
}

#[test]
fn prepend_each_and_grouped() {
    let mut rng = StdRng::seed_from_u64(2);
    let t = Tree::Branch(vec![leaf(), leaf()]);
    let t = Action::<Step, Skip>::PrependEach(Step(3)).apply(&mut rng, t);
    match &t {
        Tree::Branch(nodes) => assert!(nodes.iter().all(|n| top(n) == Some(3))),
        _ => panic!("expected a branch"),
    }
    let t = Action::<Step, Skip>::PrependGrouped(Step(4)).apply(&mut rng, t);
    assert_eq!(Some(4), top(&t));
    let t = Action::<Step, Skip>::TransformEach(Skip).apply(&mut rng, t);
    assert!(matches!(t, Tree::Branch(_)));
}
