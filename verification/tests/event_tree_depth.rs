use tunics_algo::event_tree::Tree;

fn leaf() -> Tree<()> {
    Tree::Branch(Vec::new())
}

fn feature(tree: Tree<()>) -> Tree<()> {
    Tree::Feature((), Box::new(tree))
}

fn branch1(node: Tree<()>) -> Tree<()> {
    Tree::Branch(vec![node])
}

fn branch2(node1: Tree<()>, node2: Tree<()>) -> Tree<()> {
    Tree::Branch(vec![node1, node2])
}

#[test]
fn event_tree_test_max_depth() {
    assert_eq!(1, leaf().max_depth());
    assert_eq!(2, branch1(leaf()).max_depth());
    assert_eq!(2, branch2(leaf(), leaf()).max_depth());
    assert_eq!(3, branch1(branch1(leaf())).max_depth());
    assert_eq!(2, feature(leaf()).max_depth());
    assert_eq!(3, feature(feature(leaf())).max_depth());

    assert_eq!(
        7,
        branch2(
            feature(leaf()),
            feature(branch2(
                feature(feature(feature(leaf()))),
                feature(feature(feature(leaf()))),
            )),
        )
        .max_depth()
    );
}
