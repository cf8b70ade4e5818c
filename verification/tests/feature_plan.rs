use tunics_algo::feature::FeaturePlan;

fn leaf() -> FeaturePlan<()> {
    FeaturePlan::Branch(Vec::new())
}

fn feature(feature_plan: FeaturePlan<()>) -> FeaturePlan<()> {
    FeaturePlan::Feature((), Box::new(feature_plan))
}

fn branch1(node: FeaturePlan<()>) -> FeaturePlan<()> {
    FeaturePlan::Branch(vec![node])
}

fn branch2(node1: FeaturePlan<()>, node2: FeaturePlan<()>) -> FeaturePlan<()> {
    FeaturePlan::Branch(vec![node1, node2])
}

#[test]
fn feature_test_max_depth() {
    assert_eq!(1, leaf().max_depth());
    assert_eq!(2, branch1(leaf()).max_depth());
    assert_eq!(2, branch2(leaf(), leaf()).max_depth());
    assert_eq!(3, branch1(branch1(leaf())).max_depth());
    assert_eq!(2, feature(leaf()).max_depth());
    assert_eq!(3, feature(feature(leaf())).max_depth());

    assert_eq!(
        7,
        branch2(
            feature(leaf()),
            feature(branch2(
                feature(feature(feature(leaf()))),
                feature(feature(feature(leaf()))),
            )),
        )
        .max_depth()
    );
}
