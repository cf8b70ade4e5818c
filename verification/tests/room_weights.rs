use tunics_algo::room::Forest;
use tunics_algo::room::Tree;

fn empty(exits: Vec<Tree<(), ()>>) -> Tree<(), ()> {
    Tree {
        entrance: None,
        contents: None,
        exits: Forest::from(exits),
    }
}

fn boundary(exits: Vec<Tree<(), ()>>) -> Tree<(), ()> {
    Tree {
        entrance: Some(()),
        contents: None,
        exits: Forest::from(exits),
    }
}

#[test]
fn test_weights() {
    assert_eq!((0, 0, 0), Forest::<(), ()>::new().weights());

    assert_eq!((1, 1, 0), empty(vec![]).weights());
    assert_eq!((1, 0, 1), boundary(vec![]).weights());

    assert_eq!((2, 2, 0), empty(vec![empty(vec![])]).weights());
    assert_eq!((2, 1, 1), empty(vec![boundary(vec![])]).weights());
    assert_eq!((2, 0, 2), boundary(vec![empty(vec![])]).weights());
    assert_eq!((2, 0, 2), boundary(vec![boundary(vec![])]).weights());

    assert_eq!((3, 3, 0), empty(vec![empty(vec![]), empty(vec![])]).weights());
    assert_eq!((3, 2, 1), empty(vec![empty(vec![]), boundary(vec![])]).weights());
    assert_eq!((3, 1, 0), empty(vec![boundary(vec![]), boundary(vec![])]).weights());
    assert_eq!((3, 0, 1), boundary(vec![boundary(vec![]), boundary(vec![])]).weights());
    assert_eq!((3, 0, 3), boundary(vec![empty(vec![]), empty(vec![])]).weights());
    assert_eq!((3, 0, 3), boundary(vec![empty(vec![]), boundary(vec![])]).weights());

    assert_eq!(
        (4, 4, 0),
        empty(vec![empty(vec![]), empty(vec![]), empty(vec![])]).weights()
    );
    assert_eq!(
        (4, 3, 1),
        empty(vec![empty(vec![]), empty(vec![]), boundary(vec![])]).weights()
    );
    assert_eq!(
        (4, 2, 0),
        empty(vec![empty(vec![]), boundary(vec![]), boundary(vec![])]).weights()
    );
    assert_eq!(
        (4, 0, 4),
        boundary(vec![empty(vec![]), empty(vec![]), empty(vec![])]).weights()
    );
    assert_eq!(
        (4, 0, 4),
        boundary(vec![empty(vec![]), empty(vec![]), boundary(vec![])]).weights()
    );
    assert_eq!(
        (4, 0, 2),
        boundary(vec![empty(vec![]), boundary(vec![]), boundary(vec![])]).weights()
    );
    assert_eq!(
        (4, 0, 1),
        boundary(vec![boundary(vec![]), boundary(vec![]), boundary(vec![])]).weights()
    );
}
