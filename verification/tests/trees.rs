use bongo::utils::Name;
use bongo::utils::Identified;
use bongo::utils::TreeNode;

#[test]
fn tree_children_are_reached_by_name() {
    let leaf_a = TreeNode::new(Name::new("a"), vec![]);
    let leaf_b = TreeNode::new(Name::new("b"), vec![]);
    let root = TreeNode::new(
        Name::new("root"),
        vec![(Name::new("left"), leaf_a), (Name::new("right"), leaf_b)],
    );
    assert!(root.action().matches(&Name::new("root")));
    assert_eq!(root.fields().len(), 2);
    assert!(root.get(&Name::new("left")).unwrap().action().matches(&Name::new("a")));
    assert!(root.get(&Name::new("right")).unwrap().action().matches(&Name::new("b")));
    assert!(root.get(&Name::new("middle")).is_none());
}

#[test]
fn later_child_with_the_same_name_wins() {
    let root = TreeNode::new(
        Name::new("root"),
        vec![
            (Name::new("x"), TreeNode::new(Name::new("first"), vec![])),
            (Name::new("x"), TreeNode::new(Name::new("second"), vec![])),
        ],
    );
    assert!(root.get(&Name::new("x")).unwrap().action().matches(&Name::new("second")));
    assert_eq!(root.fields().len(), 1);
}

#[test]
fn a_name_given_twice_keeps_one_child_at_its_place() {
    let root = TreeNode::new(
        Name::new("root"),
        vec![
            (Name::new("x"), TreeNode::new(Name::new("first"), vec![])),
            (Name::new("y"), TreeNode::new(Name::new("second"), vec![])),
            (Name::new("x"), TreeNode::new(Name::new("third"), vec![])),
        ],
    );
    let fields = root.fields();
    assert_eq!(fields.len(), 2);
    assert!(fields[0].0.matches(&Name::new("x")));
    assert!(fields[0].1.action().matches(&Name::new("third")));
    assert!(fields[1].0.matches(&Name::new("y")));
    let copy = root.clone();
    assert_eq!(copy.fields().len(), 2);
    assert!(copy.get(&Name::new("x")).unwrap().action().matches(&Name::new("third")));
}

#[test]
fn children_stand_in_ascending_order_of_their_names() {
    let root = TreeNode::new(
        Name::new("root"),
        vec![
            (Name::new("pear"), TreeNode::new(Name::new("1"), vec![])),
            (Name::new("apple"), TreeNode::new(Name::new("2"), vec![])),
            (Name::new("fig"), TreeNode::new(Name::new("3"), vec![])),
            (Name::new("apple"), TreeNode::new(Name::new("4"), vec![])),
            (Name::new("app"), TreeNode::new(Name::new("5"), vec![])),
        ],
    );
    let names: Vec<String> = root.fields().iter().map(|(name, _)| name.str().to_string()).collect();
    assert_eq!(names, vec!["app", "apple", "fig", "pear"]);
    assert!(root.get(&Name::new("apple")).unwrap().action().matches(&Name::new("4")));
}

#[test]
fn duplicate_copies_the_whole_tree() {
    let root = TreeNode::new(
        Name::new("root"),
        vec![(
            Name::new("child"),
            TreeNode::new(
                Name::new("inner"),
                vec![(Name::new("leaf"), TreeNode::new(Name::new("end"), vec![]))],
            ),
        )],
    );
    let copy = root.duplicate();
    assert!(copy.action().matches(&Name::new("root")));
    let inner = copy.get(&Name::new("child")).unwrap();
    assert!(inner.action().matches(&Name::new("inner")));
    assert!(inner.get(&Name::new("leaf")).unwrap().action().matches(&Name::new("end")));
}
