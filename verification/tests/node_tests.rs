use tangl::node::{Node, NodeMetadata, NodeTypeInterface};
use tangl::node_type::NodeType;
use tangl::qualified_path::QualifiedPath;

fn prepare_node() -> Node {
    let mut node = Node::new("root", NodeType::Feature, NodeMetadata::default());
    node.insert_node_path(&QualifiedPath::from("foo/f1"), NodeMetadata::default(), false)
        .unwrap();
    node.insert_node_path(&QualifiedPath::from("bar/b1"), NodeMetadata::default(), false)
        .unwrap();
    node
}

#[test]
fn test_get_qualified_paths_by() {
    let node = prepare_node();
    let result = node.get_qualified_paths_by(&QualifiedPath::new(), false);
    assert!(result.contains(&QualifiedPath::from("foo")));
    assert!(result.contains(&QualifiedPath::from("bar")));
    assert!(result.contains(&QualifiedPath::from("foo/f1")));
    assert!(result.contains(&QualifiedPath::from("bar/b1")));
}

#[test]
fn test_insert_path() {
    let mut node = Node::new("test", NodeType::Feature, NodeMetadata::default());
    node.insert_path(&QualifiedPath::from("foo/bar"), NodeMetadata::default()).unwrap();
    assert!(node.get_child("foo").unwrap().get_child("bar").is_some());
}

#[test]
fn paths_come_in_insertion_order_parents_first() {
    let node = prepare_node();
    let texts: Vec<String> =
        node.get_child_paths_by_branch(false).iter().map(|p| p.to_string()).collect();
    assert_eq!(texts, vec!["foo", "foo/f1", "bar", "bar/b1"]);
    assert!(node.get_child_paths_by_branch(true).is_empty());
}

#[test]
fn every_descendant_is_in_exactly_one_list() {
    let mut node = prepare_node();
    node.insert_path(&QualifiedPath::from("foo/f2/deep"), NodeMetadata::new(true)).unwrap();
    node.insert_path(&QualifiedPath::from("bar"), NodeMetadata::new(true)).unwrap();
    let with: Vec<String> =
        node.get_child_paths_by_branch(true).iter().map(|p| p.to_string()).collect();
    let without: Vec<String> =
        node.get_child_paths_by_branch(false).iter().map(|p| p.to_string()).collect();
    assert_eq!(with, vec!["foo/f2/deep", "bar"]);
    assert_eq!(without, vec!["foo", "foo/f1", "foo/f2", "bar/b1"]);
}

#[test]
fn an_area_takes_only_feature_and_product() {
    let mut root = Node::new("", NodeType::VirtualRoot, NodeMetadata::default());
    let error = root
        .insert_path(&QualifiedPath::from("areaX/docs"), NodeMetadata::new(true))
        .unwrap_err();
    assert_eq!(
        error.to_string(),
        "'docs' is no valid child of an area node. Valid childs include: feature, product"
    );
    assert!(root.get_child("areaX").is_none());
    assert!(root.insert_path(&QualifiedPath::from("areaX/features"), NodeMetadata::new(true)).is_err());
}

#[test]
fn roles_follow_the_parent() {
    let mut root = Node::new("", NodeType::VirtualRoot, NodeMetadata::default());
    root.insert_path(&QualifiedPath::from("areaX/feature/a"), NodeMetadata::new(true)).unwrap();
    root.insert_path(&QualifiedPath::from("areaX/feature/a/b"), NodeMetadata::new(true)).unwrap();
    root.insert_path(&QualifiedPath::from("areaX/product/p"), NodeMetadata::new(false)).unwrap();
    let area = root.get_child("areaX").unwrap();
    assert_eq!(*area.get_type(), NodeType::Area);
    assert!(!area.get_metadata().has_branch());
    let features = area.get_child("feature").unwrap();
    assert_eq!(*features.get_type(), NodeType::FeatureRoot);
    let a = features.get_child("a").unwrap();
    assert_eq!(*a.get_type(), NodeType::Feature);
    assert!(a.get_metadata().has_branch());
    let b = a.get_child("b").unwrap();
    assert_eq!(*b.get_type(), NodeType::Feature);
    assert!(b.get_metadata().has_branch());
    let products = area.get_child("product").unwrap();
    assert_eq!(*products.get_type(), NodeType::ProductRoot);
    assert_eq!(*products.get_child("p").unwrap().get_type(), NodeType::Product);
    assert_eq!(a.get_name(), "a");
    assert_eq!(a.as_qualified_path().to_string(), "a");
    assert_eq!(features.iter_children().len(), 1);
}

#[test]
fn inserting_again_updates_the_flag_only() {
    let mut node = prepare_node();
    node.insert_path(&QualifiedPath::from("foo"), NodeMetadata::new(true)).unwrap();
    assert!(node.get_child("foo").unwrap().get_metadata().has_branch());
    assert!(node.get_child("foo").unwrap().get_child("f1").is_some());
    assert_eq!(node.iter_children().len(), 2);
    node.insert_path(&QualifiedPath::new(), NodeMetadata::new(true)).unwrap();
    assert!(!node.get_metadata().has_branch());
}

#[test]
fn tags_are_leaves() {
    let mut node = Node::new("f", NodeType::Feature, NodeMetadata::default());
    node.insert_node_path(&QualifiedPath::from("v1"), NodeMetadata::default(), true).unwrap();
    assert_eq!(*node.get_child("v1").unwrap().get_type(), NodeType::Tag);
    let error = node
        .insert_node_path(&QualifiedPath::from("v1/x"), NodeMetadata::default(), false)
        .unwrap_err();
    assert_eq!(error.to_string(), "Tags cannot have children");
    assert!(node.insert_node_path(&QualifiedPath::from("v1/t"), NodeMetadata::default(), true).is_err());
    node.insert_node_path(&QualifiedPath::from("sub/v2"), NodeMetadata::default(), true).unwrap();
    assert_eq!(*node.get_child("sub").unwrap().get_type(), NodeType::Feature);
}

#[test]
fn display_tree_draws_children_by_name_and_hides_tags() {
    let mut node = prepare_node();
    node.insert_node_path(&QualifiedPath::from("foo/v1"), NodeMetadata::default(), true).unwrap();
    assert_eq!(
        node.display_tree(false),
        "root\n├── bar\n│   └── b1\n└── foo\n    └── f1\n"
    );
    let shown: Vec<String> =
        node.displayed_children(false).iter().map(|c| c.get_name().clone()).collect();
    assert_eq!(shown, vec!["bar", "foo"]);
    let foo = node.get_child("foo").unwrap();
    assert_eq!(foo.displayed_children(false).len(), 1);
    assert_eq!(foo.displayed_children(true).len(), 2);
    assert_eq!(
        node.display_tree(true),
        "root\n├── bar\n│   └── b1\n└── foo\n    ├── f1\n    └── v1\n"
    );
}
