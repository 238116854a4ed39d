use tangl::node::NodeTypeInterface;
use tangl::node_path::{NodePath, NodePathType};
use tangl::node_type::{AnyNodeType, NodeType};
use tangl::qualified_path::QualifiedPath;
use tangl::tree::TreeDataModel;

fn scenario_model() -> TreeDataModel {
    let mut model = TreeDataModel::new();
    let lines = vec![
        "main".to_string(),
        "_main/feature/_root/feature1".to_string(),
        "_main/feature/_root/feature2".to_string(),
    ];
    model.insert_native_branches(&lines).unwrap();
    model
}

#[test]
fn scenario_resolve_and_has_branch() {
    let model = scenario_model();
    let path = QualifiedPath::from("main/feature/root/feature1");
    let resolved = model.get_node_path(&path).unwrap();
    assert_eq!(*resolved.get_node().get_type(), NodeType::Feature);
    assert!(matches!(resolved.concretize(), NodePathType::Feature(_)));
    assert!(!model.has_branch(&QualifiedPath::from("main/feature/root")));
    assert!(model.has_branch(&QualifiedPath::from("main")));
    assert!(model.has_branch(&path));
    assert_eq!(path.to_git_branch(), "_main/_feature/_root/feature1");
    assert!(QualifiedPath::from("_main/feature/_root/feature1".to_string()) == path);
    assert!(model.get_node_path(&QualifiedPath::from("main/feature/none")).is_none());
    assert!(model.get_node_path(&QualifiedPath::new()).is_none());
}

#[test]
fn scenario_delete_branch() {
    let mut model = scenario_model();
    let gone = QualifiedPath::from("main/feature/root/feature2");
    let kept = QualifiedPath::from("main/feature/root/feature1");
    model.remove_qualified_path(&gone);
    assert!(!model.has_branch(&gone));
    assert!(model.get_node_path(&gone).is_none());
    assert!(model.has_branch(&kept));
    assert!(model.get_node_path(&kept).is_some());
    assert_eq!(model.iter_qualified_paths_with_branches().len(), 2);
}

#[test]
fn deleting_a_branch_with_children_keeps_the_node() {
    let mut model = scenario_model();
    model.insert_qualified_path(QualifiedPath::from("main/feature/root")).unwrap();
    let root = QualifiedPath::from("main/feature/root");
    assert!(model.has_branch(&root));
    model.remove_qualified_path(&root);
    assert!(!model.has_branch(&root));
    let node = model.get_node_path(&root).unwrap();
    assert!(!node.get_node().get_metadata().has_branch());
    assert_eq!(node.get_node().iter_children().len(), 2);
}

#[test]
fn role_invariant_on_a_fresh_model() {
    let mut model = TreeDataModel::new();
    let error = model.insert_qualified_path(QualifiedPath::from("areaX/docs")).unwrap_err();
    assert_eq!(
        error.to_string(),
        "'docs' is no valid child of an area node. Valid childs include: feature, product"
    );
    assert!(model.iter_qualified_paths_with_branches().is_empty());
    assert!(model.get_node_path(&QualifiedPath::from("areaX")).is_none());
    model.insert_qualified_path(QualifiedPath::from("areaX/feature/a")).unwrap();
    model.insert_qualified_path(QualifiedPath::from("areaX/feature/a/b")).unwrap();
    let a = model.get_node_path(&QualifiedPath::from("areaX/feature/a")).unwrap();
    assert_eq!(*a.get_node().get_type(), NodeType::Feature);
    assert!(a.get_node().get_metadata().has_branch());
    let b = model.get_node_path(&QualifiedPath::from("areaX/feature/a/b")).unwrap();
    assert_eq!(*b.get_node().get_type(), NodeType::Feature);
    let root = model.get_node_path(&QualifiedPath::from("areaX/feature")).unwrap();
    assert_eq!(*root.get_node().get_type(), NodeType::FeatureRoot);
    assert!(!root.get_node().get_metadata().has_branch());
    assert!(model.check_qualified_path(&QualifiedPath::from("areaX/docs")).is_err());
    assert!(model.check_qualified_path(&QualifiedPath::from("areaY/product/p")).is_ok());
}

#[test]
fn inserting_a_line_twice_indexes_it_once() {
    let mut model = TreeDataModel::new();
    let lines = vec!["* _main/feature/a".to_string(), "  _main/feature/a".to_string()];
    model.insert_native_branches(&lines).unwrap();
    assert_eq!(model.iter_qualified_paths_with_branches().len(), 1);
    assert_eq!(model.get_qualified_paths_with_branches()[0].to_string(), "main/feature/a");
    let a = model.get_node_path(&QualifiedPath::from("main/feature/a")).unwrap();
    assert!(a.get_node().get_metadata().has_branch());
    assert_eq!(a.get_node().iter_children().len(), 0);
}

#[test]
fn replay_stops_at_the_first_rejected_line() {
    let mut model = TreeDataModel::new();
    let lines = vec![
        "main".to_string(),
        "".to_string(),
        "_main/docs".to_string(),
        "_main/feature/a".to_string(),
    ];
    assert!(model.insert_native_branches(&lines).is_err());
    assert!(model.has_branch(&QualifiedPath::from("main")));
    assert!(!model.has_branch(&QualifiedPath::from("main/feature/a")));
    assert_eq!(model.iter_qualified_paths_with_branches().len(), 1);
}

#[test]
fn node_paths_walk_the_tree() {
    let mut model = scenario_model();
    model.insert_qualified_path(QualifiedPath::from("main/product/shop")).unwrap();
    let area = model.get_area(&QualifiedPath::from("main/feature/root")).unwrap();
    assert_eq!(area.get_qualified_path().to_string(), "main");
    assert_eq!(area.get_path_to_feature_root().to_string(), "main/feature");
    assert_eq!(area.get_path_to_product_root().to_string(), "main/product");
    let features = model.get_area(&QualifiedPath::from("main")).unwrap().to_feature_root().unwrap();
    assert_eq!(features.get_qualified_path().to_string(), "main/feature");
    let texts: Vec<String> =
        features.get_child_paths_by_branch(true).iter().map(|p| p.to_string()).collect();
    assert_eq!(texts, vec!["root/feature1", "root/feature2"]);
    assert_eq!(features.iter_features_with_branches().len(), 2);
    assert_eq!(features.get_node().as_node_path().get_qualified_path().len(), 0);
    assert_eq!(*features.get_node().role(), NodeType::FeatureRoot);
    let texts: Vec<String> =
        features.get_child_paths_by_branch(false).iter().map(|p| p.to_string()).collect();
    assert_eq!(texts, vec!["root"]);
    assert_eq!(
        features.display_tree(false),
        "feature\n└── root\n    ├── feature1\n    └── feature2\n"
    );
    let products = model.get_area(&QualifiedPath::from("main")).unwrap().to_product_root().unwrap();
    assert_eq!(products.get_qualified_path().to_string(), "main/product");
    assert!(model.get_area(&QualifiedPath::from("other")).is_none());
    let deep = features.to(&QualifiedPath::from("root/feature1")).unwrap();
    assert_eq!(deep.get_qualified_path().to_string(), "main/feature/root/feature1");
    let back = deep.to_parent_area().unwrap();
    assert_eq!(back.get_qualified_path().to_string(), "main");
    assert!(matches!(back.to_any_type().concretize(), NodePathType::Area(_)));
    let missing = model
        .get_area(&QualifiedPath::from("main"))
        .unwrap()
        .to(&QualifiedPath::from("feature/none"));
    assert!(missing.is_none());
}

#[test]
fn an_area_without_roots_has_none() {
    let mut model = TreeDataModel::new();
    model.insert_qualified_path(QualifiedPath::from("solo")).unwrap();
    let area = model.get_area(&QualifiedPath::from("solo")).unwrap();
    assert!(area.to_feature_root().is_none());
    let area = model.get_area(&QualifiedPath::from("solo")).unwrap();
    assert!(area.to_product_root().is_none());
    let root_only = model.get_area(&QualifiedPath::from("solo")).unwrap().to_parent_area();
    assert!(root_only.is_some());
    assert_eq!(
        model.get_qualified_path_to_feature_root(&QualifiedPath::from("solo")).to_string(),
        "solo/feature"
    );
    assert_eq!(
        model.get_qualified_path_to_product_root(&QualifiedPath::from("solo")).to_string(),
        "solo/product"
    );
}

#[test]
fn tags_of_a_node() {
    let mut node = tangl::node::Node::new(
        "f",
        NodeType::Feature,
        tangl::node::NodeMetadata::default(),
    );
    node.insert_node_path(&QualifiedPath::from("v1"), tangl::node::NodeMetadata::default(), true)
        .unwrap();
    node.insert_node_path(&QualifiedPath::from("sub"), tangl::node::NodeMetadata::default(), false)
        .unwrap();
    node.insert_node_path(&QualifiedPath::from("v2"), tangl::node::NodeMetadata::default(), true)
        .unwrap();
    let path = NodePath::<AnyNodeType>::new(&node);
    let tags: Vec<String> = path.get_tags().iter().map(|p| p.to_string()).collect();
    assert_eq!(tags, vec!["v1", "v2"]);
    assert!(path.get_qualified_path().is_empty());
    assert!(NodePath::<AnyNodeType>::new(&node).to_parent_area().is_none());
    assert!(matches!(NodePath::<AnyNodeType>::new(&node).concretize(), NodePathType::Feature(_)));
}

#[test]
fn a_copy_of_the_model_is_its_own() {
    let model = scenario_model();
    let mut copy = model.clone();
    copy.remove_qualified_path(&QualifiedPath::from("main/feature/root/feature1"));
    assert!(model.has_branch(&QualifiedPath::from("main/feature/root/feature1")));
    assert!(!copy.has_branch(&QualifiedPath::from("main/feature/root/feature1")));
    assert!(copy.has_branch(&QualifiedPath::from("main/feature/root/feature2")));
    assert!(copy.get_node_path(&QualifiedPath::from("main/feature/root")).is_some());
}
