use tangl::node_type::NodeType;
use tangl::sym::{transform_to_printable, BranchData, BranchDataModel, SymNode, SymPath};

fn prepare_model() -> BranchDataModel {
    let mut model = BranchDataModel::new();
    model.insert_from_git_native_branch("* _main/feature/_root/feature1");
    model.insert_from_git_native_branch("  _main/feature/_root/feature2");
    model.insert_from_git_native_branch("  _main/feature/root");
    model.insert_from_git_native_branch("  main");
    model
}

#[test]
fn model_test_sym_node_add_children_from_qualified_path_empty() {
    let mut root = SymNode::new("root", None);
    root.insert_qualified_path("foo/bar", Some(BranchData::new("bar")));
    let foo = root.get_child("foo");
    assert!(foo.is_some());
    let bar = foo.unwrap().get_child("bar");
    assert!(bar.is_some());
    assert!(bar.unwrap().get_branch_data().is_some());
}

#[test]
fn model_test_sym_node_add_children_from_qualified_path_prefilled() {
    let mut root = SymNode::new("root", None);
    {
        root.insert_qualified_path("foo", None);
        let foo = root.get_child_mut("foo");
        assert!(foo.is_some());
    };
    root.insert_qualified_path("foo/bar", Some(BranchData::new("bar")));
    let bar = root.get_child("foo").unwrap().get_child("bar");
    assert!(bar.is_some());
    assert!(bar.unwrap().get_branch_data().is_some());
}

#[test]
fn node_test_sym_node_add_children_from_qualified_path_empty() {
    let mut root = SymNode::new("root", None);
    root.insert_qualified_path("foo/bar", Some(BranchData::new("bar")));
    let foo = root.get_child("foo");
    assert!(foo.is_some());
    assert!(foo.unwrap().get_branch_data().is_none());
    let bar = foo.unwrap().get_child("bar");
    assert!(bar.is_some());
    assert!(bar.unwrap().get_branch_data().is_some());
    assert_eq!(bar.unwrap().get_branch_data().unwrap().get_git_branch(), "bar");
}

#[test]
fn node_test_sym_node_add_children_from_qualified_path_prefilled() {
    let mut root = SymNode::new("root", None);
    {
        root.insert_qualified_path("foo", None);
        let foo = root.get_child_mut("foo");
        assert!(foo.is_some());
        foo.unwrap().update_branch_data(Some(BranchData::new("kept")));
    };
    root.insert_qualified_path("foo/bar", Some(BranchData::new("bar")));
    let bar = root.get_child("foo").unwrap().get_child("bar");
    assert!(bar.is_some());
    assert!(bar.unwrap().get_branch_data().is_some());
    assert_eq!(
        root.get_child("foo").unwrap().get_branch_data().unwrap().get_git_branch(),
        "kept"
    );
    assert_eq!(root.iter_children_flat().len(), 1);
}

#[test]
fn test_branch_model_insert_branches() {
    let model = prepare_model();
    assert!(model.iter_all_qualified_paths().contains(&"main".to_string()));
    assert!(model.iter_all_qualified_paths().contains(&"main/feature/root".to_string()));
    assert!(model
        .iter_all_qualified_paths()
        .contains(&"main/feature/root/feature1".to_string()));
    assert!(model
        .iter_all_qualified_paths()
        .contains(&"main/feature/root/feature2".to_string()));
    assert!(model.has_qualified_path("main/feature/root"));
    assert!(!model.has_qualified_path("main/feature"));
    assert_eq!(model.get_all_qualified_paths().len(), 4);
}

#[test]
fn test_branch_model_get_git_branch() {
    let model = prepare_model();
    assert_eq!(model.get_git_branch("main").unwrap(), "main");
    assert_eq!(model.get_git_branch("main/feature/root").unwrap(), "_main/feature/root");
    assert_eq!(
        model.get_git_branch("main/feature/root/feature1").unwrap(),
        "_main/feature/_root/feature1"
    );
    assert_eq!(
        model.get_git_branch("main/feature/root/feature2").unwrap(),
        "_main/feature/_root/feature2"
    );
    assert!(model.get_git_branch("main/feature").is_none());
    assert!(model.get_git_branch("main/product").is_none());
}

#[test]
fn test_sym_path_qualified_name() {
    let model = prepare_model();
    let path = model.get_global_root().get_path("main/feature/root/feature1").unwrap();
    assert_eq!(path.get_qualified_path(), "main/feature/root/feature1");
    assert_eq!(path.get_first().unwrap().get_name(), "main");
    assert_eq!(path.get_last().unwrap().get_name(), "feature1");
    assert!(model.get_global_root().get_path("main/none").is_none());
    let empty = SymPath::new(Vec::new());
    assert!(empty.get_last().is_none());
    assert_eq!(empty.get_qualified_path(), "");
}

#[test]
fn inserting_a_line_twice_lists_it_once() {
    let mut model = prepare_model();
    model.insert_from_git_native_branch("  main");
    model.insert_from_git_native_branch("* _main/feature/_root/feature1");
    assert_eq!(model.iter_all_qualified_paths().len(), 4);
    assert_eq!(model.get_global_root().iter_children_flat().len(), 1);
}

#[test]
fn roots_of_an_area() {
    let mut model = prepare_model();
    model.insert_from_git_native_branch("_main/product/shop");
    assert_eq!(model.get_feature_root_of("main").unwrap().get_name(), "feature");
    assert_eq!(model.get_product_root_of("main").unwrap().get_name(), "product");
    assert!(model.get_feature_root_of("other").is_none());
    assert!(model.get_feature_root().is_none());
    assert!(model.get_product_root().is_none());
    assert_eq!(
        model.iter_all_features_with_branches_of("main"),
        vec![
            "main/feature/root/feature1",
            "main/feature/root/feature2",
            "main/feature/root"
        ]
    );
}

#[test]
fn branch_types_and_prefixes() {
    let model = BranchDataModel::new();
    assert_eq!(BranchDataModel::feature_path_prefix(), "feature/");
    assert_eq!(BranchDataModel::product_path_prefix(), "product/");
    assert_eq!(model.branch_type("feature/a"), Some(NodeType::Feature));
    assert_eq!(model.branch_type("product/a"), Some(NodeType::Product));
    assert_eq!(model.branch_type("features"), None);
    assert_eq!(model.strip_branch_type("feature/a/feature/b"), "a/b");
    assert_eq!(model.strip_branch_type("product/p"), "p");
    assert_eq!(model.strip_branch_type("main/feature/a"), "main/feature/a");
    assert_eq!(model.transform_to_qualified_path("  * _a/_b/c "), " a/b/c");
    assert_eq!(model.transform_to_qualified_paths("*_a/b"), "a/b");
}

#[test]
fn add_child_appends_whatever_the_name() {
    let mut root = SymNode::new("root", None);
    root.add_child(SymNode::new("a", None));
    root.add_child(SymNode::new("a", Some(BranchData::new("second"))));
    assert_eq!(root.iter_children_flat().len(), 2);
    assert!(root.get_child("a").unwrap().get_branch_data().is_none());
}

#[test]
fn short_names_of_features() {
    let mut model = BranchDataModel::new();
    model.insert_from_git_native_branch("feature/_a/x");
    model.insert_from_git_native_branch("feature/_b/x");
    model.insert_from_git_native_branch("feature/_a/y");
    model.insert_from_git_native_branch("product/z");
    assert_eq!(model.get_short_feature_names(), vec!["y"]);
    assert_eq!(model.get_long_name_from_short("y").unwrap(), "feature/a/y");
    assert!(model.get_long_name_from_short("x").is_none());
    assert!(model.get_long_name_from_short("z").is_none());
    assert_eq!(model.expand_from_short("feature/a/x").unwrap(), "feature/a/x");
    assert_eq!(model.expand_from_short("feature/y").unwrap(), "feature/a/y");
    assert_eq!(model.expand_from_short("y").unwrap(), "feature/a/y");
    assert!(model.expand_from_short("x").is_none());
    assert_eq!(model.get_feature_root().unwrap().get_name(), "feature");
    assert_eq!(model.get_product_root().unwrap().get_name(), "product");
}

#[test]
fn printable_trees_keep_the_order_of_the_children() {
    let model = prepare_model();
    let trees = transform_to_printable(model.get_feature_root_of("main").unwrap());
    assert_eq!(trees, vec!["root\n├── feature1\n└── feature2\n"]);
    let all = transform_to_printable(model.get_global_root());
    assert_eq!(
        all,
        vec!["main\n└── feature\n    └── root\n        ├── feature1\n        └── feature2\n"]
    );
}
