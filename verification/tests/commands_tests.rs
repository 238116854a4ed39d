use tangl::commands::{
    created_feature_message, derivation_commits, derive_paths, feature_completion_root,
    feature_completions, feature_path, feature_target, feature_tree, require_product,
};
use tangl::commit::Commit;
use tangl::error::CommandError;
use tangl::qualified_path::QualifiedPath;
use tangl::tree::TreeDataModel;

fn model() -> TreeDataModel {
    let mut model = TreeDataModel::new();
    for text in ["main", "main/feature/a", "main/feature/a/b", "main/product/p"] {
        model.insert_qualified_path(QualifiedPath::from(text)).unwrap();
    }
    model
}

#[test]
fn a_feature_is_created_under_an_area_or_a_feature() {
    let model = model();
    let feature = QualifiedPath::from("new");
    let at_area = model.get_node_path(&QualifiedPath::from("main")).unwrap().concretize();
    assert_eq!(feature_target(at_area, &feature).unwrap().to_string(), "main/feature/new");
    let at_feature = model.get_node_path(&QualifiedPath::from("main/feature/a")).unwrap().concretize();
    assert_eq!(feature_target(at_feature, &feature).unwrap().to_string(), "main/feature/a/new");
    let at_product = model.get_node_path(&QualifiedPath::from("main/product/p")).unwrap().concretize();
    let error = feature_target(at_product, &feature).unwrap_err();
    assert_eq!(
        error.to_string(),
        "Cannot create feature: Current branch is not a feature or area branch"
    );
    assert_eq!(
        created_feature_message(&QualifiedPath::from("main/feature/a/new")),
        "Created new feature feature/a/new"
    );
    assert_eq!(CommandError::new("x").to_string(), "x");
}

#[test]
fn paths_of_an_area() {
    let model = model();
    let area = model.get_area(&QualifiedPath::from("main")).unwrap();
    assert_eq!(feature_path(&area, &QualifiedPath::from("a/b")).to_string(), "main/feature/a/b");
    let (target, features) = derive_paths(&area, "store", &vec!["a".to_string(), "a/b".to_string()]);
    assert_eq!(target.to_string(), "main/product/store");
    assert_eq!(
        features.iter().map(|f| f.to_string()).collect::<Vec<_>>(),
        vec!["main/feature/a", "main/feature/a/b"]
    );
    assert_eq!(feature_tree(area, false).unwrap(), "feature\n└── a\n    └── b\n");
    let mut bare = TreeDataModel::new();
    bare.insert_qualified_path(QualifiedPath::from("solo")).unwrap();
    assert!(feature_tree(bare.get_area(&QualifiedPath::from("solo")).unwrap(), false).is_none());
}

#[test]
fn only_a_product_can_be_untied() {
    let model = model();
    let product = model.get_node_path(&QualifiedPath::from("main/product/p")).unwrap().concretize();
    assert_eq!(require_product(product).unwrap().get_qualified_path().to_string(), "main/product/p");
    let feature = model.get_node_path(&QualifiedPath::from("main/feature/a")).unwrap().concretize();
    assert_eq!(require_product(feature).err().unwrap().to_string(), "Not on product branch");
    let history = vec![
        Commit::new("1", "first"),
        Commit::new("2", "x DERIVATION FINISHED"),
        Commit::new("3", "derivation finished"),
        Commit::new("4", "DERIVATION FINISHED y"),
    ];
    let found = derivation_commits(&history);
    assert_eq!(found.iter().map(|c| c.hash().clone()).collect::<Vec<_>>(), vec!["2", "4"]);
}

#[test]
fn completion_of_features() {
    let model = model();
    let at_area = model.get_node_path(&QualifiedPath::from("main")).unwrap().concretize();
    let root = feature_completion_root(at_area).unwrap();
    assert_eq!(root.get_qualified_path().to_string(), "main/feature");
    let at_feature = model.get_node_path(&QualifiedPath::from("main/feature/a")).unwrap().concretize();
    assert_eq!(
        feature_completion_root(at_feature).unwrap().get_qualified_path().to_string(),
        "main/feature/a"
    );
    let at_product = model.get_node_path(&QualifiedPath::from("main/product/p")).unwrap().concretize();
    assert!(feature_completion_root(at_product).is_none());
    assert_eq!(
        feature_completions(
            &vec!["a".to_string(), "a/".to_string()],
            &vec!["b".to_string()]
        ),
        vec!["a/", "a/", "b"]
    );
}
