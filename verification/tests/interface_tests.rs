use tangl::commit::Commit;
use tangl::error::{GitError, GitInterfaceError};
use tangl::git_interface::GitInterface;
use tangl::node_type::{ModelConstants, WrongNodeTypeError};
use tangl::qualified_path::QualifiedPath;

const LISTING: &str = "* main\n  _main/feature/_root/feature1\n  _main/feature/_root/feature2\n";

#[test]
fn the_model_is_built_from_the_listing() {
    let interface = GitInterface::new(LISTING).unwrap();
    let model = interface.get_model();
    assert_eq!(model.iter_qualified_paths_with_branches().len(), 3);
    assert!(model.has_branch(&QualifiedPath::from("main/feature/root/feature2")));
    assert!(!model.has_branch(&QualifiedPath::from("main/feature")));
    assert!(GitInterface::new("").unwrap().get_model().iter_qualified_paths_with_branches().is_empty());
    assert_eq!(
        interface.get_all_branches(LISTING),
        vec!["main", "_main/feature/_root/feature1", "_main/feature/_root/feature2", ""]
    );
    assert!(interface.clone().get_model().has_branch(&QualifiedPath::from("main")));
    assert!(matches!(GitInterface::new("_main/docs\n"), Err(GitError::WrongNodeType(_))));
}

#[test]
fn the_current_place() {
    let interface = GitInterface::new(LISTING).unwrap();
    assert_eq!(
        interface.get_current_qualified_path("_main/feature/_root/feature1\n").to_string(),
        "main/feature/root/feature1"
    );
    let node = interface.get_current_node_path("_main/feature/_root/feature1\n").unwrap();
    assert_eq!(node.get_qualified_path().to_string(), "main/feature/root/feature1");
    let area = interface.get_current_area("_main/feature/_root/feature1\n").unwrap();
    assert_eq!(area.get_qualified_path().to_string(), "main");
    assert!(interface.get_current_node_path("other\n").is_none());
    assert!(interface.get_current_area("").is_none());
}

#[test]
fn commands_of_the_tool() {
    let interface = GitInterface::new(LISTING).unwrap();
    let feature = QualifiedPath::from("main/feature/root/feature1");
    assert_eq!(interface.list_branches(), vec!["branch"]);
    assert_eq!(interface.show_current_branch(), vec!["branch", "--show-current"]);
    assert_eq!(interface.initialize_repo(), vec!["init", "--initial-branch=main"]);
    assert_eq!(interface.status(), vec!["status"]);
    assert_eq!(interface.abort_merge(), vec!["merge", "--abort"]);
    assert_eq!(
        interface.checkout(&feature).unwrap(),
        vec!["checkout", "_main/_feature/_root/feature1"]
    );
    let error = interface.checkout(&QualifiedPath::from("main/feature/root")).unwrap_err();
    assert_eq!(error.to_string(), "Cannot checkout branch main/feature/root: does not exist");
    assert!(interface.checkout(&QualifiedPath::new()).is_err());
    assert_eq!(interface.checkout_raw(&QualifiedPath::from("tmp")), vec!["checkout", "tmp"]);
    assert_eq!(interface.delete_branch(&feature), vec!["branch", "-D", "_main/_feature/_root/feature1"]);
    assert_eq!(
        interface.merge(&vec![feature, QualifiedPath::from("main")]),
        vec!["merge", "_main/_feature/_root/feature1", "main"]
    );
    assert_eq!(interface.create_branch_no_mut(&QualifiedPath::from("tmp")), vec!["branch", "tmp"]);
}

#[test]
fn creating_and_deleting_branches() {
    let mut interface = GitInterface::new(LISTING).unwrap();
    let product = QualifiedPath::from("main/product/shop");
    assert_eq!(interface.create_branch(&product).unwrap(), vec!["branch", "_main/_product/shop"]);
    assert!(!interface.get_model().has_branch(&product));
    let refused = interface.create_branch(&QualifiedPath::from("main/docs")).unwrap_err();
    assert!(matches!(refused, GitError::WrongNodeType(_)));
    let failed = interface.branch_created(product.clone(), false, "fatal: exists").unwrap_err();
    assert_eq!(failed.to_string(), "fatal: exists");
    assert!(!interface.get_model().has_branch(&product));
    interface.branch_created(product.clone(), true, "").unwrap();
    assert!(interface.get_model().has_branch(&product));
    assert!(interface.branch_created(QualifiedPath::from("main/docs"), true, "").is_err());
    interface.branch_deleted(&product);
    assert!(!interface.get_model().has_branch(&product));
    interface.update_complete_model("_main/product/store").unwrap();
    assert!(interface.get_model().has_branch(&QualifiedPath::from("main/product/store")));
}

#[test]
fn errors_and_constants() {
    let error = GitInterfaceError::new("went wrong");
    assert_eq!(error.to_string(), "went wrong");
    let wrapped = GitError::from(error);
    assert!(matches!(wrapped, GitError::GitInterface(_)));
    assert_eq!(wrapped.to_string(), "went wrong");
    assert_eq!(wrapped.duplicate().to_string(), "went wrong");
    let role = GitError::from(WrongNodeTypeError::new("no child"));
    assert!(matches!(role, GitError::WrongNodeType(_)));
    assert_eq!(role.to_string(), "no child");
    assert_eq!(GitError::Io("no tool".to_string()).to_string(), "no tool");
    assert_eq!(ModelConstants::feature_prefix(), "feature");
    assert_eq!(ModelConstants::product_prefix(), "product");
    assert_eq!(ModelConstants::feature_path_prefix(), "feature/");
    assert_eq!(ModelConstants::product_path_prefix(), "product/");
    let commit = Commit::new("abc123", "DERIVATION FINISHED");
    assert_eq!(commit.hash(), "abc123");
    assert_eq!(commit.message(), "DERIVATION FINISHED");
}
