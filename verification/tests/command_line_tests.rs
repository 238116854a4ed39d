use tangl::command_line::{
    currently_editing, find_named_arg, ArgSpec, CommandMap, CommandSpec, CompletionHelper,
    ValueAction,
};

fn arg(id: &str, short: Option<char>, long: Option<&str>, action: ValueAction) -> ArgSpec {
    ArgSpec { id: id.to_string(), short, long: long.map(|l| l.to_string()), action }
}

fn setup_test_command() -> CommandSpec {
    CommandSpec {
        name: "mytool".to_string(),
        options: vec![
            arg("option1", Some('a'), Some("option1"), ValueAction::One),
            arg("option2", Some('b'), Some("option2"), ValueAction::Flag),
        ],
        positionals: vec![
            arg("pos1", None, None, ValueAction::One),
            arg("pos2", None, None, ValueAction::Many),
        ],
        arguments: vec![
            arg("option1", Some('a'), Some("option1"), ValueAction::One),
            arg("option2", Some('b'), Some("option2"), ValueAction::Flag),
        ],
        help_subcommand: true,
        help_flag: true,
    }
}

fn words(list: &[&str]) -> Vec<String> {
    list.iter().map(|w| w.to_string()).collect()
}

#[test]
fn test_currently_editing_empty() {
    let cmd = setup_test_command();
    let helper = CompletionHelper::new(&cmd, words(&["mytool"]));
    assert_eq!(helper.currently_editing(), None);
}

#[test]
fn completion_test_currently_editing_one_option() {
    let cmd = setup_test_command();
    let helper = CompletionHelper::new(&cmd, words(&["mytool", "--option1", ""]));
    assert_eq!(helper.currently_editing(), Some("option1".to_string()));
}

#[test]
fn completion_test_currently_editing_one_option_one_positional() {
    let cmd = setup_test_command();
    let helper = CompletionHelper::new(&cmd, words(&["mytool", "--option1", "abc", ""]));
    assert_eq!(helper.currently_editing(), Some("pos1".to_string()));
}

#[test]
fn completion_test_currently_editing_one_positional() {
    let cmd = setup_test_command();
    let helper = CompletionHelper::new(&cmd, words(&["mytool", "abc"]));
    assert_eq!(helper.currently_editing(), Some("pos1".to_string()));
}

#[test]
fn completion_test_currently_editing_append() {
    let cmd = setup_test_command();
    let helper = CompletionHelper::new(&cmd, words(&["mytool", "abc", "a", "b", "c", "d"]));
    assert_eq!(helper.currently_editing(), Some("pos2".to_string()));
}

#[test]
fn completion_test_currently_boolean() {
    let cmd = setup_test_command();
    let helper = CompletionHelper::new(&cmd, words(&["mytool", "-b", ""]));
    assert_eq!(helper.currently_editing(), Some("pos1".to_string()));
    assert_eq!(helper.get_appendix().len(), 3);
}

#[test]
fn test_currently_editing_emtpy() {
    let cmd = setup_test_command();
    let appendix = words(&["mytool"]);
    assert_eq!(currently_editing(&cmd, &appendix), None);
}

#[test]
fn util_test_currently_editing_one_option() {
    let cmd = setup_test_command();
    let appendix = words(&["mytool", "--option1", ""]);
    assert_eq!(currently_editing(&cmd, &appendix), Some("option1".to_string()));
}

#[test]
fn util_test_currently_editing_one_option_one_positional() {
    let cmd = setup_test_command();
    let appendix = words(&["mytool", "--option1", "abc", ""]);
    assert_eq!(currently_editing(&cmd, &appendix), Some("pos1".to_string()));
}

#[test]
fn util_test_currently_editing_one_positional() {
    let cmd = setup_test_command();
    let appendix = words(&["mytool", "abc"]);
    assert_eq!(currently_editing(&cmd, &appendix), Some("pos1".to_string()));
}

#[test]
fn util_test_currently_editing_append() {
    let cmd = setup_test_command();
    let appendix = words(&["mytool", "abc", "a", "b", "c", "d"]);
    assert_eq!(currently_editing(&cmd, &appendix), Some("pos2".to_string()));
}

#[test]
fn util_test_currently_boolean() {
    let cmd = setup_test_command();
    let appendix = words(&["mytool", "-b", ""]);
    assert_eq!(currently_editing(&cmd, &appendix), Some("pos1".to_string()));
}

#[test]
fn edge_cases_of_the_edited_argument() {
    let cmd = setup_test_command();
    assert_eq!(currently_editing(&cmd, &Vec::new()), None);
    assert_eq!(currently_editing(&cmd, &words(&["mytool", "-a"])), None);
    assert_eq!(currently_editing(&cmd, &words(&["mytool", "-a", "x"])), Some("option1".to_string()));
    assert_eq!(find_named_arg(&cmd.options, "--option2"), Some(1));
    assert_eq!(find_named_arg(&cmd.options, "-c"), None);
    let mut many = setup_test_command();
    many.options[0].action = ValueAction::Many;
    assert_eq!(
        currently_editing(&many, &words(&["mytool", "-a", "x", "y"])),
        Some("option1".to_string())
    );
    let mut none = setup_test_command();
    none.positionals.clear();
    assert_eq!(currently_editing(&none, &words(&["mytool", "x"])), None);
}

fn command(name: &str, children: Vec<CommandMap>) -> CommandMap {
    let spec = CommandSpec {
        name: name.to_string(),
        options: Vec::new(),
        positionals: Vec::new(),
        arguments: vec![arg("show_tags", None, Some("show-tags"), ValueAction::Flag), arg(
            "delete",
            Some('D'),
            None,
            ValueAction::One,
        )],
        help_subcommand: name == "tangl",
        help_flag: name != "status",
    };
    CommandMap::new(spec, children)
}

fn setup_commands() -> CommandMap {
    command(
        "tangl",
        vec![
            command("status", Vec::new()),
            command("tree", Vec::new()),
            command("feature", vec![command("sub", Vec::new())]),
            command("__completion", Vec::new()),
            command("hello", Vec::new()),
        ],
    )
}

#[test]
fn the_words_lead_to_the_deepest_command() {
    let root = setup_commands();
    let found = |list: &[&str]| {
        root.find_last_child_recursive(&words(list)).map(|c| c.get_command().name.clone())
    };
    assert_eq!(found(&["tangl"]), Some("tangl".to_string()));
    assert_eq!(found(&["tangl", "feature"]), Some("feature".to_string()));
    assert_eq!(found(&["tangl", "feature", "sub", "x"]), Some("sub".to_string()));
    assert_eq!(found(&["tangl", "fea"]), Some("tangl".to_string()));
    assert_eq!(found(&["other", "feature"]), None);
    assert_eq!(found(&[]), None);
    assert_eq!(root.find_last_child_path(&words(&["tangl", "feature", "sub", "x"])), Some(vec![2, 0]));
    assert_eq!(root.find_last_child_path(&words(&["tangl", "fea"])), Some(vec![]));
    assert_eq!(root.find_last_child_path(&words(&["other"])), None);
    assert_eq!(root.find_child_index("hello"), Some(4));
    assert_eq!(root.find_child("tree").unwrap().get_command().name, "tree");
    assert!(root.find_child("tr").is_none());
    assert_eq!(root.find_children_by_prefix("t").len(), 1);
    assert_eq!(root.find_children_by_prefix("").len(), 5);
    assert_eq!(root.get_children().len(), 5);
}

#[test]
fn subcommands_and_flags_are_offered() {
    let root = setup_commands();
    assert_eq!(root.completion_words(&words(&["tangl", ""])), vec![
        "status", "tree", "feature", "hello", "help"
    ]);
    assert_eq!(root.completion_words(&words(&["tangl", "he"])), vec!["hello", "help"]);
    assert_eq!(root.completion_words(&words(&["tangl", "_"])), Vec::<String>::new());
    assert_eq!(root.completion_words(&words(&["tangl", "feature", "-"])), vec![
        "--show-tags", "-D", "-h", "--help"
    ]);
    assert_eq!(root.completion_words(&words(&["tangl", "feature", "--"])), vec![
        "--show-tags", "--help"
    ]);
    assert_eq!(root.completion_words(&words(&["tangl", "status", "-"])), vec!["--show-tags", "-D"]);
    assert_eq!(root.completion_words(&words(&["tangl", "feature", "s"])), vec!["sub"]);
    assert!(root.completion_words(&words(&["git", "x"])).is_empty());
    assert!(root.completion_words(&Vec::new()).is_empty());
    assert_eq!(root.find_child("feature").unwrap().flags_for("-D"), vec!["-D"]);
    assert_eq!(root.subcommands_for("st"), vec!["status"]);
}
