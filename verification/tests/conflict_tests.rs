use tangl::clique::{
    build_edges, find_mergeable, get_max_clique, is_member, map_paths_to_id, max_clique_of,
    plan_derivation, position_of,
};
use tangl::conflict::{
    ConflictChecker, ConflictStatistic, ConflictStatistics, Probe, ProbePhase, ToolOutcome,
};
use tangl::error::{GitError, GitInterfaceError};
use tangl::qualified_path::QualifiedPath;

fn path(text: &str) -> QualifiedPath {
    QualifiedPath::from(text)
}

fn pair(l: &str, r: &str) -> (QualifiedPath, QualifiedPath) {
    (path(l), path(r))
}

fn run(probe: &mut Probe, outcomes: Vec<ToolOutcome>) -> Vec<String> {
    let mut commands = Vec::new();
    for outcome in outcomes {
        commands.push(probe.next_command().unwrap().join(" "));
        probe.advance(outcome);
    }
    commands
}

#[test]
fn clique_of_three_candidates_with_one_conflict() {
    let candidates = vec![path("m/feature/A"), path("m/feature/B"), path("m/feature/C")];
    let mut statistics = ConflictStatistics::new();
    statistics.push(ConflictStatistic::OK(pair("m/feature/A", "m/feature/B")));
    statistics.push(ConflictStatistic::OK(pair("m/feature/A", "m/feature/C")));
    statistics.push(ConflictStatistic::CONFLICT(pair("m/feature/B", "m/feature/C")));
    let plan = find_mergeable(&candidates, &statistics).unwrap();
    let mut clique = plan.clique.clone();
    clique.sort();
    assert!(clique == vec![0, 1] || clique == vec![0, 2]);
    assert_eq!(plan.merge.len(), 2);
    assert_eq!(plan.excluded.len(), 1);
    assert!(!plan.is_complete());
    assert_eq!(plan.merge[0].to_string(), "m/feature/A");
    assert_ne!(plan.merge[1].to_string(), plan.excluded[0].to_string());
}

#[test]
fn all_candidates_merge_where_no_pair_conflicts() {
    let candidates = vec![path("a"), path("b"), path("c")];
    let statistics = ConflictStatistics::from(vec![
        ConflictStatistic::OK(pair("a", "b")),
        ConflictStatistic::OK(pair("a", "c")),
        ConflictStatistic::OK(pair("b", "c")),
    ]);
    let plan = find_mergeable(&candidates, &statistics).unwrap();
    assert!(plan.is_complete());
    assert_eq!(plan.merge.len(), 3);
    let mut clique = plan.clique.clone();
    clique.sort();
    assert_eq!(clique, vec![0, 1, 2]);
}

#[test]
fn an_errored_probe_is_no_edge() {
    let candidates = vec![path("a"), path("b")];
    let mut statistics = ConflictStatistics::new();
    statistics.push(ConflictStatistic::ERROR(
        pair("a", "b"),
        GitError::GitInterface(GitInterfaceError::new("boom")),
    ));
    assert!(build_edges(&statistics, &candidates).is_empty());
    let plan = find_mergeable(&candidates, &statistics).unwrap();
    assert_eq!(plan.clique.len(), 1);
    assert_eq!(plan.excluded.len(), 1);
}

#[test]
fn edges_and_largest_clique() {
    let candidates = vec![path("a"), path("b"), path("c"), path("d")];
    let statistics = ConflictStatistics::from(vec![
        ConflictStatistic::OK(pair("a", "b")),
        ConflictStatistic::CONFLICT(pair("a", "c")),
        ConflictStatistic::OK(pair("c", "d")),
        ConflictStatistic::OK(pair("b", "unknown")),
        ConflictStatistic::OK(pair("d", "d")),
    ]);
    assert_eq!(build_edges(&statistics, &candidates), vec![(0, 1), (2, 3)]);
    assert_eq!(position_of(&candidates, &path("c")), Some(2));
    let ids = map_paths_to_id(&candidates);
    assert_eq!(ids.len(), 4);
    assert_eq!(ids[3].0, 3);
    assert_eq!(ids[3].1.to_string(), "d");
    assert!(is_member(&vec![3, 1], 1));
    assert!(!is_member(&vec![3, 1], 2));
    assert_eq!(position_of(&candidates, &path("x")), None);
    let mut best = max_clique_of(5, &vec![(0, 1), (0, 2), (1, 2), (2, 3)]);
    best.sort();
    assert_eq!(best, vec![0, 1, 2]);
    assert_eq!(max_clique_of(0, &Vec::new()), Vec::<usize>::new());
    assert_eq!(get_max_clique(&vec![vec![4], vec![2, 3], vec![0, 1], vec![]]), vec![2, 3]);
    assert_eq!(get_max_clique(&Vec::new()), Vec::<usize>::new());
    let plan = plan_derivation(&candidates, vec![3, 1]);
    assert_eq!(plan.merge.iter().map(|p| p.to_string()).collect::<Vec<_>>(), vec!["b", "d"]);
    assert_eq!(plan.excluded.iter().map(|p| p.to_string()).collect::<Vec<_>>(), vec!["a", "c"]);
}

#[test]
fn statistics_are_sorted_by_kind() {
    let statistics = ConflictStatistics::from(vec![
        ConflictStatistic::OK(pair("a", "b")),
        ConflictStatistic::CONFLICT(pair("a", "c")),
        ConflictStatistic::OK(pair("b", "c")),
        ConflictStatistic::ERROR(pair("c", "d"), GitError::Io("no tool".to_string())),
    ]);
    assert_eq!(statistics.n_ok(), 2);
    assert_eq!(statistics.n_conflict(), 1);
    assert_eq!(statistics.n_errors(), 1);
    let merged: Vec<String> = statistics.iter_ok().iter().map(|s| s.to_string()).collect();
    assert_eq!(merged, vec!["Merge a and b OK", "Merge b and c OK"]);
    assert_eq!(
        ConflictStatistic::CONFLICT(pair("x/y", "z")).to_string(),
        "Merge x/y and z CONFLICT"
    );
    let failed = ConflictStatistic::ERROR(pair("x", "z"), GitError::Io("gone".to_string()));
    assert_eq!(failed.to_string(), "Merge x and z ERROR");
    assert!(failed.has_conflict());
    assert_eq!(failed.branches().1.to_string(), "z");
}

#[test]
fn pairs_of_candidates() {
    let checker = ConflictChecker::new(path("main"));
    let candidates = vec![path("a"), path("b"), path("c"), path("d")];
    let pairs: Vec<String> = checker
        .check(&candidates)
        .iter()
        .map(|(l, r)| format!("{}-{}", l.to_string(), r.to_string()))
        .collect();
    assert_eq!(pairs, vec!["a-b", "a-c", "a-d", "b-c", "b-d", "c-d"]);
    assert!(checker.check(&vec![path("a")]).is_empty());
    assert!(!checker.check_two(path("a"), path("b")).is_finished());
}

#[test]
fn a_probe_of_branches_that_merge() {
    let checker = ConflictChecker::new(path("main"));
    let mut probe = checker.check_two(path("main/feature/a"), path("main/feature/b"));
    let commands = run(
        &mut probe,
        vec![
            ToolOutcome::Success,
            ToolOutcome::Success,
            ToolOutcome::Success,
            ToolOutcome::Success,
            ToolOutcome::Success,
        ],
    );
    assert_eq!(
        commands,
        vec![
            "branch tmp",
            "checkout tmp",
            "merge _main/_feature/a _main/_feature/b",
            "checkout main",
            "branch -D tmp"
        ]
    );
    assert!(probe.is_finished());
    assert!(probe.next_command().is_none());
    assert!(matches!(probe.result(), Some(ConflictStatistic::OK(_))));
}

#[test]
fn a_probe_of_branches_that_conflict_cleans_up() {
    let mut probe = Probe::new(path("main"), path("main/feature/a"), path("main/feature/b"));
    let commands = run(
        &mut probe,
        vec![
            ToolOutcome::Success,
            ToolOutcome::Success,
            ToolOutcome::Failure("CONFLICT (content)".to_string()),
            ToolOutcome::Success,
            ToolOutcome::Success,
            ToolOutcome::Success,
        ],
    );
    assert_eq!(commands[3], "merge --abort");
    assert_eq!(commands[4], "checkout main");
    assert_eq!(commands[5], "branch -D tmp");
    assert!(probe.is_finished());
    assert!(matches!(probe.result(), Some(ConflictStatistic::CONFLICT(_))));
}

#[test]
fn a_probe_that_meets_a_failure_is_an_error() {
    let mut probe = Probe::new(path("main"), path("a"), path("b"));
    assert!(probe.result().is_none());
    let mut probe = Probe::new(path("main"), path("a"), path("b"));
    run(&mut probe, vec![ToolOutcome::Failure("exists".to_string())]);
    assert!(probe.is_finished());
    match probe.result() {
        Some(ConflictStatistic::ERROR(_, error)) => assert_eq!(error.to_string(), "exists"),
        _ => panic!("an error was expected"),
    }
    let mut probe = Probe::new(path("main"), path("a"), path("b"));
    let commands = run(
        &mut probe,
        vec![
            ToolOutcome::Success,
            ToolOutcome::Unavailable("no git".to_string()),
            ToolOutcome::Success,
        ],
    );
    assert_eq!(commands[2], "branch -D tmp");
    match probe.result() {
        Some(ConflictStatistic::ERROR(_, error)) => {
            assert!(matches!(error, GitError::Io(_)));
            assert_eq!(error.to_string(), "no git");
        }
        _ => panic!("an error was expected"),
    }
    let mut probe = Probe::new(path("main"), path("a"), path("b"));
    run(
        &mut probe,
        vec![
            ToolOutcome::Success,
            ToolOutcome::Success,
            ToolOutcome::Success,
            ToolOutcome::Failure("cannot return".to_string()),
            ToolOutcome::Success,
        ],
    );
    assert!(matches!(probe.result(), Some(ConflictStatistic::ERROR(_, _))));
    let mut probe = Probe::new(path("main"), path("a"), path("b"));
    run(&mut probe, vec![ToolOutcome::Success, ToolOutcome::Success]);
    assert!(!probe.is_finished());
    assert_eq!(ProbePhase::Merge, ProbePhase::Merge);
}
