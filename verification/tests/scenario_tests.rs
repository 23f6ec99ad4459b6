//! End-to-end runs of the scheduler decision logic against a mock execution
//! collaborator: three targets, one destination pre-existing on disk.

use ghsync::backup::{
    backup_command, backup_outcome, repo_dir_path, split_owner_name, Aggregator, Status,
};

const TARGETS: [&str; 3] = ["a/repo1", "a/repo2", "b/repo3"];
const DEST: &str = "/tmp/x";

fn run_mock<F>(existing: &[&str], mut action: F) -> ghsync::backup::RunSummary
where
    F: FnMut(&str, &[String]) -> Result<String, String>,
{
    let mut agg = Aggregator::new();
    for (i, nwo) in TARGETS.iter().enumerate() {
        let (owner, name) = split_owner_name(nwo);
        let dir = repo_dir_path(DEST, &owner, &name);
        let exists = existing.iter().any(|e| {
            let (o, n) = split_owner_name(e);
            repo_dir_path(DEST, &o, &n) == dir
        });
        let cmd = backup_command(nwo, &dir, exists, false);
        let result = action(nwo, &cmd);
        let seq = agg.record(backup_outcome(nwo, exists, result));
        assert_eq!(seq, i);
    }
    agg.finalize()
}

#[test]
fn all_targets_succeed() {
    let summary = run_mock(&["a/repo1"], |_, _| Ok(String::new()));
    assert_eq!(summary.cloned, 2);
    assert_eq!(summary.updated, 1);
    assert_eq!(summary.failed.len(), 0);
    assert!(summary.all_succeeded());
    let exit_code = if summary.all_succeeded() { 0 } else { 1 };
    assert_eq!(exit_code, 0);
}

#[test]
fn one_target_fails_with_diagnostic() {
    let summary = run_mock(&["a/repo1"], |nwo, _| {
        if nwo == "b/repo3" {
            Err("network timeout".to_string())
        } else {
            Ok(String::new())
        }
    });
    assert_eq!(summary.failed.len(), 1);
    assert_eq!(summary.failed, vec!["b/repo3".to_string()]);
    assert!(!summary.all_succeeded());
    let exit_code = if summary.all_succeeded() { 0 } else { 1 };
    assert_eq!(exit_code, 1);
    let failed = summary
        .results
        .iter()
        .find(|r| matches!(r.status, Status::Failed))
        .unwrap();
    assert_eq!(failed.nwo, "b/repo3");
    assert_eq!(ghsync::backup::first_line(failed.error.as_ref().unwrap()), "network timeout");
}

#[test]
fn preexisting_target_is_updated_not_cloned() {
    let summary = run_mock(&["a/repo1"], |_, _| Ok(String::new()));
    for r in summary.results.iter() {
        if r.nwo == "a/repo1" {
            assert!(matches!(r.status, Status::Updated));
        } else {
            assert!(matches!(r.status, Status::Cloned));
        }
    }
}

#[test]
fn planned_commands_depend_on_destination_state() {
    let mut cmds: Vec<Vec<String>> = Vec::new();
    let summary = run_mock(&["a/repo1"], |_, cmd| {
        cmds.push(cmd.to_vec());
        Ok(String::new())
    });
    assert_eq!(summary.results.len(), 3);
    assert_eq!(cmds[0], vec!["git", "-C", "/tmp/x/a/repo1", "fetch", "--all"]);
    assert_eq!(cmds[1], vec!["gh", "repo", "clone", "a/repo2", "/tmp/x/a/repo2", "--"]);
    assert_eq!(cmds[2], vec!["gh", "repo", "clone", "b/repo3", "/tmp/x/b/repo3", "--"]);
}
