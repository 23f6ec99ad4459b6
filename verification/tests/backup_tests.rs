use ghsync::backup::{
    backup_command, backup_outcome, first_line, repo_dir_path, split_owner_name, Aggregator,
    Status,
};

#[test]
fn icons_match_statuses() {
    assert_eq!(Status::Cloned.icon(), "+");
    assert_eq!(Status::Updated.icon(), "~");
    assert_eq!(Status::Failed.icon(), "!");
}

#[test]
fn split_at_first_slash() {
    assert_eq!(split_owner_name("owner/name"), ("owner".to_string(), "name".to_string()));
    assert_eq!(split_owner_name("noslash"), ("".to_string(), "noslash".to_string()));
    assert_eq!(split_owner_name("a/b/c"), ("a".to_string(), "b/c".to_string()));
    assert_eq!(split_owner_name(""), ("".to_string(), "".to_string()));
}

#[test]
fn destination_path_joins_components() {
    assert_eq!(repo_dir_path("/tmp/x", "a", "repo1"), "/tmp/x/a/repo1");
    assert_eq!(repo_dir_path(".", "o", "n"), "./o/n");
}

#[test]
fn update_commands_for_existing_destination() {
    let mirror = backup_command("o/n", "/d/o/n", true, true);
    assert_eq!(mirror, vec!["git", "-C", "/d/o/n", "remote", "update"]);
    let regular = backup_command("o/n", "/d/o/n", true, false);
    assert_eq!(regular, vec!["git", "-C", "/d/o/n", "fetch", "--all"]);
}

#[test]
fn clone_commands_for_missing_destination() {
    let regular = backup_command("o/n", "/d/o/n", false, false);
    assert_eq!(regular, vec!["gh", "repo", "clone", "o/n", "/d/o/n", "--"]);
    let mirror = backup_command("o/n", "/d/o/n", false, true);
    assert_eq!(mirror, vec!["gh", "repo", "clone", "o/n", "/d/o/n", "--", "--mirror"]);
}

#[test]
fn existing_destination_never_yields_cloned() {
    let r = backup_outcome("o/n", true, Ok("done".to_string()));
    assert_eq!(r.status, Status::Updated);
    assert!(r.error.is_none());
    let r = backup_outcome("o/n", true, Err("boom".to_string()));
    assert_eq!(r.status, Status::Failed);
}

#[test]
fn missing_destination_never_yields_updated() {
    let r = backup_outcome("o/n", false, Ok("done".to_string()));
    assert_eq!(r.status, Status::Cloned);
    assert_eq!(r.nwo, "o/n");
    let r = backup_outcome("o/n", false, Err("boom".to_string()));
    assert_eq!(r.status, Status::Failed);
    assert_eq!(r.error, Some("boom".to_string()));
}

#[test]
fn first_line_of_diagnostics() {
    assert_eq!(first_line("network timeout\nsecond line"), "network timeout");
    assert_eq!(first_line("single"), "single");
    assert_eq!(first_line("crlf line\r\nrest"), "crlf line");
    assert_eq!(first_line(""), "");
}

#[test]
fn aggregator_assigns_gap_free_sequence_numbers() {
    let mut agg = Aggregator::new();
    let n = 5;
    for i in 0..n {
        let outcome = backup_outcome(&format!("o/r{i}"), i % 2 == 0, Ok(String::new()));
        let seq = agg.record(outcome);
        assert_eq!(seq, i);
    }
    let summary = agg.finalize();
    assert_eq!(summary.results.len(), n);
    assert_eq!(summary.cloned + summary.updated + summary.failed.len(), n);
    assert_eq!(summary.cloned, 2);
    assert_eq!(summary.updated, 3);
    assert!(summary.failed.is_empty());
}

#[test]
fn one_failure_does_not_stop_the_rest() {
    let mut agg = Aggregator::new();
    let n = 6;
    for i in 0..n {
        let result = if i == 2 {
            Err("disk full\ndetails".to_string())
        } else {
            Ok(String::new())
        };
        let outcome = backup_outcome(&format!("o/r{i}"), false, result);
        agg.record(outcome);
    }
    let summary = agg.finalize();
    assert_eq!(summary.results.len(), n);
    assert_eq!(summary.cloned, n - 1);
    assert_eq!(summary.failed, vec!["o/r2".to_string()]);
    assert!(!summary.all_succeeded());
}
