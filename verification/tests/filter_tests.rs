use ghsync::github::{get_orgs, resolve_owners, select_repos, sort_names, Filters, Repo};

fn mk(nwo: &str, fork: bool, archived: bool, vis: &str) -> Repo {
    Repo {
        name_with_owner: nwo.to_string(),
        ssh_url: format!("git@example.test:{nwo}.git"),
        is_fork: fork,
        is_archived: archived,
        visibility: vis.to_string(),
    }
}

fn no_filters() -> Filters {
    Filters {
        org: Vec::new(),
        orgs_only: false,
        personal_only: false,
        no_forks: false,
        forks_only: false,
        no_archived: false,
        archived_only: false,
        visibility: None,
        patterns: Vec::new(),
        exclude: Vec::new(),
    }
}

#[test]
fn no_forks_leaves_no_fork() {
    let repos = vec![
        mk("u/a", true, false, "public"),
        mk("u/b", false, false, "public"),
        mk("u/c", true, false, "private"),
        mk("u/d", false, true, "public"),
    ];
    let mut f = no_filters();
    f.no_forks = true;
    let (out, counts) = select_repos(&f, repos);
    assert_eq!(out.len(), 2);
    assert!(out.iter().all(|r| !r.is_fork));
    assert_eq!(counts.forks, 2);
    assert_eq!(counts.duplicates, 0);
}

#[test]
fn exclude_overrides_include() {
    let repos = vec![mk("u/tool", false, false, "public"), mk("u/kept", false, false, "public")];
    let mut f = no_filters();
    f.patterns = vec!["tool".to_string(), "kept".to_string()];
    f.exclude = vec!["tool".to_string()];
    let (out, counts) = select_repos(&f, repos);
    assert_eq!(out.len(), 1);
    assert_eq!(out[0].name_with_owner, "u/kept");
    assert_eq!(counts.excluded, 1);
}

#[test]
fn output_is_sorted_case_insensitively() {
    let repos = vec![
        mk("zeta/x", false, false, "public"),
        mk("Alpha/Zed", false, false, "public"),
        mk("alpha/abc", false, false, "public"),
        mk("Beta/m", false, false, "public"),
    ];
    let f = no_filters();
    let (out, _) = select_repos(&f, repos);
    let names: Vec<&str> = out.iter().map(|r| r.name_with_owner.as_str()).collect();
    assert_eq!(names, vec!["alpha/abc", "Alpha/Zed", "Beta/m", "zeta/x"]);
}

#[test]
fn first_seen_wins_on_duplicate_identifiers() {
    let mut first = mk("org/shared", false, false, "public");
    first.ssh_url = "git@example.test:first.git".to_string();
    let mut second = mk("org/shared", true, true, "private");
    second.ssh_url = "git@example.test:second.git".to_string();
    let repos = vec![first, second, mk("org/other", false, false, "public")];
    let f = no_filters();
    let (out, counts) = select_repos(&f, repos);
    assert_eq!(out.len(), 2);
    assert_eq!(counts.duplicates, 1);
    let survivor = out.iter().find(|r| r.name_with_owner == "org/shared").unwrap();
    assert_eq!(survivor.ssh_url, "git@example.test:first.git");
    assert!(!survivor.is_fork);
}

#[test]
fn visibility_filter_is_case_insensitive() {
    let repos = vec![mk("u/a", false, false, "PRIVATE"), mk("u/b", false, false, "public")];
    let mut f = no_filters();
    f.visibility = Some("private".to_string());
    let (out, counts) = select_repos(&f, repos);
    assert_eq!(out.len(), 1);
    assert_eq!(out[0].name_with_owner, "u/a");
    assert_eq!(counts.visibility, 1);
}

#[test]
fn forks_only_and_archived_only() {
    let repos = vec![
        mk("u/a", true, false, "public"),
        mk("u/b", false, true, "public"),
        mk("u/c", true, true, "public"),
    ];
    let mut f = no_filters();
    f.forks_only = true;
    f.archived_only = true;
    let (out, counts) = select_repos(&f, repos);
    assert_eq!(out.len(), 1);
    assert_eq!(out[0].name_with_owner, "u/c");
    assert_eq!(counts.nonforks, 1);
    assert_eq!(counts.nonarchived, 1);
}

#[test]
fn include_glob_keeps_only_matches() {
    let repos = vec![
        mk("u/tda-core", false, false, "public"),
        mk("u/tda-web", false, false, "public"),
        mk("u/poc-x", false, false, "public"),
    ];
    let mut f = no_filters();
    f.patterns = vec!["TDA-*".to_string()];
    let (out, counts) = select_repos(&f, repos);
    assert_eq!(out.len(), 2);
    assert!(out.iter().all(|r| r.name_with_owner.starts_with("u/tda-")));
    assert_eq!(counts.unmatched, 1);
}

#[test]
fn unknown_owner_is_an_error_listing_names() {
    let mut f = no_filters();
    f.org = vec!["ghost".to_string(), "Known".to_string(), "absent".to_string()];
    let orgs = vec!["known".to_string(), "other".to_string()];
    let err = resolve_owners(&f, "me", &orgs).unwrap_err();
    assert_eq!(err.invalid, vec!["ghost".to_string(), "absent".to_string()]);
    assert_eq!(err.known, orgs);
}

#[test]
fn explicit_owner_list_selects_matching_orgs() {
    let mut f = no_filters();
    f.org = vec!["KNOWN".to_string()];
    let orgs = vec!["known".to_string(), "other".to_string()];
    let owners = resolve_owners(&f, "me", &orgs).unwrap();
    assert_eq!(owners, vec!["known".to_string()]);
}

#[test]
fn scope_toggles_pick_the_owner_set() {
    let orgs = vec!["o1".to_string(), "o2".to_string()];
    let mut f = no_filters();
    f.orgs_only = true;
    assert_eq!(resolve_owners(&f, "me", &orgs).unwrap(), orgs);
    let mut f = no_filters();
    f.personal_only = true;
    assert_eq!(resolve_owners(&f, "me", &orgs).unwrap(), vec!["me".to_string()]);
    let f = no_filters();
    assert_eq!(
        resolve_owners(&f, "me", &orgs).unwrap(),
        vec!["me".to_string(), "o1".to_string(), "o2".to_string()]
    );
}

#[test]
fn org_output_parsing_drops_empty_lines() {
    let parsed = get_orgs("alpha\nbeta\n\ngamma\n");
    assert_eq!(parsed, vec!["alpha".to_string(), "beta".to_string(), "gamma".to_string()]);
    let crlf = get_orgs("one\r\ntwo\r\n");
    assert_eq!(crlf, vec!["one".to_string(), "two".to_string()]);
    let empty: Vec<String> = Vec::new();
    assert_eq!(get_orgs(""), empty);
    assert_eq!(get_orgs("\n\n"), empty);
}

#[test]
fn sort_names_is_case_insensitive() {
    let names = vec!["beta".to_string(), "Alpha".to_string(), "gamma".to_string()];
    let sorted = sort_names(names);
    assert_eq!(sorted, vec!["Alpha".to_string(), "beta".to_string(), "gamma".to_string()]);
}

#[test]
fn consistency_check_rejects_conflicting_toggles() {
    let mut f = no_filters();
    assert!(f.check_consistent());
    f.no_forks = true;
    f.forks_only = true;
    assert!(!f.check_consistent());
}
