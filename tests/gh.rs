use rtk::gh_cmd::{run, truncate, GhAction};

#[test]
fn test_truncate() {
    assert_eq!(truncate("short", 10), "short");
    assert_eq!(truncate("this is a very long string", 15), "this is a ve...");
}

fn args(items: &[&str]) -> Vec<String> {
    items.iter().map(|s| s.to_string()).collect()
}

#[test]
fn gh_routes_pr_subcommands() {
    assert_eq!(run("pr", &args(&["list"])), GhAction::PrList);
    assert_eq!(run("pr", &args(&["view", "42"])), GhAction::PrView);
    assert_eq!(run("pr", &args(&["comment", "42"])), GhAction::PrComment);
    assert_eq!(run("pr", &args(&["edit"])), GhAction::PrEdit);
    assert_eq!(run("pr", &args(&["reopen"])), GhAction::Passthrough);
    assert_eq!(run("pr", &args(&[])), GhAction::Passthrough);
}

#[test]
fn gh_routes_other_subcommands() {
    assert_eq!(run("issue", &args(&["list"])), GhAction::IssueList);
    assert_eq!(run("issue", &args(&["close"])), GhAction::Passthrough);
    assert_eq!(run("run", &args(&["view", "7"])), GhAction::RunView);
    assert_eq!(run("repo", &args(&[])), GhAction::RepoView);
    assert_eq!(run("repo", &args(&["clone"])), GhAction::Passthrough);
    assert_eq!(run("api", &args(&["/user"])), GhAction::Api);
    assert_eq!(run("release", &args(&["list"])), GhAction::Passthrough);
}
