//! Routing of `gh` invocations to their condensed handlers, and the text
//! helpers those handlers share.
use crate::rgai_cmd::strs;
use crate::text::{
    append_str, byte_cut, byte_len, byte_len_exceeds, byte_prefix, chars_of, equals_str,
    string_of,
};
use vstd::prelude::*;

verus! {

/// The handler that a `gh` invocation goes to. Each handler takes the
/// arguments after the ones that chose it, but `Passthrough`, which hands the
/// subcommand and all its arguments to `gh` unchanged.
#[derive(Debug, Clone, Copy, PartialEq, Eq, Structural)]
pub enum GhAction {
    PrList,
    PrView,
    PrChecks,
    PrStatus,
    PrCreate,
    PrMerge,
    PrDiff,
    PrComment,
    PrEdit,
    IssueList,
    IssueView,
    RunList,
    RunView,
    RepoView,
    Api,
    Passthrough,
}

/// The handler of a `gh pr` invocation, by its first argument.
pub open spec fn pr_route(args: Seq<Seq<char>>) -> GhAction {
    if args.len() == 0 {
        GhAction::Passthrough
    } else {
        let a = args[0];
        if a == "list"@ {
            GhAction::PrList
        } else if a == "view"@ {
            GhAction::PrView
        } else if a == "checks"@ {
            GhAction::PrChecks
        } else if a == "status"@ {
            GhAction::PrStatus
        } else if a == "create"@ {
            GhAction::PrCreate
        } else if a == "merge"@ {
            GhAction::PrMerge
        } else if a == "diff"@ {
            GhAction::PrDiff
        } else if a == "comment"@ {
            GhAction::PrComment
        } else if a == "edit"@ {
            GhAction::PrEdit
        } else {
            GhAction::Passthrough
        }
    }
}

/// The handler of a `gh issue` invocation, by its first argument.
pub open spec fn issue_route(args: Seq<Seq<char>>) -> GhAction {
    if args.len() == 0 {
        GhAction::Passthrough
    } else if args[0] == "list"@ {
        GhAction::IssueList
    } else if args[0] == "view"@ {
        GhAction::IssueView
    } else {
        GhAction::Passthrough
    }
}

/// The handler of a `gh run` invocation, by its first argument.
pub open spec fn workflow_route(args: Seq<Seq<char>>) -> GhAction {
    if args.len() == 0 {
        GhAction::Passthrough
    } else if args[0] == "list"@ {
        GhAction::RunList
    } else if args[0] == "view"@ {
        GhAction::RunView
    } else {
        GhAction::Passthrough
    }
}

/// The handler of a `gh repo` invocation: `view` when it is the first
/// argument or there is none.
pub open spec fn repo_route(args: Seq<Seq<char>>) -> GhAction {
    if args.len() == 0 || args[0] == "view"@ {
        GhAction::RepoView
    } else {
        GhAction::Passthrough
    }
}

/// The handler of a `gh` invocation.
pub open spec fn gh_route(subcommand: Seq<char>, args: Seq<Seq<char>>) -> GhAction {
    if subcommand == "pr"@ {
        pr_route(args)
    } else if subcommand == "issue"@ {
        issue_route(args)
    } else if subcommand == "run"@ {
        workflow_route(args)
    } else if subcommand == "repo"@ {
        repo_route(args)
    } else if subcommand == "api"@ {
        GhAction::Api
    } else {
        GhAction::Passthrough
    }
}

/// Chooses the handler of a `gh pr` invocation.
pub fn run_pr(args: &Vec<String>) -> (r: GhAction)
    ensures
        r == pr_route(strs(args@)),
{
    if args.len() == 0 {
        return GhAction::Passthrough;
    }
    let a = chars_of(args[0].as_str());
    assert(a@ == strs(args@)[0]);
    if equals_str(&a, "list") {
        GhAction::PrList
    } else if equals_str(&a, "view") {
        GhAction::PrView
    } else if equals_str(&a, "checks") {
        GhAction::PrChecks
    } else if equals_str(&a, "status") {
        GhAction::PrStatus
    } else if equals_str(&a, "create") {
        GhAction::PrCreate
    } else if equals_str(&a, "merge") {
        GhAction::PrMerge
    } else if equals_str(&a, "diff") {
        GhAction::PrDiff
    } else if equals_str(&a, "comment") {
        GhAction::PrComment
    } else if equals_str(&a, "edit") {
        GhAction::PrEdit
    } else {
        GhAction::Passthrough
    }
}

/// Chooses the handler of a `gh issue` invocation.
pub fn run_issue(args: &Vec<String>) -> (r: GhAction)
    ensures
        r == issue_route(strs(args@)),
{
    if args.len() == 0 {
        return GhAction::Passthrough;
    }
    let a = chars_of(args[0].as_str());
    assert(a@ == strs(args@)[0]);
    if equals_str(&a, "list") {
        GhAction::IssueList
    } else if equals_str(&a, "view") {
        GhAction::IssueView
    } else {
        GhAction::Passthrough
    }
}

/// Chooses the handler of a `gh run` invocation.
pub fn run_workflow(args: &Vec<String>) -> (r: GhAction)
    ensures
        r == workflow_route(strs(args@)),
{
    if args.len() == 0 {
        return GhAction::Passthrough;
    }
    let a = chars_of(args[0].as_str());
    assert(a@ == strs(args@)[0]);
    if equals_str(&a, "list") {
        GhAction::RunList
    } else if equals_str(&a, "view") {
        GhAction::RunView
    } else {
        GhAction::Passthrough
    }
}

/// Chooses the handler of a `gh repo` invocation.
pub fn run_repo(args: &Vec<String>) -> (r: GhAction)
    ensures
        r == repo_route(strs(args@)),
{
    if args.len() == 0 {
        return GhAction::RepoView;
    }
    let a = chars_of(args[0].as_str());
    assert(a@ == strs(args@)[0]);
    if equals_str(&a, "view") {
        GhAction::RepoView
    } else {
        GhAction::Passthrough
    }
}

/// Chooses the handler of a `gh` invocation from its subcommand and arguments.
pub fn run(subcommand: &str, args: &Vec<String>) -> (r: GhAction)
    ensures
        r == gh_route(subcommand@, strs(args@)),
{
    let s = chars_of(subcommand);
    if equals_str(&s, "pr") {
        run_pr(args)
    } else if equals_str(&s, "issue") {
        run_issue(args)
    } else if equals_str(&s, "run") {
        run_workflow(args)
    } else if equals_str(&s, "repo") {
        run_repo(args)
    } else if equals_str(&s, "api") {
        GhAction::Api
    } else {
        GhAction::Passthrough
    }
}

/// Cuts `s` to at most `max_len` bytes, the last three of a cut being `...`.
pub fn truncate(s: &str, max_len: usize) -> (r: String)
    requires
        byte_len(s@) <= max_len || max_len >= 3,
    ensures
        r@ == (if byte_len(s@) <= max_len {
            s@
        } else {
            byte_cut(s@, (max_len - 3) as nat) + "..."@
        }),
{
    let c = chars_of(s);
    if !byte_len_exceeds(&c, max_len) {
        return string_of(&c);
    }
    let mut out = byte_prefix(&c, max_len - 3);
    append_str(&mut out, "...");
    string_of(&out)
}

} // verus!
