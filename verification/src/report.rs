//! The rows of a comparison's report: one per classified commit.

use vstd::prelude::*;
use crate::compare::WhichBranch;
use crate::meta::CommitInfo;

verus! {

/// What the first column says of a commit found on both branches.
pub const BOTH: &'static str = "Both";

/// The first column of a row: the name of the branch that alone holds the
/// commit, or `Both`.
pub open spec fn label(which: WhichBranch, branch1: Seq<char>, branch2: Seq<char>) -> Seq<char> {
    match which {
        WhichBranch::Branch1Only => branch1,
        WhichBranch::Branch2Only => branch2,
        WhichBranch::Both => BOTH@,
    }
}

/// The first column of a row.
pub fn which_branch(which: WhichBranch, branch1: &str, branch2: &str) -> (out: String)
    ensures
        out@ == label(which, branch1@, branch2@),
{
    match which {
        WhichBranch::Branch1Only => branch1.to_owned(),
        WhichBranch::Branch2Only => branch2.to_owned(),
        WhichBranch::Both => BOTH.to_owned(),
    }
}

/// The names of the columns.
pub open spec fn columns() -> Seq<Seq<char>> {
    seq!["which_branch"@, "author"@, "summary"@, "message"@, "email"@, "jira"@]
}

/// The header row.
pub fn header() -> (row: Vec<String>)
    ensures
        row.deep_view() == columns(),
{
    let mut row: Vec<String> = Vec::new();
    row.push("which_branch".to_owned());
    row.push("author".to_owned());
    row.push("summary".to_owned());
    row.push("message".to_owned());
    row.push("email".to_owned());
    row.push("jira".to_owned());
    assert(row.deep_view() =~= columns());
    row
}

/// The row of a commit: where it is found, then author, summary, message,
/// mail address and issue link.
pub fn record(found: &str, info: &CommitInfo) -> (row: Vec<String>)
    ensures
        row.deep_view() == seq![
            found@,
            info.author@,
            info.summary@,
            info.message@,
            info.email@,
            info.jira@,
        ],
{
    let mut row: Vec<String> = Vec::new();
    row.push(found.to_owned());
    row.push(info.author.clone());
    row.push(info.summary.clone());
    row.push(info.message.clone());
    row.push(info.email.clone());
    row.push(info.jira.clone());
    assert(row.deep_view() =~= seq![
        found@,
        info.author@,
        info.summary@,
        info.message@,
        info.email@,
        info.jira@,
    ]);
    row
}

} // verus!
