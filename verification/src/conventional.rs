//! Conventional Commit messages, as the `git_conventional` crate reads them.
use vstd::prelude::*;

verus! {

/// The parts of a conventional commit that the release logic reads: its type
/// (`feat`, `fix`, ...), its description and whether it announces a breaking
/// change.
pub struct ConventionalCommit {
    pub kind: String,
    pub description: String,
    pub breaking: bool,
}

/// A commit's parts as plain values: (type, description, breaking).
pub type CommitView = (Seq<char>, Seq<char>, bool);

impl View for ConventionalCommit {
    type V = CommitView;

    open spec fn view(&self) -> CommitView {
        (self.kind@, self.description@, self.breaking)
    }
}

/// The view of an optional commit.
pub open spec fn commit_view(c: Option<ConventionalCommit>) -> Option<CommitView> {
    match c {
        Some(c) => Some(c@),
        None => None,
    }
}

/// What `git_conventional::Commit::parse` makes of `message`: `None` when the
/// message is not a conventional commit, else its (type, description,
/// breaking) parts.
pub uninterp spec fn conventional_parts(message: Seq<char>) -> Option<CommitView>;

#[verifier::external_type_specification]
#[verifier::external_body]
pub struct ExConventionalError(git_conventional::Error);

/// `git_conventional::Commit::parse`, with the parsed commit handed out as a
/// `ConventionalCommit` (its `type_()`, `description()` and `breaking()`).
/// The contract claims only that the outcome is the named `conventional_parts`
/// of the message.
#[verifier::external_body]
pub(crate) fn parse_conventional(message: &str) -> (r: Result<ConventionalCommit, git_conventional::Error>)
    ensures
        match r {
            Ok(c) => conventional_parts(message@) == Some(c@),
            Err(_) => conventional_parts(message@) is None,
        },
{
    match git_conventional::Commit::parse(message) {
        Ok(commit) => Ok(ConventionalCommit {
            kind: commit.type_().as_str().to_string(),
            description: commit.description().to_string(),
            breaking: commit.breaking(),
        }),
        Err(e) => Err(e),
    }
}

} // verus!
