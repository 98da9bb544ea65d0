//! Keys and the start of a session.

use vstd::prelude::*;

use crate::file_tree::StructuralError;
use crate::repo::{built, commit_of, commits_in_range, CommitSource};
use crate::state::{
    commit_position, lemma_commit_position_range, session_ok, AppState, Commit, Direction, Pane,
};

verus! {

/// A key as the session tells keys apart.
#[derive(Debug, Clone, Copy, PartialEq, Eq, Structural)]
pub enum Key {
    Char(char),
    Down,
    Up,
    Enter,
    Other,
}

/// Why no session could be begun.
#[derive(Debug, Clone, Copy, PartialEq, Eq, Structural)]
pub enum AppError {
    /// The paths of a commit's patch are at odds.
    PathConflict(StructuralError),
    /// The range holds no commit.
    NoCommits,
    /// The source gave one commit twice.
    DuplicateCommit,
}

impl AppError {
    /// The words in which the error is told to the user.
    pub fn message(&self) -> (text: &'static str)
        ensures
            text@ == (match self {
                AppError::PathConflict(_) => "a path is used both as a file and as a directory"@,
                AppError::NoCommits => "no commits to display"@,
                AppError::DuplicateCommit => "a commit occurs twice in the range"@,
            }),
    {
        match self {
            AppError::PathConflict(_) => "a path is used both as a file and as a directory",
            AppError::NoCommits => "no commits to display",
            AppError::DuplicateCommit => "a commit occurs twice in the range",
        }
    }
}

/// Whether no string stands twice in `strings`.
pub open spec fn distinct(strings: Seq<String>) -> bool {
    forall|i: int, j: int|
        0 <= i < j < strings.len() ==> (#[trigger] strings[i])@ != (#[trigger] strings[j])@
}

/// Whether no string stands twice in `strings`.
pub fn all_distinct(strings: &Vec<String>) -> (ok: bool)
    ensures
        ok == distinct(strings@),
{
    let mut j: usize = 0;
    while j < strings.len()
        invariant
            j <= strings.len(),
            forall|a: int, b: int|
                0 <= a < b < j ==> (#[trigger] strings@[a])@ != (#[trigger] strings@[b])@,
        decreases strings.len() - j,
    {
        let mut i: usize = 0;
        while i < j
            invariant
                i <= j < strings.len(),
                forall|a: int| 0 <= a < i ==> (#[trigger] strings@[a])@ != strings@[j as int]@,
            decreases j - i,
        {
            if strings[i] == strings[j] {
                return false;
            }
            i += 1;
        }
        j += 1;
    }
    true
}

/// The state after `key` has been pressed: `q` asks for the end, `j` and
/// the down arrow move down, `k` and the up arrow move up, `c`, `d` and `f`
/// give the focus to the commits, the diff and the files, the enter key
/// confirms, and no other key does anything.
pub open spec fn after_key(state: AppState, key: Key) -> AppState {
    match key {
        Key::Char(c) => if c == 'q' {
            AppState { exit: true, ..state }
        } else if c == 'j' {
            state.after_navigate(Direction::Down)
        } else if c == 'k' {
            state.after_navigate(Direction::Up)
        } else if c == 'c' {
            AppState { selected_pane: Pane::Commits, ..state }
        } else if c == 'd' {
            AppState { selected_pane: Pane::Diff, ..state }
        } else if c == 'f' {
            AppState { selected_pane: Pane::Files, ..state }
        } else {
            state
        },
        Key::Down => state.after_navigate(Direction::Down),
        Key::Up => state.after_navigate(Direction::Up),
        Key::Enter => state.after_select(),
        Key::Other => state,
    }
}

/// Does what `key` asks for.
pub fn handle_key_event(state: &mut AppState, key: Key)
    requires
        old(state).wf(),
        old(state).commits_order@.len() > 0,
    ensures
        final(state).wf(),
        final(state).commits_order@.len() > 0,
        *final(state) == after_key(*old(state), key),
{
    match key {
        Key::Char(c) => {
            if c == 'q' {
                state.exit();
            } else if c == 'j' {
                state.navigate(Direction::Down);
            } else if c == 'k' {
                state.navigate(Direction::Up);
            } else if c == 'c' {
                state.select_pane(Pane::Commits);
            } else if c == 'd' {
                state.select_pane(Pane::Diff);
            } else if c == 'f' {
                state.select_pane(Pane::Files);
            }
        },
        Key::Down => state.navigate(Direction::Down),
        Key::Up => state.navigate(Direction::Up),
        Key::Enter => state.select(),
        Key::Other => {},
    }
}

/// Commits that stand in the order of their hashes make a session where
/// no hash stands twice.
pub proof fn lemma_session_ok(commits: Seq<Commit>, order: Seq<String>)
    requires
        commits.len() == order.len(),
        forall|i: int| 0 <= i < commits.len() ==> (#[trigger] commits[i]).wf(),
        forall|i: int| 0 <= i < commits.len() ==> (#[trigger] commits[i]).hash@ == order[i]@,
        distinct(order),
    ensures
        session_ok(commits, order),
{
    assert forall|i: int| 0 <= i < order.len() implies commit_position(
        commits,
        (#[trigger] order[i])@,
    ) < commits.len() by {
        lemma_commit_position_range(commits, order[i]@);
        if commit_position(commits, order[i]@) > i {
            assert(commits[i].hash@ == order[i]@);
        }
    }
}

/// Begins a session over the commits that the source tells of, in its
/// order and with their trees under the directory `root_dir`.
pub fn open_session(
    from_branch: String,
    into_branch: String,
    root_dir: &str,
    sources: &Vec<CommitSource>,
) -> (session: Result<AppState, AppError>)
    ensures
        match session {
            Ok(state) => {
                &&& state.wf()
                &&& sources@.len() > 0
                &&& state.commits@.len() == sources@.len()
                &&& state.commits_order@.len() == sources@.len()
                &&& forall|i: int|
                    0 <= i < sources@.len() ==> commit_of(
                        #[trigger] state.commits@[i],
                        sources@[i],
                        root_dir@,
                    )
                &&& forall|i: int|
                    0 <= i < sources@.len() ==> (#[trigger] state.commits_order@[i])@
                        == sources@[i].hash@
                &&& state.from_branch == from_branch
                &&& state.into_branch == into_branch
                &&& !state.exit
                &&& state.selected_pane == Pane::Diff
                &&& state.selected_commit == 0
                &&& state.selected_file == 0
                &&& state.scroll_position == 0
                &&& state.scroll_height == 0
            },
            Err(AppError::PathConflict(_)) => exists|i: int|
                0 <= i < sources@.len() && built(root_dir@, (#[trigger] sources@[i]).counted())
                    is None,
            Err(AppError::NoCommits) => sources@.len() == 0,
            Err(AppError::DuplicateCommit) => {
                &&& sources@.len() > 0
                &&& forall|i: int|
                    0 <= i < sources@.len() ==> built(
                        root_dir@,
                        (#[trigger] sources@[i]).counted(),
                    ) is Some
                &&& exists|i: int, j: int|
                    0 <= i < j < sources@.len() && (#[trigger] sources@[i]).hash@ == (
                    #[trigger] sources@[j]).hash@
            },
        },
{
    let (commits, commits_order) = match commits_in_range(root_dir, sources) {
        Ok(found) => found,
        Err(e) => {
            return Err(AppError::PathConflict(e));
        },
    };
    if commits.len() == 0 {
        return Err(AppError::NoCommits);
    }
    if !all_distinct(&commits_order) {
        proof {
            let (i, j) = choose|i: int, j: int|
                0 <= i < j < commits_order@.len() && (#[trigger] commits_order@[i])@ == (
                #[trigger] commits_order@[j])@;
            assert(commits_order@[i]@ == sources@[i].hash@);
            assert(commits_order@[j]@ == sources@[j].hash@);
            assert(sources@[i].hash@ == sources@[j].hash@);
            assert forall|k: int| 0 <= k < sources@.len() implies built(
                root_dir@,
                (#[trigger] sources@[k]).counted(),
            ) is Some by {
                assert(commit_of(commits@[k], sources@[k], root_dir@));
            }
        }
        return Err(AppError::DuplicateCommit);
    }
    proof {
        lemma_session_ok(commits@, commits_order@);
    }
    Ok(AppState::new(from_branch, into_branch, commits, commits_order))
}

} // verus!
