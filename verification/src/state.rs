//! The session: commits, selection and scrolling.

use vstd::prelude::*;

use crate::file_tree::{lemma_total_lines_concat, total_lines, FileTree};

verus! {

/// How a single diff line relates to the file it belongs to.
#[derive(Debug, Clone, Copy, PartialEq, Eq, Structural)]
pub enum ChangeKind {
    Context,
    Insertion,
    Deletion,
}

/// One line of a diff, as it is shown.
#[derive(Debug)]
pub struct Change {
    pub text: String,
    pub kind: ChangeKind,
}

/// The mathematical value of a [`Change`].
pub struct ChangeView {
    pub text: Seq<char>,
    pub kind: ChangeKind,
}

impl View for Change {
    type V = ChangeView;

    open spec fn view(&self) -> ChangeView {
        ChangeView { text: self.text@, kind: self.kind }
    }
}

/// The values of a run of changes, in order.
pub open spec fn change_views(changes: Seq<Change>) -> Seq<ChangeView> {
    changes.map_values(|c: Change| c@)
}

/// The three panes of the display; exactly one of them has the focus.
#[derive(Debug, Clone, Copy, PartialEq, Eq, Structural)]
pub enum Pane {
    Diff,
    Files,
    Commits,
}

/// The direction of a movement command.
#[derive(Debug, Clone, Copy, PartialEq, Eq, Structural)]
pub enum Direction {
    Down,
    Up,
}

/// One commit of the range with the tree of the files it touched.
#[derive(Debug)]
pub struct Commit {
    pub hash: String,
    pub message: Option<String>,
    pub author: String,
    pub file_tree: FileTree,
    pub diff_len: usize,
}

impl Commit {
    /// What holds of every commit of a session: its tree is a directory
    /// whose measures can be held, and `diff_len` is the number of lines in
    /// it.
    pub open spec fn wf(&self) -> bool {
        &&& self.file_tree@ is Directory
        &&& self.file_tree@.bounded()
        &&& self.diff_len == self.file_tree@.total_lines()
    }

    /// A commit with the tree of its files; `diff_len` is counted from the
    /// tree.
    pub fn new(hash: String, message: Option<String>, author: String, file_tree: FileTree) -> (commit:
        Self)
        requires
            file_tree@.total_lines() <= usize::MAX,
        ensures
            commit.hash == hash,
            commit.message == message,
            commit.author == author,
            commit.file_tree == file_tree,
            commit.diff_len == file_tree@.total_lines(),
    {
        let diff_len = count_lines(&file_tree);
        Commit { hash, message, author, file_tree, diff_len }
    }
}

/// The number of diff lines in a tree.
pub fn count_lines(tree: &FileTree) -> (lines: usize)
    requires
        tree@.total_lines() <= usize::MAX,
    ensures
        lines == tree@.total_lines(),
{
    let ghost leaves = tree@.leaves();
    let ghost mut seen: int = 0;
    let mut lines: usize = 0;
    let mut files = tree.iter_files();
    proof {
        assert(leaves.take(0) =~= Seq::empty());
    }
    loop
        invariant
            leaves == tree@.leaves(),
            total_lines(leaves) <= usize::MAX,
            0 <= seen <= leaves.len(),
            files.remaining() == leaves.skip(seen),
            lines == total_lines(leaves.take(seen)),
        decreases leaves.len() - seen,
    {
        match files.next() {
            None => {
                proof {
                    assert(leaves.take(seen) =~= leaves);
                }
                return lines;
            },
            Some(file) => {
                proof {
                    assert(file@ == leaves[seen]);
                    assert(leaves.skip(seen).drop_first() =~= leaves.skip(seen + 1));
                    assert(leaves.take(seen + 1).drop_last() =~= leaves.take(seen));
                    assert(leaves =~= leaves.take(seen + 1) + leaves.skip(seen + 1));
                    lemma_total_lines_concat(leaves.take(seen + 1), leaves.skip(seen + 1));
                    assert(file.changes@.len() == file@.changes.len());
                }
                lines = lines + file.changes.len();
                proof {
                    seen = seen + 1;
                }
            },
        }
    }
}

/// The number of `File` leaves in a tree.
pub fn count_files(tree: &FileTree) -> (files: usize)
    requires
        tree@.leaves().len() <= usize::MAX,
    ensures
        files == tree@.leaves().len(),
{
    let ghost leaves = tree@.leaves();
    let mut count: usize = 0;
    let mut files = tree.iter_files();
    loop
        invariant
            leaves == tree@.leaves(),
            leaves.len() <= usize::MAX,
            count <= leaves.len(),
            files.remaining() == leaves.skip(count as int),
        decreases leaves.len() - count,
    {
        match files.next() {
            None => {
                return count;
            },
            Some(_) => {
                proof {
                    assert(leaves.skip(count as int).drop_first() =~= leaves.skip(count + 1));
                }
                count = count + 1;
            },
        }
    }
}

/// A commit was selected by an index that no commit has.
#[derive(Debug, Clone, Copy, PartialEq, Eq, Structural)]
pub struct CommitOutOfBounds {
    pub index: usize,
}

/// The session: the commits of the range in their order, and where the user
/// stands in them.
#[derive(Debug)]
pub struct AppState {
    pub exit: bool,
    pub from_branch: String,
    pub into_branch: String,
    pub commits: Vec<Commit>,
    pub commits_order: Vec<String>,
    pub selected_pane: Pane,
    pub selected_commit: usize,
    pub selected_file: usize,
    pub scroll_position: usize,
    pub scroll_height: usize,
}

/// The position of the first of `commits` with the hash `hash`, or their
/// number if none has it.
pub open spec fn commit_position(commits: Seq<Commit>, hash: Seq<char>) -> int
    decreases commits.len(),
{
    if commits.len() == 0 {
        0
    } else if commits[0].hash@ == hash {
        0
    } else {
        1 + commit_position(commits.drop_first(), hash)
    }
}

/// Where the first commit of a hash stands.
pub proof fn lemma_commit_position(commits: Seq<Commit>, hash: Seq<char>, k: int)
    requires
        0 <= k <= commits.len(),
        forall|j: int| 0 <= j < k ==> (#[trigger] commits[j]).hash@ != hash,
        k < commits.len() ==> commits[k].hash@ == hash,
    ensures
        commit_position(commits, hash) == k,
    decreases commits.len(),
{
    if commits.len() > 0 && k > 0 {
        let rest = commits.drop_first();
        assert(commits[0].hash@ != hash);
        assert forall|j: int| 0 <= j < k - 1 implies (#[trigger] rest[j]).hash@ != hash by {
            assert(rest[j] == commits[j + 1]);
        }
        lemma_commit_position(rest, hash, k - 1);
    }
}

/// The position is never behind the end.
pub proof fn lemma_commit_position_range(commits: Seq<Commit>, hash: Seq<char>)
    ensures
        0 <= commit_position(commits, hash) <= commits.len(),
        commit_position(commits, hash) < commits.len() ==> commits[commit_position(
            commits,
            hash,
        )].hash@ == hash,
        forall|j: int|
            0 <= j < commit_position(commits, hash) ==> (#[trigger] commits[j]).hash@ != hash,
    decreases commits.len(),
{
    if commits.len() > 0 && commits[0].hash@ != hash {
        let rest = commits.drop_first();
        lemma_commit_position_range(rest, hash);
        assert forall|j: int| 0 <= j < commit_position(commits, hash) implies (
        #[trigger] commits[j]).hash@ != hash by {
            if j > 0 {
                assert(rest[j - 1] == commits[j]);
            }
        }
    }
}

/// Whether `commits` and `order` can make a session: every commit is well
/// formed, every hash of `order` is that of a commit, and none stands twice
/// in `order`.
pub open spec fn session_ok(commits: Seq<Commit>, order: Seq<String>) -> bool {
    &&& forall|i: int| 0 <= i < commits.len() ==> (#[trigger] commits[i]).wf()
    &&& forall|i: int|
        0 <= i < order.len() ==> commit_position(commits, (#[trigger] order[i])@) < commits.len()
    &&& forall|i: int, j: int|
        0 <= i < j < order.len() ==> (#[trigger] order[i])@ != (#[trigger] order[j])@
}

/// The scroll position `position` held within what a diff of `diff_len`
/// lines allows in a viewport of `height` rows.
pub open spec fn clamped_scroll(position: nat, diff_len: nat, height: nat) -> nat {
    let limit = if diff_len > height {
        (diff_len - height) as nat
    } else {
        0
    };
    if position > limit {
        limit
    } else {
        position
    }
}

impl AppState {
    /// The commit that is selected; meaningful where there is a commit.
    pub open spec fn selected(&self) -> Commit {
        self.commits@[commit_position(
            self.commits@,
            self.commits_order@[self.selected_commit as int]@,
        )]
    }

    /// What holds of every session.
    pub open spec fn wf(&self) -> bool {
        &&& session_ok(self.commits@, self.commits_order@)
        &&& if self.commits_order@.len() == 0 {
            self.selected_commit == 0 && self.selected_file == 0 && self.scroll_position == 0
        } else {
            &&& self.selected_commit < self.commits_order@.len()
            &&& self.selected_file == 0 || self.selected_file < self.selected().file_tree@.leaves().len()
            &&& self.scroll_position == clamped_scroll(
                self.scroll_position as nat,
                self.selected().diff_len as nat,
                self.scroll_height as nat,
            )
        }
    }

    /// A session over `commits` in the order `commits_order`: the diff pane
    /// has the focus, the first commit is selected, nothing is scrolled.
    pub fn new(
        from_branch: String,
        into_branch: String,
        commits: Vec<Commit>,
        commits_order: Vec<String>,
    ) -> (state: Self)
        requires
            session_ok(commits@, commits_order@),
        ensures
            state.wf(),
            state == (AppState {
                exit: false,
                from_branch,
                into_branch,
                commits,
                commits_order,
                selected_pane: Pane::Diff,
                selected_commit: 0,
                selected_file: 0,
                scroll_position: 0,
                scroll_height: 0,
            }),
    {
        AppState {
            from_branch,
            into_branch,
            exit: false,
            commits,
            commits_order,
            selected_pane: Pane::Diff,
            selected_commit: 0,
            selected_file: 0,
            scroll_position: 0,
            scroll_height: 0,
        }
    }

    /// Asks for the session to end.
    pub fn exit(&mut self)
        ensures
            *final(self) == (AppState { exit: true, ..*old(self) }),
    {
        self.exit = true;
    }

    /// The commit that is selected.
    pub fn get_selected_commit(&self) -> (commit: &Commit)
        requires
            self.wf(),
            self.commits_order@.len() > 0,
        ensures
            *commit == self.selected(),
            commit.wf(),
            commit.hash@ == self.commits_order@[self.selected_commit as int]@,
    {
        let hash = &self.commits_order[self.selected_commit];
        let ghost at = commit_position(self.commits@, hash@);
        proof {
            lemma_commit_position_range(self.commits@, hash@);
        }
        let count = self.commits.len();
        let mut j: usize = 0;
        loop
            invariant
                count == self.commits@.len(),
                j <= at < self.commits@.len(),
                self.selected_commit < self.commits_order@.len(),
                hash@ == self.commits_order@[self.selected_commit as int]@,
                at == commit_position(self.commits@, hash@),
                self.commits@[at].hash@ == hash@,
                forall|i: int| 0 <= i < at ==> (#[trigger] self.commits@[i]).hash@ != hash@,
                self.wf(),
            decreases at - j,
        {
            if self.commits[j].hash == *hash {
                return &self.commits[j];
            }
            j += 1;
        }
    }

    /// The commit with the hash `hash`, if the session holds one.
    pub fn find_commit(&self, hash: &String) -> (commit: Option<&Commit>)
        ensures
            match commit {
                Some(found) => commit_position(self.commits@, hash@) < self.commits@.len()
                    && *found == self.commits@[commit_position(self.commits@, hash@)],
                None => commit_position(self.commits@, hash@) == self.commits@.len(),
            },
    {
        let mut j: usize = 0;
        while j < self.commits.len()
            invariant
                j <= self.commits@.len(),
                forall|i: int| 0 <= i < j ==> (#[trigger] self.commits@[i]).hash@ != hash@,
            decreases self.commits@.len() - j,
        {
            if self.commits[j].hash == *hash {
                proof {
                    lemma_commit_position(self.commits@, hash@, j as int);
                }
                return Some(&self.commits[j]);
            }
            j += 1;
        }
        proof {
            lemma_commit_position(self.commits@, hash@, j as int);
        }
        None
    }

    /// The state after a commit has been selected: nothing of it is
    /// scrolled and its first file is selected.
    pub open spec fn with_commit(self, index: usize) -> AppState {
        AppState { selected_commit: index, scroll_position: 0, selected_file: 0, ..self }
    }

    /// Selects the commit at `index` of the order, or reports that there is
    /// none and changes nothing.
    pub fn select_commit(&mut self, index: usize) -> (done: Result<(), CommitOutOfBounds>)
        requires
            old(self).wf(),
        ensures
            final(self).wf(),
            match done {
                Ok(_) => index < old(self).commits_order@.len() && *final(self) == old(self).with_commit(index),
                Err(e) => index >= old(self).commits_order@.len() && e.index == index && *final(self) == *old(self),
            },
    {
        if index < self.commits_order.len() {
            self.selected_commit = index;
            self.scroll_position = 0;
            self.selected_file = 0;
            Ok(())
        } else {
            Err(CommitOutOfBounds { index })
        }
    }

    /// Gives the focus to `pane`.
    pub fn select_pane(&mut self, pane: Pane)
        ensures
            *final(self) == (AppState { selected_pane: pane, ..*old(self) }),
    {
        self.selected_pane = pane;
    }

    /// The state after "confirm": from the commits the focus goes to the
    /// diff; elsewhere nothing happens.
    pub open spec fn after_select(self) -> AppState {
        if self.selected_pane == Pane::Commits {
            AppState { selected_pane: Pane::Diff, ..self }
        } else {
            self
        }
    }

    /// Confirms the selection.
    pub fn select(&mut self)
        ensures
            *final(self) == old(self).after_select(),
    {
        match self.selected_pane {
            Pane::Commits => {
                self.select_pane(Pane::Diff);
            },
            _ => {},
        }
    }

    /// The index on which a movement over `count` commits lands: one step
    /// from `index`, from the last round to the first and back.
    pub open spec fn wrapped(index: int, count: int, direction: Direction) -> int {
        match direction {
            Direction::Down => if index + 1 == count {
                0
            } else {
                index + 1
            },
            Direction::Up => if index == 0 {
                count - 1
            } else {
                index - 1
            },
        }
    }

    /// The state after one movement in the pane that has the focus. Over
    /// the commits it goes round; a commit newly selected starts at its
    /// top. The diff moves by a line while there is a line to come into
    /// view at that end; the selected file moves while there is a file on
    /// that side.
    pub open spec fn after_navigate(self, direction: Direction) -> AppState {
        match self.selected_pane {
            Pane::Commits => self.with_commit(
                Self::wrapped(
                    self.selected_commit as int,
                    self.commits_order@.len() as int,
                    direction,
                ) as usize,
            ),
            Pane::Diff => match direction {
                Direction::Down => if self.scroll_position + self.scroll_height
                    < self.selected().diff_len {
                    AppState { scroll_position: (self.scroll_position + 1) as usize, ..self }
                } else {
                    self
                },
                Direction::Up => if self.scroll_position > 0 {
                    AppState { scroll_position: (self.scroll_position - 1) as usize, ..self }
                } else {
                    self
                },
            },
            Pane::Files => match direction {
                Direction::Down => if self.selected_file + 1
                    < self.selected().file_tree@.leaves().len() {
                    AppState { selected_file: (self.selected_file + 1) as usize, ..self }
                } else {
                    self
                },
                Direction::Up => if self.selected_file > 0 {
                    AppState { selected_file: (self.selected_file - 1) as usize, ..self }
                } else {
                    self
                },
            },
        }
    }

    /// Moves one step in the pane that has the focus.
    pub fn navigate(&mut self, direction: Direction)
        requires
            old(self).wf(),
            old(self).commits_order@.len() > 0,
        ensures
            final(self).wf(),
            *final(self) == old(self).after_navigate(direction),
    {
        match self.selected_pane {
            Pane::Commits => {
                let count = self.commits_order.len();
                let index = match direction {
                    Direction::Down => if self.selected_commit == count - 1 {
                        0
                    } else {
                        self.selected_commit + 1
                    },
                    Direction::Up => if self.selected_commit == 0 {
                        count - 1
                    } else {
                        self.selected_commit - 1
                    },
                };
                let _ = self.select_commit(index);
            },
            Pane::Diff => {
                match direction {
                    Direction::Down => {
                        let diff_len = self.get_selected_commit().diff_len;
                        if self.scroll_position < diff_len && self.scroll_height < diff_len
                            - self.scroll_position {
                            self.scroll_position += 1;
                        }
                    },
                    Direction::Up => {
                        if self.scroll_position > 0 {
                            self.scroll_position -= 1;
                        }
                    },
                }
            },
            Pane::Files => {
                match direction {
                    Direction::Down => {
                        let files = count_files(&self.get_selected_commit().file_tree);
                        if self.selected_file < files && self.selected_file + 1 < files {
                            self.selected_file += 1;
                        }
                    },
                    Direction::Up => {
                        if self.selected_file > 0 {
                            self.selected_file -= 1;
                        }
                    },
                }
            },
        }
    }

    /// Makes the viewport `height` rows high and brings the scroll position
    /// back within what it then allows.
    pub fn set_scroll_height(&mut self, height: usize)
        requires
            old(self).wf(),
        ensures
            final(self).wf(),
            *final(self) == (AppState {
                scroll_height: height,
                scroll_position: if old(self).commits_order@.len() == 0 {
                    old(self).scroll_position
                } else {
                    clamped_scroll(
                        old(self).scroll_position as nat,
                        old(self).selected().diff_len as nat,
                        height as nat,
                    ) as usize
                },
                ..*old(self)
            }),
    {
        if self.commits_order.len() > 0 {
            let diff_len = self.get_selected_commit().diff_len;
            let limit = if diff_len > height {
                diff_len - height
            } else {
                0
            };
            if self.scroll_position > limit {
                self.scroll_position = limit;
            }
        }
        self.scroll_height = height;
    }
}

impl AppState {
    /// The state after `count` movements in one direction.
    pub open spec fn after_moves(self, direction: Direction, count: nat) -> AppState
        decreases count,
    {
        if count == 0 {
            self
        } else {
            self.after_moves(direction, (count - 1) as nat).after_navigate(direction)
        }
    }
}

/// Where `steps` movements over `count` commits lead from `index`.
pub open spec fn moved(index: int, count: int, direction: Direction, steps: int) -> int {
    match direction {
        Direction::Down => if index + steps < count {
            index + steps
        } else {
            index + steps - count
        },
        Direction::Up => if index - steps >= 0 {
            index - steps
        } else {
            index - steps + count
        },
    }
}

/// Movements over the commits go round: after `steps` of them, no more
/// than there are commits, the selection has moved on by `steps` places,
/// from the end on to the beginning.
pub proof fn lemma_commit_moves(state: AppState, direction: Direction, steps: nat)
    requires
        state.selected_pane == Pane::Commits,
        state.selected_commit < state.commits_order@.len(),
        state.commits_order@.len() <= usize::MAX,
        steps <= state.commits_order@.len(),
    ensures
        state.after_moves(direction, steps).selected_pane == Pane::Commits,
        state.after_moves(direction, steps).commits_order == state.commits_order,
        state.after_moves(direction, steps).selected_commit == moved(
            state.selected_commit as int,
            state.commits_order@.len() as int,
            direction,
            steps as int,
        ),
    decreases steps,
{
    if steps > 0 {
        lemma_commit_moves(state, direction, (steps - 1) as nat);
    }
}

/// As many movements over the commits as there are commits, all in one
/// direction, lead back to the commit they started from.
pub proof fn lemma_commit_moves_return(state: AppState, direction: Direction)
    requires
        state.selected_pane == Pane::Commits,
        state.selected_commit < state.commits_order@.len(),
        state.commits_order@.len() <= usize::MAX,
    ensures
        state.after_moves(direction, state.commits_order@.len()).selected_commit
            == state.selected_commit,
{
    lemma_commit_moves(state, direction, state.commits_order@.len());
}

/// A movement in the diff never takes the viewport past either end: going
/// down, the position changes only where the last row then still stands
/// on a line of the diff; going up, only where the position was above 0,
/// and by one line.
pub proof fn lemma_scroll_stays_within(state: AppState, direction: Direction)
    requires
        state.selected_pane == Pane::Diff,
    ensures
        ({
            let after = state.after_navigate(direction);
            match direction {
                Direction::Down => after.scroll_position == state.scroll_position || (
                after.scroll_position == state.scroll_position + 1 && after.scroll_position
                    + after.scroll_height <= state.selected().diff_len),
                Direction::Up => after.scroll_position == state.scroll_position || (
                state.scroll_position > 0 && after.scroll_position == state.scroll_position - 1),
            }
        }),
        state.scroll_position + state.scroll_height <= state.selected().diff_len
            ==> state.after_navigate(direction).scroll_position + state.after_navigate(
            direction,
        ).scroll_height <= state.selected().diff_len,
{
}

} // verus!
