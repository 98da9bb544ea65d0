//! From the lines of a patch to the tree of a commit.

use vstd::prelude::*;

use vstd::seq_lib::{
    lemma_multiset_commutative, to_multiset_build, to_multiset_contains, to_multiset_insert,
};

use crate::file_tree::{
    lemma_first_dir_range, total_lines, FileChangeKind, FileTree, FileView, StructuralError,
    TreeView,
};
use crate::state::{change_views, Change, ChangeKind, ChangeView, Commit};
use crate::text::split_on;
use crate::tree_lemmas::{
    lemma_sorted_depth, lemma_sorted_leaves, lemma_total_lines_permutation, lemma_with_file_depth,
    lemma_with_file_leaves,
};

verus! {

/// One line of a patch as the diff source hands it over: the marker in
/// front of it, the path of the file on either side of the change where it
/// could be told, and the line's text where it could be read.
#[derive(Debug)]
pub struct DiffLine {
    pub origin: char,
    pub old_path: Option<String>,
    pub new_path: Option<String>,
    pub content: Option<String>,
}

/// The mathematical value of a [`DiffLine`].
pub struct DiffLineView {
    pub origin: char,
    pub old_path: Option<Seq<char>>,
    pub new_path: Option<Seq<char>>,
    pub content: Option<Seq<char>>,
}

/// What an optional string holds.
pub open spec fn opt_str(s: Option<String>) -> Option<Seq<char>> {
    match s {
        Some(s) => Some(s@),
        None => None,
    }
}

impl View for DiffLine {
    type V = DiffLineView;

    open spec fn view(&self) -> DiffLineView {
        DiffLineView {
            origin: self.origin,
            old_path: opt_str(self.old_path),
            new_path: opt_str(self.new_path),
            content: opt_str(self.content),
        }
    }
}

/// What a run of patch lines holds.
pub open spec fn diff_line_views(lines: Seq<DiffLine>) -> Seq<DiffLineView> {
    lines.map_values(|line: DiffLine| line@)
}

/// A patch line that counts: the file it belongs to, its text and its kind.
pub struct LineView {
    pub path: Seq<char>,
    pub text: Seq<char>,
    pub kind: ChangeKind,
}

/// The kind of line that a marker stands for, if it stands for one.
pub open spec fn kind_of(origin: char) -> Option<ChangeKind> {
    if origin == ' ' {
        Some(ChangeKind::Context)
    } else if origin == '+' {
        Some(ChangeKind::Insertion)
    } else if origin == '-' {
        Some(ChangeKind::Deletion)
    } else {
        None
    }
}

/// The path that a line of kind `kind` belongs to: the old one for a
/// deletion, the new one otherwise.
pub open spec fn path_of(line: DiffLineView, kind: ChangeKind) -> Option<Seq<char>> {
    match kind {
        ChangeKind::Deletion => line.old_path,
        _ => line.new_path,
    }
}

/// The line as it counts, or `None` where it is passed over: its text could
/// not be read, its marker stands for no kind, or its path could not be
/// told.
pub open spec fn accepted(line: DiffLineView) -> Option<LineView> {
    match (line.content, kind_of(line.origin)) {
        (Some(text), Some(kind)) => match path_of(line, kind) {
            Some(path) => Some(LineView { path, text, kind }),
            None => None,
        },
        _ => None,
    }
}

/// The lines of a patch that count, in order.
pub open spec fn accepted_lines(raw: Seq<DiffLineView>) -> Seq<LineView>
    decreases raw.len(),
{
    if raw.len() == 0 {
        Seq::empty()
    } else {
        match accepted(raw.last()) {
            Some(line) => accepted_lines(raw.drop_last()).push(line),
            None => accepted_lines(raw.drop_last()),
        }
    }
}

/// What a file is taken for once a line of kind `line` has been seen, given
/// what it was taken for before, if any line of it had been seen: a creation
/// while every line is an insertion, a deletion while every line is a
/// deletion, a modification otherwise.
pub open spec fn classify(previous: Option<FileChangeKind>, line: ChangeKind) -> FileChangeKind {
    if line == ChangeKind::Insertion && (previous is None || previous == Some(
        FileChangeKind::Creation,
    )) {
        FileChangeKind::Creation
    } else if line == ChangeKind::Deletion && (previous is None || previous == Some(
        FileChangeKind::Deletion,
    )) {
        FileChangeKind::Deletion
    } else {
        FileChangeKind::Modification
    }
}

/// Classifies a file anew after one more of its lines.
pub fn update_file_change_kind(
    file_change_kind: Option<FileChangeKind>,
    line_change_kind: ChangeKind,
) -> (kind: FileChangeKind)
    ensures
        kind == classify(file_change_kind, line_change_kind),
{
    match file_change_kind {
        Some(kind) => match kind {
            FileChangeKind::Creation => match line_change_kind {
                ChangeKind::Context | ChangeKind::Deletion => FileChangeKind::Modification,
                ChangeKind::Insertion => FileChangeKind::Creation,
            },
            FileChangeKind::Deletion => match line_change_kind {
                ChangeKind::Context | ChangeKind::Insertion => FileChangeKind::Modification,
                ChangeKind::Deletion => FileChangeKind::Deletion,
            },
            FileChangeKind::Modification => FileChangeKind::Modification,
        },
        None => match line_change_kind {
            ChangeKind::Context => FileChangeKind::Modification,
            ChangeKind::Insertion => FileChangeKind::Creation,
            ChangeKind::Deletion => FileChangeKind::Deletion,
        },
    }
}

/// The kind of line that a marker stands for.
pub fn change_kind_of(origin: char) -> (kind: Option<ChangeKind>)
    ensures
        kind == kind_of(origin),
{
    if origin == ' ' {
        Some(ChangeKind::Context)
    } else if origin == '+' {
        Some(ChangeKind::Insertion)
    } else if origin == '-' {
        Some(ChangeKind::Deletion)
    } else {
        None
    }
}

/// One file of a patch: a run of lines that follow each other and share a
/// path.
pub struct FileRecord {
    pub path: Seq<char>,
    pub changes: Seq<ChangeView>,
    pub change_kind: FileChangeKind,
    pub scroll_start: nat,
}

impl FileRecord {
    /// The leaf that the file becomes in the tree.
    pub open spec fn leaf(self) -> FileView {
        FileView {
            name: split_on(self.path, '/').last(),
            changes: self.changes,
            change_kind: self.change_kind,
            scroll_start: self.scroll_start,
        }
    }
}

/// The files of a patch in the order in which they come. A file starts
/// where the path changes, at the number of lines before it.
pub open spec fn group_files(lines: Seq<LineView>) -> Seq<FileRecord>
    decreases lines.len(),
{
    if lines.len() == 0 {
        Seq::empty()
    } else {
        let before = group_files(lines.drop_last());
        let line = lines.last();
        let change = ChangeView { text: line.text, kind: line.kind };
        if before.len() > 0 && before.last().path == line.path {
            before.update(
                before.len() - 1,
                FileRecord {
                    path: line.path,
                    changes: before.last().changes.push(change),
                    change_kind: classify(Some(before.last().change_kind), line.kind),
                    scroll_start: before.last().scroll_start,
                },
            )
        } else {
            before.push(
                FileRecord {
                    path: line.path,
                    changes: seq![change],
                    change_kind: classify(None, line.kind),
                    scroll_start: (lines.len() - 1) as nat,
                },
            )
        }
    }
}

/// An empty tree under the directory `root`.
pub open spec fn root_tree(root: Seq<char>) -> TreeView {
    TreeView::Directory { name: root, children: Seq::empty() }
}

/// `tree` with every file of `files` added in turn, or `None` where one of
/// them cannot be added.
pub open spec fn insert_all(tree: TreeView, files: Seq<FileRecord>) -> Option<TreeView>
    decreases files.len(),
{
    if files.len() == 0 {
        Some(tree)
    } else {
        match insert_all(tree, files.drop_last()) {
            Some(t) => t.with_file(split_on(files.last().path, '/'), files.last().leaf()),
            None => None,
        }
    }
}

/// The tree of the files that are complete once `lines` have been seen:
/// all but the one that the last line belongs to.
pub open spec fn staged(root: Seq<char>, lines: Seq<LineView>) -> Option<TreeView> {
    let files = group_files(lines);
    if files.len() == 0 {
        Some(root_tree(root))
    } else {
        insert_all(root_tree(root), files.drop_last())
    }
}

/// The sorted tree of all the files of `lines` under the directory `root`,
/// or `None` where the paths of two files are at odds.
pub open spec fn built(root: Seq<char>, lines: Seq<LineView>) -> Option<TreeView> {
    match insert_all(root_tree(root), group_files(lines)) {
        Some(tree) => Some(tree.sorted()),
        None => None,
    }
}

/// The leaves that the files of a patch become.
pub open spec fn file_leaves(files: Seq<FileRecord>) -> Seq<FileView> {
    files.map_values(|file: FileRecord| file.leaf())
}

/// Whether every line of `lines` is of the kind `kind`.
pub open spec fn all_of_kind(lines: Seq<LineView>, kind: ChangeKind) -> bool {
    forall|i: int| 0 <= i < lines.len() ==> (#[trigger] lines[i]).kind == kind
}

/// Every line of a patch belongs to exactly one of its files: the files
/// hold as many lines as there are, none of them is empty, and each starts
/// at the number of lines in the files before it.
pub proof fn lemma_group_files(lines: Seq<LineView>)
    ensures
        group_files(lines).len() <= lines.len(),
        lines.len() > 0 ==> group_files(lines).len() > 0,
        total_lines(file_leaves(group_files(lines))) == lines.len(),
        forall|i: int|
            0 <= i < group_files(lines).len() ==> (#[trigger] group_files(lines)[i]).changes.len() >= 1,
        forall|i: int|
            0 <= i < group_files(lines).len() ==> (#[trigger] group_files(lines)[i]).scroll_start
                == total_lines(file_leaves(group_files(lines)).take(i)),
    decreases lines.len(),
{
    let files = group_files(lines);
    if lines.len() == 0 {
        assert(file_leaves(files) =~= Seq::empty());
    } else {
        let before = group_files(lines.drop_last());
        lemma_group_files(lines.drop_last());
        let line = lines.last();
        let leaves = file_leaves(files);
        let old_leaves = file_leaves(before);
        if before.len() > 0 && before.last().path == line.path {
            let last = before.len() - 1;
            assert(leaves.drop_last() =~= old_leaves.drop_last());
            assert(leaves.last().changes.len() == old_leaves.last().changes.len() + 1);
            assert forall|i: int| 0 <= i < files.len() implies (#[trigger] files[i]).scroll_start
                == total_lines(leaves.take(i)) by {
                assert(files[i].scroll_start == before[i].scroll_start);
                assert(leaves.take(i) =~= old_leaves.take(i));
            }
        } else {
            assert(leaves.drop_last() =~= old_leaves);
            assert forall|i: int| 0 <= i < files.len() implies (#[trigger] files[i]).scroll_start
                == total_lines(leaves.take(i)) by {
                if i < before.len() {
                    assert(files[i] == before[i]);
                    assert(leaves.take(i) =~= old_leaves.take(i));
                } else {
                    assert(leaves.take(i) =~= old_leaves);
                }
            }
        }
    }
}

/// The files of lines that share one path are one file, taken for a
/// creation where every line is an insertion, for a deletion where every
/// line is a deletion, and for a modification otherwise.
pub proof fn lemma_group_files_one_path(lines: Seq<LineView>)
    requires
        lines.len() > 0,
        forall|i: int| 0 <= i < lines.len() ==> (#[trigger] lines[i]).path == lines[0].path,
    ensures
        group_files(lines).len() == 1,
        group_files(lines)[0].path == lines[0].path,
        group_files(lines)[0].scroll_start == 0,
        group_files(lines)[0].changes.len() == lines.len(),
        group_files(lines)[0].change_kind == (if all_of_kind(lines, ChangeKind::Insertion) {
            FileChangeKind::Creation
        } else if all_of_kind(lines, ChangeKind::Deletion) {
            FileChangeKind::Deletion
        } else {
            FileChangeKind::Modification
        }),
    decreases lines.len(),
{
    let init = lines.drop_last();
    if init.len() == 0 {
        assert(group_files(init) =~= Seq::empty());
        assert(lines[0] == lines.last());
    } else {
        assert forall|i: int| 0 <= i < init.len() implies (#[trigger] init[i]).path
            == init[0].path by {
            assert(init[i] == lines[i]);
            assert(init[0] == lines[0]);
        }
        lemma_group_files_one_path(init);
        assert(init[0] == lines[0]);
        assert(lines.last() == lines[lines.len() - 1]);
        assert forall|kind: ChangeKind| all_of_kind(lines, kind) <==> (all_of_kind(init, kind)
            && lines.last().kind == kind) by {
            if all_of_kind(lines, kind) {
                assert forall|i: int| 0 <= i < init.len() implies (#[trigger] init[i]).kind
                    == kind by {
                    assert(init[i] == lines[i]);
                }
            }
            if all_of_kind(init, kind) && lines.last().kind == kind {
                assert forall|i: int| 0 <= i < lines.len() implies (#[trigger] lines[i]).kind
                    == kind by {
                    if i < init.len() {
                        assert(init[i] == lines[i]);
                    }
                }
            }
        }
        assert(init[0].kind == lines[0].kind);
        assert(!(all_of_kind(init, ChangeKind::Insertion) && all_of_kind(
            init,
            ChangeKind::Deletion,
        )));
    }
}

/// Adding files to a directory gives a directory that holds one more leaf
/// for each of them.
pub proof fn lemma_insert_all_leaves(tree: TreeView, files: Seq<FileRecord>)
    requires
        tree is Directory,
        insert_all(tree, files) is Some,
    ensures
        insert_all(tree, files)->0 is Directory,
        insert_all(tree, files)->0.leaves().to_multiset() == tree.leaves().to_multiset().add(
            file_leaves(files).to_multiset(),
        ),
    decreases files.len(),
{
    if files.len() == 0 {
        assert(file_leaves(files) =~= Seq::empty());
        assert(tree.leaves() + file_leaves(files) =~= tree.leaves());
        lemma_multiset_commutative(tree.leaves(), file_leaves(files));
    } else {
        let init = files.drop_last();
        let last = files.last();
        lemma_insert_all_leaves(tree, init);
        let before = insert_all(tree, init)->0;
        let at = lemma_with_file_leaves(before, split_on(last.path, '/'), last.leaf());
        to_multiset_insert(before.leaves(), at, last.leaf());
        assert(file_leaves(files) =~= file_leaves(init).push(last.leaf()));
        to_multiset_build(file_leaves(init), last.leaf());
        assert(tree.leaves().to_multiset().add(file_leaves(init).to_multiset()).insert(last.leaf())
            =~= tree.leaves().to_multiset().add(
            file_leaves(init).to_multiset().insert(last.leaf()),
        ));
    }
}

/// The first file of a patch can always be put into the empty tree.
pub proof fn lemma_insert_first(root: Seq<char>, file: FileRecord)
    ensures
        insert_all(root_tree(root), seq![file]) is Some,
{
    let files = seq![file];
    assert(files.drop_last() =~= Seq::empty());
    assert(insert_all(root_tree(root), files.drop_last()) == Some(root_tree(root)));
    lemma_first_dir_range(Seq::empty(), split_on(file.path, '/')[0]);
}

/// The tree of a patch accounts for every line once: its leaves are the
/// files of the patch in the order of the tree, each with the lines that
/// follow each other under its path and starting at the number of lines in
/// the files that come before it in the patch, and together they hold as
/// many lines as the patch has.
pub proof fn lemma_built_lines(root: Seq<char>, lines: Seq<LineView>)
    requires
        built(root, lines) is Some,
    ensures
        built(root, lines)->0 is Directory,
        built(root, lines)->0.leaves().to_multiset() == file_leaves(
            group_files(lines),
        ).to_multiset(),
        built(root, lines)->0.leaves().len() == group_files(lines).len(),
        built(root, lines)->0.total_lines() == lines.len(),
        forall|i: int|
            0 <= i < group_files(lines).len() ==> (#[trigger] group_files(lines)[i]).scroll_start
                == total_lines(file_leaves(group_files(lines)).take(i)),
{
    let files = group_files(lines);
    let tree = root_tree(root);
    lemma_group_files(lines);
    lemma_insert_all_leaves(tree, files);
    let unsorted = insert_all(tree, files)->0;
    lemma_sorted_leaves(unsorted);
    assert(tree.leaves() =~= Seq::empty());
    assert(tree.leaves() + file_leaves(files) =~= file_leaves(files));
    lemma_multiset_commutative(tree.leaves(), file_leaves(files));
    lemma_total_lines_permutation(built(root, lines)->0.leaves(), file_leaves(files));
}

/// The tree of a patch whose lines share one path holds one file, taken
/// for a creation where every line is an insertion, for a deletion where
/// every line is a deletion, and for a modification otherwise.
pub proof fn lemma_built_one_path(root: Seq<char>, lines: Seq<LineView>)
    requires
        lines.len() > 0,
        forall|i: int| 0 <= i < lines.len() ==> (#[trigger] lines[i]).path == lines[0].path,
    ensures
        built(root, lines) is Some,
        built(root, lines)->0.leaves().len() == 1,
        built(root, lines)->0.leaves()[0] == group_files(lines)[0].leaf(),
        built(root, lines)->0.leaves()[0].change_kind == (if all_of_kind(
            lines,
            ChangeKind::Insertion,
        ) {
            FileChangeKind::Creation
        } else if all_of_kind(lines, ChangeKind::Deletion) {
            FileChangeKind::Deletion
        } else {
            FileChangeKind::Modification
        }),
{
    let files = group_files(lines);
    lemma_group_files_one_path(lines);
    assert(files =~= seq![files[0]]);
    lemma_insert_first(root, files[0]);
    lemma_built_lines(root, lines);
    let leaves = built(root, lines)->0.leaves();
    let expected = file_leaves(files);
    assert(expected[0] == files[0].leaf());
    assert(leaves.contains(leaves[0]));
    to_multiset_contains(leaves, leaves[0]);
    to_multiset_contains(expected, leaves[0]);
    let at = choose|i: int| 0 <= i < expected.len() && expected[i] == leaves[0];
    assert(at == 0);
}

/// Gathers the lines of one commit's patch into a tree, line by line.
pub struct DiffTreeBuilder {
    tree: FileTree,
    failed: bool,
    path: Option<String>,
    changes: Vec<Change>,
    kind: Option<FileChangeKind>,
    next_scroll_start: usize,
    line_count: usize,
    root: Ghost<Seq<char>>,
    lines: Ghost<Seq<LineView>>,
}

impl DiffTreeBuilder {
    /// The name of the root directory.
    pub closed spec fn root(&self) -> Seq<char> {
        self.root@
    }

    /// The lines that have counted so far.
    pub closed spec fn seen(&self) -> Seq<LineView> {
        self.lines@
    }

    /// What holds of every builder.
    pub closed spec fn wf(&self) -> bool {
        let groups = group_files(self.lines@);
        &&& self.line_count == self.lines@.len()
        &&& self.failed || self.tree@.depth_within(usize::MAX as nat)
        &&& staged(self.root@, self.lines@) == (if self.failed {
            None
        } else {
            Some(self.tree@)
        })
        &&& match self.path {
            None => self.lines@.len() == 0 && self.changes@.len() == 0,
            Some(path) => {
                &&& groups.len() > 0
                &&& path@ == groups.last().path
                &&& change_views(self.changes@) == groups.last().changes
                &&& self.kind == Some(groups.last().change_kind)
                &&& self.next_scroll_start == groups.last().scroll_start
            },
        }
    }

    /// A builder that has seen no line, for a tree under `root_dir`.
    pub fn new(root_dir: &str) -> (builder: Self)
        ensures
            builder.wf(),
            builder.root() == root_dir@,
            builder.seen() == Seq::<LineView>::empty(),
    {
        DiffTreeBuilder {
            tree: FileTree::new(root_dir),
            failed: false,
            path: None,
            changes: Vec::new(),
            kind: None,
            next_scroll_start: 0,
            line_count: 0,
            root: Ghost(root_dir@),
            lines: Ghost(Seq::empty()),
        }
    }

    /// Puts the file that is being gathered into the tree.
    fn flush(&mut self)
        requires
            old(self).wf(),
            old(self).path is Some,
        ensures
            final(self).root@ == old(self).root@,
            final(self).lines@ == old(self).lines@,
            final(self).line_count == old(self).line_count,
            final(self).changes@.len() == 0,
            final(self).failed ==> insert_all(
                root_tree(old(self).root@),
                group_files(old(self).lines@),
            ) is None,
            !final(self).failed ==> insert_all(
                root_tree(old(self).root@),
                group_files(old(self).lines@),
            ) == Some(final(self).tree@),
            final(self).failed || final(self).tree@.depth_within(usize::MAX as nat),
    {
        let ghost groups = group_files(self.lines@);
        proof {
            assert(groups.drop_last().push(groups.last()) =~= groups);
        }
        let mut changes: Vec<Change> = Vec::new();
        core::mem::swap(&mut self.changes, &mut changes);
        let path = self.path.take();
        let kind = self.kind.take();
        match (path, kind) {
            (Some(path), Some(kind)) => {
                if !self.failed {
                    let ghost before = self.tree@;
                    let done = self.tree.insert_file(
                        path.as_str(),
                        changes,
                        kind,
                        self.next_scroll_start,
                    );
                    if done.is_err() {
                        self.failed = true;
                    } else {
                        proof {
                            lemma_with_file_depth(
                                before,
                                split_on(path@, '/'),
                                groups.last().leaf(),
                                usize::MAX as nat,
                            );
                        }
                    }
                }
            },
            _ => {},
        }
    }

    /// Takes in the next line of the patch. A line that does not count
    /// changes nothing.
    pub fn push_line(&mut self, line: &DiffLine)
        requires
            old(self).wf(),
            old(self).seen().len() < usize::MAX,
        ensures
            final(self).wf(),
            final(self).root() == old(self).root(),
            final(self).seen() == (match accepted(line@) {
                Some(l) => old(self).seen().push(l),
                None => old(self).seen(),
            }),
    {
        let text = match &line.content {
            Some(text) => text,
            None => {
                return ;
            },
        };
        let change_kind = match change_kind_of(line.origin) {
            Some(kind) => kind,
            None => {
                return ;
            },
        };
        let side = match change_kind {
            ChangeKind::Insertion | ChangeKind::Context => &line.new_path,
            ChangeKind::Deletion => &line.old_path,
        };
        let file_path = match side {
            Some(path) => path,
            None => {
                return ;
            },
        };
        let ghost taken = LineView { path: file_path@, text: text@, kind: change_kind };
        let ghost before = self.lines@;
        let ghost after = before.push(taken);
        proof {
            assert(accepted(line@) == Some(taken));
            assert(after.drop_last() =~= before);
        }
        let same = match &self.path {
            Some(current) => *current == *file_path,
            None => false,
        };
        let ghost groups = group_files(before);
        let ghost grown = group_files(after);
        if !same {
            if self.path.is_some() {
                self.flush();
            }
            self.path = Some(file_path.clone());
            self.kind = None;
            self.next_scroll_start = self.line_count;
            proof {
                assert(grown.drop_last() =~= groups);
                assert(staged(self.root@, after) == insert_all(root_tree(self.root@), groups));
            }
        } else {
            proof {
                assert(grown.drop_last() =~= groups.drop_last());
            }
        }
        self.kind = Some(update_file_change_kind(self.kind, change_kind));
        self.line_count += 1;
        let change = Change { text: text.clone(), kind: change_kind };
        let ghost held = self.changes@;
        self.changes.push(change);
        proof {
            assert(change_views(self.changes@) =~= change_views(held).push(change@));
            self.lines@ = after;
            assert(change_views(self.changes@) =~= grown.last().changes);
        }
    }

    /// The tree of all the lines taken in, sorted.
    pub fn finish(self) -> (tree: Result<FileTree, StructuralError>)
        requires
            self.wf(),
        ensures
            match tree {
                Ok(t) => built(self.root(), self.seen()) == Some(t@) && t@ is Directory
                    && t@.bounded(),
                Err(_) => built(self.root(), self.seen()) is None,
            },
    {
        let mut builder = self;
        if builder.path.is_some() {
            builder.flush();
        }
        if builder.failed {
            Err(StructuralError)
        } else {
            let mut tree = builder.tree;
            proof {
                lemma_sorted_depth(tree@, usize::MAX as nat);
                lemma_built_lines(builder.root@, builder.lines@);
                lemma_group_files(builder.lines@);
            }
            tree.sort();
            Ok(tree)
        }
    }
}

/// The tree of one commit's patch under the directory `root_dir`: its files
/// in the order of their names, each with its lines, what it is taken for
/// and the number of lines before it.
pub fn get_commit_diff(root_dir: &str, lines: &Vec<DiffLine>) -> (tree: Result<
    FileTree,
    StructuralError,
>)
    ensures
        match tree {
            Ok(t) => built(root_dir@, accepted_lines(diff_line_views(lines@))) == Some(t@) && t@
                is Directory && t@.bounded(),
            Err(_) => built(root_dir@, accepted_lines(diff_line_views(lines@))) is None,
        },
{
    let ghost raw = diff_line_views(lines@);
    let mut builder = DiffTreeBuilder::new(root_dir);
    let mut i: usize = 0;
    proof {
        assert(raw.take(0) =~= Seq::empty());
    }
    while i < lines.len()
        invariant
            i <= lines.len(),
            raw == diff_line_views(lines@),
            builder.wf(),
            builder.root() == root_dir@,
            builder.seen() == accepted_lines(raw.take(i as int)),
            builder.seen().len() <= i,
        decreases lines.len() - i,
    {
        proof {
            assert(raw.take(i + 1).drop_last() =~= raw.take(i as int));
            assert(raw.take(i + 1).last() == lines@[i as int]@);
        }
        builder.push_line(&lines[i]);
        i += 1;
    }
    proof {
        assert(raw.take(i as int) =~= raw);
    }
    builder.finish()
}

/// The name of the root of every tree: the name of the directory that the
/// work tree lives in, or `root` where there is none.
pub fn root_dir_name<'a>(work_dir: Option<&'a str>) -> (name: &'a str)
    ensures
        name@ == (match work_dir {
            Some(dir) => dir@,
            None => "root"@,
        }),
{
    match work_dir {
        Some(dir) => dir,
        None => "root",
    }
}

/// What the diff source tells of one commit: who made it, what it is
/// called, and the lines of its patch against its first parent.
#[derive(Debug)]
pub struct CommitSource {
    pub hash: String,
    pub message: Option<String>,
    pub author: String,
    pub lines: Vec<DiffLine>,
}

impl CommitSource {
    /// The lines of the commit's patch that count.
    pub open spec fn counted(&self) -> Seq<LineView> {
        accepted_lines(diff_line_views(self.lines@))
    }
}

/// Whether `commit` is what `source` tells of, with the tree of its patch
/// under the directory `root`.
pub open spec fn commit_of(commit: Commit, source: CommitSource, root: Seq<char>) -> bool {
    &&& commit.hash@ == source.hash@
    &&& commit.author@ == source.author@
    &&& opt_str(commit.message) == opt_str(source.message)
    &&& built(root, source.counted()) == Some(commit.file_tree@)
    &&& commit.diff_len == source.counted().len()
    &&& commit.wf()
}

/// The commits of a range with their trees, and their hashes in the order
/// in which the source gives them. Fails where the paths of one commit's
/// patch are at odds.
pub fn commits_in_range(root_dir: &str, sources: &Vec<CommitSource>) -> (found: Result<
    (Vec<Commit>, Vec<String>),
    StructuralError,
>)
    ensures
        match found {
            Ok((commits, order)) => {
                &&& commits@.len() == sources@.len()
                &&& order@.len() == sources@.len()
                &&& forall|i: int|
                    0 <= i < sources@.len() ==> commit_of(
                        #[trigger] commits@[i],
                        sources@[i],
                        root_dir@,
                    )
                &&& forall|i: int|
                    0 <= i < sources@.len() ==> (#[trigger] order@[i])@ == sources@[i].hash@
            },
            Err(_) => exists|i: int|
                0 <= i < sources@.len() && built(root_dir@, (#[trigger] sources@[i]).counted())
                    is None,
        },
{
    let mut commits: Vec<Commit> = Vec::new();
    let mut order: Vec<String> = Vec::new();
    let mut i: usize = 0;
    while i < sources.len()
        invariant
            i <= sources.len(),
            commits@.len() == i,
            order@.len() == i,
            forall|j: int| 0 <= j < i ==> commit_of(#[trigger] commits@[j], sources@[j], root_dir@),
            forall|j: int| 0 <= j < i ==> (#[trigger] order@[j])@ == sources@[j].hash@,
        decreases sources.len() - i,
    {
        let source = &sources[i];
        let file_tree = match get_commit_diff(root_dir, &source.lines) {
            Ok(tree) => tree,
            Err(e) => {
                return Err(e);
            },
        };
        proof {
            lemma_built_lines(root_dir@, source.counted());
        }
        let message = match &source.message {
            Some(text) => Some(text.clone()),
            None => None,
        };
        let commit = Commit::new(source.hash.clone(), message, source.author.clone(), file_tree);
        order.push(source.hash.clone());
        commits.push(commit);
        i += 1;
    }
    Ok((commits, order))
}

} // verus!
