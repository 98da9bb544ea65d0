//! The tree of the files that a commit touched, its walks and its order.

use vstd::prelude::*;

use crate::state::{change_views, Change, ChangeView};
use crate::text::{precedes, split, split_on, str_precedes, strs};

verus! {

/// What a diff did to one file as a whole.
#[derive(Debug, Clone, Copy, PartialEq, Eq, Structural)]
pub enum FileChangeKind {
    Creation,
    Deletion,
    Modification,
}

/// The files that a commit touched, arranged by directory.
#[derive(Debug)]
pub enum FileTree {
    Directory { name: String, children: Vec<FileTree> },
    File { name: String, changes: Vec<Change>, change_kind: FileChangeKind, scroll_start: usize },
}

/// The mathematical value of a `File` leaf.
pub struct FileView {
    pub name: Seq<char>,
    pub changes: Seq<ChangeView>,
    pub change_kind: FileChangeKind,
    pub scroll_start: nat,
}

/// The mathematical value of a [`FileTree`].
pub enum TreeView {
    Directory { name: Seq<char>, children: Seq<TreeView> },
    File(FileView),
}

/// The values of a run of trees, in order.
pub open spec fn tree_views(trees: Seq<FileTree>) -> Seq<TreeView>
    decreases trees,
{
    Seq::new(
        trees.len(),
        |i: int|
            if 0 <= i < trees.len() {
                trees[i].view()
            } else {
                arbitrary()
            },
    )
}

impl View for FileTree {
    type V = TreeView;

    open spec fn view(&self) -> TreeView
        decreases self,
    {
        match self {
            FileTree::Directory { name, children } => TreeView::Directory {
                name: name@,
                children: tree_views(children@),
            },
            FileTree::File { name, changes, change_kind, scroll_start } => TreeView::File(
                FileView {
                    name: name@,
                    changes: change_views(changes@),
                    change_kind: *change_kind,
                    scroll_start: *scroll_start as nat,
                },
            ),
        }
    }
}

impl TreeView {
    /// The node's own name: the last segment of its path.
    pub open spec fn name(self) -> Seq<char> {
        match self {
            TreeView::Directory { name, .. } => name,
            TreeView::File(f) => f.name,
        }
    }

    /// The `File` leaves under this node in the order in which they are
    /// visited: a directory's last child first.
    pub open spec fn leaves(self) -> Seq<FileView>
        decreases self, 0nat,
    {
        match self {
            TreeView::Directory { children, .. } => leaves_of(children),
            TreeView::File(f) => seq![f],
        }
    }

    /// Every node under this one with its depth, a directory before what it
    /// holds and its last child first; `self` stands at `depth`.
    pub open spec fn entries(self, depth: nat) -> Seq<(TreeView, nat)>
        decreases self, 0nat,
    {
        match self {
            TreeView::Directory { children, .. } => seq![(self, depth)] + entries_of(
                children,
                depth + 1,
            ),
            TreeView::File(_) => seq![(self, depth)],
        }
    }

    /// The number of diff lines held by the leaves under this node.
    pub open spec fn total_lines(self) -> nat {
        total_lines(self.leaves())
    }
}

/// The leaves that a stack of pending nodes still has to give, the top of the
/// stack (its last element) first.
pub open spec fn leaves_of(stack: Seq<TreeView>) -> Seq<FileView>
    decreases stack, 1nat,
{
    if stack.len() == 0 {
        Seq::empty()
    } else {
        stack.last().leaves() + leaves_of(stack.drop_last())
    }
}

/// The entries of a run of sibling nodes that all stand at `depth`, the last
/// sibling first.
pub open spec fn entries_of(nodes: Seq<TreeView>, depth: nat) -> Seq<(TreeView, nat)>
    decreases nodes, 1nat,
{
    if nodes.len() == 0 {
        Seq::empty()
    } else {
        nodes.last().entries(depth) + entries_of(nodes.drop_last(), depth)
    }
}

/// The number of diff lines in a run of files.
pub open spec fn total_lines(files: Seq<FileView>) -> nat
    decreases files.len(),
{
    if files.len() == 0 {
        0
    } else {
        total_lines(files.drop_last()) + files.last().changes.len()
    }
}

impl FileTree {
    /// An empty directory named `root_dir`.
    pub fn new(root_dir: &str) -> (tree: Self)
        ensures
            tree@ == (TreeView::Directory { name: root_dir@, children: Seq::empty() }),
    {
        let tree = FileTree::Directory { name: root_dir.to_owned(), children: Vec::new() };
        assert(tree_views(Seq::<FileTree>::empty()) =~= Seq::empty());
        tree
    }

    /// The node's own name.
    pub fn name(&self) -> (name: &String)
        ensures
            name@ == self@.name(),
    {
        match self {
            FileTree::Directory { name, .. } => name,
            FileTree::File { name, .. } => name,
        }
    }
}


/// The values that a run of borrowed trees stands for.
pub open spec fn ref_views(trees: Seq<&FileTree>) -> Seq<TreeView> {
    Seq::new(trees.len(), |i: int| trees[i]@)
}

/// The number of nodes in a run of trees; pending work is measured by it.
pub open spec fn node_count(nodes: Seq<TreeView>) -> nat {
    entries_of(nodes, 0).len()
}

/// Taking pending nodes apart: what stands on top of the stack comes out
/// first.
pub proof fn lemma_leaves_of_concat(below: Seq<TreeView>, above: Seq<TreeView>)
    ensures
        leaves_of(below + above) == leaves_of(above) + leaves_of(below),
    decreases above.len(),
{
    if above.len() == 0 {
        assert(below + above =~= below);
        assert(leaves_of(above) + leaves_of(below) =~= leaves_of(below));
    } else {
        lemma_leaves_of_concat(below, above.drop_last());
        assert((below + above).drop_last() =~= below + above.drop_last());
        assert((below + above).last() == above.last());
        assert(leaves_of(below + above) =~= leaves_of(above) + leaves_of(below));
    }
}

/// The same for entries of siblings.
pub proof fn lemma_entries_of_concat(below: Seq<TreeView>, above: Seq<TreeView>, depth: nat)
    ensures
        entries_of(below + above, depth) == entries_of(above, depth) + entries_of(below, depth),
    decreases above.len(),
{
    if above.len() == 0 {
        assert(below + above =~= below);
        assert(entries_of(above, depth) + entries_of(below, depth) =~= entries_of(below, depth));
    } else {
        lemma_entries_of_concat(below, above.drop_last(), depth);
        assert((below + above).drop_last() =~= below + above.drop_last());
        assert((below + above).last() == above.last());
        assert(entries_of(below + above, depth) =~= entries_of(above, depth) + entries_of(
            below,
            depth,
        ));
    }
}

/// The number of entries does not depend on the depth they start from.
pub proof fn lemma_entries_len(node: TreeView, d1: nat, d2: nat)
    ensures
        node.entries(d1).len() == node.entries(d2).len(),
    decreases node, 0nat,
{
    match node {
        TreeView::Directory { children, .. } => {
            lemma_entries_of_len(children, d1 + 1, d2 + 1);
        },
        TreeView::File(_) => {},
    }
}

/// The same for siblings.
pub proof fn lemma_entries_of_len(nodes: Seq<TreeView>, d1: nat, d2: nat)
    ensures
        entries_of(nodes, d1).len() == entries_of(nodes, d2).len(),
    decreases nodes, 1nat,
{
    if nodes.len() > 0 {
        lemma_entries_len(nodes.last(), d1, d2);
        lemma_entries_of_len(nodes.drop_last(), d1, d2);
    }
}

/// Walks the `File` leaves of a tree.
#[derive(Debug)]
pub struct FileTreeFilesIter<'a> {
    stack: Vec<&'a FileTree>,
}

/// One `File` leaf, as the walk over leaves hands it out.
#[derive(Debug)]
pub struct FileTreeFilesItem<'a> {
    pub name: &'a str,
    pub changes: &'a Vec<Change>,
    pub change_kind: &'a FileChangeKind,
    pub scroll_start: usize,
}

impl<'a> View for FileTreeFilesItem<'a> {
    type V = FileView;

    open spec fn view(&self) -> FileView {
        FileView {
            name: self.name@,
            changes: change_views(self.changes@),
            change_kind: *self.change_kind,
            scroll_start: self.scroll_start as nat,
        }
    }
}

impl<'a> FileTreeFilesIter<'a> {
    /// The nodes that wait to be taken apart, the next one last.
    pub closed spec fn pending(&self) -> Seq<TreeView> {
        ref_views(self.stack@)
    }

    /// The leaves that the walk has still to hand out, the next one first.
    pub open spec fn remaining(&self) -> Seq<FileView> {
        leaves_of(self.pending())
    }

    /// A walk over the leaves of `root`.
    pub fn new(root: &'a FileTree) -> (it: Self)
        ensures
            it.remaining() == root@.leaves(),
    {
        let mut stack = Vec::new();
        stack.push(root);
        let it = FileTreeFilesIter { stack };
        proof {
            assert(it.pending() =~= seq![root@]);
            assert(it.pending().drop_last() =~= Seq::empty());
            assert(leaves_of(Seq::empty()) =~= Seq::empty());
            assert(it.remaining() =~= root@.leaves());
        }
        it
    }

    /// The next leaf, or `None` when every leaf has been handed out.
    pub fn next(&mut self) -> (item: Option<FileTreeFilesItem<'a>>)
        ensures
            match item {
                Some(file) => old(self).remaining().len() > 0 && file@ == old(self).remaining()[0]
                    && final(self).remaining() == old(self).remaining().drop_first(),
                None => old(self).remaining().len() == 0 && final(self).remaining().len() == 0,
            },
    {
        loop
            invariant
                self.remaining() == old(self).remaining(),
            decreases node_count(self.pending()),
        {
            let ghost before = self.pending();
            assert(leaves_of(before) == old(self).remaining());
            match self.stack.pop() {
                None => {
                    return None;
                },
                Some(node) => {
                    let ghost below = self.pending();
                    proof {
                        assert(below =~= before.drop_last());
                        assert(node@ == before.last());
                    }
                    match node {
                        FileTree::Directory { children, .. } => {
                            let ghost kids = tree_views(children@);
                            let mut i: usize = 0;
                            while i < children.len()
                                invariant
                                    i <= children.len(),
                                    kids == tree_views(children@),
                                    self.pending() == below + kids.take(i as int),
                                decreases children.len() - i,
                            {
                                let ghost prev = self.pending();
                                self.stack.push(&children[i]);
                                proof {
                                    assert(self.pending() =~= prev.push(kids[i as int]));
                                    assert(kids.take(i + 1) =~= kids.take(i as int).push(
                                        kids[i as int],
                                    ));
                                    assert(prev.push(kids[i as int]) =~= below + kids.take(i + 1));
                                }
                                i += 1;
                            }
                            proof {
                                assert(kids.take(i as int) =~= kids);
                                assert(node@.leaves() == leaves_of(kids));
                                lemma_leaves_of_concat(below, kids);
                                lemma_entries_of_concat(below, kids, 0);
                                lemma_entries_of_len(kids, 0, 1);
                                assert(node@.entries(0).len() == 1 + entries_of(kids, 1).len());
                            }
                        },
                        FileTree::File { name, changes, change_kind, scroll_start } => {
                            proof {
                                assert(node@.leaves() =~= seq![node@->0]);
                                assert(leaves_of(before) =~= seq![node@->0] + leaves_of(below));
                                assert(leaves_of(before).drop_first() =~= leaves_of(below));
                            }
                            return Some(
                                FileTreeFilesItem {
                                    name: name.as_str(),
                                    changes,
                                    change_kind,
                                    scroll_start: *scroll_start,
                                },
                            );
                        },
                    }
                },
            }
        }
    }
}

/// The entries that a stack of pending nodes, each with its depth, still has
/// to give, the top of the stack first.
pub open spec fn entries_pending(stack: Seq<(TreeView, nat)>) -> Seq<(TreeView, nat)>
    decreases stack.len(),
{
    if stack.len() == 0 {
        Seq::empty()
    } else {
        stack.last().0.entries(stack.last().1) + entries_pending(stack.drop_last())
    }
}

/// Whether every depth in a listing can be held in a `usize`.
pub open spec fn depths_fit(entries: Seq<(TreeView, nat)>) -> bool {
    forall|i: int| 0 <= i < entries.len() ==> (#[trigger] entries[i]).1 <= usize::MAX
}

/// Siblings paired with the depth they stand at.
pub open spec fn at_depth(nodes: Seq<TreeView>, depth: nat) -> Seq<(TreeView, nat)> {
    nodes.map_values(|node: TreeView| (node, depth))
}

/// Pending nodes with siblings on top of them give the entries of the
/// siblings first.
pub proof fn lemma_entries_pending_concat(below: Seq<(TreeView, nat)>, nodes: Seq<TreeView>, depth: nat)
    ensures
        entries_pending(below + at_depth(nodes, depth)) == entries_of(nodes, depth)
            + entries_pending(below),
    decreases nodes.len(),
{
    let above = at_depth(nodes, depth);
    if nodes.len() == 0 {
        assert(below + above =~= below);
        assert(entries_of(nodes, depth) + entries_pending(below) =~= entries_pending(below));
    } else {
        lemma_entries_pending_concat(below, nodes.drop_last(), depth);
        assert((below + above).drop_last() =~= below + at_depth(nodes.drop_last(), depth));
        assert((below + above).last() == (nodes.last(), depth));
        assert(entries_pending(below + above) =~= entries_of(nodes, depth) + entries_pending(
            below,
        ));
    }
}

/// Walks every node of a tree, a directory before what it holds.
#[derive(Debug)]
pub struct FileTreeIter<'a> {
    stack: Vec<(&'a FileTree, usize)>,
}

/// One node with its depth below the root, as the walk over nodes hands it
/// out.
#[derive(Debug)]
pub struct FileTreeItem<'a> {
    pub node: &'a FileTree,
    pub depth: usize,
}

impl<'a> View for FileTreeItem<'a> {
    type V = (TreeView, nat);

    open spec fn view(&self) -> (TreeView, nat) {
        (self.node@, self.depth as nat)
    }
}

impl<'a> FileTreeIter<'a> {
    /// The nodes that wait to be visited, the next one last.
    pub closed spec fn pending(&self) -> Seq<(TreeView, nat)> {
        Seq::new(self.stack@.len(), |i: int| (self.stack@[i].0@, self.stack@[i].1 as nat))
    }

    /// The entries that the walk has still to hand out, the next one first.
    pub open spec fn remaining(&self) -> Seq<(TreeView, nat)> {
        entries_pending(self.pending())
    }

    /// A walk over the nodes of `root`, which stands at depth 0.
    pub fn new(root: &'a FileTree) -> (it: Self)
        ensures
            it.remaining() == root@.entries(0),
    {
        let mut stack = Vec::new();
        stack.push((root, 0usize));
        let it = FileTreeIter { stack };
        proof {
            assert(it.pending() =~= seq![(root@, 0nat)]);
            assert(it.pending().drop_last() =~= Seq::empty());
            assert(entries_pending(Seq::empty()) =~= Seq::empty());
            assert(it.remaining() =~= root@.entries(0));
        }
        it
    }

    /// The next node, or `None` when every node has been handed out.
    pub fn next(&mut self) -> (item: Option<FileTreeItem<'a>>)
        requires
            depths_fit(old(self).remaining()),
        ensures
            match item {
                Some(entry) => old(self).remaining().len() > 0 && entry@ == old(
                    self,
                ).remaining()[0] && final(self).remaining() == old(self).remaining().drop_first(),
                None => old(self).remaining().len() == 0 && final(self).remaining().len() == 0,
            },
            depths_fit(final(self).remaining()),
    {
        let ghost before = self.pending();
        match self.stack.pop() {
            None => None,
            Some((node, depth)) => {
                let ghost below = self.pending();
                proof {
                    assert(below =~= before.drop_last());
                    assert((node@, depth as nat) == before.last());
                }
                if let FileTree::Directory { children, .. } = node {
                    let ghost kids = tree_views(children@);
                    proof {
                        assert(node@.entries(depth as nat) =~= seq![(node@, depth as nat)]
                            + entries_of(kids, depth as nat + 1));
                        if kids.len() > 0 {
                            let first = kids.last().entries(depth as nat + 1);
                            assert(first[0] == (kids.last(), depth as nat + 1));
                            assert(entries_pending(before)[1] == first[0]);
                        }
                    }
                    let mut i: usize = 0;
                    while i < children.len()
                        invariant
                            i <= children.len(),
                            kids == tree_views(children@),
                            kids.len() > 0 ==> depth < usize::MAX,
                            self.pending() == below + at_depth(kids.take(i as int), depth as nat + 1),
                        decreases children.len() - i,
                    {
                        let ghost prev = self.pending();
                        self.stack.push((&children[i], depth + 1));
                        proof {
                            assert(self.pending() =~= prev.push((kids[i as int], depth as nat + 1)));
                            assert(kids.take(i + 1) =~= kids.take(i as int).push(kids[i as int]));
                            assert(prev.push((kids[i as int], depth as nat + 1)) =~= below + at_depth(
                                kids.take(i + 1),
                                depth as nat + 1,
                            ));
                        }
                        i += 1;
                    }
                    proof {
                        assert(kids.take(i as int) =~= kids);
                        lemma_entries_pending_concat(below, kids, depth as nat + 1);
                        assert(entries_pending(before) =~= seq![(node@, depth as nat)]
                            + self.remaining());
                        assert(entries_pending(before).drop_first() =~= self.remaining());
                    }
                } else {
                    proof {
                        assert(node@.entries(depth as nat) =~= seq![(node@, depth as nat)]);
                        assert(entries_pending(before) =~= seq![(node@, depth as nat)]
                            + entries_pending(below));
                        assert(entries_pending(before).drop_first() =~= entries_pending(below));
                    }
                }
                Some(FileTreeItem { node, depth })
            },
        }
    }
}

impl FileTree {
    /// A walk over every node of the tree with its depth.
    pub fn iter(&self) -> (it: FileTreeIter<'_>)
        ensures
            it.remaining() == self@.entries(0),
    {
        FileTreeIter::new(self)
    }

    /// A walk over the `File` leaves of the tree.
    pub fn iter_files(&self) -> (it: FileTreeFilesIter<'_>)
        ensures
            it.remaining() == self@.leaves(),
    {
        FileTreeFilesIter::new(self)
    }

    /// The start of the next file after `start_at`: the smallest
    /// `scroll_start` among the leaves that is greater than `start_at`, if
    /// there is one.
    pub fn get_next_hunk(&self, start_at: usize) -> (hunk: Option<usize>)
        ensures
            match hunk {
                Some(h) => {
                    &&& h > start_at
                    &&& exists|i: int|
                        0 <= i < self@.leaves().len() && (#[trigger] self@.leaves()[i]).scroll_start
                            == h
                    &&& forall|i: int|
                        0 <= i < self@.leaves().len() && (#[trigger] self@.leaves()[i]).scroll_start
                            > start_at ==> h <= self@.leaves()[i].scroll_start
                },
                None => forall|i: int|
                    0 <= i < self@.leaves().len() ==> (#[trigger] self@.leaves()[i]).scroll_start
                        <= start_at,
            },
    {
        let ghost leaves = self@.leaves();
        let ghost mut seen: int = 0;
        let mut best: Option<usize> = None;
        let mut files = self.iter_files();
        loop
            invariant
                leaves == self@.leaves(),
                0 <= seen <= leaves.len(),
                files.remaining() == leaves.skip(seen),
                match best {
                    Some(h) => {
                        &&& h > start_at
                        &&& exists|i: int| 0 <= i < seen && (#[trigger] leaves[i]).scroll_start == h
                        &&& forall|i: int|
                            0 <= i < seen && (#[trigger] leaves[i]).scroll_start > start_at ==> h
                                <= leaves[i].scroll_start
                    },
                    None => forall|i: int|
                        0 <= i < seen ==> (#[trigger] leaves[i]).scroll_start <= start_at,
                },
            decreases leaves.len() - seen,
        {
            match files.next() {
                None => {
                    assert(seen == leaves.len());
                    return best;
                },
                Some(file) => {
                    proof {
                        assert(file@ == leaves[seen]);
                        assert(leaves.skip(seen).drop_first() =~= leaves.skip(seen + 1));
                    }
                    if file.scroll_start > start_at {
                        let closer = match best {
                            Some(h) => file.scroll_start < h,
                            None => true,
                        };
                        if closer {
                            best = Some(file.scroll_start);
                        }
                    }
                    proof {
                        seen = seen + 1;
                    }
                },
            }
        }
    }
}

/// A path was used as a file where it is needed as a directory.
#[derive(Debug, Clone, Copy, PartialEq, Eq, Structural)]
pub struct StructuralError;

/// Whether `node` is a directory called `name`.
pub open spec fn is_dir_named(node: TreeView, name: Seq<char>) -> bool {
    node is Directory && node.name() == name
}

/// Whether `node` is a file called `name`.
pub open spec fn is_file_named(node: TreeView, name: Seq<char>) -> bool {
    node is File && node.name() == name
}

/// The position of the first directory called `name` among `children`, or
/// their number if there is none.
pub open spec fn first_dir(children: Seq<TreeView>, name: Seq<char>) -> int
    decreases children.len(),
{
    if children.len() == 0 {
        0
    } else if is_dir_named(children[0], name) {
        0
    } else {
        1 + first_dir(children.drop_first(), name)
    }
}

/// Whether a file called `name` stands among `children`.
pub open spec fn has_file(children: Seq<TreeView>, name: Seq<char>) -> bool {
    exists|i: int| 0 <= i < children.len() && is_file_named(#[trigger] children[i], name)
}

/// The chain of new directories that leads down the path `segs` to `leaf`.
pub open spec fn fresh(segs: Seq<Seq<char>>, leaf: FileView) -> TreeView
    decreases segs.len(),
{
    if segs.len() <= 1 {
        TreeView::File(leaf)
    } else {
        TreeView::Directory { name: segs[0], children: seq![fresh(segs.drop_first(), leaf)] }
    }
}

impl TreeView {
    /// The tree with `leaf` added below the path `segs`, whose last segment
    /// names the leaf itself. Each segment before the last is looked for
    /// among the directories on the way, the first of that name is entered,
    /// and where there is none the rest of the path is made new and put
    /// last. `None` where the way is barred: at a file in place of a
    /// directory.
    pub open spec fn with_file(self, segs: Seq<Seq<char>>, leaf: FileView) -> Option<TreeView>
        decreases segs.len(),
    {
        match self {
            TreeView::File(_) => None,
            TreeView::Directory { name, children } => {
                if segs.len() <= 1 {
                    Some(TreeView::Directory { name, children: children.push(TreeView::File(leaf)) })
                } else {
                    let k = first_dir(children, segs[0]);
                    if k < children.len() {
                        match children[k].with_file(segs.drop_first(), leaf) {
                            Some(child) => Some(
                                TreeView::Directory { name, children: children.update(k, child) },
                            ),
                            None => None,
                        }
                    } else if has_file(children, segs[0]) {
                        None
                    } else {
                        Some(TreeView::Directory { name, children: children.push(fresh(segs, leaf)) })
                    }
                }
            },
        }
    }
}

/// The first directory of a name stands among the children, if anywhere.
pub proof fn lemma_first_dir_range(children: Seq<TreeView>, name: Seq<char>)
    ensures
        0 <= first_dir(children, name) <= children.len(),
        first_dir(children, name) < children.len() ==> is_dir_named(
            children[first_dir(children, name)],
            name,
        ),
    decreases children.len(),
{
    if children.len() > 0 && !is_dir_named(children[0], name) {
        lemma_first_dir_range(children.drop_first(), name);
    }
}

/// Where the first directory of a name stands.
pub proof fn lemma_first_dir(children: Seq<TreeView>, name: Seq<char>, k: int)
    requires
        0 <= k <= children.len(),
        forall|j: int| 0 <= j < k ==> !is_dir_named(#[trigger] children[j], name),
        k < children.len() ==> is_dir_named(children[k], name),
    ensures
        first_dir(children, name) == k,
    decreases children.len(),
{
    if children.len() > 0 && k > 0 {
        let rest = children.drop_first();
        assert(!is_dir_named(children[0], name));
        assert forall|j: int| 0 <= j < k - 1 implies !is_dir_named(#[trigger] rest[j], name) by {
            assert(rest[j] == children[j + 1]);
        }
        lemma_first_dir(rest, name, k - 1);
    }
}

impl FileTree {
    /// Adds a file at `path`, whose segments are separated by `/`; the
    /// directories on the way are found or made. Fails, and leaves the tree
    /// as it was, where a file bars the way.
    pub fn insert_file(
        &mut self,
        path: &str,
        changes: Vec<Change>,
        change_kind: FileChangeKind,
        scroll_start: usize,
    ) -> (done: Result<(), StructuralError>)
        ensures
            ({
                let segs = split_on(path@, '/');
                let leaf = FileView {
                    name: segs.last(),
                    changes: change_views(changes@),
                    change_kind,
                    scroll_start: scroll_start as nat,
                };
                match done {
                    Ok(_) => old(self)@.with_file(segs, leaf) == Some(final(self)@),
                    Err(_) => old(self)@.with_file(segs, leaf) is None && final(self)@ == old(
                        self,
                    )@,
                }
            }),
            1 <= split_on(path@, '/').len() <= usize::MAX,
    {
        let segments = split(path, '/');
        proof {
            assert(strs(segments@).skip(0) =~= strs(segments@));
        }
        self.insert_below(&segments, 0, changes, change_kind, scroll_start)
    }

    fn insert_below(
        &mut self,
        segments: &Vec<String>,
        from: usize,
        changes: Vec<Change>,
        change_kind: FileChangeKind,
        scroll_start: usize,
    ) -> (done: Result<(), StructuralError>)
        requires
            from < segments.len(),
        ensures
            ({
                let segs = strs(segments@).skip(from as int);
                let leaf = FileView {
                    name: strs(segments@).last(),
                    changes: change_views(changes@),
                    change_kind,
                    scroll_start: scroll_start as nat,
                };
                match done {
                    Ok(_) => old(self)@.with_file(segs, leaf) == Some(final(self)@),
                    Err(_) => old(self)@.with_file(segs, leaf) is None && final(self)@ == old(
                        self,
                    )@,
                }
            }),
        decreases segments.len() - from,
    {
        let ghost all = strs(segments@);
        let ghost segs = all.skip(from as int);
        let ghost leaf = FileView {
            name: all.last(),
            changes: change_views(changes@),
            change_kind,
            scroll_start: scroll_start as nat,
        };
        proof {
            assert(segs.len() == segments.len() - from);
            assert(segs[0] == segments@[from as int]@);
        }
        match self {
            FileTree::File { .. } => Err(StructuralError),
            FileTree::Directory { children, .. } => {
                let ghost kids = tree_views(children@);
                let last = segments.len() - 1;
                if from == last {
                    let file = FileTree::File {
                        name: segments[last].clone(),
                        changes,
                        change_kind,
                        scroll_start,
                    };
                    children.push(file);
                    proof {
                        assert(tree_views(children@) =~= kids.push(TreeView::File(leaf)));
                    }
                    return Ok(());
                }
                let seg = &segments[from];
                let mut k: usize = 0;
                let mut barred = false;
                while k < children.len()
                    invariant
                        k <= children.len(),
                        kids == tree_views(children@),
                        seg@ == segs[0],
                        forall|j: int| 0 <= j < k ==> !is_dir_named(#[trigger] kids[j], segs[0]),
                        barred <==> exists|j: int|
                            0 <= j < k && is_file_named(#[trigger] kids[j], segs[0]),
                    ensures
                        k <= children.len(),
                        forall|j: int| 0 <= j < k ==> !is_dir_named(#[trigger] kids[j], segs[0]),
                        k < children.len() ==> is_dir_named(kids[k as int], segs[0]),
                        k == children.len() ==> (barred <==> has_file(kids, segs[0])),
                    decreases children.len() - k,
                {
                    let same = *children[k].name() == *seg;
                    if same {
                        match &children[k] {
                            FileTree::Directory { .. } => {
                                break ;
                            },
                            FileTree::File { .. } => {
                                barred = true;
                            },
                        }
                    }
                    k += 1;
                }
                proof {
                    lemma_first_dir(kids, segs[0], k as int);
                    assert(segs.drop_first() =~= all.skip(from + 1));
                }
                if k < children.len() {
                    let done = children[k].insert_below(
                        segments,
                        from + 1,
                        changes,
                        change_kind,
                        scroll_start,
                    );
                    proof {
                        match done {
                            Ok(_) => {
                                assert(tree_views(children@) =~= kids.update(
                                    k as int,
                                    children@[k as int]@,
                                ));
                            },
                            Err(_) => {
                                assert(tree_views(children@) =~= kids);
                            },
                        }
                    }
                    done
                } else if barred {
                    Err(StructuralError)
                } else {
                    let mut node = FileTree::File {
                        name: segments[last].clone(),
                        changes,
                        change_kind,
                        scroll_start,
                    };
                    let mut at: usize = last;
                    proof {
                        assert(all.skip(last as int).len() == 1);
                    }
                    while at > from
                        invariant
                            from <= at <= last,
                            last == segments.len() - 1,
                            all == strs(segments@),
                            node@ == fresh(all.skip(at as int), leaf),
                        decreases at,
                    {
                        at -= 1;
                        let mut inner: Vec<FileTree> = Vec::new();
                        let ghost below = node@;
                        inner.push(node);
                        node = FileTree::Directory { name: segments[at].clone(), children: inner };
                        proof {
                            assert(tree_views(inner@) =~= seq![below]);
                            assert(all.skip(at as int).drop_first() =~= all.skip(at + 1));
                            assert(all.skip(at as int)[0] == segments@[at as int]@);
                        }
                    }
                    let ghost made = node@;
                    children.push(node);
                    proof {
                        assert(tree_views(children@) =~= kids.push(made));
                    }
                    Ok(())
                }
            },
        }
    }
}

/// `sorted` with `node` put behind every element whose name does not come
/// before its own.
pub open spec fn insert_desc(sorted: Seq<TreeView>, node: TreeView) -> Seq<TreeView>
    decreases sorted.len(),
{
    if sorted.len() == 0 {
        seq![node]
    } else if precedes(sorted[0].name(), node.name()) {
        seq![node] + sorted
    } else {
        seq![sorted[0]] + insert_desc(sorted.drop_first(), node)
    }
}

/// `nodes` in descending order of their names; of two nodes with one name
/// the one that stood later comes first.
pub open spec fn sort_desc(nodes: Seq<TreeView>) -> Seq<TreeView>
    decreases nodes.len(),
{
    if nodes.len() == 0 {
        Seq::empty()
    } else {
        insert_desc(sort_desc(nodes.drop_first()), nodes[0])
    }
}

/// Each of `nodes` sorted within itself, all in their places.
pub open spec fn sorted_all(nodes: Seq<TreeView>) -> Seq<TreeView>
    decreases nodes, 1nat,
{
    if nodes.len() == 0 {
        Seq::empty()
    } else {
        sorted_all(nodes.drop_last()).push(nodes.last().sorted())
    }
}

impl TreeView {
    /// The tree with the children of every directory in descending order of
    /// their names.
    pub open spec fn sorted(self) -> TreeView
        decreases self, 0nat,
    {
        match self {
            TreeView::Directory { name, children } => TreeView::Directory {
                name,
                children: sort_desc(sorted_all(children)),
            },
            TreeView::File(_) => self,
        }
    }
}

/// `sorted_all` sorts node by node.
pub proof fn lemma_sorted_all(nodes: Seq<TreeView>)
    ensures
        sorted_all(nodes).len() == nodes.len(),
        forall|i: int| 0 <= i < nodes.len() ==> sorted_all(nodes)[i] == (#[trigger] nodes[i]).sorted(),
    decreases nodes.len(),
{
    if nodes.len() > 0 {
        let init = nodes.drop_last();
        lemma_sorted_all(init);
        assert forall|i: int| 0 <= i < nodes.len() implies sorted_all(nodes)[i] == (
        #[trigger] nodes[i]).sorted() by {
            if i < init.len() {
                assert(init[i] == nodes[i]);
            }
        }
    }
}

/// Where `insert_desc` puts a node.
pub proof fn lemma_insert_desc(sorted: Seq<TreeView>, node: TreeView, k: int)
    requires
        0 <= k <= sorted.len(),
        forall|j: int| 0 <= j < k ==> !precedes((#[trigger] sorted[j]).name(), node.name()),
        k < sorted.len() ==> precedes(sorted[k].name(), node.name()),
    ensures
        insert_desc(sorted, node) == sorted.insert(k, node),
    decreases sorted.len(),
{
    if sorted.len() == 0 {
        assert(sorted.insert(k, node) =~= seq![node]);
    } else if k == 0 {
        assert(sorted.insert(0, node) =~= seq![node] + sorted);
    } else {
        let rest = sorted.drop_first();
        assert(!precedes(sorted[0].name(), node.name()));
        assert forall|j: int| 0 <= j < k - 1 implies !precedes(
            (#[trigger] rest[j]).name(),
            node.name(),
        ) by {
            assert(rest[j] == sorted[j + 1]);
        }
        lemma_insert_desc(rest, node, k - 1);
        assert(sorted.insert(k, node) =~= seq![sorted[0]] + rest.insert(k - 1, node));
    }
}

impl FileTree {
    /// Puts the children of every directory in descending order of their
    /// names; of two children with one name the one that stood later comes
    /// first.
    pub fn sort(&mut self)
        ensures
            final(self)@ == old(self)@.sorted(),
        decreases *old(self),
    {
        match self {
            FileTree::Directory { children, .. } => {
                let ghost first = *children;
                let ghost kids = tree_views(children@);
                let mut rest: Vec<FileTree> = Vec::new();
                core::mem::swap(children, &mut rest);
                proof {
                    lemma_sorted_all(kids);
                    assert(rest@.take(rest@.len() as int) =~= rest@);
                    assert(sorted_all(kids).skip(kids.len() as int) =~= Seq::empty());
                    assert(tree_views(children@) =~= Seq::empty());
                }
                while rest.len() > 0
                    invariant
                        *old(self) is Directory,
                        (*old(self))->children == first,
                        kids == tree_views(first@),
                        rest.len() <= first@.len(),
                        rest@ == first@.take(rest@.len() as int),
                        sorted_all(kids).len() == kids.len(),
                        forall|i: int|
                            0 <= i < kids.len() ==> sorted_all(kids)[i] == (#[trigger] kids[i]).sorted(),
                        tree_views(children@) == sort_desc(
                            sorted_all(kids).skip(rest@.len() as int),
                        ),
                    decreases rest.len(),
                {
                    let ghost done = tree_views(children@);
                    let mut node = rest.pop().unwrap();
                    let ghost at = rest@.len() as int;
                    proof {
                        assert(node == first@[at]);
                        assert(node@ == kids[at]);
                        assert(rest@ =~= first@.take(at));
                    }
                    node.sort();
                    proof {
                        let tail = sorted_all(kids).skip(at);
                        assert(tail[0] == node@);
                        assert(tail.drop_first() =~= sorted_all(kids).skip(at + 1));
                        assert(sort_desc(tail) == insert_desc(done, node@));
                    }
                    let mut k: usize = 0;
                    loop
                        invariant
                            k <= children.len(),
                            done == tree_views(children@),
                            forall|j: int|
                                0 <= j < k ==> !precedes((#[trigger] done[j]).name(), node@.name()),
                        ensures
                            k <= children.len(),
                            forall|j: int|
                                0 <= j < k ==> !precedes((#[trigger] done[j]).name(), node@.name()),
                            k < children.len() ==> precedes(done[k as int].name(), node@.name()),
                        decreases children.len() - k,
                    {
                        if k >= children.len() {
                            break ;
                        }
                        let smaller = str_precedes(
                            children[k].name().as_str(),
                            node.name().as_str(),
                        );
                        if smaller {
                            break ;
                        }
                        k += 1;
                    }
                    proof {
                        lemma_insert_desc(done, node@, k as int);
                    }
                    let ghost placed = node@;
                    children.insert(k, node);
                    proof {
                        assert(tree_views(children@) =~= done.insert(k as int, placed));
                    }
                }
                proof {
                    assert(sorted_all(kids).skip(0) =~= sorted_all(kids));
                }
            },
            FileTree::File { .. } => {},
        }
    }
}

impl TreeView {
    /// Whether no node stands more than `limit` levels below this one.
    pub open spec fn depth_within(self, limit: nat) -> bool
        decreases self, 0nat,
    {
        match self {
            TreeView::Directory { children, .. } => children.len() == 0 || (limit > 0
                && all_depth_within(children, (limit - 1) as nat)),
            TreeView::File(_) => true,
        }
    }

    /// Whether the tree's measures can be held in a `usize`: the number of
    /// its leaves, the number of their lines and the depth of every node.
    pub open spec fn bounded(self) -> bool {
        &&& self.leaves().len() <= usize::MAX
        &&& self.total_lines() <= usize::MAX
        &&& self.depth_within(usize::MAX as nat)
    }
}

/// Whether each of `nodes` is within `limit`.
pub open spec fn all_depth_within(nodes: Seq<TreeView>, limit: nat) -> bool
    decreases nodes, 1nat,
{
    nodes.len() == 0 || (nodes.last().depth_within(limit) && all_depth_within(
        nodes.drop_last(),
        limit,
    ))
}

/// In a tree within `limit`, listed from `depth`, no entry stands deeper than
/// `depth + limit`.
pub proof fn lemma_depths_within(node: TreeView, depth: nat, limit: nat)
    requires
        node.depth_within(limit),
    ensures
        forall|i: int|
            0 <= i < node.entries(depth).len() ==> (#[trigger] node.entries(depth)[i]).1 <= depth
                + limit,
    decreases node, 0nat,
{
    let listed = node.entries(depth);
    match node {
        TreeView::Directory { children, .. } => {
            let below = entries_of(children, depth + 1);
            assert(listed =~= seq![(node, depth)] + below);
            if children.len() > 0 {
                lemma_all_depths_within(children, depth + 1, (limit - 1) as nat);
            }
            assert forall|i: int| 0 <= i < listed.len() implies (#[trigger] listed[i]).1 <= depth
                + limit by {
                if i > 0 {
                    assert(listed[i] == below[i - 1]);
                }
            }
        },
        TreeView::File(_) => {},
    }
}

/// The same for siblings listed from `depth`.
pub proof fn lemma_all_depths_within(nodes: Seq<TreeView>, depth: nat, limit: nat)
    requires
        all_depth_within(nodes, limit),
    ensures
        forall|i: int|
            0 <= i < entries_of(nodes, depth).len() ==> (#[trigger] entries_of(nodes, depth)[i]).1
                <= depth + limit,
    decreases nodes, 1nat,
{
    if nodes.len() > 0 {
        lemma_depths_within(nodes.last(), depth, limit);
        lemma_all_depths_within(nodes.drop_last(), depth, limit);
        let first = nodes.last().entries(depth);
        let rest = entries_of(nodes.drop_last(), depth);
        let listed = entries_of(nodes, depth);
        assert(listed =~= first + rest);
        assert forall|i: int| 0 <= i < listed.len() implies (#[trigger] listed[i]).1 <= depth
            + limit by {
            if i < first.len() {
                assert(listed[i] == first[i]);
            } else {
                assert(listed[i] == rest[i - first.len()]);
            }
        }
    }
}

/// The lines of two runs of files add up.
pub proof fn lemma_total_lines_concat(a: Seq<FileView>, b: Seq<FileView>)
    ensures
        total_lines(a + b) == total_lines(a) + total_lines(b),
    decreases b.len(),
{
    if b.len() == 0 {
        assert(a + b =~= a);
    } else {
        lemma_total_lines_concat(a, b.drop_last());
        assert((a + b).drop_last() =~= a + b.drop_last());
    }
}

} // verus!
