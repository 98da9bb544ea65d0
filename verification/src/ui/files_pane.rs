//! The files of a commit as an indented list.

use vstd::prelude::*;
use vstd::string::StringExecFns;

use crate::file_tree::{depths_fit, lemma_depths_within, FileTree, TreeView};
use crate::state::{AppState, Pane};
use crate::ui::LineStyle;

verus! {

/// The pane that lists the files of the selected commit as a tree.
#[derive(Debug, Default)]
pub struct FilesPane {}

/// One row of the list: a directory or a file.
#[derive(Debug)]
pub struct FileRow {
    pub text: String,
    pub style: LineStyle,
}

/// The mathematical value of a [`FileRow`].
pub struct FileRowView {
    pub text: Seq<char>,
    pub style: LineStyle,
}

impl View for FileRow {
    type V = FileRowView;

    open spec fn view(&self) -> FileRowView {
        FileRowView { text: self.text@, style: self.style }
    }
}

/// The rows of the list, and which of them are files: `selectable[i]` is the
/// row of the file with the index `i`.
#[derive(Debug)]
pub struct FileList {
    pub rows: Vec<FileRow>,
    pub selectable: Vec<usize>,
}

/// What a run of rows holds.
pub open spec fn row_views(rows: Seq<FileRow>) -> Seq<FileRowView> {
    rows.map_values(|row: FileRow| row@)
}

/// `count` spaces.
pub open spec fn spaces(count: nat) -> Seq<char> {
    Seq::new(count, |i: int| ' ')
}

/// The row of a node at `depth`: two spaces for each level, then a
/// directory's name behind ` / ` or a file's behind a space. A file that
/// was created or deleted is drawn as an inserted or deleted line is.
pub open spec fn row_of(node: TreeView, depth: nat) -> FileRowView {
    match node {
        TreeView::Directory { name, .. } => FileRowView {
            text: spaces(2 * depth) + seq![' ', '/', ' '] + name,
            style: LineStyle::Plain,
        },
        TreeView::File(file) => FileRowView {
            text: spaces(2 * depth) + seq![' '] + file.name,
            style: LineStyle::of_file(file.change_kind),
        },
    }
}

/// The rows of a listing, one for each entry.
pub open spec fn rows_of(entries: Seq<(TreeView, nat)>) -> Seq<FileRowView> {
    entries.map_values(|entry: (TreeView, nat)| row_of(entry.0, entry.1))
}

/// The positions of the files in a listing, in order.
pub open spec fn file_positions(entries: Seq<(TreeView, nat)>) -> Seq<int>
    decreases entries.len(),
{
    if entries.len() == 0 {
        Seq::empty()
    } else {
        let before = file_positions(entries.drop_last());
        if entries.last().0 is File {
            before.push(entries.len() - 1)
        } else {
            before
        }
    }
}

/// The row numbers of a list as integers.
pub open spec fn positions(selectable: Seq<usize>) -> Seq<int> {
    selectable.map_values(|row: usize| row as int)
}

impl FilesPane {
    /// The text of the row of a node called `name` at `depth`.
    fn row_text(name: &str, is_dir: bool, depth: usize) -> (text: String)
        ensures
            text@ == spaces(2 * depth as nat) + (if is_dir {
                seq![' ', '/', ' ']
            } else {
                seq![' ']
            }) + name@,
    {
        let mut text = String::new();
        let mut level: usize = 0;
        proof {
            reveal_strlit("  ");
            reveal_strlit(" / ");
            reveal_strlit(" ");
            assert(text@ =~= spaces(0));
        }
        while level < depth
            invariant
                level <= depth,
                text@ == spaces(2 * level as nat),
                "  "@ == seq![' ', ' '],
            decreases depth - level,
        {
            text.append("  ");
            level += 1;
            proof {
                assert(text@ =~= spaces(2 * level as nat));
            }
        }
        if is_dir {
            text.append(" / ");
        } else {
            text.append(" ");
        }
        text.append(name);
        text
    }

    /// The list of the nodes of `tree`, a directory before what it holds.
    pub fn rows(tree: &FileTree) -> (list: FileList)
        requires
            tree@.depth_within(usize::MAX as nat),
        ensures
            row_views(list.rows@) == rows_of(tree@.entries(0)),
            positions(list.selectable@) == file_positions(tree@.entries(0)),
    {
        let ghost entries = tree@.entries(0);
        let mut rows: Vec<FileRow> = Vec::new();
        let mut selectable: Vec<usize> = Vec::new();
        let mut nodes = tree.iter();
        proof {
            lemma_depths_within(tree@, 0, usize::MAX as nat);
            assert(entries.take(0) =~= Seq::empty());
            assert(entries.skip(0) =~= entries);
            assert(row_views(rows@) =~= rows_of(entries.take(0)));
            assert(positions(selectable@) =~= file_positions(entries.take(0)));
        }
        loop
            invariant
                entries == tree@.entries(0),
                rows@.len() <= entries.len(),
                nodes.remaining() == entries.skip(rows@.len() as int),
                depths_fit(nodes.remaining()),
                row_views(rows@) == rows_of(entries.take(rows@.len() as int)),
                positions(selectable@) == file_positions(entries.take(rows@.len() as int)),
            decreases entries.len() - rows@.len(),
        {
            let ghost at = rows@.len() as int;
            let item = match nodes.next() {
                None => {
                    proof {
                        assert(entries.take(at) =~= entries);
                    }
                    return FileList { rows, selectable };
                },
                Some(item) => item,
            };
            proof {
                assert(item@ == entries[at]);
                assert(entries.skip(at).drop_first() =~= entries.skip(at + 1));
                assert(entries.take(at + 1).drop_last() =~= entries.take(at));
                assert(entries.take(at + 1).last() == entries[at]);
            }
            let row = match item.node {
                FileTree::Directory { name, .. } => FileRow {
                    text: Self::row_text(name.as_str(), true, item.depth),
                    style: LineStyle::Plain,
                },
                FileTree::File { name, change_kind, .. } => {
                    let ghost held = selectable@;
                    selectable.push(rows.len());
                    proof {
                        assert(positions(selectable@) =~= positions(held).push(at));
                    }
                    FileRow {
                        text: Self::row_text(name.as_str(), false, item.depth),
                        style: LineStyle::for_file(*change_kind),
                    }
                },
            };
            let ghost listed = rows@;
            proof {
                assert(row@ == row_of(entries[at].0, entries[at].1));
            }
            rows.push(row);
            proof {
                assert(row_views(rows@) =~= row_views(listed).push(row@));
                assert(rows_of(entries.take(at + 1)) =~= rows_of(entries.take(at)).push(row@));
            }
        }
    }

    /// The row that is marked where the file with the index `selected_file`
    /// is selected: none unless the pane has the focus.
    pub fn selected_row(list: &FileList, has_focus: bool, selected_file: usize) -> (row: Option<
        usize,
    >)
        ensures
            row == (if has_focus && selected_file < list.selectable@.len() {
                Some(list.selectable@[selected_file as int])
            } else {
                None
            }),
    {
        if has_focus && selected_file < list.selectable.len() {
            Some(list.selectable[selected_file])
        } else {
            None
        }
    }
}

/// What the pane shows: the list, the row that is marked, if any, and
/// what the scroll bar stands at.
#[derive(Debug)]
pub struct FilesView {
    pub list: FileList,
    pub selected_row: Option<usize>,
    pub scroll_length: usize,
    pub scroll_position: usize,
}

impl FilesPane {
    /// What the pane shows of `state`: the tree of the selected commit, the
    /// selected file marked where the pane has the focus, and a scroll bar
    /// over the files.
    pub fn render(state: &AppState) -> (view: FilesView)
        requires
            state.wf(),
            state.commits_order@.len() > 0,
        ensures
            row_views(view.list.rows@) == rows_of(state.selected().file_tree@.entries(0)),
            positions(view.list.selectable@) == file_positions(
                state.selected().file_tree@.entries(0),
            ),
            view.selected_row == (if state.selected_pane == Pane::Files && state.selected_file
                < view.list.selectable@.len() {
                Some(view.list.selectable@[state.selected_file as int])
            } else {
                None
            }),
            view.scroll_length == view.list.selectable@.len(),
            view.scroll_position == state.selected_file,
    {
        let commit = state.get_selected_commit();
        let list = Self::rows(&commit.file_tree);
        let has_focus = match state.selected_pane {
            Pane::Files => true,
            _ => false,
        };
        let selected_row = Self::selected_row(&list, has_focus, state.selected_file);
        let scroll_length = list.selectable.len();
        FilesView { list, selected_row, scroll_length, scroll_position: state.selected_file }
    }
}

} // verus!
