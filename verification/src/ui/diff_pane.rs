//! The diff of a commit in a viewport: which lines of which files are on
//! view, and in which rows.

use vstd::prelude::*;
use vstd::slice::slice_subrange;
use vstd::string::StringExecFns;

use crate::file_tree::{lemma_total_lines_concat, total_lines, FileView};
use crate::state::{change_views, AppState, Change, ChangeKind, ChangeView, Commit};
use crate::ui::LineStyle;

verus! {

/// The rows that the border of a block takes: one above its lines, one below.
pub const BORDER_ROWS: usize = 2;

/// The pane that shows the diff of the selected commit, file by file.
#[derive(Debug, Default)]
pub struct DiffPane {}

/// The part of one file that is on view: its name, the lines shown and the
/// rows of the viewport that the block takes, border included.
#[derive(Debug)]
pub struct RenderedFileBlock<'a> {
    pub name: &'a str,
    pub lines: &'a [Change],
    pub row_offset: usize,
    pub row_height: usize,
}

/// The mathematical value of a [`RenderedFileBlock`].
pub struct BlockView {
    pub name: Seq<char>,
    pub lines: Seq<ChangeView>,
    pub row_offset: nat,
    pub row_height: nat,
}

impl<'a> View for RenderedFileBlock<'a> {
    type V = BlockView;

    open spec fn view(&self) -> BlockView {
        BlockView {
            name: self.name@,
            lines: change_views(self.lines@),
            row_offset: self.row_offset as nat,
            row_height: self.row_height as nat,
        }
    }
}

/// What a run of blocks holds.
pub open spec fn block_views(blocks: Seq<RenderedFileBlock<'_>>) -> Seq<BlockView> {
    Seq::new(blocks.len(), |i: int| blocks[i]@)
}

/// The blocks of the files from `at` on, where `consumed` lines stand in the
/// files before `at` and `rows` rows of the viewport are taken. A file that
/// ends at or before `scroll`, or has no line, gets no block. A block takes
/// its lines and two rows of border; it is cut where the viewport ends, and
/// none is begun unless a line of it fits.
pub open spec fn window_from(
    files: Seq<FileView>,
    at: int,
    consumed: nat,
    rows: nat,
    scroll: nat,
    height: nat,
) -> Seq<BlockView>
    decreases files.len() - at,
{
    if at < 0 || at >= files.len() || rows + 2 >= height {
        Seq::empty()
    } else {
        let file = files[at];
        let n = file.changes.len();
        if n == 0 || consumed + n <= scroll {
            window_from(files, at + 1, consumed + n, rows, scroll, height)
        } else {
            let start = if scroll > consumed {
                scroll - consumed
            } else {
                0
            };
            let room = height - rows - 2;
            let shown = if n - start <= room {
                n - start
            } else {
                room
            };
            seq![
                BlockView {
                    name: file.name,
                    lines: file.changes.subrange(start, start + shown),
                    row_offset: rows,
                    row_height: (shown + 2) as nat,
                },
            ] + window_from(files, at + 1, consumed + n, (rows + shown + 2) as nat, scroll, height)
        }
    }
}

/// What is on view of `files`, laid end to end, in a viewport of `height`
/// rows whose first line is line `scroll`.
pub open spec fn window(files: Seq<FileView>, scroll: nat, height: nat) -> Seq<BlockView> {
    window_from(files, 0, 0, 0, scroll, height)
}

/// How far a diff of `diff_len` lines can be scrolled in a viewport of
/// `height` rows.
pub open spec fn scroll_extent(diff_len: nat, height: nat) -> nat {
    if diff_len > height {
        (diff_len - height) as nat
    } else {
        0
    }
}

impl DiffPane {
    /// The room that the scroll bar needs: `None` where the whole diff fits
    /// into the viewport, else how far the diff can be scrolled.
    pub fn render_scroll_layout(diff_len: usize, height: usize) -> (extent: Option<usize>)
        ensures
            match extent {
                Some(e) => diff_len > height && e == scroll_extent(diff_len as nat, height as nat),
                None => diff_len <= height,
            },
    {
        if diff_len <= height {
            None
        } else {
            Some(diff_len - height)
        }
    }

    /// The blocks that show `commit`'s diff from line `scroll_position` on
    /// in a viewport of `height` rows.
    pub fn render_commit_diff<'a>(commit: &'a Commit, scroll_position: usize, height: usize) -> (blocks:
        Vec<RenderedFileBlock<'a>>)
        requires
            commit.file_tree@.total_lines() <= usize::MAX,
        ensures
            block_views(blocks@) == window(
                commit.file_tree@.leaves(),
                scroll_position as nat,
                height as nat,
            ),
    {
        let ghost files = commit.file_tree@.leaves();
        let ghost whole = window(files, scroll_position as nat, height as nat);
        let ghost mut at: int = 0;
        let mut blocks: Vec<RenderedFileBlock<'a>> = Vec::new();
        let mut rows_filled: usize = 0;
        let mut lines_consumed: usize = 0;
        let mut leaves = commit.file_tree.iter_files();
        proof {
            assert(files.take(0) =~= Seq::empty());
            assert(block_views(blocks@) =~= Seq::empty());
            assert(block_views(blocks@) + whole =~= whole);
        }
        loop
            invariant
                files == commit.file_tree@.leaves(),
                total_lines(files) <= usize::MAX,
                whole == window(files, scroll_position as nat, height as nat),
                0 <= at <= files.len(),
                leaves.remaining() == files.skip(at),
                lines_consumed == total_lines(files.take(at)),
                rows_filled == 0 || rows_filled <= height,
                block_views(blocks@) + window_from(
                    files,
                    at,
                    lines_consumed as nat,
                    rows_filled as nat,
                    scroll_position as nat,
                    height as nat,
                ) == whole,
            decreases files.len() - at,
        {
            if height <= BORDER_ROWS || rows_filled >= height - BORDER_ROWS {
                proof {
                    assert(block_views(blocks@) + Seq::<BlockView>::empty() =~= block_views(
                        blocks@,
                    ));
                }
                return blocks;
            }
            let file = match leaves.next() {
                None => {
                    proof {
                        assert(at == files.len());
                        assert(block_views(blocks@) + Seq::<BlockView>::empty() =~= block_views(
                            blocks@,
                        ));
                    }
                    return blocks;
                },
                Some(file) => file,
            };
            let count = file.changes.len();
            proof {
                assert(file@ == files[at]);
                assert(files.skip(at).drop_first() =~= files.skip(at + 1));
                assert(files.take(at + 1).drop_last() =~= files.take(at));
                assert(files =~= files.take(at + 1) + files.skip(at + 1));
                lemma_total_lines_concat(files.take(at + 1), files.skip(at + 1));
                assert(count == files[at].changes.len());
            }
            if count == 0 || lines_consumed + count <= scroll_position {
                lines_consumed = lines_consumed + count;
                proof {
                    at = at + 1;
                }
                continue ;
            }
            let start_idx = if scroll_position > lines_consumed {
                scroll_position - lines_consumed
            } else {
                0
            };
            let room = height - rows_filled - BORDER_ROWS;
            let num_rows = if count - start_idx <= room {
                count - start_idx
            } else {
                room
            };
            let block = RenderedFileBlock {
                name: file.name,
                lines: slice_subrange(file.changes.as_slice(), start_idx, start_idx + num_rows),
                row_offset: rows_filled,
                row_height: num_rows + BORDER_ROWS,
            };
            let ghost before = block_views(blocks@);
            let ghost rest = window_from(
                files,
                at + 1,
                (lines_consumed + count) as nat,
                (rows_filled + num_rows + 2) as nat,
                scroll_position as nat,
                height as nat,
            );
            proof {
                assert(block@.lines =~= files[at].changes.subrange(
                    start_idx as int,
                    start_idx + num_rows,
                ));
                assert(window_from(
                    files,
                    at,
                    lines_consumed as nat,
                    rows_filled as nat,
                    scroll_position as nat,
                    height as nat,
                ) == seq![block@] + rest);
            }
            blocks.push(block);
            proof {
                assert(block_views(blocks@) =~= before.push(block@));
                assert(before.push(block@) + rest =~= before + (seq![block@] + rest));
                at = at + 1;
            }
            rows_filled = rows_filled + num_rows + BORDER_ROWS;
            lines_consumed = lines_consumed + count;
        }
    }
}

/// The mark in front of a line of the kind `kind`.
pub open spec fn marker_of(kind: ChangeKind) -> char {
    match kind {
        ChangeKind::Context => ' ',
        ChangeKind::Insertion => '+',
        ChangeKind::Deletion => '-',
    }
}

/// What the pane shows: how far the diff can be scrolled where it is longer
/// than the viewport, where it is scrolled to, and the blocks on view.
#[derive(Debug)]
pub struct DiffView<'a> {
    pub scroll_extent: Option<usize>,
    pub scroll_position: usize,
    pub blocks: Vec<RenderedFileBlock<'a>>,
}

impl DiffPane {
    /// A line as it is drawn: its mark, a space and its text, in the style
    /// of its kind.
    pub fn render_line(change: &Change) -> (drawn: (String, LineStyle))
        ensures
            drawn.0@ == seq![marker_of(change.kind), ' '] + change.text@,
            drawn.1 == LineStyle::of_change(change.kind),
    {
        proof {
            reveal_strlit("  ");
            reveal_strlit("+ ");
            reveal_strlit("- ");
        }
        let mut text = match change.kind {
            ChangeKind::Context => String::from_str("  "),
            ChangeKind::Insertion => String::from_str("+ "),
            ChangeKind::Deletion => String::from_str("- "),
        };
        proof {
            assert(text@ =~= seq![marker_of(change.kind), ' ']);
        }
        text.append(change.text.as_str());
        (text, LineStyle::for_change(change.kind))
    }

    /// What the pane shows of `state`: the diff of the selected commit from
    /// the scroll position on, in a viewport as high as the state holds it.
    pub fn render<'a>(state: &'a AppState) -> (view: DiffView<'a>)
        requires
            state.wf(),
            state.commits_order@.len() > 0,
        ensures
            view.scroll_position == state.scroll_position,
            view.scroll_extent == (if state.selected().diff_len > state.scroll_height {
                Some((state.selected().diff_len - state.scroll_height) as usize)
            } else {
                None
            }),
            block_views(view.blocks@) == window(
                state.selected().file_tree@.leaves(),
                state.scroll_position as nat,
                state.scroll_height as nat,
            ),
    {
        let commit = state.get_selected_commit();
        let scroll_extent = Self::render_scroll_layout(commit.diff_len, state.scroll_height);
        let blocks = Self::render_commit_diff(commit, state.scroll_position, state.scroll_height);
        DiffView { scroll_extent, scroll_position: state.scroll_position, blocks }
    }
}

/// The lines of `files` laid end to end: the diff as one run of lines.
pub open spec fn linear(files: Seq<FileView>) -> Seq<ChangeView>
    decreases files.len(),
{
    if files.len() == 0 {
        Seq::empty()
    } else {
        linear(files.drop_last()) + files.last().changes
    }
}

/// The lines that a run of blocks shows, in order.
pub open spec fn content(blocks: Seq<BlockView>) -> Seq<ChangeView>
    decreases blocks.len(),
{
    if blocks.len() == 0 {
        Seq::empty()
    } else {
        blocks[0].lines + content(blocks.drop_first())
    }
}

/// Whether `blocks` stand one below the other from row `from` on within
/// `height` rows, each with at least one line and its border.
pub open spec fn stacked(blocks: Seq<BlockView>, from: nat, height: nat) -> bool
    decreases blocks.len(),
{
    if blocks.len() == 0 {
        true
    } else {
        &&& blocks[0].row_offset == from
        &&& blocks[0].lines.len() >= 1
        &&& blocks[0].row_height == blocks[0].lines.len() + 2
        &&& from + blocks[0].row_height <= height
        &&& stacked(blocks.drop_first(), from + blocks[0].row_height, height)
    }
}

/// Where the page `page` begins when the diff is read page by page, each
/// page beginning where the one before it ended.
pub open spec fn page_start(files: Seq<FileView>, height: nat, page: nat) -> nat
    decreases page,
{
    if page == 0 {
        0
    } else {
        let before = page_start(files, height, (page - 1) as nat);
        before + content(window(files, before, height)).len()
    }
}

/// The lines of the first `count` pages, in order.
pub open spec fn pages(files: Seq<FileView>, height: nat, count: nat) -> Seq<ChangeView>
    decreases count,
{
    if count == 0 {
        Seq::empty()
    } else {
        pages(files, height, (count - 1) as nat) + content(
            window(files, page_start(files, height, (count - 1) as nat), height),
        )
    }
}

/// The diff has as many lines as its files hold.
pub proof fn lemma_linear_len(files: Seq<FileView>)
    ensures
        linear(files).len() == total_lines(files),
    decreases files.len(),
{
    if files.len() > 0 {
        lemma_linear_len(files.drop_last());
    }
}

/// The lines of the file `at` stand in the diff behind those of the files
/// before it.
pub proof fn lemma_linear_file(files: Seq<FileView>, at: int, from: int, to: int)
    requires
        0 <= at < files.len(),
        0 <= from <= to <= files[at].changes.len(),
    ensures
        total_lines(files.take(at)) + to <= total_lines(files),
        linear(files).subrange(
            total_lines(files.take(at)) + from,
            total_lines(files.take(at)) + to,
        ) == files[at].changes.subrange(from, to),
    decreases files.len(),
{
    let init = files.drop_last();
    lemma_linear_len(init);
    lemma_linear_len(files);
    if at == files.len() - 1 {
        assert(files.take(at) =~= init);
        assert(linear(files).subrange(total_lines(init) + from, total_lines(init) + to)
            =~= files[at].changes.subrange(from, to));
    } else {
        lemma_linear_file(init, at, from, to);
        assert(init.take(at) =~= files.take(at));
        assert(init[at] == files[at]);
        let start = total_lines(files.take(at));
        assert(linear(files).subrange(start + from, start + to) =~= linear(init).subrange(
            start + from,
            start + to,
        ));
    }
}

/// One more file before `at` adds its lines to those before it.
pub proof fn lemma_total_lines_step(files: Seq<FileView>, at: int)
    requires
        0 <= at < files.len(),
    ensures
        total_lines(files.take(at + 1)) == total_lines(files.take(at)) + files[at].changes.len(),
        total_lines(files.take(at + 1)) <= total_lines(files),
{
    assert(files.take(at + 1).drop_last() =~= files.take(at));
    assert(files =~= files.take(at + 1) + files.skip(at + 1));
    lemma_total_lines_concat(files.take(at + 1), files.skip(at + 1));
}

/// What is on view from the file `at` on is a run of lines of the diff
/// without a gap: it begins at `scroll`, or where the file `at` begins if
/// that is later, and the blocks stand one below the other in the rows
/// that are left.
pub proof fn lemma_window_from(
    files: Seq<FileView>,
    at: int,
    consumed: nat,
    rows: nat,
    scroll: nat,
    height: nat,
)
    requires
        0 <= at <= files.len(),
        consumed == total_lines(files.take(at)),
        scroll <= total_lines(files),
    ensures
        ({
            let shown = content(window_from(files, at, consumed, rows, scroll, height));
            let first = if scroll > consumed {
                scroll
            } else {
                consumed
            };
            &&& first + shown.len() <= total_lines(files)
            &&& shown == linear(files).subrange(first as int, (first + shown.len()) as int)
            &&& stacked(window_from(files, at, consumed, rows, scroll, height), rows, height)
        }),
    decreases files.len() - at,
{
    let blocks = window_from(files, at, consumed, rows, scroll, height);
    let first = if scroll > consumed {
        scroll
    } else {
        consumed
    };
    lemma_linear_len(files);
    if at >= files.len() || rows + 2 >= height {
        if at < files.len() {
            lemma_total_lines_step(files, at);
            assert(files.take(at) =~= files.take(at));
            lemma_total_lines_concat(files.take(at), files.skip(at));
            assert(files =~= files.take(at) + files.skip(at));
        } else {
            assert(files.take(at) =~= files);
        }
        assert(content(blocks) =~= linear(files).subrange(first as int, first as int));
    } else {
        let file = files[at];
        let n = file.changes.len();
        lemma_total_lines_step(files, at);
        if n == 0 || consumed + n <= scroll {
            lemma_window_from(files, at + 1, consumed + n, rows, scroll, height);
        } else {
            let start = if scroll > consumed {
                scroll - consumed
            } else {
                0
            };
            let room = height - rows - 2;
            let count = if n - start <= room {
                n - start
            } else {
                room
            };
            let next_rows = (rows + count + 2) as nat;
            let rest = window_from(files, at + 1, consumed + n, next_rows, scroll, height);
            lemma_window_from(files, at + 1, consumed + n, next_rows, scroll, height);
            lemma_linear_file(files, at, start, start + count);
            assert(blocks.drop_first() =~= rest);
            let lines = file.changes.subrange(start, start + count);
            assert(content(blocks) == lines + content(rest));
            if count < n - start {
                assert(next_rows == height);
                assert(rest =~= Seq::empty());
                assert(content(blocks) =~= linear(files).subrange(
                    first as int,
                    (first + content(blocks).len()) as int,
                ));
            } else {
                assert(first + count == consumed + n);
                assert(content(blocks) =~= linear(files).subrange(
                    first as int,
                    (first + content(blocks).len()) as int,
                ));
            }
        }
    }
}

/// In a viewport of at least three rows, something is on view as long as
/// a line is left at or behind `scroll`.
pub proof fn lemma_window_from_shows(
    files: Seq<FileView>,
    at: int,
    consumed: nat,
    scroll: nat,
    height: nat,
)
    requires
        0 <= at <= files.len(),
        consumed == total_lines(files.take(at)),
        consumed <= scroll < total_lines(files),
        height >= 3,
    ensures
        content(window_from(files, at, consumed, 0, scroll, height)).len() >= 1,
    decreases files.len() - at,
{
    if at >= files.len() {
        assert(files.take(at) =~= files);
    } else {
        let n = files[at].changes.len();
        lemma_total_lines_step(files, at);
        if n == 0 || consumed + n <= scroll {
            lemma_window_from_shows(files, at + 1, consumed + n, scroll, height);
        }
    }
}

/// What is on view is the diff from line `scroll_position` on, as far as
/// the rows reach: no line of that stretch is left out, none stands twice,
/// and the blocks fill the rows from the top without a gap.
pub proof fn lemma_window_is_contiguous(files: Seq<FileView>, scroll: nat, height: nat)
    requires
        scroll <= total_lines(files),
    ensures
        scroll + content(window(files, scroll, height)).len() <= total_lines(files),
        content(window(files, scroll, height)) == linear(files).subrange(
            scroll as int,
            (scroll + content(window(files, scroll, height)).len()) as int,
        ),
        stacked(window(files, scroll, height), 0, height),
        height >= 3 && scroll < total_lines(files) ==> content(window(files, scroll, height)).len()
            >= 1,
{
    assert(files.take(0) =~= Seq::empty());
    lemma_window_from(files, 0, 0, 0, scroll, height);
    if height >= 3 && scroll < total_lines(files) {
        lemma_window_from_shows(files, 0, 0, scroll, height);
    }
}

/// Read page by page, each page beginning where the one before it ended,
/// the diff is shown once and in order: the first pages together are the
/// beginning of the diff, and in a viewport of at least three rows each
/// page goes on by at least a line until the end is reached.
pub proof fn lemma_pages_partition(files: Seq<FileView>, height: nat, count: nat)
    ensures
        page_start(files, height, count) <= total_lines(files),
        pages(files, height, count) == linear(files).take(page_start(files, height, count) as int),
        height >= 3 ==> page_start(files, height, count) >= count || page_start(
            files,
            height,
            count,
        ) == total_lines(files),
    decreases count,
{
    lemma_linear_len(files);
    if count == 0 {
        assert(pages(files, height, count) =~= linear(files).take(0));
    } else {
        let before = (count - 1) as nat;
        lemma_pages_partition(files, height, before);
        let start = page_start(files, height, before);
        lemma_window_is_contiguous(files, start, height);
        let shown = content(window(files, start, height));
        assert(linear(files).take(start as int) + linear(files).subrange(
            start as int,
            (start + shown.len()) as int,
        ) =~= linear(files).take((start + shown.len()) as int));
    }
}

/// In a viewport of at least three rows, as many pages as the diff has
/// lines show all of it.
pub proof fn lemma_pages_cover(files: Seq<FileView>, height: nat)
    requires
        height >= 3,
    ensures
        pages(files, height, total_lines(files)) == linear(files),
{
    lemma_pages_partition(files, height, total_lines(files));
    lemma_linear_len(files);
    assert(linear(files).take(total_lines(files) as int) =~= linear(files));
}

} // verus!
