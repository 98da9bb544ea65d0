//! What each part of the display shows, as plain values to be drawn.

pub mod bottom_bar;
pub mod commits_pane;
pub mod diff_pane;
pub mod files_pane;

use vstd::prelude::*;

use crate::file_tree::FileChangeKind;
use crate::state::ChangeKind;

verus! {

/// How a piece of text is drawn: as it is, as what came in, or as what
/// went away.
#[derive(Debug, Clone, Copy, PartialEq, Eq, Structural)]
pub enum LineStyle {
    Plain,
    Inserted,
    Deleted,
}

impl LineStyle {
    /// The style of a diff line of the kind `kind`.
    pub open spec fn of_change(kind: ChangeKind) -> LineStyle {
        match kind {
            ChangeKind::Context => LineStyle::Plain,
            ChangeKind::Insertion => LineStyle::Inserted,
            ChangeKind::Deletion => LineStyle::Deleted,
        }
    }

    /// The style of a file that is taken for `kind`.
    pub open spec fn of_file(kind: FileChangeKind) -> LineStyle {
        match kind {
            FileChangeKind::Modification => LineStyle::Plain,
            FileChangeKind::Creation => LineStyle::Inserted,
            FileChangeKind::Deletion => LineStyle::Deleted,
        }
    }

    /// The style of a diff line of the kind `kind`.
    pub fn for_change(kind: ChangeKind) -> (style: LineStyle)
        ensures
            style == Self::of_change(kind),
    {
        match kind {
            ChangeKind::Context => LineStyle::Plain,
            ChangeKind::Insertion => LineStyle::Inserted,
            ChangeKind::Deletion => LineStyle::Deleted,
        }
    }

    /// The style of a file that is taken for `kind`.
    pub fn for_file(kind: FileChangeKind) -> (style: LineStyle)
        ensures
            style == Self::of_file(kind),
    {
        match kind {
            FileChangeKind::Modification => LineStyle::Plain,
            FileChangeKind::Creation => LineStyle::Inserted,
            FileChangeKind::Deletion => LineStyle::Deleted,
        }
    }
}

/// The four parts of the display.
#[derive(Debug, Default)]
pub struct UI {
    pub diff_pane: diff_pane::DiffPane,
    pub files_pane: files_pane::FilesPane,
    pub commits_pane: commits_pane::CommitsPane,
    pub bottom_bar: bottom_bar::BottomBar,
}

} // verus!
