use diff_viewer::repo::{get_commit_diff, DiffLine};
use diff_viewer::state::{AppState, Commit};
use diff_viewer::ui::bottom_bar::BottomBar;
use diff_viewer::ui::commits_pane::{CommitsPane, HORIZONTAL_PADDING};
use diff_viewer::state::{Change, ChangeKind, Direction, Pane};
use diff_viewer::ui::diff_pane::DiffPane;
use diff_viewer::ui::files_pane::FilesPane;
use diff_viewer::ui::LineStyle;
use diff_viewer::ui::UI;
use diff_viewer::file_tree::FileChangeKind;

fn lines_for(origin: char, path: &str, count: usize) -> Vec<DiffLine> {
    (0..count)
        .map(|i| DiffLine {
            origin,
            old_path: Some(path.to_string()),
            new_path: Some(path.to_string()),
            content: Some(format!("{}", i)),
        })
        .collect()
}

fn commit_with_message(message: Option<&str>) -> Commit {
    let tree = get_commit_diff("repo", &lines_for('+', "a.rs", 1)).unwrap();
    Commit::new(
        "0123abcd".to_string(),
        message.map(|m| m.to_string()),
        "Ada <ada@example.org>".to_string(),
        tree,
    )
}

#[test]
fn file_list_indents_by_depth_and_marks_kinds() {
    let mut lines = Vec::new();
    lines.extend(lines_for('+', "src/new.rs", 2));
    lines.extend(lines_for('-', "src/old.rs", 2));
    lines.extend(lines_for(' ', "src/ui/same.rs", 1));
    lines.extend(lines_for('+', "README.md", 1));
    let tree = get_commit_diff("repo", &lines).unwrap();
    let list = FilesPane::rows(&tree);
    let rows: Vec<(&str, LineStyle)> =
        list.rows.iter().map(|r| (r.text.as_str(), r.style)).collect();
    assert_eq!(
        rows,
        vec![
            (" / repo", LineStyle::Plain),
            ("   README.md", LineStyle::Inserted),
            ("   / src", LineStyle::Plain),
            ("     new.rs", LineStyle::Inserted),
            ("     old.rs", LineStyle::Deleted),
            ("     / ui", LineStyle::Plain),
            ("       same.rs", LineStyle::Plain),
        ]
    );
    assert_eq!(list.selectable, vec![1, 3, 4, 6]);
    assert_eq!(FilesPane::selected_row(&list, true, 0), Some(1));
    assert_eq!(FilesPane::selected_row(&list, true, 2), Some(4));
    assert_eq!(FilesPane::selected_row(&list, true, 3), Some(6));
    assert_eq!(FilesPane::selected_row(&list, true, 4), None);
    assert_eq!(FilesPane::selected_row(&list, false, 0), None);
}

#[test]
fn file_list_of_an_empty_tree_is_the_root() {
    let tree = get_commit_diff("repo", &Vec::new()).unwrap();
    let list = FilesPane::rows(&tree);
    assert_eq!(list.rows.len(), 1);
    assert_eq!(list.rows[0].text, " / repo");
    assert!(list.selectable.is_empty());
    assert_eq!(FilesPane::selected_row(&list, true, 0), None);
}

#[test]
fn commit_item_wraps_the_message() {
    let commit = commit_with_message(Some("Memory safety without garbage collection.\n\nSecond part"));
    assert_eq!(
        CommitsPane::item_lines(&commit, 15),
        vec![
            "",
            " 0123abcd ",
            " Ada <ada@example.org> ",
            " Memory safety ",
            " without garbage ",
            " collection. ",
            "  ",
            " Second part ",
            "",
        ]
    );
}

#[test]
fn commit_item_keeps_lines_whole_at_width_zero() {
    let commit = commit_with_message(Some("Memory safety without garbage collection.\r\nmore\n"));
    assert_eq!(
        CommitsPane::item_lines(&commit, 0),
        vec![
            "",
            " 0123abcd ",
            " Ada <ada@example.org> ",
            " Memory safety without garbage collection. ",
            " more ",
            "",
        ]
    );
}

#[test]
fn commit_item_without_message_has_four_rows() {
    let commit = commit_with_message(None);
    assert_eq!(
        CommitsPane::item_lines(&commit, 40),
        vec!["", " 0123abcd ", " Ada <ada@example.org> ", ""]
    );
    let commit = commit_with_message(Some(""));
    assert_eq!(
        CommitsPane::item_lines(&commit, 40),
        vec!["", " 0123abcd ", " Ada <ada@example.org> ", ""]
    );
}

#[test]
fn wrap_width_leaves_room_for_the_border() {
    assert_eq!(HORIZONTAL_PADDING, 2);
    assert_eq!(CommitsPane::wrap_width(40), 38);
    assert_eq!(CommitsPane::wrap_width(3), 1);
    assert_eq!(CommitsPane::wrap_width(2), 0);
    assert_eq!(CommitsPane::wrap_width(1), 0);
    assert_eq!(CommitsPane::wrap_width(0), 0);
}

#[test]
fn rows_are_padded_with_a_space_on_either_side() {
    assert_eq!(CommitsPane::pad("text"), " text ");
    assert_eq!(CommitsPane::pad(""), "  ");
    let mut rows = vec!["first".to_string()];
    CommitsPane::push_padded(&mut rows, &vec!["a".to_string(), "b c".to_string()]);
    assert_eq!(rows, vec!["first", " a ", " b c "]);
    CommitsPane::push_padded(&mut rows, &Vec::new());
    assert_eq!(rows.len(), 3);
}

#[test]
fn bottom_bar_names_both_branches() {
    let state = AppState::new(
        "feature".to_string(),
        "main".to_string(),
        vec![commit_with_message(None)],
        vec!["0123abcd".to_string()],
    );
    let (into, arrow, from) = BottomBar::render(&state);
    assert_eq!((into.as_str(), arrow.as_str(), from.as_str()), ("main", " <- ", "feature"));
}

#[test]
fn display_has_four_parts() {
    let ui = UI::default();
    assert_eq!(format!("{:?}", ui.diff_pane), "DiffPane");
    assert_eq!(format!("{:?}", ui.files_pane), "FilesPane");
    assert_eq!(format!("{:?}", ui.commits_pane), "CommitsPane");
    assert_eq!(format!("{:?}", ui.bottom_bar), "BottomBar");
}

fn state_of(files: &[(char, &str, usize)], message: &str) -> AppState {
    let mut lines = Vec::new();
    for (origin, path, count) in files {
        lines.extend(lines_for(*origin, path, *count));
    }
    let tree = get_commit_diff("repo", &lines).unwrap();
    let first = Commit::new("c1".to_string(), Some(message.to_string()), "Ada".to_string(), tree);
    let second = commit_with_message(None);
    AppState::new(
        "feature".to_string(),
        "main".to_string(),
        vec![second, first],
        vec!["c1".to_string(), "0123abcd".to_string()],
    )
}

#[test]
fn styles_follow_the_kinds() {
    assert_eq!(LineStyle::for_change(ChangeKind::Context), LineStyle::Plain);
    assert_eq!(LineStyle::for_change(ChangeKind::Insertion), LineStyle::Inserted);
    assert_eq!(LineStyle::for_change(ChangeKind::Deletion), LineStyle::Deleted);
    assert_eq!(LineStyle::for_file(FileChangeKind::Modification), LineStyle::Plain);
    assert_eq!(LineStyle::for_file(FileChangeKind::Creation), LineStyle::Inserted);
    assert_eq!(LineStyle::for_file(FileChangeKind::Deletion), LineStyle::Deleted);
}

#[test]
fn diff_lines_are_drawn_behind_their_mark() {
    let cases = [
        (ChangeKind::Context, "  same", LineStyle::Plain),
        (ChangeKind::Insertion, "+ same", LineStyle::Inserted),
        (ChangeKind::Deletion, "- same", LineStyle::Deleted),
    ];
    for (kind, text, style) in cases {
        let change = Change { text: "same".to_string(), kind };
        assert_eq!(DiffPane::render_line(&change), (text.to_string(), style));
    }
    let empty = Change { text: String::new(), kind: ChangeKind::Insertion };
    assert_eq!(DiffPane::render_line(&empty).0, "+ ");
}

#[test]
fn diff_pane_shows_the_selected_commit_from_the_scroll_position() {
    let mut state = state_of(&[('+', "a.rs", 5), ('-', "b.rs", 3)], "first");
    state.set_scroll_height(6);
    state.navigate(Direction::Down);
    let view = DiffPane::render(&state);
    assert_eq!(view.scroll_extent, Some(2));
    assert_eq!(view.scroll_position, 1);
    assert_eq!(view.blocks.len(), 1);
    assert_eq!(view.blocks[0].name, "a.rs");
    let shown: Vec<&str> = view.blocks[0].lines.iter().map(|c| c.text.as_str()).collect();
    assert_eq!(shown, vec!["1", "2", "3", "4"]);
    assert_eq!((view.blocks[0].row_offset, view.blocks[0].row_height), (0, 6));
    state.set_scroll_height(20);
    let view = DiffPane::render(&state);
    assert_eq!(view.scroll_extent, None);
    assert_eq!(view.scroll_position, 0);
    assert_eq!(view.blocks.len(), 2);
}

#[test]
fn files_pane_marks_the_selected_file_when_it_has_the_focus() {
    let mut state = state_of(&[('+', "src/a.rs", 1), ('-', "src/b.rs", 1)], "first");
    let view = FilesPane::render(&state);
    assert_eq!(view.list.rows.len(), 4);
    assert_eq!(view.selected_row, None);
    assert_eq!((view.scroll_length, view.scroll_position), (2, 0));
    state.select_pane(Pane::Files);
    assert_eq!(FilesPane::render(&state).selected_row, Some(2));
    state.navigate(Direction::Down);
    let view = FilesPane::render(&state);
    assert_eq!(view.selected_row, Some(3));
    assert_eq!((view.scroll_length, view.scroll_position), (2, 1));
    assert_eq!(view.list.rows[3].text, "     b.rs");
    assert_eq!(view.list.rows[3].style, LineStyle::Deleted);
}

#[test]
fn commits_pane_lists_the_commits_in_their_order() {
    let mut state = state_of(&[('+', "a.rs", 1)], "Memory safety without garbage collection.");
    let view = CommitsPane::render(&state, 17);
    assert_eq!(
        view.items,
        vec![
            vec!["", " c1 ", " Ada ", " Memory safety ", " without garbage ", " collection. ", ""],
            vec!["", " 0123abcd ", " Ada <ada@example.org> ", ""],
        ]
    );
    assert_eq!((view.selected, view.scroll_length, view.scroll_position), (0, 2, 0));
    state.select_commit(1).unwrap();
    let view = CommitsPane::render(&state, 1);
    assert_eq!(view.items[0][3], " Memory safety without garbage collection. ");
    assert_eq!((view.selected, view.scroll_length, view.scroll_position), (1, 2, 1));
}
