use diff_viewer::repo::{get_commit_diff, DiffLine};
use diff_viewer::state::{ChangeKind, Commit};
use diff_viewer::ui::diff_pane::{DiffPane, RenderedFileBlock, BORDER_ROWS};

fn numbered(origin: char, path: &str, from: usize, count: usize) -> Vec<DiffLine> {
    (from..from + count)
        .map(|i| DiffLine {
            origin,
            old_path: Some(path.to_string()),
            new_path: Some(path.to_string()),
            content: Some(format!("{}", i)),
        })
        .collect()
}

fn commit_with(files: &[(&str, usize)]) -> Commit {
    let mut lines = Vec::new();
    let mut from = 0;
    for (path, count) in files {
        lines.extend(numbered('+', path, from, *count));
        from += count;
    }
    let tree = get_commit_diff("repo", &lines).unwrap();
    Commit::new("hash".to_string(), None, "author".to_string(), tree)
}

fn texts(block: &RenderedFileBlock) -> Vec<String> {
    block.lines.iter().map(|c| c.text.clone()).collect()
}

fn shape(blocks: &[RenderedFileBlock]) -> Vec<(String, Vec<String>, usize, usize)> {
    blocks.iter().map(|b| (b.name.to_string(), texts(b), b.row_offset, b.row_height)).collect()
}

fn strings(items: &[&str]) -> Vec<String> {
    items.iter().map(|s| s.to_string()).collect()
}

#[test]
fn renders_truncated_first_file_in_four_rows() {
    let commit = commit_with(&[("src/a.rs", 5), ("src/b.rs", 3)]);
    let blocks = DiffPane::render_commit_diff(&commit, 0, 4);
    assert_eq!(shape(&blocks), vec![("a.rs".to_string(), strings(&["0", "1"]), 0, 4)]);
    assert_eq!(blocks[0].lines[0].kind, ChangeKind::Insertion);
}

#[test]
fn border_takes_two_rows_of_every_block() {
    assert_eq!(BORDER_ROWS, 2);
    let commit = commit_with(&[("a", 2), ("b", 3), ("c", 4)]);
    let blocks = DiffPane::render_commit_diff(&commit, 0, 12);
    assert_eq!(
        shape(&blocks),
        vec![
            ("a".to_string(), strings(&["0", "1"]), 0, 4),
            ("b".to_string(), strings(&["2", "3", "4"]), 4, 5),
            ("c".to_string(), strings(&["5"]), 9, 3),
        ]
    );
}

#[test]
fn no_block_is_begun_unless_a_line_fits() {
    let commit = commit_with(&[("a", 2), ("b", 3)]);
    for height in [4, 5, 6] {
        let blocks = DiffPane::render_commit_diff(&commit, 0, height);
        assert_eq!(shape(&blocks), vec![("a".to_string(), strings(&["0", "1"]), 0, 4)]);
    }
    let blocks = DiffPane::render_commit_diff(&commit, 0, 7);
    assert_eq!(
        shape(&blocks),
        vec![
            ("a".to_string(), strings(&["0", "1"]), 0, 4),
            ("b".to_string(), strings(&["2"]), 4, 3),
        ]
    );
}

#[test]
fn nothing_fits_in_fewer_than_three_rows() {
    let commit = commit_with(&[("a", 2), ("b", 3)]);
    for height in [0, 1, 2] {
        assert!(DiffPane::render_commit_diff(&commit, 0, height).is_empty());
    }
    let blocks = DiffPane::render_commit_diff(&commit, 0, 3);
    assert_eq!(shape(&blocks), vec![("a".to_string(), strings(&["0"]), 0, 3)]);
}

#[test]
fn scrolling_inside_a_file_shows_its_rest() {
    let commit = commit_with(&[("a", 5), ("b", 3)]);
    let blocks = DiffPane::render_commit_diff(&commit, 3, 20);
    assert_eq!(
        shape(&blocks),
        vec![
            ("a".to_string(), strings(&["3", "4"]), 0, 4),
            ("b".to_string(), strings(&["5", "6", "7"]), 4, 5),
        ]
    );
    let blocks = DiffPane::render_commit_diff(&commit, 3, 3);
    assert_eq!(shape(&blocks), vec![("a".to_string(), strings(&["3"]), 0, 3)]);
}

#[test]
fn files_above_the_viewport_get_no_block() {
    let commit = commit_with(&[("a", 5), ("b", 3), ("c", 2)]);
    let blocks = DiffPane::render_commit_diff(&commit, 5, 20);
    assert_eq!(
        shape(&blocks),
        vec![
            ("b".to_string(), strings(&["5", "6", "7"]), 0, 5),
            ("c".to_string(), strings(&["8", "9"]), 5, 4),
        ]
    );
    let blocks = DiffPane::render_commit_diff(&commit, 9, 20);
    assert_eq!(shape(&blocks), vec![("c".to_string(), strings(&["9"]), 0, 3)]);
}

#[test]
fn a_file_longer_than_the_viewport_can_be_scrolled_through() {
    let commit = commit_with(&[("long", 30), ("short", 2)]);
    let blocks = DiffPane::render_commit_diff(&commit, 12, 6);
    assert_eq!(shape(&blocks), vec![("long".to_string(), strings(&["12", "13", "14", "15"]), 0, 6)]);
    let blocks = DiffPane::render_commit_diff(&commit, 28, 8);
    assert_eq!(
        shape(&blocks),
        vec![
            ("long".to_string(), strings(&["28", "29"]), 0, 4),
            ("short".to_string(), strings(&["30", "31"]), 4, 4),
        ]
    );
}

#[test]
fn nothing_is_on_view_at_or_past_the_end() {
    let commit = commit_with(&[("a", 5), ("b", 3)]);
    assert!(DiffPane::render_commit_diff(&commit, 8, 10).is_empty());
    assert!(DiffPane::render_commit_diff(&commit, 100, 10).is_empty());
    let empty = commit_with(&[]);
    assert!(DiffPane::render_commit_diff(&empty, 0, 10).is_empty());
}

#[test]
fn pages_that_follow_each_other_show_every_line_once() {
    let commit = commit_with(&[("a", 5), ("b", 1), ("c", 12), ("d", 3), ("e", 2)]);
    let expected: Vec<String> = (0..23).map(|i| format!("{}", i)).collect();
    for height in 3..30 {
        let mut seen = Vec::new();
        let mut position = 0;
        let mut pages = 0;
        while position < commit.diff_len {
            let blocks = DiffPane::render_commit_diff(&commit, position, height);
            let mut rows = 0;
            let mut shown = 0;
            for block in &blocks {
                assert_eq!(block.row_offset, rows);
                assert_eq!(block.row_height, block.lines.len() + 2);
                assert!(!block.lines.is_empty());
                rows += block.row_height;
                shown += block.lines.len();
                seen.extend(texts(block));
            }
            assert!(rows <= height);
            assert!(shown >= 1);
            position += shown;
            pages += 1;
            assert!(pages <= 23);
        }
        assert_eq!(position, commit.diff_len);
        assert_eq!(seen, expected);
    }
}

#[test]
fn scroll_bar_is_needed_where_the_diff_is_longer_than_the_viewport() {
    assert_eq!(DiffPane::render_scroll_layout(8, 4), Some(4));
    assert_eq!(DiffPane::render_scroll_layout(5, 4), Some(1));
    assert_eq!(DiffPane::render_scroll_layout(4, 4), None);
    assert_eq!(DiffPane::render_scroll_layout(3, 4), None);
    assert_eq!(DiffPane::render_scroll_layout(0, 0), None);
    assert_eq!(DiffPane::render_scroll_layout(1, 0), Some(1));
}
