use diff_viewer::app::{handle_key_event, Key};
use diff_viewer::repo::{get_commit_diff, DiffLine};
use diff_viewer::state::{AppState, Commit, CommitOutOfBounds, Direction, Pane};

fn insertions(path: &str, count: usize) -> Vec<DiffLine> {
    (0..count)
        .map(|i| DiffLine {
            origin: '+',
            old_path: None,
            new_path: Some(path.to_string()),
            content: Some(format!("{} {}", path, i)),
        })
        .collect()
}

fn commit_named(hash: &str, files: &[(&str, usize)]) -> Commit {
    let mut lines = Vec::new();
    for (path, count) in files {
        lines.extend(insertions(path, *count));
    }
    let tree = get_commit_diff("repo", &lines).unwrap();
    Commit::new(hash.to_string(), Some(format!("about {}", hash)), "author".to_string(), tree)
}

fn session(hashes: &[&str]) -> AppState {
    let commits: Vec<Commit> = hashes
        .iter()
        .map(|h| commit_named(h, &[("src/a.rs", 5), ("src/b.rs", 3)]))
        .collect();
    let order: Vec<String> = hashes.iter().map(|h| h.to_string()).collect();
    AppState::new("feature".to_string(), "main".to_string(), commits, order)
}

#[test]
fn new_state_starts_in_the_diff_pane() {
    let state = session(&["A", "B"]);
    assert!(!state.exit);
    assert_eq!(state.from_branch, "feature");
    assert_eq!(state.into_branch, "main");
    assert_eq!(state.selected_pane, Pane::Diff);
    assert_eq!(state.selected_commit, 0);
    assert_eq!(state.selected_file, 0);
    assert_eq!(state.scroll_position, 0);
    assert_eq!(state.scroll_height, 0);
    assert_eq!(state.commits.len(), 2);
}

#[test]
fn single_commit_wraps_to_itself() {
    let mut state = session(&["A"]);
    assert_eq!(state.select_commit(0), Ok(()));
    state.select_pane(Pane::Commits);
    state.navigate(Direction::Up);
    assert_eq!(state.selected_commit, 0);
    state.navigate(Direction::Down);
    assert_eq!(state.selected_commit, 0);
}

#[test]
fn commits_wrap_around_in_both_directions() {
    let mut state = session(&["A", "B", "C"]);
    state.select_pane(Pane::Commits);
    let mut visited = Vec::new();
    for _ in 0..3 {
        state.navigate(Direction::Down);
        visited.push(state.selected_commit);
    }
    assert_eq!(visited, vec![1, 2, 0]);
    visited.clear();
    for _ in 0..3 {
        state.navigate(Direction::Up);
        visited.push(state.selected_commit);
    }
    assert_eq!(visited, vec![2, 1, 0]);
    for start in 0..3 {
        state.select_commit(start).unwrap();
        for _ in 0..3 {
            state.navigate(Direction::Down);
        }
        assert_eq!(state.selected_commit, start);
    }
}

#[test]
fn selected_commit_is_found_by_its_hash() {
    let commits = vec![commit_named("x", &[("a", 1)]), commit_named("y", &[("a", 2)])];
    let order = vec!["y".to_string(), "x".to_string()];
    let mut state = AppState::new("f".to_string(), "i".to_string(), commits, order);
    assert_eq!(state.get_selected_commit().hash, "y");
    assert_eq!(state.get_selected_commit().diff_len, 2);
    state.select_commit(1).unwrap();
    assert_eq!(state.get_selected_commit().hash, "x");
    assert_eq!(state.get_selected_commit().diff_len, 1);
}

#[test]
fn switching_commits_resets_file_and_scroll() {
    let mut state = session(&["A", "B"]);
    state.set_scroll_height(4);
    state.navigate(Direction::Down);
    state.navigate(Direction::Down);
    state.select_pane(Pane::Files);
    state.navigate(Direction::Down);
    assert_eq!((state.scroll_position, state.selected_file), (2, 1));
    state.select_pane(Pane::Commits);
    state.navigate(Direction::Down);
    assert_eq!(state.selected_commit, 1);
    assert_eq!((state.scroll_position, state.selected_file), (0, 0));
    assert_eq!(state.selected_pane, Pane::Commits);
}

#[test]
fn selecting_a_commit_out_of_bounds_is_reported() {
    let mut state = session(&["A", "B"]);
    state.set_scroll_height(4);
    state.navigate(Direction::Down);
    assert_eq!(state.select_commit(2), Err(CommitOutOfBounds { index: 2 }));
    assert_eq!(state.select_commit(usize::MAX), Err(CommitOutOfBounds { index: usize::MAX }));
    assert_eq!(state.selected_commit, 0);
    assert_eq!(state.scroll_position, 1);
    assert_eq!(state.select_commit(1), Ok(()));
    assert_eq!(state.selected_commit, 1);
    assert_eq!(state.scroll_position, 0);
}

#[test]
fn diff_scrolls_while_lines_are_left_below() {
    let mut state = session(&["A"]);
    state.set_scroll_height(5);
    let mut positions = Vec::new();
    for _ in 0..6 {
        state.navigate(Direction::Down);
        positions.push(state.scroll_position);
        assert!(state.scroll_position + state.scroll_height <= 8);
    }
    assert_eq!(positions, vec![1, 2, 3, 3, 3, 3]);
    positions.clear();
    for _ in 0..5 {
        state.navigate(Direction::Up);
        positions.push(state.scroll_position);
    }
    assert_eq!(positions, vec![2, 1, 0, 0, 0]);
}

#[test]
fn diff_that_fits_does_not_scroll() {
    let mut state = session(&["A"]);
    state.set_scroll_height(8);
    state.navigate(Direction::Down);
    assert_eq!(state.scroll_position, 0);
    state.set_scroll_height(20);
    state.navigate(Direction::Down);
    assert_eq!(state.scroll_position, 0);
    state.navigate(Direction::Up);
    assert_eq!(state.scroll_position, 0);
}

#[test]
fn growing_viewport_pulls_the_scroll_position_back() {
    let mut state = session(&["A"]);
    state.set_scroll_height(2);
    for _ in 0..6 {
        state.navigate(Direction::Down);
    }
    assert_eq!(state.scroll_position, 6);
    state.set_scroll_height(5);
    assert_eq!((state.scroll_height, state.scroll_position), (5, 3));
    state.set_scroll_height(3);
    assert_eq!((state.scroll_height, state.scroll_position), (3, 3));
    state.set_scroll_height(100);
    assert_eq!((state.scroll_height, state.scroll_position), (100, 0));
}

#[test]
fn files_are_selected_without_wrapping() {
    let mut state = session(&["A"]);
    state.select_pane(Pane::Files);
    let mut selected = Vec::new();
    for _ in 0..3 {
        state.navigate(Direction::Down);
        selected.push(state.selected_file);
    }
    assert_eq!(selected, vec![1, 1, 1]);
    selected.clear();
    for _ in 0..3 {
        state.navigate(Direction::Up);
        selected.push(state.selected_file);
    }
    assert_eq!(selected, vec![0, 0, 0]);
}

#[test]
fn a_commit_without_files_keeps_the_first_file_selected() {
    let commits = vec![commit_named("empty", &[])];
    let mut state =
        AppState::new("f".to_string(), "i".to_string(), commits, vec!["empty".to_string()]);
    state.select_pane(Pane::Files);
    state.navigate(Direction::Down);
    assert_eq!(state.selected_file, 0);
    state.select_pane(Pane::Diff);
    state.navigate(Direction::Down);
    assert_eq!(state.scroll_position, 0);
}

#[test]
fn confirm_leads_from_the_commits_to_the_diff() {
    let mut state = session(&["A"]);
    state.select_pane(Pane::Commits);
    state.select();
    assert_eq!(state.selected_pane, Pane::Diff);
    state.select();
    assert_eq!(state.selected_pane, Pane::Diff);
    state.select_pane(Pane::Files);
    state.select();
    assert_eq!(state.selected_pane, Pane::Files);
}

#[test]
fn exit_is_asked_for_once_and_for_all() {
    let mut state = session(&["A"]);
    state.exit();
    assert!(state.exit);
    state.exit();
    assert!(state.exit);
    assert_eq!(state.selected_pane, Pane::Diff);
}

#[test]
fn keys_are_mapped_to_commands() {
    let mut state = session(&["A", "B"]);
    state.set_scroll_height(4);
    handle_key_event(&mut state, Key::Char('j'));
    handle_key_event(&mut state, Key::Down);
    assert_eq!(state.scroll_position, 2);
    handle_key_event(&mut state, Key::Char('k'));
    assert_eq!(state.scroll_position, 1);
    handle_key_event(&mut state, Key::Up);
    assert_eq!(state.scroll_position, 0);
    handle_key_event(&mut state, Key::Char('f'));
    assert_eq!(state.selected_pane, Pane::Files);
    handle_key_event(&mut state, Key::Char('c'));
    assert_eq!(state.selected_pane, Pane::Commits);
    handle_key_event(&mut state, Key::Down);
    assert_eq!(state.selected_commit, 1);
    handle_key_event(&mut state, Key::Enter);
    assert_eq!(state.selected_pane, Pane::Diff);
    handle_key_event(&mut state, Key::Char('c'));
    handle_key_event(&mut state, Key::Char('d'));
    assert_eq!(state.selected_pane, Pane::Diff);
    handle_key_event(&mut state, Key::Char('x'));
    handle_key_event(&mut state, Key::Char('Q'));
    handle_key_event(&mut state, Key::Other);
    assert!(!state.exit);
    assert_eq!((state.selected_pane, state.selected_commit), (Pane::Diff, 1));
    handle_key_event(&mut state, Key::Char('q'));
    assert!(state.exit);
}

#[test]
fn commits_are_found_by_hash() {
    let state = session(&["A", "B"]);
    assert_eq!(state.find_commit(&"B".to_string()).map(|c| c.hash.as_str()), Some("B"));
    assert_eq!(state.find_commit(&"A".to_string()).map(|c| c.hash.as_str()), Some("A"));
    assert!(state.find_commit(&"C".to_string()).is_none());
    assert!(state.find_commit(&String::new()).is_none());
}
