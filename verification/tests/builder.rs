use diff_viewer::app::{open_session, AppError};
use diff_viewer::file_tree::{FileChangeKind, FileTree, StructuralError};
use diff_viewer::repo::{
    change_kind_of, commits_in_range, get_commit_diff, root_dir_name, update_file_change_kind,
    CommitSource, DiffLine, DiffTreeBuilder,
};
use diff_viewer::state::{count_files, count_lines, ChangeKind, Commit, Pane};

fn patch_line(origin: char, path: &str, text: &str) -> DiffLine {
    DiffLine {
        origin,
        old_path: Some(path.to_string()),
        new_path: Some(path.to_string()),
        content: Some(text.to_string()),
    }
}

fn patch_of(parts: &[(char, &str, usize)]) -> Vec<DiffLine> {
    let mut lines = Vec::new();
    for (origin, path, count) in parts {
        for i in 0..*count {
            lines.push(patch_line(*origin, path, &format!("{} {}", path, i)));
        }
    }
    lines
}

fn built_leaves(tree: &FileTree) -> Vec<(String, usize, FileChangeKind, usize)> {
    let mut out = Vec::new();
    let mut files = tree.iter_files();
    while let Some(f) = files.next() {
        out.push((f.name.to_string(), f.changes.len(), *f.change_kind, f.scroll_start));
    }
    out
}

fn source_of(hash: &str, lines: Vec<DiffLine>) -> CommitSource {
    CommitSource {
        hash: hash.to_string(),
        message: Some(format!("message of {}", hash)),
        author: "someone".to_string(),
        lines,
    }
}

#[test]
fn classify_follows_the_table() {
    let table = [
        (None, ChangeKind::Context, FileChangeKind::Modification),
        (None, ChangeKind::Insertion, FileChangeKind::Creation),
        (None, ChangeKind::Deletion, FileChangeKind::Deletion),
        (Some(FileChangeKind::Creation), ChangeKind::Context, FileChangeKind::Modification),
        (Some(FileChangeKind::Creation), ChangeKind::Insertion, FileChangeKind::Creation),
        (Some(FileChangeKind::Creation), ChangeKind::Deletion, FileChangeKind::Modification),
        (Some(FileChangeKind::Deletion), ChangeKind::Context, FileChangeKind::Modification),
        (Some(FileChangeKind::Deletion), ChangeKind::Insertion, FileChangeKind::Modification),
        (Some(FileChangeKind::Deletion), ChangeKind::Deletion, FileChangeKind::Deletion),
        (Some(FileChangeKind::Modification), ChangeKind::Context, FileChangeKind::Modification),
        (Some(FileChangeKind::Modification), ChangeKind::Insertion, FileChangeKind::Modification),
        (Some(FileChangeKind::Modification), ChangeKind::Deletion, FileChangeKind::Modification),
    ];
    for (previous, line, expected) in table {
        assert_eq!(update_file_change_kind(previous, line), expected);
    }
}

#[test]
fn markers_stand_for_kinds() {
    assert_eq!(change_kind_of(' '), Some(ChangeKind::Context));
    assert_eq!(change_kind_of('+'), Some(ChangeKind::Insertion));
    assert_eq!(change_kind_of('-'), Some(ChangeKind::Deletion));
    assert_eq!(change_kind_of('F'), None);
    assert_eq!(change_kind_of('H'), None);
    assert_eq!(change_kind_of('='), None);
}

#[test]
fn one_path_is_classified_by_all_of_its_lines() {
    let cases = [
        (vec!['+', '+', '+'], FileChangeKind::Creation),
        (vec!['-', '-'], FileChangeKind::Deletion),
        (vec!['+', '-'], FileChangeKind::Modification),
        (vec!['-', '+'], FileChangeKind::Modification),
        (vec!['+', ' ', '+'], FileChangeKind::Modification),
        (vec![' '], FileChangeKind::Modification),
        (vec!['-', '-', ' '], FileChangeKind::Modification),
        (vec!['+'], FileChangeKind::Creation),
    ];
    for (origins, expected) in cases {
        let lines: Vec<DiffLine> =
            origins.iter().map(|o| patch_line(*o, "dir/file.rs", "text")).collect();
        let tree = get_commit_diff("repo", &lines).unwrap();
        assert_eq!(
            built_leaves(&tree),
            vec![("file.rs".to_string(), origins.len(), expected, 0)]
        );
    }
}

#[test]
fn builds_two_files_with_kinds_and_offsets() {
    let lines = patch_of(&[('+', "src/a.rs", 5), ('-', "src/b.rs", 3)]);
    let tree = get_commit_diff("repo", &lines).unwrap();
    assert_eq!(
        built_leaves(&tree),
        vec![
            ("a.rs".to_string(), 5, FileChangeKind::Creation, 0),
            ("b.rs".to_string(), 3, FileChangeKind::Deletion, 5),
        ]
    );
    let commit = Commit::new("A".to_string(), None, "me".to_string(), tree);
    assert_eq!(commit.diff_len, 8);
    assert_eq!(commit.hash, "A");
    assert_eq!(commit.message, None);
    assert_eq!(commit.author, "me");
}

#[test]
fn every_line_is_held_once_and_files_start_where_the_ones_before_end() {
    let parts = [
        ('+', "z/last.rs", 4),
        (' ', "a/first.rs", 1),
        ('-', "m/mid.rs", 7),
        ('+', "a/second.rs", 2),
        ('-', "top.txt", 3),
    ];
    let lines = patch_of(&parts);
    let tree = get_commit_diff("repo", &lines).unwrap();
    let leaves = built_leaves(&tree);
    assert_eq!(leaves.len(), parts.len());
    assert_eq!(leaves.iter().map(|l| l.1).sum::<usize>(), 17);
    assert_eq!(count_lines(&tree), 17);
    assert_eq!(count_files(&tree), 5);
    let mut start = 0;
    for (_, path, count) in parts {
        let name = path.rsplit('/').next().unwrap();
        let leaf = leaves.iter().find(|l| l.0 == name).unwrap();
        assert_eq!((leaf.1, leaf.3), (count, start));
        start += count;
    }
    assert_eq!(
        leaves.iter().map(|l| l.0.as_str()).collect::<Vec<_>>(),
        vec!["first.rs", "second.rs", "mid.rs", "top.txt", "last.rs"]
    );
}

#[test]
fn a_path_that_comes_back_is_a_file_of_its_own() {
    let lines = patch_of(&[('+', "a.rs", 2), ('+', "b.rs", 1), ('-', "a.rs", 3)]);
    let tree = get_commit_diff("repo", &lines).unwrap();
    let mut leaves = built_leaves(&tree);
    leaves.sort_by_key(|l| l.3);
    assert_eq!(
        leaves,
        vec![
            ("a.rs".to_string(), 2, FileChangeKind::Creation, 0),
            ("b.rs".to_string(), 1, FileChangeKind::Creation, 2),
            ("a.rs".to_string(), 3, FileChangeKind::Deletion, 3),
        ]
    );
}

#[test]
fn lines_that_do_not_count_are_passed_over() {
    let mut lines = Vec::new();
    lines.push(patch_line('F', "a.rs", "diff --git a/a.rs b/a.rs"));
    lines.push(patch_line('H', "a.rs", "@@ -1 +1 @@"));
    lines.push(patch_line('+', "a.rs", "kept"));
    lines.push(DiffLine {
        origin: '+',
        old_path: Some("a.rs".to_string()),
        new_path: None,
        content: Some("no new path".to_string()),
    });
    lines.push(DiffLine {
        origin: '-',
        old_path: None,
        new_path: Some("a.rs".to_string()),
        content: Some("no old path".to_string()),
    });
    lines.push(DiffLine {
        origin: '+',
        old_path: Some("a.rs".to_string()),
        new_path: Some("a.rs".to_string()),
        content: None,
    });
    lines.push(patch_line('+', "b.rs", "second file"));
    let tree = get_commit_diff("repo", &lines).unwrap();
    assert_eq!(
        built_leaves(&tree),
        vec![
            ("a.rs".to_string(), 1, FileChangeKind::Creation, 0),
            ("b.rs".to_string(), 1, FileChangeKind::Creation, 1),
        ]
    );
}

#[test]
fn deletions_go_by_the_old_path_and_the_rest_by_the_new() {
    let lines = vec![
        DiffLine {
            origin: '-',
            old_path: Some("old.rs".to_string()),
            new_path: Some("new.rs".to_string()),
            content: Some("gone".to_string()),
        },
        DiffLine {
            origin: '+',
            old_path: Some("old.rs".to_string()),
            new_path: Some("new.rs".to_string()),
            content: Some("come".to_string()),
        },
        DiffLine {
            origin: ' ',
            old_path: Some("old.rs".to_string()),
            new_path: Some("new.rs".to_string()),
            content: Some("stays".to_string()),
        },
    ];
    let tree = get_commit_diff("repo", &lines).unwrap();
    assert_eq!(
        built_leaves(&tree),
        vec![
            ("new.rs".to_string(), 2, FileChangeKind::Modification, 1),
            ("old.rs".to_string(), 1, FileChangeKind::Deletion, 0),
        ]
    );
}

#[test]
fn an_empty_patch_gives_the_bare_root() {
    let tree = get_commit_diff("repo", &Vec::new()).unwrap();
    assert_eq!(tree.name(), "repo");
    assert!(built_leaves(&tree).is_empty());
    assert_eq!(count_lines(&tree), 0);
}

#[test]
fn a_file_replaced_by_a_directory_is_a_structural_error() {
    let lines = patch_of(&[('-', "a", 1), ('+', "a/b", 1)]);
    assert_eq!(get_commit_diff("repo", &lines).err(), Some(StructuralError));
    let lines = patch_of(&[('-', "a", 1), ('+', "a/b", 1), ('+', "c", 1)]);
    assert_eq!(get_commit_diff("repo", &lines).err(), Some(StructuralError));
}

#[test]
fn builder_takes_lines_one_by_one() {
    let mut builder = DiffTreeBuilder::new("root");
    for line in patch_of(&[('+', "x/y.rs", 2), (' ', "x/z.rs", 1)]) {
        builder.push_line(&line);
    }
    let tree = builder.finish().unwrap();
    assert_eq!(tree.name(), "root");
    assert_eq!(
        built_leaves(&tree),
        vec![
            ("y.rs".to_string(), 2, FileChangeKind::Creation, 0),
            ("z.rs".to_string(), 1, FileChangeKind::Modification, 2),
        ]
    );
}

#[test]
fn commits_come_in_the_order_of_the_source() {
    let sources = vec![
        source_of("c1", patch_of(&[('+', "a.rs", 2)])),
        source_of("c2", patch_of(&[('-', "a.rs", 1), ('+', "b.rs", 4)])),
        source_of("c3", Vec::new()),
    ];
    let (commits, order) = commits_in_range("repo", &sources).unwrap();
    assert_eq!(order, vec!["c1", "c2", "c3"]);
    assert_eq!(commits.iter().map(|c| c.hash.as_str()).collect::<Vec<_>>(), vec!["c1", "c2", "c3"]);
    assert_eq!(commits.iter().map(|c| c.diff_len).collect::<Vec<_>>(), vec![2, 5, 0]);
    assert_eq!(commits[1].message.as_deref(), Some("message of c2"));
    assert_eq!(commits[1].author, "someone");
    assert_eq!(built_leaves(&commits[1].file_tree).len(), 2);
}

#[test]
fn one_bad_commit_fails_the_range() {
    let sources = vec![
        source_of("c1", patch_of(&[('+', "a.rs", 2)])),
        source_of("c2", patch_of(&[('-', "a", 1), ('+', "a/b", 1)])),
    ];
    assert_eq!(commits_in_range("repo", &sources).err(), Some(StructuralError));
    assert_eq!(
        open_session("from".to_string(), "into".to_string(), "repo", &sources).err(),
        Some(AppError::PathConflict(StructuralError))
    );
}

#[test]
fn a_session_needs_a_commit() {
    let session = open_session("from".to_string(), "into".to_string(), "repo", &Vec::new());
    assert_eq!(session.err(), Some(AppError::NoCommits));
    assert_eq!(AppError::NoCommits.message(), "no commits to display");
}

#[test]
fn a_session_takes_no_commit_twice() {
    let sources = vec![
        source_of("c1", patch_of(&[('+', "a.rs", 2)])),
        source_of("c2", Vec::new()),
        source_of("c1", Vec::new()),
    ];
    let session = open_session("from".to_string(), "into".to_string(), "repo", &sources);
    assert_eq!(session.err(), Some(AppError::DuplicateCommit));
}

#[test]
fn a_session_begins_at_the_first_commit_in_the_diff_pane() {
    let sources = vec![
        source_of("c1", patch_of(&[('+', "a.rs", 2)])),
        source_of("c2", patch_of(&[('+', "b.rs", 3)])),
    ];
    let state = open_session("feature".to_string(), "main".to_string(), "repo", &sources).unwrap();
    assert_eq!(state.from_branch, "feature");
    assert_eq!(state.into_branch, "main");
    assert!(!state.exit);
    assert_eq!(state.selected_pane, Pane::Diff);
    assert_eq!(state.selected_commit, 0);
    assert_eq!(state.selected_file, 0);
    assert_eq!(state.scroll_position, 0);
    assert_eq!(state.scroll_height, 0);
    assert_eq!(state.commits_order, vec!["c1", "c2"]);
    assert_eq!(state.get_selected_commit().hash, "c1");
    assert_eq!(state.get_selected_commit().diff_len, 2);
}

#[test]
fn the_root_is_named_after_the_work_tree() {
    assert_eq!(root_dir_name(Some("project")), "project");
    assert_eq!(root_dir_name(Some("")), "");
    assert_eq!(root_dir_name(None), "root");
}
