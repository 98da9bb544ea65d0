//! The engine of a terminal viewer for the commits between two branches.
//!
//! A commit's patch comes in as a flat run of lines. [`repo`] gathers it
//! into a [`file_tree::FileTree`], a file for each run of lines under one
//! path, sorted by name. [`ui`] lays the diff of a commit out in a viewport,
//! file by file, and lists the files and the commits. [`state`] holds what
//! is selected and scrolled, and [`app`] maps keys to movements in it.
//!
//! Every function is verified against the mathematical value of what it
//! works on: `FileTree` against `file_tree::TreeView`, a run of changes
//! against a sequence of `state::ChangeView`, and so on.

pub mod app;
pub mod file_tree;
pub mod repo;
pub mod state;
pub mod text;
pub mod tree_lemmas;
pub mod ui;
