//! `gd`: the logic of a side-by-side git diff viewer, with its contracts.
//!
//! The modules hold what the viewer computes: text helpers, the aligned row
//! model of a diff, git output parsing, the file tree, key-sequence
//! resolution, the fuzzy picker, grep parsing, argument parsing and the pure
//! parts of rendering.
use vstd::prelude::*;

pub mod app;
pub mod cli;
pub mod diff;
pub mod git;
pub mod keys;
pub mod paint;
pub mod picker;
pub mod search;
pub mod sort;
pub mod text;
pub mod tree;
pub mod ui;

verus! {

} // verus!
