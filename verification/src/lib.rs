//! Formatting of directory-scan results as tree views: a tree of the matched
//! entries with optional columns for entry numbers, sizes, modification times
//! and paths, a sorting engine for the entries, and formatters for sizes and
//! timestamps.
pub mod text;
pub mod numeration;
pub mod stats_weight;
pub mod tree;
pub mod path_text;
pub mod fmt_node;
pub mod sort;
pub mod temporal;
pub mod stats_temporal;
pub mod paths_tree;
pub mod querypath_fmt;
pub mod fmt_render;
