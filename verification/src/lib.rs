//! Data model, parsing and layout logic of a Git diff viewer.

mod text;
pub mod diff;
pub mod hunk_header;
pub mod parse;
pub mod path;
pub mod rows;
pub mod alignment;
pub mod stream;
pub mod inline;
pub mod selection;
pub mod language;
pub mod file_kind;
pub mod theme;
pub mod layout;
pub mod cli;
pub mod source;
pub mod tree;
pub mod git_delta;
pub mod navigation;
pub mod file_meta;
pub mod scrolling;
pub mod copying;
