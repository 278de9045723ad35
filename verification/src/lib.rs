use vstd::prelude::*;

pub mod buffer;
pub mod chars;
pub mod commands;
pub mod config;
pub mod diff_mark;
pub mod edit_ops;
pub mod editor;
pub mod fs_search;
pub mod git;
pub mod git_stream;
pub mod headless;
pub mod key_dispatch;
pub mod highlight;
pub mod line_render;
pub mod log_detect;
pub mod log_filter;
pub mod log_format;
pub mod log_layout;
pub mod log_parse;
pub mod log_query;
pub mod log_rows;
pub mod log_time;
pub mod log_types;
pub mod log_viewer;
pub mod matcher;
pub mod motion;
pub mod numbers;
pub mod preview_sync;
pub mod search;
pub mod search_control;
pub mod search_types;
pub mod selection;
pub mod sqlite;
pub mod startup;
pub mod syntax;
pub mod text;
pub mod text_objects;
pub mod undo;
pub mod yank;

verus! {
} // verus!
