//! The logic of hunkr: going through git diffs in a terminal, chunk by chunk.

pub mod app;
pub mod cache;
pub mod config;
pub mod editor;
pub mod event;
pub mod git;
pub mod glyphs;
pub mod highlight;
pub mod model;
pub mod pager;
pub mod path;
pub mod path_laws;
pub mod persist;
pub mod reference;
pub mod render;
pub mod text;
pub mod text_laws;
pub mod ui;
pub mod watch;
