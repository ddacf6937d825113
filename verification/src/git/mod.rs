//! What git is asked, and what it prints, read.

pub mod chunk_laws;
pub mod command;
pub mod diff;
pub mod diff_laws;
pub mod numstat;
pub mod parse_laws;
pub mod repo;
pub mod segment;
pub mod segment_laws;
pub mod status;
