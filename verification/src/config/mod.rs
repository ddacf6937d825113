//! User configuration: a TOML file, by default `~/.config/hunkr/config.toml`.
//!
//! Configurable are the default diff layout (`view`), how reviewed chunks are
//! shown (`reviewed_chunks`), the highlighting (`[theme]`), a full remap of every
//! [`action::Action`] (`[keys]`), and auto-hide rules (`[hide]`) that combine with
//! the interactive hides.

pub mod action;
pub mod chord;
pub mod config_laws;
pub mod edit;
pub mod hide_rules;
pub mod keymap;
pub mod load;
pub mod template;
