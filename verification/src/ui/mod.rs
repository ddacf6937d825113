//! What the screen shows.

pub mod canvas;
pub mod diff_panel;
pub mod help;
pub mod notification;
pub mod panel_laws;
pub mod screen;
pub mod statusbar;
pub mod theme_picker;
pub mod tree_panel;
