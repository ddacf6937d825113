//! Application state: the single source of truth.

pub mod events;
pub mod fuzzy;
pub mod input;
pub mod key_laws;
pub mod laws;
pub mod loading;
pub mod navigate;
pub mod refresh;
pub mod reviewing;
pub mod rows;
pub mod session;
pub mod session_laws;
pub mod state;
pub mod types;
pub mod view_laws;

pub use session::App;
