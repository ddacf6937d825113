//! The small types of the application state.

use std::sync::Arc;

use vstd::prelude::*;

use crate::model::diff::{DiffModel, FileDiff};
use crate::text::opt_string;

verus! {

/// The panel that keys act on.
#[derive(Debug, Clone, Copy, PartialEq, Eq, Structural)]
pub enum Focus {
    Tree,
    Diff,
}

/// Top-level input mode. Determines how keys are interpreted and which overlays
/// are shown.
#[derive(Debug, Clone, Copy, PartialEq, Eq, Structural)]
pub enum Mode {
    Normal,
    /// Editing the file filter query.
    Filter,
    /// Help overlay is open.
    Help,
    /// Theme picker overlay is open (fuzzy search and live preview).
    ThemePicker,
}

/// How the diff panel lays out a file's changes.
#[derive(Debug, Clone, Copy, PartialEq, Eq, Structural)]
pub enum ViewMode {
    /// Stacked unified diff (default).
    Unified,
    /// Old version on the left, new version on the right.
    SideBySide,
}

/// How a chunk marked reviewed is presented in the diff panel.
#[derive(Debug, Clone, Copy, PartialEq, Eq, Structural)]
pub enum ReviewedDisplay {
    /// Fold the chunk to its header line (default): reviewed work disappears.
    Collapse,
    /// Keep the chunk's lines visible but dimmed.
    Dim,
}

/// One rendered row of the unified diff: a chunk header or a body line
/// `(chunk, line)`.
#[derive(Debug, Clone, Copy, PartialEq, Eq, Structural)]
pub enum RowRef {
    Header(usize),
    Line(usize, usize),
}

/// One rendered row of the side-by-side diff. `Pair` holds the old-side and
/// new-side line references `(chunk, line)`; either may be absent when one side
/// has no corresponding line (a pure add or delete).
#[derive(Debug, Clone, Copy, PartialEq, Eq)]
pub enum SideRow {
    Header(usize),
    Pair { left: Option<(usize, usize)>, right: Option<(usize, usize)> },
}

/// A press or release of a key.
#[derive(Debug, Clone, Copy, PartialEq, Eq, Structural)]
pub struct KeyEvent {
    pub code: crate::config::chord::KeyCode,
    pub modifiers: crate::config::chord::KeyModifiers,
    /// The key was let go.
    pub release: bool,
}

/// What the mouse did.
#[derive(Debug, Clone, Copy, PartialEq, Eq, Structural)]
pub enum MouseKind {
    LeftDown,
    LeftDrag,
    LeftUp,
    ScrollDown,
    ScrollUp,
    Other,
}

/// A mouse event, and the column it happened in.
#[derive(Debug, Clone, Copy, PartialEq, Eq, Structural)]
pub struct MouseEvent {
    pub kind: MouseKind,
    pub column: u16,
}

/// The time of an event: milliseconds on a clock that never goes back, and
/// seconds since the Unix epoch.
#[derive(Debug, Clone, Copy, PartialEq, Eq, Structural)]
pub struct Clock {
    pub millis: u64,
    pub unix: i64,
}

/// State for the theme picker overlay: a fuzzy-search input over the available
/// theme names with live preview as the cursor moves.
#[derive(Debug)]
pub struct ThemePicker {
    /// Current search query.
    pub query: String,
    /// Theme names matching `query`, best match first.
    pub matches: Vec<String>,
    /// Index into `matches` of the highlighted row.
    pub cursor: usize,
    /// The theme that was active when the picker opened, restored on cancel.
    pub original: String,
}

/// A theme picker as a mathematical value.
#[verifier::ext_equal]
pub struct PickerModel {
    pub query: Seq<char>,
    pub matches: Seq<Seq<char>>,
    pub cursor: usize,
    pub original: Seq<char>,
}

impl View for ThemePicker {
    type V = PickerModel;

    open spec fn view(&self) -> PickerModel {
        PickerModel {
            query: self.query@,
            matches: crate::text::strings(self.matches@),
            cursor: self.cursor,
            original: self.original@,
        }
    }
}

/// A request to open a file in the user's editor.
#[derive(Debug)]
pub struct EditorRequest {
    pub path: String,
    pub line: u32,
}

impl View for EditorRequest {
    type V = (Seq<char>, u32);

    open spec fn view(&self) -> (Seq<char>, u32) {
        (self.path@, self.line)
    }
}

/// A transient top-right toast that is over at `expires_at`.
#[derive(Debug)]
pub struct Toast {
    pub text: String,
    pub expires_at: u64,
}

impl View for Toast {
    type V = (Seq<char>, u64);

    open spec fn view(&self) -> (Seq<char>, u64) {
        (self.text@, self.expires_at)
    }
}

/// Where the view was before a reload, to be restored where the file's diff did
/// not change.
#[derive(Debug)]
pub struct Place {
    pub path: Option<String>,
    pub text: Option<String>,
    pub scroll: usize,
    pub chunk: usize,
    /// Whether each chunk was folded.
    pub collapsed: Vec<bool>,
}

/// A place as a mathematical value.
#[verifier::ext_equal]
pub struct PlaceModel {
    pub path: Option<Seq<char>>,
    pub text: Option<Seq<char>>,
    pub scroll: usize,
    pub chunk: usize,
    pub collapsed: Seq<bool>,
}

impl View for Place {
    type V = PlaceModel;

    open spec fn view(&self) -> PlaceModel {
        PlaceModel {
            path: opt_string(self.path),
            text: opt_string(self.text),
            scroll: self.scroll,
            chunk: self.chunk,
            collapsed: self.collapsed@,
        }
    }
}

/// The value behind an optional place.
pub open spec fn place_model(p: Option<Place>) -> Option<PlaceModel> {
    match p {
        Some(p) => Some(p@),
        None => None,
    }
}

/// A request to highlight one file's diff off the UI thread.
#[derive(Debug)]
pub struct HighlightRequest {
    pub path: String,
    pub diff: Arc<FileDiff>,
    pub theme: String,
    pub truecolor: bool,
    pub diff_hash: u64,
    /// Generation of the originating selection. Foreground requests carry the
    /// latest selection's generation (and are displayed only if it still
    /// matches); prefetch requests use 0 (cached on arrival, never displayed).
    pub generation: u64,
}

/// A highlight request as a mathematical value.
#[verifier::ext_equal]
pub struct HighlightModel {
    pub path: Seq<char>,
    pub diff: DiffModel,
    pub theme: Seq<char>,
    pub truecolor: bool,
    pub diff_hash: u64,
    pub generation: u64,
}

impl View for HighlightRequest {
    type V = HighlightModel;

    open spec fn view(&self) -> HighlightModel {
        HighlightModel {
            path: self.path@,
            diff: self.diff@,
            theme: self.theme@,
            truecolor: self.truecolor,
            diff_hash: self.diff_hash,
            generation: self.generation,
        }
    }
}

/// Work that the application state asks the program for. Effects are carried out
/// in the order in which they were asked for, before the next event is handled.
#[derive(Debug)]
pub enum Effect {
    /// Load the diff of file `file`: look at the file, then hand its signature to
    /// `begin_load`. `place` is where the view goes back to if nothing changed.
    Load { file: usize, use_cache: bool, place: Option<Place> },
    /// Write the reviewed state to its file.
    SaveReview,
    /// Write the hidden files to their file.
    SaveHidden,
    /// Copy the text to the clipboard.
    Copy(String),
    /// Write the view mode to the config file.
    SaveView(ViewMode),
    /// Write the theme to the config file.
    SaveTheme(String),
    /// Highlight the diff in view.
    Highlight(HighlightRequest),
    /// Highlight a diff that is not in view.
    Prefetch(HighlightRequest),
}

/// An effect as a mathematical value.
pub enum EffectModel {
    Load { file: usize, use_cache: bool, place: Option<PlaceModel> },
    SaveReview,
    SaveHidden,
    Copy(Seq<char>),
    SaveView(ViewMode),
    SaveTheme(Seq<char>),
    Highlight(HighlightModel),
    Prefetch(HighlightModel),
}

impl View for Effect {
    type V = EffectModel;

    open spec fn view(&self) -> EffectModel {
        match self {
            Effect::Load { file, use_cache, place } => EffectModel::Load {
                file: *file,
                use_cache: *use_cache,
                place: place_model(*place),
            },
            Effect::SaveReview => EffectModel::SaveReview,
            Effect::SaveHidden => EffectModel::SaveHidden,
            Effect::Copy(s) => EffectModel::Copy(s@),
            Effect::SaveView(v) => EffectModel::SaveView(*v),
            Effect::SaveTheme(s) => EffectModel::SaveTheme(s@),
            Effect::Highlight(r) => EffectModel::Highlight(r@),
            Effect::Prefetch(r) => EffectModel::Prefetch(r@),
        }
    }
}

/// The effects of a list, as mathematical values.
pub open spec fn effect_models(v: Seq<Effect>) -> Seq<EffectModel> {
    v.map_values(|e: Effect| e@)
}

} // verus!
