//! UI glyph set: the single source of truth for every non-text marker the UI
//! draws. Unicode symbols by default; the ASCII set renders in any terminal.

use vstd::prelude::*;

use crate::model::review::ReviewStatus;

verus! {

#[derive(Debug, Clone, Copy)]
pub struct Glyphs {
    pub reviewed: &'static str,
    /// Some of the file's chunks are reviewed, but not all.
    pub partial: &'static str,
    pub unreviewed: &'static str,
    pub changed: &'static str,
    pub folder_open: char,
    pub folder_closed: char,
    /// Prefix on error messages in the status bar.
    pub error: &'static str,
    /// Block cursor shown while editing the filter.
    pub cursor: char,
    /// Bar in front of the header of the current chunk.
    pub chunk_bar: char,
    /// Separator between status-bar segments.
    pub sep: &'static str,
    /// Placeholder when there's no current chunk.
    pub dash: &'static str,
}

impl Glyphs {
    pub fn ascii() -> (r: Self)
        ensures
            r.reviewed@ == "[x]"@,
            r.partial@ == "[~]"@,
            r.unreviewed@ == "[ ]"@,
            r.changed@ == "[!]"@,
            r.folder_open == 'v',
            r.folder_closed == '>',
            r.error@ == "!"@,
            r.cursor == '_',
            r.chunk_bar == '|',
            r.sep@ == " | "@,
            r.dash@ == "-"@,
    {
        Glyphs {
            reviewed: "[x]",
            partial: "[~]",
            unreviewed: "[ ]",
            changed: "[!]",
            folder_open: 'v',
            folder_closed: '>',
            error: "!",
            cursor: '_',
            chunk_bar: '|',
            sep: " | ",
            dash: "-",
        }
    }

    /// Every glyph here is single-width in common fonts: a wider one would
    /// swallow the following space and misalign the row.
    pub fn unicode() -> (r: Self)
        ensures
            r.reviewed@ == "✓"@,
            r.partial@ == "◐"@,
            r.unreviewed@ == "●"@,
            r.changed@ == "!"@,
            r.folder_open == '▾',
            r.folder_closed == '▸',
            r.error@ == "!"@,
            r.cursor == '│',
            r.chunk_bar == '▌',
            r.sep@ == " · "@,
            r.dash@ == "—"@,
    {
        Glyphs {
            reviewed: "✓",
            partial: "◐",
            unreviewed: "●",
            changed: "!",
            folder_open: '▾',
            folder_closed: '▸',
            error: "!",
            cursor: '│',
            chunk_bar: '▌',
            sep: " · ",
            dash: "—",
        }
    }

    /// The marker for a review status.
    pub fn status(&self, status: ReviewStatus) -> (r: &'static str)
        ensures
            r == match status {
                ReviewStatus::Reviewed => self.reviewed,
                ReviewStatus::Unreviewed => self.unreviewed,
            },
    {
        match status {
            ReviewStatus::Reviewed => self.reviewed,
            ReviewStatus::Unreviewed => self.unreviewed,
        }
    }
}

} // verus!
