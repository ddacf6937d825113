//! The rebindable commands.

use vstd::prelude::*;

use crate::text::same;

verus! {

/// A rebindable command. Every keybinding maps to one of these; the application
/// turns an `Action` into a state change.
#[derive(Debug, Clone, Copy, PartialEq, Eq, Hash, Structural)]
pub enum Action {
    ScrollDown,
    ScrollUp,
    PageDown,
    PageUp,
    NextChunk,
    PrevChunk,
    NextFile,
    PrevFile,
    NarrowSidebar,
    WidenSidebar,
    ToggleView,
    OpenThemePicker,
    Top,
    Bottom,
    SwitchFocus,
    Activate,
    ToggleReviewed,
    ToggleChunkReviewed,
    ExpandAllChunks,
    ToggleHidden,
    ToggleHiddenView,
    CopyReference,
    OpenEditor,
    EditConfig,
    StartFilter,
    Help,
    Quit,
}

/// The number of actions.
pub const ACTION_COUNT: usize = 27;

impl Action {
    /// Every action, in display order: drives the generated config template.
    pub const ALL: [Action; 27] = [
        Action::ScrollDown,
        Action::ScrollUp,
        Action::PageDown,
        Action::PageUp,
        Action::NextChunk,
        Action::PrevChunk,
        Action::NextFile,
        Action::PrevFile,
        Action::NarrowSidebar,
        Action::WidenSidebar,
        Action::ToggleView,
        Action::OpenThemePicker,
        Action::Top,
        Action::Bottom,
        Action::SwitchFocus,
        Action::Activate,
        Action::ToggleReviewed,
        Action::ToggleChunkReviewed,
        Action::ExpandAllChunks,
        Action::ToggleHidden,
        Action::ToggleHiddenView,
        Action::CopyReference,
        Action::OpenEditor,
        Action::EditConfig,
        Action::StartFilter,
        Action::Help,
        Action::Quit,
    ];

    /// The name of an action in the config file.
    pub open spec fn name_of(self) -> Seq<char> {
        match self {
            Action::ScrollDown => "scroll_down"@,
            Action::ScrollUp => "scroll_up"@,
            Action::PageDown => "page_down"@,
            Action::PageUp => "page_up"@,
            Action::NextChunk => "next_chunk"@,
            Action::PrevChunk => "prev_chunk"@,
            Action::NextFile => "next_file"@,
            Action::PrevFile => "prev_file"@,
            Action::NarrowSidebar => "narrow_sidebar"@,
            Action::WidenSidebar => "widen_sidebar"@,
            Action::ToggleView => "toggle_view"@,
            Action::OpenThemePicker => "open_theme_picker"@,
            Action::Top => "top"@,
            Action::Bottom => "bottom"@,
            Action::SwitchFocus => "switch_focus"@,
            Action::Activate => "activate"@,
            Action::ToggleReviewed => "toggle_reviewed"@,
            Action::ToggleChunkReviewed => "toggle_chunk_reviewed"@,
            Action::ExpandAllChunks => "expand_all_chunks"@,
            Action::ToggleHidden => "toggle_hidden"@,
            Action::ToggleHiddenView => "toggle_hidden_view"@,
            Action::CopyReference => "copy_reference"@,
            Action::OpenEditor => "open_editor"@,
            Action::EditConfig => "edit_config"@,
            Action::StartFilter => "start_filter"@,
            Action::Help => "help"@,
            Action::Quit => "quit"@,
        }
    }

    /// The snake_case name used as the config `[keys]` table key. The inverse of
    /// [`Action::from_name`].
    pub fn name(self) -> (r: &'static str)
        ensures
            r@ == self.name_of(),
    {
        match self {
            Action::ScrollDown => "scroll_down",
            Action::ScrollUp => "scroll_up",
            Action::PageDown => "page_down",
            Action::PageUp => "page_up",
            Action::NextChunk => "next_chunk",
            Action::PrevChunk => "prev_chunk",
            Action::NextFile => "next_file",
            Action::PrevFile => "prev_file",
            Action::NarrowSidebar => "narrow_sidebar",
            Action::WidenSidebar => "widen_sidebar",
            Action::ToggleView => "toggle_view",
            Action::OpenThemePicker => "open_theme_picker",
            Action::Top => "top",
            Action::Bottom => "bottom",
            Action::SwitchFocus => "switch_focus",
            Action::Activate => "activate",
            Action::ToggleReviewed => "toggle_reviewed",
            Action::ToggleChunkReviewed => "toggle_chunk_reviewed",
            Action::ExpandAllChunks => "expand_all_chunks",
            Action::ToggleHidden => "toggle_hidden",
            Action::ToggleHiddenView => "toggle_hidden_view",
            Action::CopyReference => "copy_reference",
            Action::OpenEditor => "open_editor",
            Action::EditConfig => "edit_config",
            Action::StartFilter => "start_filter",
            Action::Help => "help",
            Action::Quit => "quit",
        }
    }

    /// The action with this name.
    pub fn from_name(s: &str) -> (r: Option<Action>)
        ensures
            forall|a: Action| #[trigger] a.name_of() == s@ <==> r == Some(a),
    {
        let all = Action::ALL;
        assert(all@ =~= all_actions());
        let mut i: usize = 0;
        while i < ACTION_COUNT
            invariant
                i <= ACTION_COUNT,
                all@ == all_actions(),
                all@.len() == ACTION_COUNT,
                forall|j: int| 0 <= j < i ==> (#[trigger] all@[j]).name_of() != s@,
            decreases ACTION_COUNT - i,
        {
            if same(all[i].name(), s) {
                proof {
                    assert forall|a: Action| #[trigger] a.name_of() == s@ implies a
                        == all@[i as int] by {
                        law_names_differ(a, all@[i as int]);
                    }
                }
                return Some(all[i]);
            }
            i += 1;
        }
        proof {
            assert forall|a: Action| #[trigger] a.name_of() != s@ by {
                lemma_all_actions(a);
                assert(all@[action_index(a)] == a);
            }
        }
        None
    }
}

/// Every action, in display order.
pub open spec fn all_actions() -> Seq<Action> {
    seq![
        Action::ScrollDown,
        Action::ScrollUp,
        Action::PageDown,
        Action::PageUp,
        Action::NextChunk,
        Action::PrevChunk,
        Action::NextFile,
        Action::PrevFile,
        Action::NarrowSidebar,
        Action::WidenSidebar,
        Action::ToggleView,
        Action::OpenThemePicker,
        Action::Top,
        Action::Bottom,
        Action::SwitchFocus,
        Action::Activate,
        Action::ToggleReviewed,
        Action::ToggleChunkReviewed,
        Action::ExpandAllChunks,
        Action::ToggleHidden,
        Action::ToggleHiddenView,
        Action::CopyReference,
        Action::OpenEditor,
        Action::EditConfig,
        Action::StartFilter,
        Action::Help,
        Action::Quit,
    ]
}

/// The place of an action in the display order.
pub open spec fn action_index(a: Action) -> int {
    match a {
        Action::ScrollDown => 0,
        Action::ScrollUp => 1,
        Action::PageDown => 2,
        Action::PageUp => 3,
        Action::NextChunk => 4,
        Action::PrevChunk => 5,
        Action::NextFile => 6,
        Action::PrevFile => 7,
        Action::NarrowSidebar => 8,
        Action::WidenSidebar => 9,
        Action::ToggleView => 10,
        Action::OpenThemePicker => 11,
        Action::Top => 12,
        Action::Bottom => 13,
        Action::SwitchFocus => 14,
        Action::Activate => 15,
        Action::ToggleReviewed => 16,
        Action::ToggleChunkReviewed => 17,
        Action::ExpandAllChunks => 18,
        Action::ToggleHidden => 19,
        Action::ToggleHiddenView => 20,
        Action::CopyReference => 21,
        Action::OpenEditor => 22,
        Action::EditConfig => 23,
        Action::StartFilter => 24,
        Action::Help => 25,
        Action::Quit => 26,
    }
}

proof fn lemma_all_actions(a: Action)
    ensures
        0 <= action_index(a) < all_actions().len(),
        all_actions()[action_index(a)] == a,
{
}

/// Different actions have different names, so a name in the config file stands
/// for one action.
pub proof fn law_names_differ(a: Action, b: Action)
    ensures
        a.name_of() == b.name_of() ==> a == b,
{
    reveal_strlit("scroll_down");
    reveal_strlit("scroll_up");
    reveal_strlit("page_down");
    reveal_strlit("page_up");
    reveal_strlit("next_chunk");
    reveal_strlit("prev_chunk");
    reveal_strlit("next_file");
    reveal_strlit("prev_file");
    reveal_strlit("narrow_sidebar");
    reveal_strlit("widen_sidebar");
    reveal_strlit("toggle_view");
    reveal_strlit("open_theme_picker");
    reveal_strlit("top");
    reveal_strlit("bottom");
    reveal_strlit("switch_focus");
    reveal_strlit("activate");
    reveal_strlit("toggle_reviewed");
    reveal_strlit("toggle_chunk_reviewed");
    reveal_strlit("expand_all_chunks");
    reveal_strlit("toggle_hidden");
    reveal_strlit("toggle_hidden_view");
    reveal_strlit("copy_reference");
    reveal_strlit("open_editor");
    reveal_strlit("edit_config");
    reveal_strlit("start_filter");
    reveal_strlit("help");
    reveal_strlit("quit");
    let s = a.name_of();
    let t = b.name_of();
    if s == t {
        assert(s.len() == t.len());
        assert(s[0] == t[0]);
        assert(s[1] == t[1]);
        assert(s[2] == t[2]);
        if s.len() > 4 {
            assert(s[4] == t[4]);
        }
        if s.len() > 7 {
            assert(s[5] == t[5]);
            assert(s[7] == t[7]);
        }
    }
}

} // verus!
