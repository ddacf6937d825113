//! What the application does about the events of the main loop.

use vstd::prelude::*;

use crate::app::session::App;
use crate::app::state::AppState;
use crate::app::types::{Clock, KeyEvent, MouseEvent};
use crate::event::Event;
use crate::text::strings;

verus! {

/// An event of the terminal.
#[derive(Debug, Clone, Copy, PartialEq, Eq, Structural)]
pub enum TerminalEvent {
    Key(KeyEvent),
    Mouse(MouseEvent),
    Resize,
    /// Anything else, such as a change of focus.
    Other,
}

impl AppState {
    /// After an event of the terminal.
    pub open spec fn after_terminal_event(self, ev: TerminalEvent, now: Clock) -> AppState {
        match ev {
            TerminalEvent::Key(key) => self.after_key(key, now),
            TerminalEvent::Mouse(mouse) => self.after_mouse(mouse),
            TerminalEvent::Resize => AppState { dirty: true, ..self },
            TerminalEvent::Other => self,
        }
    }

    /// After a background event.
    pub open spec fn after_event(self, ev: Event) -> AppState {
        match ev {
            Event::Fs => self,
            Event::Refreshed(snapshot) => self.reconciled(snapshot@),
            Event::Highlighted {
                path,
                theme,
                diff_hash,
                generation,
                highlight,
            } => self.highlight_arrived(path@, theme@, diff_hash, generation, highlight),
            Event::Error(text) => AppState { error: Some(text@), dirty: true, ..self },
        }
    }
}

impl App {
    /// Handle an event of the terminal.
    pub fn on_terminal_event(&mut self, ev: TerminalEvent, now: Clock)
        requires
            old(self).wf(),
        ensures
            final(self)@ == old(self)@.after_terminal_event(ev, now),
            final(self).wf(),
    {
        match ev {
            TerminalEvent::Key(key) => self.on_key(key, now),
            TerminalEvent::Mouse(mouse) => self.on_mouse(mouse),
            TerminalEvent::Resize => self.mark_dirty(),
            TerminalEvent::Other => {},
        }
    }

    /// Whether there is a repository behind the session.
    fn on_repository(&self) -> (r: bool)
        ensures
            r == self@.live,
    {
        proof {
            reveal(App::state);
        }
        self.live
    }

    /// Handle a background event. When files changed in the repository, the result
    /// is the request for the git worker: the paths to hash anew, which are those
    /// with a review record.
    pub fn on_event(&mut self, ev: Event) -> (refresh: Option<Vec<String>>)
        requires
            old(self).wf(),
        ensures
            final(self)@ == old(self)@.after_event(ev),
            final(self).wf(),
            refresh is Some <==> ev is Fs && old(self)@.live,
            refresh is Some ==> strings(refresh->0@).no_duplicates(),
            refresh is Some ==> forall|p: Seq<char>| #[trigger]
                strings(refresh->0@).contains(p) <==> old(self)@.review.contains_key(p),
    {
        match ev {
            Event::Fs => {
                if self.on_repository() {
                    return Some(self.reviewed_paths());
                }
            },
            Event::Refreshed(snapshot) => self.reconcile(snapshot),
            Event::Highlighted { path, theme, diff_hash, generation, highlight } => {
                self.apply_highlight(path.as_str(), theme, diff_hash, generation, highlight)
            },
            Event::Error(text) => self.background_error(text),
        }
        None
    }
}

/// Changed files alone change nothing until git has answered; an error is shown; a resize
/// draws the screen again, and other events of the terminal do nothing.
pub proof fn law_events(s: AppState, text: String, now: Clock)
    ensures
        s.after_event(Event::Fs) == s,
        s.after_event(Event::Error(text)) == (AppState {
            error: Some(text@),
            dirty: true,
            ..s
        }),
        s.after_terminal_event(TerminalEvent::Resize, now) == (AppState { dirty: true, ..s }),
        s.after_terminal_event(TerminalEvent::Other, now) == s,
{
}

/// A snapshot that arrives is taken over, and what is reviewed and hidden stays.
pub proof fn law_refresh_event(s: AppState, snapshot: crate::model::snapshot::GitSnapshot)
    requires
        s.live,
    ensures
        ({
            let r = s.after_event(Event::Refreshed(snapshot));
            &&& r.review == s.review
            &&& r.hidden == s.hidden
            &&& r.files == snapshot@.files
            &&& r.dirty
        }),
{
    reveal(AppState::reconciled);
    let a = AppState { hashes: snapshot@.hashes, ..s }.with_files(
        snapshot@.files,
        s.place().path,
    );
    assert(a.files == snapshot@.files && a.review == s.review && a.hidden == s.hidden && a.live) by {
        reveal(AppState::with_files);
        reveal(AppState::recomputed);
    }
    let b = AppState { diff_file: None, ..a };
    let c = b.loading(false, Some(s.place()));
    assert(c.files == b.files && c.review == b.review && c.hidden == b.hidden) by {
        reveal(AppState::loading);
        reveal(AppState::asking);
        reveal(AppState::restored);
        reveal(AppState::refolded);
        reveal(AppState::cleared);
    }
}

} // verus!
