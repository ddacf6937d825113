//! The chord → action lookup table.

use vstd::prelude::*;
use vstd::utf8::*;

use crate::config::action::Action;
use crate::config::chord::{chord_text, chord_to_string, no_mods, Chord, KeyCode, KeyModifiers};
use crate::path::{chars_less, is_chars_less, lemma_chars_total, lemma_chars_transitive};
use crate::text::{chars_of, lemma_take_step, strings};

verus! {

/// The chord → action lookup table. Built from the defaults, then the user's
/// `[keys]` overrides are layered on per action ([`KeyMap::rebind`]).
#[derive(Debug)]
pub struct KeyMap {
    bindings: Vec<(Chord, Action)>,
}

/// The table that a list of bindings makes; of two bindings for one chord the
/// later one counts.
pub open spec fn bindings_map(bindings: Seq<(Chord, Action)>) -> Map<Chord, Action>
    decreases bindings.len(),
{
    if bindings.len() == 0 {
        Map::empty()
    } else {
        bindings_map(bindings.drop_last()).insert(bindings.last().0, bindings.last().1)
    }
}

/// No chord is bound twice.
spec fn distinct(bindings: Seq<(Chord, Action)>) -> bool {
    forall|i: int, j: int| 0 <= i < j < bindings.len() ==> bindings[i].0 != bindings[j].0
}

/// The action of a chord.
pub open spec fn action_at(map: Map<Chord, Action>, chord: Chord) -> Option<Action> {
    if map.contains_key(chord) {
        Some(map[chord])
    } else {
        None
    }
}

/// The built-in binding of a chord.
pub open spec fn default_action(chord: Chord) -> Option<Action> {
    let (code, mods) = chord;
    if mods == no_mods() {
        match code {
            KeyCode::Char(c) => if c == 'j' {
                Some(Action::ScrollDown)
            } else if c == 'k' {
                Some(Action::ScrollUp)
            } else if c == 'n' {
                Some(Action::NextChunk)
            } else if c == 'p' {
                Some(Action::PrevChunk)
            } else if c == ']' {
                Some(Action::NextFile)
            } else if c == '[' {
                Some(Action::PrevFile)
            } else if c == '<' {
                Some(Action::NarrowSidebar)
            } else if c == '>' {
                Some(Action::WidenSidebar)
            } else if c == 's' {
                Some(Action::ToggleView)
            } else if c == 'T' {
                Some(Action::OpenThemePicker)
            } else if c == 'g' {
                Some(Action::Top)
            } else if c == 'G' {
                Some(Action::Bottom)
            } else if c == 'r' {
                Some(Action::ToggleChunkReviewed)
            } else if c == 'R' {
                Some(Action::ToggleReviewed)
            } else if c == 'o' {
                Some(Action::ExpandAllChunks)
            } else if c == 'h' {
                Some(Action::ToggleHidden)
            } else if c == 'H' {
                Some(Action::ToggleHiddenView)
            } else if c == 'y' {
                Some(Action::CopyReference)
            } else if c == 'e' {
                Some(Action::OpenEditor)
            } else if c == 'C' {
                Some(Action::EditConfig)
            } else if c == '/' {
                Some(Action::StartFilter)
            } else if c == '?' {
                Some(Action::Help)
            } else if c == 'q' {
                Some(Action::Quit)
            } else {
                None
            },
            KeyCode::Down => Some(Action::ScrollDown),
            KeyCode::Up => Some(Action::ScrollUp),
            KeyCode::PageDown => Some(Action::PageDown),
            KeyCode::PageUp => Some(Action::PageUp),
            KeyCode::Tab => Some(Action::SwitchFocus),
            KeyCode::Enter => Some(Action::Activate),
            _ => None,
        }
    } else if mods == (KeyModifiers { shift: true, ..no_mods() }) {
        match code {
            KeyCode::Down => Some(Action::PageDown),
            KeyCode::Up => Some(Action::PageUp),
            _ => None,
        }
    } else if mods == (KeyModifiers { control: true, ..no_mods() }) {
        if code == KeyCode::Char('c') {
            Some(Action::Quit)
        } else {
            None
        }
    } else {
        None
    }
}

/// The built-in table.
pub open spec fn default_map() -> Map<Chord, Action> {
    Map::new(
        |chord: Chord| default_action(chord) is Some,
        |chord: Chord| default_action(chord)->0,
    )
}

/// `map` without the chords that trigger `action`.
pub open spec fn unbound(map: Map<Chord, Action>, action: Action) -> Map<Chord, Action> {
    map.restrict(Set::new(|chord: Chord| map.contains_key(chord) && map[chord] != action))
}

/// `map` with all of `chords` triggering `action`.
pub open spec fn bind_all(map: Map<Chord, Action>, action: Action, chords: Seq<Chord>) -> Map<
    Chord,
    Action,
>
    decreases chords.len(),
{
    if chords.len() == 0 {
        map
    } else {
        bind_all(map, action, chords.drop_last()).insert(chords.last(), action)
    }
}

/// The table after a rebinding: `action` is triggered by `chords` and no others.
pub open spec fn rebound(map: Map<Chord, Action>, action: Action, chords: Seq<Chord>) -> Map<
    Chord,
    Action,
> {
    bind_all(unbound(map, action), action, chords)
}

/// The display order of chords: shorter ones first (in bytes), then by
/// character.
pub open spec fn shown_before(a: Seq<char>, b: Seq<char>) -> bool {
    ||| encode_utf8(a).len() < encode_utf8(b).len()
    ||| encode_utf8(a).len() == encode_utf8(b).len() && chars_less(a, b)
}

pub open spec fn in_shown_order(names: Seq<Seq<char>>) -> bool {
    forall|i: int, j: int|
        #![trigger names[i], names[j]]
        0 <= i < j < names.len() ==> !shown_before(names[j], names[i])
}

/// `order` lists every chord of `action` once.
pub open spec fn lists_chords(
    map: Map<Chord, Action>,
    action: Action,
    order: Seq<Chord>,
) -> bool {
    &&& order.no_duplicates()
    &&& forall|c: Chord| #[trigger]
        order.contains(c) <==> map.contains_key(c) && map[c] == action
}

pub open spec fn chord_texts(order: Seq<Chord>) -> Seq<Seq<char>> {
    order.map_values(|c: Chord| chord_text(c))
}

/// `names` are the chords of `action`, as they are displayed and in display
/// order.
pub open spec fn chord_names(
    map: Map<Chord, Action>,
    action: Action,
    names: Seq<Seq<char>>,
) -> bool {
    in_shown_order(names) && exists|order: Seq<Chord>| #[trigger]
        lists_chords(map, action, order) && names == chord_texts(order)
}

/// One of the first `n` bindings binds `c` to `action`.
spec fn bound_among(all: Seq<(Chord, Action)>, action: Action, n: int, c: Chord) -> bool {
    exists|j: int| 0 <= j < n && (#[trigger] all[j]).0 == c && all[j].1 == action
}

fn is_shown_before(a: &str, b: &str) -> (r: bool)
    ensures
        r == shown_before(a@, b@),
{
    let la = a.as_bytes().len();
    let lb = b.as_bytes().len();
    la < lb || (la == lb && is_chars_less(chars_of(a).as_slice(), chars_of(b).as_slice()))
}

proof fn lemma_shown_order(a: Seq<char>, b: Seq<char>, c: Seq<char>)
    ensures
        !(shown_before(a, b) && shown_before(b, a)),
        !shown_before(b, a) && !shown_before(c, b) ==> !shown_before(c, a),
{
    lemma_chars_total(a, b);
    lemma_chars_total(b, c);
    lemma_chars_total(a, c);
    if chars_less(a, b) && chars_less(b, c) {
        lemma_chars_transitive(a, b, c);
    }
}

proof fn lemma_bindings(bindings: Seq<(Chord, Action)>)
    requires
        distinct(bindings),
    ensures
        forall|i: int|
            0 <= i < bindings.len() ==> bindings_map(bindings).contains_key(
                (#[trigger] bindings[i]).0,
            ) && bindings_map(bindings)[bindings[i].0] == bindings[i].1,
        forall|c: Chord| #[trigger]
            bindings_map(bindings).contains_key(c) ==> exists|i: int|
                0 <= i < bindings.len() && (#[trigger] bindings[i]).0 == c,
    decreases bindings.len(),
{
    if bindings.len() > 0 {
        let head = bindings.drop_last();
        assert forall|i: int, j: int| 0 <= i < j < head.len() implies head[i].0 != head[j].0 by {
            assert(bindings[i].0 != bindings[j].0);
        }
        lemma_bindings(head);
        assert forall|i: int| 0 <= i < bindings.len() implies bindings_map(bindings).contains_key(
            (#[trigger] bindings[i]).0,
        ) && bindings_map(bindings)[bindings[i].0] == bindings[i].1 by {
            if i < head.len() {
                assert(head[i] == bindings[i]);
                assert(bindings[i].0 != bindings[bindings.len() - 1].0);
            }
        }
        assert forall|c: Chord| #[trigger] bindings_map(bindings).contains_key(c) implies exists|
            i: int,
        | 0 <= i < bindings.len() && (#[trigger] bindings[i]).0 == c by {
            if c == bindings.last().0 {
                assert(bindings[bindings.len() - 1].0 == c);
            } else {
                assert(bindings_map(head).contains_key(c));
                let i = choose|i: int| 0 <= i < head.len() && (#[trigger] head[i]).0 == c;
                assert(bindings[i].0 == c);
            }
        }
    }
}

impl View for KeyMap {
    type V = Map<Chord, Action>;

    closed spec fn view(&self) -> Map<Chord, Action> {
        bindings_map(self.bindings@)
    }
}

impl KeyMap {
    /// No chord is bound twice.
    pub closed spec fn wf(self) -> bool {
        distinct(self.bindings@)
    }

    /// The built-in bindings.
    pub fn defaults() -> (r: KeyMap)
        ensures
            r@ == default_map(),
            r.wf(),
    {
        let n = KeyModifiers::none();
        let shift = KeyModifiers::shift_only();
        let ctrl = KeyModifiers::control_only();
        let mut km = KeyMap { bindings: Vec::new() };
        km.bind((KeyCode::Char('j'), n), Action::ScrollDown);
        km.bind((KeyCode::Down, n), Action::ScrollDown);
        km.bind((KeyCode::Char('k'), n), Action::ScrollUp);
        km.bind((KeyCode::Up, n), Action::ScrollUp);
        km.bind((KeyCode::PageDown, n), Action::PageDown);
        km.bind((KeyCode::Down, shift), Action::PageDown);
        km.bind((KeyCode::PageUp, n), Action::PageUp);
        km.bind((KeyCode::Up, shift), Action::PageUp);
        km.bind((KeyCode::Char('n'), n), Action::NextChunk);
        km.bind((KeyCode::Char('p'), n), Action::PrevChunk);
        km.bind((KeyCode::Char(']'), n), Action::NextFile);
        km.bind((KeyCode::Char('['), n), Action::PrevFile);
        km.bind((KeyCode::Char('<'), n), Action::NarrowSidebar);
        km.bind((KeyCode::Char('>'), n), Action::WidenSidebar);
        km.bind((KeyCode::Char('s'), n), Action::ToggleView);
        km.bind((KeyCode::Char('T'), n), Action::OpenThemePicker);
        km.bind((KeyCode::Char('g'), n), Action::Top);
        km.bind((KeyCode::Char('G'), n), Action::Bottom);
        km.bind((KeyCode::Tab, n), Action::SwitchFocus);
        km.bind((KeyCode::Enter, n), Action::Activate);
        km.bind((KeyCode::Char('r'), n), Action::ToggleChunkReviewed);
        km.bind((KeyCode::Char('R'), n), Action::ToggleReviewed);
        km.bind((KeyCode::Char('o'), n), Action::ExpandAllChunks);
        km.bind((KeyCode::Char('h'), n), Action::ToggleHidden);
        km.bind((KeyCode::Char('H'), n), Action::ToggleHiddenView);
        km.bind((KeyCode::Char('y'), n), Action::CopyReference);
        km.bind((KeyCode::Char('e'), n), Action::OpenEditor);
        km.bind((KeyCode::Char('C'), n), Action::EditConfig);
        km.bind((KeyCode::Char('/'), n), Action::StartFilter);
        km.bind((KeyCode::Char('?'), n), Action::Help);
        km.bind((KeyCode::Char('q'), n), Action::Quit);
        km.bind((KeyCode::Char('c'), ctrl), Action::Quit);
        assert(km@ =~= default_map());
        km
    }

    fn index_of(&self, chord: Chord) -> (r: Option<usize>)
        requires
            self.wf(),
        ensures
            r is Some <==> self@.contains_key(chord),
            r is Some ==> r->0 < self.bindings@.len() && self.bindings@[r->0 as int].0 == chord
                && self.bindings@[r->0 as int].1 == self@[chord],
    {
        proof {
            lemma_bindings(self.bindings@);
        }
        let n = self.bindings.len();
        for i in 0..n
            invariant
                n == self.bindings@.len(),
                self.wf(),
                forall|j: int| 0 <= j < i ==> (#[trigger] self.bindings@[j]).0 != chord,
        {
            let (key, mods) = self.bindings[i].0;
            if key == chord.0 && mods == chord.1 {
                proof {
                    lemma_bindings(self.bindings@);
                    assert(self.bindings@[i as int].0 == chord);
                    assert(self@.contains_key(self.bindings@[i as int].0));
                }
                return Some(i);
            }
        }
        None
    }

    /// Look up the action bound to a (already-normalized) chord.
    pub fn get(&self, chord: Chord) -> (r: Option<Action>)
        requires
            self.wf(),
        ensures
            r == action_at(self@, chord),
    {
        match self.index_of(chord) {
            Some(i) => Some(self.bindings[i].1),
            None => None,
        }
    }

    /// Bind one chord, whatever it triggered before.
    fn bind(&mut self, chord: Chord, action: Action)
        requires
            old(self).wf(),
        ensures
            final(self)@ == old(self)@.insert(chord, action),
            final(self).wf(),
    {
        let ghost before = self.bindings@;
        if let Some(i) = self.index_of(chord) {
            let _ = self.bindings.remove(i);
            proof {
                lemma_remove(before, i as int);
            }
        }
        let ghost mid = self.bindings@;
        self.bindings.push((chord, action));
        proof {
            let now = self.bindings@;
            lemma_bindings(mid);
            assert(now.drop_last() =~= mid);
            assert forall|i: int, j: int| 0 <= i < j < now.len() implies now[i].0 != now[j].0 by {
                assert(now[i] == mid[i]);
                if j < mid.len() {
                    assert(mid[i].0 != mid[j].0);
                } else {
                    assert(bindings_map(mid).contains_key(mid[i].0));
                }
            }
            assert(self@ =~= old(self)@.insert(chord, action));
        }
    }

    /// Replace every chord currently bound to `action` with `chords`. Chords are
    /// inserted last-write-wins, so a chord that previously triggered a different
    /// action is reassigned to `action`.
    pub fn rebind(&mut self, action: Action, chords: &Vec<Chord>)
        requires
            old(self).wf(),
        ensures
            final(self)@ == rebound(old(self)@, action, chords@),
            final(self).wf(),
    {
        let ghost before = self.bindings@;
        let mut kept: Vec<(Chord, Action)> = Vec::new();
        let n = self.bindings.len();
        proof {
            lemma_bindings(before);
        }
        for i in 0..n
            invariant
                n == self.bindings@.len(),
                self.bindings@ == before,
                distinct(before),
                distinct(kept@),
                forall|k: int| #![trigger kept@[k]]
                    0 <= k < kept@.len() ==> kept@[k].1 != action && exists|j: int|
                        0 <= j < i && #[trigger] before[j] == kept@[k],
                forall|j: int|
                    0 <= j < i && (#[trigger] before[j]).1 != action ==> kept@.contains(before[j]),
        {
            let b = self.bindings[i];
            let ghost was = kept@;
            if b.1 != action {
                kept.push(b);
                proof {
                    let now = kept@;
                    assert forall|p: int, q: int| 0 <= p < q < now.len() implies now[p].0
                        != now[q].0 by {
                        assert(now[p] == was[p]);
                        if q < was.len() {
                            assert(was[p].0 != was[q].0);
                        } else {
                            let j = choose|j: int| 0 <= j < i && #[trigger] before[j] == was[p];
                            assert(before[j].0 != before[i as int].0);
                        }
                    }
                    assert(now[now.len() - 1] == before[i as int]);
                    assert forall|k: int| #![trigger now[k]]
                        0 <= k < now.len() implies now[k].1 != action && exists|j: int|
                            0 <= j < i + 1 && #[trigger] before[j] == now[k] by {
                        if k < was.len() {
                            assert(now[k] == was[k]);
                            let j = choose|j: int| 0 <= j < i && #[trigger] before[j] == was[k];
                            assert(before[j] == now[k]);
                        } else {
                            assert(before[i as int] == now[k]);
                        }
                    }
                    assert forall|j: int|
                        0 <= j < i + 1 && (#[trigger] before[j]).1 != action implies now.contains(
                        before[j],
                    ) by {
                        if j < i {
                            assert(was.contains(before[j]));
                            let k = choose|k: int| 0 <= k < was.len() && was[k] == before[j];
                            assert(now[k] == before[j]);
                        } else {
                            assert(now[now.len() - 1] == before[j]);
                        }
                    }
                }
            }
        }
        proof {
            lemma_bindings(kept@);
            let a = bindings_map(kept@);
            let b = unbound(bindings_map(before), action);
            assert forall|c: Chord| #[trigger] a.contains_key(c) == b.contains_key(c) && (
            a.contains_key(c) ==> a[c] == b[c]) by {
                if a.contains_key(c) {
                    let k = choose|k: int| 0 <= k < kept@.len() && (#[trigger] kept@[k]).0 == c;
                    let j = choose|j: int| 0 <= j < n && #[trigger] before[j] == kept@[k];
                    assert(bindings_map(before).contains_key(before[j].0));
                }
                if b.contains_key(c) {
                    let j = choose|j: int| 0 <= j < before.len() && (#[trigger] before[j]).0 == c;
                    assert(bindings_map(before)[before[j].0] == before[j].1);
                    assert(kept@.contains(before[j]));
                    let k = choose|k: int| 0 <= k < kept@.len() && kept@[k] == before[j];
                    assert(a.contains_key(kept@[k].0));
                }
            }
            assert(a.dom() =~= b.dom());
            assert(a =~= b);
        }
        self.bindings = kept;
        let ghost base = self@;
        let m = chords.len();
        assert(bind_all(base, action, chords@.take(0)) == base);
        for i in 0..m
            invariant
                m == chords@.len(),
                self.wf(),
                self@ == bind_all(base, action, chords@.take(i as int)),
        {
            proof {
                lemma_take_step(chords@, i as int);
            }
            self.bind(chords[i], action);
        }
        assert(chords@.take(m as int) =~= chords@);
    }

    /// All chords bound to `action`, formatted for display, shortest first then
    /// alphabetical (so help/status hints prefer the terse key).
    pub fn chords_for(&self, action: Action) -> (r: Vec<String>)
        requires
            self.wf(),
        ensures
            chord_names(self@, action, strings(r@)),
    {
        let mut names: Vec<String> = Vec::new();
        let mut order: Vec<Chord> = Vec::new();
        let n = self.bindings.len();
        let ghost all = self.bindings@;
        proof {
            lemma_bindings(all);
            assert(strings(names@) =~= chord_texts(order@));
        }
        for i in 0..n
            invariant
                n == self.bindings@.len(),
                all == self.bindings@,
                distinct(all),
                strings(names@) == chord_texts(order@),
                in_shown_order(strings(names@)),
                order@.no_duplicates(),
                forall|k: int|
                    0 <= k < order@.len() ==> bound_among(all, action, i as int, #[trigger] order@[k]),
                forall|j: int|
                    0 <= j < i && (#[trigger] all[j]).1 == action ==> order@.contains(all[j].0),
        {
            let (chord, bound) = self.bindings[i];
            if bound == action {
                let name = chord_to_string(chord);
                let ghost old_names = strings(names@);
                let ghost old_order = order@;
                let mut at: usize = names.len();
                while at > 0 && is_shown_before(name.as_str(), names[at - 1].as_str())
                    invariant
                        at <= names@.len(),
                        old_names == strings(names@),
                        forall|k: int|
                            at <= k < names@.len() ==> shown_before(name@, #[trigger] old_names[k]),
                    decreases at,
                {
                    assert(old_names[at - 1] == names@[at - 1]@);
                    at -= 1;
                }
                assert(at > 0 ==> old_names[at - 1] == names@[at - 1]@);
                assert(old_names.len() == old_order.len());
                names.insert(at, name);
                order.insert(at, chord);
                proof {
                    let now = strings(names@);
                    assert(now =~= old_names.insert(at as int, name@));
                    assert(now =~= chord_texts(order@));
                    assert forall|p: int, q: int|
                        #![trigger now[p], now[q]]
                        0 <= p < q < now.len() implies !shown_before(now[q], now[p]) by {
                        let op = if p < at { p } else { p - 1 };
                        let oq = if q < at { q } else { q - 1 };
                        if p != at && q != at {
                            assert(now[p] == old_names[op] && now[q] == old_names[oq]);
                        } else if q == at {
                            assert(now[p] == old_names[p]);
                            lemma_shown_order(old_names[p], old_names[at - 1], name@);
                            if p < at - 1 {
                                assert(!shown_before(old_names[at - 1], old_names[p]));
                            }
                        } else {
                            assert(now[q] == old_names[q - 1]);
                            assert(shown_before(name@, old_names[q - 1]));
                            lemma_shown_order(name@, old_names[q - 1], name@);
                        }
                    }
                    let o = order@;
                    assert(o == old_order.insert(at as int, chord));
                    assert forall|k: int| 0 <= k < o.len() implies bound_among(
                        all,
                        action,
                        i + 1,
                        #[trigger] o[k],
                    ) by {
                        if k == at {
                            assert(all[i as int].0 == o[k]);
                        } else {
                            let ok = if k < at { k } else { k - 1 };
                            assert(o[k] == old_order[ok]);
                            assert(bound_among(all, action, i as int, old_order[ok]));
                            let j = choose|j: int|
                                0 <= j < i && (#[trigger] all[j]).0 == old_order[ok] && all[j].1
                                    == action;
                            assert(all[j].0 == o[k]);
                        }
                    }
                    assert forall|j: int|
                        0 <= j < i + 1 && (#[trigger] all[j]).1 == action implies o.contains(
                        all[j].0,
                    ) by {
                        if j < i {
                            assert(old_order.contains(all[j].0));
                            let k = choose|k: int|
                                0 <= k < old_order.len() && old_order[k] == all[j].0;
                            let nk = if k < at { k } else { k + 1 };
                            assert(o[nk] == all[j].0);
                        } else {
                            assert(o[at as int] == all[j].0);
                        }
                    }
                    assert forall|p: int, q: int|
                        0 <= p < o.len() && 0 <= q < o.len() && p != q implies o[p] != o[q] by {
                        let op = if p < at { p } else { p - 1 };
                        let oq = if q < at { q } else { q - 1 };
                        if p != at && q != at {
                            assert(o[p] == old_order[op] && o[q] == old_order[oq]);
                        } else {
                            let k = if p == at { oq } else { op };
                            assert(old_order[k] == if p == at { o[q] } else { o[p] });
                            assert(bound_among(all, action, i as int, old_order[k]));
                            let j = choose|j: int|
                                0 <= j < i && (#[trigger] all[j]).0 == old_order[k] && all[j].1
                                    == action;
                            assert(all[j].0 != all[i as int].0);
                        }
                    }
                }
            }
        }
        proof {
            let o = order@;
            assert forall|c: Chord| #[trigger] o.contains(c) <==> self@.contains_key(c) && self@[c]
                == action by {
                if o.contains(c) {
                    let k = choose|k: int| 0 <= k < o.len() && o[k] == c;
                    assert(bound_among(all, action, n as int, o[k]));
                    let j = choose|j: int|
                        0 <= j < n && (#[trigger] all[j]).0 == o[k] && all[j].1 == action;
                    assert(self@.contains_key(all[j].0));
                }
                if self@.contains_key(c) && self@[c] == action {
                    let j = choose|j: int| 0 <= j < all.len() && (#[trigger] all[j]).0 == c;
                    assert(self@[all[j].0] == all[j].1);
                    assert(o.contains(all[j].0));
                }
            }
            assert(lists_chords(self@, action, o));
        }
        names
    }

    /// The terse chord to advertise for `action` in a status hint, if bound.
    pub fn primary(&self, action: Action) -> (r: Option<String>)
        requires
            self.wf(),
        ensures
            exists|names: Seq<Seq<char>>| #[trigger]
                chord_names(self@, action, names) && match r {
                    Some(s) => names.len() > 0 && s@ == names[0],
                    None => names.len() == 0,
                },
    {
        let mut names = self.chords_for(action);
        let ghost model = strings(names@);
        assert(chord_names(self@, action, model));
        if names.len() == 0 {
            None
        } else {
            assert(model[0] == names@[0]@);
            Some(names.remove(0))
        }
    }
}

impl Default for KeyMap {
    fn default() -> (r: Self)
        ensures
            r@ == default_map(),
            r.wf(),
    {
        KeyMap::defaults()
    }
}

/// Removing one binding.
proof fn lemma_remove(bindings: Seq<(Chord, Action)>, at: int)
    requires
        distinct(bindings),
        0 <= at < bindings.len(),
    ensures
        distinct(bindings.remove(at)),
        bindings_map(bindings.remove(at)) == bindings_map(bindings).remove(bindings[at].0),
{
    let next = bindings.remove(at);
    assert forall|i: int, j: int| 0 <= i < j < next.len() implies next[i].0 != next[j].0 by {
        let oi = if i < at { i } else { i + 1 };
        let oj = if j < at { j } else { j + 1 };
        assert(bindings[oi].0 != bindings[oj].0);
    }
    lemma_bindings(bindings);
    lemma_bindings(next);
    let a = bindings_map(next);
    let b = bindings_map(bindings).remove(bindings[at].0);
    assert forall|c: Chord| #[trigger] a.contains_key(c) == b.contains_key(c) && (a.contains_key(c)
        ==> a[c] == b[c]) by {
        if a.contains_key(c) {
            let i = choose|i: int| 0 <= i < next.len() && (#[trigger] next[i]).0 == c;
            let oi = if i < at { i } else { i + 1 };
            assert(next[i] == bindings[oi]);
            assert(bindings_map(bindings).contains_key(bindings[oi].0));
            if oi < at {
                assert(bindings[oi].0 != bindings[at].0);
            } else {
                assert(bindings[at].0 != bindings[oi].0);
            }
        }
        if b.contains_key(c) {
            let i = choose|i: int| 0 <= i < bindings.len() && (#[trigger] bindings[i]).0 == c;
            let ni = if i < at { i } else { i - 1 };
            assert(next[ni] == bindings[i]);
            assert(a.contains_key(next[ni].0));
        }
    }
    assert(a.dom() =~= b.dom());
    assert(a =~= b);
}

proof fn lemma_bind_all(map: Map<Chord, Action>, action: Action, chords: Seq<Chord>, c: Chord)
    ensures
        action_at(bind_all(map, action, chords), c) == if chords.contains(c) {
            Some(action)
        } else {
            action_at(map, c)
        },
    decreases chords.len(),
{
    if chords.len() > 0 {
        let head = chords.drop_last();
        lemma_bind_all(map, action, head, c);
        if chords.contains(c) && c != chords.last() {
            let i = choose|i: int| 0 <= i < chords.len() && chords[i] == c;
            assert(head[i] == c);
        }
        if head.contains(c) {
            let i = choose|i: int| 0 <= i < head.len() && head[i] == c;
            assert(chords[i] == c);
        }
        assert(chords[chords.len() - 1] == chords.last());
    }
}

/// After a rebinding the action is triggered by exactly the given chords, those
/// chords trigger nothing else, and every other chord does what it did, unless
/// it triggered the rebound action.
pub proof fn law_rebind(map: Map<Chord, Action>, action: Action, chords: Seq<Chord>, c: Chord)
    ensures
        action_at(rebound(map, action, chords), c) == Some(action) <==> chords.contains(c),
        !chords.contains(c) ==> action_at(rebound(map, action, chords), c) == if action_at(map, c)
            == Some(action) {
            None
        } else {
            action_at(map, c)
        },
{
    lemma_bind_all(unbound(map, action), action, chords, c);
}

/// Two lists of the same chords have the same texts, as often.
proof fn lemma_same_texts(a: Seq<Chord>, b: Seq<Chord>)
    requires
        a.no_duplicates(),
        b.no_duplicates(),
        forall|c: Chord| #[trigger] a.contains(c) <==> b.contains(c),
    ensures
        chord_texts(a).to_multiset() == chord_texts(b).to_multiset(),
    decreases a.len(),
{
    broadcast use vstd::multiset::group_multiset_axioms;

    if a.len() == 0 {
        if b.len() > 0 {
            assert(b.contains(b[0]));
            assert(a.contains(b[0]));
        }
        assert(chord_texts(a) =~= chord_texts(b));
    } else {
        let c = a.last();
        assert(a.contains(c));
        assert(b.contains(c));
        let j = choose|j: int| 0 <= j < b.len() && b[j] == c;
        let head = a.drop_last();
        let rest = b.remove(j);
        assert forall|x: Chord| #[trigger] head.contains(x) <==> rest.contains(x) by {
            if head.contains(x) {
                let i = choose|i: int| 0 <= i < head.len() && head[i] == x;
                assert(a[i] == x && x != c);
                assert(a.contains(x));
                assert(b.contains(x));
                let k = choose|k: int| 0 <= k < b.len() && b[k] == x;
                if k < j {
                    assert(rest[k] == x);
                } else {
                    assert(rest[k - 1] == x);
                }
            }
            if rest.contains(x) {
                let k = choose|k: int| 0 <= k < rest.len() && rest[k] == x;
                let o = if k < j {
                    k
                } else {
                    k + 1
                };
                assert(b[o] == x && x != c);
                assert(b.contains(x));
                assert(a.contains(x));
                let i = choose|i: int| 0 <= i < a.len() && a[i] == x;
                assert(head[i] == x);
            }
        }
        assert forall|x: int, y: int| 0 <= x < rest.len() && 0 <= y < rest.len() && x
            != y implies rest[x] != rest[y] by {
            let ox = if x < j {
                x
            } else {
                x + 1
            };
            let oy = if y < j {
                y
            } else {
                y + 1
            };
            assert(b[ox] != b[oy]);
        }
        lemma_same_texts(head, rest);
        let t = chord_text(c);
        assert(chord_texts(a) =~= chord_texts(head).push(t));
        assert(chord_texts(b).remove(j) =~= chord_texts(rest));
        vstd::seq_lib::to_multiset_build(chord_texts(head), t);
        vstd::seq_lib::to_multiset_remove(chord_texts(b), j);
        let m = chord_texts(b).to_multiset();
        assert(chord_texts(b)[j] == t);
        assert(chord_texts(b).contains(t));
        chord_texts(b).to_multiset_ensures();
        assert(m.count(t) > 0);
        assert(m.remove(t).insert(t) =~= m);
    }
}

/// How the chords of an action are displayed is fixed by the key map: which of them
/// come first does not depend on the order in which they were bound.
pub proof fn law_display_is_fixed(
    map: Map<Chord, Action>,
    action: Action,
    a: Seq<Seq<char>>,
    b: Seq<Seq<char>>,
)
    requires
        chord_names(map, action, a),
        chord_names(map, action, b),
    ensures
        a == b,
{
    let x = choose|order: Seq<Chord>| #[trigger]
        lists_chords(map, action, order) && a == chord_texts(order);
    let y = choose|order: Seq<Chord>| #[trigger]
        lists_chords(map, action, order) && b == chord_texts(order);
    assert forall|c: Chord| #[trigger] x.contains(c) <==> y.contains(c) by {}
    lemma_same_texts(x, y);
    let leq = |p: Seq<char>, q: Seq<char>| !shown_before(q, p);
    assert forall|p: Seq<char>, q: Seq<char>| #[trigger] leq(p, q) && #[trigger] leq(
        q,
        p,
    ) implies p == q by {
        lemma_chars_total(p, q);
    }
    assert forall|p: Seq<char>, q: Seq<char>, r: Seq<char>| #[trigger] leq(p, q)
        && #[trigger] leq(q, r) implies leq(p, r) by {
        lemma_shown_order(p, q, r);
    }
    assert forall|p: Seq<char>, q: Seq<char>| #[trigger] leq(p, q) || #[trigger] leq(q, p) by {
        lemma_shown_order(p, q, q);
    }
    assert forall|p: Seq<char>| #[trigger] leq(p, p) by {
        lemma_shown_order(p, p, p);
    }
    vstd::seq_lib::lemma_sorted_unique(a, b, leq);
}

} // verus!
