//! Keys and chords: what the user presses, and how the config file writes it.

use vstd::prelude::*;
use vstd::slice::slice_subrange;
use vstd::string::*;

use crate::text::{
    ascii_letter, ascii_lower, chars_are, chars_of, copy_of, decimal, deep, digit,
    is_ascii_letter, lemma_decimal_round_trip, lower_ascii, lowered, number_digits, number_of, parse_number,
    pieces, push_char, split_chars, string_of, to_ascii_lower, to_decimal, trim, trimmed, white_space,
};

verus! {

/// A key of the keyboard.
#[derive(Debug, Clone, Copy, PartialEq, Eq, Hash, Structural)]
pub enum KeyCode {
    Char(char),
    Enter,
    Tab,
    BackTab,
    Esc,
    Up,
    Down,
    Left,
    Right,
    PageUp,
    PageDown,
    Home,
    End,
    Backspace,
    Delete,
    Insert,
    F(u8),
    /// A key that no chord can be written for.
    Other,
}

/// The modifiers that are held with a key.
#[derive(Debug, Clone, Copy, PartialEq, Eq, Hash, Structural)]
pub struct KeyModifiers {
    pub control: bool,
    pub alt: bool,
    pub shift: bool,
}

/// No modifier.
pub open spec fn no_mods() -> KeyModifiers {
    KeyModifiers { control: false, alt: false, shift: false }
}

impl KeyModifiers {
    pub fn none() -> (r: KeyModifiers)
        ensures
            r == no_mods(),
    {
        KeyModifiers { control: false, alt: false, shift: false }
    }

    pub fn shift_only() -> (r: KeyModifiers)
        ensures
            r == (KeyModifiers { shift: true, ..no_mods() }),
    {
        KeyModifiers { control: false, alt: false, shift: true }
    }

    pub fn control_only() -> (r: KeyModifiers)
        ensures
            r == (KeyModifiers { control: true, ..no_mods() }),
    {
        KeyModifiers { control: true, alt: false, shift: false }
    }
}

/// A normalized key combination: a key plus its modifiers. See [`normalize`] for
/// what "normalized" means.
pub type Chord = (KeyCode, KeyModifiers);

/// The chord that a key press stands for.
pub open spec fn normalized(code: KeyCode, mods: KeyModifiers) -> Chord {
    if code is Char {
        (code, KeyModifiers { shift: false, ..mods })
    } else {
        (code, mods)
    }
}

/// Normalize a key event (or parsed chord) into a stable lookup key. For a
/// character key Shift is dropped: it is already encoded in the character's case
/// (`H` and `h`), so terminals that do or don't report it both match.
pub fn normalize(code: KeyCode, mods: KeyModifiers) -> (r: Chord)
    ensures
        r == normalized(code, mods),
{
    match code {
        KeyCode::Char(_) => (
            code,
            KeyModifiers { control: mods.control, alt: mods.alt, shift: false },
        ),
        _ => (code, mods),
    }
}

// ── parsing ────────────────────────────────────────────────────────────────

/// The number of a function key: what follows the `f`.
pub open spec fn function_key(s: Seq<char>) -> Option<u8> {
    if s.len() > 0 && s[0] == 'f' && number_of(s.skip(1)) is Some && number_of(s.skip(1))->0
        <= 255 {
        Some(number_of(s.skip(1))->0 as u8)
    } else {
        None
    }
}

/// The key with this name.
pub open spec fn named_key(k: Seq<char>) -> Option<KeyCode> {
    if k == "enter"@ || k == "return"@ || k == "cr"@ {
        Some(KeyCode::Enter)
    } else if k == "tab"@ {
        Some(KeyCode::Tab)
    } else if k == "esc"@ || k == "escape"@ {
        Some(KeyCode::Esc)
    } else if k == "space"@ {
        Some(KeyCode::Char(' '))
    } else if k == "up"@ {
        Some(KeyCode::Up)
    } else if k == "down"@ {
        Some(KeyCode::Down)
    } else if k == "left"@ {
        Some(KeyCode::Left)
    } else if k == "right"@ {
        Some(KeyCode::Right)
    } else if k == "pgup"@ || k == "pageup"@ {
        Some(KeyCode::PageUp)
    } else if k == "pgdn"@ || k == "pagedown"@ {
        Some(KeyCode::PageDown)
    } else if k == "home"@ {
        Some(KeyCode::Home)
    } else if k == "end"@ {
        Some(KeyCode::End)
    } else if k == "backspace"@ || k == "bs"@ {
        Some(KeyCode::Backspace)
    } else if k == "delete"@ || k == "del"@ {
        Some(KeyCode::Delete)
    } else if k == "insert"@ || k == "ins"@ {
        Some(KeyCode::Insert)
    } else {
        match function_key(k) {
            Some(n) => Some(KeyCode::F(n)),
            None => None,
        }
    }
}

/// The key that `k` writes: a single character is itself, anything else a name.
pub open spec fn key_of(k: Seq<char>) -> Result<KeyCode, Seq<char>> {
    if k.len() == 1 {
        Ok(KeyCode::Char(k[0]))
    } else {
        match named_key(lowered(k)) {
            Some(code) => Ok(code),
            None => Err("unknown key `"@ + k + "`"@),
        }
    }
}

/// `mods` with the modifier that has this name.
pub open spec fn with_modifier(mods: KeyModifiers, name: Seq<char>) -> Option<KeyModifiers> {
    if name == "ctrl"@ || name == "control"@ {
        Some(KeyModifiers { control: true, ..mods })
    } else if name == "shift"@ {
        Some(KeyModifiers { shift: true, ..mods })
    } else if name == "alt"@ || name == "option"@ || name == "meta"@ {
        Some(KeyModifiers { alt: true, ..mods })
    } else {
        None
    }
}

/// The modifiers that the first `n` parts name, or what is wrong with the first
/// of them that names none.
pub open spec fn modifiers_of(parts: Seq<Seq<char>>, n: int) -> Result<KeyModifiers, Seq<char>>
    decreases n,
{
    if n <= 0 {
        Ok(no_mods())
    } else {
        match modifiers_of(parts, n - 1) {
            Err(e) => Err(e),
            Ok(mods) => match with_modifier(mods, lowered(parts[n - 1])) {
                Some(mods) => Ok(mods),
                None => Err("unknown modifier `"@ + lowered(parts[n - 1]) + "`"@),
            },
        }
    }
}

/// The chord for a key with modifiers. Ctrl and Alt make a letter lower-case, as
/// terminals report it.
pub open spec fn chord_for(code: KeyCode, mods: KeyModifiers) -> Chord {
    match code {
        KeyCode::Char(c) => if (mods.control || mods.alt) && ascii_letter(c) {
            normalized(KeyCode::Char(ascii_lower(c)), mods)
        } else {
            normalized(code, mods)
        },
        _ => normalized(code, mods),
    }
}

/// The chord of `parts`: modifiers, then a key.
pub open spec fn chord_of_parts(parts: Seq<Seq<char>>) -> Result<Chord, Seq<char>> {
    match modifiers_of(parts, parts.len() - 1) {
        Err(e) => Err(e),
        Ok(mods) => match key_of(parts.last()) {
            Err(e) => Err(e),
            Ok(code) => Ok(chord_for(code, mods)),
        },
    }
}

/// The text ends in the key `+`: it is that key, or has a separator before it.
pub open spec fn ends_in_plus(s: Seq<char>) -> bool {
    s.len() > 0 && s.last() == '+' && (s.len() == 1 || s[s.len() - 2] == '+')
}

/// The parts of a chord: modifiers and a key, with `+` between them. The key may be
/// `+` itself.
pub open spec fn parts_of(s: Seq<char>) -> Seq<Seq<char>> {
    if !ends_in_plus(s) {
        pieces(s, '+')
    } else if s.len() == 1 {
        seq![s]
    } else {
        pieces(s.take(s.len() - 2), '+').push(seq!['+'])
    }
}

/// The chord that `s` writes, or what is wrong with it. A single character is that
/// key, whichever it is; white space around anything longer does not count.
pub open spec fn chord_of(s: Seq<char>) -> Result<Chord, Seq<char>> {
    if s.len() == 1 {
        Ok(chord_for(KeyCode::Char(s[0]), no_mods()))
    } else {
        trimmed_chord_of(trim(s))
    }
}

/// The chord that text without white space around it writes.
pub open spec fn trimmed_chord_of(s: Seq<char>) -> Result<Chord, Seq<char>> {
    if s.len() == 0 {
        Err("empty key"@)
    } else {
        chord_of_parts(parts_of(s))
    }
}

/// The value behind a result with a string error.
pub open spec fn result_model<T>(r: Result<T, String>) -> Result<T, Seq<char>> {
    match r {
        Ok(v) => Ok(v),
        Err(e) => Err(e@),
    }
}

fn quoted_error(head: &str, what: &[char]) -> (r: String)
    ensures
        r@ == head@ + what@ + "`"@,
{
    let mut e = copy_of(head);
    e.append(string_of(what).as_str());
    e.append("`");
    e
}

fn find_named_key(k: &[char]) -> (r: Option<KeyCode>)
    ensures
        r == named_key(k@),
{
    if chars_are(k, "enter") || chars_are(k, "return") || chars_are(k, "cr") {
        Some(KeyCode::Enter)
    } else if chars_are(k, "tab") {
        Some(KeyCode::Tab)
    } else if chars_are(k, "esc") || chars_are(k, "escape") {
        Some(KeyCode::Esc)
    } else if chars_are(k, "space") {
        Some(KeyCode::Char(' '))
    } else if chars_are(k, "up") {
        Some(KeyCode::Up)
    } else if chars_are(k, "down") {
        Some(KeyCode::Down)
    } else if chars_are(k, "left") {
        Some(KeyCode::Left)
    } else if chars_are(k, "right") {
        Some(KeyCode::Right)
    } else if chars_are(k, "pgup") || chars_are(k, "pageup") {
        Some(KeyCode::PageUp)
    } else if chars_are(k, "pgdn") || chars_are(k, "pagedown") {
        Some(KeyCode::PageDown)
    } else if chars_are(k, "home") {
        Some(KeyCode::Home)
    } else if chars_are(k, "end") {
        Some(KeyCode::End)
    } else if chars_are(k, "backspace") || chars_are(k, "bs") {
        Some(KeyCode::Backspace)
    } else if chars_are(k, "delete") || chars_are(k, "del") {
        Some(KeyCode::Delete)
    } else if chars_are(k, "insert") || chars_are(k, "ins") {
        Some(KeyCode::Insert)
    } else if k.len() > 0 && k[0] == 'f' {
        let rest = slice_subrange(k, 1, k.len());
        assert(rest@ =~= k@.skip(1));
        match parse_number(rest) {
            Some(n) => {
                if n <= 255 {
                    Some(KeyCode::F(n as u8))
                } else {
                    None
                }
            },
            None => None,
        }
    } else {
        None
    }
}

/// Parse the key of a chord: a single character, or a name.
pub fn parse_key(k: &[char]) -> (r: Result<KeyCode, String>)
    ensures
        result_model(r) == key_of(k@),
{
    if k.len() == 1 {
        return Ok(KeyCode::Char(k[0]));
    }
    let lower = lower_ascii(k);
    match find_named_key(lower.as_slice()) {
        Some(code) => Ok(code),
        None => Err(quoted_error("unknown key `", k)),
    }
}

/// The parts of a chord.
fn split_chord(s: &[char]) -> (r: Vec<Vec<char>>)
    requires
        s@.len() > 0,
    ensures
        deep(r@) == parts_of(s@),
        r@.len() > 0,
{
    let n = s.len();
    proof {
        lemma_pieces_some(s@, '+');
    }
    if s[n - 1] != '+' || (n > 1 && s[n - 2] != '+') {
        let r = split_chars(s, '+');
        assert(r@.len() == deep(r@).len());
        return r;
    }
    let mut r: Vec<Vec<char>> = Vec::new();
    if n > 1 {
        let head = slice_subrange(s, 0, n - 2);
        assert(head@ =~= s@.take(n - 2));
        r = split_chars(head, '+');
    }
    let ghost before = deep(r@);
    let mut plus: Vec<char> = Vec::new();
    plus.push('+');
    assert(plus@ =~= seq!['+']);
    r.push(plus);
    assert(deep(r@) =~= before.push(seq!['+']));
    proof {
        if n == 1 {
            assert(s@ =~= seq!['+']);
            assert(deep(r@) =~= seq![s@]);
        }
    }
    r
}

/// Parse a chord string like `"j"`, `"ctrl+c"`, `"shift+down"`, `"<"`, `"f5"`, `"+"`.
/// The result is normalized via [`normalize`].
pub fn parse_chord(s: &str) -> (r: Result<Chord, String>)
    ensures
        result_model(r) == chord_of(s@),
{
    let chars = chars_of(s);
    if chars.len() == 1 {
        return Ok(normalize(KeyCode::Char(chars[0]), KeyModifiers::none()));
    }
    let body = trimmed(chars.as_slice());
    if body.len() == 0 {
        return Err(copy_of("empty key"));
    }
    let parts = split_chord(body);
    let ghost model = parts_of(body@);
    let n = parts.len();
    assert(n == model.len());
    let mut mods = KeyModifiers::none();
    for i in 0..n - 1
        invariant
            n == parts@.len(),
            n > 0,
            deep(parts@) == model,
            modifiers_of(model, i as int) == Ok::<KeyModifiers, Seq<char>>(mods),
            n == model.len(),
            chord_of(s@) == chord_of_parts(model),
    {
        assert(model[i as int] == parts@[i as int]@);
        let name = lower_ascii(parts[i].as_slice());
        let name = name.as_slice();
        if chars_are(name, "ctrl") || chars_are(name, "control") {
            mods.control = true;
        } else if chars_are(name, "shift") {
            mods.shift = true;
        } else if chars_are(name, "alt") || chars_are(name, "option") || chars_are(name, "meta") {
            mods.alt = true;
        } else {
            proof {
                lemma_modifiers_err(model, i + 1, n - 1);
            }
            return Err(quoted_error("unknown modifier `", name));
        }
    }
    assert(model[n - 1] == parts@[n - 1]@);
    let code = match parse_key(parts[n - 1].as_slice()) {
        Ok(code) => code,
        Err(e) => {
            return Err(e);
        },
    };
    // Terminals report Ctrl/Alt letter combinations as the lower-case character.
    let code = match code {
        KeyCode::Char(c) => {
            if (mods.control || mods.alt) && is_ascii_letter(c) {
                KeyCode::Char(to_ascii_lower(c))
            } else {
                code
            }
        },
        _ => code,
    };
    Ok(normalize(code, mods))
}

proof fn lemma_modifiers_err(parts: Seq<Seq<char>>, k: int, n: int)
    requires
        0 < k <= n,
        modifiers_of(parts, k) is Err,
    ensures
        modifiers_of(parts, n) == modifiers_of(parts, k),
    decreases n - k,
{
    if k < n {
        assert(modifiers_of(parts, k + 1) == modifiers_of(parts, k));
        lemma_modifiers_err(parts, k + 1, n);
    }
}

pub proof fn lemma_pieces_some<T>(s: Seq<T>, sep: T)
    ensures
        pieces(s, sep).len() > 0,
    decreases s.len(),
{
    if s.len() > 0 {
        lemma_pieces_some(s.drop_last(), sep);
    }
}

// ── display ────────────────────────────────────────────────────────────────

/// How a key is written.
pub open spec fn key_text(code: KeyCode) -> Seq<char> {
    match code {
        KeyCode::Char(c) => if c == ' ' {
            "space"@
        } else {
            seq![c]
        },
        KeyCode::Enter => "enter"@,
        KeyCode::Tab => "tab"@,
        KeyCode::BackTab => "backtab"@,
        KeyCode::Esc => "esc"@,
        KeyCode::Up => "up"@,
        KeyCode::Down => "down"@,
        KeyCode::Left => "left"@,
        KeyCode::Right => "right"@,
        KeyCode::PageUp => "pgup"@,
        KeyCode::PageDown => "pgdn"@,
        KeyCode::Home => "home"@,
        KeyCode::End => "end"@,
        KeyCode::Backspace => "backspace"@,
        KeyCode::Delete => "del"@,
        KeyCode::Insert => "ins"@,
        KeyCode::F(n) => "f"@ + decimal(n as nat),
        KeyCode::Other => "other"@,
    }
}

/// `text` if `on`, else nothing.
pub open spec fn if_on(on: bool, text: Seq<char>) -> Seq<char> {
    if on {
        text
    } else {
        Seq::empty()
    }
}

/// How a chord is written.
pub open spec fn chord_text(chord: Chord) -> Seq<char> {
    if_on(chord.1.control, "ctrl+"@) + if_on(chord.1.alt, "alt+"@) + if_on(
        chord.1.shift,
        "shift+"@,
    ) + key_text(chord.0)
}

/// Render a key for display.
pub fn key_to_string(code: KeyCode) -> (r: String)
    ensures
        r@ == key_text(code),
{
    match code {
        KeyCode::Char(c) => {
            if c == ' ' {
                copy_of("space")
            } else {
                let mut s = String::new();
                push_char(&mut s, c);
                assert(s@ =~= seq![c]);
                s
            }
        },
        KeyCode::Enter => copy_of("enter"),
        KeyCode::Tab => copy_of("tab"),
        KeyCode::BackTab => copy_of("backtab"),
        KeyCode::Esc => copy_of("esc"),
        KeyCode::Up => copy_of("up"),
        KeyCode::Down => copy_of("down"),
        KeyCode::Left => copy_of("left"),
        KeyCode::Right => copy_of("right"),
        KeyCode::PageUp => copy_of("pgup"),
        KeyCode::PageDown => copy_of("pgdn"),
        KeyCode::Home => copy_of("home"),
        KeyCode::End => copy_of("end"),
        KeyCode::Backspace => copy_of("backspace"),
        KeyCode::Delete => copy_of("del"),
        KeyCode::Insert => copy_of("ins"),
        KeyCode::F(n) => {
            let mut s = copy_of("f");
            s.append(to_decimal(n as u128).as_str());
            s
        },
        KeyCode::Other => copy_of("other"),
    }
}

/// Render a chord for display (the inverse of [`parse_chord`] for the chords that
/// can be written). Used by the help overlay and status bar.
pub fn chord_to_string(chord: Chord) -> (r: String)
    ensures
        r@ == chord_text(chord),
{
    let (code, mods) = chord;
    let mut s = String::new();
    if mods.control {
        s.append("ctrl+");
    }
    assert(s@ =~= if_on(mods.control, "ctrl+"@));
    if mods.alt {
        s.append("alt+");
    }
    assert(s@ =~= if_on(mods.control, "ctrl+"@) + if_on(mods.alt, "alt+"@));
    if mods.shift {
        s.append("shift+");
    }
    assert(s@ =~= if_on(mods.control, "ctrl+"@) + if_on(mods.alt, "alt+"@) + if_on(
        mods.shift,
        "shift+"@,
    ));
    s.append(key_to_string(code).as_str());
    s
}

// ── laws ───────────────────────────────────────────────────────────────────

/// A parsed chord is normalized: normalizing it again changes nothing.
pub proof fn law_parsed_is_normalized(s: Seq<char>)
    ensures
        chord_of(s) is Ok ==> normalized(chord_of(s)->Ok_0.0, chord_of(s)->Ok_0.1)
            == chord_of(s)->Ok_0,
{
}

/// A chord that can be written: the key has a name or is a character, Shift is not
/// held with a character, a letter with Ctrl or Alt is lower-case, and white space
/// other than a blank stands alone.
pub open spec fn writable(chord: Chord) -> bool {
    match chord.0 {
        KeyCode::Char(c) => {
            &&& c == ' ' || !white_space(c) || !(chord.1.control || chord.1.alt)
            &&& !chord.1.shift
            &&& (chord.1.control || chord.1.alt) && ascii_letter(c) ==> ascii_lower(c) == c
        },
        KeyCode::BackTab => false,
        KeyCode::Other => false,
        _ => true,
    }
}

/// How the modifiers of a chord are written.
spec fn modifier_text(mods: KeyModifiers) -> Seq<char> {
    if_on(mods.control, "ctrl+"@) + if_on(mods.alt, "alt+"@) + if_on(mods.shift, "shift+"@)
}

/// The names of modifiers.
spec fn modifier_names(mods: KeyModifiers) -> Seq<Seq<char>> {
    let c = if mods.control {
        seq!["ctrl"@]
    } else {
        Seq::empty()
    };
    let a = if mods.alt {
        c.push("alt"@)
    } else {
        c
    };
    if mods.shift {
        a.push("shift"@)
    } else {
        a
    }
}

/// The parts of a written chord.
spec fn chord_parts(chord: Chord) -> Seq<Seq<char>> {
    modifier_names(chord.1).push(key_text(chord.0))
}

/// Text without a separator is one piece, behind what is there already.
proof fn lemma_pieces_append(head: Seq<char>, tail: Seq<char>)
    requires
        !tail.contains('+'),
    ensures
        pieces(head + tail, '+') == pieces(head, '+').drop_last().push(
            pieces(head, '+').last() + tail,
        ),
    decreases tail.len(),
{
    lemma_pieces_some(head, '+');
    if tail.len() == 0 {
        assert(head + tail =~= head);
        assert(pieces(head, '+').last() + tail =~= pieces(head, '+').last());
        assert(pieces(head, '+').drop_last().push(pieces(head, '+').last()) =~= pieces(head, '+'));
    } else {
        let short = tail.drop_last();
        assert(!short.contains('+')) by {
            if short.contains('+') {
                let i = choose|i: int| 0 <= i < short.len() && short[i] == '+';
                assert(tail[i] == '+');
            }
        }
        lemma_pieces_append(head, short);
        assert((head + tail).drop_last() =~= head + short);
        assert((head + tail).last() == tail.last());
        assert(tail.last() != '+') by {
            assert(tail[tail.len() - 1] == tail.last());
        }
        let was = pieces(head + short, '+');
        assert(was.drop_last() =~= pieces(head, '+').drop_last());
        assert((pieces(head, '+').last() + short).push(tail.last()) =~= pieces(head, '+').last()
            + tail);
    }
}

/// A word and a separator add one piece and begin the next.
proof fn lemma_pieces_word(head: Seq<char>, parts: Seq<Seq<char>>, word: Seq<char>, text: Seq<char>)
    requires
        pieces(head, '+') == parts.push(Seq::empty()),
        !word.contains('+'),
        text == word.push('+'),
    ensures
        pieces(head + text, '+') == parts.push(word).push(Seq::empty()),
{
    lemma_pieces_append(head, word);
    let mid = head + word;
    assert(parts.push(Seq::empty()).drop_last() =~= parts);
    assert(Seq::<char>::empty() + word =~= word);
    assert(pieces(mid, '+') == parts.push(word));
    assert((head + text).drop_last() =~= mid);
    assert((head + text).last() == '+');
}

proof fn lemma_modifier_words()
    ensures
        "ctrl+"@ == "ctrl"@.push('+'),
        "alt+"@ == "alt"@.push('+'),
        "shift+"@ == "shift"@.push('+'),
        !"ctrl"@.contains('+'),
        !"alt"@.contains('+'),
        !"shift"@.contains('+'),
        lowered("ctrl"@) == "ctrl"@,
        lowered("alt"@) == "alt"@,
        lowered("shift"@) == "shift"@,
        "alt"@ != "ctrl"@,
        "alt"@ != "control"@,
        "alt"@ != "shift"@,
        "shift"@ != "ctrl"@,
        "shift"@ != "control"@,
{
    reveal_strlit("ctrl+");
    reveal_strlit("alt+");
    reveal_strlit("shift+");
    reveal_strlit("ctrl");
    reveal_strlit("alt");
    reveal_strlit("shift");
    reveal_strlit("control");
    assert("ctrl+"@ =~= "ctrl"@.push('+'));
    assert("alt+"@ =~= "alt"@.push('+'));
    assert("shift+"@ =~= "shift"@.push('+'));
    assert(lowered("ctrl"@) =~= "ctrl"@);
    assert(lowered("alt"@) =~= "alt"@);
    assert(lowered("shift"@) =~= "shift"@);
    assert("alt"@.len() == 3 && "shift"@.len() == 5 && "ctrl"@.len() == 4);
}

/// The text of modifiers splits into their names.
proof fn lemma_modifier_pieces(mods: KeyModifiers)
    ensures
        pieces(modifier_text(mods), '+') == modifier_names(mods).push(Seq::empty()),
        modifier_text(mods).len() > 0 ==> modifier_text(mods).last() == '+',
        modifier_text(mods).len() == 0 ==> modifier_names(mods).len() == 0,
{
    lemma_modifier_words();
    let c = if_on(mods.control, "ctrl+"@);
    let a = if_on(mods.alt, "alt+"@);
    let s = if_on(mods.shift, "shift+"@);
    let e = Seq::<char>::empty();
    let none = Seq::<Seq<char>>::empty();
    let p1 = if mods.control {
        seq!["ctrl"@]
    } else {
        none
    };
    let p2 = if mods.alt {
        p1.push("alt"@)
    } else {
        p1
    };
    assert(pieces(e, '+') =~= none.push(e));
    if mods.control {
        lemma_pieces_word(e, none, "ctrl"@, "ctrl+"@);
        assert(e + "ctrl+"@ =~= c);
        assert(none.push("ctrl"@) =~= p1);
    } else {
        assert(c =~= e);
    }
    assert(pieces(c, '+') == p1.push(e));
    if mods.alt {
        lemma_pieces_word(c, p1, "alt"@, "alt+"@);
    } else {
        assert(c + a =~= c);
    }
    assert(pieces(c + a, '+') == p2.push(e));
    if mods.shift {
        lemma_pieces_word(c + a, p2, "shift"@, "shift+"@);
    } else {
        assert(c + a + s =~= c + a);
    }
}

/// The text of a chord splits into its parts.
proof fn lemma_chord_pieces(chord: Chord)
    requires
        !key_text(chord.0).contains('+') || chord.0 == KeyCode::Char('+'),
        key_text(chord.0).len() > 0,
    ensures
        parts_of(chord_text(chord)) == chord_parts(chord),
{
    let p = modifier_text(chord.1);
    let names = modifier_names(chord.1);
    let k = key_text(chord.0);
    let e = Seq::<char>::empty();
    let text = chord_text(chord);
    lemma_modifier_pieces(chord.1);
    assert(text =~= p + k);
    assert(text.last() == k.last());
    if chord.0 == KeyCode::Char('+') {
        assert(k =~= seq!['+']);
        if p.len() == 0 {
            assert(text =~= k);
            assert(chord_parts(chord) =~= seq![text]);
        } else {
            assert(text[text.len() - 2] == p.last());
            assert(text.take(text.len() - 2) =~= p.drop_last());
            let before = pieces(p.drop_last(), '+');
            assert(before.push(e) == names.push(e));
            assert(before =~= before.push(e).drop_last());
            assert(names =~= names.push(e).drop_last());
        }
    } else {
        assert(k[k.len() - 1] == k.last());
        lemma_pieces_append(p, k);
        assert(names.push(e).drop_last() =~= names);
        assert(e + k =~= k);
    }
}

/// The modifiers of a written chord are read back.
proof fn lemma_chord_modifiers(chord: Chord)
    ensures
        modifiers_of(chord_parts(chord), chord_parts(chord).len() - 1) == Ok::<
            KeyModifiers,
            Seq<char>,
        >(chord.1),
{
    lemma_modifier_words();
    reveal_with_fuel(modifiers_of, 4);
    let parts = chord_parts(chord);
    let n = parts.len() - 1;
    if chord.1.control {
        assert(parts[0] == "ctrl"@);
    }
    if chord.1.alt {
        let i = if chord.1.control { 1int } else { 0 };
        assert(parts[i] == "alt"@);
    }
    if chord.1.shift {
        assert(parts[n - 1] == "shift"@);
    }
}

/// Trimming leaves text alone that has no white space at its ends.
proof fn lemma_trim_same(s: Seq<char>)
    requires
        s.len() > 0,
        !white_space(s[0]),
        !white_space(s.last()),
    ensures
        trim(s) == s,
{
}

proof fn lemma_function_key(n: u8)
    ensures
        key_of("f"@ + decimal(n as nat)) == Ok::<KeyCode, Seq<char>>(KeyCode::F(n)),
{
    reveal_strlit("f");
    lemma_decimal_round_trip(n as nat);
    let d = decimal(n as nat);
    let k = "f"@ + d;
    assert(k.len() >= 2);
    assert(lowered(k) =~= k) by {
        assert forall|i: int| 0 <= i < k.len() implies ascii_lower(k[i]) == k[i] by {
            if i > 0 {
                assert(k[i] == d[i - 1]);
                assert(digit(d[i - 1]));
            }
        }
    }
    assert(k.skip(1) =~= d);
    assert(digit(d[0]));
    assert(number_digits(d) == d);
    assert(number_of(d) == Some(n as u32));
    // No other name has a digit behind its first letter.
    assert(k[0] == 'f');
    reveal_strlit("enter");
    reveal_strlit("return");
    reveal_strlit("cr");
    reveal_strlit("tab");
    reveal_strlit("esc");
    reveal_strlit("escape");
    reveal_strlit("space");
    reveal_strlit("up");
    reveal_strlit("down");
    reveal_strlit("left");
    reveal_strlit("right");
    reveal_strlit("pgup");
    reveal_strlit("pageup");
    reveal_strlit("pgdn");
    reveal_strlit("pagedown");
    reveal_strlit("home");
    reveal_strlit("end");
    reveal_strlit("backspace");
    reveal_strlit("bs");
    reveal_strlit("delete");
    reveal_strlit("del");
    reveal_strlit("insert");
    reveal_strlit("ins");
}

proof fn lemma_lower_same(k: Seq<char>)
    requires
        forall|i: int| 0 <= i < k.len() ==> 'a' <= #[trigger] k[i] <= 'z',
    ensures
        lowered(k) == k,
{
    assert(lowered(k) =~= k);
}

/// A key with a name is read back from it.
#[verifier::spinoff_prover]
proof fn lemma_named_key(code: KeyCode)
    requires
        !(code is Char) || code == KeyCode::Char(' '),
        !(code is F),
        code != KeyCode::BackTab,
        code != KeyCode::Other,
    ensures
        key_of(key_text(code)) == Ok::<KeyCode, Seq<char>>(code),
        !key_text(code).contains('+'),
        key_text(code).len() > 1,
        !white_space(key_text(code)[0]),
        !white_space(key_text(code).last()),
{
    reveal_strlit("enter");
    reveal_strlit("return");
    reveal_strlit("cr");
    reveal_strlit("tab");
    reveal_strlit("esc");
    reveal_strlit("escape");
    reveal_strlit("space");
    reveal_strlit("up");
    reveal_strlit("down");
    reveal_strlit("left");
    reveal_strlit("right");
    reveal_strlit("pgup");
    reveal_strlit("pageup");
    reveal_strlit("pgdn");
    reveal_strlit("pagedown");
    reveal_strlit("home");
    reveal_strlit("end");
    reveal_strlit("backspace");
    reveal_strlit("bs");
    reveal_strlit("delete");
    reveal_strlit("del");
    reveal_strlit("insert");
    reveal_strlit("ins");
    let k = key_text(code);
    lemma_lower_same(k);
    match code {
        KeyCode::Char(c) => {
            assert(named_key(k) == Some(KeyCode::Char(' ')));
        },
        KeyCode::Enter => {
            assert(named_key(k) == Some(KeyCode::Enter));
        },
        KeyCode::Tab => {
            assert(named_key(k) == Some(KeyCode::Tab));
        },
        KeyCode::Esc => {
            assert(named_key(k) == Some(KeyCode::Esc));
        },
        KeyCode::Up => {
            assert(named_key(k) == Some(KeyCode::Up));
        },
        KeyCode::Down => {
            assert(named_key(k) == Some(KeyCode::Down));
        },
        KeyCode::Left => {
            assert(named_key(k) == Some(KeyCode::Left));
        },
        KeyCode::Right => {
            assert(named_key(k) == Some(KeyCode::Right));
        },
        KeyCode::PageUp => {
            assert(named_key(k) == Some(KeyCode::PageUp));
        },
        KeyCode::PageDown => {
            assert(named_key(k) == Some(KeyCode::PageDown));
        },
        KeyCode::Home => {
            assert(named_key(k) == Some(KeyCode::Home));
        },
        KeyCode::End => {
            assert(named_key(k) == Some(KeyCode::End));
        },
        KeyCode::Backspace => {
            assert(named_key(k) == Some(KeyCode::Backspace));
        },
        KeyCode::Delete => {
            assert(named_key(k) == Some(KeyCode::Delete));
        },
        KeyCode::Insert => {
            assert(named_key(k) == Some(KeyCode::Insert));
        },
        _ => {},
    }
}

/// What a chord is displayed as is read back as the same chord.
pub proof fn law_chord_round_trip(chord: Chord)
    requires
        writable(chord),
    ensures
        chord_of(chord_text(chord)) == Ok::<Chord, Seq<char>>(chord),
{
    let k = key_text(chord.0);
    lemma_modifier_words();
    match chord.0 {
        KeyCode::Char(c) => {
            if c == ' ' {
                lemma_named_key(chord.0);
            } else {
                assert(k =~= seq![c]);
                assert(c != '+' ==> !k.contains('+'));
            }
        },
        KeyCode::F(n) => {
            lemma_function_key(n);
            lemma_decimal_round_trip(n as nat);
            reveal_strlit("f");
            let d = decimal(n as nat);
            assert(k == "f"@ + d);
            assert(k[0] == 'f');
            assert(k.last() == d.last());
            assert(digit(d[d.len() - 1]));
            assert(!k.contains('+')) by {
                if k.contains('+') {
                    let i = choose|i: int| 0 <= i < k.len() && k[i] == '+';
                    assert(i > 0);
                    assert(digit(d[i - 1]));
                }
            }
        },
        _ => {
            lemma_named_key(chord.0);
        },
    }
    let text = chord_text(chord);
    if k.len() == 1 && white_space(k[0]) {
        assert(text =~= k);
    } else {
        lemma_chord_pieces(chord);
        lemma_chord_modifiers(chord);
        assert(text.last() == k.last());
        assert(!white_space(text[0])) by {
            reveal_strlit("ctrl+");
            reveal_strlit("alt+");
            reveal_strlit("shift+");
        }
        lemma_trim_same(text);
        assert(chord_parts(chord).last() == k);
    }
}

} // verus!
