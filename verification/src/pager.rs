//! Pager mode: a diff that was piped in.

use std::sync::Arc;

use vstd::hash_map::StringHashMap;
use vstd::prelude::*;

use crate::cache::share;
use crate::git::diff::{entry_models, split_model, split_unified};
use crate::model::diff::{DiffModel, FileDiff};
use crate::model::file::{file_models, ChangedFile, FileModel};
use crate::text::{chars_of, lemma_take_step, lossy_string, push_char, utf8_lossy};

verus! {

/// What follows the control sequence whose parameters `s` begins with: it ends with
/// its final character, or before a character that is not ASCII and so is none of it.
pub open spec fn after_sequence(s: Seq<char>) -> Seq<char>
    decreases s.len(),
{
    if s.len() == 0 {
        s
    } else if '@' <= s[0] <= '~' {
        s.skip(1)
    } else if s[0] > '\x7f' {
        s
    } else {
        after_sequence(s.skip(1))
    }
}

proof fn lemma_after_sequence(s: Seq<char>)
    ensures
        after_sequence(s).len() <= s.len(),
    decreases s.len(),
{
    if s.len() > 0 && !('@' <= s[0] <= '~') && s[0] <= '\x7f' {
        lemma_after_sequence(s.skip(1));
    }
}

/// `s` without control sequences (`ESC [`, parameters, a final character) and
/// without other escape characters. Only ASCII characters are dropped.
pub open spec fn stripped(s: Seq<char>) -> Seq<char>
    decreases s.len(),
    via stripped_decreases
{
    if s.len() == 0 {
        Seq::empty()
    } else if s[0] != '\x1b' {
        seq![s[0]] + stripped(s.skip(1))
    } else if s.len() > 1 && s[1] == '[' {
        stripped(after_sequence(s.skip(2)))
    } else {
        stripped(s.skip(1))
    }
}

#[via_fn]
proof fn stripped_decreases(s: Seq<char>) {
    if s.len() > 1 {
        lemma_after_sequence(s.skip(2));
    }
}

/// Strip ANSI CSI escape sequences (`ESC [ … final`, e.g. SGR colour) from
/// `input`. Nothing else is dropped but bare escape characters, and only ASCII
/// characters are.
pub fn strip_ansi(input: &str) -> (r: String)
    ensures
        r@ == stripped(input@),
{
    let chars = chars_of(input);
    let n = chars.len();
    let mut out = String::new();
    let mut i: usize = 0;
    assert(chars@.skip(0) =~= chars@);
    assert(out@ + stripped(chars@) =~= stripped(chars@));
    while i < n
        invariant
            n == chars@.len(),
            i <= n,
            chars@ == input@,
            out@ + stripped(chars@.skip(i as int)) == stripped(input@),
        decreases n - i,
    {
        let ghost rest = chars@.skip(i as int);
        let ghost was = out@;
        assert(rest.skip(1) =~= chars@.skip(i + 1));
        if chars[i] != '\x1b' {
            push_char(&mut out, chars[i]);
            assert(was + (seq![rest[0]] + stripped(rest.skip(1))) =~= out@ + stripped(
                chars@.skip(i + 1),
            ));
            i += 1;
        } else if n - i > 1 && chars[i + 1] == '[' {
            let ghost params = rest.skip(2);
            let mut k: usize = i + 2;
            assert(params =~= chars@.skip(i + 2));
            while k < n && !('@' <= chars[k] && chars[k] <= '~') && chars[k] <= '\x7f'
                invariant
                    n == chars@.len(),
                    k <= n,
                    i < k,
                    after_sequence(params) == after_sequence(chars@.skip(k as int)),
                decreases n - k,
            {
                assert(chars@.skip(k as int).skip(1) =~= chars@.skip(k + 1));
                k += 1;
            }
            if k < n && chars[k] > '\x7f' {
                i = k;
            } else if k < n {
                assert(chars@.skip(k as int).skip(1) =~= chars@.skip(k + 1));
                i = k + 1;
            } else {
                assert(chars@.skip(k as int) =~= Seq::<char>::empty());
                assert(after_sequence(params) =~= chars@.skip(n as int));
                i = n;
            }
        } else {
            i += 1;
        }
    }
    assert(stripped(chars@.skip(n as int)) =~= Seq::<char>::empty());
    assert(out@ + Seq::<char>::empty() =~= out@);
    out
}

/// No escape character is left, and text without one is not changed.
pub proof fn law_stripped(s: Seq<char>)
    ensures
        !stripped(s).contains('\x1b'),
        !s.contains('\x1b') ==> stripped(s) == s,
    decreases s.len(),
{
    if s.len() > 0 {
        if s[0] != '\x1b' {
            law_stripped(s.skip(1));
            let tail = stripped(s.skip(1));
            let all = stripped(s);
            assert(all == seq![s[0]] + tail);
            if all.contains('\x1b') {
                let i = choose|i: int| 0 <= i < all.len() && all[i] == '\x1b';
                assert(tail[i - 1] == '\x1b');
            }
            if !s.contains('\x1b') {
                assert(!s.skip(1).contains('\x1b')) by {
                    if s.skip(1).contains('\x1b') {
                        let i = choose|i: int| 0 <= i < s.skip(1).len() && s.skip(1)[i] == '\x1b';
                        assert(s[i + 1] == '\x1b');
                    }
                }
                assert(seq![s[0]] + s.skip(1) =~= s);
            }
        } else {
            assert(s.contains('\x1b'));
            if s.len() > 1 && s[1] == '[' {
                lemma_after_sequence(s.skip(2));
                law_stripped(after_sequence(s.skip(2)));
            } else {
                law_stripped(s.skip(1));
            }
        }
    } else {
        assert(stripped(s) =~= s);
    }
}

/// The diffs of a list of entries by path; of two entries for one path the later
/// one counts.
pub open spec fn diffs_by_path(entries: Seq<(FileModel, DiffModel)>) -> Map<Seq<char>, DiffModel>
    decreases entries.len(),
{
    if entries.len() == 0 {
        Map::empty()
    } else {
        diffs_by_path(entries.drop_last()).insert(entries.last().0.path, entries.last().1)
    }
}

/// The models of a map of diffs.
pub open spec fn diff_models(m: Map<Seq<char>, Arc<FileDiff>>) -> Map<Seq<char>, DiffModel> {
    m.map_values(|d: Arc<FileDiff>| d@)
}

/// Every diff of the map is well-formed.
pub open spec fn diffs_ok(m: Map<Seq<char>, Arc<FileDiff>>) -> bool {
    forall|p: Seq<char>| #[trigger] m.contains_key(p) ==> m[p]@.wf()
}

/// The files and diffs of the diff that was piped in as `input`, colours
/// stripped; none where it carries no reviewable file diff.
pub fn piped_files(input: &[u8]) -> (r: Option<(Vec<ChangedFile>, StringHashMap<Arc<FileDiff>>)>)
    ensures
        r is Some <==> split_model(stripped(utf8_lossy(input@))).len() > 0,
        r is Some ==> {
            let entries = split_model(stripped(utf8_lossy(input@)));
            &&& file_models((r->0).0@) == entries.map_values(|e: (FileModel, DiffModel)| e.0)
            &&& diff_models((r->0).1@) == diffs_by_path(entries)
            &&& diffs_ok((r->0).1@)
        },
{
    let text = lossy_string(input);
    let text = strip_ansi(text.as_str());
    let parsed = split_unified(text.as_str());
    let ghost entries = entry_models(parsed@);
    let n = parsed.len();
    if n == 0 {
        return None;
    }
    let mut files: Vec<ChangedFile> = Vec::new();
    let mut diffs: StringHashMap<Arc<FileDiff>> = StringHashMap::new();
    let ghost firsts = entries.map_values(|e: (FileModel, DiffModel)| e.0);
    assert(diff_models(diffs@) =~= diffs_by_path(entries.take(0)));
    for i in 0..n
        invariant
            n == parsed@.len(),
            entries == entry_models(parsed@),
            firsts == entries.map_values(|e: (FileModel, DiffModel)| e.0),
            forall|k: int| 0 <= k < parsed@.len() ==> (#[trigger] parsed@[k]).1@.wf(),
            file_models(files@) == firsts.take(i as int),
            diff_models(diffs@) == diffs_by_path(entries.take(i as int)),
            diffs_ok(diffs@),
    {
        proof {
            lemma_take_step(entries, i as int);
            lemma_take_step(firsts, i as int);
        }
        assert(entries[i as int] == (parsed@[i as int].0@, parsed@[i as int].1@));
        let f = parsed[i].0.clone();
        let ghost had = files@;
        let ghost view = f@;
        files.push(f);
        assert(file_models(files@) =~= file_models(had).push(view));
        let ghost was = diffs@;
        let d = share(&parsed[i].1);
        let path = parsed[i].0.path.clone();
        diffs.insert(path, d);
        assert(diff_models(diffs@) =~= diff_models(was).insert(path@, d@));
    }
    assert(entries.take(n as int) =~= entries);
    assert(firsts.take(n as int) =~= firsts);
    Some((files, diffs))
}

/// A control sequence goes as a whole, from its escape character to its final one, and
/// what stands in front of it and behind it stays.
pub proof fn law_sequence_goes(
    front: Seq<char>,
    params: Seq<char>,
    last: char,
    rest: Seq<char>,
)
    requires
        !front.contains('\x1b'),
        forall|i: int| 0 <= i < params.len() ==> #[trigger] params[i] < '@',
        '@' <= last <= '~',
    ensures
        stripped(front + (seq!['\x1b', '['] + params + seq![last] + rest)) == front + stripped(
            rest,
        ),
{
    let tail = seq!['\x1b', '['] + params + seq![last] + rest;
    lemma_front_stays(front, tail);
    assert(tail.skip(2) =~= params + (seq![last] + rest));
    lemma_params_go(params, seq![last] + rest);
    assert((seq![last] + rest).skip(1) =~= rest);
}

/// Text in another script ends a broken sequence and is kept.
pub proof fn law_broken_sequence_keeps_text(front: Seq<char>, params: Seq<char>, rest: Seq<char>)
    requires
        !front.contains('\x1b'),
        forall|i: int| 0 <= i < params.len() ==> #[trigger] params[i] < '@',
        rest.len() > 0,
        rest[0] > '\x7f',
    ensures
        stripped(front + (seq!['\x1b', '['] + params + rest)) == front + stripped(rest),
{
    let tail = seq!['\x1b', '['] + params + rest;
    lemma_front_stays(front, tail);
    assert(tail.skip(2) =~= params + rest);
    lemma_params_go(params, rest);
}

/// An escape character that begins no control sequence goes alone.
pub proof fn law_bare_escape_goes(front: Seq<char>, rest: Seq<char>)
    requires
        !front.contains('\x1b'),
        rest.len() == 0 || rest[0] != '[',
    ensures
        stripped(front + (seq!['\x1b'] + rest)) == front + stripped(rest),
{
    let tail = seq!['\x1b'] + rest;
    lemma_front_stays(front, tail);
    assert(tail.skip(1) =~= rest);
}

proof fn lemma_front_stays(front: Seq<char>, tail: Seq<char>)
    requires
        !front.contains('\x1b'),
    ensures
        stripped(front + tail) == front + stripped(tail),
    decreases front.len(),
{
    if front.len() == 0 {
        assert(front + tail =~= tail);
        assert(front + stripped(tail) =~= stripped(tail));
    } else {
        let rest = front.skip(1);
        assert(!rest.contains('\x1b')) by {
            if rest.contains('\x1b') {
                let i = choose|i: int| 0 <= i < rest.len() && rest[i] == '\x1b';
                assert(front[i + 1] == '\x1b');
            }
        }
        assert(front.contains(front[0]));
        lemma_front_stays(rest, tail);
        assert((front + tail).skip(1) =~= rest + tail);
        assert((front + tail)[0] == front[0]);
        assert(seq![front[0]] + (rest + stripped(tail)) =~= front + stripped(tail));
    }
}

proof fn lemma_params_go(params: Seq<char>, rest: Seq<char>)
    requires
        forall|i: int| 0 <= i < params.len() ==> #[trigger] params[i] < '@',
    ensures
        after_sequence(params + rest) == after_sequence(rest),
    decreases params.len(),
{
    if params.len() == 0 {
        assert(params + rest =~= rest);
    } else {
        assert((params + rest)[0] == params[0]);
        assert((params + rest).skip(1) =~= params.skip(1) + rest);
        lemma_params_go(params.skip(1), rest);
    }
}

/// The diff of a path is that of its last entry.
pub proof fn law_last_entry_counts(entries: Seq<(FileModel, DiffModel)>, path: Seq<char>, i: int)
    requires
        0 <= i < entries.len(),
        entries[i].0.path == path,
        forall|j: int| i < j < entries.len() ==> (#[trigger] entries[j]).0.path != path,
    ensures
        diffs_by_path(entries).contains_key(path),
        diffs_by_path(entries)[path] == entries[i].1,
    decreases entries.len(),
{
    let was = entries.drop_last();
    if i < was.len() {
        assert(entries[entries.len() - 1].0.path != path);
        assert forall|j: int| i < j < was.len() implies (#[trigger] was[j]).0.path != path by {
            assert(entries[j].0.path != path);
        }
        law_last_entry_counts(was, path, i);
    }
}

/// A path without an entry has no diff.
pub proof fn law_no_entry_no_diff(entries: Seq<(FileModel, DiffModel)>, path: Seq<char>)
    requires
        forall|j: int| 0 <= j < entries.len() ==> (#[trigger] entries[j]).0.path != path,
    ensures
        !diffs_by_path(entries).contains_key(path),
    decreases entries.len(),
{
    if entries.len() > 0 {
        let was = entries.drop_last();
        assert forall|j: int| 0 <= j < was.len() implies (#[trigger] was[j]).0.path != path by {
            assert(entries[j].0.path != path);
        }
        assert(entries[entries.len() - 1].0.path != path);
        law_no_entry_no_diff(was, path);
    }
}

} // verus!
