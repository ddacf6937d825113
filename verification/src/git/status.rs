//! Parse `git status --porcelain=v2 -z` into the changed-file list.
//!
//! Porcelain v2 is stable, machine-readable and includes rename info; with `-z`
//! records are NUL-delimited, robust to spaces and non-ASCII in paths. Scope is
//! "everything that differs from the base": staged, unstaged and all untracked,
//! once per path.

use vstd::prelude::*;
use vstd::slice::slice_subrange;
use vstd::utf8::*;

use crate::model::file::{file_models, ChangeKind, ChangedFile, FileModel, KindModel};
use crate::text::{
    chars_of, deep, deep_bytes, fields, lemma_take_step, lossy_string, owned, pieces, split_bytes,
    split_fields, string_of, strings, utf8_lossy,
};
use crate::text_laws::{law_fields, law_one_piece, law_pieces_part};

verus! {

/// What git is asked for the changed files.
pub fn status_args() -> (r: Vec<String>)
    ensures
        strings(r@) == seq![
            "-c"@,
            "core.quotepath=false"@,
            "status"@,
            "--porcelain=v2"@,
            "-z"@,
            "--untracked-files=all"@,
        ],
{
    let r = owned(
        &[
            "-c",
            "core.quotepath=false",
            "status",
            "--porcelain=v2",
            "-z",
            "--untracked-files=all",
        ],
    );
    assert(strings(r@) =~= seq![
        "-c"@,
        "core.quotepath=false"@,
        "status"@,
        "--porcelain=v2"@,
        "-z"@,
        "--untracked-files=all"@,
    ]);
    r
}

/// The texts of the pieces that are not empty.
pub open spec fn record_texts(pieces: Seq<Seq<u8>>) -> Seq<Seq<char>>
    decreases pieces.len(),
{
    if pieces.len() == 0 {
        Seq::empty()
    } else {
        let was = record_texts(pieces.drop_last());
        if pieces.last().len() == 0 {
            was
        } else {
            was.push(utf8_lossy(pieces.last()))
        }
    }
}

/// The records of a porcelain stream.
pub open spec fn records(bytes: Seq<u8>) -> Seq<Seq<char>> {
    record_texts(pieces(bytes, 0))
}

fn split_records(bytes: &[u8]) -> (r: Vec<String>)
    ensures
        strings(r@) == records(bytes@),
{
    let parts = split_bytes(bytes, 0);
    let ghost model = deep_bytes(parts@);
    let mut out: Vec<String> = Vec::new();
    let n = parts.len();
    assert(strings(out@) =~= record_texts(model.take(0)));
    for i in 0..n
        invariant
            n == parts@.len(),
            model == deep_bytes(parts@),
            strings(out@) == record_texts(model.take(i as int)),
    {
        proof {
            lemma_take_step(model, i as int);
        }
        assert(model[i as int] == parts@[i as int]@);
        if parts[i].len() > 0 {
            let ghost was = out@;
            let text = lossy_string(parts[i].as_slice());
            let ghost view = text@;
            out.push(text);
            assert(strings(out@) =~= strings(was).push(view));
        }
    }
    assert(model.take(n as int) =~= model);
    out
}

/// The change that the two-letter XY status code of an ordinary record stands
/// for: the most significant of the staged (X) and unstaged (Y) columns.
pub open spec fn kind_of_xy(xy: Seq<char>) -> KindModel {
    let b = encode_utf8(xy);
    let has = |code: u8| (b.len() > 0 && b[0] == code) || (b.len() > 1 && b[1] == code);
    if has(0x41) {  // A
        KindModel::Added
    } else if has(0x44) {  // D
        KindModel::Deleted
    } else if has(0x54) {  // T
        KindModel::TypeChange
    } else {
        KindModel::Modified
    }
}

/// Derive a [`ChangeKind`] from the two-letter XY status code, taking whichever
/// of the staged (X) or unstaged (Y) columns is most significant.
pub fn kind_from_xy(xy: &str) -> (r: ChangeKind)
    ensures
        r@ == kind_of_xy(xy@),
{
    let b = xy.as_bytes();
    let x: u8 = if b.len() > 0 {
        b[0]
    } else {
        0x2e
    };
    let y: u8 = if b.len() > 1 {
        b[1]
    } else {
        0x2e
    };
    if x == 0x41 || y == 0x41 {
        ChangeKind::Added
    } else if x == 0x44 || y == 0x44 {
        ChangeKind::Deleted
    } else if x == 0x54 || y == 0x54 {
        ChangeKind::TypeChange
    } else {
        ChangeKind::Modified
    }
}

/// The two columns of a status code weigh the same: the change is that of the weightier
/// letter, an addition before a deletion before a change of type, whichever column it
/// stands in. Anything else is a modification.
pub proof fn law_columns_are_alike(x: char, y: char)
    requires
        (x as u32) < 0x80,
        (y as u32) < 0x80,
    ensures
        kind_of_xy(seq![x, y]) == kind_of_xy(seq![y, x]),
        kind_of_xy(seq![x, y]) == KindModel::Added <==> x == 'A' || y == 'A',
        kind_of_xy(seq![x, y]) == KindModel::Deleted <==> x != 'A' && y != 'A' && (x == 'D' || y
            == 'D'),
        kind_of_xy(seq![x, y]) == KindModel::TypeChange <==> x != 'A' && y != 'A' && x != 'D' && y
            != 'D' && (x == 'T' || y == 'T'),
        kind_of_xy(seq![x, y]) == KindModel::Modified <==> x != 'A' && y != 'A' && x != 'D' && y
            != 'D' && x != 'T' && y != 'T',
{
    lemma_ascii_pair(x, y);
    lemma_ascii_pair(y, x);
}

proof fn lemma_ascii_pair(x: char, y: char)
    requires
        (x as u32) < 0x80,
        (y as u32) < 0x80,
    ensures
        encode_utf8(seq![x, y]) == seq![x as u8, y as u8],
{
    let s = seq![x, y];
    assert(is_ascii_chars(s));
    is_ascii_chars_encode_utf8(s);
    assert(encode_utf8(s) =~= seq![x as u8, y as u8]);
}

/// The `n`-th space-delimited field of a record, where that field is all that is
/// left of it; none where there are fewer.
pub open spec fn field_of(rec: Seq<char>, n: nat) -> Option<Seq<char>> {
    let parts = fields(rec, n, ' ');
    if parts.len() == n {
        Some(parts[n - 1])
    } else {
        None
    }
}

proof fn lemma_fields_len(s: Seq<char>, n: nat, sep: char)
    requires
        n > 0,
    ensures
        0 < fields(s, n, sep).len() <= n,
    decreases n,
{
    if n > 1 {
        let head = crate::text::before(s, sep);
        lemma_fields_len(s.skip(head.len() as int + 1), (n - 1) as nat, sep);
    }
}

/// Return the n-th space-delimited field counting from 1, where the n-th field
/// is the remainder of the string (so a trailing path keeps embedded spaces).
pub fn field(rec: &str, n: usize) -> (r: Option<String>)
    requires
        n > 0,
    ensures
        (match r {
            Some(s) => Some(s@),
            None => None,
        }) == field_of(rec@, n as nat),
{
    proof {
        lemma_fields_len(rec@, n as nat, ' ');
    }
    let parts = split_fields(chars_of(rec).as_slice(), n, ' ');
    assert(parts@.len() == fields(rec@, n as nat, ' ').len());
    if parts.len() == n {
        assert(deep(parts@)[n - 1] == parts@[n - 1]@);
        Some(string_of(parts[n - 1].as_slice()))
    } else {
        None
    }
}

/// What one record says: the file, if it names one.
pub open spec fn record_file(rec: Seq<char>, next: Seq<char>) -> Option<FileModel> {
    let entry = |path: Option<Seq<char>>, kind: KindModel|
        match path {
            Some(path) => Some(FileModel { path, kind, additions: 0, deletions: 0 }),
            None => None,
        };
    if rec.len() == 0 {
        None
    } else if rec[0] == '1' {
        // 1 XY sub mH mI mW hH hI <path>
        entry(field_of(rec, 9), kind_of_xy(fields(rec, 9, ' ')[1]))
    } else if rec[0] == '2' {
        entry(field_of(rec, 10), KindModel::Renamed(next))
    } else if rec[0] == '?' {
        // ? <path>
        entry(Some(rec.skip(2)), KindModel::Untracked)
    } else if rec[0] == 'u' {
        // Unmerged: modified, for review purposes.
        entry(field_of(rec, 11), KindModel::Modified)
    } else {
        None
    }
}

/// A rename record is followed by its original path.
pub open spec fn takes_next(rec: Seq<char>) -> bool {
    rec.len() > 0 && rec[0] == '2'
}

pub open spec fn next_record(recs: Seq<Seq<char>>) -> Seq<char> {
    if recs.len() > 1 {
        recs[1]
    } else {
        Seq::empty()
    }
}

/// The records that follow the first one and what belongs to it.
pub open spec fn rest_of(recs: Seq<Seq<char>>) -> Seq<Seq<char>> {
    if takes_next(recs[0]) && recs.len() > 1 {
        recs.skip(2)
    } else {
        recs.skip(1)
    }
}

/// The changed files that the records name, in order.
pub open spec fn status_files(recs: Seq<Seq<char>>) -> Seq<FileModel>
    decreases recs.len(),
{
    if recs.len() == 0 {
        Seq::empty()
    } else {
        let tail = status_files(rest_of(recs));
        match record_file(recs[0], next_record(recs)) {
            Some(f) => seq![f] + tail,
            None => tail,
        }
    }
}

/// An untracked record has a one-byte separator behind its `?`.
pub open spec fn untracked_ok(rec: Seq<char>) -> bool {
    rec.len() > 0 && rec[0] == '?' ==> rec.len() > 1 && (rec[1] as u32) < 0x80
}

/// Every untracked record of the stream has its separator.
pub open spec fn status_ok(recs: Seq<Seq<char>>) -> bool
    decreases recs.len(),
{
    recs.len() > 0 ==> untracked_ok(recs[0]) && status_ok(rest_of(recs))
}

/// The file that one record names.
fn parse_record(rec: &str, next: &str) -> (r: Option<ChangedFile>)
    requires
        untracked_ok(rec@),
    ensures
        (match r {
            Some(f) => Some(f@),
            None => None,
        }) == record_file(rec@, next@),
{
    let chars = chars_of(rec);
    if chars.len() == 0 {
        return None;
    }
    let first = chars[0];
    if first == '1' {
        let path = match field(rec, 9) {
            Some(p) => p,
            None => {
                return None;
            },
        };
        let parts = split_fields(chars.as_slice(), 9, ' ');
        assert(deep(parts@)[1] == parts@[1]@);
        let kind = kind_from_xy(string_of(parts[1].as_slice()).as_str());
        Some(ChangedFile::new(path, kind))
    } else if first == '2' {
        match field(rec, 10) {
            Some(p) => Some(ChangedFile::new(p, ChangeKind::Renamed { from: next.to_owned() })),
            None => None,
        }
    } else if first == '?' {
        let path = slice_subrange(chars.as_slice(), 2, chars.len());
        assert(path@ =~= rec@.skip(2));
        Some(ChangedFile::new(string_of(path), ChangeKind::Untracked))
    } else if first == 'u' {
        match field(rec, 11) {
            Some(p) => Some(ChangedFile::new(p, ChangeKind::Modified)),
            None => None,
        }
    } else {
        None
    }
}

/// Parse the raw NUL-delimited porcelain-v2 byte stream.
pub fn parse_status_v2(bytes: &[u8]) -> (r: Vec<ChangedFile>)
    requires
        status_ok(records(bytes@)),
    ensures
        file_models(r@) == status_files(records(bytes@)),
{
    let recs = split_records(bytes);
    let ghost model = strings(recs@);
    let mut files: Vec<ChangedFile> = Vec::new();
    let n = recs.len();
    let mut i: usize = 0;
    assert(model.skip(0) =~= model);
    assert(file_models(files@) + status_files(model) =~= status_files(model));
    while i < n
        invariant
            n == recs@.len(),
            model == strings(recs@),
            i <= n,
            status_ok(model.skip(i as int)),
            file_models(files@) + status_files(model.skip(i as int)) == status_files(model),
        decreases n - i,
    {
        let ghost rest = model.skip(i as int);
        assert(rest[0] == recs@[i as int]@);
        let rec = recs[i].as_str();
        let mut step: usize = 1;
        let chars = chars_of(rec);
        let empty = String::new();
        let mut next = empty.as_str();
        if i + 1 < n {
            assert(rest[1] == recs@[i + 1]@);
            next = recs[i + 1].as_str();
            if chars.len() > 0 && chars[0] == '2' {
                step = 2;
            }
        }
        assert(next@ =~= next_record(rest));
        assert(rest_of(rest) =~= model.skip(i + step));
        let ghost was = files@;
        let ghost tail = status_files(model.skip(i + step));
        match parse_record(rec, next) {
            Some(f) => {
                let ghost view = f@;
                files.push(f);
                assert(file_models(files@) =~= file_models(was).push(view));
                assert(file_models(was) + (seq![view] + tail) =~= file_models(files@) + tail);
            },
            None => {},
        }
        i += step;
    }
    assert(file_models(files@) + status_files(model.skip(n as int)) =~= file_models(files@));
    files
}

/// Whether every untracked record of the stream has its separator.
fn check_status(recs: &Vec<String>) -> (r: bool)
    ensures
        r == status_ok(strings(recs@)),
{
    let ghost model = strings(recs@);
    let n = recs.len();
    let mut i: usize = 0;
    assert(model.skip(0) =~= model);
    while i < n
        invariant
            n == recs@.len(),
            model == strings(recs@),
            i <= n,
            status_ok(model.skip(i as int)) == status_ok(model),
        decreases n - i,
    {
        let ghost rest = model.skip(i as int);
        assert(rest[0] == recs@[i as int]@);
        let chars = chars_of(recs[i].as_str());
        if chars.len() > 0 && chars[0] == '?' && !(chars.len() > 1 && (chars[1] as u32) < 0x80) {
            return false;
        }
        let mut step: usize = 1;
        if chars.len() > 0 && chars[0] == '2' && i + 1 < n {
            step = 2;
        }
        assert(rest_of(rest) =~= model.skip(i + step));
        i += step;
    }
    true
}

/// The changed files in git's answer; none where an untracked record of it has no
/// separator, which git does not write.
pub fn changed_files(out: &[u8]) -> (r: Option<Vec<ChangedFile>>)
    ensures
        r is Some <==> status_ok(records(out@)),
        r is Some ==> file_models(r->0@) == status_files(records(out@)),
{
    let recs = split_records(out);
    if check_status(&recs) {
        Some(parse_status_v2(out))
    } else {
        None
    }
}

// ── reading back what is written ───────────────────────────────────────────

/// Each NUL ends a record.
pub proof fn law_records_part(a: Seq<u8>, b: Seq<u8>)
    ensures
        records(a.push(0) + b) == records(a) + records(b),
{
    law_pieces_part(a, 0u8, b);
    lemma_record_texts(pieces(a, 0), pieces(b, 0));
}

proof fn lemma_record_texts(a: Seq<Seq<u8>>, b: Seq<Seq<u8>>)
    ensures
        record_texts(a + b) == record_texts(a) + record_texts(b),
    decreases b.len(),
{
    if b.len() == 0 {
        assert(a + b =~= a);
        assert(record_texts(a) + record_texts(b) =~= record_texts(a));
    } else {
        assert((a + b).drop_last() =~= a + b.drop_last());
        assert((a + b).last() == b.last());
        lemma_record_texts(a, b.drop_last());
        assert(record_texts(a + b) =~= record_texts(a) + record_texts(b));
    }
}

/// Bytes without a NUL are one record; no bytes are none.
pub proof fn law_one_record(a: Seq<u8>)
    requires
        !a.contains(0),
    ensures
        records(a) == if a.len() == 0 {
            Seq::<Seq<char>>::empty()
        } else {
            seq![utf8_lossy(a)]
        },
{
    law_one_piece(a, 0u8);
    assert(seq![a].drop_last() =~= Seq::<Seq<u8>>::empty());
    assert(record_texts(Seq::<Seq<u8>>::empty()) =~= Seq::<Seq<char>>::empty());
    assert(records(a) =~= if a.len() == 0 {
        Seq::<Seq<char>>::empty()
    } else {
        seq![utf8_lossy(a)]
    });
}

/// What git writes of one changed file: the fields in front of its path, the path,
/// and for a rename the path that it had before.
pub struct StatusEntry {
    pub parts: Seq<Seq<char>>,
    pub path: Seq<char>,
    pub from: Seq<char>,
}

/// The fields of a record, each with a space behind it, and the path.
pub open spec fn spaced(parts: Seq<Seq<char>>, path: Seq<char>) -> Seq<char>
    decreases parts.len(),
{
    if parts.len() == 0 {
        path
    } else {
        parts[0].push(' ') + spaced(parts.skip(1), path)
    }
}

/// The entry is one that git writes: an ordinary one (`1`), a rename or copy (`2`), an
/// unmerged one (`u`) or an untracked file (`?`), each with its number of fields. A
/// space is in none but the path.
pub open spec fn entry_ok(e: StatusEntry) -> bool {
    &&& forall|i: int| 0 <= i < e.parts.len() ==> !(#[trigger] e.parts[i]).contains(' ')
    &&& {
        ||| e.parts.len() == 8 && e.parts[0] == seq!['1']
        ||| e.parts.len() == 9 && e.parts[0] == seq!['2']
        ||| e.parts.len() == 10 && e.parts[0] == seq!['u']
        ||| e.parts.len() == 1 && e.parts[0] == seq!['?']
    }
}

/// The records of an entry: a rename has its old path in a record of its own.
pub open spec fn entry_records(e: StatusEntry) -> Seq<Seq<char>> {
    if e.parts[0] == seq!['2'] {
        seq![spaced(e.parts, e.path), e.from]
    } else {
        seq![spaced(e.parts, e.path)]
    }
}

/// The changed file of an entry. Its lines are not counted yet.
pub open spec fn entry_file(e: StatusEntry) -> FileModel {
    FileModel {
        path: e.path,
        kind: if e.parts[0] == seq!['1'] {
            kind_of_xy(e.parts[1])
        } else if e.parts[0] == seq!['2'] {
            KindModel::Renamed(e.from)
        } else if e.parts[0] == seq!['?'] {
            KindModel::Untracked
        } else {
            KindModel::Modified
        },
        additions: 0,
        deletions: 0,
    }
}

/// The records of entries, one behind the other.
pub open spec fn all_records(entries: Seq<StatusEntry>) -> Seq<Seq<char>>
    decreases entries.len(),
{
    if entries.len() == 0 {
        Seq::empty()
    } else {
        entry_records(entries[0]) + all_records(entries.skip(1))
    }
}

proof fn lemma_spaced(parts: Seq<Seq<char>>, path: Seq<char>)
    requires
        forall|i: int| 0 <= i < parts.len() ==> !(#[trigger] parts[i]).contains(' '),
    ensures
        fields(spaced(parts, path), parts.len() + 1, ' ') == parts.push(path),
    decreases parts.len(),
{
    let n = parts.len() + 1;
    if parts.len() == 0 {
        law_fields(Seq::empty(), path, 2, ' ');
        assert(parts.push(path) =~= seq![path]);
    } else {
        let rest = parts.skip(1);
        assert forall|i: int| 0 <= i < rest.len() implies !(#[trigger] rest[i]).contains(' ') by {
            assert(rest[i] == parts[i + 1]);
        }
        lemma_spaced(rest, path);
        assert(!parts[0].contains(' '));
        law_fields(parts[0], spaced(rest, path), n, ' ');
        assert(seq![parts[0]] + rest.push(path) =~= parts.push(path));
    }
}

/// One entry is read back from its record, whatever its path holds.
pub proof fn law_entry_reads_back(e: StatusEntry)
    requires
        entry_ok(e),
    ensures
        record_file(spaced(e.parts, e.path), e.from) == Some(entry_file(e)),
{
    let rec = spaced(e.parts, e.path);
    let n = e.parts.len() + 1;
    lemma_spaced(e.parts, e.path);
    assert(rec[0] == e.parts[0][0]);
    assert(e.parts.push(e.path)[n - 1] == e.path);
    if e.parts[0] == seq!['1'] {
        assert(e.parts.push(e.path)[1] == e.parts[1]);
    } else if e.parts[0] == seq!['?'] {
        assert(e.parts.skip(1) =~= Seq::<Seq<char>>::empty());
        assert(spaced(e.parts.skip(1), e.path) == e.path);
        assert(rec == e.parts[0].push(' ') + e.path);
        assert(rec.skip(2) =~= e.path);
    }
}

/// What git says of a working tree is read back: one changed file for each entry, in
/// order, each with its path and its kind.
pub proof fn law_status_reads_back(entries: Seq<StatusEntry>)
    requires
        forall|i: int| 0 <= i < entries.len() ==> entry_ok(#[trigger] entries[i]),
    ensures
        status_files(all_records(entries)) == entries.map_values(|e: StatusEntry| entry_file(e)),
        status_ok(all_records(entries)),
    decreases entries.len(),
{
    let recs = all_records(entries);
    let files = entries.map_values(|e: StatusEntry| entry_file(e));
    if entries.len() == 0 {
        assert(files =~= Seq::<FileModel>::empty());
    } else {
        let e = entries[0];
        let rest = entries.skip(1);
        assert(entry_ok(e));
        assert forall|i: int| 0 <= i < rest.len() implies entry_ok(#[trigger] rest[i]) by {
            assert(entry_ok(entries[i + 1]));
        }
        law_status_reads_back(rest);
        let rec = spaced(e.parts, e.path);
        law_entry_reads_back(e);
        assert(rec[0] == e.parts[0][0]);
        assert(recs[0] == rec);
        if e.parts[0] == seq!['?'] {
            assert(rec[1] == e.parts[0].push(' ')[1]);
        }
        if e.parts[0] == seq!['2'] {
            assert(recs[1] == e.from);
            assert(recs.skip(2) =~= all_records(rest));
        } else {
            assert(recs.skip(1) =~= all_records(rest));
            assert(record_file(rec, next_record(recs)) == record_file(rec, e.from));
        }
        assert(files =~= seq![entry_file(e)] + rest.map_values(|e: StatusEntry| entry_file(e)));
    }
}

} // verus!
