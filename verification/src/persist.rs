//! Reviewed and hidden state, by path.
//!
//! What is kept between sessions lives in two files under the git directory, so
//! it is never tracked and belongs to one clone or worktree. Reading and writing
//! them is up to the program; the stores hold their content.

use vstd::prelude::*;

use crate::model::review::{
    copy_hashes, index_of_hash, record_model, RecordModel, ReviewRecord,
};
use crate::path::{join_of, path_join};
use crate::text::{same, strings};

verus! {

/// The version of the on-disk form.
pub const SCHEMA: u32 = 1;

/// Where the reviewed state of the clone with this git directory is kept.
pub open spec fn review_file(git_dir: Seq<char>) -> Seq<char> {
    join_of(join_of(git_dir, "hunkr"@), "review.json"@)
}

/// Where the hidden files of the clone with this git directory are kept.
pub open spec fn hidden_file(git_dir: Seq<char>) -> Seq<char> {
    join_of(join_of(git_dir, "hunkr"@), "hidden.json"@)
}

/// In-memory reviewed-state, backed by a file under the git directory.
#[derive(Debug)]
pub struct ReviewStore {
    file: String,
    records: Vec<(String, ReviewRecord)>,
}

/// What a list of entries says of `path`: its last entry counts.
pub open spec fn entries_map(entries: Seq<(String, ReviewRecord)>) -> Map<Seq<char>, RecordModel>
    decreases entries.len(),
{
    if entries.len() == 0 {
        Map::empty()
    } else {
        entries_map(entries.drop_last()).insert(entries.last().0@, entries.last().1@)
    }
}

/// No path has two entries.
pub open spec fn distinct(entries: Seq<(String, ReviewRecord)>) -> bool {
    forall|i: int, j: int| 0 <= i < j < entries.len() ==> entries[i].0@ != entries[j].0@
}

proof fn lemma_entries(entries: Seq<(String, ReviewRecord)>)
    requires
        distinct(entries),
    ensures
        forall|i: int|
            0 <= i < entries.len() ==> entries_map(entries).contains_key(
                (#[trigger] entries[i]).0@,
            ) && entries_map(entries)[entries[i].0@] == entries[i].1@,
        forall|p: Seq<char>| #[trigger]
            entries_map(entries).contains_key(p) ==> exists|i: int|
                0 <= i < entries.len() && (#[trigger] entries[i]).0@ == p,
    decreases entries.len(),
{
    if entries.len() > 0 {
        let head = entries.drop_last();
        assert forall|i: int, j: int| 0 <= i < j < head.len() implies head[i].0@ != head[j].0@ by {
            assert(entries[i].0@ != entries[j].0@);
        }
        lemma_entries(head);
        assert forall|i: int| 0 <= i < entries.len() implies entries_map(entries).contains_key(
            (#[trigger] entries[i]).0@,
        ) && entries_map(entries)[entries[i].0@] == entries[i].1@ by {
            if i < head.len() {
                assert(head[i] == entries[i]);
                assert(entries[i].0@ != entries[entries.len() - 1].0@);
            }
        }
        assert forall|p: Seq<char>| #[trigger] entries_map(entries).contains_key(p) implies exists|
            i: int,
        | 0 <= i < entries.len() && (#[trigger] entries[i]).0@ == p by {
            if p == entries.last().0@ {
                assert(entries[entries.len() - 1].0@ == p);
            } else {
                assert(entries_map(head).contains_key(p));
                let i = choose|i: int| 0 <= i < head.len() && (#[trigger] head[i]).0@ == p;
                assert(entries[i].0@ == p);
            }
        }
    }
}

/// Replacing the record of one entry.
proof fn lemma_entries_update(
    entries: Seq<(String, ReviewRecord)>,
    at: int,
    entry: (String, ReviewRecord),
)
    requires
        distinct(entries),
        0 <= at < entries.len(),
        entry.0@ == entries[at].0@,
    ensures
        distinct(entries.update(at, entry)),
        entries_map(entries.update(at, entry)) == entries_map(entries).insert(entry.0@, entry.1@),
    decreases entries.len(),
{
    let next = entries.update(at, entry);
    assert forall|i: int, j: int| 0 <= i < j < next.len() implies next[i].0@ != next[j].0@ by {
        assert(entries[i].0@ != entries[j].0@);
    }
    lemma_entries(entries);
    lemma_entries(next);
    let a = entries_map(next);
    let b = entries_map(entries).insert(entry.0@, entry.1@);
    assert forall|p: Seq<char>| a.contains_key(p) == b.contains_key(p) by {
        if a.contains_key(p) {
            let i = choose|i: int| 0 <= i < next.len() && (#[trigger] next[i]).0@ == p;
            assert(entries_map(entries).contains_key(entries[i].0@));
        }
        if b.contains_key(p) {
            if p == entry.0@ {
                assert(a.contains_key(next[at].0@));
            } else {
                let i = choose|i: int| 0 <= i < entries.len() && (#[trigger] entries[i]).0@ == p;
                assert(a.contains_key(next[i].0@));
            }
        }
    }
    assert forall|p: Seq<char>| a.contains_key(p) implies a[p] == b[p] by {
        let i = choose|i: int| 0 <= i < next.len() && (#[trigger] next[i]).0@ == p;
        if i != at {
            assert(entries_map(entries)[entries[i].0@] == entries[i].1@);
            assert(entries[i].0@ != entries[at].0@) by {
                if i < at {
                } else {
                }
            }
        }
    }
    assert(a =~= b);
}

/// Removing one entry.
proof fn lemma_entries_remove(entries: Seq<(String, ReviewRecord)>, at: int)
    requires
        distinct(entries),
        0 <= at < entries.len(),
    ensures
        distinct(entries.remove(at)),
        entries_map(entries.remove(at)) == entries_map(entries).remove(entries[at].0@),
{
    let next = entries.remove(at);
    assert forall|i: int| 0 <= i < next.len() implies #[trigger] next[i] == entries[if i < at {
        i
    } else {
        i + 1
    }] by {}
    assert forall|i: int, j: int| 0 <= i < j < next.len() implies next[i].0@ != next[j].0@ by {
        let oi = if i < at {
            i
        } else {
            i + 1
        };
        let oj = if j < at {
            j
        } else {
            j + 1
        };
        assert(entries[oi].0@ != entries[oj].0@);
    }
    lemma_entries(entries);
    lemma_entries(next);
    let a = entries_map(next);
    let b = entries_map(entries).remove(entries[at].0@);
    assert forall|p: Seq<char>| #[trigger] a.contains_key(p) == b.contains_key(p) && (a.contains_key(p)
        ==> a[p] == b[p]) by {
        if a.contains_key(p) {
            let i = choose|i: int| 0 <= i < next.len() && (#[trigger] next[i]).0@ == p;
            let oi = if i < at {
                i
            } else {
                i + 1
            };
            assert(entries_map(entries).contains_key(entries[oi].0@));
            assert(entries[oi].0@ != entries[at].0@) by {
                if oi < at {
                } else {
                }
            }
        }
        if b.contains_key(p) {
            let i = choose|i: int| 0 <= i < entries.len() && (#[trigger] entries[i]).0@ == p;
            let ni = if i < at {
                i
            } else {
                i - 1
            };
            assert(next[ni] == entries[i]);
            assert(a.contains_key(next[ni].0@));
        }
    }
    assert(a.dom() =~= b.dom());
    assert(a =~= b);
}

/// A record with one more reviewed chunk.
pub open spec fn with_chunk(
    record: Option<RecordModel>,
    whole: u64,
    chunk: u64,
    now: i64,
) -> RecordModel {
    let chunks = match record {
        Some(r) => r.reviewed_chunks,
        None => Seq::empty(),
    };
    RecordModel {
        reviewed_hash: whole,
        reviewed_at: now,
        reviewed_chunks: if chunks.contains(chunk) {
            chunks
        } else {
            chunks.push(chunk)
        },
    }
}

/// What a map of records says of a path.
pub open spec fn record_at(records: Map<Seq<char>, RecordModel>, path: Seq<char>) -> Option<
    RecordModel,
> {
    if records.contains_key(path) {
        Some(records[path])
    } else {
        None
    }
}

/// `chunks` without `chunk`.
pub open spec fn without_chunk(chunks: Seq<u64>, chunk: u64) -> Seq<u64>
    decreases chunks.len(),
{
    if chunks.len() == 0 {
        Seq::empty()
    } else if chunks.last() == chunk {
        without_chunk(chunks.drop_last(), chunk)
    } else {
        without_chunk(chunks.drop_last(), chunk).push(chunks.last())
    }
}

pub proof fn lemma_without_chunk(chunks: Seq<u64>, chunk: u64)
    ensures
        forall|h: u64| #[trigger]
            without_chunk(chunks, chunk).contains(h) <==> chunks.contains(h) && h != chunk,
    decreases chunks.len(),
{
    if chunks.len() > 0 {
        let head = chunks.drop_last();
        lemma_without_chunk(head, chunk);
        let was = without_chunk(head, chunk);
        let now = without_chunk(chunks, chunk);
        assert forall|h: u64| #[trigger] now.contains(h) <==> chunks.contains(h) && h
            != chunk by {
            if now.contains(h) {
                let i = choose|i: int| 0 <= i < now.len() && now[i] == h;
                if i < was.len() {
                    assert(was[i] == h);
                    assert(was.contains(h));
                    let j = choose|j: int| 0 <= j < head.len() && head[j] == h;
                    assert(chunks[j] == h);
                } else {
                    assert(chunks[chunks.len() - 1] == h);
                }
            }
            if chunks.contains(h) && h != chunk {
                let j = choose|j: int| 0 <= j < chunks.len() && chunks[j] == h;
                if j < head.len() {
                    assert(head[j] == h);
                    assert(was.contains(h));
                    let i = choose|i: int| 0 <= i < was.len() && was[i] == h;
                    assert(now[i] == h);
                } else {
                    assert(now[was.len() as int] == h);
                }
            }
        }
    }
}

/// The records without one reviewed chunk; a record that has none left is gone.
pub open spec fn unmark_chunk_in(
    records: Map<Seq<char>, RecordModel>,
    path: Seq<char>,
    chunk: u64,
) -> Map<Seq<char>, RecordModel> {
    if !records.contains_key(path) {
        records
    } else {
        let left = without_chunk(records[path].reviewed_chunks, chunk);
        if left.len() == 0 {
            records.remove(path)
        } else {
            records.insert(path, RecordModel { reviewed_chunks: left, ..records[path] })
        }
    }
}

impl View for ReviewStore {
    type V = Map<Seq<char>, RecordModel>;

    closed spec fn view(&self) -> Map<Seq<char>, RecordModel> {
        entries_map(self.records@)
    }
}

impl ReviewStore {
    /// No path has two records.
    pub closed spec fn wf(self) -> bool {
        distinct(self.records@)
    }

    /// The file that the store is backed by.
    pub closed spec fn file_path(self) -> Seq<char> {
        self.file@
    }

    /// An empty store for `git_dir`.
    pub fn empty(git_dir: &str) -> (r: Self)
        ensures
            r@ == Map::<Seq<char>, RecordModel>::empty(),
            r.wf(),
            r.file_path() == review_file(git_dir@),
    {
        let file = path_join(path_join(git_dir, "hunkr").as_str(), "review.json");
        ReviewStore { file, records: Vec::new() }
    }

    /// The store for `git_dir` with the entries that were read from its file; of
    /// two entries for one path the later one counts. A missing or unreadable
    /// file has no entries: review state is best-effort and never blocks startup.
    pub fn load(git_dir: &str, entries: &Vec<(String, ReviewRecord)>) -> (r: Self)
        ensures
            r@ == entries_map(entries@),
            r.wf(),
            r.file_path() == review_file(git_dir@),
    {
        let mut store = ReviewStore::empty(git_dir);
        let n = entries.len();
        for i in 0..n
            invariant
                n == entries@.len(),
                store@ == entries_map(entries@.take(i as int)),
                store.wf(),
                store.file_path() == review_file(git_dir@),
        {
            proof {
                crate::text::lemma_take_step(entries@, i as int);
            }
            store.set(entries[i].0.as_str(), entries[i].1.clone());
        }
        assert(entries@.take(n as int) =~= entries@);
        store
    }

    /// The file that the store is backed by.
    pub fn file(&self) -> (r: &str)
        ensures
            r@ == self.file_path(),
    {
        self.file.as_str()
    }

    /// Every record with its path, to be written to the file.
    pub fn entries(&self) -> (r: &Vec<(String, ReviewRecord)>)
        ensures
            entries_map(r@) == self@,
            self.wf() ==> distinct(r@),
    {
        &self.records
    }

    fn index_of(&self, path: &str) -> (r: Option<usize>)
        requires
            self.wf(),
        ensures
            r is Some <==> self@.contains_key(path@),
            r is Some ==> r->0 < self.records@.len() && self.records@[r->0 as int].0@ == path@
                && self.records@[r->0 as int].1@ == self@[path@],
    {
        proof {
            lemma_entries(self.records@);
        }
        let n = self.records.len();
        for i in 0..n
            invariant
                n == self.records@.len(),
                self.wf(),
                forall|j: int| 0 <= j < i ==> (#[trigger] self.records@[j]).0@ != path@,
        {
            if same(self.records[i].0.as_str(), path) {
                proof {
                    lemma_entries(self.records@);
                    assert(self@.contains_key(self.records@[i as int].0@));
                }
                return Some(i);
            }
        }
        None
    }

    /// The record of `path`.
    pub fn get(&self, path: &str) -> (r: Option<&ReviewRecord>)
        requires
            self.wf(),
        ensures
            record_model(r) == record_at(self@, path@),
    {
        match self.index_of(path) {
            Some(i) => Some(&self.records[i].1),
            None => None,
        }
    }

    /// Paths with a review record (used to ask the worker which files to hash
    /// again).
    pub fn reviewed_paths(&self) -> (r: Vec<String>)
        requires
            self.wf(),
        ensures
            strings(r@).no_duplicates(),
            forall|p: Seq<char>| #[trigger] strings(r@).contains(p) <==> self@.contains_key(p),
    {
        let mut out: Vec<String> = Vec::new();
        let n = self.records.len();
        for i in 0..n
            invariant
                n == self.records@.len(),
                out@.len() == i,
                forall|j: int| 0 <= j < i ==> (#[trigger] out@[j])@ == self.records@[j].0@,
        {
            out.push(self.records[i].0.clone());
        }
        proof {
            lemma_entries(self.records@);
            let paths = strings(out@);
            assert forall|p: Seq<char>| #[trigger] paths.contains(p)
                <==> self@.contains_key(p) by {
                if paths.contains(p) {
                    let i = choose|i: int| 0 <= i < paths.len() && paths[i] == p;
                    assert(out@[i]@ == p);
                    assert(self@.contains_key(self.records@[i].0@));
                }
                if self@.contains_key(p) {
                    let i = choose|i: int|
                        0 <= i < self.records@.len() && (#[trigger] self.records@[i]).0@ == p;
                    assert(out@[i]@ == p);
                    assert(paths[i] == p);
                }
            }
            assert forall|i: int, j: int|
                0 <= i < paths.len() && 0 <= j < paths.len() && i != j implies paths[i]
                != paths[j] by {
                assert(out@[i]@ == self.records@[i].0@ && out@[j]@ == self.records@[j].0@);
                if i < j {
                    assert(self.records@[i].0@ != self.records@[j].0@);
                } else {
                    assert(self.records@[j].0@ != self.records@[i].0@);
                }
            }
        }
        out
    }

    fn set(&mut self, path: &str, record: ReviewRecord)
        requires
            old(self).wf(),
        ensures
            final(self)@ == old(self)@.insert(path@, record@),
            final(self).wf(),
            final(self).file_path() == old(self).file_path(),
    {
        let ghost before = self.records@;
        let ghost view = record@;
        match self.index_of(path) {
            Some(i) => {
                let entry = (path.to_owned(), record);
                proof {
                    lemma_entries_update(before, i as int, entry);
                }
                self.records[i] = entry;
                assert(self.records@ =~= before.update(i as int, entry));
            },
            None => {
                proof {
                    lemma_entries(before);
                }
                self.records.push((path.to_owned(), record));
                proof {
                    let now = self.records@;
                    assert(now.drop_last() =~= before);
                    assert forall|i: int, j: int| 0 <= i < j < now.len() implies now[i].0@
                        != now[j].0@ by {
                        assert(now[i] == before[i]);
                        if j < before.len() {
                            assert(before[i].0@ != before[j].0@);
                        } else {
                            assert(entries_map(before).contains_key(before[i].0@));
                        }
                    }
                }
            },
        }
    }

    /// Mark every chunk of `path` reviewed at diff hash `whole`.
    pub fn mark(&mut self, path: &str, whole: u64, chunks: Vec<u64>, now: i64)
        requires
            old(self).wf(),
        ensures
            final(self)@ == old(self)@.insert(
                path@,
                (RecordModel {
                    reviewed_hash: whole,
                    reviewed_at: now,
                    reviewed_chunks: chunks@,
                }),
            ),
            final(self).wf(),
            final(self).file_path() == old(self).file_path(),
    {
        self.set(
            path,
            ReviewRecord { reviewed_hash: whole, reviewed_at: now, reviewed_chunks: chunks },
        );
    }

    /// Mark one chunk of `path` reviewed.
    pub fn mark_chunk(&mut self, path: &str, whole: u64, chunk: u64, now: i64)
        requires
            old(self).wf(),
        ensures
            final(self)@ == old(self)@.insert(
                path@,
                with_chunk(record_at(old(self)@, path@), whole, chunk, now),
            ),
            final(self).wf(),
            final(self).file_path() == old(self).file_path(),
    {
        let mut chunks: Vec<u64> = match self.get(path) {
            Some(r) => copy_hashes(&r.reviewed_chunks),
            None => Vec::new(),
        };
        assert(record_at(self@, path@) is None ==> chunks@ =~= Seq::<u64>::empty());
        if index_of_hash(&chunks, chunk).is_none() {
            chunks.push(chunk);
        }
        self.set(
            path,
            ReviewRecord { reviewed_hash: whole, reviewed_at: now, reviewed_chunks: chunks },
        );
    }

    /// Remove any review record for `path`.
    pub fn unmark(&mut self, path: &str)
        requires
            old(self).wf(),
        ensures
            final(self)@ == old(self)@.remove(path@),
            final(self).wf(),
            final(self).file_path() == old(self).file_path(),
    {
        let ghost before = self.records@;
        match self.index_of(path) {
            Some(i) => {
                proof {
                    lemma_entries_remove(before, i as int);
                }
                let _ = self.records.remove(i);
            },
            None => {
                assert(self@.remove(path@) =~= self@);
            },
        }
    }

    /// Remove one reviewed chunk of `path`, and its record when none is left.
    pub fn unmark_chunk(&mut self, path: &str, chunk: u64)
        requires
            old(self).wf(),
        ensures
            final(self)@ == unmark_chunk_in(old(self)@, path@, chunk),
            final(self).wf(),
            final(self).file_path() == old(self).file_path(),
    {
        let ghost before = self@;
        let mut record = match self.get(path) {
            Some(r) => r.clone(),
            None => {
                return;
            },
        };
        let chunks = copy_hashes(&record.reviewed_chunks);
        let mut left: Vec<u64> = Vec::new();
        let n = chunks.len();
        for i in 0..n
            invariant
                n == chunks@.len(),
                left@ == without_chunk(chunks@.take(i as int), chunk),
        {
            proof {
                crate::text::lemma_take_step(chunks@, i as int);
            }
            if chunks[i] != chunk {
                left.push(chunks[i]);
            }
        }
        assert(chunks@.take(n as int) =~= chunks@);
        record.reviewed_chunks = left;
        if record.reviewed_chunks.len() == 0 {
            self.unmark(path);
        } else {
            self.set(path, record);
        }
    }
}

/// `a` says nothing that `b` does not say.
pub open spec fn entries_within(
    a: Seq<(String, ReviewRecord)>,
    b: Seq<(String, ReviewRecord)>,
) -> bool {
    forall|i: int|
        0 <= i < a.len() ==> exists|j: int|
            0 <= j < b.len() && (#[trigger] a[i]).0@ == (#[trigger] b[j]).0@ && a[i].1@ == b[j].1@
}

/// Reviewed state survives a restart, in whatever order the file lists it: two
/// lists of entries with the same entries, one for each path, say the same.
pub proof fn law_entry_order_is_free(
    a: Seq<(String, ReviewRecord)>,
    b: Seq<(String, ReviewRecord)>,
)
    requires
        distinct(a),
        distinct(b),
        entries_within(a, b),
        entries_within(b, a),
    ensures
        entries_map(a) == entries_map(b),
{
    lemma_entries(a);
    lemma_entries(b);
    let x = entries_map(a);
    let y = entries_map(b);
    assert forall|p: Seq<char>| #[trigger] x.contains_key(p) == y.contains_key(p) && (
    x.contains_key(p) ==> x[p] == y[p]) by {
        if x.contains_key(p) {
            let i = choose|i: int| 0 <= i < a.len() && (#[trigger] a[i]).0@ == p;
            let j = choose|j: int|
                0 <= j < b.len() && a[i].0@ == (#[trigger] b[j]).0@ && a[i].1@ == b[j].1@;
            assert(y[b[j].0@] == b[j].1@);
        }
        if y.contains_key(p) {
            let j = choose|j: int| 0 <= j < b.len() && (#[trigger] b[j]).0@ == p;
            let i = choose|i: int|
                0 <= i < a.len() && b[j].0@ == (#[trigger] a[i]).0@ && b[j].1@ == a[i].1@;
            assert(x[a[i].0@] == a[i].1@);
        }
    }
    assert(x.dom() =~= y.dom());
    assert(x =~= y);
}

/// Marking a chunk and unmarking it again leaves no trace of it: it is not
/// reviewed, and every other chunk of every path is as before.
pub proof fn law_mark_unmark_chunk(
    records: Map<Seq<char>, RecordModel>,
    path: Seq<char>,
    whole: u64,
    chunk: u64,
    now: i64,
    other: u64,
)
    requires
        record_at(records, path) is None || !record_at(
            records,
            path,
        )->0.reviewed_chunks.contains(chunk),
        other != chunk,
    ensures
        ({
            let marked = records.insert(
                path,
                with_chunk(record_at(records, path), whole, chunk, now),
            );
            let back = unmark_chunk_in(marked, path, chunk);
            &&& crate::model::review::chunk_is_reviewed(record_at(marked, path), chunk)
            &&& !crate::model::review::chunk_is_reviewed(record_at(back, path), chunk)
            &&& crate::model::review::chunk_is_reviewed(record_at(back, path), other)
                == crate::model::review::chunk_is_reviewed(record_at(records, path), other)
            &&& forall|p: Seq<char>|
                p != path ==> #[trigger] record_at(back, p) == record_at(records, p)
        }),
{
    let had = match record_at(records, path) {
        Some(r) => r.reviewed_chunks,
        None => Seq::empty(),
    };
    let with = had.push(chunk);
    assert(with[had.len() as int] == chunk);
    lemma_without_chunk(with, chunk);
    let left = without_chunk(with, chunk);
    assert(!left.contains(chunk));
    assert(left.contains(other) == had.contains(other)) by {
        if had.contains(other) {
            let i = choose|i: int| 0 <= i < had.len() && had[i] == other;
            assert(with[i] == other);
        }
        if with.contains(other) {
            let i = choose|i: int| 0 <= i < with.len() && with[i] == other;
            assert(had[i] == other);
        }
    }
    if left.len() == 0 {
        assert(!had.contains(other)) by {
            if had.contains(other) {
                assert(left.contains(other));
            }
        }
    }
}

/// The set of hidden files, backed by a file under the git directory.
#[derive(Debug)]
pub struct HiddenStore {
    file: String,
    paths: Vec<String>,
}

impl View for HiddenStore {
    type V = Set<Seq<char>>;

    closed spec fn view(&self) -> Set<Seq<char>> {
        Set::new(|p: Seq<char>| strings(self.paths@).contains(p))
    }
}

/// Where `path` stands in `paths`, if it does.
pub fn index_of_path(paths: &Vec<String>, path: &str) -> (r: Option<usize>)
    ensures
        r is Some <==> strings(paths@).contains(path@),
        r is Some ==> r->0 < paths@.len() && paths@[r->0 as int]@ == path@,
{
    let n = paths.len();
    for i in 0..n
        invariant
            n == paths@.len(),
            forall|j: int| 0 <= j < i ==> strings(paths@)[j] != path@,
    {
        assert(strings(paths@)[i as int] == paths@[i as int]@);
        if same(paths[i].as_str(), path) {
            return Some(i);
        }
    }
    None
}

impl HiddenStore {
    /// No path is listed twice.
    pub closed spec fn wf(self) -> bool {
        strings(self.paths@).no_duplicates()
    }

    /// The file that the store is backed by.
    pub closed spec fn file_path(self) -> Seq<char> {
        self.file@
    }

    /// An empty store for `git_dir`.
    pub fn empty(git_dir: &str) -> (r: Self)
        ensures
            r@ == Set::<Seq<char>>::empty(),
            r.wf(),
            r.file_path() == hidden_file(git_dir@),
    {
        let file = path_join(path_join(git_dir, "hunkr").as_str(), "hidden.json");
        let r = HiddenStore { file, paths: Vec::new() };
        assert(r@ =~= Set::<Seq<char>>::empty());
        r
    }

    /// The store for `git_dir` with the paths that were read from its file.
    pub fn load(git_dir: &str, paths: &Vec<String>) -> (r: Self)
        ensures
            r@ == Set::new(|p: Seq<char>| strings(paths@).contains(p)),
            r.wf(),
            r.file_path() == hidden_file(git_dir@),
    {
        let mut store = HiddenStore::empty(git_dir);
        let n = paths.len();
        let ghost model = strings(paths@);
        for i in 0..n
            invariant
                n == paths@.len(),
                model == strings(paths@),
                forall|p: Seq<char>| #[trigger]
                    store@.contains(p) <==> model.take(i as int).contains(p),
                store.wf(),
                store.file_path() == hidden_file(git_dir@),
        {
            store.hide_path(paths[i].as_str());
            proof {
                crate::text::lemma_take_step(model, i as int);
                let was = model.take(i as int);
                assert(model[i as int] == paths@[i as int]@);
                assert forall|p: Seq<char>| #[trigger] store@.contains(p) <==> model.take(
                    i + 1,
                ).contains(p) by {
                    if was.push(model[i as int]).contains(p) {
                        let j = choose|j: int| 0 <= j < was.len() + 1 && was.push(model[i as int])[j] == p;
                        if j < was.len() {
                            assert(was[j] == p);
                        }
                    }
                    if was.contains(p) {
                        let j = choose|j: int| 0 <= j < was.len() && was[j] == p;
                        assert(was.push(model[i as int])[j] == p);
                    }
                    assert(was.push(model[i as int])[was.len() as int] == model[i as int]);
                }
            }
        }
        assert(model.take(n as int) =~= model);
        assert(store@ =~= Set::new(|p: Seq<char>| strings(paths@).contains(p)));
        store
    }

    /// The file that the store is backed by.
    pub fn file(&self) -> (r: &str)
        ensures
            r@ == self.file_path(),
    {
        self.file.as_str()
    }

    /// The hidden paths, to be written to the file.
    pub fn entries(&self) -> (r: &Vec<String>)
        ensures
            forall|p: Seq<char>| #[trigger] strings(r@).contains(p) <==> self@.contains(p),
    {
        &self.paths
    }

    /// Whether `path` is hidden.
    pub fn is_hidden(&self, path: &str) -> (r: bool)
        ensures
            r == self@.contains(path@),
    {
        index_of_path(&self.paths, path).is_some()
    }

    /// Hide `path`.
    pub fn hide_path(&mut self, path: &str)
        requires
            old(self).wf(),
        ensures
            final(self)@ == old(self)@.insert(path@),
            final(self).wf(),
            final(self).file_path() == old(self).file_path(),
    {
        let ghost before = strings(self.paths@);
        if index_of_path(&self.paths, path).is_none() {
            self.paths.push(path.to_owned());
            proof {
                let now = strings(self.paths@);
                assert(now =~= before.push(path@));
                assert forall|p: Seq<char>| now.contains(p) <==> before.contains(p) || p
                    == path@ by {
                    if now.contains(p) {
                        let i = choose|i: int| 0 <= i < now.len() && now[i] == p;
                        if i < before.len() {
                            assert(before[i] == p);
                        }
                    }
                    if before.contains(p) {
                        let i = choose|i: int| 0 <= i < before.len() && before[i] == p;
                        assert(now[i] == p);
                    }
                    assert(now[before.len() as int] == path@);
                }
            }
        }
        assert(self@ =~= old(self)@.insert(path@));
    }

    /// Show `path` again.
    pub fn unhide_path(&mut self, path: &str)
        requires
            old(self).wf(),
        ensures
            final(self)@ == old(self)@.remove(path@),
            final(self).wf(),
            final(self).file_path() == old(self).file_path(),
    {
        let ghost before = strings(self.paths@);
        if let Some(at) = index_of_path(&self.paths, path) {
            let _ = self.paths.remove(at);
            proof {
                let now = strings(self.paths@);
                assert(now =~= before.remove(at as int));
                assert(before[at as int] == path@);
                assert forall|p: Seq<char>| now.contains(p) <==> before.contains(p) && p
                    != path@ by {
                    if now.contains(p) {
                        let i = choose|i: int| 0 <= i < now.len() && now[i] == p;
                        let j = if i < at {
                            i
                        } else {
                            i + 1
                        };
                        assert(before[j] == p);
                        assert(before[j] != before[at as int]);
                    }
                    if before.contains(p) && p != path@ {
                        let j = choose|j: int| 0 <= j < before.len() && before[j] == p;
                        let i = if j < at {
                            j
                        } else {
                            j - 1
                        };
                        assert(now[i] == p);
                    }
                }
                assert forall|i: int, j: int|
                    0 <= i < now.len() && 0 <= j < now.len() && i != j implies now[i]
                    != now[j] by {
                    let oi = if i < at {
                        i
                    } else {
                        i + 1
                    };
                    let oj = if j < at {
                        j
                    } else {
                        j + 1
                    };
                    assert(before[oi] != before[oj]);
                }
            }
        }
        assert(self@ =~= old(self)@.remove(path@));
    }
}

/// Marking a chunk puts it on record, takes no other chunk off it and puts no other on
/// it; the record is that of the diff at hand, and of now.
pub proof fn law_mark_adds_one_chunk(
    record: Option<RecordModel>,
    whole: u64,
    chunk: u64,
    now: i64,
    h: u64,
)
    ensures
        ({
            let r = with_chunk(record, whole, chunk, now);
            &&& r.reviewed_hash == whole
            &&& r.reviewed_at == now
            &&& r.reviewed_chunks.contains(h) <==> h == chunk || (record is Some
                && record->0.reviewed_chunks.contains(h))
        }),
{
    let had = match record {
        Some(r) => r.reviewed_chunks,
        None => Seq::empty(),
    };
    let with = had.push(chunk);
    assert(with[had.len() as int] == chunk);
    if had.contains(h) {
        let i = choose|i: int| 0 <= i < had.len() && had[i] == h;
        assert(with[i] == h);
    }
    if with.contains(h) {
        let i = choose|i: int| 0 <= i < with.len() && with[i] == h;
        if i < had.len() {
            assert(had[i] == h);
        }
    }
}

/// Taking a chunk off the record of a path takes off that chunk alone. The record goes
/// with its last chunk, and the records of other paths stay.
pub proof fn law_unmark_takes_one_chunk(
    records: Map<Seq<char>, RecordModel>,
    path: Seq<char>,
    chunk: u64,
    h: u64,
    other: Seq<char>,
)
    ensures
        ({
            let next = unmark_chunk_in(records, path, chunk);
            let had = record_at(records, path);
            let has = record_at(next, path);
            &&& has is Some && has->0.reviewed_chunks.contains(h) <==> h != chunk && had is Some
                && had->0.reviewed_chunks.contains(h)
            &&& has is Some ==> had is Some && has->0.reviewed_hash == had->0.reviewed_hash
                && has->0.reviewed_at == had->0.reviewed_at && has->0.reviewed_chunks.len() > 0
            &&& other != path ==> record_at(next, other) == record_at(records, other)
        }),
{
    if records.contains_key(path) {
        lemma_without_chunk(records[path].reviewed_chunks, chunk);
        let left = without_chunk(records[path].reviewed_chunks, chunk);
        assert(left.contains(h) <==> records[path].reviewed_chunks.contains(h) && h != chunk);
    }
}

} // verus!
