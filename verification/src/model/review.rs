//! Reviewed-state model.
//!
//! Reviewed status is tied to a diff's content hash, not a name. Review is
//! tracked per chunk: a record stores the content hash of every chunk the user
//! marked reviewed. Status is derived by comparing those against the file's
//! current chunk hashes, so a chunk that changes again falls back to unreviewed,
//! and only that chunk, not the whole file. Files with no chunks (binary,
//! mode-only) fall back to a whole-diff hash comparison.

use vstd::prelude::*;

use crate::text::lemma_take_step;

verus! {

#[derive(Debug, Clone, Copy, PartialEq, Eq, Structural)]
pub enum ReviewStatus {
    /// No record, or the file has changed since the user marked it.
    Unreviewed,
    /// Reviewed and the diff still matches.
    Reviewed,
}

/// What the user marked: the whole-diff hash at review time (for binary and
/// no-chunk files), the content hashes of reviewed chunks, plus when.
#[derive(Debug)]
pub struct ReviewRecord {
    pub reviewed_hash: u64,
    pub reviewed_at: i64,
    /// Content hashes of the chunks the user has marked reviewed.
    pub reviewed_chunks: Vec<u64>,
}

/// Current hashes for one file's diff: the whole-diff hash plus a content hash
/// per chunk, in order.
#[derive(Debug)]
pub struct FileHashes {
    pub whole: u64,
    pub chunks: Vec<u64>,
}

/// A review record as a mathematical value.
#[verifier::ext_equal]
pub struct RecordModel {
    pub reviewed_hash: u64,
    pub reviewed_at: i64,
    pub reviewed_chunks: Seq<u64>,
}

/// A file's hashes as a mathematical value.
#[verifier::ext_equal]
pub struct HashesModel {
    pub whole: u64,
    pub chunks: Seq<u64>,
}

impl View for ReviewRecord {
    type V = RecordModel;

    open spec fn view(&self) -> RecordModel {
        RecordModel {
            reviewed_hash: self.reviewed_hash,
            reviewed_at: self.reviewed_at,
            reviewed_chunks: self.reviewed_chunks@,
        }
    }
}

impl View for FileHashes {
    type V = HashesModel;

    open spec fn view(&self) -> HashesModel {
        HashesModel { whole: self.whole, chunks: self.chunks@ }
    }
}

/// A copy of `v`.
pub fn copy_hashes(v: &Vec<u64>) -> (r: Vec<u64>)
    ensures
        r@ == v@,
{
    let mut out: Vec<u64> = Vec::new();
    let n = v.len();
    for i in 0..n
        invariant
            n == v@.len(),
            out@ == v@.take(i as int),
    {
        out.push(v[i]);
        proof {
            lemma_take_step(v@, i as int);
        }
    }
    assert(v@.take(n as int) =~= v@);
    out
}

impl Clone for ReviewRecord {
    fn clone(&self) -> (r: Self)
        ensures
            r@ == self@,
    {
        ReviewRecord {
            reviewed_hash: self.reviewed_hash,
            reviewed_at: self.reviewed_at,
            reviewed_chunks: copy_hashes(&self.reviewed_chunks),
        }
    }
}

impl Clone for FileHashes {
    fn clone(&self) -> (r: Self)
        ensures
            r@ == self@,
    {
        FileHashes { whole: self.whole, chunks: copy_hashes(&self.chunks) }
    }
}

impl Default for FileHashes {
    fn default() -> (r: Self)
        ensures
            r@ == (HashesModel { whole: 0, chunks: Seq::empty() }),
    {
        FileHashes { whole: 0, chunks: Vec::new() }
    }
}

/// The value behind an optional record.
pub open spec fn record_model(record: Option<&ReviewRecord>) -> Option<RecordModel> {
    match record {
        Some(r) => Some(r@),
        None => None,
    }
}

/// The value behind optional hashes.
pub open spec fn hashes_model_of(hashes: Option<&FileHashes>) -> Option<HashesModel> {
    match hashes {
        Some(h) => Some(h@),
        None => None,
    }
}

/// A chunk is reviewed when its content hash is on record.
pub open spec fn chunk_is_reviewed(record: Option<RecordModel>, chunk_hash: u64) -> bool {
    record is Some && record->0.reviewed_chunks.contains(chunk_hash)
}

/// A file with chunks is reviewed when every current chunk is; a file with none
/// when its whole diff is the one that was reviewed.
pub open spec fn file_is_reviewed(
    record: Option<RecordModel>,
    hashes: Option<HashesModel>,
) -> bool {
    &&& record is Some
    &&& hashes is Some
    &&& if hashes->0.chunks.len() == 0 {
        record->0.reviewed_hash == hashes->0.whole
    } else {
        forall|i: int|
            0 <= i < hashes->0.chunks.len() ==> chunk_is_reviewed(
                record,
                #[trigger] hashes->0.chunks[i],
            )
    }
}

pub open spec fn status_of(
    record: Option<RecordModel>,
    hashes: Option<HashesModel>,
) -> ReviewStatus {
    if file_is_reviewed(record, hashes) {
        ReviewStatus::Reviewed
    } else {
        ReviewStatus::Unreviewed
    }
}

/// The number of chunks among `chunks` that are reviewed.
pub open spec fn count_reviewed(record: Option<RecordModel>, chunks: Seq<u64>) -> nat
    decreases chunks.len(),
{
    if chunks.len() == 0 {
        0
    } else {
        count_reviewed(record, chunks.drop_last()) + if chunk_is_reviewed(record, chunks.last()) {
            1nat
        } else {
            0nat
        }
    }
}

/// The number of the file's current chunks that are reviewed.
pub open spec fn reviewed_count_of(
    record: Option<RecordModel>,
    hashes: Option<HashesModel>,
) -> nat {
    match hashes {
        Some(h) => count_reviewed(record, h.chunks),
        None => 0,
    }
}

/// Where `x` stands in `v`, if it does.
pub fn index_of_hash(v: &Vec<u64>, x: u64) -> (r: Option<usize>)
    ensures
        r is Some <==> v@.contains(x),
        r is Some ==> r->0 < v@.len() && v@[r->0 as int] == x,
        r is Some ==> forall|j: int| 0 <= j < r->0 ==> v@[j] != x,
{
    let n = v.len();
    for i in 0..n
        invariant
            n == v@.len(),
            forall|j: int| 0 <= j < i ==> v@[j] != x,
    {
        if v[i] == x {
            assert(v@[i as int] == x);
            return Some(i);
        }
    }
    None
}

/// Whether a single chunk (by content hash) is marked reviewed.
pub fn chunk_reviewed(record: Option<&ReviewRecord>, chunk_hash: u64) -> (r: bool)
    ensures
        r == chunk_is_reviewed(record_model(record), chunk_hash),
{
    match record {
        Some(r) => index_of_hash(&r.reviewed_chunks, chunk_hash).is_some(),
        None => false,
    }
}

/// How many of the file's current chunks are reviewed (for the sidebar `n/m`).
pub fn reviewed_chunk_count(
    record: Option<&ReviewRecord>,
    hashes: Option<&FileHashes>,
) -> (r: usize)
    ensures
        r == reviewed_count_of(record_model(record), hashes_model_of(hashes)),
        hashes is Some ==> r <= hashes->0@.chunks.len(),
{
    match hashes {
        Some(h) => {
            let mut count: usize = 0;
            let n = h.chunks.len();
            for i in 0..n
                invariant
                    n == h.chunks@.len(),
                    count <= i,
                    count == count_reviewed(record_model(record), h.chunks@.take(i as int)),
            {
                proof {
                    lemma_take_step(h.chunks@, i as int);
                }
                if chunk_reviewed(record, h.chunks[i]) {
                    count += 1;
                }
            }
            assert(h.chunks@.take(n as int) =~= h.chunks@);
            count
        },
        None => 0,
    }
}

/// Derive a file's display status from its record (if any) and current hashes
/// (if known). A file with chunks reads as reviewed only when every current
/// chunk hash is in the reviewed set; a file with no chunks falls back to a
/// whole-diff hash match.
pub fn derive_file(
    record: Option<&ReviewRecord>,
    hashes: Option<&FileHashes>,
) -> (r: ReviewStatus)
    ensures
        r == status_of(record_model(record), hashes_model_of(hashes)),
{
    match (record, hashes) {
        (Some(rec), Some(h)) => {
            if h.chunks.len() == 0 {
                if rec.reviewed_hash == h.whole {
                    return ReviewStatus::Reviewed;
                }
                return ReviewStatus::Unreviewed;
            }
            let n = h.chunks.len();
            for i in 0..n
                invariant
                    n == h.chunks@.len(),
                    n > 0,
                    record == Some(rec),
                    hashes == Some(h),
                    forall|j: int|
                        0 <= j < i ==> chunk_is_reviewed(
                            record_model(record),
                            #[trigger] h.chunks@[j],
                        ),
            {
                if !chunk_reviewed(record, h.chunks[i]) {
                    assert(!chunk_is_reviewed(record_model(record), h@.chunks[i as int]));
                    return ReviewStatus::Unreviewed;
                }
            }
            ReviewStatus::Reviewed
        },
        _ => ReviewStatus::Unreviewed,
    }
}

/// A count of reviewed chunks is the number of chunks exactly when each of them
/// is reviewed.
proof fn lemma_count_reviewed(record: Option<RecordModel>, chunks: Seq<u64>)
    ensures
        count_reviewed(record, chunks) <= chunks.len(),
        count_reviewed(record, chunks) == chunks.len() <==> (forall|i: int|
            0 <= i < chunks.len() ==> chunk_is_reviewed(record, #[trigger] chunks[i])),
    decreases chunks.len(),
{
    if chunks.len() > 0 {
        let head = chunks.drop_last();
        lemma_count_reviewed(record, head);
        if forall|i: int| 0 <= i < chunks.len() ==> chunk_is_reviewed(record, #[trigger] chunks[i]) {
            assert forall|i: int| 0 <= i < head.len() implies chunk_is_reviewed(
                record,
                #[trigger] head[i],
            ) by {
                assert(head[i] == chunks[i]);
            }
            assert(chunk_is_reviewed(record, chunks[chunks.len() - 1]));
        }
        if count_reviewed(record, chunks) == chunks.len() {
            assert forall|i: int| 0 <= i < chunks.len() implies chunk_is_reviewed(
                record,
                #[trigger] chunks[i],
            ) by {
                if i < head.len() {
                    assert(head[i] == chunks[i]);
                }
            }
        }
    }
}

/// A file with chunks is reviewed exactly when all its chunks count as reviewed.
pub proof fn law_reviewed_iff_all_chunks(record: Option<RecordModel>, hashes: HashesModel)
    requires
        hashes.chunks.len() > 0,
    ensures
        status_of(record, Some(hashes)) == ReviewStatus::Reviewed <==> reviewed_count_of(
            record,
            Some(hashes),
        ) == hashes.chunks.len(),
{
    lemma_count_reviewed(record, hashes.chunks);
    if reviewed_count_of(record, Some(hashes)) == hashes.chunks.len() {
        assert(chunk_is_reviewed(record, hashes.chunks[0]));
    }
}

proof fn lemma_count_update(record: Option<RecordModel>, chunks: Seq<u64>, i: int, hash: u64)
    requires
        0 <= i < chunks.len(),
    ensures
        count_reviewed(record, chunks.update(i, hash)) + (if chunk_is_reviewed(record, chunks[i]) {
            1nat
        } else {
            0nat
        }) == count_reviewed(record, chunks) + (if chunk_is_reviewed(record, hash) {
            1nat
        } else {
            0nat
        }),
    decreases chunks.len(),
{
    let next = chunks.update(i, hash);
    if i == chunks.len() - 1 {
        assert(next.drop_last() =~= chunks.drop_last());
    } else {
        assert(next.drop_last() =~= chunks.drop_last().update(i, hash));
        lemma_count_update(record, chunks.drop_last(), i, hash);
    }
}

/// When one chunk of a file changes to content that was not reviewed, the file
/// is unreviewed, that chunk no longer counts, and every other chunk keeps its
/// state.
pub proof fn law_changed_chunk_reverts(
    record: Option<RecordModel>,
    hashes: HashesModel,
    i: int,
    hash: u64,
)
    requires
        0 <= i < hashes.chunks.len(),
        !chunk_is_reviewed(record, hash),
    ensures
        ({
            let now = HashesModel { whole: hashes.whole, chunks: hashes.chunks.update(i, hash) };
            &&& status_of(record, Some(now)) == ReviewStatus::Unreviewed
            &&& reviewed_count_of(record, Some(hashes)) == reviewed_count_of(record, Some(now)) + (
            if chunk_is_reviewed(record, hashes.chunks[i]) {
                1nat
            } else {
                0nat
            })
            &&& forall|j: int|
                0 <= j < hashes.chunks.len() && j != i ==> chunk_is_reviewed(
                    record,
                    #[trigger] now.chunks[j],
                ) == chunk_is_reviewed(record, hashes.chunks[j])
        }),
{
    let now = HashesModel { whole: hashes.whole, chunks: hashes.chunks.update(i, hash) };
    lemma_count_update(record, hashes.chunks, i, hash);
    assert(!chunk_is_reviewed(record, now.chunks[i]));
}

/// The count of reviewed chunks counts each current chunk whose hash is on record.
pub proof fn law_count_is_of_recorded_chunks(record: RecordModel, chunks: Seq<u64>)
    ensures
        count_reviewed(Some(record), chunks) == chunks.filter(
            |h: u64| record.reviewed_chunks.contains(h),
        ).len(),
        count_reviewed(None, chunks) == 0,
    decreases chunks.len(),
{
    reveal(Seq::filter);
    if chunks.len() > 0 {
        law_count_is_of_recorded_chunks(record, chunks.drop_last());
    }
}

/// A file without chunks is reviewed exactly while its diff is the one on record; one
/// without a record, or whose diff is not known, is not reviewed.
pub proof fn law_status_without_chunks(record: RecordModel, whole: u64, hashes: HashesModel)
    ensures
        status_of(
            Some(record),
            Some(HashesModel { whole, chunks: Seq::empty() }),
        ) == ReviewStatus::Reviewed <==> record.reviewed_hash == whole,
        status_of(None, Some(hashes)) == ReviewStatus::Unreviewed,
        status_of(Some(record), None) == ReviewStatus::Unreviewed,
{
}

} // verus!
