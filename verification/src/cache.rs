//! A small LRU cache of parsed diffs, keyed by a cheap file signature.
//!
//! Selecting a file again reuses its parsed [`FileDiff`] instead of asking git
//! and parsing again. The cache is bounded so memory stays flat even across a
//! long session in a huge repository.
//!
//! The signature is `(mtime, size)` of the working-tree file. It is only trusted
//! for plain navigation; a reload bypasses the cache, so a change on disk can
//! never be masked by a coarse-resolution mtime.

use std::sync::Arc;

use vstd::hash_map::StringHashMap;
use vstd::prelude::*;

use crate::model::diff::{DiffModel, FileDiff};
use crate::text::{same, strings};

verus! {

/// Modification time in nanoseconds from the Unix epoch, and size in bytes.
pub type Signature = (i128, u64);

/// A second handle on the same value: `Arc::clone` of the standard library, which
/// points to the same allocation.
#[verifier::external_body]
pub(crate) fn share<T>(a: &Arc<T>) -> (r: Arc<T>)
    ensures
        r == *a,
{
    Arc::clone(a)
}

pub struct Entry {
    sig: Signature,
    diff: Arc<FileDiff>,
}

impl View for Entry {
    type V = (Signature, DiffModel);

    closed spec fn view(&self) -> (Signature, DiffModel) {
        (self.sig, self.diff@)
    }
}

pub struct DiffCache {
    entries: StringHashMap<Entry>,
    /// LRU order, least-recently-used at the front.
    order: Vec<String>,
    cap: usize,
}

/// A cache as a mathematical value.
#[verifier::ext_equal]
pub struct CacheModel {
    pub entries: Map<Seq<char>, (Signature, DiffModel)>,
    pub order: Seq<Seq<char>>,
    pub cap: nat,
}

impl View for DiffCache {
    type V = CacheModel;

    closed spec fn view(&self) -> CacheModel {
        CacheModel {
            entries: self.entries@.map_values(|e: Entry| e@),
            order: strings(self.order@),
            cap: self.cap as nat,
        }
    }
}

/// `order` with `path` moved to the end, where it is in it.
pub open spec fn touched(order: Seq<Seq<char>>, path: Seq<char>) -> Seq<Seq<char>> {
    if order.contains(path) {
        order.remove(order.index_of(path)).push(path)
    } else {
        order
    }
}

impl CacheModel {
    /// The order lists every cached path once, and no more paths than fit.
    pub open spec fn wf(self) -> bool {
        &&& self.cap >= 1
        &&& self.order.len() <= self.cap
        &&& self.order.no_duplicates()
        &&& forall|p: Seq<char>| #[trigger]
            self.entries.contains_key(p) <==> self.order.contains(p)
    }

    /// Whether a lookup finds something.
    pub open spec fn hits(self, path: Seq<char>, sig: Signature) -> bool {
        self.entries.contains_key(path) && self.entries[path].0 == sig
    }

    /// The cache after a lookup.
    pub open spec fn after_get(self, path: Seq<char>, sig: Signature) -> CacheModel {
        if self.hits(path, sig) {
            CacheModel { order: touched(self.order, path), ..self }
        } else {
            self
        }
    }

    /// The cache after an insertion: what is used least recently makes room.
    pub open spec fn after_put(
        self,
        path: Seq<char>,
        sig: Signature,
        diff: DiffModel,
    ) -> CacheModel {
        if self.entries.contains_key(path) {
            CacheModel {
                entries: self.entries.insert(path, (sig, diff)),
                order: touched(self.order, path),
                cap: self.cap,
            }
        } else if self.order.len() < self.cap {
            CacheModel {
                entries: self.entries.insert(path, (sig, diff)),
                order: self.order.push(path),
                cap: self.cap,
            }
        } else {
            CacheModel {
                entries: self.entries.remove(self.order[0]).insert(path, (sig, diff)),
                order: self.order.push(path).skip(1),
                cap: self.cap,
            }
        }
    }
}

/// Touching keeps the paths of an order.
proof fn lemma_touched(order: Seq<Seq<char>>, path: Seq<char>)
    requires
        order.no_duplicates(),
        order.contains(path),
    ensures
        touched(order, path).no_duplicates(),
        touched(order, path).len() == order.len(),
        forall|p: Seq<char>| #[trigger] touched(order, path).contains(p) <==> order.contains(p),
{
    let at = order.index_of(path);
    let t = touched(order, path);
    let n = order.len() as int;
    assert(order[at] == path);
    assert forall|i: int| 0 <= i < n implies t[i] == if i < at {
        order[i]
    } else if i < n - 1 {
        order[i + 1]
    } else {
        path
    } by {}
    assert forall|p: Seq<char>| #[trigger] t.contains(p) implies order.contains(p) by {
        let i = choose|i: int| 0 <= i < t.len() && t[i] == p;
        let j = if i < at {
            i
        } else if i < n - 1 {
            i + 1
        } else {
            at
        };
        assert(order[j] == p);
    }
    assert forall|p: Seq<char>| order.contains(p) implies #[trigger] t.contains(p) by {
        let j = choose|j: int| 0 <= j < n && order[j] == p;
        let i = if j < at {
            j
        } else if j > at {
            j - 1
        } else {
            n - 1
        };
        assert(t[i] == p);
    }
    assert forall|i: int, j: int| 0 <= i < t.len() && 0 <= j < t.len() && i != j implies t[i]
        != t[j] by {
        let oi = if i < at {
            i
        } else if i < n - 1 {
            i + 1
        } else {
            at
        };
        let oj = if j < at {
            j
        } else if j < n - 1 {
            j + 1
        } else {
            at
        };
        assert(order[oi] != order[oj]);
    }
}

impl DiffCache {
    /// An empty cache for at most `cap` diffs (at least one).
    pub fn new(cap: usize) -> (r: Self)
        ensures
            r@.entries == Map::<Seq<char>, (Signature, DiffModel)>::empty(),
            r@.order == Seq::<Seq<char>>::empty(),
            r@.cap == if cap >= 1 {
                cap as nat
            } else {
                1
            },
            r@.wf(),
    {
        let r = DiffCache {
            entries: StringHashMap::new(),
            order: Vec::new(),
            cap: if cap >= 1 {
                cap
            } else {
                1
            },
        };
        assert(r@.entries =~= Map::<Seq<char>, (Signature, DiffModel)>::empty());
        assert(r@.order =~= Seq::<Seq<char>>::empty());
        r
    }

    /// Return the cached diff for `path` if present and its signature matches.
    pub fn get(&mut self, path: &str, sig: Signature) -> (r: Option<Arc<FileDiff>>)
        requires
            old(self)@.wf(),
        ensures
            r is Some <==> old(self)@.hits(path@, sig),
            r is Some ==> r->0@ == old(self)@.entries[path@].1,
            final(self)@ == old(self)@.after_get(path@, sig),
            final(self)@.wf(),
    {
        let hit = match self.entries.get(path) {
            Some(e) => {
                if e.sig.0 == sig.0 && e.sig.1 == sig.1 {
                    Some(share(&e.diff))
                } else {
                    None
                }
            },
            None => None,
        };
        if hit.is_some() {
            self.touch(path);
        }
        hit
    }

    /// Insert/replace the diff for `path`, evicting the least recently used
    /// entry where the cache is full.
    pub fn put(&mut self, path: String, sig: Signature, diff: Arc<FileDiff>)
        requires
            old(self)@.wf(),
        ensures
            final(self)@ == old(self)@.after_put(path@, sig, diff@),
            final(self)@.wf(),
    {
        let ghost before = self@;
        if self.entries.contains_key(path.as_str()) {
            self.touch(path.as_str());
        } else {
            if self.order.len() == self.cap {
                let evict = self.order.remove(0);
                assert(evict@ == before.order[0]);
                self.entries.remove(evict.as_str());
                assert(self@.entries =~= before.entries.remove(evict@));
            }
            self.order.push(path.clone());
            proof {
                let order = before.order;
                let now = self@.order;
                assert(!order.contains(path@)) by {
                    assert(!before.entries.contains_key(path@));
                }
                if order.len() == before.cap {
                    assert(now =~= order.push(path@).skip(1));
                    assert forall|p: Seq<char>| #[trigger] now.contains(p) <==> (p == path@
                        || order.contains(p) && p != order[0]) by {
                        if now.contains(p) {
                            let i = choose|i: int| 0 <= i < now.len() && now[i] == p;
                            if i < order.len() - 1 {
                                assert(order[i + 1] == p);
                            }
                        }
                        if order.contains(p) && p != order[0] {
                            let i = choose|i: int| 0 <= i < order.len() && order[i] == p;
                            assert(now[i - 1] == p);
                        }
                        if p == path@ {
                            assert(now[now.len() - 1] == p);
                        }
                    }
                } else {
                    assert(now =~= order.push(path@));
                    assert forall|p: Seq<char>| #[trigger] now.contains(p) <==> (p == path@
                        || order.contains(p)) by {
                        if now.contains(p) {
                            let i = choose|i: int| 0 <= i < now.len() && now[i] == p;
                            if i < order.len() {
                                assert(order[i] == p);
                            }
                        }
                        if order.contains(p) {
                            let i = choose|i: int| 0 <= i < order.len() && order[i] == p;
                            assert(now[i] == p);
                        }
                        if p == path@ {
                            assert(now[now.len() - 1] == p);
                        }
                    }
                }
                assert(now.no_duplicates());
            }
        }
        let ghost mid = self@;
        let entry = Entry { sig, diff };
        let ghost view = entry@;
        self.entries.insert(path, entry);
        assert(self@.entries =~= mid.entries.insert(path@, view));
        proof {
            let now = self@;
            assert(now.order == mid.order);
            assert forall|p: Seq<char>| #[trigger] now.entries.contains_key(p)
                <==> now.order.contains(p) by {
                assert(now.entries.contains_key(p) <==> p == path@ || mid.entries.contains_key(p));
                assert(mid.entries.contains_key(p) ==> before.entries.contains_key(p));
                assert(before.entries.contains_key(p) <==> before.order.contains(p));
            }
        }
    }

    fn touch(&mut self, path: &str)
        requires
            old(self)@.wf(),
        ensures
            final(self)@ == (CacheModel { order: touched(old(self)@.order, path@), ..old(self)@ }),
            final(self)@.wf(),
    {
        let n = self.order.len();
        let ghost before = self@;
        let mut at: usize = n;
        for i in 0..n
            invariant
                n == self.order@.len(),
                at == n || at < i,
                self@ == before,
                at == n ==> forall|j: int| 0 <= j < i ==> self@.order[j] != path@,
                at < n ==> self@.order[at as int] == path@,
        {
            assert(self@.order[i as int] == self.order@[i as int]@);
            if at == n && same(self.order[i].as_str(), path) {
                at = i;
            }
        }
        if at < n {
            proof {
                assert(before.order.contains(path@));
                let first = before.order.index_of(path@);
                assert(before.order[first] == path@);
                assert(first == at);
                lemma_touched(before.order, path@);
            }
            let p = self.order.remove(at);
            assert(p@ == path@);
            self.order.push(p);
            assert(self@.order =~= touched(before.order, path@));
        } else {
            assert(!before.order.contains(path@));
        }
    }
}

/// A diff that was put in is found under its signature and under no other, and
/// nothing else leaves the cache but, when it is full, the path that was used
/// least recently.
pub proof fn law_put_then_get(
    cache: CacheModel,
    path: Seq<char>,
    sig: Signature,
    diff: DiffModel,
    other: Seq<char>,
)
    requires
        cache.wf(),
    ensures
        ({
            let next = cache.after_put(path, sig, diff);
            &&& next.hits(path, sig)
            &&& next.entries[path].1 == diff
            &&& forall|s: Signature| #[trigger] next.hits(path, s) ==> s == sig
            &&& next.order.len() <= next.cap
            &&& next.order.last() == path
            &&& cache.entries.contains_key(other) && other != path && !(cache.order.len()
                == cache.cap && !cache.entries.contains_key(path) && other == cache.order[0])
                ==> next.entries.contains_key(other) && next.entries[other]
                == cache.entries[other]
        }),
{
    if cache.entries.contains_key(path) {
        lemma_touched(cache.order, path);
    }
}

/// A lookup takes nothing out of the cache; one that finds something makes its path the
/// one that leaves last, and keeps the others in their order.
pub proof fn law_get_keeps(cache: CacheModel, path: Seq<char>, sig: Signature, i: int, j: int)
    requires
        cache.wf(),
        0 <= i < j < cache.order.len(),
        cache.order[i] != path,
        cache.order[j] != path,
    ensures
        ({
            let next = cache.after_get(path, sig);
            &&& next.entries == cache.entries
            &&& next.cap == cache.cap
            &&& next.order.len() == cache.order.len()
            &&& cache.hits(path, sig) ==> next.order.last() == path
            &&& !cache.hits(path, sig) ==> next.order == cache.order
            &&& next.order.index_of(cache.order[i]) < next.order.index_of(cache.order[j])
        }),
{
    let next = cache.after_get(path, sig);
    let order = cache.order;
    if cache.hits(path, sig) {
        lemma_touched(order, path);
        let at = order.index_of(path);
        assert(order[at] == path);
        let x = if i < at {
            i
        } else {
            i - 1
        };
        let y = if j < at {
            j
        } else {
            j - 1
        };
        assert(next.order[x] == order[i]);
        assert(next.order[y] == order[j]);
        lemma_place(next.order, x);
        lemma_place(next.order, y);
    } else {
        lemma_place(order, i);
        lemma_place(order, j);
    }
}

proof fn lemma_place(order: Seq<Seq<char>>, i: int)
    requires
        order.no_duplicates(),
        0 <= i < order.len(),
    ensures
        order.index_of(order[i]) == i,
{
    assert(order.contains(order[i]));
    let k = order.index_of(order[i]);
    assert(order[k] == order[i]);
}

} // verus!
