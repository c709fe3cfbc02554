//! The index of the transcoded-artifact cache: committed entries with
//! their sizes and last access times, the artifacts still being written,
//! and the two limits on the number of files and on their total size.
//!
//! The index decides; the files themselves are written, renamed and
//! deleted by its caller, which names a file by the id the index gives it.
use vstd::prelude::*;
use crate::text::{key_le, lemma_key_le_total, lemma_key_le_trans, str_eq, str_le};

verus! {

/// A committed artifact.
#[derive(Debug)]
pub struct CacheEntry {
    /// The fingerprint the artifact is stored under.
    pub key: String,
    /// Its size in bytes.
    pub size: u64,
    /// When it was last committed or read, in seconds.
    pub last_access: u64,
    /// The id that names its file.
    pub file_id: u64,
}

/// An artifact being written, not yet visible to readers.
#[derive(Debug)]
pub struct PendingEntry {
    pub key: String,
    pub file_id: u64,
}

/// The handle of an artifact being written: it publishes the artifact or
/// gives it up.
#[derive(Debug)]
pub struct Finisher {
    /// The fingerprint the artifact is written under.
    pub key: String,
    /// The id that names its file.
    pub file_id: u64,
}

/// Why a cache operation was refused.
#[derive(Clone, Copy, Debug, PartialEq, Eq, Structural)]
pub enum CacheError {
    /// A limit of the cache is zero.
    LimitMisconfigured,
    /// An artifact with this fingerprint is already being written.
    AlreadyPending,
    /// No artifact with this fingerprint is being written.
    NotPending,
    /// Every file id has been handed out.
    IdsExhausted,
}

/// Total size of the entries.
pub open spec fn total_size(s: Seq<CacheEntry>) -> nat
    decreases s.len(),
{
    if s.len() == 0 {
        0
    } else {
        total_size(s.drop_last()) + s.last().size as nat
    }
}

/// Whether entry `e` goes before entry `f` in eviction order: least
/// recently used first, ties broken by fingerprint.
pub open spec fn evicted_before(e: CacheEntry, f: CacheEntry) -> bool {
    e.last_access < f.last_access || (e.last_access == f.last_access && key_le(e.key@, f.key@))
}

/// Whether an entry with fingerprint `k` is in `s`.
pub open spec fn has_key(s: Seq<CacheEntry>, k: Seq<char>) -> bool {
    exists|i: int| 0 <= i < s.len() && (#[trigger] s[i]).key@ == k
}

/// Whether an artifact with fingerprint `k` is being written.
pub open spec fn is_pending(s: Seq<PendingEntry>, k: Seq<char>) -> bool {
    exists|i: int| 0 <= i < s.len() && (#[trigger] s[i]).key@ == k
}

pub open spec fn keys_unique(s: Seq<CacheEntry>) -> bool {
    forall|i: int, j: int| 0 <= i < s.len() && 0 <= j < s.len() && i != j ==> (#[trigger] s[i]).key@ != (#[trigger] s[j]).key@
}

pub open spec fn pending_unique(s: Seq<PendingEntry>) -> bool {
    forall|i: int, j: int| 0 <= i < s.len() && 0 <= j < s.len() && i != j ==> (#[trigger] s[i]).key@ != (#[trigger] s[j]).key@
}

proof fn lemma_total_remove(s: Seq<CacheEntry>, i: int)
    requires
        0 <= i < s.len(),
    ensures
        total_size(s.remove(i)) + s[i].size == total_size(s),
    decreases s.len(),
{
    if i == s.len() - 1 {
        assert(s.remove(i) =~= s.drop_last());
    } else {
        lemma_total_remove(s.drop_last(), i);
        assert(s.remove(i).drop_last() =~= s.drop_last().remove(i));
        assert(s.remove(i).last() == s.last());
    }
}

proof fn lemma_total_update(s: Seq<CacheEntry>, i: int, e: CacheEntry)
    requires
        0 <= i < s.len(),
        e.size == s[i].size,
    ensures
        total_size(s.update(i, e)) == total_size(s),
    decreases s.len(),
{
    if i < s.len() - 1 {
        lemma_total_update(s.drop_last(), i, e);
        assert(s.update(i, e).drop_last() =~= s.drop_last().update(i, e));
    } else {
        assert(s.update(i, e).drop_last() =~= s.drop_last());
    }
}

/// The entry to evict first.
fn lru_index(s: &Vec<CacheEntry>) -> (r: usize)
    requires
        s@.len() > 0,
    ensures
        r < s@.len(),
        forall|j: int| 0 <= j < s@.len() ==> evicted_before(s@[r as int], #[trigger] s@[j]),
{
    let mut best: usize = 0;
    let mut i: usize = 1;
    proof {
        lemma_key_le_total(s@[0].key@, s@[0].key@);
    }
    while i < s.len()
        invariant
            1 <= i <= s@.len(),
            best < i,
            forall|j: int| 0 <= j < i ==> evicted_before(s@[best as int], #[trigger] s@[j]),
        decreases s@.len() - i,
    {
        let b = &s[best];
        let c = &s[i];
        if c.last_access < b.last_access || (c.last_access == b.last_access && str_le(c.key.as_str(), b.key.as_str())) {
            proof {
                lemma_key_le_total(c.key@, c.key@);
                assert forall|j: int| 0 <= j < i + 1 implies evicted_before(s@[i as int], #[trigger] s@[j]) by {
                    if j < i {
                        if c.last_access == b.last_access && b.last_access == s@[j].last_access {
                            lemma_key_le_trans(c.key@, b.key@, s@[j].key@);
                        }
                    }
                }
            }
            best = i;
        } else {
            proof {
                lemma_key_le_total(c.key@, b.key@);
            }
        }
        i = i + 1;
    }
    best
}

/// The index of the cache.
#[derive(Debug)]
pub struct CacheIndex {
    entries: Vec<CacheEntry>,
    pending: Vec<PendingEntry>,
    bytes: u64,
    max_files: u64,
    max_bytes: u64,
    next_id: u64,
}

impl CacheIndex {
    /// The committed entries.
    pub closed spec fn entries(&self) -> Seq<CacheEntry> {
        self.entries@
    }

    /// The artifacts being written.
    pub closed spec fn pending(&self) -> Seq<PendingEntry> {
        self.pending@
    }

    /// The running total of the committed sizes.
    pub closed spec fn bytes(&self) -> nat {
        self.bytes as nat
    }

    pub closed spec fn max_files(&self) -> nat {
        self.max_files as nat
    }

    pub closed spec fn max_bytes(&self) -> nat {
        self.max_bytes as nat
    }

    /// The id the next artifact's file gets.
    pub closed spec fn next_id(&self) -> nat {
        self.next_id as nat
    }

    /// The invariants of the index: the running total is the sum of the
    /// committed sizes; the number of entries and the total stay within the
    /// limits, which are not zero; fingerprints are unique among committed
    /// entries and among pending ones; every id handed out is below the next.
    pub open spec fn wf(&self) -> bool {
        &&& total_size(self.entries()) == self.bytes()
        &&& self.entries().len() <= self.max_files()
        &&& self.bytes() <= self.max_bytes()
        &&& self.max_files() > 0
        &&& self.max_bytes() > 0
        &&& keys_unique(self.entries())
        &&& pending_unique(self.pending())
        &&& forall|i: int| 0 <= i < self.entries().len() ==> (#[trigger] self.entries()[i]).file_id < self.next_id()
        &&& forall|i: int| 0 <= i < self.pending().len() ==> (#[trigger] self.pending()[i]).file_id < self.next_id()
    }

    /// An empty index with the given limits; both must be above zero.
    pub fn new(max_files: u64, max_bytes: u64) -> (r: Result<CacheIndex, CacheError>)
        ensures
            match r {
                Ok(c) => {
                    &&& max_files > 0 && max_bytes > 0
                    &&& c.wf()
                    &&& c.entries().len() == 0
                    &&& c.pending().len() == 0
                    &&& c.max_files() == max_files
                    &&& c.max_bytes() == max_bytes
                    &&& c.next_id() == 0
                },
                Err(e) => (max_files == 0 || max_bytes == 0) && e == CacheError::LimitMisconfigured,
            },
    {
        if max_files == 0 || max_bytes == 0 {
            return Err(CacheError::LimitMisconfigured);
        }
        Ok(CacheIndex { entries: Vec::new(), pending: Vec::new(), bytes: 0, max_files, max_bytes, next_id: 0 })
    }

    /// Number of committed entries.
    pub fn len(&self) -> (r: usize)
        ensures
            r == self.entries().len(),
    {
        self.entries.len()
    }

    /// Total size of the committed entries.
    pub fn total_bytes(&self) -> (r: u64)
        ensures
            r == self.bytes(),
    {
        self.bytes
    }

    /// The committed entries.
    pub fn entries_list(&self) -> (r: &Vec<CacheEntry>)
        ensures
            r@ == self.entries(),
    {
        &self.entries
    }

    /// How many more files and bytes fit within the limits.
    pub fn free_capacity(&self) -> (r: (u64, u64))
        requires
            self.wf(),
        ensures
            r.0 == self.max_files() - self.entries().len(),
            r.1 == self.max_bytes() - self.bytes(),
    {
        (self.max_files - self.entries.len() as u64, self.max_bytes - self.bytes)
    }

    /// Position of the committed entry with fingerprint `key`.
    fn find_entry(&self, key: &str) -> (r: Option<usize>)
        ensures
            match r {
                Some(i) => i < self.entries().len() && self.entries()[i as int].key@ == key@,
                None => !has_key(self.entries(), key@),
            },
    {
        let mut i: usize = 0;
        while i < self.entries.len()
            invariant
                i <= self.entries@.len(),
                forall|j: int| 0 <= j < i ==> (#[trigger] self.entries@[j]).key@ != key@,
            decreases self.entries@.len() - i,
        {
            if str_eq(self.entries[i].key.as_str(), key) {
                return Some(i);
            }
            i = i + 1;
        }
        None
    }

    /// Position of the pending entry with fingerprint `key`.
    fn find_pending(&self, key: &str) -> (r: Option<usize>)
        ensures
            match r {
                Some(i) => i < self.pending().len() && self.pending()[i as int].key@ == key@,
                None => !is_pending(self.pending(), key@),
            },
    {
        let mut i: usize = 0;
        while i < self.pending.len()
            invariant
                i <= self.pending@.len(),
                forall|j: int| 0 <= j < i ==> (#[trigger] self.pending@[j]).key@ != key@,
            decreases self.pending@.len() - i,
        {
            if str_eq(self.pending[i].key.as_str(), key) {
                return Some(i);
            }
            i = i + 1;
        }
        None
    }

    /// Starts writing an artifact under `key` and returns its finisher,
    /// which holds the id that names its file. Refused when one is already
    /// being written under `key`.
    pub fn add(&mut self, key: &str) -> (r: Result<Finisher, CacheError>)
        requires
            old(self).wf(),
        ensures
            final(self).wf(),
            final(self).entries() == old(self).entries(),
            match r {
                Ok(fin) => {
                    let id = fin.file_id;
                    &&& fin.key@ == key@
                    &&& !is_pending(old(self).pending(), key@)
                    &&& id == old(self).next_id()
                    &&& final(self).next_id() == id + 1
                    &&& final(self).pending().len() == old(self).pending().len() + 1
                    &&& final(self).pending().drop_last() == old(self).pending()
                    &&& final(self).pending().last().key@ == key@
                    &&& final(self).pending().last().file_id == id
                },
                Err(e) => {
                    &&& final(self).pending() == old(self).pending()
                    &&& (e == CacheError::AlreadyPending || e == CacheError::IdsExhausted)
                    &&& (e == CacheError::AlreadyPending <==> is_pending(old(self).pending(), key@))
                    &&& (e == CacheError::IdsExhausted <==> (!is_pending(old(self).pending(), key@)
                        && old(self).next_id() == u64::MAX))
                },
            },
            final(self).max_files() == old(self).max_files(),
            final(self).max_bytes() == old(self).max_bytes(),
            final(self).bytes() == old(self).bytes(),
    {
        if self.find_pending(key).is_some() {
            return Err(CacheError::AlreadyPending);
        }
        if self.next_id == u64::MAX {
            return Err(CacheError::IdsExhausted);
        }
        let id = self.next_id;
        self.pending.push(PendingEntry { key: key.to_string(), file_id: id });
        self.next_id = id + 1;
        assert(self.pending@.drop_last() =~= old(self).pending@);
        Ok(Finisher { key: key.to_string(), file_id: id })
    }

    /// Gives up an artifact being written under `key`, and returns the id of
    /// its file, which the caller deletes. The committed entries stay.
    pub fn rollback(&mut self, key: &str) -> (r: Result<u64, CacheError>)
        requires
            old(self).wf(),
        ensures
            final(self).wf(),
            final(self).entries() == old(self).entries(),
            final(self).bytes() == old(self).bytes(),
            final(self).next_id() == old(self).next_id(),
            !is_pending(final(self).pending(), key@),
            match r {
                Ok(id) => exists|i: int|
                    0 <= i < old(self).pending().len() && (#[trigger] old(self).pending()[i]).key@ == key@
                        && old(self).pending()[i].file_id == id && final(self).pending()
                        == old(self).pending().remove(i),
                Err(e) => e == CacheError::NotPending && !is_pending(old(self).pending(), key@)
                    && final(self).pending() == old(self).pending(),
            },
            final(self).max_files() == old(self).max_files(),
            final(self).max_bytes() == old(self).max_bytes(),
    {
        match self.find_pending(key) {
            None => Err(CacheError::NotPending),
            Some(i) => {
                let p = self.pending.remove(i);
                proof {
                    let o = old(self).pending@;
                    assert forall|j: int| 0 <= j < self.pending@.len() implies (#[trigger] self.pending@[j]).key@ != key@ by {
                        if j < i {
                            assert(self.pending@[j] == o[j]);
                        } else {
                            assert(self.pending@[j] == o[j + 1]);
                        }
                    }
                }
                Ok(p.file_id)
            },
        }
    }

    /// Looks up the committed entry with fingerprint `key`, marks it used at
    /// `now`, and returns the id of its file.
    pub fn get(&mut self, key: &str, now: u64) -> (r: Option<u64>)
        requires
            old(self).wf(),
        ensures
            final(self).wf(),
            final(self).pending() == old(self).pending(),
            final(self).bytes() == old(self).bytes(),
            final(self).max_files() == old(self).max_files(),
            final(self).max_bytes() == old(self).max_bytes(),
            final(self).next_id() == old(self).next_id(),
            r == lookup(old(self).entries(), key@),
            match r {
                None => !has_key(old(self).entries(), key@) && final(self).entries() == old(self).entries(),
                Some(id) => exists|i: int|
                    0 <= i < old(self).entries().len() && (#[trigger] old(self).entries()[i]).key@ == key@
                        && old(self).entries()[i].file_id == id && final(self).entries() == old(
                        self,
                    ).entries().update(
                        i,
                        CacheEntry {
                            key: old(self).entries()[i].key,
                            size: old(self).entries()[i].size,
                            last_access: now,
                            file_id: old(self).entries()[i].file_id,
                        },
                    ),
            },
    {
        match self.find_entry(key) {
            None => None,
            Some(i) => {
                let e = self.entries.remove(i);
                let id = e.file_id;
                let touched = CacheEntry { key: e.key, size: e.size, last_access: now, file_id: e.file_id };
                self.entries.insert(i, touched);
                proof {
                    let o = old(self).entries@;
                    let t = CacheEntry { key: o[i as int].key, size: o[i as int].size, last_access: now, file_id: o[i as int].file_id };
                    assert(self.entries@ =~= o.update(i as int, t));
                    lemma_total_update(o, i as int, t);
                    assert(lookup(o, key@) == Some(id)) by {
                        let c = choose|c: int| 0 <= c < o.len() && (#[trigger] o[c]).key@ == key@;
                        assert(c == i);
                    }
                }
                Some(id)
            },
        }
    }

    /// Publishes the artifact written under `key`, of `size` bytes, as used
    /// at `now`, and returns the ids of the files that leave the cache, which
    /// the caller deletes: the entry it replaces, and the least recently
    /// used entries evicted to keep both limits. An artifact larger than the
    /// byte limit is not kept: its own id is returned and the committed
    /// entries stay as they were.
    #[verifier::rlimit(60)]
    pub fn commit(&mut self, key: &str, size: u64, now: u64) -> (r: Result<Vec<u64>, CacheError>)
        requires
            old(self).wf(),
        ensures
            final(self).wf(),
            final(self).max_files() == old(self).max_files(),
            final(self).max_bytes() == old(self).max_bytes(),
            final(self).next_id() == old(self).next_id(),
            !is_pending(final(self).pending(), key@),
            match r {
                Err(e) => {
                    &&& e == CacheError::NotPending
                    &&& !is_pending(old(self).pending(), key@)
                    &&& final(self).entries() == old(self).entries()
                    &&& final(self).pending() == old(self).pending()
                },
                Ok(ev) => exists|p: int|
                    0 <= p < old(self).pending().len() && (#[trigger] old(self).pending()[p]).key@ == key@
                        && final(self).pending() == old(self).pending().remove(p) && commit_outcome(
                        old(self).entries(),
                        final(self).entries(),
                        ev@,
                        key@,
                        size,
                        now,
                        old(self).pending()[p].file_id,
                        old(self).max_files(),
                        old(self).max_bytes(),
                    ),
            },
    {
        let p = match self.find_pending(key) {
            None => {
                return Err(CacheError::NotPending);
            },
            Some(p) => p,
        };
        let pe = self.pending.remove(p);
        let id = pe.file_id;
        proof {
            let o = old(self).pending@;
            assert forall|j: int| 0 <= j < self.pending@.len() implies (#[trigger] self.pending@[j]).key@ != key@ && self.pending@[j].file_id < self.next_id by {
                if j < p {
                    assert(self.pending@[j] == o[j]);
                } else {
                    assert(self.pending@[j] == o[j + 1]);
                }
            }
            assert forall|a: int, b: int| 0 <= a < self.pending@.len() && 0 <= b < self.pending@.len() && a != b implies (#[trigger] self.pending@[a]).key@ != (#[trigger] self.pending@[b]).key@ by {
                let a2 = if a < p { a } else { a + 1 };
                let b2 = if b < p { b } else { b + 1 };
                assert(self.pending@[a] == o[a2]);
                assert(self.pending@[b] == o[b2]);
            }
        }
        let ghost pend = self.pending@;
        let mut ev: Vec<u64> = Vec::new();
        if size > self.max_bytes {
            ev.push(id);
            return Ok(ev);
        }
        let ghost old_entries = self.entries@;
        let found = self.find_entry(key);
        match found {
            Some(i) => {
                let e = self.entries.remove(i);
                proof {
                    lemma_total_remove(old_entries, i as int);
                    lemma_remove_entry(old_entries, i as int);
                }
                self.bytes = self.bytes - e.size;
                ev.push(e.file_id);
            },
            None => {},
        }
        proof {
            assert forall|j: int| 0 <= j < old_entries.len() implies gone_or_kept(old_entries[j], self.entries@, ev@, key@) by {
                let o = old_entries[j];
                match found {
                    Some(i) => {
                        if j == i {
                            assert(ev@[0] == o.file_id);
                        } else if j < i {
                            assert(self.entries@[j] == o);
                        } else {
                            assert(self.entries@[j - 1] == o);
                        }
                    },
                    None => {
                        assert(self.entries@[j] == o);
                    },
                }
            }
            if let Some(i) = found {
                let o = old_entries[i as int];
                assert(!self.entries@.contains(o)) by {
                    if self.entries@.contains(o) {
                        let w = choose|w: int| 0 <= w < self.entries@.len() && self.entries@[w] == o;
                        assert(self.entries@[w].key@ != key@);
                    }
                }
                assert(ev@[0] == o.file_id);
                assert(left_entry(old_entries, self.entries@, ev@[0]));
                assert(ev@.last() == o.file_id);
            }
        }
        while self.entries.len() as u64 >= self.max_files || self.bytes > self.max_bytes - size
            invariant
                size <= self.max_bytes,
                self.max_files == old(self).max_files,
                self.max_bytes == old(self).max_bytes,
                self.next_id == old(self).next_id,
                self.max_files > 0,
                total_size(self.entries@) == self.bytes,
                self.entries@.len() <= self.max_files,
                self.bytes <= self.max_bytes,
                keys_unique(self.entries@),
                forall|j: int| 0 <= j < self.entries@.len() ==> (#[trigger] self.entries@[j]).key@ != key@,
                forall|j: int| 0 <= j < self.entries@.len() ==> old_entries.contains(#[trigger] self.entries@[j]),
                forall|j: int| 0 <= j < self.entries@.len() ==> (#[trigger] self.entries@[j]).file_id < self.next_id,
                forall|j: int| 0 <= j < old_entries.len() ==> gone_or_kept(old_entries[j], self.entries@, ev@, key@),
                old_entries == old(self).entries@,
                self.pending@ == pend,
                forall|x: int| 0 <= x < ev@.len() ==> left_entry(old_entries, self.entries@, #[trigger] ev@[x]),
                ev@.len() > 0 ==> last_had_to_leave(old_entries, self.entries@, ev@.last(), key@, size, self.max_files as nat, self.max_bytes as nat),
        decreases self.entries@.len(),
        {
            let m = lru_index(&self.entries);
            let ghost before = self.entries@;
            let ghost ev0 = ev@;
            let e = self.entries.remove(m);
            proof {
                lemma_total_remove(before, m as int);
                lemma_remove_entry(before, m as int);
            }
            self.bytes = self.bytes - e.size;
            ev.push(e.file_id);
            proof {
                let em = before[m as int];
                assert(!self.entries@.contains(em)) by {
                    if self.entries@.contains(em) {
                        let w = choose|w: int| 0 <= w < self.entries@.len() && self.entries@[w] == em;
                        assert(self.entries@[w].key@ != em.key@);
                    }
                }
                assert(old_entries.contains(em));
                let jm = choose|jm: int| 0 <= jm < old_entries.len() && old_entries[jm] == em;
                assert(old_entries[jm].file_id == ev@.last());
                assert(last_had_to_leave(old_entries, self.entries@, ev@.last(), key@, size, self.max_files as nat, self.max_bytes as nat));
                assert forall|x: int| 0 <= x < ev@.len() implies left_entry(old_entries, self.entries@, #[trigger] ev@[x]) by {
                    if x < ev0.len() {
                        assert(ev@[x] == ev0[x]);
                        assert(left_entry(old_entries, before, ev0[x]));
                        let w = choose|w: int| 0 <= w < old_entries.len() && (#[trigger] old_entries[w]).file_id == ev0[x] && !before.contains(old_entries[w]);
                        assert(!self.entries@.contains(old_entries[w])) by {
                            if self.entries@.contains(old_entries[w]) {
                                let t = choose|t: int| 0 <= t < self.entries@.len() && self.entries@[t] == old_entries[w];
                                assert(before.contains(self.entries@[t]));
                            }
                        }
                    } else {
                        assert(old_entries[jm].file_id == ev@[x]);
                    }
                }
                assert forall|j: int| 0 <= j < old_entries.len() implies gone_or_kept(old_entries[j], self.entries@, ev@, key@) by {
                    let o = old_entries[j];
                    assert(gone_or_kept(o, before, ev0, key@));
                    if o.key@ != key@ {
                        if before.contains(o) {
                            let w = choose|w: int| 0 <= w < before.len() && before[w] == o;
                            if w == m {
                                assert(ev@.last() == o.file_id);
                                assert forall|t: int| 0 <= t < self.entries@.len() implies evicted_before(o, #[trigger] self.entries@[t]) by {
                                    if t < m {
                                        assert(self.entries@[t] == before[t]);
                                    } else {
                                        assert(self.entries@[t] == before[t + 1]);
                                    }
                                }
                            } else {
                                assert(self.entries@.contains(o)) by {
                                    if w < m {
                                        assert(self.entries@[w] == o);
                                    } else {
                                        assert(self.entries@[w - 1] == o);
                                    }
                                }
                            }
                        } else {
                            assert(ev0.contains(o.file_id));
                            let x = choose|x: int| 0 <= x < ev0.len() && ev0[x] == o.file_id;
                            assert(ev@[x] == o.file_id);
                            assert forall|t: int| 0 <= t < self.entries@.len() implies evicted_before(o, #[trigger] self.entries@[t]) by {
                                if t < m {
                                    assert(self.entries@[t] == before[t]);
                                } else {
                                    assert(self.entries@[t] == before[t + 1]);
                                }
                            }
                        }
                    } else {
                        let x = choose|x: int| 0 <= x < ev0.len() && ev0[x] == o.file_id;
                        assert(ev@[x] == o.file_id);
                    }
                }
            }
        }
        let ghost kept = self.entries@;
        self.entries.push(CacheEntry { key: key.to_string(), size, last_access: now, file_id: id });
        self.bytes = self.bytes + size;
        proof {
            assert(self.entries@.drop_last() == kept);
            let s = self.entries@;
            assert forall|a: int, b: int| 0 <= a < s.len() && 0 <= b < s.len() && a != b implies (#[trigger] s[a]).key@ != (#[trigger] s[b]).key@ by {
                if a < kept.len() && b < kept.len() {
                    assert(s[a] == kept[a] && s[b] == kept[b]);
                } else if a < kept.len() {
                    assert(s[a] == kept[a]);
                } else if b < kept.len() {
                    assert(s[b] == kept[b]);
                }
            }
            assert forall|j: int| 0 <= j < s.len() implies (#[trigger] s[j]).file_id < self.next_id by {
                if j < kept.len() {
                    assert(s[j] == kept[j]);
                }
            }
            assert forall|j: int| 0 <= j < s.len() - 1 implies (#[trigger] s[j]).key@ != key@ && old_entries.contains(s[j]) by {
                assert(s[j] == kept[j]);
            }
        }
        Ok(ev)
    }

    /// Opens an index from the entries saved by an earlier process and the
    /// ids of the files found on disk: takes back, in order, each saved
    /// entry that `restorable` accepts. Fails when a limit is zero.
    pub fn restore(max_files: u64, max_bytes: u64, saved: Vec<CacheEntry>, present: &Vec<u64>) -> (r: Result<CacheIndex, CacheError>)
        ensures
            match r {
                Ok(c) => {
                    &&& max_files > 0 && max_bytes > 0
                    &&& c.wf()
                    &&& c.entries() == restored(saved@, present@, max_files as nat, max_bytes as nat)
                    &&& c.pending().len() == 0
                    &&& c.max_files() == max_files
                    &&& c.max_bytes() == max_bytes
                },
                Err(e) => (max_files == 0 || max_bytes == 0) && e == CacheError::LimitMisconfigured,
            },
    {
        if max_files == 0 || max_bytes == 0 {
            return Err(CacheError::LimitMisconfigured);
        }
        let mut c = CacheIndex { entries: Vec::new(), pending: Vec::new(), bytes: 0, max_files, max_bytes, next_id: 0 };
        let ghost all = saved@;
        let total_n = saved.len();
        let mut rest = saved;
        let mut n: usize = 0;
        assert(all.subrange(0, 0) =~= Seq::<CacheEntry>::empty());
        while rest.len() > 0
            invariant
                c.wf(),
                c.max_files == max_files,
                c.max_bytes == max_bytes,
                c.pending@.len() == 0,
                n + rest@.len() == all.len(),
                all.len() == total_n,
                rest@ == all.skip(n as int),
                c.entries@ == restored(all.subrange(0, n as int), present@, max_files as nat, max_bytes as nat),
            decreases rest@.len(),
        {
            let e = rest.remove(0);
            proof {
                assert(all.subrange(0, n + 1).drop_last() =~= all.subrange(0, n as int));
                assert(all.subrange(0, n + 1).last() == e);
                assert(rest@ =~= all.skip(n + 1));
            }
            let ok = contains_id(present, e.file_id) && e.file_id < u64::MAX && c.find_entry(e.key.as_str()).is_none()
                && (c.entries.len() as u64) < c.max_files && e.size <= c.max_bytes - c.bytes;
            if ok {
                let ghost before = c.entries@;
                let id = e.file_id;
                let sz = e.size;
                c.entries.push(e);
                c.bytes = c.bytes + sz;
                if id >= c.next_id {
                    c.next_id = id + 1;
                }
                proof {
                    let s = c.entries@;
                    assert(s.drop_last() == before);
                    assert forall|a: int, b: int| 0 <= a < s.len() && 0 <= b < s.len() && a != b implies (#[trigger] s[a]).key@ != (#[trigger] s[b]).key@ by {
                        if a < before.len() {
                            assert(s[a] == before[a]);
                        }
                        if b < before.len() {
                            assert(s[b] == before[b]);
                        }
                    }
                    assert forall|j: int| 0 <= j < s.len() implies (#[trigger] s[j]).file_id < c.next_id by {
                        if j < before.len() {
                            assert(s[j] == before[j]);
                        }
                    }
                }
            }
            n = n + 1;
        }
        assert(all.subrange(0, n as int) =~= all);
        Ok(c)
    }

    /// The ids among `present` that no committed entry names: files left
    /// without an index row, which the caller deletes.
    pub fn orphan_ids(&self, present: &Vec<u64>) -> (r: Vec<u64>)
        ensures
            forall|x: u64| r@.contains(x) <==> (present@.contains(x) && !(exists|i: int|
                0 <= i < self.entries().len() && (#[trigger] self.entries()[i]).file_id == x)),
    {
        let mut r: Vec<u64> = Vec::new();
        let mut i: usize = 0;
        while i < present.len()
            invariant
                i <= present@.len(),
                forall|x: u64| r@.contains(x) <==> (present@.subrange(0, i as int).contains(x) && !(exists|k: int|
                    0 <= k < self.entries@.len() && (#[trigger] self.entries@[k]).file_id == x)),
            decreases present@.len() - i,
        {
            let x = present[i];
            let mut used = false;
            let mut k: usize = 0;
            while k < self.entries.len()
                invariant
                    k <= self.entries@.len(),
                    used == exists|m: int| 0 <= m < k && (#[trigger] self.entries@[m]).file_id == x,
                decreases self.entries@.len() - k,
            {
                if self.entries[k].file_id == x {
                    used = true;
                }
                k = k + 1;
            }
            let ghost r0 = r@;
            if !used {
                r.push(x);
            }
            proof {
                let p0 = present@.subrange(0, i as int);
                let p1 = present@.subrange(0, i + 1);
                assert(p1 =~= p0.push(x));
                assert forall|y: u64| r@.contains(y) <==> (p1.contains(y) && !(exists|k: int|
                    0 <= k < self.entries@.len() && (#[trigger] self.entries@[k]).file_id == y)) by {
                    if p1.contains(y) && !p0.contains(y) {
                        let w = choose|w: int| 0 <= w < p1.len() && p1[w] == y;
                        assert(w == i);
                    }
                    if r@.contains(y) && !r0.contains(y) {
                        assert(y == x);
                        assert(p1[i as int] == x);
                    }
                    if r0.contains(y) {
                        let w = choose|w: int| 0 <= w < r0.len() && r0[w] == y;
                        assert(r@[w] == y);
                    }
                    if !used && y == x {
                        assert(r@[r@.len() - 1] == x);
                    }
                    if p0.contains(y) {
                        let w = choose|w: int| 0 <= w < p0.len() && p0[w] == y;
                        assert(p1[w] == y);
                    }
                }
            }
            i = i + 1;
        }
        assert(present@.subrange(0, present@.len() as int) =~= present@);
        assert forall|x: u64| r@.contains(x) <==> (present@.contains(x) && !(exists|k: int|
            0 <= k < self.entries().len() && (#[trigger] self.entries()[k]).file_id == x)) by {
            assert(present@.subrange(0, i as int) == present@);
            assert(r@.contains(x) <==> (present@.subrange(0, i as int).contains(x) && !(exists|k: int|
                0 <= k < self.entries@.len() && (#[trigger] self.entries@[k]).file_id == x)));
            assert(self.entries() == self.entries@);
        }
        r
    }
}

/// Whether a saved entry is taken back into an index that already holds
/// `kept`: its file is present, its id is not the largest, its fingerprint
/// is new, and both limits still hold with it.
pub open spec fn restorable(e: CacheEntry, kept: Seq<CacheEntry>, present: Seq<u64>, max_files: nat, max_bytes: nat) -> bool {
    &&& present.contains(e.file_id)
    &&& e.file_id < u64::MAX
    &&& !has_key(kept, e.key@)
    &&& kept.len() < max_files
    &&& total_size(kept) + e.size <= max_bytes
}

/// The saved entries taken back, in order.
pub open spec fn restored(saved: Seq<CacheEntry>, present: Seq<u64>, max_files: nat, max_bytes: nat) -> Seq<CacheEntry>
    decreases saved.len(),
{
    if saved.len() == 0 {
        Seq::empty()
    } else {
        let k = restored(saved.drop_last(), present, max_files, max_bytes);
        if restorable(saved.last(), k, present, max_files, max_bytes) {
            k.push(saved.last())
        } else {
            k
        }
    }
}

proof fn lemma_total_prefix(s: Seq<CacheEntry>, i: int)
    requires
        0 <= i <= s.len(),
    ensures
        total_size(s.subrange(0, i)) <= total_size(s),
    decreases s.len() - i,
{
    if i < s.len() {
        lemma_total_prefix(s.drop_last(), i);
        assert(s.drop_last().subrange(0, i) =~= s.subrange(0, i));
    } else {
        assert(s.subrange(0, i) =~= s);
    }
}

/// Saving an index and opening it again with all its files present gives
/// back the same entries, in the same order.
pub proof fn lemma_restore_identity(saved: Seq<CacheEntry>, present: Seq<u64>, max_files: nat, max_bytes: nat)
    requires
        keys_unique(saved),
        saved.len() <= max_files,
        total_size(saved) <= max_bytes,
        forall|i: int| 0 <= i < saved.len() ==> present.contains(#[trigger] saved[i].file_id) && saved[i].file_id < u64::MAX,
    ensures
        restored(saved, present, max_files, max_bytes) == saved,
    decreases saved.len(),
{
    if saved.len() > 0 {
        let d = saved.drop_last();
        lemma_total_prefix(saved, saved.len() - 1);
        assert(saved.subrange(0, saved.len() - 1) =~= d);
        assert forall|i: int| 0 <= i < d.len() implies present.contains(#[trigger] d[i].file_id) && d[i].file_id < u64::MAX by {
            assert(d[i] == saved[i]);
        }
        assert forall|a: int, b: int| 0 <= a < d.len() && 0 <= b < d.len() && a != b implies (#[trigger] d[a]).key@ != (#[trigger] d[b]).key@ by {
            assert(d[a] == saved[a] && d[b] == saved[b]);
        }
        lemma_restore_identity(d, present, max_files, max_bytes);
        assert(present.contains(saved[saved.len() - 1].file_id));
        assert(!has_key(d, saved.last().key@)) by {
            assert forall|i: int| 0 <= i < d.len() implies (#[trigger] d[i]).key@ != saved.last().key@ by {
                assert(d[i] == saved[i]);
            }
        }
        assert(d.push(saved.last()) =~= saved);
    }
}

/// Whether `x` is among the ids.
fn contains_id(v: &Vec<u64>, x: u64) -> (r: bool)
    ensures
        r == v@.contains(x),
{
    let mut i: usize = 0;
    while i < v.len()
        invariant
            i <= v@.len(),
            forall|j: int| 0 <= j < i ==> v@[j] != x,
        decreases v@.len() - i,
    {
        if v[i] == x {
            assert(v@[i as int] == x);
            return true;
        }
        i = i + 1;
    }
    false
}

/// An old entry either stays in the new entries or has its file id among
/// the evicted ids and goes before every entry that stays. The entry under
/// the committed fingerprint itself always leaves.
pub open spec fn gone_or_kept(o: CacheEntry, now_entries: Seq<CacheEntry>, ev: Seq<u64>, key: Seq<char>) -> bool {
    if o.key@ == key {
        ev.contains(o.file_id)
    } else {
        now_entries.contains(o) || (ev.contains(o.file_id) && forall|t: int|
            0 <= t < now_entries.len() ==> evicted_before(o, #[trigger] now_entries[t]))
    }
}

/// What a commit of `size` bytes under `key` leaves, for the limits
/// `max_files` and `max_bytes`. When the artifact fits the byte limit: the
/// entries that stayed, all of them old entries under other fingerprints,
/// followed by the new entry; each old entry stays or leaves as
/// `gone_or_kept` says; every id handed back is that of an old entry that
/// left; and the last to leave either had the same fingerprint or had to
/// leave for a limit to hold, so that eviction stops as soon as both hold.
/// When it does not fit, the entries stay and only its own id leaves.
pub open spec fn commit_outcome(
    before: Seq<CacheEntry>,
    after: Seq<CacheEntry>,
    ev: Seq<u64>,
    key: Seq<char>,
    size: u64,
    now: u64,
    id: u64,
    max_files: nat,
    max_bytes: nat,
) -> bool {
    if size <= max_bytes {
        let kept = after.drop_last();
        &&& after.len() > 0
        &&& after.last().key@ == key
        &&& after.last().size == size
        &&& after.last().last_access == now
        &&& after.last().file_id == id
        &&& forall|j: int| 0 <= j < after.len() - 1 ==> (#[trigger] after[j]).key@ != key && before.contains(after[j])
        &&& forall|j: int| 0 <= j < before.len() ==> gone_or_kept(#[trigger] before[j], kept, ev, key)
        &&& forall|x: int| 0 <= x < ev.len() ==> left_entry(before, kept, #[trigger] ev[x])
        &&& ev.len() > 0 ==> last_had_to_leave(before, kept, ev.last(), key, size, max_files, max_bytes)
    } else {
        after == before && ev == seq![id]
    }
}

/// Whether `id` is the file id of an old entry that is no longer kept.
pub open spec fn left_entry(before: Seq<CacheEntry>, kept: Seq<CacheEntry>, id: u64) -> bool {
    exists|j: int| 0 <= j < before.len() && (#[trigger] before[j]).file_id == id && !kept.contains(before[j])
}

/// Whether the old entry with file id `id` left because it had the
/// committed fingerprint, or because keeping it beside the new entry would
/// break a limit.
pub open spec fn last_had_to_leave(
    before: Seq<CacheEntry>,
    kept: Seq<CacheEntry>,
    id: u64,
    key: Seq<char>,
    size: u64,
    max_files: nat,
    max_bytes: nat,
) -> bool {
    exists|j: int|
        0 <= j < before.len() && (#[trigger] before[j]).file_id == id && (before[j].key@ == key || kept.len() + 2
            > max_files || total_size(kept) + before[j].size + size > max_bytes)
}

/// The file id of the entry with fingerprint `k`, if there is one.
pub open spec fn lookup(s: Seq<CacheEntry>, k: Seq<char>) -> Option<u64> {
    if has_key(s, k) {
        Some(s[choose|i: int| 0 <= i < s.len() && (#[trigger] s[i]).key@ == k].file_id)
    } else {
        None
    }
}

proof fn lemma_lookup_at(s: Seq<CacheEntry>, i: int)
    requires
        keys_unique(s),
        0 <= i < s.len(),
    ensures
        lookup(s, s[i].key@) == Some(s[i].file_id),
{
    let k = s[i].key@;
    assert(has_key(s, k));
    let c = choose|c: int| 0 <= c < s.len() && (#[trigger] s[c]).key@ == k;
    assert(c == i);
}

/// After a commit that keeps its artifact, a lookup of its fingerprint
/// finds the file the artifact was written to.
pub proof fn lemma_commit_then_get(
    before: Seq<CacheEntry>,
    after: Seq<CacheEntry>,
    ev: Seq<u64>,
    key: Seq<char>,
    size: u64,
    now: u64,
    id: u64,
    max_files: nat,
    max_bytes: nat,
)
    requires
        commit_outcome(before, after, ev, key, size, now, id, max_files, max_bytes),
        size <= max_bytes,
        keys_unique(after),
    ensures
        lookup(after, key) == Some(id),
{
    lemma_lookup_at(after, after.len() - 1);
}

/// A commit under one fingerprint leaves the entry of another fingerprint
/// as it was, same file and size, unless it evicts it and hands its file id
/// back for deletion.
pub proof fn lemma_commit_keeps_other(
    before: Seq<CacheEntry>,
    after: Seq<CacheEntry>,
    ev: Seq<u64>,
    key: Seq<char>,
    size: u64,
    now: u64,
    id: u64,
    max_files: nat,
    max_bytes: nat,
    i: int,
)
    requires
        commit_outcome(before, after, ev, key, size, now, id, max_files, max_bytes),
        keys_unique(before),
        keys_unique(after),
        0 <= i < before.len(),
        before[i].key@ != key,
    ensures
        lookup(after, before[i].key@) == Some(before[i].file_id) || ev.contains(before[i].file_id),
        has_key(after, before[i].key@) ==> exists|j: int| 0 <= j < after.len() && after[j] == before[i],
{
    let o = before[i];
    if size <= max_bytes {
        assert(gone_or_kept(before[i], after.drop_last(), ev, key));
        if after.drop_last().contains(o) {
            let w = choose|w: int| 0 <= w < after.drop_last().len() && after.drop_last()[w] == o;
            assert(after[w] == o);
            lemma_lookup_at(after, w);
        } else if has_key(after, o.key@) {
            let w = choose|w: int| 0 <= w < after.len() && (#[trigger] after[w]).key@ == o.key@;
            if w < after.len() - 1 {
                assert(before.contains(after[w]));
                let x = choose|x: int| 0 <= x < before.len() && before[x] == after[w];
                assert(x == i);
                assert(after.drop_last()[w] == o);
            }
        }
    } else {
        lemma_lookup_at(after, i);
    }
}

/// Once an artifact is being written under `key`, another `add` of `key`
/// is refused until it is committed or rolled back.
pub proof fn lemma_second_add_refused(c: CacheIndex, key: Seq<char>)
    requires
        c.pending().len() > 0,
        c.pending().last().key@ == key,
    ensures
        is_pending(c.pending(), key),
{
    assert(c.pending()[c.pending().len() - 1].key@ == key);
}

proof fn lemma_remove_entry(s: Seq<CacheEntry>, m: int)
    requires
        0 <= m < s.len(),
        keys_unique(s),
    ensures
        keys_unique(s.remove(m)),
        forall|j: int| 0 <= j < s.remove(m).len() ==> (#[trigger] s.remove(m)[j]).key@ != s[m].key@,
        forall|j: int| 0 <= j < s.remove(m).len() ==> s.contains(#[trigger] s.remove(m)[j]),
{
    let r = s.remove(m);
    assert forall|j: int| 0 <= j < r.len() implies (#[trigger] r[j]).key@ != s[m].key@ && s.contains(r[j]) by {
        if j < m {
            assert(r[j] == s[j]);
        } else {
            assert(r[j] == s[j + 1]);
        }
    }
    assert forall|a: int, b: int| 0 <= a < r.len() && 0 <= b < r.len() && a != b implies (#[trigger] r[a]).key@ != (#[trigger] r[b]).key@ by {
        let a2 = if a < m { a } else { a + 1 };
        let b2 = if b < m { b } else { b + 1 };
        assert(r[a] == s[a2]);
        assert(r[b] == s[b2]);
    }
}

impl Finisher {
    /// The id that names the file being written.
    pub fn file_id(&self) -> (r: u64)
        ensures
            r == self.file_id,
    {
        self.file_id
    }

    /// Publishes the artifact, of `size` bytes, as used at `now`: the
    /// commit of its fingerprint into `cache`.
    pub fn commit(self, cache: &mut CacheIndex, size: u64, now: u64) -> (r: Result<Vec<u64>, CacheError>)
        requires
            old(cache).wf(),
        ensures
            final(cache).wf(),
            final(cache).max_files() == old(cache).max_files(),
            final(cache).max_bytes() == old(cache).max_bytes(),
            !is_pending(final(cache).pending(), self.key@),
            match r {
                Err(e) => {
                    &&& e == CacheError::NotPending
                    &&& !is_pending(old(cache).pending(), self.key@)
                    &&& final(cache).entries() == old(cache).entries()
                },
                Ok(ev) => exists|p: int|
                    0 <= p < old(cache).pending().len() && (#[trigger] old(cache).pending()[p]).key@ == self.key@
                        && final(cache).pending() == old(cache).pending().remove(p) && commit_outcome(
                        old(cache).entries(),
                        final(cache).entries(),
                        ev@,
                        self.key@,
                        size,
                        now,
                        old(cache).pending()[p].file_id,
                        old(cache).max_files(),
                        old(cache).max_bytes(),
                    ),
            },
    {
        cache.commit(self.key.as_str(), size, now)
    }

    /// Gives the artifact up; its file id comes back for deletion.
    pub fn roll_back(self, cache: &mut CacheIndex) -> (r: Result<u64, CacheError>)
        requires
            old(cache).wf(),
        ensures
            final(cache).wf(),
            final(cache).entries() == old(cache).entries(),
            !is_pending(final(cache).pending(), self.key@),
            match r {
                Ok(id) => exists|i: int|
                    0 <= i < old(cache).pending().len() && (#[trigger] old(cache).pending()[i]).key@ == self.key@
                        && old(cache).pending()[i].file_id == id && final(cache).pending()
                        == old(cache).pending().remove(i),
                Err(e) => e == CacheError::NotPending && !is_pending(old(cache).pending(), self.key@),
            },
    {
        cache.rollback(self.key.as_str())
    }
}

} // verus!
