//! Memoized pipeline specialization, one cache per pipeline family.
//!
//! The cache maps a specialization key to a stable entry identifier. The
//! first request for a key records a pending entry (the compile request);
//! every later request with the same key is a pure lookup. Compilation is
//! asynchronous: the host performs it and reports the result through
//! [`PipelineSpecializationCache::notify_compiled`]; the cache never blocks.

use vstd::prelude::*;

verus! {

/// The state of one cache entry's compilation.
#[derive(Copy, Clone, PartialEq, Eq, Structural, Debug)]
pub enum PipelineCacheState {
    /// The compile request was issued and has not finished yet.
    Compiling,
    /// Compilation finished and the pipeline handle is available.
    Ready,
    /// Compilation finished with an error.
    Failed,
}

/// One memoized specialization: its key, compile state, and, once ready,
/// the compiled pipeline handle.
#[derive(Copy, Clone, PartialEq, Eq, Structural, Debug)]
pub struct PipelineCacheEntry {
    /// The specialization key this entry was compiled for.
    pub key: u64,
    /// Whether the compile request is pending, done, or failed.
    pub state: PipelineCacheState,
    /// The compiled pipeline handle; meaningful only once `state` is `Ready`.
    pub pipeline: u64,
}

/// Whether some entry of `entries` has the key `key`.
pub open spec fn seq_has_key(entries: Seq<PipelineCacheEntry>, key: u64) -> bool {
    exists|i: int| 0 <= i < entries.len() && entries[i].key == key
}

/// The index of the entry with key `key`, when one exists.
pub open spec fn seq_index_of_key(entries: Seq<PipelineCacheEntry>, key: u64) -> int {
    choose|i: int| 0 <= i < entries.len() && entries[i].key == key
}

/// No two entries share a key: each distinct key was compiled exactly once.
pub open spec fn unique_keys(entries: Seq<PipelineCacheEntry>) -> bool {
    forall|i: int, j: int|
        0 <= i < j < entries.len() ==> entries[i].key != entries[j].key
}

/// What specializing `key` does to a cache with entries `entries`: the
/// resulting entries and the entry identifier returned. An existing key is
/// a pure lookup; an absent key appends one pending entry.
pub open spec fn spec_specialize(entries: Seq<PipelineCacheEntry>, key: u64) -> (
    Seq<PipelineCacheEntry>,
    int,
) {
    if seq_has_key(entries, key) {
        (entries, seq_index_of_key(entries, key))
    } else {
        (
            entries.push(
                PipelineCacheEntry { key, state: PipelineCacheState::Compiling, pipeline: 0 },
            ),
            entries.len() as int,
        )
    }
}

/// Under unique keys, at most one entry holds a given key.
pub proof fn lemma_entry_for_key_unique(
    entries: Seq<PipelineCacheEntry>,
    i: int,
    j: int,
)
    requires
        unique_keys(entries),
        0 <= i < entries.len(),
        0 <= j < entries.len(),
        entries[i].key == entries[j].key,
    ensures
        i == j,
{
}

/// Specialization is idempotent: after one specialization of `key`, a second
/// specialization with the same key returns the same entry identifier and
/// leaves the cache unchanged — no second compile request is issued.
pub proof fn lemma_specialize_idempotent(entries: Seq<PipelineCacheEntry>, key: u64)
    requires
        unique_keys(entries),
    ensures
        ({
            let (c1, e1) = spec_specialize(entries, key);
            let (c2, e2) = spec_specialize(c1, key);
            &&& c2 == c1
            &&& e2 == e1
            &&& 0 <= e1 < c1.len()
            &&& c1[e1].key == key
            &&& c1.len() <= entries.len() + 1
        }),
{
    let (c1, e1) = spec_specialize(entries, key);
    if seq_has_key(entries, key) {
        let w = seq_index_of_key(entries, key);
        assert(0 <= w < entries.len() && entries[w].key == key);
        assert(seq_has_key(c1, key));
        let w2 = seq_index_of_key(c1, key);
        lemma_entry_for_key_unique(entries, w, w2);
    } else {
        assert(c1[entries.len() as int].key == key);
        assert(seq_has_key(c1, key));
        let w2 = seq_index_of_key(c1, key);
        assert(unique_keys(c1)) by {
            assert(forall|i: int|
                0 <= i < entries.len() ==> c1[i] == entries[i] && entries[i].key != key);
        }
        lemma_entry_for_key_unique(c1, entries.len() as int, w2);
    }
}

/// A memoized cache of specialized pipelines for one pipeline family.
pub struct PipelineSpecializationCache {
    entries: Vec<PipelineCacheEntry>,
}

impl View for PipelineSpecializationCache {
    type V = Seq<PipelineCacheEntry>;

    closed spec fn view(&self) -> Seq<PipelineCacheEntry> {
        self.entries@
    }
}

impl PipelineSpecializationCache {
    /// The cache's own invariant: one entry per distinct key.
    pub open spec fn wf(self) -> bool {
        unique_keys(self@)
    }

    /// An empty cache for a new pipeline family.
    pub fn new() -> (r: PipelineSpecializationCache)
        ensures
            r.wf(),
            r@.len() == 0,
    {
        PipelineSpecializationCache { entries: Vec::new() }
    }

    /// How many distinct specializations were requested so far: every entry
    /// stands for exactly one compile request.
    pub fn len(&self) -> (n: usize)
        ensures
            n == self@.len(),
    {
        self.entries.len()
    }

    /// Look up or create the entry for `key`: returns the entry identifier,
    /// stable across calls with the same key. If the key is new, records a
    /// pending entry (the compile request); otherwise changes nothing.
    pub fn specialize(&mut self, key: u64) -> (entry: usize)
        requires
            old(self).wf(),
            old(self)@.len() < usize::MAX,
        ensures
            final(self).wf(),
            (final(self)@, entry as int) == spec_specialize(old(self)@, key),
            entry < final(self)@.len(),
            final(self)@[entry as int].key == key,
            seq_has_key(old(self)@, key) ==> final(self)@ == old(self)@,
            !seq_has_key(old(self)@, key) ==> final(self)@.len() == old(self)@.len() + 1,
    {
        let ghost entries0 = self@;
        let mut i: usize = 0;
        while i < self.entries.len()
            invariant
                self@ == entries0,
                entries0 == old(self)@,
                unique_keys(entries0),
                0 <= i <= self@.len(),
                forall|k: int| 0 <= k < i ==> self@[k].key != key,
            decreases self@.len() - i,
        {
            if self.entries[i].key == key {
                proof {
                    assert(seq_has_key(entries0, key));
                    lemma_entry_for_key_unique(
                        entries0,
                        i as int,
                        seq_index_of_key(entries0, key),
                    );
                }
                return i;
            }
            i = i + 1;
        }
        assert(!seq_has_key(entries0, key));
        let entry = self.entries.len();
        self.entries.push(
            PipelineCacheEntry { key, state: PipelineCacheState::Compiling, pipeline: 0 },
        );
        proof {
            assert(unique_keys(self@)) by {
                assert(forall|k: int|
                    0 <= k < entries0.len() ==> self@[k] == entries0[k] && entries0[k].key != key);
            }
        }
        entry
    }

    /// The compile state of an entry: `Compiling` until the host reports,
    /// then `Ready` or `Failed`. Never blocks.
    pub fn status(&self, entry: usize) -> (s: PipelineCacheState)
        requires
            entry < self@.len(),
        ensures
            s == self@[entry as int].state,
    {
        self.entries[entry].state
    }

    /// The compiled pipeline handle of a ready entry.
    pub fn pipeline(&self, entry: usize) -> (p: u64)
        requires
            entry < self@.len(),
            self@[entry as int].state == PipelineCacheState::Ready,
        ensures
            p == self@[entry as int].pipeline,
    {
        self.entries[entry].pipeline
    }

    /// Record the outcome of the asynchronous compilation of an entry: the
    /// host calls this when the compile request issued by `specialize`
    /// finishes. On success `pipeline` is the compiled handle.
    pub fn notify_compiled(&mut self, entry: usize, ok: bool, pipeline: u64)
        requires
            old(self).wf(),
            entry < old(self)@.len(),
        ensures
            final(self).wf(),
            final(self)@ == old(self)@.update(
                entry as int,
                (PipelineCacheEntry {
                    key: old(self)@[entry as int].key,
                    state: if ok {
                        PipelineCacheState::Ready
                    } else {
                        PipelineCacheState::Failed
                    },
                    pipeline: if ok {
                        pipeline
                    } else {
                        old(self)@[entry as int].pipeline
                    },
                }),
            ),
    {
        let ghost entries0 = self@;
        let key = self.entries[entry].key;
        let prior = self.entries[entry].pipeline;
        if ok {
            self.entries[entry] = PipelineCacheEntry {
                key,
                state: PipelineCacheState::Ready,
                pipeline,
            };
        } else {
            self.entries[entry] = PipelineCacheEntry {
                key,
                state: PipelineCacheState::Failed,
                pipeline: prior,
            };
        }
        proof {
            assert(unique_keys(self@)) by {
                assert(forall|k: int|
                    0 <= k < self@.len() ==> self@[k].key == entries0[k].key);
            }
        }
    }
}

} // verus!
