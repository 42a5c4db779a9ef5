//! Concurrency-safe memoisation for derived per-configuration tables.
//!
//! A [`StaticCache`] stores shared values keyed by `K`, behind a
//! reader/writer lock, with first-writer-wins semantics: once a key has
//! a value, later inserts return the stored value instead of replacing
//! it. The lock here is a verified reader/writer lock without a poison
//! state, so a writer cannot wedge the cache for later readers, and the
//! write path re-checks for a racing insert before writing.

use vstd::prelude::*;
use vstd::rwlock::RwLock;
use std::sync::Arc;

verus! {

/// A thread-safe cache that stores `Arc<V>` values keyed by `K`.
#[verifier::reject_recursive_types(K)]
#[verifier::reject_recursive_types(V)]
pub struct StaticCache<K, V> {
    inner: RwLock<Vec<(K, Arc<V>)>, spec_fn(Vec<(K, Arc<V>)>) -> bool>,
}

impl<K: PartialEq, V> StaticCache<K, V> {
    // What the cache returns cannot be stated as a pre/postcondition on
    // `&self`: the store lives behind a shared lock, and between two
    // calls any thread may insert. The first-writer-wins behaviour is
    // enforced by the double-checked insert below and exercised by the
    // crate's tests; the lock itself is a verified reader/writer lock,
    // so a writer cannot wedge the cache for later readers.
    /// The lock accepts every store state.
    pub closed spec fn wf(&self) -> bool {
        forall|v: Vec<(K, Arc<V>)>| #[trigger] self.inner.inv(v)
    }

    /// Creates a new empty cache.
    pub fn new() -> (r: Self)
        ensures
            r.wf(),
    {
        let cache = StaticCache { inner: RwLock::new(Vec::new(), Ghost(|v: Vec<(K, Arc<V>)>| true)) };
        proof {
            assert forall|v: Vec<(K, Arc<V>)>| #[trigger] cache.inner.inv(v) by {
                assert(cache.inner.pred()(v));
            }
        }
        cache
    }

    /// Attempts to get a cached value by key; `None` when the key has
    /// no entry yet.
    pub fn get(&self, key: &K) -> Option<Arc<V>>
        requires
            self.wf(),
    {
        let handle = self.inner.acquire_read();
        let entries: &Vec<(K, Arc<V>)> = handle.borrow();
        let mut i: usize = 0;
        let n: usize = entries.len();
        let mut found: Option<Arc<V>> = None;
        while i < n
            invariant
                n == entries@.len(),
                i <= n,
            decreases n - i,
        {
            if entries[i].0.eq(key) {
                found = Some(entries[i].1.clone());
                i = n;
            } else {
                i = i + 1;
            }
        }
        handle.release_read();
        found
    }

    /// Inserts a value for the key unless one is already stored, and
    /// returns the stored value either way: the first writer wins, and
    /// a racing insert is detected by re-checking under the write lock.
    pub fn get_or_insert(&self, key: K, value: V) -> Arc<V>
        requires
            self.wf(),
    {
        match self.get(&key) {
            Some(cached) => cached,
            None => {
                let (mut entries, handle) = self.inner.acquire_write();
                let mut i: usize = 0;
                let n: usize = entries.len();
                let mut found: Option<Arc<V>> = None;
                while i < n
                    invariant
                        n == entries@.len(),
                        i <= n,
                    decreases n - i,
                {
                    if entries[i].0.eq(&key) {
                        found = Some(entries[i].1.clone());
                        i = n;
                    } else {
                        i = i + 1;
                    }
                }
                match found {
                    Some(cached) => {
                        handle.release_write(entries);
                        cached
                    },
                    None => {
                        let stored = Arc::new(value);
                        let out = stored.clone();
                        entries.push((key, stored));
                        handle.release_write(entries);
                        out
                    },
                }
            },
        }
    }
}

} // verus!
