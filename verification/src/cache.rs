//! A single-flight cache: the computation for a key runs at most once, and
//! everyone who asks for the key gets a copy of its one result.
//!
//! A key is absent, pending (its computation is in flight) or ready. The
//! table maps a pending key to `None` and a ready key to `Some(value)`.

use std::collections::HashMap;
use vstd::prelude::*;

verus! {

broadcast use vstd::std_specs::hash::group_hash_axioms;

/// What a caller who asks for a key has to do next.
pub enum Claim<V> {
    /// The key is ready: here is a copy of its value.
    Ready(V),
    /// Someone else is computing the value: wait for it to be published.
    Wait,
    /// The key was absent and is now claimed: the caller computes the value
    /// and publishes it.
    Compute,
}

/// Cache that remembers the result for each key.
pub struct Cache<V> {
    inner: HashMap<u64, Option<V>>,
}

impl<V: Clone> Cache<V> {
    /// The table: pending keys map to `None`, ready keys to their value.
    pub closed spec fn view(&self) -> Map<u64, Option<V>> {
        self.inner@
    }

    /// No computation for `key` has been claimed.
    pub open spec fn is_absent(&self, key: u64) -> bool {
        !self@.contains_key(key)
    }

    /// The computation for `key` is in flight.
    pub open spec fn is_pending(&self, key: u64) -> bool {
        self@.contains_key(key) && self@[key].is_none()
    }

    /// The value of `key` has been published.
    pub open spec fn is_ready(&self, key: u64) -> bool {
        self@.contains_key(key) && self@[key].is_some()
    }

    /// Every key that is ready in `self` is ready in `later` with the same
    /// value.
    pub open spec fn ready_kept(&self, later: &Self) -> bool {
        forall|k: u64| #[trigger]
            self.is_ready(k) ==> later.is_ready(k) && later@[k] == self@[k]
    }

    /// Creates an empty cache.
    pub fn new() -> (cache: Self)
        ensures
            cache@ == Map::<u64, Option<V>>::empty(),
    {
        Cache { inner: HashMap::new() }
    }

    /// Looks `key` up and, if it is absent, claims it for the caller by
    /// marking it pending. Exactly the caller that finds the key absent is
    /// told to compute; a ready value is never touched.
    pub fn claim(&mut self, key: u64) -> (claim: Claim<V>)
        ensures
            old(self).ready_kept(final(self)),
            !final(self).is_absent(key),
            match claim {
                Claim::Ready(value) => old(self).is_ready(key) && cloned(
                    old(self)@[key].unwrap(),
                    value,
                ) && final(self)@ == old(self)@,
                Claim::Wait => old(self).is_pending(key) && final(self)@ == old(self)@,
                Claim::Compute => old(self).is_absent(key) && final(self)@ == old(self)@.insert(
                    key,
                    None,
                ),
            },
    {
        match self.inner.get(&key) {
            Some(Some(value)) => Claim::Ready(value.clone()),
            Some(None) => Claim::Wait,
            None => {
                self.inner.insert(key, None);
                Claim::Compute
            },
        }
    }

    /// Publishes the value of a pending key and says whether it did. A key
    /// that is absent or ready is left alone: a ready value never changes.
    pub fn publish(&mut self, key: u64, value: V) -> (published: bool)
        ensures
            old(self).ready_kept(final(self)),
            published == old(self).is_pending(key),
            published ==> final(self)@ == old(self)@.insert(key, Some(value)),
            !published ==> final(self)@ == old(self)@,
    {
        let pending = match self.inner.get(&key) {
            Some(None) => true,
            _ => false,
        };
        if pending {
            self.inner.insert(key, Some(value));
        }
        pending
    }

    /// Gives up a pending key whose computation failed, so that a later
    /// caller claims it anew, and says whether it did. A key that is absent
    /// or ready is left alone.
    pub fn abandon(&mut self, key: u64) -> (cleared: bool)
        ensures
            old(self).ready_kept(final(self)),
            cleared == old(self).is_pending(key),
            cleared ==> final(self)@ == old(self)@.remove(key),
            !cleared ==> final(self)@ == old(self)@,
    {
        let pending = match self.inner.get(&key) {
            Some(None) => true,
            _ => false,
        };
        if pending {
            self.inner.remove(&key);
        }
        pending
    }

    /// Retrieve the value or insert a new one created by `f`.
    ///
    /// `f` runs only if the key is absent, and then once: its result is
    /// returned and a copy of it is kept. For a ready key the kept value is
    /// copied out and `f` is dropped unused. A pending key has no answer
    /// until its computation is published, so the caller must not ask for
    /// one.
    pub fn get_or_insert_with<F: FnOnce(u64) -> V>(&mut self, key: u64, f: F) -> (value: V)
        requires
            !old(self).is_pending(key),
            old(self).is_absent(key) ==> f.requires((key,)),
        ensures
            old(self).ready_kept(final(self)),
            final(self).is_ready(key),
            old(self).is_ready(key) ==> final(self)@ == old(self)@ && cloned(
                old(self)@[key].unwrap(),
                value,
            ),
            old(self).is_absent(key) ==> f.ensures((key,), value) && final(self).is_ready(key)
                && cloned(value, final(self)@[key].unwrap()) && final(self)@.remove(key) == old(self)@,
    {
        if let Some(Some(ready)) = self.inner.get(&key) {
            return ready.clone();
        }
        self.inner.insert(key, None);
        let result = f(key);
        self.inner.insert(key, Some(result.clone()));
        assert(self@.remove(key) =~= old(self)@);
        result
    }
}

impl<V: Clone> Default for Cache<V> {
    fn default() -> (cache: Self)
        ensures
            cache@ == Map::<u64, Option<V>>::empty(),
    {
        Self::new()
    }
}

} // verus!
