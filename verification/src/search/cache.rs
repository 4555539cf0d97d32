//! A small keyed store: one layer of the pattern cache, mapping a pattern
//! text to the score map computed for it, in insertion order.

use vstd::prelude::*;

use crate::string_map::StringMap;
use crate::string_map::seq_find;

verus! {

/// A capacity hint and an insertion-ordered map behind it.
#[derive(Debug)]
pub struct SimpleStore<T> {
    pub capacity: usize,
    pub cache: StringMap<T>,
}

impl<T> SimpleStore<T> {
    /// An empty store that expects about `capacity` entries.
    pub fn new(capacity: usize) -> (r: Self)
        ensures
            r.capacity == capacity,
            r.cache@ == Seq::<(Seq<char>, T)>::empty(),
    {
        Self { capacity, cache: StringMap::with_capacity(capacity) }
    }

    /// The stored value for a pattern text, if any.
    pub fn get(&self, key: &str) -> (r: Option<&T>)
        ensures
            match r {
                Some(v) => seq_find(self.cache@, key@) matches Some(j) && *v == self.cache@[j].1,
                None => seq_find(self.cache@, key@) is None,
            },
    {
        self.cache.get(key)
    }

    /// Store a value under a pattern text.
    pub fn set(&mut self, key: &str, value: T)
        ensures
            match seq_find(old(self).cache@, key@) {
                Some(j) => final(self).cache@ == old(self).cache@.update(
                    j,
                    (old(self).cache@[j].0, value),
                ),
                None => final(self).cache@ == old(self).cache@.push((key@, value)),
            },
            final(self).capacity == old(self).capacity,
    {
        self.cache.insert(key.to_owned(), value);
    }

    /// Drop every entry.
    pub fn clear(&mut self)
        ensures
            final(self).cache@ == Seq::<(Seq<char>, T)>::empty(),
            final(self).capacity == old(self).capacity,
    {
        self.cache.clear();
    }
}

} // verus!
