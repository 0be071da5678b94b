//! The bounded cache of whole-string text measurements.
//!
//! Measurements are kept in two generations. New ones go to the current generation; when it is full, it becomes the
//! previous one and a fresh generation starts. Recent labels so stay available through a rotation, while a changing
//! counter cannot make the cache hold every value it ever showed.
use std::collections::HashMap;

use vstd::hash_map::StringHashMap;
use vstd::prelude::*;

verus! {

/// The most measurements one generation holds.
pub const MEASURE_CACHE_ENTRIES: usize = 4096;

/// The most bytes of text one generation holds.
pub const MEASURE_CACHE_BYTES: usize = 512 * 1024;

/// What the generation `generation` holds for `text` at the font size with bit pattern `size`.
pub open spec fn generation_lookup<V>(generation: Map<u32, StringHashMap<V>>, size: u32, text: Seq<char>) -> Option<V> {
    if generation.contains_key(size) && generation[size]@.contains_key(text) {
        Some(generation[size]@[text])
    } else {
        None
    }
}

/// The `MeasureCache` struct keeps text measurements `V` by font size, keyed by the size's bit pattern, and text.
#[verifier::reject_recursive_types(V)]
pub struct MeasureCache<V> {
    current: HashMap<u32, StringHashMap<V>>,
    previous: HashMap<u32, StringHashMap<V>>,
    /// Measurements added to the current generation.
    entries: usize,
    /// Bytes of text added to the current generation.
    bytes: usize,
}

impl<V: Copy> MeasureCache<V> {
    /// The current generation.
    pub closed spec fn current_view(&self) -> Map<u32, StringHashMap<V>> {
        self.current@
    }

    /// The previous generation.
    pub closed spec fn previous_view(&self) -> Map<u32, StringHashMap<V>> {
        self.previous@
    }

    /// The measurements added to the current generation.
    pub closed spec fn entries_view(&self) -> nat {
        self.entries as nat
    }

    /// The bytes of text added to the current generation.
    pub closed spec fn bytes_view(&self) -> nat {
        self.bytes as nat
    }

    /// What the cache holds for `text` at size `size`: the current generation's measurement, or else the previous
    /// one's.
    pub open spec fn cached(&self, size: u32, text: Seq<char>) -> Option<V> {
        match generation_lookup(self.current_view(), size, text) {
            Some(v) => Some(v),
            None => generation_lookup(self.previous_view(), size, text),
        }
    }

    /// A generation never holds more measurements or more bytes of text than its bounds.
    pub open spec fn wf(&self) -> bool {
        &&& self.entries_view() <= MEASURE_CACHE_ENTRIES
        &&& self.bytes_view() <= MEASURE_CACHE_BYTES
    }

    /// Creates an empty cache.
    pub fn new() -> (r: Self)
        ensures
            r.wf(),
            r.current_view() == Map::<u32, StringHashMap<V>>::empty(),
            r.previous_view() == Map::<u32, StringHashMap<V>>::empty(),
            r.entries_view() == 0,
            r.bytes_view() == 0,
    {
        MeasureCache { current: HashMap::new(), previous: HashMap::new(), entries: 0, bytes: 0 }
    }

    /// Returns the measurement kept for `text` at size `size`, from either generation.
    pub fn get(&self, size: u32, text: &str) -> (r: Option<V>)
        ensures
            r == self.cached(size, text@),
    {
        broadcast use vstd::std_specs::hash::group_hash_axioms;
        match self.current.get(&size) {
            Some(sizes) => match sizes.get(text) {
                Some(v) => {
                    return Some(*v);
                },
                None => {},
            },
            None => {},
        }
        match self.previous.get(&size) {
            Some(sizes) => match sizes.get(text) {
                Some(v) => Some(*v),
                None => None,
            },
            None => None,
        }
    }

    /// Keeps `value` as the measurement of `text` at size `size`. A text longer than a generation's byte bound is
    /// not kept. When the current generation is full, or would pass its byte bound, it becomes the previous one first
    /// and the measurement starts a fresh generation.
    ///
    /// A measurement just kept is found again, and one the current generation held is still found afterwards,
    /// through at most one rotation.
    pub fn insert(&mut self, size: u32, text: &str, value: V)
        requires
            old(self).wf(),
        ensures
            final(self).wf(),
            text.len() <= MEASURE_CACHE_BYTES ==> final(self).cached(size, text@) == Some(value),
            text.len() <= MEASURE_CACHE_BYTES ==> forall|s: u32, t: Seq<char>|
                (s != size || t != text@) && generation_lookup(old(self).current_view(), s, t) is Some ==> #[trigger]
                    final(self).cached(s, t) == generation_lookup(old(self).current_view(), s, t),
            ({
                let len = text.len();
                let rotates = old(self).entries_view() == MEASURE_CACHE_ENTRIES || old(self).bytes_view() + len
                    > MEASURE_CACHE_BYTES;
                if len > MEASURE_CACHE_BYTES {
                    *final(self) == *old(self)
                } else if rotates {
                    &&& final(self).previous_view() == old(self).current_view()
                    &&& final(self).entries_view() == 1
                    &&& final(self).bytes_view() == len
                    &&& forall|s: u32, t: Seq<char>| #[trigger]
                        generation_lookup(final(self).current_view(), s, t) == if s == size && t == text@ {
                            Some(value)
                        } else {
                            None
                        }
                } else {
                    &&& final(self).previous_view() == old(self).previous_view()
                    &&& final(self).entries_view() == old(self).entries_view() + 1
                    &&& final(self).bytes_view() == old(self).bytes_view() + len
                    &&& forall|s: u32, t: Seq<char>| #[trigger]
                        generation_lookup(final(self).current_view(), s, t) == if s == size && t == text@ {
                            Some(value)
                        } else {
                            generation_lookup(old(self).current_view(), s, t)
                        }
                }
            }),
    {
        broadcast use vstd::std_specs::hash::group_hash_axioms;
        let len = text.len();
        if len > MEASURE_CACHE_BYTES {
            return;
        }
        if self.entries == MEASURE_CACHE_ENTRIES || self.bytes + len > MEASURE_CACHE_BYTES {
            std::mem::swap(&mut self.current, &mut self.previous);
            self.current.clear();
            self.entries = 0;
            self.bytes = 0;
        }
        let ghost before = self.current@;
        let mut sizes = match self.current.remove(&size) {
            Some(sizes) => sizes,
            None => StringHashMap::new(),
        };
        let ghost kept = sizes@;
        sizes.insert(text.to_string(), value);
        self.current.insert(size, sizes);
        self.entries = self.entries + 1;
        self.bytes = self.bytes + len;
        proof {
            assert forall|s: u32, t: Seq<char>| #[trigger]
                generation_lookup(self.current@, s, t) == if s == size && t == text@ {
                    Some(value)
                } else {
                    generation_lookup(before, s, t)
                } by {
                if s == size {
                    if before.contains_key(size) {
                        assert(kept == before[size]@);
                    } else {
                        assert(kept == Map::<Seq<char>, V>::empty());
                    }
                }
            }
        }
    }
}

} // verus!
