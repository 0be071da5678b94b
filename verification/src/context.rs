//! Keys that name the slots a context declares, and the paths, and so the element ids, they lead to.
use vstd::prelude::*;
use vstd::std_specs::convert::FromSpec;
use vstd::std_specs::convert::FromSpecImpl;
use vstd::string::StringSliceAdditionalSpecFns;

verus! {

/// The multiplier of the multiply-rotate hash keys are made with.
pub const KEY_HASH_SEED: u64 = 0x517c_c1b7_2722_0a95;

/// The multiplier that spreads the bits of a slot's path.
pub const SLOT_MIX: u64 = 0xff51_afd7_ed55_8ccd;

/// `a * b` reduced to 64 bits.
pub open spec fn times(a: u64, b: u64) -> u64 {
    ((a as nat * b as nat) % 0x1_0000_0000_0000_0000) as u64
}

/// The hash state after one word is added to `hash`: rotate left by five, mix in the word, multiply.
pub open spec fn hash_word(hash: u64, word: u64) -> u64 {
    times(((hash << 5u64) | (hash >> 59u64)) ^ word, KEY_HASH_SEED)
}

/// The hash state after each byte is added to `hash` in turn.
pub open spec fn hash_bytes(hash: u64, bytes: Seq<u8>) -> u64
    decreases bytes.len(),
{
    if bytes.len() == 0 {
        hash
    } else {
        hash_word(hash_bytes(hash, bytes.drop_last()), bytes.last() as u64)
    }
}

/// The key of a name and, for one slot of a list, its index.
///
/// The name's bytes come first, then a terminator that keeps a name from running into its index, then whether an
/// index follows and the index itself.
pub open spec fn key_hash(name: Seq<u8>, index: Option<usize>) -> u64 {
    let named = hash_word(hash_bytes(0, name), 0xff);
    match index {
        None => hash_word(named, 0),
        Some(i) => hash_word(hash_word(named, 1), i as u64),
    }
}

/// Spreads every bit of a hash so sibling and nested ids are unrelated.
pub open spec fn spread(id: u64) -> u64 {
    let a = id ^ (id >> 33u64);
    let b = times(a, SLOT_MIX);
    b ^ (b >> 33u64)
}

/// The path, and so the element id, of the slot `key` declared in the context at path `parent`. It is never zero.
#[verifier::opaque]
pub open spec fn slot_path_of(parent: u64, key: u64) -> u64 {
    let id = spread(hash_word(hash_word(0, parent), key));
    if id == 0 {
        1
    } else {
        id
    }
}

/// The `ElementKey` struct names one slot under a context: an element, a component, or a mount.
///
/// A static name identifies a fixed part of a component, such as `"title"`. A name made at runtime, such as one node
/// of a graph, is keyed by its content: an owned `String` gives the same key as the same text borrowed. Siblings
/// declared from one list use a `(name, index)` pair, such as `("row", index)`.
///
/// Keys under one parent must be distinct: declaring the same key twice under the same parent in one frame is an
/// error. A key is hashed when it is made, so it never keeps the name alive.
#[derive(Debug, Clone, Copy, PartialEq, Eq, Hash, Structural)]
pub struct ElementKey(u64);

/// The `KeyHasher` struct hashes a key's name one byte at a time, so a name written in pieces hashes like the same
/// name in one string.
struct KeyHasher {
    hash: u64,
}

impl KeyHasher {
    fn new() -> (r: Self)
        ensures
            r.hash == 0,
    {
        KeyHasher { hash: 0 }
    }

    fn write_word(&mut self, word: u64)
        ensures
            final(self).hash == hash_word(old(self).hash, word),
    {
        let rotated = (self.hash << 5u64) | (self.hash >> 59u64);
        self.hash = (rotated ^ word).wrapping_mul(KEY_HASH_SEED);
    }

    fn write_str(&mut self, part: &str)
        ensures
            final(self).hash == hash_bytes(old(self).hash, part.spec_bytes()),
    {
        let bytes = part.as_bytes();
        let mut i: usize = 0;
        while i < bytes.len()
            invariant
                i <= bytes@.len(),
                bytes@ == part.spec_bytes(),
                self.hash == hash_bytes(old(self).hash, bytes@.take(i as int)),
            decreases bytes@.len() - i,
        {
            proof {
                assert(bytes@.take(i + 1).drop_last() =~= bytes@.take(i as int));
                assert(bytes@.take(i + 1).last() == bytes@[i as int]);
            }
            self.write_word(bytes[i] as u64);
            i = i + 1;
        }
        proof {
            assert(bytes@.take(bytes@.len() as int) =~= bytes@);
        }
    }

    fn finish(self, index: Option<usize>) -> (r: ElementKey)
        ensures
            r@ == ({
                let named = hash_word(self.hash, 0xff);
                match index {
                    None => hash_word(named, 0),
                    Some(i) => hash_word(hash_word(named, 1), i as u64),
                }
            }),
    {
        let mut hasher = self;
        // The terminator keeps a name from running into its index.
        hasher.write_word(0xff);
        match index {
            None => hasher.write_word(0),
            Some(i) => {
                hasher.write_word(1);
                hasher.write_word(i as u64);
            },
        }
        ElementKey(hasher.hash)
    }
}

impl ElementKey {
    /// The hash this key carries.
    pub closed spec fn view(&self) -> u64 {
        self.0
    }

    /// Hashes a name and, for one slot of a list, its index. A plain name and the same name with an index differ.
    pub fn new(name: &str, index: Option<usize>) -> (r: Self)
        ensures
            r@ == key_hash(name.spec_bytes(), index),
    {
        let mut hasher = KeyHasher::new();
        hasher.write_str(name);
        hasher.finish(index)
    }

    /// Returns the hash this key carries.
    pub fn hash_value(&self) -> (r: u64)
        ensures
            r == self@,
    {
        self.0
    }
}

impl<'a> From<&'a str> for ElementKey {
    fn from(name: &'a str) -> (r: Self)
        ensures
            r@ == key_hash(name.spec_bytes(), None),
    {
        Self::new(name, None)
    }
}

impl<'a> FromSpecImpl<&'a str> for ElementKey {
    open spec fn obeys_from_spec() -> bool {
        true
    }

    closed spec fn from_spec(name: &'a str) -> Self {
        ElementKey(key_hash(name.spec_bytes(), None))
    }
}

impl From<String> for ElementKey {
    fn from(name: String) -> (r: Self)
        ensures
            r@ == key_hash(vstd::utf8::encode_utf8(name@), None),
    {
        Self::new(name.as_str(), None)
    }
}

impl FromSpecImpl<String> for ElementKey {
    open spec fn obeys_from_spec() -> bool {
        true
    }

    closed spec fn from_spec(name: String) -> Self {
        ElementKey(key_hash(vstd::utf8::encode_utf8(name@), None))
    }
}

impl<'a> From<(&'a str, usize)> for ElementKey {
    fn from(pair: (&'a str, usize)) -> (r: Self)
        ensures
            r@ == key_hash(pair.0.spec_bytes(), Some(pair.1)),
    {
        Self::new(pair.0, Some(pair.1))
    }
}

impl<'a> FromSpecImpl<(&'a str, usize)> for ElementKey {
    open spec fn obeys_from_spec() -> bool {
        true
    }

    closed spec fn from_spec(pair: (&'a str, usize)) -> Self {
        ElementKey(key_hash(pair.0.spec_bytes(), Some(pair.1)))
    }
}

/// Returns the path, and so the element id, of the slot `key` declared in the context at path `parent`.
///
/// This is a pure function of its inputs: the same key under the same parent always gives the same id, and no tree
/// lookup is needed to compute it. The root context's path is `0`, which no slot can have.
pub fn slot_path(parent: u64, key: ElementKey) -> (r: u64)
    ensures
        r == slot_path_of(parent, key@),
        r != 0,
{
    proof {
        reveal(slot_path_of);
    }
    let mut hasher = KeyHasher::new();
    hasher.write_word(parent);
    hasher.write_word(key.0);
    // Spread every bit so sibling and nested ids are unrelated; the multiply-rotate hash alone leaves weak high bits.
    let mut id = hasher.hash;
    id = id ^ (id >> 33u64);
    id = id.wrapping_mul(SLOT_MIX);
    id = id ^ (id >> 33u64);
    if id == 0 {
        1
    } else {
        id
    }
}

/// A name keys the same slot whether it is borrowed or owned, such as one formatted at runtime, and either way it is
/// the key [`ElementKey::new`] makes of the name with no index.
pub proof fn owned_and_borrowed_names_key_alike<'a>(borrowed: &'a str, owned: String)
    requires
        borrowed@ == owned@,
    ensures
        <ElementKey as FromSpec<&'a str>>::from_spec(borrowed) == <ElementKey as FromSpec<String>>::from_spec(owned),
        <ElementKey as FromSpec<&'a str>>::from_spec(borrowed)@ == key_hash(borrowed.spec_bytes(), None),
{
}

} // verus!
