//! A hash map from paths to numbers.

use vstd::prelude::*;

verus! {

/// Numbers by the parts of paths, in a `hashbrown::HashMap`.
#[verifier::external_body]
pub struct PathIndex {
    map: hashbrown::HashMap<Vec<Vec<u8>>, usize>,
}

/// What a path index holds.
pub uninterp spec fn slots(m: PathIndex) -> Map<Seq<Seq<u8>>, usize>;

/// What an empty path index holds.
pub open spec fn no_slots() -> Map<Seq<Seq<u8>>, usize> {
    Map::empty()
}

/// The parts of a path as sequences.
pub open spec fn key_of(parts: Seq<Vec<u8>>) -> Seq<Seq<u8>> {
    parts.map_values(|p: Vec<u8>| p@)
}

impl PathIndex {
    /// `HashMap::new` makes an empty map.
    #[verifier::external_body]
    pub(crate) fn new() -> (r: PathIndex)
        ensures
            slots(r) == no_slots(),
    {
        PathIndex { map: hashbrown::HashMap::new() }
    }

    /// `HashMap::get` finds the value of a key that is present. Two keys are
    /// the same where their parts are the same bytes.
    #[verifier::external_body]
    pub(crate) fn get(&self, key: &Vec<Vec<u8>>) -> (r: Option<usize>)
        ensures
            r == (if slots(*self).contains_key(key_of(key@)) {
                Some(slots(*self)[key_of(key@)])
            } else {
                None
            }),
    {
        self.map.get(key).copied()
    }

    /// `HashMap::insert` sets the value of a key and leaves the others.
    #[verifier::external_body]
    pub(crate) fn insert(&mut self, key: Vec<Vec<u8>>, value: usize)
        ensures
            slots(*final(self)) == slots(*old(self)).insert(key_of(key@), value),
    {
        self.map.insert(key, value);
    }

    /// `HashMap::remove` takes a key out, if it is present, and leaves the
    /// others.
    #[verifier::external_body]
    pub(crate) fn remove(&mut self, key: &Vec<Vec<u8>>)
        ensures
            slots(*final(self)) == slots(*old(self)).remove(key_of(key@)),
    {
        self.map.remove(key);
    }
}

} // verus!
