//! The sequences of an assembly, found by identifier.

use vstd::hash_map::StringHashMap;
use vstd::prelude::*;

verus! {

/// A map from the identifier of a record to the bytes of its sequence.
pub struct SequenceMap {
    entries: StringHashMap<Vec<u8>>,
}

impl View for SequenceMap {
    type V = Map<Seq<char>, Seq<u8>>;

    closed spec fn view(&self) -> Map<Seq<char>, Seq<u8>> {
        Map::new(
            |id: Seq<char>| self.entries@.contains_key(id),
            |id: Seq<char>| self.entries@[id]@,
        )
    }
}

impl SequenceMap {
    /// A map without entries.
    pub fn new() -> (map: SequenceMap)
        ensures
            map@ == Map::<Seq<char>, Seq<u8>>::empty(),
    {
        let map = SequenceMap { entries: StringHashMap::new() };
        assert(map@ =~= Map::<Seq<char>, Seq<u8>>::empty());
        map
    }

    /// Puts a sequence under an identifier; an earlier sequence under it is replaced.
    pub fn insert(&mut self, id: String, seq: Vec<u8>)
        ensures
            final(self)@ == old(self)@.insert(id@, seq@),
    {
        self.entries.insert(id, seq);
        assert(self@ =~= old(self)@.insert(id@, seq@));
    }

    /// The sequence under an identifier, if there is one.
    pub fn get(&self, id: &str) -> (found: Option<&Vec<u8>>)
        ensures
            match found {
                Some(seq) => self@.contains_key(id@) && seq@ == self@[id@],
                None => !self@.contains_key(id@),
            },
    {
        self.entries.get(id)
    }

    /// Whether a sequence stands under an identifier.
    pub fn contains_key(&self, id: &str) -> (found: bool)
        ensures
            found == self@.contains_key(id@),
    {
        self.entries.contains_key(id)
    }
}

} // verus!
