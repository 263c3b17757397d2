//! The index of resting orders: from uid to the side and price at which the
//! order rests.

use vstd::prelude::*;
use vstd::hash_map::StringHashMap;
use crate::order::{Price, Side};

verus! {

/// Where each resting order rests, by uid.
pub struct OrderIndex {
    map: StringHashMap<(Side, Price)>,
}

impl View for OrderIndex {
    type V = Map<Seq<char>, (Side, Price)>;

    closed spec fn view(&self) -> Map<Seq<char>, (Side, Price)> {
        self.map@
    }
}

impl OrderIndex {
    /// An index without entries.
    pub fn new() -> (index: OrderIndex)
        ensures
            index@ == Map::<Seq<char>, (Side, Price)>::empty(),
    {
        OrderIndex { map: StringHashMap::new() }
    }

    /// The number of entries.
    pub fn len(&self) -> (count: usize)
        ensures
            count == self@.len(),
    {
        self.map.len()
    }

    /// The index has no more entries than `usize` can count.
    pub proof fn lemma_len_fits(&self)
        ensures
            self@.len() <= usize::MAX,
    {
        broadcast use vstd::hash_map::group_hash_map_axioms;

        assert(self.map.len() == self.map@.len());
    }

    /// Whether `uid` has an entry.
    pub fn has(&self, uid: &str) -> (found: bool)
        ensures
            found == self@.contains_key(uid@),
    {
        self.map.contains_key(uid)
    }

    /// Enters `uid` as resting on `side` at `price`.
    pub fn insert(&mut self, uid: String, side: Side, price: Price)
        ensures
            final(self)@ == old(self)@.insert(uid@, (side, price)),
    {
        self.map.insert(uid, (side, price));
    }

    /// Takes the entry of `uid` out and hands it back, if there is one.
    pub fn remove(&mut self, uid: &str) -> (entry: Option<(Side, Price)>)
        ensures
            final(self)@ == old(self)@.remove(uid@),
            match entry {
                Some(place) => old(self)@.contains_key(uid@) && place == old(self)@[uid@],
                None => !old(self)@.contains_key(uid@),
            },
    {
        let entry = self.get(uid);
        self.map.remove(uid);
        entry
    }

    /// The side and price at which `uid` rests, if it does.
    pub fn get(&self, uid: &str) -> (entry: Option<(Side, Price)>)
        ensures
            match entry {
                Some(place) => self@.contains_key(uid@) && place == self@[uid@],
                None => !self@.contains_key(uid@),
            },
    {
        match self.map.get(uid) {
            Some(place) => Some(*place),
            None => None,
        }
    }
}

} // verus!
