//! A map from block hashes to heights.
//!
//! Hashes are filed by their first eight bytes; the few that share them stand
//! in one chain.

use crate::bytes::{read_u64_at, same_array, u64_at};
use std::collections::HashMap;
use vstd::prelude::*;

verus! {

broadcast use vstd::std_specs::hash::group_hash_axioms;

/// The height under which `hash` stands in a chain.
spec fn lookup(chain: Seq<([u8; 32], u64)>, hash: Seq<u8>) -> Option<u64>
    decreases chain.len(),
{
    if chain.len() == 0 {
        None
    } else if chain.last().0@ == hash {
        Some(chain.last().1)
    } else {
        lookup(chain.drop_last(), hash)
    }
}

/// The key under which a hash is filed.
spec fn prefix(hash: Seq<u8>) -> u64 {
    u64_at(hash, 0)
}

/// A map from 32-byte hashes to heights.
pub struct HashIndex {
    chains: HashMap<u64, Vec<([u8; 32], u64)>>,
}

impl HashIndex {
    spec fn find(&self, hash: Seq<u8>) -> Option<u64> {
        if hash.len() == 32 && self.chains@.contains_key(prefix(hash)) {
            lookup(self.chains@[prefix(hash)]@, hash)
        } else {
            None
        }
    }
}

impl View for HashIndex {
    type V = Map<Seq<u8>, u64>;

    closed spec fn view(&self) -> Map<Seq<u8>, u64> {
        Map::new(|hash: Seq<u8>| self.find(hash) is Some, |hash: Seq<u8>| self.find(hash)->0)
    }
}

impl HashIndex {
    /// An empty map.
    pub fn new() -> (index: Self)
        ensures
            index@ == Map::<Seq<u8>, u64>::empty(),
    {
        let index = HashIndex { chains: HashMap::new() };
        assert(index@ =~= Map::<Seq<u8>, u64>::empty());
        index
    }

    /// Takes the chain of a key out of the map.
    fn take_chain(&mut self, key: u64) -> (chain: Vec<([u8; 32], u64)>)
        ensures
            final(self).chains@ == old(self).chains@.remove(key),
            chain@ == (if old(self).chains@.contains_key(key) {
                old(self).chains@[key]@
            } else {
                seq![]
            }),
    {
        match self.chains.remove(&key) {
            Some(chain) => chain,
            None => Vec::new(),
        }
    }

    /// Enters `hash`, or replaces the height it had.
    pub fn insert(&mut self, hash: [u8; 32], height: u64)
        ensures
            final(self)@ == old(self)@.insert(hash@, height),
    {
        self.remove(&hash);
        let ghost removed = *self;
        let key: u64 = read_u64_at(hash.as_slice(), 0);
        let mut chain = self.take_chain(key);
        let ghost before = chain@;
        chain.push((hash, height));
        self.chains.insert(key, chain);
        proof {
            assert(chain@.drop_last() =~= before);
            assert forall|h: Seq<u8>| self.find(h) == (if h == hash@ {
                Some(height)
            } else {
                removed.find(h)
            }) by {
                if prefix(h) == key && h.len() == 32 {
                    assert(self.find(h) == lookup(chain@, h));
                    if !removed.chains@.contains_key(key) {
                        assert(lookup(before, h) is None);
                    }
                }
            }
            assert(self@ =~= removed@.insert(hash@, height));
            assert(self@ =~= old(self)@.insert(hash@, height));
        }
    }

    /// Removes `hash` and returns the height it had.
    pub fn remove(&mut self, hash: &[u8; 32]) -> (height: Option<u64>)
        ensures
            final(self)@ == old(self)@.remove(hash@),
            height == (if old(self)@.contains_key(hash@) {
                Some(old(self)@[hash@])
            } else {
                None
            }),
    {
        let key: u64 = read_u64_at(hash.as_slice(), 0);
        let chain = self.take_chain(key);
        let mut found: Option<u64> = None;
        let mut rest: Vec<([u8; 32], u64)> = Vec::new();
        let mut i: usize = 0;
        while i < chain.len()
            invariant
                i <= chain@.len(),
                found == lookup(chain@.take(i as int), hash@),
                forall|h: Seq<u8>| h != hash@ ==> #[trigger] lookup(rest@, h) == lookup(
                    chain@.take(i as int),
                    h,
                ),
                lookup(rest@, hash@) is None,
            decreases chain@.len() - i,
        {
            let entry = chain[i];
            let ghost kept = rest@;
            let ghost done = chain@.take(i + 1);
            assert(done.drop_last() =~= chain@.take(i as int));
            assert(done.last() == entry);
            if same_array(&entry.0, hash) {
                found = Some(entry.1);
            } else {
                rest.push(entry);
                assert(rest@.drop_last() =~= kept);
            }
            assert forall|h: Seq<u8>| h != hash@ implies #[trigger] lookup(rest@, h) == lookup(
                done,
                h,
            ) by {
                assert(lookup(kept, h) == lookup(done.drop_last(), h));
            }
            i += 1;
        }
        assert(chain@.take(i as int) =~= chain@);
        let ghost remaining = rest@;
        if rest.len() > 0 {
            self.chains.insert(key, rest);
        }
        proof {
            assert forall|h: Seq<u8>| self.find(h) == (if h == hash@ {
                None
            } else {
                old(self).find(h)
            }) by {
                if prefix(h) == key && h.len() == 32 {
                    if remaining.len() == 0 {
                        assert(lookup(remaining, h) is None);
                    }
                    if !old(self).chains@.contains_key(key) {
                        assert(lookup(chain@, h) is None);
                    }
                }
            }
            assert(self@ =~= old(self)@.remove(hash@));
        }
        found
    }
}

} // verus!
