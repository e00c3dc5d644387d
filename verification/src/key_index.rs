//! The places of voxel keys in a list.
use crate::voxel::{id_identifies, VoxelKey};
use std::collections::HashMap;
use vstd::prelude::*;
use vstd::std_specs::hash::group_hash_axioms;

verus! {

/// The identifying number of a key as a map index.
pub open spec fn map_index(key: VoxelKey) -> u128 {
    key.id_spec() as u128
}

/// Finds the place of a key in a list of distinct keys, which grows at its end.
pub struct KeyIndex {
    places: HashMap<u128, usize>,
    /// The list.
    keys: Ghost<Seq<VoxelKey>>,
}

impl KeyIndex {
    /// The keys in the order of their places.
    pub closed spec fn view(self) -> Seq<VoxelKey> {
        self.keys@
    }

    pub closed spec fn wf(self) -> bool {
        &&& forall|i: int|
            0 <= i < self.keys@.len() ==> self.places@.contains_key(
                map_index(#[trigger] self.keys@[i]),
            ) && self.places@[map_index(self.keys@[i])] == i
        &&& forall|k: VoxelKey| #[trigger]
            self.places@.contains_key(map_index(k)) ==> self.places@[map_index(k)]
                < self.keys@.len() && self.keys@[self.places@[map_index(k)] as int] == k
    }

    pub fn new() -> (r: KeyIndex)
        ensures
            r.wf(),
            r@ == Seq::<VoxelKey>::empty(),
    {
        broadcast use group_hash_axioms;

        KeyIndex { places: HashMap::new(), keys: Ghost(Seq::empty()) }
    }

    /// The place of a key, if it is in the list.
    pub fn find(&self, key: &VoxelKey) -> (r: Option<usize>)
        requires
            self.wf(),
        ensures
            r is Some <==> self@.contains(*key),
            r is Some ==> r->0 < self@.len() && self@[r->0 as int] == *key,
    {
        broadcast use group_hash_axioms;

        let id: u128 = key.id();
        assert(id == map_index(*key));
        match self.places.get(&id) {
            Some(place) => Some(*place),
            None => {
                assert(!self@.contains(*key)) by {
                    if self@.contains(*key) {
                        let i = self@.index_of(*key);
                        assert(self.places@.contains_key(map_index(self.keys@[i])));
                    }
                }
                None
            },
        }
    }

    /// Puts a new key at the end of the list, whose length is `len`.
    pub fn push(&mut self, key: VoxelKey, len: usize)
        requires
            old(self).wf(),
            len == old(self)@.len(),
            !old(self)@.contains(key),
        ensures
            final(self).wf(),
            final(self)@ == old(self)@.push(key),
    {
        broadcast use group_hash_axioms;

        self.places.insert(key.id(), len);
        self.keys = Ghost(self.keys@.push(key));
        proof {
            let before = old(self).keys@;
            let now = self.keys@;
            assert forall|i: int| 0 <= i < now.len() implies self.places@.contains_key(
                map_index(#[trigger] now[i]),
            ) && self.places@[map_index(now[i])] == i by {
                if i < len {
                    assert(now[i] == before[i]);
                    if map_index(now[i]) == map_index(key) {
                        id_identifies(now[i], key);
                        assert(before.contains(key));
                    }
                }
            }
            assert forall|k: VoxelKey| #[trigger]
                self.places@.contains_key(map_index(k)) implies self.places@[map_index(k)]
                < now.len() && now[self.places@[map_index(k)] as int] == k by {
                if map_index(k) == map_index(key) {
                    id_identifies(k, key);
                } else {
                    assert(old(self).places@.contains_key(map_index(k)));
                }
            }
        }
    }

    /// The keys are distinct.
    pub proof fn lemma_distinct(self)
        requires
            self.wf(),
        ensures
            self@.no_duplicates(),
    {
        assert forall|i: int, j: int|
            0 <= i < self@.len() && 0 <= j < self@.len() && i != j implies self@[i] != self@[j] by {
            assert(self.places@[map_index(self.keys@[i])] == i);
            assert(self.places@[map_index(self.keys@[j])] == j);
        }
    }
}

} // verus!
