//! A map from byte strings to values.
//!
//! Entries lie in buckets by a hash of their key. What the map holds depends on
//! the keys alone: the hash decides only how far a lookup has to search.

use std::collections::BTreeMap;

use vstd::prelude::*;

use crate::path::{copy_bytes, same_bytes};

verus! {

broadcast use vstd::std_specs::btree::group_btree_axioms;

/// One entry.
#[derive(Debug)]
struct Slot<V> {
    key: Vec<u8>,
    value: V,
}

/// A map from byte strings to values.
#[derive(Debug)]
pub struct ByteMap<V> {
    buckets: BTreeMap<u64, Vec<Slot<V>>>,
}

/// The hash of a key with one more byte.
spec fn mixed(hash: u64, byte: u8) -> u64 {
    ((hash % 0x100_0000_0000_0000) * 31 + byte) as u64
}

/// The hash of a key.
spec fn hash_of(key: Seq<u8>) -> u64
    decreases key.len(),
{
    if key.len() == 0 {
        0
    } else {
        mixed(hash_of(key.drop_last()), key.last())
    }
}

/// Computes the hash of a key.
fn hash(key: &[u8]) -> (r: u64)
    ensures
        r == hash_of(key@),
{
    let mut h: u64 = 0;
    let mut i: usize = 0;
    assert(key@.take(0) =~= Seq::empty());
    while i < key.len()
        invariant
            i <= key@.len(),
            h == hash_of(key@.take(i as int)),
        decreases key@.len() - i,
    {
        assert(key@.take(i + 1).drop_last() =~= key@.take(i as int));
        h = (h % 0x100_0000_0000_0000) * 31 + key[i] as u64;
        i = i + 1;
    }
    assert(key@.take(i as int) =~= key@);
    h
}

/// Whether `key` stands at `i` in its bucket.
spec fn stands_at<V>(buckets: Map<u64, Vec<Slot<V>>>, key: Seq<u8>, i: int) -> bool {
    let h = hash_of(key);
    buckets.contains_key(h) && 0 <= i < buckets[h]@.len() && buckets[h]@[i].key@ == key
}

/// Where `key` stands in its bucket.
spec fn place_of<V>(buckets: Map<u64, Vec<Slot<V>>>, key: Seq<u8>) -> int {
    choose|i: int| stands_at(buckets, key, i)
}

/// Whether the slots of a bucket have different keys, all of this hash.
spec fn bucket_wf<V>(h: u64, slots: Seq<Slot<V>>) -> bool {
    &&& forall|i: int| 0 <= i < slots.len() ==> hash_of((#[trigger] slots[i]).key@) == h
    &&& forall|i: int, j: int|
        0 <= i < j < slots.len() ==> (#[trigger] slots[i]).key@ != (#[trigger] slots[j]).key@
}

impl<V> View for ByteMap<V> {
    type V = Map<Seq<u8>, V>;

    closed spec fn view(&self) -> Map<Seq<u8>, V> {
        Map::new(
            |k: Seq<u8>| exists|i: int| stands_at(self.buckets@, k, i),
            |k: Seq<u8>| self.buckets@[hash_of(k)]@[place_of(self.buckets@, k)].value,
        )
    }
}

impl<V> ByteMap<V> {
    /// The map's invariant.
    pub closed spec fn wf(&self) -> bool {
        forall|h: u64| #[trigger]
            self.buckets@.contains_key(h) ==> bucket_wf(h, self.buckets@[h]@)
    }

    proof fn lemma_place(&self, key: Seq<u8>, i: int)
        requires
            self.wf(),
            stands_at(self.buckets@, key, i),
        ensures
            self@.contains_key(key),
            self@[key] == self.buckets@[hash_of(key)]@[i].value,
    {
        let slots = self.buckets@[hash_of(key)]@;
        let p = place_of(self.buckets@, key);
        assert(stands_at(self.buckets@, key, p));
        assert(bucket_wf(hash_of(key), slots));
        if p < i {
            assert(slots[p].key@ != slots[i].key@);
        } else if i < p {
            assert(slots[i].key@ != slots[p].key@);
        }
    }

    /// An empty map.
    pub fn new() -> (r: ByteMap<V>)
        ensures
            r.wf(),
            r@ == Map::<Seq<u8>, V>::empty(),
    {
        let r = ByteMap { buckets: BTreeMap::new() };
        assert(r@ =~= Map::<Seq<u8>, V>::empty());
        r
    }

    /// Where `key` stands in its bucket.
    fn find(slots: &Vec<Slot<V>>, key: &[u8]) -> (r: Option<usize>)
        ensures
            match r {
                Some(i) => i < slots@.len() && slots@[i as int].key@ == key@,
                None => forall|i: int| 0 <= i < slots@.len() ==> (#[trigger] slots@[i]).key@
                    != key@,
            },
    {
        let mut i: usize = 0;
        while i < slots.len()
            invariant
                i <= slots@.len(),
                forall|j: int| 0 <= j < i ==> (#[trigger] slots@[j]).key@ != key@,
            decreases slots@.len() - i,
        {
            if same_bytes(slots[i].key.as_slice(), key) {
                return Some(i);
            }
            i = i + 1;
        }
        None
    }

    /// The value at `key`.
    pub fn get(&self, key: &[u8]) -> (r: Option<&V>)
        requires
            self.wf(),
        ensures
            match r {
                Some(value) => self@.contains_key(key@) && self@[key@] == *value,
                None => !self@.contains_key(key@),
            },
    {
        match self.buckets.get(&hash(key)) {
            Some(slots) => match Self::find(slots, key) {
                Some(i) => {
                    proof {
                        self.lemma_place(key@, i as int);
                    }
                    Some(&slots[i].value)
                },
                None => None,
            },
            None => None,
        }
    }

    /// Takes `key` out, and returns the value that was there.
    pub fn remove(&mut self, key: &[u8]) -> (r: Option<V>)
        requires
            old(self).wf(),
        ensures
            final(self).wf(),
            final(self)@ == old(self)@.remove(key@),
            r == (if old(self)@.contains_key(key@) {
                Some(old(self)@[key@])
            } else {
                None
            }),
    {
        let h: u64 = hash(key);
        let mut slots = match self.buckets.remove(&h) {
            Some(slots) => slots,
            None => {
                assert(self.buckets@ =~= old(self).buckets@);
                assert(!old(self)@.contains_key(key@));
                assert(self@ =~= old(self)@.remove(key@));
                return None;
            },
        };
        let ghost before = slots@;
        assert(bucket_wf(h, before));
        let found = Self::find(&slots, key);
        let r: Option<V> = match found {
            Some(i) => {
                proof {
                    old(self).lemma_place(key@, i as int);
                }
                let slot = slots.remove(i);
                Some(slot.value)
            },
            None => None,
        };
        self.buckets.insert(h, slots);
        proof {
            let after = slots@;
            assert(bucket_wf(h, after));
            assert(self.wf());
            assert forall|k: Seq<u8>|
                #![trigger self@.contains_key(k)]
                (self@.contains_key(k) <==> old(self)@.remove(key@).contains_key(k)) && (
                self@.contains_key(k) ==> self@[k] == old(self)@[k]) by {
                if old(self)@.contains_key(k) && k != key@ {
                    let p = place_of(old(self).buckets@, k);
                    assert(stands_at(old(self).buckets@, k, p));
                    old(self).lemma_place(k, p);
                    if hash_of(k) == h {
                        let q = match found {
                            Some(i) if p > i => p - 1,
                            _ => p,
                        };
                        assert(stands_at(self.buckets@, k, q));
                        self.lemma_place(k, q);
                    } else {
                        assert(stands_at(self.buckets@, k, p));
                        self.lemma_place(k, p);
                    }
                }
                if self@.contains_key(k) {
                    let p = place_of(self.buckets@, k);
                    assert(stands_at(self.buckets@, k, p));
                    if hash_of(k) == h {
                        let q = match found {
                            Some(i) if p >= i => p + 1,
                            _ => p,
                        };
                        assert(before[q].key@ == k);
                        assert(stands_at(old(self).buckets@, k, q));
                        if let Some(i) = found {
                            assert(before[i as int].key@ == key@);
                        }
                    } else {
                        assert(stands_at(old(self).buckets@, k, p));
                    }
                }
            }
            assert(self@ =~= old(self)@.remove(key@));
        }
        r
    }

    /// Puts `value` at `key`.
    pub fn insert(&mut self, key: &[u8], value: V)
        requires
            old(self).wf(),
        ensures
            final(self).wf(),
            final(self)@ == old(self)@.insert(key@, value),
    {
        self.remove(key);
        let ghost mid = *self;
        let h: u64 = hash(key);
        let mut slots = match self.buckets.remove(&h) {
            Some(slots) => slots,
            None => Vec::new(),
        };
        let ghost before = slots@;
        assert(bucket_wf(h, before));
        assert forall|i: int| 0 <= i < before.len() implies (#[trigger] before[i]).key@
            != key@ by {
            if before[i].key@ == key@ {
                assert(stands_at(mid.buckets@, key@, i));
                mid.lemma_place(key@, i);
            }
        }
        slots.push(Slot { key: copy_bytes(key), value });
        self.buckets.insert(h, slots);
        proof {
            assert(bucket_wf(h, slots@));
            assert(self.wf());
            assert(stands_at(self.buckets@, key@, before.len() as int));
            self.lemma_place(key@, before.len() as int);
            assert forall|k: Seq<u8>|
                #![trigger self@.contains_key(k)]
                k != key@ implies (self@.contains_key(k) <==> mid@.contains_key(k)) && (
            self@.contains_key(k) ==> self@[k] == mid@[k]) by {
                if mid@.contains_key(k) {
                    let p = place_of(mid.buckets@, k);
                    assert(stands_at(mid.buckets@, k, p));
                    mid.lemma_place(k, p);
                    assert(stands_at(self.buckets@, k, p));
                    self.lemma_place(k, p);
                }
                if self@.contains_key(k) {
                    let p = place_of(self.buckets@, k);
                    assert(stands_at(self.buckets@, k, p));
                    assert(stands_at(mid.buckets@, k, p));
                }
            }
            assert(self@ =~= old(self)@.insert(key@, value));
        }
    }
}

} // verus!
