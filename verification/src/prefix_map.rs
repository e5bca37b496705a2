//! A map from prefixes to values that remembers the order in which its keys
//! came.
//!
//! The entries lie in a list, in the order of their first insertion. A key
//! is found through an index that files the place of every entry under a
//! number computed from its key, so that a lookup compares only the few
//! keys that share that number.

use std::collections::HashMap;

use vstd::prelude::*;
use vstd::std_specs::hash::*;

use crate::ip_address::IpAddress;
use crate::routing_prefix::RoutingPrefix;

verus! {

broadcast use vstd::std_specs::hash::group_hash_axioms;

struct PrefixEntry<V> {
    key: RoutingPrefix,
    value: V,
}

/// An insertion-ordered map keyed by [`RoutingPrefix`].
pub struct PrefixMap<V> {
    entries: Vec<PrefixEntry<V>>,
    index: HashMap<u64, Vec<usize>>,
}

/// Four groups of an IPv6 address as one number.
spec fn packed(a: u16, b: u16, c: u16, d: u16) -> u64 {
    (((a * 65536 + b) * 65536 + c) * 65536 + d) as u64
}

/// The number under which the index files a key. An IPv4 prefix has a
/// number of its own; IPv6 prefixes share one where the two halves of the
/// address and the mask length mix to the same bits.
spec fn bucket_of(key: RoutingPrefix) -> u64 {
    match key.ip {
        IpAddress::V4(a, b, c, d) => ((((key.mask * 256 + a) * 256 + b) * 256 + c) * 256
            + d) as u64,
        IpAddress::V6(a, b, c, d, e, f, g, h) => packed(a, b, c, d) ^ packed(e, f, g, h) ^ (
        key.mask as u64),
    }
}

/// Whether `index` files the place `i` under the number of the key there.
spec fn filed(index: Map<u64, Vec<usize>>, keys: Seq<RoutingPrefix>, i: int) -> bool {
    let at = bucket_of(keys[i]);
    index.contains_key(at) && index[at]@.contains(i as usize)
}

/// Whether `index` files every place of `keys`, and no other place.
spec fn covers(index: Map<u64, Vec<usize>>, keys: Seq<RoutingPrefix>) -> bool {
    &&& forall|i: int| 0 <= i < keys.len() ==> #[trigger] filed(index, keys, i)
    &&& forall|at: u64, j: int|
        index.contains_key(at) && 0 <= j < index[at]@.len() ==> (#[trigger] index[at]@[j])
            < keys.len()
}

fn pack(a: u16, b: u16, c: u16, d: u16) -> (r: u64)
    ensures
        r == packed(a, b, c, d),
{
    (((a as u64) * 65536 + (b as u64)) * 65536 + (c as u64)) * 65536 + (d as u64)
}

fn bucket(key: &RoutingPrefix) -> (r: u64)
    ensures
        r == bucket_of(*key),
{
    match key.ip {
        IpAddress::V4(a, b, c, d) => ((((key.mask as u64) * 256 + (a as u64)) * 256 + (
        b as u64)) * 256 + (c as u64)) * 256 + (d as u64),
        IpAddress::V6(a, b, c, d, e, f, g, h) => pack(a, b, c, d) ^ pack(e, f, g, h) ^ (
        key.mask as u64),
    }
}

impl<V> PrefixMap<V> {
    /// The keys in the order of their first insertion.
    pub closed spec fn keys(&self) -> Seq<RoutingPrefix> {
        Seq::new(self.entries@.len(), |i: int| self.entries@[i].key)
    }

    /// The values, each at the place of its key.
    pub closed spec fn values(&self) -> Seq<V> {
        Seq::new(self.entries@.len(), |i: int| self.entries@[i].value)
    }

    /// The index files every entry, and nothing beyond the entries.
    pub closed spec fn indexed(&self) -> bool {
        covers(self.index@, self.keys())
    }

    /// No key occurs twice, each key has its value, and every key can be
    /// found.
    pub open spec fn wf(&self) -> bool {
        &&& self.keys().len() == self.values().len()
        &&& self.keys().no_duplicates()
        &&& self.indexed()
    }

    /// The map from each key to its value.
    pub open spec fn view(&self) -> Map<RoutingPrefix, V> {
        Map::new(
            |k: RoutingPrefix| self.keys().contains(k),
            |k: RoutingPrefix| self.values()[self.keys().index_of(k)],
        )
    }

    /// In a well-formed map, the value of the key at place `i` is the value
    /// at place `i`.
    pub proof fn lemma_view_at(&self, i: int)
        requires
            self.wf(),
            0 <= i < self.keys().len(),
        ensures
            self@.dom().contains(self.keys()[i]),
            self@[self.keys()[i]] == self.values()[i],
    {
        let k = self.keys()[i];
        let j = self.keys().index_of(k);
        assert(self.keys()[j] == k);
        assert(j == i);
    }

    /// An empty map.
    pub fn new() -> (map: Self)
        ensures
            map.wf(),
            map.keys() == Seq::<RoutingPrefix>::empty(),
            map.values() == Seq::<V>::empty(),
            map@ == Map::<RoutingPrefix, V>::empty(),
    {
        let map = PrefixMap { entries: Vec::new(), index: HashMap::new() };
        assert(map.keys() =~= Seq::<RoutingPrefix>::empty());
        assert(map.values() =~= Seq::<V>::empty());
        assert(map@ =~= Map::<RoutingPrefix, V>::empty());
        map
    }

    /// The number of keys.
    pub fn len(&self) -> (n: usize)
        ensures
            n == self.keys().len(),
            n == self.values().len(),
    {
        self.entries.len()
    }

    /// The key at place `i`.
    pub fn key(&self, i: usize) -> (k: RoutingPrefix)
        requires
            i < self.keys().len(),
        ensures
            k == self.keys()[i as int],
    {
        self.entries[i].key
    }

    /// The value at place `i`.
    pub fn value(&self, i: usize) -> (v: &V)
        requires
            i < self.values().len(),
        ensures
            *v == self.values()[i as int],
    {
        &self.entries[i].value
    }

    /// The value at place `i`, to be changed where it stands.
    pub fn value_mut(&mut self, i: usize) -> (v: &mut V)
        requires
            i < old(self).values().len(),
        ensures
            *v == old(self).values()[i as int],
            final(self).keys() == old(self).keys(),
            final(self).values() == old(self).values().update(i as int, *final(v)),
            final(self).indexed() == old(self).indexed(),
    {
        let ghost before = self.entries@;
        let v = &mut self.entries[i].value;
        proof {
            let after = after_borrow(self.entries)@;
            assert(after.len() == before.len());
            assert(Seq::new(after.len(), |j: int| after[j].key) =~= Seq::new(
                before.len(),
                |j: int| before[j].key,
            ));
            assert(Seq::new(after.len(), |j: int| after[j].value) =~= Seq::new(
                before.len(),
                |j: int| before[j].value,
            ).update(i as int, *final(v)));
        }
        v
    }

    /// The place of `key`, if the map holds it.
    pub fn index_of(&self, key: &RoutingPrefix) -> (r: Option<usize>)
        requires
            self.wf(),
        ensures
            match r {
                Some(i) => i < self.keys().len() && self.keys()[i as int] == *key,
                None => !self.keys().contains(*key),
            },
    {
        let at = bucket(key);
        let n = self.entries.len();
        assert(n == self.keys().len());
        match self.index.get(&at) {
            None => {
                proof {
                    assert forall|i: int| 0 <= i < self.keys().len() implies self.keys()[i]
                        != *key by {
                        assert(filed(self.index@, self.keys(), i));
                    }
                }
                None
            },
            Some(places) => {
                let mut j: usize = 0;
                while j < places.len()
                    invariant
                        j <= places@.len(),
                        n == self.keys().len(),
                        self.wf(),
                        self.index@.contains_key(at),
                        self.index@[at] == *places,
                        forall|t: int| 0 <= t < j ==> self.keys()[places@[t] as int] != *key,
                    decreases places@.len() - j,
                {
                    let i = places[j];
                    assert(self.index@[at]@[j as int] < self.keys().len());
                    assert(self.keys()[i as int] == self.entries@[i as int].key);
                    if self.entries[i].key == *key {
                        return Some(i);
                    }
                    j += 1;
                }
                proof {
                    assert forall|i: int| 0 <= i < self.keys().len() implies self.keys()[i]
                        != *key by {
                        if self.keys()[i] == *key {
                            assert(filed(self.index@, self.keys(), i));
                            assert(places@.contains(i as usize));
                            let t = choose|t: int|
                                0 <= t < places@.len() && places@[t] == i as usize;
                            assert(self.keys()[places@[t] as int] != *key);
                        }
                    }
                }
                None
            },
        }
    }

    /// The value of `key`, if the map holds it.
    pub fn get(&self, key: &RoutingPrefix) -> (r: Option<&V>)
        requires
            self.wf(),
        ensures
            match r {
                Some(v) => self@.dom().contains(*key) && *v == self@[*key],
                None => !self@.dom().contains(*key),
            },
    {
        match self.index_of(key) {
            Some(i) => {
                proof {
                    self.lemma_view_at(i as int);
                }
                Some(&self.entries[i].value)
            },
            None => None,
        }
    }

    /// Whether the map holds `key`.
    pub fn contains_key(&self, key: &RoutingPrefix) -> (r: bool)
        requires
            self.wf(),
        ensures
            r == self.keys().contains(*key),
            r == self@.dom().contains(*key),
    {
        self.index_of(key).is_some()
    }

    /// Gives `key` the value `value`. A key that is new goes to the end; one
    /// that is there keeps its place and hands back its former value.
    pub fn insert(&mut self, key: RoutingPrefix, value: V) -> (former: Option<V>)
        requires
            old(self).wf(),
        ensures
            final(self).wf(),
            final(self)@ == old(self)@.insert(key, value),
            match former {
                Some(v) => {
                    &&& old(self)@.dom().contains(key)
                    &&& v == old(self)@[key]
                    &&& final(self).keys() == old(self).keys()
                },
                None => {
                    &&& !old(self)@.dom().contains(key)
                    &&& final(self).keys() == old(self).keys().push(key)
                    &&& final(self).values() == old(self).values().push(value)
                },
            },
    {
        match self.index_of(&key) {
            Some(i) => {
                proof {
                    self.lemma_view_at(i as int);
                }
                let ghost keys = self.keys();
                let ghost values = self.values();
                let mut value = value;
                let slot = self.value_mut(i);
                core::mem::swap(slot, &mut value);
                proof {
                    let ghost wanted = old(self)@.insert(key, self.values()[i as int]);
                    assert forall|k: RoutingPrefix| self.keys().contains(k) implies self@[k]
                        == wanted[k] by {
                        let j = self.keys().index_of(k);
                        assert(self.keys()[j] == k);
                        if j != i {
                            assert(keys[j] == k);
                        }
                    }
                    assert(self@ =~= old(self)@.insert(key, self.values()[i as int]));
                }
                Some(value)
            },
            None => {
                let ghost keys = self.keys();
                let ghost values = self.values();
                let ghost filed_before = self.index@;
                let n = self.entries.len();
                let at = bucket(&key);
                let mut places = match self.index.remove(&at) {
                    Some(places) => places,
                    None => Vec::new(),
                };
                let ghost places_before = places@;
                places.push(n);
                self.index.insert(at, places);
                self.entries.push(PrefixEntry { key, value });
                proof {
                    assert(self.keys() =~= keys.push(key));
                    assert(filed_before.contains_key(at) ==> filed_before[at]@ == places_before);
                    assert forall|i: int| 0 <= i < self.keys().len() implies #[trigger] filed(
                        self.index@,
                        self.keys(),
                        i,
                    ) by {
                        if i < n {
                            assert(filed(filed_before, keys, i));
                            let under = bucket_of(keys[i]);
                            let t = choose|t: int|
                                0 <= t < filed_before[under]@.len() && filed_before[under]@[t]
                                    == i as usize;
                            if under == at {
                                assert(self.index@[at]@[t] == i as usize);
                            } else {
                                assert(self.index@[under]@[t] == i as usize);
                            }
                        } else {
                            assert(self.index@[at]@[places_before.len() as int] == n);
                        }
                    }
                    assert forall|under: u64, j: int|
                        self.index@.contains_key(under) && 0 <= j < self.index@[under]@.len()
                        implies (#[trigger] self.index@[under]@[j]) < self.keys().len() by {
                        if under == at {
                            if j < places_before.len() {
                                assert(filed_before[at]@[j] < n);
                            }
                        } else {
                            assert(filed_before[under]@[j] < n);
                        }
                    }
                    assert(self.indexed());
                    assert(self.keys() =~= keys.push(key));
                    assert(self.values() =~= values.push(value));
                    let ghost wanted = old(self)@.insert(key, value);
                    assert forall|k: RoutingPrefix| self.keys().contains(k) implies self@[k]
                        == wanted[k] by {
                        let j = self.keys().index_of(k);
                        assert(self.keys()[j] == k);
                        if j < keys.len() {
                            assert(keys[j] == k);
                            let j0 = keys.index_of(k);
                            assert(keys[j0] == k);
                            assert(self.keys()[j0] == k);
                        }
                    }
                    assert forall|k: RoutingPrefix| old(self)@.insert(key, value).dom().contains(
                        k,
                    ) implies self.keys().contains(k) by {
                        if k == key {
                            assert(self.keys()[keys.len() as int] == k);
                        } else {
                            let j0 = keys.index_of(k);
                            assert(keys[j0] == k);
                            assert(self.keys()[j0] == k);
                        }
                    }
                    assert(self@ =~= old(self)@.insert(key, value));
                }
                None
            },
        }
    }
}

} // verus!
