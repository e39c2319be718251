//! A map from strings to values, which finds its entries through an
//! [`AHashMap`].
//!
//! The hash map takes each key to a slot, and the slots hold the values.

use vstd::prelude::*;
use ahash::AHashMap;
use crate::batch::TakeVec;

verus! {

/// The hash map of the `ahash` crate.
#[verifier::external_type_specification]
#[verifier::external_body]
#[verifier::reject_recursive_types(K)]
#[verifier::reject_recursive_types(V)]
#[verifier::reject_recursive_types(S)]
pub struct ExAHashMap<K, V, S>(ahash::AHashMap<K, V, S>);

/// The hasher state of the `ahash` crate.
#[verifier::external_type_specification]
#[verifier::external_body]
pub struct ExRandomState(ahash::RandomState);

/// What an [`AHashMap`] holds: the slot of each key.
pub uninterp spec fn slot_map(slots: AHashMap<String, usize>) -> Map<Seq<char>, usize>;

/// The map without entries.
pub open spec fn no_entries<V>() -> Map<Seq<char>, V> {
    Map::empty()
}

/// Entries with their keys taken as sequences of characters.
pub open spec fn keyed<V>(entries: Seq<(String, V)>) -> Seq<(Seq<char>, V)> {
    entries.map_values(|entry: (String, V)| (entry.0@, entry.1))
}

/// Whether `list` holds every entry of `map` once and nothing else. The order
/// is left open.
pub open spec fn is_listing<V>(list: Seq<(Seq<char>, V)>, map: Map<Seq<char>, V>) -> bool {
    &&& forall|i: int|
        0 <= i < list.len() ==> map.dom().contains((#[trigger] list[i]).0) && map[list[i].0]
            == list[i].1
    &&& forall|i: int, j: int| 0 <= i < j < list.len() ==> (#[trigger] list[i]).0 != (
    #[trigger] list[j]).0
    &&& forall|key: Seq<char>| #[trigger]
        map.dom().contains(key) ==> exists|i: int| 0 <= i < list.len() && (#[trigger] list[i]).0 == key
}

/// Largest capacity that can be asked for up front. No allocation is larger
/// than `isize::MAX` bytes, and asking for a table that is larger panics. This
/// bound leaves 128 bytes for each entry, several times what one takes.
pub open spec fn max_capacity() -> int {
    isize::MAX as int / 128
}

/// `AHashMap::with_capacity`: the new map is empty.
#[verifier::external_body]
fn slots_with_capacity(capacity: usize) -> (slots: AHashMap<String, usize>)
    requires
        capacity <= max_capacity(),
    ensures
        slot_map(slots) == no_entries::<usize>(),
{
    AHashMap::with_capacity(capacity)
}

/// `AHashMap::get`: the slot of `key`, if the map holds the key.
#[verifier::external_body]
fn slots_get(slots: &AHashMap<String, usize>, key: &str) -> (slot: Option<usize>)
    ensures
        slot == if slot_map(*slots).dom().contains(key@) {
            Some(slot_map(*slots)[key@])
        } else {
            None
        },
{
    slots.get(key).copied()
}

/// `AHashMap::insert`: the map takes `key` to `slot`, and its other entries
/// stay as they are.
#[verifier::external_body]
fn slots_insert(slots: &mut AHashMap<String, usize>, key: String, slot: usize)
    ensures
        slot_map(*final(slots)) == slot_map(*old(slots)).insert(key@, slot),
{
    slots.insert(key, slot);
}

/// `HashMap::clear`, which an `AHashMap` dereferences to: the map is empty
/// afterwards.
#[verifier::external_body]
fn slots_clear(slots: &mut AHashMap<String, usize>)
    ensures
        slot_map(*final(slots)) == no_entries::<usize>(),
{
    slots.clear();
}

/// `HashMap::shrink_to`, which an `AHashMap` dereferences to: keeps every
/// entry. How much memory it gives back is left open.
#[verifier::external_body]
fn slots_shrink_to(slots: &mut AHashMap<String, usize>, min_capacity: usize)
    ensures
        slot_map(*final(slots)) == slot_map(*old(slots)),
{
    slots.shrink_to(min_capacity);
}

/// `HashMap::drain`, which an `AHashMap` dereferences to: hands out every
/// entry once, in an order of its own, and leaves the map empty.
#[verifier::external_body]
fn slots_drain(slots: &mut AHashMap<String, usize>) -> (entries: Vec<(String, usize)>)
    ensures
        is_listing(keyed(entries@), slot_map(*old(slots))),
        slot_map(*final(slots)) == no_entries::<usize>(),
{
    slots.drain().collect()
}

/// A map from strings to values.
#[derive(Debug)]
pub struct EntryMap<V> {
    slots: AHashMap<String, usize>,
    values: Vec<V>,
}

impl<V> View for EntryMap<V> {
    type V = Map<Seq<char>, V>;

    closed spec fn view(&self) -> Map<Seq<char>, V> {
        Map::new(
            |key: Seq<char>| slot_map(self.slots).dom().contains(key),
            |key: Seq<char>| self.values@[slot_map(self.slots)[key] as int],
        )
    }
}

impl<V> EntryMap<V> {
    /// Every key has a slot of its own, and every slot has a key.
    pub closed spec fn wf(&self) -> bool {
        let slots = slot_map(self.slots);
        &&& slots.dom().finite()
        &&& slots.len() == self.values@.len()
        &&& forall|key: Seq<char>| #[trigger]
            slots.dom().contains(key) ==> slots[key] < self.values@.len()
        &&& forall|a: Seq<char>, b: Seq<char>|
            slots.dom().contains(a) && slots.dom().contains(b) && a != b ==> #[trigger] slots[a]
                != #[trigger] slots[b]
    }

    /// Creates an empty map with room for `capacity` entries.
    pub fn with_capacity(capacity: usize) -> (map: Self)
        requires
            capacity <= max_capacity(),
        ensures
            map.wf(),
            map@ == no_entries::<V>(),
    {
        let map = EntryMap { slots: slots_with_capacity(capacity), values: Vec::new() };
        assert(map@ =~= no_entries::<V>());
        map
    }

    /// Number of entries.
    pub fn len(&self) -> (len: usize)
        requires
            self.wf(),
        ensures
            self@.dom().finite(),
            len == self@.len(),
    {
        assert(self@.dom() =~= slot_map(self.slots).dom());
        self.values.len()
    }

    /// Whether the map holds no entry.
    pub fn is_empty(&self) -> (empty: bool)
        requires
            self.wf(),
        ensures
            empty == (self@ == no_entries::<V>()),
    {
        proof {
            assert(self@.dom() =~= slot_map(self.slots).dom());
            if self.values@.len() == 0 {
                assert(self@ =~= no_entries::<V>());
            }
        }
        self.values.len() == 0
    }

    /// The value of `key`, if the map holds the key.
    pub fn get(&self, key: &str) -> (value: Option<&V>)
        requires
            self.wf(),
        ensures
            match value {
                Some(value) => self@.dom().contains(key@) && *value == self@[key@],
                None => !self@.dom().contains(key@),
            },
    {
        match slots_get(&self.slots, key) {
            Some(slot) => Some(&self.values[slot]),
            None => None,
        }
    }

    /// Takes `key` to `value`, in place of the value that it had before.
    pub fn insert(&mut self, key: String, value: V)
        requires
            old(self).wf(),
        ensures
            final(self).wf(),
            final(self)@ == old(self)@.insert(key@, value),
    {
        match slots_get(&self.slots, key.as_str()) {
            Some(slot) => {
                self.values[slot] = value;
            },
            None => {
                let slot: usize = self.values.len();
                slots_insert(&mut self.slots, key, slot);
                self.values.push(value);
            },
        }
        assert(self@ =~= old(self)@.insert(key@, value));
    }

    /// Removes every entry.
    pub fn clear(&mut self)
        requires
            old(self).wf(),
        ensures
            final(self).wf(),
            final(self)@ == no_entries::<V>(),
    {
        slots_clear(&mut self.slots);
        self.values.clear();
        assert(self@ =~= no_entries::<V>());
    }

    /// Gives memory of the hash map back, with room for `min_capacity` entries
    /// as the lower limit. The entries stay as they are.
    pub fn shrink_to(&mut self, min_capacity: usize)
        requires
            old(self).wf(),
        ensures
            final(self).wf(),
            final(self)@ == old(self)@,
    {
        slots_shrink_to(&mut self.slots, min_capacity);
    }

    /// Removes every entry and returns them all, in no particular order.
    pub fn drain(&mut self) -> (entries: Vec<(String, V)>)
        requires
            old(self).wf(),
        ensures
            final(self).wf(),
            final(self)@ == no_entries::<V>(),
            is_listing(keyed(entries@), old(self)@),
    {
        let pairs = slots_drain(&mut self.slots);
        let mut values: Vec<V> = Vec::new();
        std::mem::swap(&mut values, &mut self.values);
        assert(self@ =~= no_entries::<V>());

        let ghost stored = values@;
        let ghost listed = keyed(pairs@);
        let ghost before = old(self)@;
        let ghost slots_before = slot_map(old(self).slots);
        let mut slots = TakeVec::new(values);
        let mut entries: Vec<(String, V)> = Vec::new();
        for pair in iter: pairs
            invariant
                listed == keyed(iter.seq()),
                is_listing(listed, slots_before),
                slots@.len() == stored.len(),
                entries@.len() == iter.index(),
                forall|i: int|
                    0 <= i < listed.len() ==> 0 <= (#[trigger] listed[i]).1 < stored.len(),
                forall|i: int, j: int|
                    0 <= i < j < listed.len() ==> (#[trigger] listed[i]).1 != (#[trigger] listed[j]).1,
                forall|i: int|
                    iter.index() <= i < listed.len() ==> slots@[(#[trigger] listed[i]).1 as int]
                        == Some(stored[listed[i].1 as int]),
                forall|i: int|
                    0 <= i < entries@.len() ==> (#[trigger] entries@[i]).0@ == listed[i].0
                        && entries@[i].1 == stored[listed[i].1 as int],
        {
            let (key, slot) = pair;
            assert(listed[iter.index()] == (key@, slot));
            entries.push((key, slots.take(slot)));
        }
        proof {
            let out = keyed(entries@);
            assert forall|i: int| 0 <= i < out.len() implies before.dom().contains(
                (#[trigger] out[i]).0,
            ) && before[out[i].0] == out[i].1 by {
                assert(out[i].0 == listed[i].0);
            }
            assert forall|i: int, j: int| 0 <= i < j < out.len() implies (#[trigger] out[i]).0 != (
            #[trigger] out[j]).0 by {
                assert(listed[i].0 != listed[j].0);
            }
            assert forall|key: Seq<char>| #[trigger] before.dom().contains(key) implies exists|i: int|
                0 <= i < out.len() && (#[trigger] out[i]).0 == key by {
                assert(slots_before.dom().contains(key));
                let i = choose|i: int| 0 <= i < listed.len() && (#[trigger] listed[i]).0 == key;
                assert(out[i].0 == key);
            }
        }
        entries
    }
}

} // verus!
