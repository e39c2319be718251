//! A bounded, sharded cache from strings to values.
//!
//! The cache is sharded by key hash, so that shards can be guarded by locks of
//! their own and different keys rarely contend. Inserts can be buffered in an
//! [`EntryMap`] and merged in one go with [`Cache::flush_buf`].
//!
//! [`Cache`] has a single owner. Where each shard has a lock and an operation
//! must not wait for it, [`get_from`], [`set_in`] and [`merge_into`] take what
//! became of the attempt to lock: the shard, or `None` where it was busy.

use vstd::prelude::*;
use vstd::std_specs::hash::DefaultHasherAdditionalSpecFns;
use std::collections::hash_map::DefaultHasher;
use std::hash::{Hash, Hasher};
use crate::entry_map;
use crate::entry_map::EntryMap;

verus! {

/// The default capacity of a cache.
pub const DEFAULT_CACHE_CAPACITY: usize = 10_000;

/// Merge buffered inserts into the cache after this many of them.
pub const DEFAULT_MERGE_AFTER_INSERTS: usize = 256;

/// Number of shards over which keys are spread.
pub const NUM_SHARDS: usize = 64;

/// The maximum length of a string that is worth caching. Longer strings have
/// minimal chances of a cache hit.
pub const MAX_LENGTH: usize = 256;

/// The bytes that hashing a string feeds to its hasher, write by write.
pub uninterp spec fn str_hash_input(key: Seq<char>) -> Seq<Seq<u8>>;

/// `<str as Hash>::hash` into a [`DefaultHasher`]: feeds writes that depend on
/// nothing but the characters of the string.
#[verifier::external_body]
fn feed_str(state: &mut DefaultHasher, key: &str)
    ensures
        final(state)@ == old(state)@ + str_hash_input(key@),
{
    key.hash(state);
}

/// The hash of a key.
pub open spec fn key_hash(key: Seq<char>) -> u64 {
    DefaultHasher::spec_finish(str_hash_input(key))
}

/// The shard that a key with the given hash belongs to.
pub open spec fn shard_of_hash(hash: u64) -> int {
    hash as int % NUM_SHARDS as int
}

/// The shard that a key belongs to.
pub open spec fn shard_of(key: Seq<char>) -> int {
    shard_of_hash(key_hash(key))
}

/// The shard that a key with the given hash belongs to.
pub fn shard_for_hash(hash: u64) -> (shard: usize)
    ensures
        shard == shard_of_hash(hash),
        shard < NUM_SHARDS,
{
    let shard: u64 = hash % (NUM_SHARDS as u64);
    shard as usize
}

/// The shard that `key` belongs to.
pub fn shard_index(key: &str) -> (shard: usize)
    ensures
        shard == shard_of(key@),
        shard < NUM_SHARDS,
{
    let mut state = DefaultHasher::new();
    feed_str(&mut state, key);
    proof {
        assert(Seq::<Seq<u8>>::empty() + str_hash_input(key@) =~= str_hash_input(key@));
    }
    shard_for_hash(state.finish())
}

/// Number of entries that each shard may hold in a cache of the given
/// capacity.
pub open spec fn shard_capacity(capacity: int) -> int {
    (capacity + NUM_SHARDS - 1) / NUM_SHARDS as int
}

/// Number of entries that each shard may hold in a cache of the given
/// capacity.
pub fn cap_per_shard(capacity: usize) -> (cap: usize)
    requires
        capacity + NUM_SHARDS <= usize::MAX,
    ensures
        cap == shard_capacity(capacity as int),
{
    (capacity + NUM_SHARDS - 1) / NUM_SHARDS
}

/// The entries that belong to shard `i`, in their order.
pub open spec fn for_shard<V>(entries: Seq<(Seq<char>, V)>, i: int) -> Seq<(Seq<char>, V)> {
    entries.filter(|entry: (Seq<char>, V)| shard_of(entry.0) == i)
}

/// The first `n` entries, or all of them where there are fewer.
pub open spec fn first<V>(entries: Seq<(Seq<char>, V)>, n: int) -> Seq<(Seq<char>, V)> {
    if n < entries.len() {
        entries.take(n)
    } else {
        entries
    }
}

/// The map after the given entries have been inserted one by one.
pub open spec fn insert_all<V>(map: Map<Seq<char>, V>, entries: Seq<(Seq<char>, V)>) -> Map<
    Seq<char>,
    V,
>
    decreases entries.len(),
{
    if entries.len() == 0 {
        map
    } else {
        insert_all(map, entries.drop_last()).insert(entries.last().0, entries.last().1)
    }
}

/// Number of entries that a shard still takes.
pub open spec fn room<V>(shard: Map<Seq<char>, V>, cap: int) -> int {
    if shard.len() < cap {
        cap - shard.len()
    } else {
        0
    }
}

/// A shard after a write of `value` to `key`. A shard that is full takes no
/// write, not even to a key that it holds.
pub open spec fn stored<V>(shard: Map<Seq<char>, V>, cap: int, key: Seq<char>, value: V) -> Map<
    Seq<char>,
    V,
> {
    if shard.len() < cap {
        shard.insert(key, value)
    } else {
        shard
    }
}

/// A shard after a merge: it takes as many of the entries as it has room for,
/// from the front.
pub open spec fn merged<V>(
    shard: Map<Seq<char>, V>,
    cap: int,
    entries: Seq<(Seq<char>, V)>,
) -> Map<Seq<char>, V> {
    insert_all(shard, first(entries, room(shard, cap)))
}

/// All shards after a write of one entry.
pub open spec fn store_one<V>(
    shards: Seq<Map<Seq<char>, V>>,
    cap: int,
    entry: (Seq<char>, V),
) -> Seq<Map<Seq<char>, V>> {
    let i = shard_of(entry.0);
    shards.update(i, stored(shards[i], cap, entry.0, entry.1))
}

/// All shards after writes of the given entries one by one.
pub open spec fn store_all<V>(
    shards: Seq<Map<Seq<char>, V>>,
    cap: int,
    entries: Seq<(Seq<char>, V)>,
) -> Seq<Map<Seq<char>, V>>
    decreases entries.len(),
{
    if entries.len() == 0 {
        shards
    } else {
        store_one(store_all(shards, cap, entries.drop_last()), cap, entries.last())
    }
}

/// All shards after a flush of buffered entries, which are handed out in the
/// order of `entries`.
pub open spec fn flushed<V>(
    shards: Seq<Map<Seq<char>, V>>,
    cap: int,
    entries: Seq<(Seq<char>, V)>,
) -> Seq<Map<Seq<char>, V>> {
    Seq::new(shards.len(), |i: int| merged(shards[i], cap, for_shard(entries, i)))
}

/// What a key is taken to by the shard that it belongs to.
pub open spec fn lookup<V>(shards: Seq<Map<Seq<char>, V>>, key: Seq<char>) -> Option<V> {
    let shard = shards[shard_of(key)];
    if shard.dom().contains(key) {
        Some(shard[key])
    } else {
        None
    }
}

/// Whether `read` is what a read gives of the stored value: a clone of it, or
/// `None` where there is none.
pub open spec fn is_read_of<V: Clone>(found: Option<V>, read: Option<V>) -> bool {
    match found {
        Some(value) => read matches Some(copy) && cloned(value, copy),
        None => read is None,
    }
}

/// Reads `key` from its shard. A busy shard (`None`) reads as if it did not
/// hold the key.
pub fn get_from<V: Clone>(shard: Option<&EntryMap<V>>, key: &str) -> (value: Option<V>)
    requires
        shard matches Some(shard) ==> shard.wf(),
    ensures
        match shard {
            Some(shard) => is_read_of(
                if shard@.dom().contains(key@) {
                    Some(shard@[key@])
                } else {
                    None
                },
                value,
            ),
            None => value is None,
        },
{
    match shard {
        Some(shard) => match shard.get(key) {
            Some(value) => Some(value.clone()),
            None => None,
        },
        None => None,
    }
}

/// Writes `value` to `key` in its shard, unless the shard is full. A write to
/// a busy shard (`None`) is dropped.
pub fn set_in<V>(shard: Option<&mut EntryMap<V>>, cap: usize, key: String, value: V)
    requires
        shard matches Some(shard) ==> shard.wf(),
    ensures
        shard matches Some(shard) ==> final(shard).wf() && final(shard)@ == stored(
            shard@,
            cap as int,
            key@,
            value,
        ),
{
    if let Some(shard) = shard {
        if shard.len() < cap {
            shard.insert(key, value);
        }
    }
}

/// Merges entries into a shard, as many as it has room for. A merge into a
/// busy shard (`None`) drops the entries.
pub fn merge_into<V>(shard: Option<&mut EntryMap<V>>, cap: usize, entries: Vec<(String, V)>)
    requires
        shard matches Some(shard) ==> shard.wf(),
    ensures
        shard matches Some(shard) ==> final(shard).wf() && final(shard)@ == merged(
            shard@,
            cap as int,
            entry_map::keyed(entries@),
        ),
{
    if let Some(shard) = shard {
        let ghost before = shard@;
        let free: usize = cap.saturating_sub(shard.len());
        let ghost all = entry_map::keyed(entries@);
        let mut count: usize = 0;
        for entry in iter: entries
            invariant
                shard.wf(),
                entry_map::keyed(iter.seq()) == all,
                count == if iter.index() < free { iter.index() } else { free as int },
                shard@ == insert_all(before, all.take(count as int)),
        {
            if count < free {
                let (key, value) = entry;
                proof {
                    let next = all.take(count + 1);
                    assert(next.drop_last() =~= all.take(count as int));
                    assert(next.last() == all[count as int]);
                    assert(all[count as int] == (key@, value));
                }
                shard.insert(key, value);
                count = count + 1;
            }
        }
        proof {
            assert(all.take(all.len() as int) =~= all);
            assert(first(all, free as int) =~= all.take(count as int));
        }
    }
}

/// Whether `groups` holds, for each shard, the first `cap` entries that belong
/// to the shard, in the order of `entries`.
pub open spec fn is_grouping<V>(
    groups: Seq<Vec<(String, V)>>,
    cap: int,
    entries: Seq<(Seq<char>, V)>,
) -> bool {
    &&& groups.len() == NUM_SHARDS
    &&& forall|i: int|
        0 <= i < groups.len() ==> entry_map::keyed((#[trigger] groups[i])@) == first(
            for_shard(entries, i),
            cap,
        )
}

/// Empties `buf` and groups its entries by shard, at most `cap` for each, so
/// that each shard needs to be locked once. The entries come in an order of
/// the buffer's own.
pub fn group_by_shard<V>(buf: &mut EntryMap<V>, cap: usize) -> (groups: Vec<Vec<(String, V)>>)
    requires
        old(buf).wf(),
    ensures
        final(buf).wf(),
        final(buf)@ == entry_map::no_entries::<V>(),
        exists|entries: Seq<(Seq<char>, V)>|
            entry_map::is_listing(entries, old(buf)@) && #[trigger] is_grouping(groups@, cap as int, entries),
{
    let mut groups: Vec<Vec<(String, V)>> = Vec::with_capacity(NUM_SHARDS);
    while groups.len() < NUM_SHARDS
        invariant
            groups@.len() <= NUM_SHARDS,
            forall|i: int| 0 <= i < groups@.len() ==> (#[trigger] groups@[i])@.len() == 0,
        decreases NUM_SHARDS - groups@.len(),
    {
        groups.push(Vec::new());
    }
    let drained = buf.drain();
    let ghost all = entry_map::keyed(drained@);
    proof {
        assert forall|i: int| 0 <= i < groups@.len() implies entry_map::keyed((#[trigger] groups@[i])@)
            == first(for_shard(all.take(0), i), cap as int) by {
            lemma_for_shard_empty::<V>(all.take(0), i);
            assert(entry_map::keyed(groups@[i]@) =~= for_shard(all.take(0), i));
        }
    }
    for entry in iter: drained
        invariant
            entry_map::keyed(iter.seq()) == all,
            is_grouping(groups@, cap as int, all.take(iter.index())),
    {
        let (key, value) = entry;
        let i: usize = shard_index(key.as_str());
        let ghost before = groups@;
        let ghost seen = all.take(iter.index());
        proof {
            assert(all.take(iter.index() + 1) =~= seen.push(all[iter.index()]));
            assert(all[iter.index()] == (key@, value));
            assert forall|j: int| 0 <= j < NUM_SHARDS implies #[trigger] for_shard(
                all.take(iter.index() + 1),
                j,
            ) == if j == i {
                for_shard(seen, j).push((key@, value))
            } else {
                for_shard(seen, j)
            } by {
                lemma_for_shard_push(seen, (key@, value), j);
            }
            assert(entry_map::keyed(before[i as int]@).len() == before[i as int]@.len());
        }
        if groups[i].len() < cap {
            groups[i].push((key, value));
            assert(entry_map::keyed(groups@[i as int]@) =~= entry_map::keyed(before[i as int]@).push((key@, value)));
        }
        proof {
            let now = all.take(iter.index() + 1);
            assert forall|j: int| 0 <= j < groups@.len() implies entry_map::keyed((#[trigger] groups@[j])@)
                == first(for_shard(now, j), cap as int) by {
                assert(entry_map::keyed(before[j]@) == first(for_shard(seen, j), cap as int));
                if j == i {
                    assert(entry_map::keyed(groups@[j]@) =~= first(for_shard(now, j), cap as int));
                }
            }
        }
    }
    assert(all.take(all.len() as int) =~= all);
    groups
}

/// A bounded cache from strings to values, in `NUM_SHARDS` shards.
#[derive(Debug)]
pub struct Cache<V> {
    shards: Vec<EntryMap<V>>,
    /// Number of entries that the cache holds at most, rounded up to a
    /// multiple of the number of shards.
    capacity: usize,
    /// Number of buffered inserts after which a buffer should be flushed.
    merge_after_inserts: usize,
}

impl<V> View for Cache<V> {
    type V = Seq<Map<Seq<char>, V>>;

    /// What each shard holds.
    closed spec fn view(&self) -> Seq<Map<Seq<char>, V>> {
        self.shards@.map_values(|shard: EntryMap<V>| shard@)
    }
}

/// Whether every key is in the shard that it belongs to, and there are as many
/// shards as there should be.
pub open spec fn well_sharded<V>(shards: Seq<Map<Seq<char>, V>>) -> bool {
    &&& shards.len() == NUM_SHARDS
    &&& forall|i: int, key: Seq<char>|
        0 <= i < shards.len() && #[trigger] shards[i].dom().contains(key) ==> shard_of(key) == i
    &&& forall|i: int| 0 <= i < shards.len() ==> (#[trigger] shards[i]).dom().finite()
}

/// The shards of an empty cache.
pub open spec fn empty_shards<V>() -> Seq<Map<Seq<char>, V>> {
    Seq::new(NUM_SHARDS as nat, |i: int| entry_map::no_entries::<V>())
}

impl<V> Cache<V> {
    /// Every key is in the shard that it belongs to, and the number of entries
    /// for each shard can be computed from the capacity.
    pub closed spec fn wf(&self) -> bool {
        &&& well_sharded(self@)
        &&& forall|i: int| 0 <= i < self.shards@.len() ==> (#[trigger] self.shards@[i]).wf()
        &&& self.capacity + NUM_SHARDS <= usize::MAX
    }

    /// The capacity that the cache is configured with.
    pub closed spec fn configured_capacity(&self) -> int {
        self.capacity as int
    }

    /// The number of buffered inserts that the cache is configured with.
    pub closed spec fn configured_merge(&self) -> int {
        self.merge_after_inserts as int
    }

    /// A well-formed cache has every key in the shard that it belongs to, and a
    /// capacity from which the number of entries for each shard can be computed.
    pub proof fn lemma_wf_is_well_sharded(&self)
        requires
            self.wf(),
        ensures
            well_sharded(self@),
            0 <= self.configured_capacity() <= usize::MAX - NUM_SHARDS,
    {
    }

    /// Creates a cache without entries.
    fn with_config(capacity: usize, merge_after_inserts: usize) -> (cache: Self)
        requires
            shard_capacity(capacity as int) <= entry_map::max_capacity(),
        ensures
            cache.wf(),
            cache@ == empty_shards::<V>(),
            cache.configured_capacity() == capacity,
            cache.configured_merge() == merge_after_inserts,
    {
        let cap: usize = cap_per_shard(capacity);
        let mut shards: Vec<EntryMap<V>> = Vec::with_capacity(NUM_SHARDS);
        while shards.len() < NUM_SHARDS
            invariant
                cap <= entry_map::max_capacity(),
                shards@.len() <= NUM_SHARDS,
                forall|i: int|
                    0 <= i < shards@.len() ==> (#[trigger] shards@[i]).wf() && shards@[i]@
                        == entry_map::no_entries::<V>(),
            decreases NUM_SHARDS - shards@.len(),
        {
            shards.push(EntryMap::with_capacity(cap));
        }
        let cache = Cache { shards, capacity, merge_after_inserts };
        assert(cache@ =~= empty_shards::<V>());
        cache
    }

    /// Creates a cache with the given capacity.
    pub fn new(capacity: usize) -> (cache: Self)
        requires
            shard_capacity(capacity as int) <= entry_map::max_capacity(),
        ensures
            cache.wf(),
            cache@ == empty_shards::<V>(),
            cache.configured_capacity() == capacity,
            cache.configured_merge() == DEFAULT_MERGE_AFTER_INSERTS,
    {
        Self::with_config(capacity, DEFAULT_MERGE_AFTER_INSERTS)
    }

    /// Creates an empty cache with the same configuration.
    pub fn fresh(&self) -> (cache: Self)
        requires
            shard_capacity(self.configured_capacity()) <= entry_map::max_capacity(),
        ensures
            cache.wf(),
            cache@ == empty_shards::<V>(),
            cache.configured_capacity() == self.configured_capacity(),
            cache.configured_merge() == self.configured_merge(),
    {
        Self::with_config(self.capacity, self.merge_after_inserts)
    }

    /// Number of entries that the cache holds at most, rounded up to a multiple
    /// of the number of shards.
    pub fn capacity(&self) -> (capacity: usize)
        ensures
            capacity == self.configured_capacity(),
    {
        self.capacity
    }

    /// Number of buffered inserts after which a buffer should be flushed.
    pub fn merge_after_inserts(&self) -> (merge_after_inserts: usize)
        ensures
            merge_after_inserts == self.configured_merge(),
    {
        self.merge_after_inserts
    }

    /// Changes the number of buffered inserts after which a buffer should be
    /// flushed.
    pub fn set_merge_after_inserts(&mut self, merge_after_inserts: usize)
        requires
            old(self).wf(),
        ensures
            final(self).wf(),
            final(self)@ == old(self)@,
            final(self).configured_capacity() == old(self).configured_capacity(),
            final(self).configured_merge() == merge_after_inserts,
    {
        self.merge_after_inserts = merge_after_inserts;
    }

    /// Merges the buffered entries into the cache and empties the buffer. Each
    /// shard takes as many of its entries as it has room for; which ones these
    /// are is left open, where there are more.
    pub fn flush_buf(&mut self, buf: &mut EntryMap<V>)
        requires
            old(self).wf(),
            old(buf).wf(),
        ensures
            final(self).wf(),
            final(buf).wf(),
            final(buf)@ == entry_map::no_entries::<V>(),
            exists|entries: Seq<(Seq<char>, V)>| #[trigger]
                entry_map::is_listing(entries, old(buf)@) && final(self)@ == flushed(
                    old(self)@,
                    shard_capacity(old(self).configured_capacity()),
                    entries,
                ),
            final(self).configured_capacity() == old(self).configured_capacity(),
            final(self).configured_merge() == old(self).configured_merge(),
    {
        let ghost before = self@;
        if buf.is_empty() {
            proof {
                let none = Seq::<(Seq<char>, V)>::empty();
                assert(entry_map::is_listing(none, buf@));
                assert forall|i: int| 0 <= i < before.len() implies before[i] == merged(
                    before[i],
                    shard_capacity(self.capacity as int),
                    #[trigger] for_shard(none, i),
                ) by {
                    lemma_for_shard_empty(none, i);
                }
                assert(before =~= flushed(before, shard_capacity(self.capacity as int), none));
            }
            return;
        }
        let cap: usize = cap_per_shard(self.capacity);
        let groups = group_by_shard(buf, cap);
        let ghost entries = choose|entries: Seq<(Seq<char>, V)>|
            entry_map::is_listing(entries, old(buf)@) && #[trigger] is_grouping(groups@, cap as int, entries);
        let ghost grouped = groups@;
        let mut i: usize = 0;
        for group in iter: groups
            invariant
                iter.seq() == grouped,
                is_grouping(grouped, cap as int, entries),
                before == old(self)@,
                before.len() == NUM_SHARDS,
                i == iter.index(),
                cap == shard_capacity(old(self).capacity as int),
                self.capacity == old(self).capacity,
                self.merge_after_inserts == old(self).merge_after_inserts,
                self.shards@.len() == NUM_SHARDS,
                forall|j: int| 0 <= j < NUM_SHARDS ==> (#[trigger] self.shards@[j]).wf(),
                forall|j: int|
                    0 <= j < NUM_SHARDS ==> (#[trigger] self.shards@[j])@ == if j < i {
                        merged(before[j], cap as int, for_shard(entries, j))
                    } else {
                        before[j]
                    },
        {
            proof {
                lemma_merge_of_first(before[i as int], cap as int, for_shard(entries, i as int));
                assert(group == grouped[i as int]);
            }
            if group.len() > 0 {
                merge_into(Some(&mut self.shards[i]), cap, group);
            } else {
                assert(entry_map::keyed(group@).len() == 0);
            }
            i = i + 1;
        }
        proof {
            assert(self@ =~= flushed(before, cap as int, entries));
            law_flush_keeps_keys_in_their_shards(before, cap as int, entries);
        }
    }

    /// Removes every entry.
    pub fn clear(&mut self)
        requires
            old(self).wf(),
        ensures
            final(self).wf(),
            final(self)@ == empty_shards::<V>(),
            final(self).configured_capacity() == old(self).configured_capacity(),
            final(self).configured_merge() == old(self).configured_merge(),
    {
        let mut i: usize = 0;
        while i < self.shards.len()
            invariant
                i <= NUM_SHARDS,
                self.capacity == old(self).capacity,
                self.merge_after_inserts == old(self).merge_after_inserts,
                self.capacity + NUM_SHARDS <= usize::MAX,
                self.shards@.len() == NUM_SHARDS,
                forall|j: int| 0 <= j < NUM_SHARDS ==> (#[trigger] self.shards@[j]).wf(),
                forall|j: int| 0 <= j < i ==> (#[trigger] self.shards@[j])@ == entry_map::no_entries::<V>(),
            decreases NUM_SHARDS - i,
        {
            self.shards[i].clear();
            i = i + 1;
        }
        assert(self@ =~= empty_shards::<V>());
    }

    /// Writes the entries one by one. An entry whose shard is full is dropped.
    pub fn set_values(&mut self, entries: Vec<(String, V)>)
        requires
            old(self).wf(),
        ensures
            final(self).wf(),
            final(self)@ == store_all(
                old(self)@,
                shard_capacity(old(self).configured_capacity()),
                entry_map::keyed(entries@),
            ),
            final(self).configured_capacity() == old(self).configured_capacity(),
            final(self).configured_merge() == old(self).configured_merge(),
    {
        let cap: usize = cap_per_shard(self.capacity);
        let ghost all = entry_map::keyed(entries@);
        let ghost before = self@;
        assert(all.take(0).len() == 0);
        for entry in iter: entries
            invariant
                entry_map::keyed(iter.seq()) == all,
                self.wf(),
                before == old(self)@,
                cap == shard_capacity(old(self).capacity as int),
                self.capacity == old(self).capacity,
                self.merge_after_inserts == old(self).merge_after_inserts,
                self@ == store_all(before, cap as int, all.take(iter.index())),
        {
            let (key, value) = entry;
            let i: usize = shard_index(key.as_str());
            let ghost shards_before = self@;
            proof {
                let next = all.take(iter.index() + 1);
                assert(next.drop_last() =~= all.take(iter.index()));
                assert(next.last() == all[iter.index()]);
                assert(all[iter.index()] == (key@, value));
            }
            set_in(Some(&mut self.shards[i]), cap, key, value);
            proof {
                assert(self@ =~= store_one(shards_before, cap as int, (key@, value)));
                law_writes_keep_keys_in_their_shards(shards_before, cap as int, (key@, value));
            }
        }
        assert(all.take(all.len() as int) =~= all);
    }

    /// Writes `value` to `key`, unless the shard of the key is full.
    pub fn set(&mut self, key: String, value: V)
        requires
            old(self).wf(),
        ensures
            final(self).wf(),
            final(self)@ == store_one(
                old(self)@,
                shard_capacity(old(self).configured_capacity()),
                (key@, value),
            ),
            final(self).configured_capacity() == old(self).configured_capacity(),
            final(self).configured_merge() == old(self).configured_merge(),
    {
        let mut entries: Vec<(String, V)> = Vec::with_capacity(1);
        entries.push((key, value));
        proof {
            let all = entry_map::keyed(entries@);
            assert(all.drop_last().len() == 0);
            assert(all.last() == (key@, value));
            reveal_with_fuel(store_all, 2);
        }
        self.set_values(entries);
    }

    /// Changes the capacity and gives memory back. No entry is removed, even
    /// where there are more than the new capacity.
    pub fn resize(&mut self, capacity: usize)
        requires
            old(self).wf(),
            capacity + NUM_SHARDS <= usize::MAX,
        ensures
            final(self).wf(),
            final(self)@ == old(self)@,
            final(self).configured_capacity() == capacity,
            final(self).configured_merge() == old(self).configured_merge(),
    {
        let ghost before = self@;
        self.capacity = capacity;
        let cap: usize = cap_per_shard(capacity);
        let mut i: usize = 0;
        while i < self.shards.len()
            invariant
                i <= NUM_SHARDS,
                before.len() == NUM_SHARDS,
                self.capacity == capacity,
                self.merge_after_inserts == old(self).merge_after_inserts,
                self.shards@.len() == NUM_SHARDS,
                forall|j: int|
                    0 <= j < NUM_SHARDS ==> (#[trigger] self.shards@[j]).wf() && self.shards@[j]@
                        == before[j],
            decreases NUM_SHARDS - i,
        {
            self.shards[i].shrink_to(cap);
            i = i + 1;
        }
        assert(self@ =~= before);
    }
}

impl<V: Clone> Cache<V> {
    /// Reads several keys at once: the value of each, or `None` where the
    /// cache does not hold the key.
    pub fn get_values(&self, keys: &Vec<&str>) -> (values: Option<Vec<Option<V>>>)
        requires
            self.wf(),
        ensures
            values matches Some(values) && {
                &&& values@.len() == keys@.len()
                &&& forall|i: int|
                    0 <= i < keys@.len() ==> is_read_of(
                        lookup(self@, keys@[i]@),
                        #[trigger] values@[i],
                    )
            },
    {
        let mut values: Vec<Option<V>> = Vec::with_capacity(keys.len());
        let mut i: usize = 0;
        while i < keys.len()
            invariant
                self.wf(),
                i <= keys@.len(),
                values@.len() == i,
                forall|j: int|
                    0 <= j < i ==> is_read_of(lookup(self@, keys@[j]@), #[trigger] values@[j]),
            decreases keys@.len() - i,
        {
            values.push(self.get(keys[i]));
            i = i + 1;
        }
        Some(values)
    }

    /// Reads `key`: its value, or `None` where the cache does not hold it.
    pub fn get(&self, key: &str) -> (value: Option<V>)
        requires
            self.wf(),
        ensures
            is_read_of(lookup(self@, key@), value),
    {
        let i: usize = shard_index(key);
        get_from(Some(&self.shards[i]), key)
    }
}

/// What a cache holds does not matter to its users, so all caches are equal.
impl<V> PartialEq for Cache<V> {
    fn eq(&self, _other: &Cache<V>) -> (equal: bool) {
        true
    }
}

impl<V> vstd::std_specs::cmp::PartialEqSpecImpl for Cache<V> {
    open spec fn obeys_eq_spec() -> bool {
        true
    }

    open spec fn eq_spec(&self, other: &Cache<V>) -> bool {
        true
    }
}

impl<V> Default for Cache<V> {
    fn default() -> (cache: Self)
        ensures
            cache.wf(),
            cache@ == empty_shards::<V>(),
            cache.configured_capacity() == DEFAULT_CACHE_CAPACITY,
            cache.configured_merge() == DEFAULT_MERGE_AFTER_INSERTS,
    {
        Cache::new(DEFAULT_CACHE_CAPACITY)
    }
}

/// A write keeps every key in the shard that it belongs to.
pub proof fn law_writes_keep_keys_in_their_shards<V>(
    shards: Seq<Map<Seq<char>, V>>,
    cap: int,
    entry: (Seq<char>, V),
)
    requires
        well_sharded(shards),
    ensures
        well_sharded(store_one(shards, cap, entry)),
{
    let after = store_one(shards, cap, entry);
    let own = shard_of(entry.0);
    assert forall|i: int, key: Seq<char>|
        0 <= i < after.len() && #[trigger] after[i].dom().contains(key) implies shard_of(key)
        == i by {
        if i != own || key != entry.0 {
            assert(shards[i].dom().contains(key));
        }
    }
    assert forall|i: int| 0 <= i < after.len() implies (#[trigger] after[i]).dom().finite() by {
        assert(shards[i].dom().finite());
    }
}

/// A read after a write gives the value that was written, as long as the shard
/// was not full. A write to a full shard changes nothing.
pub proof fn law_read_after_write<V>(
    shards: Seq<Map<Seq<char>, V>>,
    cap: int,
    key: Seq<char>,
    value: V,
)
    requires
        well_sharded(shards),
    ensures
        shards[shard_of(key)].len() < cap ==> lookup(store_one(shards, cap, (key, value)), key)
            == Some(value),
        shards[shard_of(key)].len() >= cap ==> store_one(shards, cap, (key, value)) == shards,
{
    let i = shard_of(key);
    assert(shards.update(i, shards[i]) =~= shards);
}

/// A write does not change what any other key reads as.
pub proof fn law_write_leaves_other_keys<V>(
    shards: Seq<Map<Seq<char>, V>>,
    cap: int,
    key: Seq<char>,
    value: V,
    other: Seq<char>,
)
    requires
        well_sharded(shards),
        other != key,
    ensures
        lookup(store_one(shards, cap, (key, value)), other) == lookup(shards, other),
{
}

/// Nothing can be read from an empty cache.
pub proof fn law_empty_cache_reads_nothing<V>(key: Seq<char>)
    ensures
        lookup(empty_shards::<V>(), key) is None,
{
}

/// Whether no shard holds more than `cap` entries.
pub open spec fn within<V>(shards: Seq<Map<Seq<char>, V>>, cap: int) -> bool {
    forall|i: int| 0 <= i < shards.len() ==> (#[trigger] shards[i]).len() <= cap
}

/// No write, no sequence of writes and no flush takes a shard over its capacity.
pub proof fn law_shards_stay_within_capacity<V>(
    shards: Seq<Map<Seq<char>, V>>,
    cap: int,
    entry: (Seq<char>, V),
    entries: Seq<(Seq<char>, V)>,
)
    requires
        well_sharded(shards),
        cap >= 0,
        within(shards, cap),
    ensures
        within(store_one(shards, cap, entry), cap),
        within(store_all(shards, cap, entries), cap),
        within(flushed(shards, cap, entries), cap),
{
    lemma_store_all_within(shards, cap, entries);
    let own = shard_of(entry.0);
    assert(shards[own].len() <= cap);
    assert(stored(shards[own], cap, entry.0, entry.1).len() <= cap);
    assert forall|i: int| 0 <= i < shards.len() implies (#[trigger] store_one(
        shards,
        cap,
        entry,
    )[i]).len() <= cap by {
        assert(shards[i].len() <= cap);
    }
    assert forall|i: int| 0 <= i < shards.len() implies (#[trigger] flushed(
        shards,
        cap,
        entries,
    )[i]).len() <= cap by {
        assert(shards[i].len() <= cap);
        lemma_insert_all_len(shards[i], first(for_shard(entries, i), room(shards[i], cap)));
    }
}

proof fn lemma_store_all_within<V>(
    shards: Seq<Map<Seq<char>, V>>,
    cap: int,
    entries: Seq<(Seq<char>, V)>,
)
    requires
        well_sharded(shards),
        within(shards, cap),
    ensures
        well_sharded(store_all(shards, cap, entries)),
        within(store_all(shards, cap, entries), cap),
    decreases entries.len(),
{
    if entries.len() > 0 {
        let rest = store_all(shards, cap, entries.drop_last());
        let entry = entries.last();
        lemma_store_all_within(shards, cap, entries.drop_last());
        law_writes_keep_keys_in_their_shards(rest, cap, entry);
        assert(rest[shard_of(entry.0)].len() <= cap);
        assert(stored(rest[shard_of(entry.0)], cap, entry.0, entry.1).len() <= cap);
        assert forall|i: int| 0 <= i < rest.len() implies (#[trigger] store_one(
            rest,
            cap,
            entry,
        )[i]).len() <= cap by {
            assert(rest[i].len() <= cap);
        }
    }
}

/// The size that a shard of size `len` may have after any number of writes: its
/// capacity, or `len` where it is over its capacity already.
pub open spec fn size_limit(len: nat, cap: int) -> int {
    if len < cap {
        cap
    } else {
        len as int
    }
}

/// Whatever the shards hold, also where the capacity has been lowered below it,
/// no write, no sequence of writes and no flush takes a shard over the greater
/// of its size and its capacity. A shard that is full or over its capacity stays
/// as it is.
pub proof fn law_full_shards_stay_as_they_are<V>(
    shards: Seq<Map<Seq<char>, V>>,
    cap: int,
    entry: (Seq<char>, V),
    entries: Seq<(Seq<char>, V)>,
    i: int,
)
    requires
        well_sharded(shards),
        0 <= i < NUM_SHARDS,
    ensures
        store_one(shards, cap, entry)[i].len() <= size_limit(shards[i].len(), cap),
        store_all(shards, cap, entries)[i].len() <= size_limit(shards[i].len(), cap),
        flushed(shards, cap, entries)[i].len() <= size_limit(shards[i].len(), cap),
        shards[i].len() >= cap ==> {
            &&& store_one(shards, cap, entry)[i] == shards[i]
            &&& store_all(shards, cap, entries)[i] == shards[i]
            &&& flushed(shards, cap, entries)[i] == shards[i]
        },
{
    assert(shards[i].dom().finite());
    lemma_store_all_size(shards, cap, entries, i);
    lemma_insert_all_len(shards[i], first(for_shard(entries, i), room(shards[i], cap)));
}

proof fn lemma_store_all_size<V>(
    shards: Seq<Map<Seq<char>, V>>,
    cap: int,
    entries: Seq<(Seq<char>, V)>,
    i: int,
)
    requires
        well_sharded(shards),
        0 <= i < NUM_SHARDS,
    ensures
        well_sharded(store_all(shards, cap, entries)),
        store_all(shards, cap, entries)[i].len() <= size_limit(shards[i].len(), cap),
        shards[i].len() >= cap ==> store_all(shards, cap, entries)[i] == shards[i],
    decreases entries.len(),
{
    if entries.len() > 0 {
        let rest = store_all(shards, cap, entries.drop_last());
        lemma_store_all_size(shards, cap, entries.drop_last(), i);
        law_writes_keep_keys_in_their_shards(rest, cap, entries.last());
        assert(rest[i].dom().finite());
    }
}

/// After writes of several entries a key reads as before or as one of its
/// entries, whatever was dropped for want of room.
pub proof fn law_writes_invent_nothing<V>(
    shards: Seq<Map<Seq<char>, V>>,
    cap: int,
    entries: Seq<(Seq<char>, V)>,
    key: Seq<char>,
)
    requires
        well_sharded(shards),
    ensures
        lookup(store_all(shards, cap, entries), key) == lookup(shards, key) || exists|j: int|
            0 <= j < entries.len() && (#[trigger] entries[j]).0 == key && lookup(
                store_all(shards, cap, entries),
                key,
            ) == Some(entries[j].1),
        well_sharded(store_all(shards, cap, entries)),
    decreases entries.len(),
{
    if entries.len() > 0 {
        let front = entries.drop_last();
        let rest = store_all(shards, cap, front);
        let entry = entries.last();
        law_writes_invent_nothing(shards, cap, front, key);
        law_writes_keep_keys_in_their_shards(rest, cap, entry);
        law_read_after_write(rest, cap, entry.0, entry.1);
        if key == entry.0 && rest[shard_of(key)].len() < cap {
            assert(entries[entries.len() - 1].0 == key);
        } else {
            if key != entry.0 {
                law_write_leaves_other_keys(rest, cap, entry.0, entry.1, key);
            }
            if lookup(rest, key) != lookup(shards, key) {
                let j = choose|j: int|
                    0 <= j < front.len() && (#[trigger] front[j]).0 == key && lookup(rest, key)
                        == Some(front[j].1);
                assert(entries[j].0 == key);
            }
        }
    }
}

/// Number of entries in the first `n` shards.
pub open spec fn entries_in_first<V>(shards: Seq<Map<Seq<char>, V>>, n: int) -> int
    decreases n,
{
    if n <= 0 {
        0
    } else {
        entries_in_first(shards, n - 1) + shards[n - 1].len()
    }
}

/// A cache whose shards are within their capacity holds fewer entries than its
/// own capacity and the number of shards together.
pub proof fn law_total_stays_near_capacity<V>(shards: Seq<Map<Seq<char>, V>>, capacity: int)
    requires
        well_sharded(shards),
        capacity >= 0,
        within(shards, shard_capacity(capacity)),
    ensures
        entries_in_first(shards, NUM_SHARDS as int) < capacity + NUM_SHARDS,
{
    lemma_entries_in_first(shards, shard_capacity(capacity), NUM_SHARDS as int);
}

proof fn lemma_entries_in_first<V>(shards: Seq<Map<Seq<char>, V>>, cap: int, n: int)
    requires
        within(shards, cap),
        0 <= n <= shards.len(),
    ensures
        entries_in_first(shards, n) <= n * cap,
    decreases n,
{
    if n > 0 {
        lemma_entries_in_first(shards, cap, n - 1);
        assert(shards[n - 1].len() <= cap);
        assert((n - 1) * cap + cap == n * cap) by (nonlinear_arith);
    } else {
        assert(n * cap == 0) by (nonlinear_arith)
            requires
                n == 0,
        ;
    }
}

/// Where the shard of a key has room for all the buffered entries that belong
/// to it, the key reads after a flush as it did in the buffer, or, if the
/// buffer did not hold it, as before.
pub proof fn law_flush_with_room_takes_every_entry<V>(
    shards: Seq<Map<Seq<char>, V>>,
    cap: int,
    buffered: Map<Seq<char>, V>,
    entries: Seq<(Seq<char>, V)>,
    key: Seq<char>,
)
    requires
        well_sharded(shards),
        entry_map::is_listing(entries, buffered),
        for_shard(entries, shard_of(key)).len() <= room(shards[shard_of(key)], cap),
    ensures
        lookup(flushed(shards, cap, entries), key) == if buffered.dom().contains(key) {
            Some(buffered[key])
        } else {
            lookup(shards, key)
        },
{
    let i = shard_of(key);
    let own = for_shard(entries, i);
    lemma_for_shard_members(entries, i);
    lemma_for_shard_distinct(entries, i);
    lemma_insert_all_values(shards[i], own, key);
    if buffered.dom().contains(key) {
        let w = choose|w: int| 0 <= w < entries.len() && (#[trigger] entries[w]).0 == key;
        lemma_for_shard_complete(entries, w);
        let j = choose|j: int| 0 <= j < own.len() && own[j] == entries[w];
        assert(own[j].0 == key);
    } else if exists|j: int| 0 <= j < own.len() && (#[trigger] own[j]).0 == key {
        let j = choose|j: int| 0 <= j < own.len() && (#[trigger] own[j]).0 == key;
        let w = choose|w: int| 0 <= w < entries.len() && entries[w] == own[j];
        assert(buffered.dom().contains(entries[w].0));
    }
}

/// After a flush a key reads as before or as it did in the buffer, whatever
/// was dropped for want of room.
pub proof fn law_flush_invents_nothing<V>(
    shards: Seq<Map<Seq<char>, V>>,
    cap: int,
    buffered: Map<Seq<char>, V>,
    entries: Seq<(Seq<char>, V)>,
    key: Seq<char>,
)
    requires
        well_sharded(shards),
        cap >= 0,
        entry_map::is_listing(entries, buffered),
    ensures
        lookup(flushed(shards, cap, entries), key) == lookup(shards, key) || (
        buffered.dom().contains(key) && lookup(flushed(shards, cap, entries), key) == Some(
            buffered[key],
        )),
{
    let i = shard_of(key);
    let own = for_shard(entries, i);
    let part = first(own, room(shards[i], cap));
    lemma_for_shard_members(entries, i);
    lemma_for_shard_distinct(entries, i);
    assert forall|a: int, b: int| 0 <= a < b < part.len() implies (#[trigger] part[a]).0 != (
    #[trigger] part[b]).0 by {
        assert(part[a] == own[a] && part[b] == own[b]);
    }
    lemma_insert_all_values(shards[i], part, key);
    if exists|j: int| 0 <= j < part.len() && (#[trigger] part[j]).0 == key {
        let j = choose|j: int| 0 <= j < part.len() && (#[trigger] part[j]).0 == key;
        assert(part[j] == own[j]);
        let w = choose|w: int| 0 <= w < entries.len() && entries[w] == own[j];
        assert(buffered.dom().contains(entries[w].0));
    }
}

/// The keys of a buffer that belong to shard `i`.
pub open spec fn buffered_for<V>(buffered: Map<Seq<char>, V>, i: int) -> Set<Seq<char>> {
    Set::new(|key: Seq<char>| buffered.dom().contains(key) && shard_of(key) == i)
}

/// A flush loses nothing that fits: where what a shard holds and the buffered
/// entries that belong to it are together no more than its capacity, each of
/// these reads after the flush as it did in the buffer.
pub proof fn law_flush_loses_nothing_that_fits<V>(
    shards: Seq<Map<Seq<char>, V>>,
    cap: int,
    buffered: Map<Seq<char>, V>,
    entries: Seq<(Seq<char>, V)>,
    key: Seq<char>,
)
    requires
        well_sharded(shards),
        entry_map::is_listing(entries, buffered),
        buffered.dom().contains(key),
        shards[shard_of(key)].len() + buffered_for(buffered, shard_of(key)).len() <= cap,
    ensures
        lookup(flushed(shards, cap, entries), key) == Some(buffered[key]),
{
    lemma_buffered_for(entries, buffered, shard_of(key));
    law_flush_with_room_takes_every_entry(shards, cap, buffered, entries, key);
}

/// A flush fills a shard up: a shard that is not full takes all the buffered
/// entries that belong to it, or as many as it takes to fill it. Those that it
/// took read after the flush as they did in the buffer.
pub proof fn law_flush_fills_a_shard_up<V>(
    shards: Seq<Map<Seq<char>, V>>,
    cap: int,
    buffered: Map<Seq<char>, V>,
    entries: Seq<(Seq<char>, V)>,
    i: int,
) -> (taken: Set<Seq<char>>)
    requires
        well_sharded(shards),
        entry_map::is_listing(entries, buffered),
        0 <= i < NUM_SHARDS,
        shards[i].len() <= cap,
    ensures
        taken.finite(),
        taken.subset_of(buffered_for(buffered, i)),
        forall|key: Seq<char>| #[trigger]
            taken.contains(key) ==> lookup(flushed(shards, cap, entries), key) == Some(
                buffered[key],
            ),
        taken.len() == buffered_for(buffered, i).len() || taken.len() + shards[i].len() == cap,
{
    let own = for_shard(entries, i);
    let part = first(own, room(shards[i], cap));
    let keys = part.map_values(|entry: (Seq<char>, V)| entry.0);
    let taken = keys.to_set();
    lemma_buffered_for(entries, buffered, i);
    lemma_for_shard_members(entries, i);
    lemma_for_shard_distinct(entries, i);
    assert forall|a: int, b: int| 0 <= a < b < part.len() implies (#[trigger] part[a]).0 != (
    #[trigger] part[b]).0 by {
        assert(part[a] == own[a] && part[b] == own[b]);
    }
    assert(keys.no_duplicates()) by {
        assert forall|a: int, b: int| 0 <= a < keys.len() && 0 <= b < keys.len() && a
            != b implies keys[a] != keys[b] by {
            assert(keys[a] == part[a].0 && keys[b] == part[b].0);
        }
    }
    keys.unique_seq_to_set();
    assert forall|key: Seq<char>| #[trigger] taken.contains(key) implies buffered_for(
        buffered,
        i,
    ).contains(key) && lookup(flushed(shards, cap, entries), key) == Some(buffered[key]) by {
        let j = choose|j: int| 0 <= j < keys.len() && keys[j] == key;
        assert(part[j] == own[j]);
        let w = choose|w: int| 0 <= w < entries.len() && entries[w] == own[j];
        assert(buffered.dom().contains(entries[w].0));
        lemma_insert_all_values(shards[i], part, key);
        assert(part[j].0 == key);
    }
    taken
}

proof fn lemma_buffered_for<V>(
    entries: Seq<(Seq<char>, V)>,
    buffered: Map<Seq<char>, V>,
    i: int,
)
    requires
        entry_map::is_listing(entries, buffered),
    ensures
        buffered_for(buffered, i).finite(),
        for_shard(entries, i).len() == buffered_for(buffered, i).len(),
{
    let own = for_shard(entries, i);
    let keys = own.map_values(|entry: (Seq<char>, V)| entry.0);
    lemma_for_shard_members(entries, i);
    lemma_for_shard_distinct(entries, i);
    assert(keys.no_duplicates()) by {
        assert forall|a: int, b: int| 0 <= a < keys.len() && 0 <= b < keys.len() && a
            != b implies keys[a] != keys[b] by {
            assert(keys[a] == own[a].0 && keys[b] == own[b].0);
        }
    }
    keys.unique_seq_to_set();
    assert forall|key: Seq<char>| #[trigger] keys.to_set().contains(key) implies buffered_for(
        buffered,
        i,
    ).contains(key) by {
        let j = choose|j: int| 0 <= j < keys.len() && keys[j] == key;
        let w = choose|w: int| 0 <= w < entries.len() && entries[w] == own[j];
        assert(buffered.dom().contains(entries[w].0));
    }
    assert forall|key: Seq<char>| #[trigger] buffered_for(buffered, i).contains(
        key,
    ) implies keys.to_set().contains(key) by {
        let w = choose|w: int| 0 <= w < entries.len() && (#[trigger] entries[w]).0 == key;
        lemma_for_shard_complete(entries, w);
        let j = choose|j: int| 0 <= j < own.len() && own[j] == entries[w];
        assert(keys[j] == key);
    }
    assert(keys.to_set() =~= buffered_for(buffered, i));
}

/// Whether entry `j` is the last one for its key that a merge into a shard with
/// `len` entries has room for.
pub open spec fn is_last_that_fits<V>(
    entries: Seq<(Seq<char>, V)>,
    len: int,
    cap: int,
    j: int,
) -> bool {
    &&& 0 <= j < entries.len()
    &&& len + j < cap
    &&& forall|m: int|
        j < m < entries.len() && len + m < cap ==> (#[trigger] entries[m]).0 != entries[j].0
}

/// A merge takes entries from the front, as long as there is room: the last one
/// for each key decides, and a key without an entry that fits reads as before.
pub proof fn law_merge_takes_entries_from_the_front<V>(
    shard: Map<Seq<char>, V>,
    cap: int,
    entries: Seq<(Seq<char>, V)>,
    key: Seq<char>,
)
    ensures
        forall|j: int| #[trigger]
            is_last_that_fits(entries, shard.len() as int, cap, j) && entries[j].0 == key
                ==> merged(shard, cap, entries).dom().contains(key) && merged(shard, cap, entries)[key]
                == entries[j].1,
        (forall|m: int|
            0 <= m < entries.len() && shard.len() + m < cap ==> (#[trigger] entries[m]).0 != key)
            ==> (merged(shard, cap, entries).dom().contains(key) <==> shard.dom().contains(key))
            && (shard.dom().contains(key) ==> merged(shard, cap, entries)[key] == shard[key]),
{
    let part = first(entries, room(shard, cap));
    assert(forall|m: int| 0 <= m < part.len() ==> #[trigger] part[m] == entries[m]);
    assert forall|j: int| #[trigger]
        is_last_that_fits(entries, shard.len() as int, cap, j) && entries[j].0
            == key implies merged(shard, cap, entries).dom().contains(key) && merged(
        shard,
        cap,
        entries,
    )[key] == entries[j].1 by {
        assert(part[j] == entries[j]);
        assert forall|m: int| j < m < part.len() implies (#[trigger] part[m]).0 != key by {
            assert(entries[m].0 != entries[j].0);
        }
        lemma_last_insert_decides(shard, part, j);
    }
    if forall|m: int|
        0 <= m < entries.len() && shard.len() + m < cap ==> (#[trigger] entries[m]).0 != key {
        assert forall|m: int| 0 <= m < part.len() implies (#[trigger] part[m]).0 != key by {
            assert(entries[m].0 != key);
        }
        lemma_inserts_leave_other_keys(shard, part, key);
    }
}

proof fn lemma_last_insert_decides<V>(
    map: Map<Seq<char>, V>,
    entries: Seq<(Seq<char>, V)>,
    j: int,
)
    requires
        0 <= j < entries.len(),
        forall|m: int| j < m < entries.len() ==> (#[trigger] entries[m]).0 != entries[j].0,
    ensures
        insert_all(map, entries).dom().contains(entries[j].0),
        insert_all(map, entries)[entries[j].0] == entries[j].1,
    decreases entries.len(),
{
    if j < entries.len() - 1 {
        let rest = entries.drop_last();
        assert forall|m: int| j < m < rest.len() implies (#[trigger] rest[m]).0 != rest[j].0 by {
            assert(entries[m].0 != entries[j].0);
        }
        assert(entries[entries.len() - 1].0 != entries[j].0);
        lemma_last_insert_decides(map, rest, j);
    }
}

proof fn lemma_inserts_leave_other_keys<V>(
    map: Map<Seq<char>, V>,
    entries: Seq<(Seq<char>, V)>,
    key: Seq<char>,
)
    requires
        forall|m: int| 0 <= m < entries.len() ==> (#[trigger] entries[m]).0 != key,
    ensures
        insert_all(map, entries).dom().contains(key) <==> map.dom().contains(key),
        map.dom().contains(key) ==> insert_all(map, entries)[key] == map[key],
    decreases entries.len(),
{
    if entries.len() > 0 {
        let rest = entries.drop_last();
        assert forall|m: int| 0 <= m < rest.len() implies (#[trigger] rest[m]).0 != key by {
            assert(entries[m].0 != key);
        }
        assert(entries[entries.len() - 1].0 != key);
        lemma_inserts_leave_other_keys(map, rest, key);
    }
}

/// Grouping a buffer loses nothing that fits: a group holds entries of the buffer
/// that belong to its shard, and all of them where they are no more than `cap`.
pub proof fn law_groups_hold_what_belongs_to_them<V>(
    groups: Seq<Vec<(String, V)>>,
    cap: int,
    buffered: Map<Seq<char>, V>,
    entries: Seq<(Seq<char>, V)>,
    i: int,
)
    requires
        0 <= cap,
        entry_map::is_listing(entries, buffered),
        is_grouping(groups, cap, entries),
        0 <= i < NUM_SHARDS,
    ensures
        groups[i]@.len() == if buffered_for(buffered, i).len() < cap {
            buffered_for(buffered, i).len() as int
        } else {
            cap
        },
        forall|j: int|
            0 <= j < groups[i]@.len() ==> buffered_for(buffered, i).contains(
                (#[trigger] groups[i]@[j]).0@,
            ) && buffered[groups[i]@[j].0@] == groups[i]@[j].1,
        forall|j: int, m: int|
            0 <= j < m < groups[i]@.len() ==> (#[trigger] groups[i]@[j]).0@ != (
            #[trigger] groups[i]@[m]).0@,
{
    let own = for_shard(entries, i);
    let listed = entry_map::keyed(groups[i]@);
    lemma_buffered_for(entries, buffered, i);
    lemma_for_shard_members(entries, i);
    lemma_for_shard_distinct(entries, i);
    assert(listed == first(own, cap));
    assert(listed.len() == groups[i]@.len());
    assert forall|j: int| 0 <= j < groups[i]@.len() implies buffered_for(buffered, i).contains(
        (#[trigger] groups[i]@[j]).0@,
    ) && buffered[groups[i]@[j].0@] == groups[i]@[j].1 by {
        assert(listed[j] == (groups[i]@[j].0@, groups[i]@[j].1));
        assert(listed[j] == own[j]);
        let w = choose|w: int| 0 <= w < entries.len() && entries[w] == own[j];
        assert(buffered.dom().contains(entries[w].0));
    }
    assert forall|j: int, m: int| 0 <= j < m < groups[i]@.len() implies (
    #[trigger] groups[i]@[j]).0@ != (#[trigger] groups[i]@[m]).0@ by {
        assert(listed[j] == own[j] && listed[m] == own[m]);
        assert(listed[j].0 == groups[i]@[j].0@ && listed[m].0 == groups[i]@[m].0@);
    }
}

/// Several writes are writes one after the other.
pub proof fn law_writes_are_made_in_turn<V>(
    shards: Seq<Map<Seq<char>, V>>,
    cap: int,
    a: Seq<(Seq<char>, V)>,
    b: Seq<(Seq<char>, V)>,
    entry: (Seq<char>, V),
)
    ensures
        store_all(shards, cap, seq![]) == shards,
        store_all(shards, cap, seq![entry]) == store_one(shards, cap, entry),
        store_all(shards, cap, a + b) == store_all(store_all(shards, cap, a), cap, b),
    decreases b.len(),
{
    reveal_with_fuel(store_all, 2);
    assert(seq![entry].drop_last() =~= seq![]);
    if b.len() == 0 {
        assert(a + b =~= a);
    } else {
        law_writes_are_made_in_turn(shards, cap, a, b.drop_last(), entry);
        assert((a + b).drop_last() =~= a + b.drop_last());
        assert((a + b).last() == b.last());
    }
}

/// Writes lose nothing that fits: where what the shard of a key holds and the
/// entries are together no more than its capacity, the key reads as its last
/// entry says.
pub proof fn law_writes_lose_nothing_that_fits<V>(
    shards: Seq<Map<Seq<char>, V>>,
    cap: int,
    entries: Seq<(Seq<char>, V)>,
    j: int,
)
    requires
        well_sharded(shards),
        0 <= j < entries.len(),
        forall|m: int| j < m < entries.len() ==> (#[trigger] entries[m]).0 != entries[j].0,
        shards[shard_of(entries[j].0)].len() + entries.len() <= cap,
    ensures
        lookup(store_all(shards, cap, entries), entries[j].0) == Some(entries[j].1),
    decreases entries.len(),
{
    let rest = entries.drop_last();
    let before = store_all(shards, cap, rest);
    let last = entries.last();
    let i = shard_of(entries[j].0);
    lemma_store_all_adds(shards, cap, rest, i);
    if j < rest.len() {
        assert forall|m: int| j < m < rest.len() implies (#[trigger] rest[m]).0 != rest[j].0 by {
            assert(entries[m].0 != entries[j].0);
        }
        assert(entries[entries.len() - 1].0 != entries[j].0);
        law_writes_lose_nothing_that_fits(shards, cap, rest, j);
        law_write_leaves_other_keys(before, cap, last.0, last.1, entries[j].0);
    } else {
        law_read_after_write(before, cap, last.0, last.1);
    }
}

proof fn lemma_store_all_adds<V>(
    shards: Seq<Map<Seq<char>, V>>,
    cap: int,
    entries: Seq<(Seq<char>, V)>,
    i: int,
)
    requires
        well_sharded(shards),
        0 <= i < NUM_SHARDS,
    ensures
        well_sharded(store_all(shards, cap, entries)),
        store_all(shards, cap, entries)[i].len() <= shards[i].len() + entries.len(),
    decreases entries.len(),
{
    if entries.len() > 0 {
        let rest = store_all(shards, cap, entries.drop_last());
        lemma_store_all_adds(shards, cap, entries.drop_last(), i);
        law_writes_keep_keys_in_their_shards(rest, cap, entries.last());
        assert(rest[i].dom().finite());
    }
}

/// A read finds a key wherever it is: the value that any shard holds for the key,
/// and nothing where no shard holds it. What a read gives back is there exactly
/// where the value is, and is a clone of it.
pub proof fn law_reads_find_what_is_held<V: Clone>(
    shards: Seq<Map<Seq<char>, V>>,
    key: Seq<char>,
    read: Option<V>,
)
    requires
        well_sharded(shards),
        is_read_of(lookup(shards, key), read),
    ensures
        forall|i: int|
            0 <= i < NUM_SHARDS && #[trigger] shards[i].dom().contains(key) ==> lookup(shards, key)
                == Some(shards[i][key]) && (read matches Some(copy) && cloned(
                shards[i][key],
                copy,
            )),
        (forall|i: int| 0 <= i < NUM_SHARDS ==> !#[trigger] shards[i].dom().contains(key))
            ==> lookup(shards, key) is None && read is None,
{
}

/// The capacity is spread evenly: the shards together hold it, and would not if
/// each held one entry less.
pub proof fn law_capacity_is_spread_evenly(capacity: int)
    requires
        capacity >= 0,
    ensures
        NUM_SHARDS * shard_capacity(capacity) >= capacity,
        capacity == 0 ==> shard_capacity(capacity) == 0,
        capacity > 0 ==> NUM_SHARDS * (shard_capacity(capacity) - 1) < capacity,
{
}

/// The shard of a hash is what is left of it after as many whole rounds over the
/// shards as fit.
pub proof fn law_shard_is_the_remainder(hash: u64) -> (rounds: int)
    ensures
        rounds >= 0,
        0 <= shard_of_hash(hash) < NUM_SHARDS,
        hash == rounds * NUM_SHARDS + shard_of_hash(hash),
{
    hash as int / NUM_SHARDS as int
}

/// The shard of a key follows from the hash of the key, and from nothing else:
/// it is the remainder of what a [`DefaultHasher`] gives for the key.
pub proof fn law_shard_goes_by_the_hash(key: Seq<char>)
    ensures
        shard_of(key) == DefaultHasher::spec_finish(str_hash_input(key)) as int % NUM_SHARDS as int,
{
}

/// All caches are equal.
pub proof fn law_all_caches_are_equal<V>(a: &Cache<V>, b: &Cache<V>)
    ensures
        vstd::std_specs::cmp::PartialEqSpec::eq_spec(a, b),
{
}

proof fn lemma_insert_all_len<V>(map: Map<Seq<char>, V>, entries: Seq<(Seq<char>, V)>)
    requires
        map.dom().finite(),
    ensures
        insert_all(map, entries).len() <= map.len() + entries.len(),
    decreases entries.len(),
{
    if entries.len() > 0 {
        lemma_insert_all_len(map, entries.drop_last());
        lemma_insert_all_keys(map, entries.drop_last());
    }
}

/// With entries for different keys, each inserted key has the value of its
/// entry, and every other key is as before.
proof fn lemma_insert_all_values<V>(
    map: Map<Seq<char>, V>,
    entries: Seq<(Seq<char>, V)>,
    key: Seq<char>,
)
    requires
        map.dom().finite(),
        forall|i: int, j: int|
            0 <= i < j < entries.len() ==> (#[trigger] entries[i]).0 != (#[trigger] entries[j]).0,
    ensures
        forall|j: int|
            0 <= j < entries.len() && (#[trigger] entries[j]).0 == key ==> insert_all(
                map,
                entries,
            ).dom().contains(key) && insert_all(map, entries)[key] == entries[j].1,
        (forall|j: int| 0 <= j < entries.len() ==> (#[trigger] entries[j]).0 != key) ==> (
        insert_all(map, entries).dom().contains(key) <==> map.dom().contains(key)) && insert_all(
            map,
            entries,
        )[key] == map[key],
    decreases entries.len(),
{
    if entries.len() > 0 {
        let rest = entries.drop_last();
        lemma_insert_all_values(map, rest, key);
        assert forall|j: int| 0 <= j < entries.len() && (#[trigger] entries[j]).0
            == key implies insert_all(map, entries).dom().contains(key) && insert_all(
            map,
            entries,
        )[key] == entries[j].1 by {
            if j < rest.len() {
                assert(rest[j].0 == key);
                assert(entries[j].0 != entries[entries.len() - 1].0);
            }
        }
        if forall|j: int| 0 <= j < entries.len() ==> (#[trigger] entries[j]).0 != key {
            assert forall|j: int| 0 <= j < rest.len() implies (#[trigger] rest[j]).0 != key by {
                assert(entries[j].0 != key);
            }
            assert(entries[entries.len() - 1].0 != key);
        }
    }
}

proof fn lemma_for_shard_distinct<V>(entries: Seq<(Seq<char>, V)>, i: int)
    requires
        forall|a: int, b: int|
            0 <= a < b < entries.len() ==> (#[trigger] entries[a]).0 != (#[trigger] entries[b]).0,
    ensures
        forall|a: int, b: int|
            0 <= a < b < for_shard(entries, i).len() ==> (#[trigger] for_shard(entries, i)[a]).0
                != (#[trigger] for_shard(entries, i)[b]).0,
    decreases entries.len(),
{
    if entries.len() == 0 {
        lemma_for_shard_empty(entries, i);
    } else {
        let rest = entries.drop_last();
        assert(entries =~= rest.push(entries.last()));
        lemma_for_shard_distinct(rest, i);
        lemma_for_shard_members(rest, i);
        lemma_for_shard_push(rest, entries.last(), i);
        let own = for_shard(entries, i);
        let own_rest = for_shard(rest, i);
        assert forall|a: int, b: int| 0 <= a < b < own.len() implies (#[trigger] own[a]).0 != (
        #[trigger] own[b]).0 by {
            assert(own[a] == own_rest[a]);
            if b < own_rest.len() {
                assert(own[b] == own_rest[b]);
            } else {
                let w = choose|w: int| 0 <= w < rest.len() && rest[w] == own_rest[a];
                assert(entries[w].0 != entries[entries.len() - 1].0);
            }
        }
    }
}

proof fn lemma_for_shard_complete<V>(entries: Seq<(Seq<char>, V)>, w: int)
    requires
        0 <= w < entries.len(),
    ensures
        for_shard(entries, shard_of(entries[w].0)).contains(entries[w]),
    decreases entries.len(),
{
    let i = shard_of(entries[w].0);
    let rest = entries.drop_last();
    assert(entries =~= rest.push(entries.last()));
    lemma_for_shard_push(rest, entries.last(), i);
    let own = for_shard(entries, i);
    if w < rest.len() {
        lemma_for_shard_complete(rest, w);
        let j = choose|j: int|
            0 <= j < for_shard(rest, i).len() && for_shard(rest, i)[j] == rest[w];
        assert(own[j] == entries[w]);
    } else {
        assert(own[own.len() - 1] == entries[w]);
    }
}

proof fn lemma_merge_of_first<V>(
    shard: Map<Seq<char>, V>,
    cap: int,
    entries: Seq<(Seq<char>, V)>,
)
    requires
        cap >= 0,
    ensures
        merged(shard, cap, first(entries, cap)) == merged(shard, cap, entries),
{
    let n = room(shard, cap);
    assert(first(first(entries, cap), n) =~= first(entries, n));
}

/// Inserting entries leaves a finite map, whose keys are those that were there
/// before and those of the entries.
proof fn lemma_insert_all_keys<V>(map: Map<Seq<char>, V>, entries: Seq<(Seq<char>, V)>)
    requires
        map.dom().finite(),
    ensures
        insert_all(map, entries).dom().finite(),
        forall|key: Seq<char>| #[trigger]
            insert_all(map, entries).dom().contains(key) <==> map.dom().contains(key) || exists|
                j: int,
            | 0 <= j < entries.len() && (#[trigger] entries[j]).0 == key,
    decreases entries.len(),
{
    if entries.len() > 0 {
        let rest = entries.drop_last();
        lemma_insert_all_keys(map, rest);
        assert forall|key: Seq<char>| #[trigger]
            insert_all(map, entries).dom().contains(key) implies map.dom().contains(key) || exists|
            j: int,
        | 0 <= j < entries.len() && (#[trigger] entries[j]).0 == key by {
            if key == entries.last().0 {
                assert(entries[entries.len() - 1].0 == key);
            } else if !map.dom().contains(key) {
                assert(insert_all(map, rest).dom().contains(key));
                let j = choose|j: int| 0 <= j < rest.len() && (#[trigger] rest[j]).0 == key;
                assert(entries[j].0 == key);
            }
        }
        assert forall|key: Seq<char>|
            map.dom().contains(key) || exists|j: int|
                0 <= j < entries.len() && (#[trigger] entries[j]).0 == key implies #[trigger]
        insert_all(map, entries).dom().contains(key) by {
            if !map.dom().contains(key) && key != entries.last().0 {
                let j = choose|j: int| 0 <= j < entries.len() && (#[trigger] entries[j]).0 == key;
                assert(rest[j].0 == key);
            }
            assert(insert_all(map, rest).dom().contains(key) || key == entries.last().0);
        }
    }
}

proof fn lemma_for_shard_members<V>(entries: Seq<(Seq<char>, V)>, i: int)
    ensures
        forall|j: int|
            0 <= j < for_shard(entries, i).len() ==> shard_of((#[trigger] for_shard(entries, i)[j]).0)
                == i && entries.contains(for_shard(entries, i)[j]),
    decreases entries.len(),
{
    if entries.len() == 0 {
        lemma_for_shard_empty(entries, i);
    } else {
        let rest = entries.drop_last();
        assert(entries =~= rest.push(entries.last()));
        lemma_for_shard_members(rest, i);
        lemma_for_shard_push(rest, entries.last(), i);
        let own = for_shard(entries, i);
        assert forall|j: int| 0 <= j < own.len() implies shard_of((#[trigger] own[j]).0) == i
            && entries.contains(own[j]) by {
            if j < for_shard(rest, i).len() {
                assert(own[j] == for_shard(rest, i)[j]);
                let w = choose|w: int| 0 <= w < rest.len() && rest[w] == own[j];
                assert(entries[w] == own[j]);
            } else {
                assert(entries[entries.len() - 1] == own[j]);
            }
        }
    }
}

/// A flush keeps every key in the shard that it belongs to.
pub proof fn law_flush_keeps_keys_in_their_shards<V>(
    shards: Seq<Map<Seq<char>, V>>,
    cap: int,
    entries: Seq<(Seq<char>, V)>,
)
    requires
        well_sharded(shards),
        cap >= 0,
    ensures
        well_sharded(flushed(shards, cap, entries)),
{
    let after = flushed(shards, cap, entries);
    assert forall|i: int| 0 <= i < after.len() implies (#[trigger] after[i]).dom().finite() && (
    forall|key: Seq<char>| #[trigger] after[i].dom().contains(key) ==> shard_of(key) == i) by {
        let own = for_shard(entries, i);
        let part = first(own, room(shards[i], cap));
        lemma_insert_all_keys(shards[i], part);
        lemma_for_shard_members(entries, i);
        assert forall|key: Seq<char>| #[trigger] after[i].dom().contains(key) implies shard_of(key)
            == i by {
            if !shards[i].dom().contains(key) {
                let j = choose|j: int| 0 <= j < part.len() && (#[trigger] part[j]).0 == key;
                assert(part[j] == own[j]);
            }
        }
    }
}

proof fn lemma_for_shard_empty<V>(entries: Seq<(Seq<char>, V)>, i: int)
    requires
        entries.len() == 0,
    ensures
        for_shard(entries, i).len() == 0,
{
    reveal(Seq::filter);
}

proof fn lemma_for_shard_push<V>(entries: Seq<(Seq<char>, V)>, entry: (Seq<char>, V), i: int)
    ensures
        for_shard(entries.push(entry), i) == if shard_of(entry.0) == i {
            for_shard(entries, i).push(entry)
        } else {
            for_shard(entries, i)
        },
{
    reveal(Seq::filter);
    assert(entries.push(entry).drop_last() =~= entries);
}

} // verus!
