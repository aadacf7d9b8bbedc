//! The store behind the cache: the least-recently-used store of the
//! `cached` crate, with what is taken on trust of it, and what follows
//! from that for the entries it holds.
//!
//! The store keeps its entries in order of use, the most recently used
//! first. Looking an entry up moves it to the front; storing an entry
//! under a new key puts it at the front and, when the store then holds
//! more than it was made for, drops the entry at the back.

use vstd::prelude::*;
use cached::Cached;
use cached::SizedCache;
use crate::stats::{Snapshot, SnapshotModel};

verus! {

/// The largest number of entries that a store can be made for. A store
/// sets its memory aside when it is made.
pub const MAX_CAPACITY: usize = 1048576;

/// The store of the `cached` crate that keeps its entries in order of use
/// and holds no more than it was made for. Nothing inside it is seen here:
/// what it holds goes by the names `stored` and `store_limit`.
#[verifier::external_type_specification]
#[verifier::external_body]
#[verifier::reject_recursive_types(K)]
#[verifier::reject_recursive_types(V)]
pub struct ExSizedCache<K, V>(SizedCache<K, V>);

/// What a cache entry holds.
pub struct CacheEntryModel {
    pub snapshot: SnapshotModel,
    pub inserted_at: nat,
}

impl CacheEntryModel {
    /// Whether the entry is still served at time `now` by a cache that
    /// serves entries for `ttl` seconds.
    pub open spec fn is_fresh(self, now: nat, ttl: nat) -> bool {
        now < self.inserted_at + ttl
    }
}

/// A snapshot in the cache, with the time at which it was stored.
pub struct CacheEntry {
    pub snapshot: Snapshot,
    pub inserted_at: u64,
}

impl View for CacheEntry {
    type V = CacheEntryModel;

    open spec fn view(&self) -> CacheEntryModel {
        CacheEntryModel { snapshot: self.snapshot@, inserted_at: self.inserted_at as nat }
    }
}

impl Clone for CacheEntry {
    fn clone(&self) -> (r: Self)
        ensures
            r@ == self@,
    {
        CacheEntry { snapshot: self.snapshot.clone(), inserted_at: self.inserted_at }
    }
}

/// The entries of a store under their keys, the most recently used first.
pub type Entries = Seq<(Seq<char>, CacheEntryModel)>;

/// The place of the entry under `key`.
pub open spec fn slot_of(entries: Entries, key: Seq<char>) -> Option<int>
    decreases entries.len(),
{
    if entries.len() == 0 {
        None
    } else if entries[0].0 == key {
        Some(0)
    } else {
        match slot_of(entries.drop_first(), key) {
            Some(i) => Some(i + 1),
            None => None,
        }
    }
}

/// Whether no two entries stand under one key.
pub open spec fn distinct_keys(entries: Entries) -> bool {
    forall|i: int, j: int|
        0 <= i < j < entries.len() ==> (#[trigger] entries[i]).0 != (#[trigger] entries[j]).0
}

/// The entries after the one under `key` was used: it stands first, the
/// others follow in their order.
pub open spec fn touched(entries: Entries, key: Seq<char>) -> Entries {
    match slot_of(entries, key) {
        Some(i) => seq![entries[i]] + entries.remove(i),
        None => entries,
    }
}

/// The entries without the one under `key`.
pub open spec fn removed(entries: Entries, key: Seq<char>) -> Entries {
    match slot_of(entries, key) {
        Some(i) => entries.remove(i),
        None => entries,
    }
}

/// The entries after `entry` was stored under `key` in a store that holds
/// at most `limit` entries: an entry under the same key is replaced where
/// it stands; a new one stands first, and the last entry leaves when there
/// are more than `limit`.
pub open spec fn inserted(entries: Entries, limit: nat, key: Seq<char>, entry: CacheEntryModel) -> Entries {
    match slot_of(entries, key) {
        Some(i) => entries.update(i, (key, entry)),
        None => {
            let grown = seq![(key, entry)] + entries;
            if grown.len() > limit {
                grown.drop_last()
            } else {
                grown
            }
        },
    }
}

/// What a store holds: its entries under their keys, the most recently
/// used first.
pub uninterp spec fn stored(store: SizedCache<String, CacheEntry>) -> Entries;

/// The number of entries that a store was made for.
pub uninterp spec fn store_limit(store: SizedCache<String, CacheEntry>) -> nat;

/// Makes an empty store for `size` entries.
///
/// Wraps `SizedCache::with_size`, which panics when `size` is zero and
/// sets memory aside for `size` entries.
#[verifier::external_body]
pub(crate) fn store_with_size(size: usize) -> (store: SizedCache<String, CacheEntry>)
    requires
        0 < size <= MAX_CAPACITY,
    ensures
        stored(store) == Seq::<(Seq<char>, CacheEntryModel)>::empty(),
        store_limit(store) == size,
{
    SizedCache::with_size(size)
}

/// Looks up the entry under `key` and marks it as used.
///
/// Wraps `SizedCache::cache_get`, which moves the entry it finds to the
/// front of the order of use and leaves the store unchanged when it finds
/// none, and does not panic. The entry is handed out as a copy.
#[verifier::external_body]
pub(crate) fn store_get(store: &mut SizedCache<String, CacheEntry>, key: &str) -> (r: Option<CacheEntry>)
    ensures
        store_limit(*final(store)) == store_limit(*old(store)),
        stored(*final(store)) == touched(stored(*old(store)), key@),
        match r {
            Some(entry) => entry_under(stored(*old(store)), key@) == Some(entry@),
            None => entry_under(stored(*old(store)), key@) is None,
        },
    no_unwind
{
    store.cache_get(key).cloned()
}

/// Stores `entry` under `key`.
///
/// Wraps `SizedCache::cache_set`, which replaces the value of an entry
/// under the same key where it stands, and otherwise puts the new entry
/// at the front and, when the store then holds more than it was made for,
/// drops the entry at the back. It does not panic.
#[verifier::external_body]
pub(crate) fn store_set(store: &mut SizedCache<String, CacheEntry>, key: String, entry: CacheEntry)
    ensures
        store_limit(*final(store)) == store_limit(*old(store)),
        stored(*final(store)) == inserted(
            stored(*old(store)),
            store_limit(*old(store)),
            key@,
            entry@,
        ),
    no_unwind
{
    store.cache_set(key, entry);
}

/// Drops the entry under `key`, if there is one.
///
/// Wraps `SizedCache::cache_remove`, which takes the entry out and leaves
/// the others in their order, and does not panic.
#[verifier::external_body]
pub(crate) fn store_remove(store: &mut SizedCache<String, CacheEntry>, key: &str)
    ensures
        store_limit(*final(store)) == store_limit(*old(store)),
        stored(*final(store)) == removed(stored(*old(store)), key@),
    no_unwind
{
    store.cache_remove(key);
}

/// The number of entries in the store.
///
/// Wraps `SizedCache::cache_size`.
#[verifier::external_body]
pub(crate) fn store_size(store: &SizedCache<String, CacheEntry>) -> (n: usize)
    ensures
        n == stored(*store).len(),
{
    store.cache_size()
}

/// `slot_of` gives the first place whose entry stands under the key, and
/// `None` exactly when no entry does.
pub proof fn lemma_slot_of(entries: Entries, key: Seq<char>)
    ensures
        match slot_of(entries, key) {
            Some(i) => 0 <= i < entries.len() && entries[i].0 == key && forall|j: int|
                0 <= j < i ==> (#[trigger] entries[j]).0 != key,
            None => forall|j: int| 0 <= j < entries.len() ==> (#[trigger] entries[j]).0 != key,
        },
    decreases entries.len(),
{
    if entries.len() > 0 && entries[0].0 != key {
        let rest = entries.drop_first();
        lemma_slot_of(rest, key);
        match slot_of(rest, key) {
            Some(i) => {
                assert forall|j: int| 0 <= j < i + 1 implies (#[trigger] entries[j]).0 != key by {
                    if j > 0 {
                        assert(rest[j - 1] == entries[j]);
                    }
                }
            },
            None => {
                assert forall|j: int| 0 <= j < entries.len() implies (#[trigger] entries[j]).0
                    != key by {
                    if j > 0 {
                        assert(rest[j - 1] == entries[j]);
                    }
                }
            },
        }
    }
}

/// Among distinct keys, the entry under a key stands at the place that
/// `slot_of` gives.
pub proof fn lemma_slot_of_place(entries: Entries, i: int)
    requires
        distinct_keys(entries),
        0 <= i < entries.len(),
    ensures
        slot_of(entries, entries[i].0) == Some(i),
{
    lemma_slot_of(entries, entries[i].0);
}

/// The entry under `key`.
pub open spec fn entry_under(entries: Entries, key: Seq<char>) -> Option<CacheEntryModel> {
    match slot_of(entries, key) {
        Some(i) => Some(entries[i].1),
        None => None,
    }
}

/// Among distinct keys, an entry that stands anywhere under a key is the
/// entry under that key.
pub proof fn lemma_entry_under(entries: Entries, i: int)
    requires
        distinct_keys(entries),
        0 <= i < entries.len(),
    ensures
        entry_under(entries, entries[i].0) == Some(entries[i].1),
{
    lemma_slot_of_place(entries, i);
}

/// Using an entry keeps the keys distinct, the number of entries, and
/// what stands under every key, and puts the entry first.
pub proof fn lemma_touched(entries: Entries, key: Seq<char>, other: Seq<char>)
    requires
        distinct_keys(entries),
    ensures
        distinct_keys(touched(entries, key)),
        touched(entries, key).len() == entries.len(),
        entry_under(touched(entries, key), other) == entry_under(entries, other),
        slot_of(entries, key) is Some ==> slot_of(touched(entries, key), key) == Some(0int),
{
    lemma_slot_of(entries, key);
    let after = touched(entries, key);
    match slot_of(entries, key) {
        Some(i) => {
            assert forall|a: int, b: int| 0 <= a < b < after.len() implies (#[trigger] after[a]).0
                != (#[trigger] after[b]).0 by {
                let pa = if a == 0 { i } else if a - 1 < i { a - 1 } else { a };
                let pb = if b - 1 < i { b - 1 } else { b };
                assert(after[a] == entries[pa]);
                assert(after[b] == entries[pb]);
            }
            lemma_slot_of(entries, other);
            lemma_slot_of(after, other);
            match slot_of(entries, other) {
                Some(k) => {
                    let place = if k == i { 0 } else if k < i { k + 1 } else { k };
                    assert(after[place] == entries[k]);
                    lemma_entry_under(after, place);
                },
                None => {
                    if slot_of(after, other) is Some {
                        let j = slot_of(after, other)->0;
                        let pj = if j == 0 { i } else if j - 1 < i { j - 1 } else { j };
                        assert(after[j] == entries[pj]);
                    }
                },
            }
            assert(after[0] == entries[i]);
            lemma_slot_of_place(after, 0);
        },
        None => {},
    }
}

/// Dropping an entry keeps the keys distinct, leaves no entry under the
/// key, and keeps what stands under every other key.
pub proof fn lemma_removed(entries: Entries, key: Seq<char>, other: Seq<char>)
    requires
        distinct_keys(entries),
    ensures
        distinct_keys(removed(entries, key)),
        removed(entries, key).len() <= entries.len(),
        slot_of(entries, key) is Some ==> removed(entries, key).len() == entries.len() - 1,
        entry_under(removed(entries, key), key) is None,
        other != key ==> entry_under(removed(entries, key), other) == entry_under(entries, other),
{
    lemma_slot_of(entries, key);
    let after = removed(entries, key);
    match slot_of(entries, key) {
        Some(i) => {
            assert forall|a: int, b: int| 0 <= a < b < after.len() implies (#[trigger] after[a]).0
                != (#[trigger] after[b]).0 by {
                let pa = if a < i { a } else { a + 1 };
                let pb = if b < i { b } else { b + 1 };
                assert(after[a] == entries[pa]);
                assert(after[b] == entries[pb]);
            }
            lemma_slot_of(after, key);
            if slot_of(after, key) is Some {
                let j = slot_of(after, key)->0;
                let pj = if j < i { j } else { j + 1 };
                assert(after[j] == entries[pj]);
                if pj < i {
                    assert(entries[pj].0 != entries[i].0);
                } else {
                    assert(entries[i].0 != entries[pj].0);
                }
            }
            if other != key {
                lemma_slot_of(entries, other);
                lemma_slot_of(after, other);
                match slot_of(entries, other) {
                    Some(k) => {
                        let place = if k < i { k } else { k - 1 };
                        assert(after[place] == entries[k]);
                        lemma_entry_under(after, place);
                    },
                    None => {
                        if slot_of(after, other) is Some {
                            let j = slot_of(after, other)->0;
                            let pj = if j < i { j } else { j + 1 };
                            assert(after[j] == entries[pj]);
                        }
                    },
                }
            }
        },
        None => {},
    }
}

/// Storing an entry keeps the keys distinct and the store within its
/// limit, and leaves the entry under its key.
pub proof fn lemma_inserted(entries: Entries, limit: nat, key: Seq<char>, entry: CacheEntryModel)
    requires
        distinct_keys(entries),
        entries.len() <= limit,
        limit > 0,
    ensures
        distinct_keys(inserted(entries, limit, key, entry)),
        inserted(entries, limit, key, entry).len() <= limit,
        entry_under(inserted(entries, limit, key, entry), key) == Some(entry),
        entry_under(entries, key) is None && entries.len() < limit ==> inserted(
            entries,
            limit,
            key,
            entry,
        ) == seq![(key, entry)] + entries,
        entry_under(entries, key) is None && entries.len() == limit ==> inserted(
            entries,
            limit,
            key,
            entry,
        ) == seq![(key, entry)] + entries.drop_last(),
{
    lemma_slot_of(entries, key);
    let after = inserted(entries, limit, key, entry);
    match slot_of(entries, key) {
        Some(i) => {
            assert forall|a: int, b: int| 0 <= a < b < after.len() implies (#[trigger] after[a]).0
                != (#[trigger] after[b]).0 by {
                assert(after[a].0 == entries[a].0);
                assert(after[b].0 == entries[b].0);
            }
            assert(after[i] == (key, entry));
            lemma_entry_under(after, i);
        },
        None => {
            assert forall|a: int, b: int| 0 <= a < b < after.len() implies (#[trigger] after[a]).0
                != (#[trigger] after[b]).0 by {
                assert(after[b] == entries[b - 1]);
                if a > 0 {
                    assert(after[a] == entries[a - 1]);
                }
            }
            assert(after[0] == (key, entry));
            lemma_entry_under(after, 0);
            if entries.len() == limit {
                assert(after =~= seq![(key, entry)] + entries.drop_last());
            }
        },
    }
}

/// Storing an entry under one key leaves what stands under another key,
/// unless that was the last entry of a full store, which then leaves.
pub proof fn lemma_inserted_other(
    entries: Entries,
    limit: nat,
    key: Seq<char>,
    entry: CacheEntryModel,
    other: Seq<char>,
)
    requires
        distinct_keys(entries),
        entries.len() <= limit,
        limit > 0,
        other != key,
    ensures
        entry_under(inserted(entries, limit, key, entry), other) is Some ==> entry_under(
            inserted(entries, limit, key, entry),
            other,
        ) == entry_under(entries, other),
        entry_under(entries, other) is Some && !(entry_under(entries, key) is None && entries.len()
            == limit && entries.last().0 == other) ==> entry_under(
            inserted(entries, limit, key, entry),
            other,
        ) == entry_under(entries, other),
{
    lemma_inserted(entries, limit, key, entry);
    lemma_slot_of(entries, key);
    lemma_slot_of(entries, other);
    let after = inserted(entries, limit, key, entry);
    lemma_slot_of(after, other);
    match slot_of(entries, key) {
        Some(i) => {
            if slot_of(entries, other) is Some {
                let k = slot_of(entries, other)->0;
                assert(after[k] == entries[k]);
                lemma_entry_under(after, k);
            } else if slot_of(after, other) is Some {
                let j = slot_of(after, other)->0;
                assert(after[j].0 == entries[j].0);
            }
        },
        None => {
            if slot_of(after, other) is Some {
                let j = slot_of(after, other)->0;
                assert(j > 0);
                assert(after[j] == entries[j - 1]);
                lemma_entry_under(entries, j - 1);
            }
            if slot_of(entries, other) is Some {
                let k = slot_of(entries, other)->0;
                if k + 1 < after.len() {
                    assert(after[k + 1] == entries[k]);
                    lemma_entry_under(after, k + 1);
                } else {
                    assert(entries.len() == limit);
                    assert(k == entries.len() - 1);
                }
            }
        },
    }
}

/// Dropping an entry that was just used gives what dropping it at once
/// gives.
pub proof fn lemma_touch_then_remove(entries: Entries, key: Seq<char>)
    requires
        distinct_keys(entries),
    ensures
        removed(touched(entries, key), key) == removed(entries, key),
{
    lemma_touched(entries, key, key);
    lemma_slot_of(entries, key);
    match slot_of(entries, key) {
        Some(i) => {
            assert(removed(touched(entries, key), key) =~= removed(entries, key));
        },
        None => {},
    }
}

} // verus!
