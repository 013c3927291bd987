//! The reachability cache: a bounded record, least recently used entry
//! dropped first, of search positions that are known to lead nowhere.

use crate::vector::copy_table;
use lru::LruCache;
use std::num::NonZeroUsize;
use vstd::prelude::*;

verus! {

/// The cache of the `lru` crate. Nothing inside it is visible here.
#[verifier::external_type_specification]
#[verifier::external_body]
#[verifier::reject_recursive_types(K)]
#[verifier::reject_recursive_types(V)]
#[verifier::reject_recursive_types(S)]
pub struct ExLruCache<K, V, S>(LruCache<K, V, S>);

/// The hasher with which the `lru` crate builds a cache by default. Nothing
/// inside it is visible here.
#[verifier::external_type_specification]
#[verifier::external_body]
pub struct ExDefaultHasher(lru::DefaultHasher);

/// A search position: the state that has been reached, the layer that was
/// applied last, and the number of layers that may still be applied. The
/// layer belongs to the position because its children decide what may
/// follow, and the number because a longer chain may succeed where a
/// shorter one cannot.
pub type Position = (Vec<u8>, usize, u8);

/// A search position in specifications.
pub type PositionView = (Seq<u8>, usize, u8);

/// The entries of a cache, from the most recently used to the least recently
/// used: what `LruCache::iter` would yield.
pub uninterp spec fn cache_entries(cache: LruCache<Position, bool>) -> Seq<(PositionView, bool)>;

/// The number of entries that a cache was made to hold: `LruCache::cap`.
pub uninterp spec fn cache_limit(cache: LruCache<Position, bool>) -> nat;

/// The view of a position.
pub open spec fn position_view(position: Position) -> PositionView {
    (position.0@, position.1, position.2)
}

/// `entries` has an entry for `key`.
pub open spec fn holds_key(entries: Seq<(PositionView, bool)>, key: PositionView) -> bool {
    exists|i: int| 0 <= i < entries.len() && (#[trigger] entries[i]).0 == key
}

/// The place of the entry for `key` in `entries`.
pub open spec fn key_index(entries: Seq<(PositionView, bool)>, key: PositionView) -> int {
    choose|i: int| 0 <= i < entries.len() && (#[trigger] entries[i]).0 == key
}

/// The value that `entries` has for `key`.
pub open spec fn value_of(entries: Seq<(PositionView, bool)>, key: PositionView) -> Option<bool> {
    if holds_key(entries, key) {
        Some(entries[key_index(entries, key)].1)
    } else {
        None
    }
}

/// `entries` after a look at `key`: its entry, if there is one, has moved to
/// the front.
pub open spec fn touched(entries: Seq<(PositionView, bool)>, key: PositionView) -> Seq<
    (PositionView, bool),
> {
    if holds_key(entries, key) {
        seq![entries[key_index(entries, key)]] + entries.remove(key_index(entries, key))
    } else {
        entries
    }
}

/// `entries` after `value` has been stored for `key` in a cache that holds
/// at most `limit` entries: the entry stands at the front; an older entry for
/// the key is gone, and otherwise, if the cache was full, the last entry is.
pub open spec fn stored(
    entries: Seq<(PositionView, bool)>,
    limit: nat,
    key: PositionView,
    value: bool,
) -> Seq<(PositionView, bool)> {
    if holds_key(entries, key) {
        seq![(key, value)] + entries.remove(key_index(entries, key))
    } else if entries.len() == limit {
        seq![(key, value)] + entries.drop_last()
    } else {
        seq![(key, value)] + entries
    }
}

/// Calls `LruCache::new`: the cache is empty and holds at most `limit`
/// entries.
#[verifier::external_body]
fn cache_new(limit: usize) -> (cache: LruCache<Position, bool>)
    requires
        limit > 0,
    ensures
        cache_entries(cache) == Seq::<(PositionView, bool)>::empty(),
        cache_limit(cache) == limit,
{
    LruCache::new(NonZeroUsize::new(limit).unwrap())
}

/// Calls `LruCache::get`: the value of the entry for `key`, if there is one,
/// and that entry becomes the most recently used.
#[verifier::external_body]
fn cache_get(cache: &mut LruCache<Position, bool>, key: &Position) -> (found: Option<bool>)
    ensures
        found == value_of(cache_entries(*old(cache)), position_view(*key)),
        cache_entries(*final(cache)) == touched(cache_entries(*old(cache)), position_view(*key)),
        cache_limit(*final(cache)) == cache_limit(*old(cache)),
{
    cache.get(key).copied()
}

/// Calls `LruCache::put`: the entry for `key` now has `value` and is the most
/// recently used; where the key is new and the cache is full, the least
/// recently used entry leaves. Returns the value that the key had before.
#[verifier::external_body]
fn cache_put(cache: &mut LruCache<Position, bool>, key: Position, value: bool) -> (replaced:
    Option<bool>)
    ensures
        replaced == value_of(cache_entries(*old(cache)), position_view(key)),
        cache_entries(*final(cache)) == stored(
            cache_entries(*old(cache)),
            cache_limit(*old(cache)),
            position_view(key),
            value,
        ),
        cache_limit(*final(cache)) == cache_limit(*old(cache)),
{
    cache.put(key, value)
}

/// The number of entries that a new cache manager holds at most.
pub const CACHE_LIMIT: usize = 10000;

/// Keeps the record of the search positions that were found to lead nowhere.
pub struct CacheManager {
    legality_cache: LruCache<Position, bool>,
}

impl CacheManager {
    /// The entries, from the most recently used to the least recently used.
    pub closed spec fn entries(&self) -> Seq<(PositionView, bool)> {
        cache_entries(self.legality_cache)
    }

    /// The number of entries that the cache holds at most.
    pub closed spec fn limit(&self) -> nat {
        cache_limit(self.legality_cache)
    }

    /// A cache manager with an empty cache of ten thousand entries.
    pub fn new() -> (manager: CacheManager)
        ensures
            manager.entries() == Seq::<(PositionView, bool)>::empty(),
            manager.limit() == CACHE_LIMIT,
    {
        CacheManager { legality_cache: cache_new(CACHE_LIMIT) }
    }

    /// A cache manager with an empty cache of `limit` entries.
    pub fn with_limit(limit: usize) -> (manager: CacheManager)
        requires
            limit > 0,
        ensures
            manager.entries() == Seq::<(PositionView, bool)>::empty(),
            manager.limit() == limit,
    {
        CacheManager { legality_cache: cache_new(limit) }
    }

    /// Looks up what is recorded for a position, which counts as a use of
    /// its entry.
    pub fn lookup(&mut self, state: &Vec<u8>, last: usize, depth: u8) -> (found: Option<bool>)
        ensures
            found == value_of(old(self).entries(), (state@, last, depth)),
            final(self).entries() == touched(old(self).entries(), (state@, last, depth)),
            final(self).limit() == old(self).limit(),
    {
        let key: Position = (copy_table(state), last, depth);
        cache_get(&mut self.legality_cache, &key)
    }

    /// Records for a position whether it is known to lead nowhere.
    pub fn record(&mut self, state: &Vec<u8>, last: usize, depth: u8, infeasible: bool)
        ensures
            final(self).entries() == stored(
                old(self).entries(),
                old(self).limit(),
                (state@, last, depth),
                infeasible,
            ),
            final(self).limit() == old(self).limit(),
    {
        let key: Position = (copy_table(state), last, depth);
        let _ = cache_put(&mut self.legality_cache, key, infeasible);
    }
}

/// Every entry that is there after a look at a key was there before.
pub proof fn lemma_touched_keeps(entries: Seq<(PositionView, bool)>, key: PositionView, i: int)
    requires
        0 <= i < touched(entries, key).len(),
    ensures
        entries.contains(touched(entries, key)[i]),
{
    if holds_key(entries, key) {
        let at = key_index(entries, key);
        if i == 0 {
            assert(entries[at] == touched(entries, key)[i]);
        } else if i - 1 < at {
            assert(entries[i - 1] == touched(entries, key)[i]);
        } else {
            assert(entries[i] == touched(entries, key)[i]);
        }
    } else {
        assert(entries[i] == touched(entries, key)[i]);
    }
}

/// Every entry that is there after a value was stored is the new entry or
/// was there before.
pub proof fn lemma_stored_keeps(
    entries: Seq<(PositionView, bool)>,
    limit: nat,
    key: PositionView,
    value: bool,
    i: int,
)
    requires
        limit > 0,
        0 <= i < stored(entries, limit, key, value).len(),
    ensures
        stored(entries, limit, key, value)[i] == (key, value) || entries.contains(
            stored(entries, limit, key, value)[i],
        ),
{
    let after = stored(entries, limit, key, value);
    if i > 0 {
        if holds_key(entries, key) {
            let at = key_index(entries, key);
            if i - 1 < at {
                assert(entries[i - 1] == after[i]);
            } else {
                assert(entries[i] == after[i]);
            }
        } else if entries.len() == limit {
            assert(entries.drop_last()[i - 1] == after[i]);
            assert(entries[i - 1] == after[i]);
        } else {
            assert(entries[i - 1] == after[i]);
        }
    }
}

} // verus!
