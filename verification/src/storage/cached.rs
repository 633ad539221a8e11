//! A cache of bundles in front of a store.

use lru::LruCache;
use std::num::NonZeroUsize;
use vstd::prelude::*;
use crate::storage;
use crate::storage::recency;
use crate::storage::Bytes;

verus! {

/// Default LRU cache capacity (number of entries).
pub const DEFAULT_LRU_CAPACITY: usize = 1024;

/// Default maximum bundle size (in bytes) eligible for caching.
pub const DEFAULT_MAX_CACHED_BUNDLE_SIZE: usize = 16 * 1024;

/// The greatest capacity of a cache, which sets aside the memory for all of its entries when it
/// is made.
pub const MAX_LRU_CAPACITY: usize = usize::MAX / 128;

/// What a cache holds, the latest used first: names, each with the bundle's bytes.
pub uninterp spec fn cache_items(cache: LruCache<String, Bytes>) -> Seq<(Seq<char>, Seq<u8>)>;

/// How many items a cache was made for.
pub uninterp spec fn cache_cap(cache: LruCache<String, Bytes>) -> nat;

/// As many items as there is space for, the latest used ones.
pub open spec fn within(items: Seq<(Seq<char>, Seq<u8>)>, cap: nat) -> Seq<(Seq<char>, Seq<u8>)> {
    if items.len() > cap {
        items.take(cap as int)
    } else {
        items
    }
}

/// `LruCache::new` gives an empty cache for a number of items, which may not be zero. It
/// allocates for all of them, and a table of that size has to be one that can be asked for.
#[verifier::external_body]
fn cache_new(capacity: usize) -> (r: LruCache<String, Bytes>)
    requires
        0 < capacity <= MAX_LRU_CAPACITY,
    ensures
        cache_items(r) == Seq::<(Seq<char>, Seq<u8>)>::empty(),
        cache_cap(r) == capacity,
{
    LruCache::new(NonZeroUsize::new(capacity).unwrap())
}

/// `LruCache::get` gives the value under the name, and makes that item the latest used.
#[verifier::external_body]
fn cache_get(cache: &mut LruCache<String, Bytes>, name: &str) -> (r: Option<Bytes>)
    ensures
        storage::value_if(r) == recency::value_of(cache_items(*old(cache)), name@),
        cache_items(*final(cache)) == recency::touched(cache_items(*old(cache)), name@),
        cache_cap(*final(cache)) == cache_cap(*old(cache)),
{
    cache.get(name).cloned()
}

/// `LruCache::put` puts a value under a name as the latest used item. Where the name is new and
/// the cache is full, the item used the longest ago is dropped. It gives the value that the new
/// one takes the place of.
#[verifier::external_body]
fn cache_put(cache: &mut LruCache<String, Bytes>, name: String, data: Bytes) -> (r: Option<Bytes>)
    requires
        cache_items(*old(cache)).len() <= cache_cap(*old(cache)),
    ensures
        storage::value_if(r) == recency::value_of(cache_items(*old(cache)), name@),
        cache_items(*final(cache)) == within(
            recency::with_latest(cache_items(*old(cache)), name@, data@),
            cache_cap(*old(cache)),
        ),
        cache_cap(*final(cache)) == cache_cap(*old(cache)),
{
    cache.put(name, data)
}

/// `LruCache::pop` takes the item with the name out and gives its value.
#[verifier::external_body]
fn cache_pop(cache: &mut LruCache<String, Bytes>, name: &str) -> (r: Option<Bytes>)
    ensures
        storage::value_if(r) == recency::value_of(cache_items(*old(cache)), name@),
        cache_items(*final(cache)) == recency::without(cache_items(*old(cache)), name@),
        cache_cap(*final(cache)) == cache_cap(*old(cache)),
{
    cache.pop(name)
}

/// An LRU cache in front of a store.
///
/// Bundles smaller than `max_bundle_size` are cached when they are saved, replaced or loaded. The
/// cache makes no requests of the store itself: it is told of each one, and of its outcome.
pub struct CachedBundleStorage {
    lru: LruCache<String, Bytes>,
    max_bundle_size: usize,
}

/// The value of a [`CachedBundleStorage`].
pub struct CacheView {
    /// The bundles in the cache, the latest used first.
    pub items: Seq<(Seq<char>, Seq<u8>)>,
    /// How many bundles the cache holds at most.
    pub capacity: nat,
    /// Bundles of this size or more are not cached.
    pub max_bundle_size: usize,
}

impl View for CachedBundleStorage {
    type V = CacheView;

    closed spec fn view(&self) -> CacheView {
        CacheView {
            items: cache_items(self.lru),
            capacity: cache_cap(self.lru),
            max_bundle_size: self.max_bundle_size,
        }
    }
}

impl CacheView {
    /// The cache holds no more than it is made for, nothing twice, and nothing too large.
    pub open spec fn wf(self) -> bool {
        &&& self.capacity > 0
        &&& self.items.len() <= self.capacity
        &&& recency::distinct(self.items)
        &&& forall|i: int|
            0 <= i < self.items.len() ==> (#[trigger] self.items[i]).1.len() < self.max_bundle_size
    }

    /// The bytes that are cached under a name.
    pub open spec fn cached(self, name: Seq<char>) -> Option<Seq<u8>> {
        recency::value_of(self.items, name)
    }

    /// A bundle becomes the latest used, if it is cached.
    pub open spec fn used_again(self, name: Seq<char>) -> CacheView {
        CacheView { items: recency::touched(self.items, name), ..self }
    }

    /// A bundle is no longer cached.
    pub open spec fn forgotten(self, name: Seq<char>) -> CacheView {
        CacheView { items: recency::without(self.items, name), ..self }
    }

    /// A bundle is cached, if it is small enough.
    pub open spec fn remembered(self, name: Seq<char>, data: Seq<u8>) -> CacheView {
        if data.len() < self.max_bundle_size {
            CacheView {
                items: within(recency::with_latest(self.items, name, data), self.capacity),
                ..self
            }
        } else {
            self
        }
    }

    /// A bundle is cached if it is small enough, and otherwise no longer.
    pub open spec fn updated(self, name: Seq<char>, data: Seq<u8>) -> CacheView {
        if data.len() < self.max_bundle_size {
            self.remembered(name, data)
        } else {
            self.forgotten(name)
        }
    }
}

/// Caching a bundle keeps the cache in order, and leaves the latest used bundles.
proof fn lemma_remembered(v: CacheView, name: Seq<char>, data: Seq<u8>, other: Seq<char>)
    requires
        v.wf(),
        data.len() < v.max_bundle_size,
    ensures
        v.remembered(name, data).wf(),
        v.remembered(name, data).cached(name) == Some(data),
        other != name ==> v.remembered(name, data).cached(other) is None || v.remembered(
            name,
            data,
        ).cached(other) == v.cached(other),
{
    let all = recency::with_latest(v.items, name, data);
    recency::lemma_index_of(v.items, name);
    recency::law_with_latest(v.items, name, data, name);
    recency::law_with_latest(v.items, name, data, other);
    let left = recency::without(v.items, name);
    let at = recency::index_of(v.items, name);
    assert forall|i: int| 0 <= i < all.len() implies (#[trigger] all[i]).1.len()
        < v.max_bundle_size by {
        if i > 0 {
            assert(all[i] == left[i - 1]);
            assert(left[i - 1] == v.items[if recency::names(v.items, name) && i - 1 >= at {
                i
            } else {
                i - 1
            }]);
        }
    }
    if all.len() > v.capacity {
        recency::law_latest_kept(all, v.capacity as int, name);
        recency::law_latest_kept(all, v.capacity as int, other);
    }
}

proof fn lemma_forgotten(v: CacheView, name: Seq<char>)
    requires
        v.wf(),
    ensures
        v.forgotten(name).wf(),
{
    recency::lemma_index_of(v.items, name);
    recency::law_without(v.items, name, name);
    let left = recency::without(v.items, name);
    let at = recency::index_of(v.items, name);
    assert forall|i: int| 0 <= i < left.len() implies (#[trigger] left[i]).1.len()
        < v.max_bundle_size by {
        assert(left[i] == v.items[if recency::names(v.items, name) && i >= at {
            i + 1
        } else {
            i
        }]);
    }
}

proof fn lemma_cache_used_again(v: CacheView, name: Seq<char>)
    requires
        v.wf(),
    ensures
        v.used_again(name).wf(),
{
    recency::lemma_index_of(v.items, name);
    recency::law_touched(v.items, name, name);
    if let Some(data) = v.cached(name) {
        lemma_remembered(v, name, data, name);
        assert(v.used_again(name).items == recency::with_latest(v.items, name, data));
        assert(recency::with_latest(v.items, name, data).len() == v.items.len());
    }
}

impl CachedBundleStorage {
    /// An empty cache.
    pub fn new(capacity: usize, max_bundle_size: usize) -> (r: Self)
        requires
            0 < capacity <= MAX_LRU_CAPACITY,
        ensures
            r@.wf(),
            r@ == (CacheView { items: Seq::empty(), capacity: capacity as nat, max_bundle_size }),
    {
        CachedBundleStorage { lru: cache_new(capacity), max_bundle_size }
    }

    /// Whether a bundle is small enough to be cached.
    pub fn is_cacheable(&self, data: &Bytes) -> (r: bool)
        ensures
            r == (data@.len() < self@.max_bundle_size),
    {
        data.len() < self.max_bundle_size
    }

    /// A bundle is to be loaded: gives it if it is cached. Otherwise the store is to be asked, and
    /// its answer to be handed to [`CachedBundleStorage::loaded`].
    ///
    /// The bundle stays in the cache, so that those that load it again find it there too.
    pub fn load(&mut self, storage_name: &str) -> (r: Option<Bytes>)
        requires
            old(self)@.wf(),
        ensures
            storage::value_if(r) == old(self)@.cached(storage_name@),
            final(self)@ == old(self)@.used_again(storage_name@),
            final(self)@.wf(),
    {
        proof {
            lemma_cache_used_again(self@, storage_name@);
        }
        cache_get(&mut self.lru, storage_name)
    }

    /// The store was asked for a bundle that was not cached, and this is what it has under that
    /// name. Gives it back.
    pub fn loaded(&mut self, storage_name: &str, result: Option<Bytes>) -> (r: Option<Bytes>)
        requires
            old(self)@.wf(),
        ensures
            storage::value_if(r) == storage::value_if(result),
            final(self)@ == (match result {
                Some(data) => old(self)@.remembered(storage_name@, data@),
                None => old(self)@,
            }),
            final(self)@.wf(),
    {
        if let Some(data) = &result {
            let _ = self.saved(storage_name, data.clone());
        }
        result
    }

    /// The store has saved a bundle under a name. Says whether it is small enough to be cached,
    /// which it then is.
    pub fn saved(&mut self, storage_name: &str, data: Bytes) -> (r: bool)
        requires
            old(self)@.wf(),
        ensures
            r == (data@.len() < old(self)@.max_bundle_size),
            final(self)@ == old(self)@.remembered(storage_name@, data@),
            final(self)@.wf(),
    {
        if self.is_cacheable(&data) {
            proof {
                lemma_remembered(self@, storage_name@, data@, storage_name@);
            }
            let _ = cache_put(&mut self.lru, storage_name.to_owned(), data);
            true
        } else {
            false
        }
    }

    /// The store has put other bytes under a name.
    pub fn replaced(&mut self, storage_name: &str, data: Bytes)
        requires
            old(self)@.wf(),
        ensures
            final(self)@ == old(self)@.updated(storage_name@, data@),
            final(self)@.wf(),
    {
        if self.is_cacheable(&data) {
            let _ = self.saved(storage_name, data);
        } else {
            self.deleting(storage_name);
        }
    }

    /// A bundle is about to be deleted from the store.
    pub fn deleting(&mut self, storage_name: &str)
        requires
            old(self)@.wf(),
        ensures
            final(self)@ == old(self)@.forgotten(storage_name@),
            final(self)@.wf(),
    {
        proof {
            lemma_forgotten(self@, storage_name@);
        }
        let _ = cache_pop(&mut self.lru, storage_name);
    }
}

/// What a store has under a name.
pub open spec fn answer(store: Map<Seq<char>, Seq<u8>>, name: Seq<char>) -> Option<Seq<u8>> {
    if store.contains_key(name) {
        Some(store[name])
    } else {
        None
    }
}

/// Whatever is cached is what the store has.
pub open spec fn coherent(v: CacheView, store: Map<Seq<char>, Seq<u8>>) -> bool {
    forall|name: Seq<char>| #[trigger]
        v.cached(name) is Some ==> v.cached(name) == answer(store, name)
}

/// A cache is transparent: a bundle that is found in it is the one that the store has, and finding
/// it, or asking the store and keeping its answer, leaves the cache in agreement with the store.
pub proof fn law_load_is_transparent(
    v: CacheView,
    store: Map<Seq<char>, Seq<u8>>,
    name: Seq<char>,
)
    requires
        v.wf(),
        coherent(v, store),
    ensures
        v.cached(name) is Some ==> v.cached(name) == answer(store, name),
        coherent(v.used_again(name), store),
        answer(store, name) matches Some(data) ==> coherent(v.remembered(name, data), store),
{
    assert forall|other: Seq<char>| #[trigger] v.used_again(name).cached(other) == v.cached(other) by {
        recency::law_touched(v.items, name, other);
    }
    if let Some(data) = answer(store, name) {
        if data.len() < v.max_bundle_size {
            assert forall|other: Seq<char>| #[trigger]
                v.remembered(name, data).cached(other) is Some implies v.remembered(
                name,
                data,
            ).cached(other) == answer(store, other) by {
                lemma_remembered(v, name, data, other);
                assert(v.cached(other) == v.cached(other));
            }
        }
    }
}

/// A cache that agreed with the store agrees with it after a bundle is saved under a new name,
/// and such a bundle is cached if it is small enough.
pub proof fn law_save_is_transparent(
    v: CacheView,
    store: Map<Seq<char>, Seq<u8>>,
    name: Seq<char>,
    data: Seq<u8>,
)
    requires
        v.wf(),
        coherent(v, store),
        !store.contains_key(name),
    ensures
        coherent(v.remembered(name, data), store.insert(name, data)),
        data.len() < v.max_bundle_size ==> v.remembered(name, data).cached(name) == Some(data),
{
    let after = store.insert(name, data);
    assert forall|other: Seq<char>| #[trigger]
        v.remembered(name, data).cached(other) is Some implies v.remembered(name, data).cached(other)
        == answer(after, other) by {
        assert(v.cached(other) == v.cached(other));
        if data.len() < v.max_bundle_size {
            lemma_remembered(v, name, data, other);
        }
    }
    if data.len() < v.max_bundle_size {
        lemma_remembered(v, name, data, name);
    }
}

/// A cache that agreed with the store agrees with it after other bytes are put under a name, and
/// never gives the earlier ones again.
pub proof fn law_replace_is_transparent(
    v: CacheView,
    store: Map<Seq<char>, Seq<u8>>,
    name: Seq<char>,
    data: Seq<u8>,
)
    requires
        v.wf(),
        coherent(v, store),
    ensures
        coherent(v.updated(name, data), store.insert(name, data)),
        v.updated(name, data).cached(name) == (if data.len() < v.max_bundle_size {
            Some(data)
        } else {
            None
        }),
{
    let after = store.insert(name, data);
    assert forall|other: Seq<char>| #[trigger]
        v.updated(name, data).cached(other) is Some implies v.updated(name, data).cached(other)
        == answer(after, other) by {
        assert(v.cached(other) == v.cached(other));
        if data.len() < v.max_bundle_size {
            lemma_remembered(v, name, data, other);
        } else {
            recency::law_without(v.items, name, other);
        }
    }
    if data.len() < v.max_bundle_size {
        lemma_remembered(v, name, data, name);
    } else {
        recency::law_without(v.items, name, name);
    }
}

/// A cache that agreed with the store agrees with it while and after a bundle is deleted, whether
/// or not the store does delete it, and does not have the bundle any more.
pub proof fn law_delete_is_transparent(
    v: CacheView,
    store: Map<Seq<char>, Seq<u8>>,
    name: Seq<char>,
)
    requires
        v.wf(),
        coherent(v, store),
    ensures
        coherent(v.forgotten(name), store),
        coherent(v.forgotten(name), store.remove(name)),
        v.forgotten(name).cached(name) is None,
{
    recency::law_without(v.items, name, name);
    assert forall|other: Seq<char>| #[trigger]
        v.forgotten(name).cached(other) is Some implies other != name && v.forgotten(name).cached(
        other,
    ) == answer(store, other) by {
        assert(v.cached(other) == v.cached(other));
        recency::law_without(v.items, name, other);
    }
}

/// A bundle that is found in the cache becomes the first in it, the latest used, and the others
/// keep their order; one that is not found changes nothing.
pub proof fn law_found_becomes_latest(v: CacheView, name: Seq<char>, data: Seq<u8>)
    requires
        v.wf(),
    ensures
        v.cached(name) == Some(data) ==> v.used_again(name) == (CacheView {
            items: seq![(name, data)] + recency::others(v.items, name),
            capacity: v.capacity,
            max_bundle_size: v.max_bundle_size,
        }),
        v.cached(name) is None ==> v.used_again(name) == v,
{
    recency::lemma_index_of(v.items, name);
    recency::law_used_comes_first(v.items, name);
    if v.cached(name) == Some(data) {
        let at = recency::index_of(v.items, name);
        assert(v.items[at] == (name, data));
    }
}

/// A bundle below the limit becomes the first in the cache, before the others in their order. Only
/// where it is new and the cache is full is one dropped: the one used the longest ago. A bundle
/// that is not below the limit changes nothing.
pub proof fn law_cached_becomes_latest(v: CacheView, name: Seq<char>, data: Seq<u8>)
    requires
        v.wf(),
    ensures
        ({
            let r = v.remembered(name, data);
            let all = seq![(name, data)] + recency::others(v.items, name);
            &&& r.capacity == v.capacity
            &&& r.max_bundle_size == v.max_bundle_size
            &&& data.len() >= v.max_bundle_size ==> r.items == v.items
            &&& data.len() < v.max_bundle_size && (v.cached(name) is Some || v.items.len()
                < v.capacity) ==> r.items == all
            &&& data.len() < v.max_bundle_size && v.cached(name) is None && v.items.len()
                == v.capacity ==> r.items == all.drop_last()
        }),
{
    recency::lemma_index_of(v.items, name);
    recency::law_latest_comes_first(v.items, name, data);
    let all = recency::with_latest(v.items, name, data);
    if all.len() > v.capacity {
        assert(all.take(all.len() - 1) =~= all.drop_last());
    }
}

/// A bundle that was replaced by one below the limit is cached as a new one is; one that was
/// replaced by a larger one is taken from the cache, where the others keep their order.
pub proof fn law_replaced_in_cache(v: CacheView, name: Seq<char>, data: Seq<u8>)
    requires
        v.wf(),
    ensures
        data.len() < v.max_bundle_size ==> v.updated(name, data) == v.remembered(name, data),
        data.len() >= v.max_bundle_size ==> v.updated(name, data) == v.forgotten(name),
{
}

/// A bundle that is deleted is taken from the cache, where the others keep their order.
pub proof fn law_deleted_from_cache(v: CacheView, name: Seq<char>)
    requires
        v.wf(),
    ensures
        v.forgotten(name) == (CacheView {
            items: recency::others(v.items, name),
            capacity: v.capacity,
            max_bundle_size: v.max_bundle_size,
        }),
{
    recency::law_without_keeps_order(v.items, name);
}

/// What is cached under a name is what stands there under it.
pub proof fn law_cached_is_an_item(v: CacheView, name: Seq<char>, data: Seq<u8>)
    requires
        v.wf(),
    ensures
        v.cached(name) == Some(data) <==> v.items.contains((name, data)),
{
    recency::law_value_is_an_items(v.items, name, data);
}

/// What the store answered is found in the cache afterwards, where it is below the limit, and
/// giving it back does not change it.
pub proof fn law_answer_is_cached(v: CacheView, name: Seq<char>, data: Seq<u8>)
    requires
        v.wf(),
        data.len() < v.max_bundle_size,
    ensures
        v.remembered(name, data).cached(name) == Some(data),
        v.remembered(name, data).wf(),
{
    lemma_remembered(v, name, data, name);
}

/// Between any two requests, the cache holds no more bundles than it was made for, none twice, and
/// none that is not below the limit.
pub proof fn law_cache_between_requests(v: CacheView, i: int, j: int)
    requires
        v.wf(),
    ensures
        v.items.len() <= v.capacity,
        0 <= i < j < v.items.len() ==> v.items[i].0 != v.items[j].0,
        0 <= i < v.items.len() ==> v.items[i].1.len() < v.max_bundle_size,
{
}

} // verus!
