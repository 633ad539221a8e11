//! Bundles with the time of their arrival, in the order in which they were last used.

use lru::LruCache;
use vstd::prelude::*;
use crate::storage::recency;
use crate::storage::Bytes;

verus! {

/// `lru::LruCache`: what it holds is named by [`mem_items`] and by its counterpart for other values.
#[verifier::external_type_specification]
#[verifier::external_body]
#[verifier::reject_recursive_types(K)]
#[verifier::reject_recursive_types(V)]
#[verifier::reject_recursive_types(S)]
pub struct ExLruCache<K, V, S>(lru::LruCache<K, V, S>);

/// `lru::DefaultHasher`: what an `LruCache` hashes its keys with.
#[verifier::external_type_specification]
#[verifier::external_body]
pub struct ExDefaultHasher(lru::DefaultHasher);

/// What a cache holds, the latest used first: names, each with a time and the bundle's bytes.
pub uninterp spec fn mem_items(cache: LruCache<String, (i128, Bytes)>) -> Seq<
    (Seq<char>, (i128, Seq<u8>)),
>;

/// How many items a cache was made for.
pub uninterp spec fn mem_cap(cache: LruCache<String, (i128, Bytes)>) -> nat;

/// The value of a bundle with its time.
pub open spec fn stamped(value: (i128, Bytes)) -> (i128, Seq<u8>) {
    (value.0, value.1@)
}

/// The value of an optional bundle with its time.
pub open spec fn stamped_if(value: Option<(i128, Bytes)>) -> Option<(i128, Seq<u8>)> {
    match value {
        Some(v) => Some(stamped(v)),
        None => None,
    }
}

/// The values of a list of names with times.
pub open spec fn name_views(list: Seq<(String, i128)>) -> Seq<(Seq<char>, i128)> {
    Seq::new(list.len(), |i: int| (list[i].0@, list[i].1))
}

/// `LruCache::unbounded` gives an empty cache, for as many items as can be counted.
#[verifier::external_body]
pub(crate) fn mem_new() -> (r: LruCache<String, (i128, Bytes)>)
    ensures
        mem_items(r) == Seq::<(Seq<char>, (i128, Seq<u8>))>::empty(),
        mem_cap(r) == usize::MAX,
{
    LruCache::unbounded()
}

/// `LruCache::len` gives the number of items.
#[verifier::external_body]
pub(crate) fn mem_len(cache: &LruCache<String, (i128, Bytes)>) -> (r: usize)
    ensures
        r == mem_items(*cache).len(),
{
    cache.len()
}

/// `LruCache::contains` says whether an item has the name, and changes nothing.
#[verifier::external_body]
pub(crate) fn mem_contains(cache: &LruCache<String, (i128, Bytes)>, name: &str) -> (r: bool)
    ensures
        r == recency::names(mem_items(*cache), name@),
{
    cache.contains(name)
}

/// `LruCache::get` gives the value under the name, and makes that item the latest used.
#[verifier::external_body]
pub(crate) fn mem_get(cache: &mut LruCache<String, (i128, Bytes)>, name: &str) -> (r: Option<
    (i128, Bytes),
>)
    ensures
        stamped_if(r) == recency::value_of(mem_items(*old(cache)), name@),
        mem_items(*final(cache)) == recency::touched(mem_items(*old(cache)), name@),
        mem_cap(*final(cache)) == mem_cap(*old(cache)),
{
    cache.get(name).cloned()
}

/// `LruCache::peek` gives the value under the name, and changes nothing.
#[verifier::external_body]
pub(crate) fn mem_peek(cache: &LruCache<String, (i128, Bytes)>, name: &str) -> (r: Option<
    (i128, Bytes),
>)
    ensures
        stamped_if(r) == recency::value_of(mem_items(*cache), name@),
{
    cache.peek(name).cloned()
}

/// `LruCache::put`, where the name is there already or the cache is not full, puts a value under
/// a name as the latest used item, and gives the value that it takes the place of.
#[verifier::external_body]
pub(crate) fn mem_put(
    cache: &mut LruCache<String, (i128, Bytes)>,
    name: String,
    time: i128,
    data: Bytes,
) -> (r: Option<(i128, Bytes)>)
    requires
        recency::names(mem_items(*old(cache)), name@) || mem_items(*old(cache)).len() < mem_cap(
            *old(cache),
        ),
    ensures
        stamped_if(r) == recency::value_of(mem_items(*old(cache)), name@),
        mem_items(*final(cache)) == recency::with_latest(
            mem_items(*old(cache)),
            name@,
            (time, data@),
        ),
        mem_cap(*final(cache)) == mem_cap(*old(cache)),
{
    cache.put(name, (time, data))
}

/// `LruCache::pop` takes the item with the name out and gives its value.
#[verifier::external_body]
pub(crate) fn mem_pop(cache: &mut LruCache<String, (i128, Bytes)>, name: &str) -> (r: Option<
    (i128, Bytes),
>)
    ensures
        stamped_if(r) == recency::value_of(mem_items(*old(cache)), name@),
        mem_items(*final(cache)) == recency::without(mem_items(*old(cache)), name@),
        mem_cap(*final(cache)) == mem_cap(*old(cache)),
{
    cache.pop(name)
}

/// `LruCache::pop_lru` takes out the item that was used the longest ago, if there is any.
#[verifier::external_body]
pub(crate) fn mem_pop_lru(cache: &mut LruCache<String, (i128, Bytes)>) -> (r: Option<
    (String, (i128, Bytes)),
>)
    ensures
        match r {
            Some((name, value)) => {
                &&& mem_items(*old(cache)).len() > 0
                &&& (name@, stamped(value)) == mem_items(*old(cache)).last()
                &&& mem_items(*final(cache)) == mem_items(*old(cache)).drop_last()
            },
            None => {
                &&& mem_items(*old(cache)).len() == 0
                &&& mem_items(*final(cache)) == mem_items(*old(cache))
            },
        },
        mem_cap(*final(cache)) == mem_cap(*old(cache)),
{
    cache.pop_lru()
}

/// `LruCache::iter` goes through the items, the latest used first. Each is given by its name and
/// time.
#[verifier::external_body]
pub(crate) fn mem_list(cache: &LruCache<String, (i128, Bytes)>) -> (r: Vec<(String, i128)>)
    ensures
        name_views(r@) == mem_items(*cache).map_values(
            |item: (Seq<char>, (i128, Seq<u8>))| (item.0, item.1.0),
        ),
{
    cache.iter().map(|(name, (time, _))| (name.clone(), *time)).collect()
}

} // verus!
