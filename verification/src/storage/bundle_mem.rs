//! A store of bundles in memory, bounded by their size.

use lru::LruCache;
use rand::distr::{Alphanumeric, SampleString};
use rand::rngs::{SmallRng, SysRng};
use rand::SeedableRng;
use time::OffsetDateTime;
use vstd::prelude::*;
use crate::storage;
use crate::storage::mem_cache;
use crate::storage::mem_cache::{mem_contains, mem_get, mem_len, mem_list, mem_new, mem_peek, mem_pop, mem_pop_lru, mem_put};
use crate::storage::mem_laws;
use crate::storage::mem_model;
use crate::storage::mem_model::{Event, MemView, Shelf};
use crate::storage::naming;
use crate::storage::naming::{numbered_name, NAME_LENGTH};
use crate::storage::recency;
use crate::storage::shard::{shard_index, SHARD_COUNT};
use crate::storage::Bytes;

verus! {

/// Configuration for [`BundleMemStorage`].
#[derive(Debug)]
pub struct Config {
    /// Maximum total bytes of bundle data held before least-recently-used
    /// bundles are evicted; more than none. Default: 256 MiB.
    pub capacity: usize,

    /// Minimum number of bundles retained regardless of the byte capacity.
    /// Values below 1 are treated as 1, so a save can never evict the bundle
    /// it has just stored. Default: `32`.
    pub min_bundles: usize,
}

impl Default for Config {
    fn default() -> (r: Self)
        ensures
            r.capacity == 256 * 1_048_576,
            r.min_bundles == 32,
    {
        Config { capacity: 268_435_456, min_bundles: 32 }
    }
}

/// `rand::rngs::SmallRng`: nothing is known of what it draws.
#[verifier::external_type_specification]
#[verifier::external_body]
pub struct ExSmallRng(rand::rngs::SmallRng);

/// `SmallRng::try_from_rng` makes a generator from bytes of the system's generator, `SysRng`. Where
/// the system gives none there is no generator; nothing more is said of when that is.
#[verifier::external_body]
fn seed_rng() -> (r: Option<SmallRng>) {
    SmallRng::try_from_rng(&mut SysRng).ok()
}

/// `Alphanumeric.sample_string` draws a string of the given length, made of digits and of letters
/// of the English alphabet. Which ones is left to chance.
#[verifier::external_body]
fn draw_name(rng: &mut SmallRng, len: usize) -> (r: String)
    ensures
        r@.len() == len,
        forall|i: int| 0 <= i < r@.len() ==> naming::is_alphanumeric(#[trigger] r@[i]),
{
    Alphanumeric.sample_string(rng, len)
}

/// `OffsetDateTime::now_utc` gives the time, and `unix_timestamp_nanos` the nanoseconds from the
/// Unix epoch to it. Nothing is said of what the time is.
#[verifier::external_body]
fn now() -> (r: i128) {
    OffsetDateTime::now_utc().unix_timestamp_nanos()
}

/// A time that the clock gave when it was read.
pub closed spec fn clock_read(time: i128) -> bool {
    call_ensures(now, (), time)
}

/// A time that the clock gave when it was read for a bundle of this name.
pub closed spec fn clock_read_for(name: Seq<char>, time: i128) -> bool {
    exists|key: String| key@ == name && #[trigger] call_ensures(stamp, (key,), time)
}

/// Reads a clock.
fn read<C: Fn() -> i128>(clock: C) -> (r: i128)
    requires
        call_requires(clock, ()),
    ensures
        call_ensures(clock, (), r),
{
    clock()
}

/// Reads a clock for a bundle.
fn read_for<C: Fn(String) -> i128>(clock: C, name: String) -> (r: i128)
    requires
        call_requires(clock, (name,)),
    ensures
        call_ensures(clock, (name,), r),
{
    clock(name)
}

/// The time, for a bundle of this name.
fn stamp(_name: String) -> (r: i128)
    ensures
        call_ensures(now, (), r),
{
    read(now)
}

/// What was read from the clock for a bundle was read from the clock.
pub proof fn law_clock_read_for_is_read(name: Seq<char>, time: i128)
    requires
        clock_read_for(name, time),
    ensures
        clock_read(time),
{
}

/// The time that is kept with a bundle is one that the system's clock gave when it was read, and
/// read for a bundle of that name.
proof fn law_time_kept_was_given_by_the_clock(name: Seq<char>, time: i128)
    requires
        clock_read_for(name, time),
    ensures
        call_ensures(now, (), time),
        exists|key: String| key@ == name && #[trigger] call_ensures(stamp, (key,), time),
{
}

/// One part of a store.
struct Shard {
    cache: LruCache<String, (i128, Bytes)>,
    rng: SmallRng,
}

/// An in-memory store bounded by total byte capacity.
///
/// It has [`SHARD_COUNT`] parts; a bundle's name says which one it is in. Contents are not
/// persisted. When usage exceeds the configured capacity, bundles are evicted, from each part
/// those used the longest ago. One event is recorded when usage crosses 95% of capacity, and
/// another when it falls back below 90%.
pub struct BundleMemStorage {
    shards: Vec<Shard>,
    global_bytes: usize,
    bundle_count: usize,
    max_capacity: usize,
    floor: usize,
    high_watermark: usize,
    low_watermark: usize,
    near_capacity: bool,
    evicted_count: u64,
    evicted_bytes: u64,
    events: Vec<Event>,
}

/// The bundles of each part.
spec fn shelf_views(shards: Seq<Shard>) -> Seq<Shelf> {
    Seq::new(shards.len(), |k: int| mem_cache::mem_items(shards[k].cache))
}

impl View for BundleMemStorage {
    type V = MemView;

    closed spec fn view(&self) -> MemView {
        MemView {
            shelves: shelf_views(self.shards@),
            capacity: self.max_capacity,
            floor: self.floor,
            near: self.near_capacity,
            evicted_count: self.evicted_count,
            evicted_bytes: self.evicted_bytes,
            events: self.events@,
        }
    }
}

impl BundleMemStorage {
    /// What the store counts is what it holds, and its parts hold as much as can be counted.
    pub closed spec fn consistent(self) -> bool {
        &&& self.shards.len() == SHARD_COUNT
        &&& forall|k: int|
            0 <= k < SHARD_COUNT ==> mem_cache::mem_cap((#[trigger] self.shards@[k]).cache)
                == usize::MAX
        &&& self.global_bytes == self@.used()
        &&& self.bundle_count == self@.count()
        &&& self.high_watermark == mem_model::high_watermark(self.max_capacity)
        &&& self.low_watermark == mem_model::low_watermark(self.max_capacity)
    }

    /// What holds between any two requests.
    pub open spec fn wf(self) -> bool {
        self.consistent() && self@.wf()
    }

    /// An empty store with the given generators, one for each part.
    pub fn with_rngs(config: &Config, rngs: Vec<SmallRng>) -> (r: Self)
        requires
            config.capacity > 0,
            rngs.len() == SHARD_COUNT,
        ensures
            r.wf(),
            r@ == MemView::empty(config.capacity, config.min_bundles),
    {
        let mut shards: Vec<Shard> = Vec::new();
        for rng in it: rngs
            invariant
                shards.len() == it.index(),
                forall|k: int|
                    0 <= k < shards.len() ==> mem_cache::mem_items(
                        (#[trigger] shards@[k]).cache,
                    ) == Seq::<(Seq<char>, (i128, Seq<u8>))>::empty(),
                forall|k: int|
                    0 <= k < shards.len() ==> mem_cache::mem_cap((#[trigger] shards@[k]).cache)
                        == usize::MAX,
        {
            shards.push(Shard { cache: mem_new(), rng });
        }
        let max: usize = config.capacity;
        let floor: usize = if config.min_bundles == 0 {
            1
        } else {
            config.min_bundles
        };
        let r = BundleMemStorage {
            shards,
            global_bytes: 0,
            bundle_count: 0,
            max_capacity: max,
            floor,
            high_watermark: max - max / 20,
            low_watermark: max - max / 10,
            near_capacity: false,
            evicted_count: 0,
            evicted_bytes: 0,
            events: Vec::new(),
        };
        proof {
            assert(r@.shelves =~= MemView::empty(max, config.min_bundles).shelves);
            assert(r@.events =~= Seq::empty());
            mem_model::lemma_empty_totals(r@.shelves);
        }
        r
    }
}

impl BundleMemStorage {
    /// Counts one eviction.
    fn record_eviction(&mut self, len: usize)
        requires
            old(self).global_bytes >= len,
            old(self).bundle_count > 0,
        ensures
            *final(self) == (BundleMemStorage {
                global_bytes: (old(self).global_bytes - len) as usize,
                bundle_count: (old(self).bundle_count - 1) as usize,
                evicted_count: old(self).evicted_count.wrapping_add(1),
                evicted_bytes: old(self).evicted_bytes.wrapping_add(len as u64),
                events: final(self).events,
                ..*old(self)
            }),
            final(self).events@ == old(self).events@.push(Event::Evicted { bytes: len }),
    {
        self.global_bytes = self.global_bytes - len;
        self.bundle_count = self.bundle_count - 1;
        self.evicted_count = self.evicted_count.wrapping_add(1);
        self.evicted_bytes = self.evicted_bytes.wrapping_add(len as u64);
        self.events.push(Event::Evicted { bytes: len });
    }

    /// Evicts bundles of one part while there is too much, but for the `keep` latest used.
    fn trim(&mut self, idx: usize, keep: usize)
        requires
            old(self).consistent(),
            old(self)@.in_place(),
            idx < SHARD_COUNT,
        ensures
            final(self).consistent(),
            final(self)@ == old(self)@.trimmed(idx as int, keep as int),
    {
        let ghost goal = self@.trimmed(idx as int, keep as int);
        while mem_len(&self.shards[idx].cache) > keep && self.global_bytes > self.max_capacity
            && self.bundle_count > self.floor
            invariant
                idx < SHARD_COUNT,
                self.consistent(),
                self@.shelves.len() == SHARD_COUNT,
                self@.trimmed(idx as int, keep as int) == goal,
            decreases self@.shelves[idx as int].len(),
        {
            let ghost before = *self;
            let ghost k = idx as int;
            let ghost shelf = self@.shelves[k];
            proof {
                mem_laws::lemma_evict_oldest(self@, k);
                mem_model::lemma_totals_cover(self@.shelves, k);
                mem_model::lemma_sizes_nonneg(shelf.drop_last());
            }
            if let Some((_, (_, data))) = mem_pop_lru(&mut self.shards[idx].cache) {
                self.record_eviction(data.len());
                assert(self@.shelves =~= before@.shelves.update(k, shelf.drop_last()));
                assert(self@ == before@.evict_oldest(k));
            }
        }
    }

    /// Evicts bundles while there is too much: first from the given part, but for the one used
    /// last, which was just put there, and then from the parts after it in turn.
    fn evict_from(&mut self, start_idx: usize)
        requires
            old(self).consistent(),
            old(self)@.in_place(),
            start_idx < SHARD_COUNT,
            old(self)@.shelves[start_idx as int].len() > 0,
        ensures
            final(self).consistent(),
            final(self)@ == old(self)@.evicted_from(start_idx as int),
    {
        let ghost k = start_idx as int;
        let ghost goal = self@.evicted_from(k);
        proof {
            reveal(MemView::evicted_from);
            mem_model::lemma_totals_nonneg(self@.shelves);
            mem_laws::lemma_trimmed(self@, k, 1);
            mem_laws::lemma_oldest_gone_in_place(self@, self@.trimmed(k, 1));
        }
        self.trim(start_idx, 1);
        let mut offset: usize = 1;
        while offset < SHARD_COUNT
            invariant
                start_idx < SHARD_COUNT,
                k == start_idx,
                1 <= offset <= SHARD_COUNT,
                self.consistent(),
                self@.in_place(),
                self@.trimmed_after(k, offset as int) == goal,
            decreases SHARD_COUNT - offset,
        {
            let idx: usize = (start_idx + offset) % SHARD_COUNT;
            proof {
                mem_laws::lemma_trimmed(self@, idx as int, 0);
                mem_laws::lemma_oldest_gone_in_place(self@, self@.trimmed(idx as int, 0));
            }
            self.trim(idx, 0);
            offset += 1;
        }
    }

    /// Records that the store has come near its capacity, or is no longer near it.
    pub fn check_and_log_watermark(&mut self)
        requires
            old(self).consistent(),
        ensures
            final(self).consistent(),
            final(self)@ == old(self)@.watermark_checked(),
            old(self).wf() ==> final(self).wf(),
    {
        let bytes: usize = self.global_bytes;
        if !self.near_capacity && bytes >= self.high_watermark {
            self.near_capacity = true;
            self.events.push(Event::NearlyFull { bytes });
        } else if self.near_capacity && bytes < self.low_watermark {
            self.near_capacity = false;
            self.events.push(
                Event::NoLongerNearlyFull {
                    bytes,
                    evicted_count: self.evicted_count,
                    evicted_bytes: self.evicted_bytes,
                },
            );
            self.evicted_count = 0;
            self.evicted_bytes = 0;
        }
    }

    /// Records how many bytes are held.
    fn update_metrics(&mut self)
        requires
            old(self).consistent(),
        ensures
            final(self).consistent(),
            final(self)@ == old(self)@.reported(),
    {
        self.events.push(Event::Usage { bytes: self.global_bytes });
    }
}

/// The bytes of what may be held under a name.
pub open spec fn bytes_of(held: Option<(i128, Seq<u8>)>) -> Option<Seq<u8>> {
    match held {
        Some((_, bytes)) => Some(bytes),
        None => None,
    }
}

impl BundleMemStorage {
    /// Creates a store holding at most [`Config::capacity`] bytes. Where the system gives no
    /// random bytes to begin with, there is none.
    pub fn new(config: &Config) -> (r: Option<Self>)
        requires
            config.capacity > 0,
        ensures
            match r {
                Some(store) => {
                    &&& store.wf()
                    &&& store@ == MemView::empty(config.capacity, config.min_bundles)
                },
                None => true,
            },
    {
        let mut rngs: Vec<SmallRng> = Vec::new();
        while rngs.len() < SHARD_COUNT
            invariant
                rngs.len() <= SHARD_COUNT,
            decreases SHARD_COUNT - rngs.len(),
        {
            match seed_rng() {
                Some(rng) => {
                    rngs.push(rng);
                },
                None => {
                    return None;
                },
            }
        }
        Some(BundleMemStorage::with_rngs(config, rngs))
    }

    /// Whether one more bundle, of this many bytes, can be counted.
    pub fn has_room(&self, len: usize) -> (r: bool)
        requires
            self.wf(),
        ensures
            r == self@.has_room(len as int),
    {
        self.global_bytes <= usize::MAX - len && self.bundle_count < usize::MAX
    }

    /// Whether a bundle of this many bytes can be counted under a name, in the place of the one
    /// that is there, if any.
    pub fn fits(&self, storage_name: &str, len: usize) -> (r: bool)
        requires
            self.wf(),
        ensures
            r == self@.fits(storage_name@, len as int),
    {
        let idx: usize = shard_index(storage_name);
        match mem_peek(&self.shards[idx].cache, storage_name) {
            Some((_, data)) => {
                proof {
                    let shelf = self@.shelves[idx as int];
                    let at = recency::index_of(shelf, storage_name@);
                    recency::lemma_index_of(shelf, storage_name@);
                    mem_model::lemma_totals_cover(self@.shelves, idx as int);
                    mem_model::lemma_sizes_remove(shelf, at);
                    mem_model::lemma_sizes_nonneg(shelf.remove(at));
                }
                self.global_bytes - data.len() <= usize::MAX - len
            },
            None => self.has_room(len),
        }
    }

    /// The bytes held.
    pub fn bytes(&self) -> (r: usize)
        requires
            self.wf(),
        ensures
            r == self@.used(),
    {
        self.global_bytes
    }

    /// The number of bundles held.
    pub fn count(&self) -> (r: usize)
        requires
            self.wf(),
        ensures
            r == self@.count(),
    {
        self.bundle_count
    }

    /// The greatest number of bytes to be held.
    pub fn max_capacity(&self) -> (r: usize)
        ensures
            r == self@.capacity,
    {
        self.max_capacity
    }

    /// Whether the store has come near its capacity and has not gone well below since.
    pub fn near_capacity(&self) -> (r: bool)
        ensures
            r == self@.near,
    {
        self.near_capacity
    }

    /// How many bundles were evicted since the store came near its capacity.
    pub fn evicted_count(&self) -> (r: u64)
        ensures
            r == self@.evicted_count,
    {
        self.evicted_count
    }

    /// Hands over what happened since this was last asked. Until then it is kept.
    pub fn take_events(&mut self) -> (r: Vec<Event>)
        requires
            old(self).wf(),
        ensures
            r@ == old(self)@.events,
            final(self)@ == (MemView { events: Seq::empty(), ..old(self)@ }),
            final(self).wf(),
    {
        let mut events: Vec<Event> = Vec::new();
        std::mem::swap(&mut events, &mut self.events);
        assert(self@.events =~= Seq::empty());
        events
    }

    /// The names of all bundles, each with the time it was stored, part by part, the latest used
    /// of each part first.
    pub fn recover(&self) -> (r: Vec<(String, i128)>)
        requires
            self.wf(),
        ensures
            mem_cache::name_views(r@) == mem_model::all_names(self@.shelves),
    {
        let ghost shelves = self@.shelves;
        let mut snapshot: Vec<(String, i128)> = Vec::new();
        let mut k: usize = 0;
        assert(shelves.take(0) =~= Seq::empty());
        assert(mem_cache::name_views(snapshot@) =~= Seq::empty());
        while k < self.shards.len()
            invariant
                k <= self.shards.len(),
                shelves == shelf_views(self.shards@),
                mem_cache::name_views(snapshot@) == mem_model::all_names(shelves.take(k as int)),
            decreases self.shards.len() - k,
        {
            let ghost before = mem_cache::name_views(snapshot@);
            let mut names = mem_list(&self.shards[k].cache);
            let ghost more = mem_cache::name_views(names@);
            snapshot.append(&mut names);
            assert(mem_cache::name_views(snapshot@) =~= before + more);
            assert(shelves.take(k + 1).drop_last() =~= shelves.take(k as int));
            k += 1;
        }
        assert(shelves.take(shelves.len() as int) =~= shelves);
        snapshot
    }

    /// The bundle under a name.
    pub fn load(&mut self, storage_name: &str) -> (r: Option<Bytes>)
        requires
            old(self).wf(),
        ensures
            storage::value_if(r) == bytes_of(old(self)@.held(storage_name@)),
            final(self)@ == old(self)@.used_again(storage_name@),
            final(self).wf(),
    {
        let ghost before = self@;
        let idx: usize = shard_index(storage_name);
        proof {
            mem_laws::lemma_used_again(before, storage_name@);
        }
        let found = mem_get(&mut self.shards[idx].cache, storage_name);
        assert(self@.shelves =~= before.used_again(storage_name@).shelves);
        match found {
            Some((_, data)) => Some(data),
            None => None,
        }
    }

    /// Puts a bundle under a name, at a time, and makes room for it.
    fn store(&mut self, name: String, time: i128, data: Bytes)
        requires
            old(self).wf(),
            old(self)@.fits(name@, data@.len() as int),
        ensures
            final(self)@ == old(self)@.stored(name@, time, data@),
            final(self).wf(),
    {
        let ghost before = self@;
        let ghost key = name@;
        let ghost value = data@;
        let idx: usize = shard_index(name.as_str());
        proof {
            mem_laws::lemma_stored(before, key, time, value);
            mem_laws::lemma_shelved(before, key, time, value);
            mem_model::lemma_totals_cover(before.shelves, idx as int);
            recency::lemma_index_of(before.shelves[idx as int], key);
            if before.held(key) is Some {
                let at = recency::index_of(before.shelves[idx as int], key);
                mem_model::lemma_sizes_remove(before.shelves[idx as int], at);
                mem_model::lemma_sizes_nonneg(before.shelves[idx as int].remove(at));
            }
        }
        let new_len: usize = data.len();
        let old = mem_put(&mut self.shards[idx].cache, name, time, data);
        assert(self@.shelves =~= before.shelved(key, time, value).shelves);
        match old {
            Some((_, old_data)) => {
                self.global_bytes = self.global_bytes - old_data.len() + new_len;
            },
            None => {
                self.global_bytes = self.global_bytes + new_len;
                self.bundle_count = self.bundle_count + 1;
            },
        }
        assert(self@ == before.shelved(key, time, value));
        self.check_and_log_watermark();
        self.evict_from(idx);
        self.check_and_log_watermark();
        self.update_metrics();
    }

    /// Saves a bundle under a given name and at a given time, unless the name is taken; says
    /// whether it was saved.
    pub fn save_as(&mut self, name: String, time: i128, data: Bytes) -> (r: bool)
        requires
            old(self).wf(),
            old(self)@.held(name@) is None ==> old(self)@.has_room(data@.len() as int),
        ensures
            r == (old(self)@.held(name@) is None),
            final(self)@ == (if r {
                old(self)@.stored(name@, time, data@)
            } else {
                old(self)@
            }),
            final(self).wf(),
    {
        let idx: usize = shard_index(name.as_str());
        if mem_contains(&self.shards[idx].cache, name.as_str()) {
            return false;
        }
        self.store(name, time, data);
        true
    }

    /// A name that no bundle has: the first of those that are made of a number.
    pub fn free_name(&self) -> (r: String)
        requires
            self.wf(),
            self@.count() < usize::MAX,
        ensures
            naming::looks_drawn(r@),
            self@.held(r@) is None,
            exists|n: nat|
                r@ == #[trigger] naming::numbered(n) && forall|m: nat|
                    m < n ==> self@.held(#[trigger] naming::numbered(m)) is Some,
    {
        let mut n: usize = 0;
        while n < self.bundle_count
            invariant
                self.wf(),
                self@.count() < usize::MAX,
                n <= self.bundle_count,
                forall|m: nat| m < n ==> self@.held(#[trigger] naming::numbered(m)) is Some,
            decreases self.bundle_count - n,
        {
            let name = numbered_name(n);
            let idx: usize = shard_index(name.as_str());
            proof {
                naming::law_numbered_names(n as nat, n as nat);
            }
            if !mem_contains(&self.shards[idx].cache, name.as_str()) {
                return name;
            }
            n += 1;
        }
        proof {
            naming::law_numbered_names(n as nat, n as nat);
            mem_laws::lemma_numbered_name_free(self@);
        }
        numbered_name(n)
    }

    /// Saves a bundle under a name of its own, which is drawn at random, and gives that name.
    ///
    /// Names are drawn until one is free. There are so many that the first one is, unless most
    /// are taken; should draws beyond number all find names that are taken, a free one is looked
    /// for.
    pub fn save(&mut self, data: Bytes) -> (r: String)
        requires
            old(self).wf(),
            old(self)@.has_room(data@.len() as int),
        ensures
            naming::looks_drawn(r@),
            old(self)@.held(r@) is None,
            final(self)@.held(r@) matches Some((time, bytes)) && clock_read_for(r@, time) && bytes
                == data@,
            exists|time: i128|
                clock_read_for(r@, time) && final(self)@ == #[trigger] old(self)@.stored(
                    r@,
                    time,
                    data@,
                ),
            final(self).wf(),
    {
        let ghost before = self@;
        let mut attempts: u64 = u64::MAX;
        while attempts > 0
            invariant
                self@ == before,
                before == old(self)@,
                self.wf(),
                before.has_room(data@.len() as int),
            decreases attempts,
        {
            let name = draw_name(&mut self.shards[0].rng, NAME_LENGTH);
            assert(self@.shelves =~= before.shelves);
            let time = read_for(stamp, name.clone());
            if self.save_as(name.clone(), time, data.clone()) {
                proof {
                    mem_laws::law_stored_is_held(before, name@, time, data@);
                }
                return name;
            }
            attempts -= 1;
        }
        let name = self.free_name();
        let time = read_for(stamp, name.clone());
        proof {
            mem_laws::law_stored_is_held(before, name@, time, data@);
        }
        let _ = self.save_as(name.clone(), time, data);
        name
    }

    /// Puts other bytes under a name, at a given time, and makes room for them.
    pub fn replace_at(&mut self, storage_name: &str, time: i128, data: Bytes)
        requires
            old(self).wf(),
            old(self)@.fits(storage_name@, data@.len() as int),
        ensures
            final(self)@ == old(self)@.stored(storage_name@, time, data@),
            final(self).wf(),
    {
        self.store(storage_name.to_owned(), time, data);
    }

    /// Puts other bytes under a name, and makes room for them.
    pub fn replace(&mut self, storage_name: &str, data: Bytes)
        requires
            old(self).wf(),
            old(self)@.fits(storage_name@, data@.len() as int),
        ensures
            final(self)@.held(storage_name@) matches Some((time, bytes)) && clock_read_for(
                storage_name@,
                time,
            ) && bytes == data@,
            exists|time: i128|
                clock_read_for(storage_name@, time) && final(self)@ == #[trigger] old(
                    self,
                )@.stored(
                    storage_name@,
                    time,
                    data@,
                ),
            final(self).wf(),
    {
        let time = read_for(stamp, storage_name.to_owned());
        proof {
            mem_laws::law_stored_is_held(self@, storage_name@, time, data@);
        }
        self.replace_at(storage_name, time, data);
    }

    /// Deletes the bundle under a name, if there is one.
    pub fn delete(&mut self, storage_name: &str)
        requires
            old(self).wf(),
        ensures
            final(self)@ == old(self)@.deleted(storage_name@),
            final(self).wf(),
    {
        let ghost before = self@;
        let idx: usize = shard_index(storage_name);
        proof {
            mem_laws::lemma_deleted(before, storage_name@);
            mem_laws::lemma_unshelved(before, storage_name@);
            mem_model::lemma_totals_nonneg(before.unshelved(storage_name@).shelves);
        }
        let found = mem_pop(&mut self.shards[idx].cache, storage_name);
        assert(self@.shelves =~= before.unshelved(storage_name@).shelves);
        match found {
            Some((_, data)) => {
                self.global_bytes = self.global_bytes - data.len();
                self.bundle_count = self.bundle_count - 1;
                assert(self@ == before.unshelved(storage_name@));
                self.check_and_log_watermark();
                self.update_metrics();
            },
            None => {
                assert(self@.shelves =~= before.shelves);
            },
        }
    }
}

} // verus!
