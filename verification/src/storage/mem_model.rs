//! The states of a store in memory, and the steps between them.

use vstd::prelude::*;
use crate::storage::recency;
use crate::storage::shard;
use crate::storage::shard::SHARD_COUNT;

verus! {

/// What happened in a store, for those that watch it.
#[derive(Clone, Copy, Debug, PartialEq, Eq)]
pub enum Event {
    /// The store has come near its capacity.
    NearlyFull { bytes: usize },
    /// The store is no longer near its capacity; so many bundles, and bytes of them, were evicted
    /// while it was.
    NoLongerNearlyFull { bytes: usize, evicted_count: u64, evicted_bytes: u64 },
    /// A bundle of this many bytes was evicted.
    Evicted { bytes: usize },
    /// The number of bytes that the store holds.
    Usage { bytes: usize },
}

/// The bundles of one part of a store, the latest used first: names, each with a time and bytes.
pub type Shelf = Seq<(Seq<char>, (i128, Seq<u8>))>;

/// The state of a store in memory.
pub struct MemView {
    /// The bundles, by part.
    pub shelves: Seq<Shelf>,
    /// How many bytes the store is to hold at most.
    pub capacity: usize,
    /// How many bundles are kept, however large they are.
    pub floor: usize,
    /// The store has come near its capacity and has not gone well below since.
    pub near: bool,
    /// How many bundles were evicted while the store was near its capacity.
    pub evicted_count: u64,
    /// How many bytes were evicted while the store was near its capacity.
    pub evicted_bytes: u64,
    /// What happened, in order.
    pub events: Seq<Event>,
}

/// The bytes of a shelf.
pub open spec fn sizes(shelf: Shelf) -> int
    decreases shelf.len(),
{
    if shelf.len() == 0 {
        0
    } else {
        sizes(shelf.drop_last()) + shelf.last().1.1.len()
    }
}

/// The bytes of all shelves.
pub open spec fn total_size(shelves: Seq<Shelf>) -> int
    decreases shelves.len(),
{
    if shelves.len() == 0 {
        0
    } else {
        total_size(shelves.drop_last()) + sizes(shelves.last())
    }
}

/// The number of bundles on all shelves.
pub open spec fn total_count(shelves: Seq<Shelf>) -> int
    decreases shelves.len(),
{
    if shelves.len() == 0 {
        0
    } else {
        total_count(shelves.drop_last()) + shelves.last().len()
    }
}

/// The names on all shelves, with their times, in the order in which they stand.
pub open spec fn all_names(shelves: Seq<Shelf>) -> Seq<(Seq<char>, i128)>
    decreases shelves.len(),
{
    if shelves.len() == 0 {
        Seq::empty()
    } else {
        all_names(shelves.drop_last()) + shelves.last().map_values(
            |item: (Seq<char>, (i128, Seq<u8>))| (item.0, item.1.0),
        )
    }
}

/// Where a store counts as near its capacity: 95 percent of it.
pub open spec fn high_watermark(capacity: usize) -> int {
    capacity - capacity / 20
}

/// Below this a store no longer counts as near its capacity: 90 percent of it.
pub open spec fn low_watermark(capacity: usize) -> int {
    capacity - capacity / 10
}

impl MemView {
    /// The bytes that the store holds.
    pub open spec fn used(self) -> int {
        total_size(self.shelves)
    }

    /// The number of bundles that the store holds.
    pub open spec fn count(self) -> int {
        total_count(self.shelves)
    }

    /// The time and the bytes that are held under a name.
    pub open spec fn held(self, name: Seq<char>) -> Option<(i128, Seq<u8>)> {
        recency::value_of(self.shelves[shard::shard_of(name)], name)
    }

    /// Each bundle is on the shelf that its name belongs to, and no name occurs twice.
    pub open spec fn in_place(self) -> bool {
        &&& self.shelves.len() == SHARD_COUNT
        &&& forall|k: int| 0 <= k < SHARD_COUNT ==> recency::distinct(#[trigger] self.shelves[k])
        &&& forall|k: int, i: int|
            0 <= k < SHARD_COUNT && 0 <= i < self.shelves[k].len() ==> shard::shard_of(
                (#[trigger] self.shelves[k][i]).0,
            ) == k
    }

    /// The store counts as near its capacity once it has reached 95 percent of it, until it is
    /// below 90 percent. Evictions are tallied only while it does.
    pub open spec fn settled(self) -> bool {
        &&& self.near ==> self.used() >= low_watermark(self.capacity)
        &&& !self.near ==> self.used() < high_watermark(self.capacity)
        &&& !self.near ==> self.evicted_count == 0 && self.evicted_bytes == 0
    }

    /// What holds of a store between any two requests.
    pub open spec fn wf(self) -> bool {
        &&& self.in_place()
        &&& self.settled()
        &&& self.capacity > 0
        &&& self.floor > 0
        &&& self.used() <= usize::MAX
        &&& self.count() <= usize::MAX
    }

    /// Whether one more bundle, of this many bytes, can be counted.
    pub open spec fn has_room(self, len: int) -> bool {
        self.used() + len <= usize::MAX && self.count() < usize::MAX
    }

    /// Whether a bundle of this many bytes can be counted under a name, in the place of the one
    /// that is there, if any.
    pub open spec fn fits(self, name: Seq<char>, len: int) -> bool {
        match self.held(name) {
            Some((_, old)) => self.used() - old.len() + len <= usize::MAX,
            None => self.has_room(len),
        }
    }

    /// More is held than there is to be, and there are bundles that need not be kept.
    pub open spec fn over(self) -> bool {
        self.used() > self.capacity && self.count() > self.floor
    }

    /// The bundle of a shelf that was used the longest ago is evicted.
    pub open spec fn evict_oldest(self, k: int) -> MemView {
        let len = self.shelves[k].last().1.1.len();
        MemView {
            shelves: self.shelves.update(k, self.shelves[k].drop_last()),
            evicted_count: self.evicted_count.wrapping_add(1),
            evicted_bytes: self.evicted_bytes.wrapping_add(len as u64),
            events: self.events.push(Event::Evicted { bytes: len as usize }),
            ..self
        }
    }

    /// Bundles of a shelf are evicted while there is too much, but for the `keep` latest used.
    pub open spec fn trimmed(self, k: int, keep: int) -> MemView
        decreases self.shelves[k].len(),
        when 0 <= k < self.shelves.len() && 0 <= keep
    {
        if self.shelves[k].len() > keep && self.over() {
            self.evict_oldest(k).trimmed(k, keep)
        } else {
            self
        }
    }

    /// The shelves after a given one, from the one at an offset on, are trimmed in turn.
    pub open spec fn trimmed_after(self, k: int, offset: int) -> MemView
        decreases SHARD_COUNT - offset,
    {
        if offset >= SHARD_COUNT {
            self
        } else {
            self.trimmed((k + offset) % SHARD_COUNT as int, 0).trimmed_after(k, offset + 1)
        }
    }

    /// Bundles are evicted while there is too much: first from the given shelf, all but the one
    /// used last, and then from the shelves after it.
    #[verifier::opaque]
    pub open spec fn evicted_from(self, k: int) -> MemView {
        self.trimmed(k, 1).trimmed_after(k, 1)
    }

    /// The store comes near its capacity, or is no longer near it.
    pub open spec fn watermark_checked(self) -> MemView {
        if !self.near && self.used() >= high_watermark(self.capacity) {
            MemView {
                near: true,
                events: self.events.push(Event::NearlyFull { bytes: self.used() as usize }),
                ..self
            }
        } else if self.near && self.used() < low_watermark(self.capacity) {
            MemView {
                near: false,
                evicted_count: 0,
                evicted_bytes: 0,
                events: self.events.push(
                    Event::NoLongerNearlyFull {
                        bytes: self.used() as usize,
                        evicted_count: self.evicted_count,
                        evicted_bytes: self.evicted_bytes,
                    },
                ),
                ..self
            }
        } else {
            self
        }
    }

    /// The number of bytes held is told.
    pub open spec fn reported(self) -> MemView {
        MemView {
            events: self.events.push(Event::Usage { bytes: self.used() as usize }),
            ..self
        }
    }

    /// A bundle is put under a name, whatever that does to the space.
    pub open spec fn shelved(self, name: Seq<char>, time: i128, data: Seq<u8>) -> MemView {
        let k = shard::shard_of(name);
        MemView {
            shelves: self.shelves.update(
                k,
                recency::with_latest(self.shelves[k], name, (time, data)),
            ),
            ..self
        }
    }

    /// A bundle is put under a name, and others make room.
    pub open spec fn stored(self, name: Seq<char>, time: i128, data: Seq<u8>) -> MemView {
        self.shelved(name, time, data).watermark_checked().evicted_from(
            shard::shard_of(name),
        ).watermark_checked().reported()
    }

    /// The bundle under a name is taken out, if there is one.
    pub open spec fn unshelved(self, name: Seq<char>) -> MemView {
        let k = shard::shard_of(name);
        MemView {
            shelves: self.shelves.update(k, recency::without(self.shelves[k], name)),
            ..self
        }
    }

    /// The bundle under a name is deleted; without one, nothing happens.
    pub open spec fn deleted(self, name: Seq<char>) -> MemView {
        if self.held(name) is Some {
            self.unshelved(name).watermark_checked().reported()
        } else {
            self
        }
    }

    /// The bundle under a name becomes the latest used of its shelf, if there is one.
    pub open spec fn used_again(self, name: Seq<char>) -> MemView {
        let k = shard::shard_of(name);
        MemView {
            shelves: self.shelves.update(k, recency::touched(self.shelves[k], name)),
            ..self
        }
    }

    /// A store with nothing in it.
    pub open spec fn empty(capacity: usize, min_bundles: usize) -> MemView {
        MemView {
            shelves: Seq::new(SHARD_COUNT as nat, |k: int| Seq::empty()),
            capacity,
            floor: if min_bundles == 0 {
                1
            } else {
                min_bundles
            },
            near: false,
            evicted_count: 0,
            evicted_bytes: 0,
            events: Seq::empty(),
        }
    }
}

/// A shelf holds no fewer than no bytes.
pub proof fn lemma_sizes_nonneg(shelf: Shelf)
    ensures
        sizes(shelf) >= 0,
    decreases shelf.len(),
{
    if shelf.len() > 0 {
        lemma_sizes_nonneg(shelf.drop_last());
    }
}

/// The bytes of a shelf without one bundle.
pub proof fn lemma_sizes_remove(shelf: Shelf, i: int)
    requires
        0 <= i < shelf.len(),
    ensures
        sizes(shelf.remove(i)) == sizes(shelf) - shelf[i].1.1.len(),
    decreases shelf.len(),
{
    if i == shelf.len() - 1 {
        assert(shelf.remove(i) =~= shelf.drop_last());
    } else {
        lemma_sizes_remove(shelf.drop_last(), i);
        assert(shelf.remove(i).drop_last() =~= shelf.drop_last().remove(i));
        assert(shelf.remove(i).last() == shelf.last());
    }
}

/// The bytes of a shelf with one more bundle.
pub proof fn lemma_sizes_front(item: (Seq<char>, (i128, Seq<u8>)), shelf: Shelf)
    ensures
        sizes(seq![item] + shelf) == item.1.1.len() + sizes(shelf),
    decreases shelf.len(),
{
    let all = seq![item] + shelf;
    if shelf.len() == 0 {
        assert(all.drop_last() =~= shelf);
        assert(all.last() == item);
    } else {
        lemma_sizes_front(item, shelf.drop_last());
        assert(all.drop_last() =~= seq![item] + shelf.drop_last());
        assert(all.last() == shelf.last());
    }
}

/// The totals when one shelf changes.
pub proof fn lemma_totals_update(shelves: Seq<Shelf>, k: int, shelf: Shelf)
    requires
        0 <= k < shelves.len(),
    ensures
        total_size(shelves.update(k, shelf)) == total_size(shelves) - sizes(shelves[k]) + sizes(shelf),
        total_count(shelves.update(k, shelf)) == total_count(shelves) - shelves[k].len() + shelf.len(),
    decreases shelves.len(),
{
    let after = shelves.update(k, shelf);
    if k == shelves.len() - 1 {
        assert(after.drop_last() =~= shelves.drop_last());
    } else {
        lemma_totals_update(shelves.drop_last(), k, shelf);
        assert(after.drop_last() =~= shelves.drop_last().update(k, shelf));
    }
}

/// The totals cover each shelf.
pub proof fn lemma_totals_cover(shelves: Seq<Shelf>, k: int)
    requires
        0 <= k < shelves.len(),
    ensures
        0 <= sizes(shelves[k]) <= total_size(shelves),
        shelves[k].len() <= total_count(shelves),
    decreases shelves.len(),
{
    lemma_sizes_nonneg(shelves.last());
    lemma_sizes_nonneg(shelves[k]);
    if k < shelves.len() - 1 {
        lemma_totals_cover(shelves.drop_last(), k);
    } else {
        lemma_totals_nonneg(shelves.drop_last());
    }
}

/// Shelves hold no fewer than no bytes and no bundles.
pub proof fn lemma_totals_nonneg(shelves: Seq<Shelf>)
    ensures
        total_size(shelves) >= 0,
        total_count(shelves) >= 0,
    decreases shelves.len(),
{
    if shelves.len() > 0 {
        lemma_totals_nonneg(shelves.drop_last());
        lemma_sizes_nonneg(shelves.last());
    }
}

/// Empty shelves hold nothing.
pub proof fn lemma_empty_totals(shelves: Seq<Shelf>)
    requires
        forall|k: int| 0 <= k < shelves.len() ==> (#[trigger] shelves[k]).len() == 0,
    ensures
        total_size(shelves) == 0,
        total_count(shelves) == 0,
    decreases shelves.len(),
{
    if shelves.len() > 0 {
        lemma_empty_totals(shelves.drop_last());
        assert(shelves.last().len() == 0);
    }
}

} // verus!
