//! What requests do to a store in memory, bundle by bundle.

use vstd::prelude::*;
use crate::storage::bundle_mem;
use crate::storage::mem_laws;
use crate::storage::mem_model;
use crate::storage::mem_model::{Event, MemView};
use crate::storage::recency;
use crate::storage::shard;
use crate::storage::shard::SHARD_COUNT;

verus! {

/// The bytes that eviction notices tell of.
pub open spec fn bytes_told(events: Seq<Event>) -> int
    decreases events.len(),
{
    if events.len() == 0 {
        0
    } else {
        bytes_told(events.drop_last()) + match events.last() {
            Event::Evicted { bytes } => bytes as int,
            _ => 0,
        }
    }
}

/// All of these notices tell of evictions.
pub open spec fn all_evictions(events: Seq<Event>) -> bool {
    forall|i: int| 0 <= i < events.len() ==> (#[trigger] events[i]) is Evicted
}

/// Between two states bundles were evicted, one for each of these notices, with the bytes that
/// they tell of. The tallies count them, from zero again past the greatest number there is.
pub open spec fn accounted(v: MemView, r: MemView, evictions: Seq<Event>) -> bool {
    &&& all_evictions(evictions)
    &&& r.events == v.events + evictions
    &&& evictions.len() == v.count() - r.count()
    &&& bytes_told(evictions) == v.used() - r.used()
    &&& r.evicted_count == (v.evicted_count + evictions.len()) % 0x1_0000_0000_0000_0000
    &&& r.evicted_bytes == (v.evicted_bytes + bytes_told(evictions)) % 0x1_0000_0000_0000_0000
}

proof fn lemma_bytes_told_add(a: Seq<Event>, b: Seq<Event>)
    ensures
        bytes_told(a + b) == bytes_told(a) + bytes_told(b),
    decreases b.len(),
{
    if b.len() == 0 {
        assert(a + b =~= a);
    } else {
        assert((a + b).drop_last() =~= a + b.drop_last());
        assert((a + b).last() == b.last());
        lemma_bytes_told_add(a, b.drop_last());
    }
}

proof fn lemma_accounted_none(v: MemView)
    ensures
        accounted(v, v, Seq::empty()),
{
    assert(v.events + Seq::<Event>::empty() =~= v.events);
}

proof fn lemma_accounted_both(
    u: MemView,
    v: MemView,
    r: MemView,
    first: Seq<Event>,
    second: Seq<Event>,
)
    requires
        accounted(u, v, first),
        accounted(v, r, second),
    ensures
        accounted(u, r, first + second),
{
    lemma_bytes_told_add(first, second);
    let all = first + second;
    assert forall|i: int| 0 <= i < all.len() implies (#[trigger] all[i]) is Evicted by {
        if i < first.len() {
            assert(all[i] == first[i]);
        } else {
            assert(all[i] == second[i - first.len()]);
        }
    }
    assert(u.events + all =~= (u.events + first) + second);
}

proof fn lemma_trimmed_accounted(v: MemView, k: int, keep: int) -> (evictions: Seq<Event>)
    requires
        0 <= k < v.shelves.len(),
        0 <= keep,
        v.used() <= usize::MAX,
    ensures
        accounted(v, v.trimmed(k, keep), evictions),
    decreases v.shelves[k].len(),
{
    if v.shelves[k].len() > keep && v.over() {
        let one = v.evict_oldest(k);
        let len = v.shelves[k].last().1.1.len();
        mem_laws::lemma_evict_oldest(v, k);
        mem_model::lemma_totals_cover(v.shelves, k);
        mem_model::lemma_sizes_nonneg(v.shelves[k].drop_last());
        let notice = Event::Evicted { bytes: len as usize };
        let first = seq![notice];
        assert(first.drop_last() =~= Seq::empty());
        assert(bytes_told(first.drop_last()) == 0);
        assert(first.last() == notice);
        assert(bytes_told(first) == len);
        assert(v.events.push(notice) =~= v.events + first);
        assert(accounted(v, one, first));
        let second = lemma_trimmed_accounted(one, k, keep);
        lemma_accounted_both(v, one, one.trimmed(k, keep), first, second);
        first + second
    } else {
        lemma_accounted_none(v);
        Seq::empty()
    }
}

proof fn lemma_trimmed_after_accounted(v: MemView, k: int, offset: int) -> (evictions: Seq<Event>)
    requires
        v.shelves.len() == SHARD_COUNT,
        0 <= k < SHARD_COUNT,
        1 <= offset <= SHARD_COUNT,
        v.used() <= usize::MAX,
    ensures
        accounted(v, v.trimmed_after(k, offset), evictions),
    decreases SHARD_COUNT - offset,
{
    if offset < SHARD_COUNT {
        let at = (k + offset) % SHARD_COUNT as int;
        let one = v.trimmed(at, 0);
        mem_laws::lemma_trimmed(v, at, 0);
        let first = lemma_trimmed_accounted(v, at, 0);
        let second = lemma_trimmed_after_accounted(one, k, offset + 1);
        lemma_accounted_both(v, one, one.trimmed_after(k, offset + 1), first, second);
        first + second
    } else {
        lemma_accounted_none(v);
        Seq::empty()
    }
}

proof fn lemma_evicted_accounted(v: MemView, k: int) -> (evictions: Seq<Event>)
    requires
        v.shelves.len() == SHARD_COUNT,
        0 <= k < SHARD_COUNT,
        v.used() <= usize::MAX,
    ensures
        accounted(v, v.evicted_from(k), evictions),
{
    reveal(MemView::evicted_from);
    let one = v.trimmed(k, 1);
    mem_laws::lemma_trimmed(v, k, 1);
    let first = lemma_trimmed_accounted(v, k, 1);
    let second = lemma_trimmed_after_accounted(one, k, 1);
    lemma_accounted_both(v, one, one.trimmed_after(k, 1), first, second);
    first + second
}

/// The bytes that a store would hold with a bundle under a name, before any are evicted.
pub open spec fn bytes_with(v: MemView, name: Seq<char>, data: Seq<u8>) -> int {
    v.used() + data.len() - (match v.held(name) {
        Some((_, old)) => old.len() as int,
        None => 0,
    })
}

/// The number of bundles that a store would hold with one under a name, before any are evicted.
pub open spec fn count_with(v: MemView, name: Seq<char>) -> int {
    v.count() + (match v.held(name) {
        Some(_) => 0int,
        None => 1,
    })
}

/// The notice, if any, that a store which holds this many bytes has come near its capacity or is
/// no longer near it.
pub open spec fn crossing(
    near: bool,
    capacity: usize,
    bytes: int,
    evicted_count: u64,
    evicted_bytes: u64,
) -> Seq<Event> {
    if !near && 20 * bytes >= 19 * capacity {
        seq![Event::NearlyFull { bytes: bytes as usize }]
    } else if near && 10 * bytes < 9 * capacity {
        seq![Event::NoLongerNearlyFull { bytes: bytes as usize, evicted_count, evicted_bytes }]
    } else {
        Seq::empty()
    }
}

/// Whether a store counts as near its capacity after it came to hold this many bytes.
pub open spec fn near_at(near: bool, capacity: usize, bytes: int) -> bool {
    if near {
        10 * bytes >= 9 * capacity
    } else {
        20 * bytes >= 19 * capacity
    }
}

/// The marks are at 95 and at 90 percent of the capacity.
pub proof fn law_marks_are_percentages(capacity: usize, bytes: int)
    ensures
        bytes >= mem_model::high_watermark(capacity) <==> 100 * bytes >= 95 * capacity,
        bytes >= mem_model::low_watermark(capacity) <==> 100 * bytes >= 90 * capacity,
{
}

proof fn lemma_checked(v: MemView)
    ensures
        ({
            let r = v.watermark_checked();
            &&& r.near == near_at(v.near, v.capacity, v.used())
            &&& r.events == v.events + crossing(
                v.near,
                v.capacity,
                v.used(),
                v.evicted_count,
                v.evicted_bytes,
            )
            &&& r.shelves == v.shelves
            &&& r.capacity == v.capacity
            &&& r.floor == v.floor
            &&& v.near && !r.near ==> r.evicted_count == 0 && r.evicted_bytes == 0
            &&& !(v.near && !r.near) ==> r.evicted_count == v.evicted_count && r.evicted_bytes
                == v.evicted_bytes
        }),
{
    law_marks_are_percentages(v.capacity, v.used());
    let r = v.watermark_checked();
    assert(r.events =~= v.events + crossing(
        v.near,
        v.capacity,
        v.used(),
        v.evicted_count,
        v.evicted_bytes,
    ));
}

/// What storing a bundle tells, in order: that the store with the bundle has come near its
/// capacity or is no longer near it, if so; each eviction; that the store is no longer near its
/// capacity after these, if so, with the number of bundles and of bytes that were evicted while it
/// was; and the bytes that it then holds.
pub proof fn law_store_tells(v: MemView, name: Seq<char>, time: i128, data: Seq<u8>) -> (evictions:
    Seq<Event>)
    requires
        v.wf(),
        v.fits(name, data.len() as int),
    ensures
        ({
            let r = v.stored(name, time, data);
            let peak = bytes_with(v, name, data);
            let near = near_at(v.near, v.capacity, peak);
            &&& all_evictions(evictions)
            &&& evictions.len() == count_with(v, name) - r.count()
            &&& bytes_told(evictions) == peak - r.used()
            &&& r.near == near_at(near, r.capacity, r.used())
            &&& r.events == v.events + crossing(
                v.near,
                v.capacity,
                peak,
                v.evicted_count,
                v.evicted_bytes,
            ) + evictions + crossing(
                near,
                v.capacity,
                r.used(),
                ((v.evicted_count + evictions.len()) % 0x1_0000_0000_0000_0000) as u64,
                ((v.evicted_bytes + peak - r.used()) % 0x1_0000_0000_0000_0000) as u64,
            ) + seq![Event::Usage { bytes: r.used() as usize }]
            &&& r.near ==> {
                &&& r.evicted_count == (v.evicted_count + evictions.len())
                    % 0x1_0000_0000_0000_0000
                &&& r.evicted_bytes == (v.evicted_bytes + peak - r.used())
                    % 0x1_0000_0000_0000_0000
            }
            &&& !r.near ==> r.evicted_count == 0 && r.evicted_bytes == 0
        }),
{
    mem_laws::lemma_shard_in_range(name);
    let k = shard::shard_of(name);
    let shelved = v.shelved(name, time, data);
    let checked = shelved.watermark_checked();
    let evicted = checked.evicted_from(k);
    let again = evicted.watermark_checked();
    let r = v.stored(name, time, data);
    mem_laws::lemma_shelved(v, name, time, data);
    mem_laws::lemma_stored(v, name, time, data);
    mem_laws::lemma_evicted_from(checked, k);
    lemma_checked(shelved);
    lemma_checked(evicted);
    let evictions = lemma_evicted_accounted(checked, k);
    assert(checked.used() == shelved.used());
    assert(checked.count() == shelved.count());
    assert(again.used() == evicted.used());
    assert(r.used() == evicted.used());
    assert(r.count() == evicted.count());
    assert(again.events.push(Event::Usage { bytes: again.used() as usize }) =~= again.events + seq![
        Event::Usage { bytes: r.used() as usize },
    ]);
    if v.near && !checked.near {
        assert(!checked.over());
        assert(evictions.len() == 0);
        assert(evicted == checked);
    }
    evictions
}

/// Bundles are evicted by storing one only where there would otherwise be too many bytes and more
/// bundles than are kept anyway. As many stay as are kept anyway, and the last one to go had to:
/// with it there would still be too many bytes.
pub proof fn law_evictions_are_needed(
    v: MemView,
    name: Seq<char>,
    time: i128,
    data: Seq<u8>,
)
    requires
        v.wf(),
        v.fits(name, data.len() as int),
        v.stored(name, time, data).count() < count_with(v, name),
    ensures
        ({
            let r = v.stored(name, time, data);
            &&& bytes_with(v, name, data) > v.capacity
            &&& count_with(v, name) > v.floor
            &&& r.count() >= v.floor
            &&& exists|i: int|
                {
                    &&& v.events.len() <= i < r.events.len()
                    &&& (#[trigger] r.events[i]) matches Event::Evicted { bytes } && r.used()
                        + bytes > r.capacity
                }
        }),
{
    mem_laws::lemma_shard_in_range(name);
    let k = shard::shard_of(name);
    let shelved = v.shelved(name, time, data);
    let checked = shelved.watermark_checked();
    let evicted = checked.evicted_from(k);
    let r = v.stored(name, time, data);
    mem_laws::lemma_shelved(v, name, time, data);
    mem_laws::lemma_stored(v, name, time, data);
    assert(checked.count() == shelved.count());
    assert(r.count() == evicted.count() && r.used() == evicted.used());
    assert(evicted != checked);
    assert(mem_laws::last_one_needed(evicted));
    let evictions = lemma_evicted_accounted(checked, k);
    assert(evictions.len() > 0);
    let i = evicted.events.len() - 1;
    assert(r.events[i] == evicted.events.last());
}

/// A bundle is held exactly where one stands under its name on the shelf of that name.
pub proof fn law_held_is_on_its_shelf(v: MemView, name: Seq<char>, time: i128, data: Seq<u8>)
    requires
        v.wf(),
    ensures
        v.held(name) == Some((time, data)) <==> v.shelves[shard::shard_of(name)].contains(
            (name, (time, data)),
        ),
{
    mem_laws::lemma_shard_in_range(name);
    recency::law_value_is_an_items(v.shelves[shard::shard_of(name)], name, (time, data));
}

/// A bundle that is loaded becomes the first of its shelf, the latest used, and the others of the
/// shelf keep their order. Nothing else changes, whatever the state of the store.
pub proof fn law_loaded_becomes_latest(v: MemView, name: Seq<char>, time: i128, data: Seq<u8>)
    requires
        v.wf(),
        v.held(name) == Some((time, data)),
    ensures
        ({
            let k = shard::shard_of(name);
            let r = v.used_again(name);
            &&& r.shelves[k] == seq![(name, (time, data))] + recency::others(v.shelves[k], name)
            &&& r.shelves.len() == v.shelves.len()
            &&& forall|j: int|
                0 <= j < v.shelves.len() && j != k ==> r.shelves[j] == (#[trigger] v.shelves[j])
            &&& r.near == v.near
            &&& r.evicted_count == v.evicted_count
            &&& r.evicted_bytes == v.evicted_bytes
            &&& r.events == v.events
            &&& r.capacity == v.capacity
            &&& r.floor == v.floor
        }),
{
    mem_laws::lemma_shard_in_range(name);
    let shelf = v.shelves[shard::shard_of(name)];
    recency::lemma_index_of(shelf, name);
    recency::law_used_comes_first(shelf, name);
    let at = recency::index_of(shelf, name);
    assert(shelf[at] == (name, (time, data)));
}

/// Loading what is not held changes nothing.
pub proof fn law_loading_nothing_changes_nothing(v: MemView, name: Seq<char>)
    requires
        v.wf(),
        v.held(name) is None,
    ensures
        v.used_again(name) == v,
{
    mem_laws::lemma_shard_in_range(name);
    assert(v.used_again(name).shelves =~= v.shelves);
}

/// After a bundle is stored, it is the first of its shelf, and behind it are the others that were
/// there, in their order, but for some of those used the longest ago. So it is of each other
/// shelf.
pub proof fn law_stored_becomes_latest(v: MemView, name: Seq<char>, time: i128, data: Seq<u8>)
    requires
        v.wf(),
        v.fits(name, data.len() as int),
    ensures
        ({
            let k = shard::shard_of(name);
            let r = v.stored(name, time, data);
            let all = seq![(name, (time, data))] + recency::others(v.shelves[k], name);
            &&& 1 <= r.shelves[k].len() <= all.len()
            &&& r.shelves[k] == all.take(r.shelves[k].len() as int)
            &&& r.shelves.len() == v.shelves.len()
            &&& forall|j: int|
                0 <= j < v.shelves.len() && j != k ==> {
                    &&& (#[trigger] r.shelves[j]).len() <= v.shelves[j].len()
                    &&& r.shelves[j] == v.shelves[j].take(r.shelves[j].len() as int)
                }
            &&& r.capacity == v.capacity
            &&& r.floor == v.floor
        }),
{
    mem_laws::lemma_shard_in_range(name);
    mem_laws::lemma_stored(v, name, time, data);
    let k = shard::shard_of(name);
    recency::law_latest_comes_first(v.shelves[k], name, (time, data));
    let shelved = v.shelved(name, time, data);
    let r = v.stored(name, time, data);
    assert forall|j: int| 0 <= j < v.shelves.len() && j != k implies {
        &&& (#[trigger] r.shelves[j]).len() <= v.shelves[j].len()
        &&& r.shelves[j] == v.shelves[j].take(r.shelves[j].len() as int)
    } by {
        assert(shelved.shelves[j] == v.shelves[j]);
    }
}

/// Of two bundles in one part of a store, the one used later outlasts the other: where a bundle is
/// stored and the earlier one of the two is still held, so is the later one.
pub proof fn law_later_used_outlasts(
    v: MemView,
    name: Seq<char>,
    time: i128,
    data: Seq<u8>,
    k: int,
    later: int,
    earlier: int,
)
    requires
        v.wf(),
        v.fits(name, data.len() as int),
        0 <= k < SHARD_COUNT,
        0 <= later < earlier < v.shelves[k].len(),
        v.shelves[k][later].0 != name,
        v.shelves[k][earlier].0 != name,
        v.stored(name, time, data).held(v.shelves[k][earlier].0) is Some,
    ensures
        v.stored(name, time, data).held(v.shelves[k][later].0) == Some(v.shelves[k][later].1),
{
    let a = v.shelves[k][later];
    let b = v.shelves[k][earlier];
    mem_laws::lemma_shard_in_range(name);
    mem_laws::lemma_stored(v, name, time, data);
    let shelved = v.shelved(name, time, data);
    let r = v.stored(name, time, data);
    assert(shard::shard_of(v.shelves[k][later].0) == k);
    assert(shard::shard_of(v.shelves[k][earlier].0) == k);
    let shelf = shelved.shelves[k];
    let n = r.shelves[k].len() as int;
    assert(r.shelves[k] == shelf.take(n));
    recency::law_latest_kept(shelf, n, a.0);
    recency::law_latest_kept(shelf, n, b.0);
    recency::lemma_found_at(v.shelves[k], later);
    recency::lemma_found_at(v.shelves[k], earlier);
    if k == shard::shard_of(name) {
        lemma_place_with_latest(v.shelves[k], name, (time, data), later);
        lemma_place_with_latest(v.shelves[k], name, (time, data), earlier);
    }
}

/// The place of an item behind one that was put before all others.
proof fn lemma_place_with_latest<V>(
    items: Seq<(Seq<char>, V)>,
    name: Seq<char>,
    value: V,
    i: int,
)
    requires
        recency::distinct(items),
        0 <= i < items.len(),
        items[i].0 != name,
    ensures
        recency::index_of(recency::with_latest(items, name, value), items[i].0) == (
        if recency::index_of(items, name) < i {
            i
        } else {
            i + 1
        }),
        recency::value_of(recency::with_latest(items, name, value), items[i].0) == Some(items[i].1),
{
    let all = recency::with_latest(items, name, value);
    let left = recency::without(items, name);
    recency::lemma_index_of(items, name);
    recency::law_with_latest(items, name, value, items[i].0);
    recency::lemma_found_at(items, i);
    let at = recency::index_of(items, name);
    let p = if at < i {
        i
    } else {
        i + 1
    };
    if recency::names(items, name) {
        assert(left[p - 1] == items[i]);
    } else {
        assert(at == items.len());
    }
    assert(all[p] == items[i]);
    recency::lemma_found_at(all, p);
}

/// A bundle that was just loaded is the last of those in its part to be evicted: where storing
/// another one evicts it, all others that were there are gone too.
pub proof fn law_loaded_is_evicted_last(
    v: MemView,
    loaded: Seq<char>,
    name: Seq<char>,
    time: i128,
    data: Seq<u8>,
    other: Seq<char>,
)
    requires
        v.wf(),
        v.held(loaded) is Some,
        name != loaded,
        other != name,
        other != loaded,
        shard::shard_of(other) == shard::shard_of(loaded),
        v.used_again(loaded).fits(name, data.len() as int),
        v.used_again(loaded).stored(name, time, data).held(other) is Some,
    ensures
        v.used_again(loaded).stored(name, time, data).held(loaded) == v.held(loaded),
{
    let u = v.used_again(loaded);
    let k = shard::shard_of(loaded);
    mem_laws::lemma_shard_in_range(loaded);
    mem_laws::lemma_used_again(v, loaded);
    mem_laws::law_others_kept_or_evicted(u, name, time, data, other);
    mem_laws::law_reading_changes_nothing(v, loaded, loaded);
    let (t, d) = v.held(loaded)->0;
    law_loaded_becomes_latest(v, loaded, t, d);
    let shelf = u.shelves[k];
    assert(shelf[0] == (loaded, (t, d)));
    recency::lemma_index_of(shelf, other);
    let at = recency::index_of(shelf, other);
    assert(u.held(other) is Some);
    assert(shelf[at].0 == other);
    law_later_used_outlasts(u, name, time, data, k, 0, at);
}

/// Another part than the one that a bundle is stored to loses bundles only where that one has
/// nothing left but the new bundle, and the parts between the two, going up and round, have
/// nothing left at all.
pub proof fn law_other_parts_give_way_in_turn(
    v: MemView,
    name: Seq<char>,
    time: i128,
    data: Seq<u8>,
    m: int,
)
    requires
        v.wf(),
        v.fits(name, data.len() as int),
        1 <= m < SHARD_COUNT,
        v.stored(name, time, data).shelves[(shard::shard_of(name) + m) % SHARD_COUNT as int]
            != v.shelves[(shard::shard_of(name) + m) % SHARD_COUNT as int],
    ensures
        v.stored(name, time, data).shelves[shard::shard_of(name)].len() == 1,
        forall|o: int|
            1 <= o < m ==> (#[trigger] v.stored(name, time, data).shelves[(shard::shard_of(name)
                + o) % SHARD_COUNT as int]).len() == 0,
{
    mem_laws::lemma_shard_in_range(name);
    let k = shard::shard_of(name);
    let shelved = v.shelved(name, time, data);
    let checked = shelved.watermark_checked();
    mem_laws::lemma_shelved(v, name, time, data);
    mem_laws::lemma_stored(v, name, time, data);
    mem_laws::lemma_wrap(k, m);
    let j = (k + m) % SHARD_COUNT as int;
    assert(checked.shelves[j] == v.shelves[j]);
    assert(checked.used() == shelved.used());
    let r = v.stored(name, time, data);
    assert(r.shelves == checked.evicted_from(k).shelves);
    mem_laws::law_others_drained_last(checked, k, m);
    assert forall|o: int| 1 <= o < m implies (#[trigger] r.shelves[(k + o)
        % SHARD_COUNT as int]).len() == 0 by {
        assert(checked.evicted_from(k).shelves[(k + o) % SHARD_COUNT as int].len() == 0);
    }
}

/// Deleting a bundle that is held takes it from its shelf, where the others keep their order, and
/// touches no other shelf. The store may no longer be near its capacity, which is told, and then
/// the bytes that it holds.
pub proof fn law_delete_takes_one(v: MemView, name: Seq<char>, time: i128, data: Seq<u8>)
    requires
        v.wf(),
        v.held(name) == Some((time, data)),
    ensures
        ({
            let k = shard::shard_of(name);
            let r = v.deleted(name);
            &&& r.shelves[k] == recency::others(v.shelves[k], name)
            &&& r.shelves.len() == v.shelves.len()
            &&& forall|j: int|
                0 <= j < v.shelves.len() && j != k ==> r.shelves[j] == (#[trigger] v.shelves[j])
            &&& r.used() == v.used() - data.len()
            &&& r.count() == v.count() - 1
            &&& r.near == (v.near && 10 * r.used() >= 9 * v.capacity)
            &&& r.near ==> r.evicted_count == v.evicted_count && r.evicted_bytes
                == v.evicted_bytes
            &&& r.events == v.events + crossing(
                v.near,
                v.capacity,
                r.used(),
                v.evicted_count,
                v.evicted_bytes,
            ) + seq![Event::Usage { bytes: r.used() as usize }]
            &&& r.capacity == v.capacity
            &&& r.floor == v.floor
        }),
{
    mem_laws::lemma_shard_in_range(name);
    let k = shard::shard_of(name);
    let u = v.unshelved(name);
    mem_laws::lemma_unshelved(v, name);
    recency::law_without_keeps_order(v.shelves[k], name);
    lemma_checked(u);
    let r = v.deleted(name);
    let checked = u.watermark_checked();
    assert(checked.used() == u.used());
    assert(r.used() == u.used() && r.count() == u.count());
    law_marks_are_percentages(v.capacity, v.used());
    assert(r.events =~= checked.events + seq![Event::Usage { bytes: r.used() as usize }]);
}

/// Deleting what is not held changes and tells nothing.
pub proof fn law_deleting_nothing_changes_nothing(v: MemView, name: Seq<char>)
    requires
        v.held(name) is None,
    ensures
        v.deleted(name) == v,
{
}

/// A new store holds nothing, is not near its capacity, has nothing to tell, and keeps as many
/// bundles as it was asked to, but at least one.
pub proof fn law_new_store_is_empty(capacity: usize, min_bundles: usize, name: Seq<char>)
    requires
        capacity > 0,
    ensures
        ({
            let v = MemView::empty(capacity, min_bundles);
            &&& v.wf()
            &&& v.held(name) is None
            &&& v.used() == 0
            &&& v.count() == 0
            &&& v.capacity == capacity
            &&& v.floor >= 1 && v.floor >= min_bundles
            &&& v.floor == 1 || v.floor == min_bundles
            &&& !v.near
            &&& v.evicted_count == 0
            &&& v.evicted_bytes == 0
            &&& v.events.len() == 0
        }),
{
    mem_laws::lemma_shard_in_range(name);
    let v = MemView::empty(capacity, min_bundles);
    mem_model::lemma_empty_totals(v.shelves);
}

/// There is room where the bytes and the bundles can still be counted; a bundle in the place of
/// another needs room only for what it is larger.
pub proof fn law_room(v: MemView, name: Seq<char>, len: int)
    ensures
        v.has_room(len) <==> v.used() + len <= usize::MAX && v.count() + 1 <= usize::MAX,
        v.held(name) is None ==> (v.fits(name, len) <==> v.has_room(len)),
        v.held(name) matches Some((_, old)) ==> (v.fits(name, len) <==> v.used() - old.len() + len
            <= usize::MAX),
{
}

/// Recovery goes through the parts in turn, and through each from the latest used bundle to the
/// one used the longest ago.
pub proof fn law_recovery_order(v: MemView, i: int, j: int)
    requires
        v.wf(),
        0 <= i < j < mem_model::all_names(v.shelves).len(),
    ensures
        ({
            let a = mem_model::all_names(v.shelves)[i].0;
            let b = mem_model::all_names(v.shelves)[j].0;
            let k = shard::shard_of(a);
            &&& k <= shard::shard_of(b)
            &&& k == shard::shard_of(b) ==> recency::index_of(v.shelves[k], a) < recency::index_of(
                v.shelves[k],
                b,
            )
        }),
{
    assert(v.shelves.take(SHARD_COUNT as int) =~= v.shelves);
    lemma_recovery_order(v, SHARD_COUNT as int, i, j);
}

proof fn lemma_recovery_order(v: MemView, n: int, i: int, j: int)
    requires
        v.wf(),
        0 <= n <= SHARD_COUNT,
        0 <= i < j < mem_model::all_names(v.shelves.take(n)).len(),
    ensures
        ({
            let a = mem_model::all_names(v.shelves.take(n))[i].0;
            let b = mem_model::all_names(v.shelves.take(n))[j].0;
            let k = shard::shard_of(a);
            &&& k <= shard::shard_of(b)
            &&& k == shard::shard_of(b) ==> recency::index_of(v.shelves[k], a) < recency::index_of(
                v.shelves[k],
                b,
            )
        }),
    decreases n,
{
    if n == 0 {
        assert(v.shelves.take(0) =~= Seq::empty());
    } else {
        let shelf = v.shelves[n - 1];
        let earlier = mem_model::all_names(v.shelves.take(n - 1));
        let here = shelf.map_values(|item: (Seq<char>, (i128, Seq<u8>))| (item.0, item.1.0));
        let all = mem_model::all_names(v.shelves.take(n));
        assert(v.shelves.take(n).drop_last() =~= v.shelves.take(n - 1));
        assert(all == earlier + here);
        mem_laws::lemma_all_names(v, n - 1);
        if j < earlier.len() {
            assert(all[i] == earlier[i] && all[j] == earlier[j]);
            lemma_recovery_order(v, n - 1, i, j);
        } else {
            let y = j - earlier.len();
            assert(all[j] == here[y]);
            assert(shard::shard_of(v.shelves[n - 1][y].0) == n - 1);
            recency::lemma_found_at(shelf, y);
            if i < earlier.len() {
                assert(all[i] == earlier[i]);
            } else {
                let x = i - earlier.len();
                assert(all[i] == here[x]);
                assert(shard::shard_of(v.shelves[n - 1][x].0) == n - 1);
                recency::lemma_found_at(shelf, x);
            }
        }
    }
}

/// What is read of a bundle is the bytes that are held.
pub proof fn law_bytes_are_those_held(v: MemView, name: Seq<char>)
    ensures
        bundle_mem::bytes_of(v.held(name)) is Some <==> v.held(name) is Some,
        v.held(name) matches Some((_, data)) ==> bundle_mem::bytes_of(v.held(name)) == Some(data),
{
}

/// Between any two requests, a store that is near its capacity holds at least 90 percent of it, and
/// one that is not holds less than 95 percent and has no evictions tallied. Each bundle is in the
/// part that its name belongs to, and no name occurs twice.
pub proof fn law_between_requests(v: MemView, k: int, i: int, j: int)
    requires
        v.wf(),
    ensures
        v.near ==> 100 * v.used() >= 90 * v.capacity,
        !v.near ==> 100 * v.used() < 95 * v.capacity && v.evicted_count == 0 && v.evicted_bytes
            == 0,
        0 <= k < SHARD_COUNT && 0 <= i < v.shelves[k].len() ==> shard::shard_of(
            v.shelves[k][i].0,
        ) == k,
        0 <= k < SHARD_COUNT && 0 <= i < j < v.shelves[k].len() ==> v.shelves[k][i].0
            != v.shelves[k][j].0,
        v.shelves.len() == SHARD_COUNT,
        v.capacity > 0,
        v.floor > 0,
{
    law_marks_are_percentages(v.capacity, v.used());
}

/// The bytes and the bundles that a store holds are those of its parts, taken together.
pub proof fn law_totals(v: MemView, k: int, shelf: mem_model::Shelf)
    requires
        0 <= k < v.shelves.len(),
        shelf.len() > 0,
    ensures
        ({
            let with = MemView { shelves: v.shelves.update(k, shelf), ..v };
            let less = MemView { shelves: v.shelves.update(k, shelf.drop_last()), ..v };
            &&& with.used() == less.used() + shelf.last().1.1.len()
            &&& with.count() == less.count() + 1
        }),
{
    mem_model::lemma_totals_update(v.shelves, k, shelf);
    mem_model::lemma_totals_update(v.shelves, k, shelf.drop_last());
}

proof fn lemma_trimmed_tight(v: MemView, k: int, keep: int)
    requires
        0 <= k < v.shelves.len(),
        0 <= keep,
        v.used() <= usize::MAX,
        v.trimmed(k, keep).shelves[k].len() < v.shelves[k].len(),
    ensures
        ({
            let r = v.trimmed(k, keep);
            let last = v.shelves[k][r.shelves[k].len() as int];
            &&& r.used() + last.1.1.len() > v.capacity
            &&& r.count() + 1 > v.floor
        }),
    decreases v.shelves[k].len(),
{
    if v.shelves[k].len() > keep && v.over() {
        let one = v.evict_oldest(k);
        mem_laws::lemma_evict_oldest(v, k);
        mem_laws::lemma_trimmed(one, k, keep);
        let r = one.trimmed(k, keep);
        assert(v.trimmed(k, keep) == r);
        if r.shelves[k].len() < one.shelves[k].len() {
            lemma_trimmed_tight(one, k, keep);
            assert(one.shelves[k][r.shelves[k].len() as int] == v.shelves[k][r.shelves[k].len() as int]);
        } else {
            if one.shelves[k].len() > keep && one.over() {
                let two = one.evict_oldest(k);
                mem_laws::lemma_evict_oldest(one, k);
                mem_laws::lemma_trimmed(two, k, keep);
            }
            assert(r == one);
        }
    }
}

/// Trimming the parts from an offset on leaves those before it.
proof fn lemma_earlier_parts_stay(v: MemView, k: int, offset: int, o: int)
    requires
        v.shelves.len() == SHARD_COUNT,
        0 <= k < SHARD_COUNT,
        0 <= o < offset <= SHARD_COUNT,
        v.used() <= usize::MAX,
    ensures
        v.trimmed_after(k, offset).shelves[(k + o) % SHARD_COUNT as int] == v.shelves[(k + o)
            % SHARD_COUNT as int],
    decreases SHARD_COUNT - offset,
{
    if offset < SHARD_COUNT {
        let at = (k + offset) % SHARD_COUNT as int;
        mem_laws::lemma_wrap(k, offset);
        mem_laws::lemma_wrap(k, o);
        mem_laws::lemma_trimmed(v, at, 0);
        lemma_earlier_parts_stay(v.trimmed(at, 0), k, offset + 1, o);
    }
}

proof fn lemma_trimmed_after_tight(v: MemView, k: int, offset: int, m: int)
    requires
        v.shelves.len() == SHARD_COUNT,
        0 <= k < SHARD_COUNT,
        1 <= offset <= m < SHARD_COUNT,
        v.used() <= usize::MAX,
        v.trimmed_after(k, offset).shelves[(k + m) % SHARD_COUNT as int].len() < v.shelves[(k + m)
            % SHARD_COUNT as int].len(),
        forall|o: int|
            m < o < SHARD_COUNT ==> (#[trigger] v.trimmed_after(k, offset).shelves[(k + o)
                % SHARD_COUNT as int]) == v.shelves[(k + o) % SHARD_COUNT as int],
    ensures
        ({
            let r = v.trimmed_after(k, offset);
            let j = (k + m) % SHARD_COUNT as int;
            let last = v.shelves[j][r.shelves[j].len() as int];
            &&& r.used() + last.1.1.len() > v.capacity
            &&& r.count() + 1 > v.floor
        }),
    decreases m - offset,
{
    let at = (k + offset) % SHARD_COUNT as int;
    let j = (k + m) % SHARD_COUNT as int;
    let one = v.trimmed(at, 0);
    let r = one.trimmed_after(k, offset + 1);
    assert(v.trimmed_after(k, offset) == r);
    mem_laws::lemma_wrap(k, offset);
    mem_laws::lemma_wrap(k, m);
    mem_laws::lemma_trimmed(v, at, 0);
    mem_laws::lemma_trimmed_after(one, k, offset + 1);
    if offset == m {
        assert forall|i: int| 0 <= i < SHARD_COUNT implies (#[trigger] r.shelves[i])
            == one.shelves[i] by {
            let o = if i >= k {
                i - k
            } else {
                i - k + SHARD_COUNT
            };
            mem_laws::lemma_wrap(k, o);
            assert((k + o) % SHARD_COUNT as int == i);
            if o <= m {
                lemma_earlier_parts_stay(one, k, offset + 1, o);
            } else {
                assert(v.trimmed_after(k, offset).shelves[(k + o) % SHARD_COUNT as int]
                    == v.shelves[(k + o) % SHARD_COUNT as int]);
            }
        }
        assert(r.shelves =~= one.shelves);
        assert(r.used() == one.used() && r.count() == one.count());
        lemma_trimmed_tight(v, at, 0);
    } else {
        assert(one.shelves[j] == v.shelves[j]);
        assert forall|o: int| m < o < SHARD_COUNT implies (#[trigger] one.trimmed_after(
            k,
            offset + 1,
        ).shelves[(k + o) % SHARD_COUNT as int]) == one.shelves[(k + o) % SHARD_COUNT as int] by {
            mem_laws::lemma_wrap(k, o);
            assert(v.trimmed_after(k, offset).shelves[(k + o) % SHARD_COUNT as int] == v.shelves[(k
                + o) % SHARD_COUNT as int]);
        }
        lemma_trimmed_after_tight(one, k, offset + 1, m);
    }
}

/// No bundle is evicted that could have stayed: in the last part to lose any by storing a bundle,
/// the latest used of those that it lost does not fit in. With it there would be too many bytes,
/// and still more bundles than are kept anyway.
pub proof fn law_no_bundle_too_many_is_evicted(
    v: MemView,
    name: Seq<char>,
    time: i128,
    data: Seq<u8>,
    m: int,
)
    requires
        v.wf(),
        v.fits(name, data.len() as int),
        1 <= m < SHARD_COUNT,
        v.stored(name, time, data).shelves[(shard::shard_of(name) + m) % SHARD_COUNT as int].len()
            < v.shelves[(shard::shard_of(name) + m) % SHARD_COUNT as int].len(),
        forall|o: int|
            m < o < SHARD_COUNT ==> (#[trigger] v.stored(name, time, data).shelves[(shard::shard_of(
                name,
            ) + o) % SHARD_COUNT as int]) == v.shelves[(shard::shard_of(name) + o)
                % SHARD_COUNT as int],
    ensures
        ({
            let r = v.stored(name, time, data);
            let j = (shard::shard_of(name) + m) % SHARD_COUNT as int;
            let last = v.shelves[j][r.shelves[j].len() as int];
            &&& r.used() + last.1.1.len() > v.capacity
            &&& r.count() + 1 > v.floor
        }),
{
    reveal(MemView::evicted_from);
    mem_laws::lemma_shard_in_range(name);
    let k = shard::shard_of(name);
    let shelved = v.shelved(name, time, data);
    let checked = shelved.watermark_checked();
    let one = checked.trimmed(k, 1);
    let r = v.stored(name, time, data);
    mem_laws::lemma_shelved(v, name, time, data);
    mem_laws::lemma_stored(v, name, time, data);
    assert(checked.used() == shelved.used());
    mem_laws::lemma_trimmed(checked, k, 1);
    assert(r.shelves == one.trimmed_after(k, 1).shelves);
    assert(r.used() == one.trimmed_after(k, 1).used());
    assert(r.count() == one.trimmed_after(k, 1).count());
    mem_laws::lemma_wrap(k, m);
    let j = (k + m) % SHARD_COUNT as int;
    assert(one.shelves[j] == v.shelves[j]);
    assert forall|o: int| m < o < SHARD_COUNT implies (#[trigger] one.trimmed_after(
        k,
        1,
    ).shelves[(k + o) % SHARD_COUNT as int]) == one.shelves[(k + o) % SHARD_COUNT as int] by {
        mem_laws::lemma_wrap(k, o);
        assert(r.shelves[(k + o) % SHARD_COUNT as int] == v.shelves[(k + o) % SHARD_COUNT as int]);
    }
    lemma_trimmed_after_tight(one, k, 1, m);
}

/// The same of the part that a bundle is stored to, where no other part loses any.
pub proof fn law_no_bundle_too_many_is_evicted_beside(
    v: MemView,
    name: Seq<char>,
    time: i128,
    data: Seq<u8>,
)
    requires
        v.wf(),
        v.fits(name, data.len() as int),
        v.stored(name, time, data).shelves[shard::shard_of(name)].len() < recency::others(
            v.shelves[shard::shard_of(name)],
            name,
        ).len() + 1,
        forall|j: int|
            0 <= j < SHARD_COUNT && j != shard::shard_of(name) ==> (#[trigger] v.stored(
                name,
                time,
                data,
            ).shelves[j]) == v.shelves[j],
    ensures
        ({
            let k = shard::shard_of(name);
            let r = v.stored(name, time, data);
            let last = recency::others(v.shelves[k], name)[r.shelves[k].len() - 1];
            &&& r.used() + last.1.1.len() > v.capacity
            &&& r.count() + 1 > v.floor
        }),
{
    reveal(MemView::evicted_from);
    mem_laws::lemma_shard_in_range(name);
    let k = shard::shard_of(name);
    let shelved = v.shelved(name, time, data);
    let checked = shelved.watermark_checked();
    let one = checked.trimmed(k, 1);
    let r = v.stored(name, time, data);
    mem_laws::lemma_shelved(v, name, time, data);
    mem_laws::lemma_stored(v, name, time, data);
    assert(checked.used() == shelved.used());
    mem_laws::lemma_trimmed(checked, k, 1);
    mem_laws::lemma_trimmed_after(one, k, 1);
    let last_state = one.trimmed_after(k, 1);
    assert(r.shelves == last_state.shelves);
    assert(last_state.shelves =~= one.shelves) by {
        assert forall|j: int| 0 <= j < SHARD_COUNT implies last_state.shelves[j]
            == one.shelves[j] by {
            if j != k {
                assert(r.shelves[j] == v.shelves[j]);
                assert(one.shelves[j] == checked.shelves[j]);
            }
        }
    }
    assert(r.used() == one.used() && r.count() == one.count());
    recency::law_latest_comes_first(v.shelves[k], name, (time, data));
    lemma_trimmed_tight(checked, k, 1);
}

} // verus!
