//! What holds of a store in memory as a whole.

use vstd::prelude::*;
use crate::storage::mem_model;
use crate::storage::mem_model::{Event, MemView, Shelf};
use crate::storage::naming;
use crate::storage::recency;
use crate::storage::shard;
use crate::storage::shard::SHARD_COUNT;

verus! {

/// Of each shelf, only the bundles that were used the longest ago are gone.
pub open spec fn oldest_gone(before: Seq<Shelf>, after: Seq<Shelf>) -> bool {
    &&& before.len() == after.len()
    &&& forall|k: int|
        0 <= k < before.len() ==> {
            &&& (#[trigger] after[k]).len() <= before[k].len()
            &&& after[k] == before[k].take(after[k].len() as int)
        }
}

/// Two states agree on all but the bundles, the tallies and what was told of evictions.
pub open spec fn same_terms(a: MemView, b: MemView) -> bool {
    &&& a.capacity == b.capacity
    &&& a.floor == b.floor
    &&& a.near == b.near
}

/// Without the last eviction there would still have been too much.
pub open spec fn last_one_needed(v: MemView) -> bool {
    &&& v.events.len() > 0
    &&& v.events.last() matches Event::Evicted { bytes } && v.used() + bytes > v.capacity
    &&& v.count() + 1 > v.floor
}

/// Evicting the oldest bundle of a shelf.
pub proof fn lemma_evict_oldest(v: MemView, k: int)
    requires
        0 <= k < v.shelves.len(),
        v.shelves[k].len() > 0,
    ensures
        v.evict_oldest(k).used() == v.used() - v.shelves[k].last().1.1.len(),
        v.evict_oldest(k).count() == v.count() - 1,
        v.evict_oldest(k).shelves[k] == v.shelves[k].drop_last(),
        forall|j: int|
            0 <= j < v.shelves.len() && j != k ==> v.evict_oldest(k).shelves[j] == (
            #[trigger] v.shelves[j]),
{
    mem_model::lemma_totals_update(v.shelves, k, v.shelves[k].drop_last());
}

/// Trimming a shelf takes its oldest bundles, as many as are needed and may go, and no others.
pub proof fn lemma_trimmed(v: MemView, k: int, keep: int)
    requires
        0 <= k < v.shelves.len(),
        0 <= keep,
        v.used() <= usize::MAX,
    ensures
        ({
            let r = v.trimmed(k, keep);
            &&& same_terms(r, v)
            &&& oldest_gone(v.shelves, r.shelves)
            &&& forall|j: int|
                0 <= j < v.shelves.len() && j != k ==> r.shelves[j] == (#[trigger] v.shelves[j])
            &&& r.shelves[k].len() >= v.shelves[k].len() || r.shelves[k].len() >= keep
            &&& r.over() ==> r.shelves[k].len() <= keep
            &&& !v.over() ==> r == v
            &&& r.used() <= v.used()
            &&& r.count() <= v.count()
            &&& r == v || r.count() >= v.floor
            &&& r == v || last_one_needed(r)
        }),
    decreases v.shelves[k].len(),
{
    if v.shelves[k].len() > keep && v.over() {
        let one = v.evict_oldest(k);
        lemma_evict_oldest(v, k);
        mem_model::lemma_totals_cover(v.shelves, k);
        mem_model::lemma_sizes_nonneg(v.shelves[k].drop_last());
        assert(last_one_needed(one));
        lemma_trimmed(one, k, keep);
        let r = one.trimmed(k, keep);
        assert(v.trimmed(k, keep) == r);
        assert forall|j: int| 0 <= j < v.shelves.len() implies {
            &&& (#[trigger] r.shelves[j]).len() <= v.shelves[j].len()
            &&& r.shelves[j] == v.shelves[j].take(r.shelves[j].len() as int)
        } by {
            if j == k {
                assert(r.shelves[k] == one.shelves[k].take(r.shelves[k].len() as int));
                assert(one.shelves[k].take(r.shelves[k].len() as int) =~= v.shelves[k].take(
                    r.shelves[k].len() as int,
                ));
            } else {
                assert(r.shelves[j] == v.shelves[j]);
                assert(v.shelves[j].take(v.shelves[j].len() as int) =~= v.shelves[j]);
            }
        }
    } else {
        assert forall|j: int| 0 <= j < v.shelves.len() implies (#[trigger] v.shelves[j])
            == v.shelves[j].take(v.shelves[j].len() as int) by {
            assert(v.shelves[j].take(v.shelves[j].len() as int) =~= v.shelves[j]);
        }
    }
}

proof fn lemma_oldest_gone_transitive(a: Seq<Shelf>, b: Seq<Shelf>, c: Seq<Shelf>)
    requires
        oldest_gone(a, b),
        oldest_gone(b, c),
    ensures
        oldest_gone(a, c),
{
    assert forall|k: int| 0 <= k < a.len() implies {
        &&& (#[trigger] c[k]).len() <= a[k].len()
        &&& c[k] == a[k].take(c[k].len() as int)
    } by {
        assert(b[k].len() <= a[k].len() && b[k] == a[k].take(b[k].len() as int));
        assert(c[k] == b[k].take(c[k].len() as int));
        assert(b[k].take(c[k].len() as int) =~= a[k].take(c[k].len() as int));
    }
}

/// The place of the part at an offset, going up and round.
pub proof fn lemma_wrap(k: int, offset: int)
    requires
        0 <= k < SHARD_COUNT,
        0 <= offset < SHARD_COUNT,
    ensures
        (k + offset) % SHARD_COUNT as int == (if k + offset < SHARD_COUNT {
            k + offset
        } else {
            k + offset - SHARD_COUNT
        }),
{
}

/// Trimming the other shelves leaves the first one as it is, and takes the oldest bundles of the
/// others, as many as are needed and may go.
pub proof fn lemma_trimmed_after(v: MemView, k: int, offset: int)
    requires
        v.shelves.len() == SHARD_COUNT,
        0 <= k < SHARD_COUNT,
        1 <= offset <= SHARD_COUNT,
        v.used() <= usize::MAX,
    ensures
        ({
            let r = v.trimmed_after(k, offset);
            &&& same_terms(r, v)
            &&& oldest_gone(v.shelves, r.shelves)
            &&& r.shelves[k] == v.shelves[k]
            &&& r.over() ==> forall|o: int|
                offset <= o < SHARD_COUNT ==> (#[trigger] r.shelves[(k + o)
                    % SHARD_COUNT as int]).len() == 0
            &&& !v.over() ==> r == v
            &&& r.used() <= v.used()
            &&& r.count() <= v.count()
            &&& r == v || r.count() >= v.floor
            &&& r == v || last_one_needed(r)
        }),
    decreases SHARD_COUNT - offset,
{
    if offset < SHARD_COUNT {
        let at = (k + offset) % SHARD_COUNT as int;
        lemma_wrap(k, offset);
        let one = v.trimmed(at, 0);
        lemma_trimmed(v, at, 0);
        lemma_trimmed_after(one, k, offset + 1);
        let r = one.trimmed_after(k, offset + 1);
        assert(v.trimmed_after(k, offset) == r);
        lemma_oldest_gone_transitive(v.shelves, one.shelves, r.shelves);
        if r.over() {
            assert(one.over());
            assert forall|o: int| offset <= o < SHARD_COUNT implies (#[trigger] r.shelves[(k + o)
                % SHARD_COUNT as int]).len() == 0 by {
                if o == offset {
                    assert(one.shelves[at].len() == 0);
                    assert(r.shelves[at].len() <= one.shelves[at].len());
                }
            }
        }
        if one != v {
            assert(one.count() >= v.floor);
        }
    } else {
        assert forall|j: int| 0 <= j < v.shelves.len() implies (#[trigger] v.shelves[j])
            == v.shelves[j].take(v.shelves[j].len() as int) by {
            assert(v.shelves[j].take(v.shelves[j].len() as int) =~= v.shelves[j]);
        }
    }
}

proof fn lemma_one_shelf_count(shelves: Seq<Shelf>, k: int)
    requires
        0 <= k < shelves.len(),
        forall|j: int| 0 <= j < shelves.len() && j != k ==> (#[trigger] shelves[j]).len() == 0,
    ensures
        mem_model::total_count(shelves) == shelves[k].len(),
    decreases shelves.len(),
{
    if k == shelves.len() - 1 {
        mem_model::lemma_empty_totals(shelves.drop_last());
    } else {
        lemma_one_shelf_count(shelves.drop_last(), k);
        assert(shelves.last().len() == 0);
    }
}

/// Evicting takes the oldest bundles of each shelf, keeps the latest used one of the first shelf,
/// and goes on until the store is within its capacity or holds no more bundles than are kept
/// anyway.
pub proof fn lemma_evicted_from(v: MemView, k: int)
    requires
        v.shelves.len() == SHARD_COUNT,
        0 <= k < SHARD_COUNT,
        v.floor > 0,
        v.shelves[k].len() > 0,
        v.used() <= usize::MAX,
    ensures
        ({
            let r = v.evicted_from(k);
            &&& same_terms(r, v)
            &&& oldest_gone(v.shelves, r.shelves)
            &&& r.shelves[k].len() > 0
            &&& !r.over()
            &&& !v.over() ==> r == v
            &&& r.used() <= v.used()
            &&& r.count() <= v.count()
            &&& r == v || r.count() >= v.floor
            &&& r == v || last_one_needed(r)
        }),
{
    reveal(MemView::evicted_from);
    let one = v.trimmed(k, 1);
    lemma_trimmed(v, k, 1);
    lemma_trimmed_after(one, k, 1);
    let r = v.evicted_from(k);
    lemma_oldest_gone_transitive(v.shelves, one.shelves, r.shelves);
    if r.over() {
        assert(one.over());
        assert(r.shelves[k].len() <= 1);
        assert forall|j: int| 0 <= j < r.shelves.len() && j != k implies (
        #[trigger] r.shelves[j]).len() == 0 by {
            let o = if j > k {
                j - k
            } else {
                j - k + SHARD_COUNT
            };
            lemma_wrap(k, o);
            assert((k + o) % SHARD_COUNT as int == j);
            assert(r.shelves[(k + o) % SHARD_COUNT as int].len() == 0);
        }
        lemma_one_shelf_count(r.shelves, k);
    }
    if one != v {
        assert(one.count() >= v.floor);
    }
}

/// Putting a bundle under a name, before others make room.
pub proof fn lemma_shelved(v: MemView, name: Seq<char>, time: i128, data: Seq<u8>)
    requires
        v.in_place(),
        0 <= shard::shard_of(name) < SHARD_COUNT,
    ensures
        ({
            let r = v.shelved(name, time, data);
            let k = shard::shard_of(name);
            &&& r.in_place()
            &&& r.shelves[k].len() > 0
            &&& r.shelves[k][0] == (name, (time, data))
            &&& r.used() == v.used() + data.len() - (match v.held(name) {
                Some((_, old)) => old.len() as int,
                None => 0,
            })
            &&& r.count() == v.count() + (if v.held(name) is Some {
                0int
            } else {
                1
            })
        }),
{
    let k = shard::shard_of(name);
    let shelf = v.shelves[k];
    let value = (time, data);
    let new = recency::with_latest(shelf, name, value);
    recency::lemma_index_of(shelf, name);
    recency::law_with_latest(shelf, name, value, name);
    let left = recency::without(shelf, name);
    mem_model::lemma_sizes_front((name, value), left);
    if recency::names(shelf, name) {
        mem_model::lemma_sizes_remove(shelf, recency::index_of(shelf, name));
    }
    mem_model::lemma_totals_update(v.shelves, k, new);
    let r = v.shelved(name, time, data);
    assert forall|j: int, i: int| 0 <= j < SHARD_COUNT && 0 <= i < r.shelves[j].len() implies shard::shard_of(
        (#[trigger] r.shelves[j][i]).0,
    ) == j by {
        if j == k {
            if i > 0 {
                let at = recency::index_of(shelf, name);
                let from = if recency::names(shelf, name) && i - 1 >= at {
                    i
                } else {
                    i - 1
                };
                assert(r.shelves[k][i] == left[i - 1]);
                assert(left[i - 1] == shelf[from]);
                assert(v.shelves[k][from] == shelf[from]);
            }
        } else {
            assert(r.shelves[j][i] == v.shelves[j][i]);
        }
    }
}

/// Taking the bundle under a name out.
pub proof fn lemma_unshelved(v: MemView, name: Seq<char>)
    requires
        v.in_place(),
        0 <= shard::shard_of(name) < SHARD_COUNT,
    ensures
        ({
            let r = v.unshelved(name);
            &&& r.in_place()
            &&& r.used() == v.used() - (match v.held(name) {
                Some((_, old)) => old.len() as int,
                None => 0,
            })
            &&& r.count() == v.count() - (if v.held(name) is Some {
                1int
            } else {
                0
            })
        }),
{
    let k = shard::shard_of(name);
    let shelf = v.shelves[k];
    let left = recency::without(shelf, name);
    recency::lemma_index_of(shelf, name);
    recency::law_without(shelf, name, name);
    if recency::names(shelf, name) {
        mem_model::lemma_sizes_remove(shelf, recency::index_of(shelf, name));
    }
    mem_model::lemma_totals_update(v.shelves, k, left);
    let r = v.unshelved(name);
    assert(r.shelves[k] == left);
    assert forall|i: int| 0 <= i < left.len() implies shard::shard_of((#[trigger] left[i]).0) == k by {
        let at = recency::index_of(shelf, name);
        let from = if recency::names(shelf, name) && i >= at {
            i + 1
        } else {
            i
        };
        assert(left[i] == shelf[from]);
        assert(v.shelves[k][from] == shelf[from]);
    }
    assert forall|j: int, i: int| 0 <= j < SHARD_COUNT && 0 <= i < r.shelves[j].len() implies shard::shard_of(
        (#[trigger] r.shelves[j][i]).0,
    ) == j by {
        if j == k {
            assert(r.shelves[j][i] == left[i]);
        } else {
            assert(r.shelves[j][i] == v.shelves[j][i]);
        }
    }
    assert forall|j: int| 0 <= j < SHARD_COUNT implies recency::distinct(#[trigger] r.shelves[j]) by {
        assert(j != k ==> r.shelves[j] == v.shelves[j]);
    }
}

/// Where the oldest bundles go, the others stay in their places.
pub proof fn lemma_oldest_gone_in_place(v: MemView, r: MemView)
    requires
        v.in_place(),
        oldest_gone(v.shelves, r.shelves),
    ensures
        r.in_place(),
{
    assert forall|k: int| 0 <= k < SHARD_COUNT implies recency::distinct(#[trigger] r.shelves[k]) by {
        recency::law_latest_kept(v.shelves[k], r.shelves[k].len() as int, Seq::empty());
    }
    assert forall|k: int, i: int| 0 <= k < SHARD_COUNT && 0 <= i < r.shelves[k].len() implies shard::shard_of(
        (#[trigger] r.shelves[k][i]).0,
    ) == k by {
        assert(r.shelves[k] == v.shelves[k].take(r.shelves[k].len() as int));
        assert(r.shelves[k][i] == v.shelves[k][i]);
    }
}

/// Checking the watermarks settles a store, if it tallied evictions only while near its capacity.
pub proof fn lemma_watermark_settles(v: MemView)
    requires
        !v.near ==> v.evicted_count == 0 && v.evicted_bytes == 0,
    ensures
        v.watermark_checked().settled(),
        v.watermark_checked().shelves == v.shelves,
        v.watermark_checked().capacity == v.capacity,
        v.watermark_checked().floor == v.floor,
{
}

/// Storing a bundle, up to where the watermarks are checked for the second time.
pub proof fn lemma_stored(v: MemView, name: Seq<char>, time: i128, data: Seq<u8>)
    requires
        v.wf(),
        v.fits(name, data.len() as int),
        0 <= shard::shard_of(name) < SHARD_COUNT,
    ensures
        ({
            let k = shard::shard_of(name);
            let shelved = v.shelved(name, time, data);
            let checked = shelved.watermark_checked();
            let evicted = checked.evicted_from(k);
            let r = v.stored(name, time, data);
            &&& shelved.in_place()
            &&& 0 <= shelved.used() <= usize::MAX
            &&& shelved.count() <= usize::MAX
            &&& shelved.shelves[k].len() > 0
            &&& shelved.shelves[k][0] == (name, (time, data))
            &&& oldest_gone(shelved.shelves, evicted.shelves)
            &&& evicted.shelves[k].len() > 0
            &&& !evicted.over()
            &&& !shelved.over() ==> evicted == checked
            &&& evicted == checked || evicted.count() >= v.floor
            &&& evicted == checked || last_one_needed(evicted)
            &&& r.shelves == evicted.shelves
            &&& r.capacity == v.capacity
            &&& r.floor == v.floor
            &&& r.wf()
        }),
{
    let k = shard::shard_of(name);
    let shelved = v.shelved(name, time, data);
    lemma_shelved(v, name, time, data);
    mem_model::lemma_totals_nonneg(shelved.shelves);
    let checked = shelved.watermark_checked();
    lemma_watermark_settles(shelved);
    assert(checked.used() == shelved.used());
    assert(checked.count() == shelved.count());
    lemma_evicted_from(checked, k);
    let evicted = checked.evicted_from(k);
    lemma_oldest_gone_in_place(checked, evicted);
    if !evicted.near {
        assert(!checked.over());
    }
    lemma_watermark_settles(evicted);
    let r = v.stored(name, time, data);
    assert(r.used() == evicted.used());
    assert(r.count() == evicted.count());
}

/// Every request leaves a store in order: each bundle under its own name and in its own part, the
/// watermarks settled, and evictions tallied only while the store is near its capacity.
pub proof fn law_requests_keep_order(
    v: MemView,
    name: Seq<char>,
    time: i128,
    data: Seq<u8>,
)
    requires
        v.wf(),
    ensures
        v.fits(name, data.len() as int) ==> v.stored(name, time, data).wf(),
        v.deleted(name).wf(),
        v.used_again(name).wf(),
{
    lemma_shard_in_range(name);
    if v.fits(name, data.len() as int) {
        lemma_stored(v, name, time, data);
    }
    lemma_deleted(v, name);
    lemma_used_again(v, name);
}

/// There is a part for every name.
pub proof fn lemma_shard_in_range(name: Seq<char>)
    ensures
        0 <= shard::shard_of(name) < SHARD_COUNT,
{
}

/// Deleting a bundle keeps a store in order.
pub proof fn lemma_deleted(v: MemView, name: Seq<char>)
    requires
        v.wf(),
    ensures
        v.deleted(name).wf(),
        v.deleted(name).shelves == v.unshelved(name).shelves,
{
    lemma_shard_in_range(name);
    let r = v.unshelved(name);
    lemma_unshelved(v, name);
    mem_model::lemma_totals_nonneg(r.shelves);
    lemma_watermark_settles(r);
    if v.held(name) is None {
        assert(r.shelves =~= v.shelves);
    } else {
        assert(v.deleted(name).used() == r.used());
        assert(v.deleted(name).count() == r.count());
    }
}

/// Using a bundle keeps a store in order.
pub proof fn lemma_used_again(v: MemView, name: Seq<char>)
    requires
        v.wf(),
    ensures
        v.used_again(name).wf(),
        v.used_again(name).used() == v.used(),
        v.used_again(name).count() == v.count(),
{
    lemma_shard_in_range(name);
    let k = shard::shard_of(name);
    recency::lemma_index_of(v.shelves[k], name);
    match v.held(name) {
        Some((time, data)) => {
            lemma_shelved(v, name, time, data);
            assert(v.used_again(name) == v.shelved(name, time, data));
        },
        None => {
            assert(v.used_again(name).shelves =~= v.shelves);
        },
    }
}

/// A bundle that was just stored can be read back, whatever had to make room for it, even where
/// it alone is larger than the store's capacity.
pub proof fn law_stored_is_held(v: MemView, name: Seq<char>, time: i128, data: Seq<u8>)
    requires
        v.wf(),
        v.fits(name, data.len() as int),
    ensures
        v.stored(name, time, data).held(name) == Some((time, data)),
{
    lemma_shard_in_range(name);
    lemma_stored(v, name, time, data);
    let k = shard::shard_of(name);
    let r = v.stored(name, time, data);
    let shelved = v.shelved(name, time, data);
    assert(r.shelves[k] == shelved.shelves[k].take(r.shelves[k].len() as int));
    assert(r.shelves[k][0] == (name, (time, data)));
}

/// Storing a bundle changes no other: what was held under another name is still held, or was
/// evicted.
pub proof fn law_others_kept_or_evicted(
    v: MemView,
    name: Seq<char>,
    time: i128,
    data: Seq<u8>,
    other: Seq<char>,
)
    requires
        v.wf(),
        v.fits(name, data.len() as int),
        other != name,
    ensures
        v.stored(name, time, data).held(other) is None || v.stored(name, time, data).held(other)
            == v.held(other),
{
    lemma_shard_in_range(name);
    lemma_shard_in_range(other);
    lemma_stored(v, name, time, data);
    let k = shard::shard_of(name);
    let o = shard::shard_of(other);
    let r = v.stored(name, time, data);
    let shelved = v.shelved(name, time, data);
    recency::law_with_latest(v.shelves[k], name, (time, data), other);
    assert(recency::value_of(shelved.shelves[o], other) == v.held(other));
    assert(r.shelves[o] == shelved.shelves[o].take(r.shelves[o].len() as int));
    recency::law_latest_kept(shelved.shelves[o], r.shelves[o].len() as int, other);
}

/// After a bundle is stored, the store is within its capacity, or holds no more bundles than it
/// keeps anyway.
pub proof fn law_capacity_enforced(v: MemView, name: Seq<char>, time: i128, data: Seq<u8>)
    requires
        v.wf(),
        v.fits(name, data.len() as int),
    ensures
        v.stored(name, time, data).used() <= v.capacity || v.stored(name, time, data).count()
            <= v.floor,
{
    lemma_shard_in_range(name);
    lemma_stored(v, name, time, data);
}

/// Nothing is evicted where the bundle fits or the store holds no more bundles than it keeps
/// anyway.
pub proof fn law_no_needless_eviction(
    v: MemView,
    name: Seq<char>,
    time: i128,
    data: Seq<u8>,
    other: Seq<char>,
)
    requires
        v.wf(),
        v.fits(name, data.len() as int),
        other != name,
        v.shelved(name, time, data).used() <= v.capacity || v.shelved(name, time, data).count()
            <= v.floor,
    ensures
        v.stored(name, time, data).held(other) == v.held(other),
{
    lemma_shard_in_range(name);
    lemma_shard_in_range(other);
    lemma_stored(v, name, time, data);
    let k = shard::shard_of(name);
    recency::law_with_latest(v.shelves[k], name, (time, data), other);
}

/// Evictions never leave fewer bundles than are to be kept, and the last one was needed: with it,
/// there would still be too much.
pub proof fn law_floor_kept(v: MemView, name: Seq<char>, time: i128, data: Seq<u8>)
    requires
        v.wf(),
        v.fits(name, data.len() as int),
    ensures
        ({
            let shelved = v.shelved(name, time, data);
            let checked = shelved.watermark_checked();
            let evicted = checked.evicted_from(shard::shard_of(name));
            &&& v.stored(name, time, data).shelves == evicted.shelves
            &&& evicted == checked || (evicted.count() >= v.floor && last_one_needed(evicted))
        }),
{
    lemma_shard_in_range(name);
    lemma_stored(v, name, time, data);
}

/// In each part of a store, the bundles that were used the longest ago go first.
pub proof fn law_oldest_go_first(v: MemView, name: Seq<char>, time: i128, data: Seq<u8>)
    requires
        v.wf(),
        v.fits(name, data.len() as int),
    ensures
        oldest_gone(
            v.shelved(name, time, data).shelves,
            v.stored(name, time, data).shelves,
        ),
{
    lemma_shard_in_range(name);
    lemma_stored(v, name, time, data);
}

/// A deleted bundle is gone, and all others are as they were.
pub proof fn law_deleted_is_gone(v: MemView, name: Seq<char>, other: Seq<char>)
    requires
        v.wf(),
    ensures
        v.deleted(name).held(other) == (if other == name {
            None
        } else {
            v.held(other)
        }),
{
    lemma_shard_in_range(name);
    lemma_shard_in_range(other);
    lemma_deleted(v, name);
    recency::law_without(v.shelves[shard::shard_of(name)], name, other);
}

/// Reading a bundle changes nothing that can be read.
pub proof fn law_reading_changes_nothing(v: MemView, name: Seq<char>, other: Seq<char>)
    requires
        v.wf(),
    ensures
        v.used_again(name).held(other) == v.held(other),
        v.used_again(name).used() == v.used(),
        v.used_again(name).count() == v.count(),
{
    lemma_shard_in_range(name);
    lemma_shard_in_range(other);
    lemma_used_again(v, name);
    recency::law_touched(v.shelves[shard::shard_of(name)], name, other);
}

/// Between the two watermarks, a store stays what it was: near its capacity or not.
pub proof fn law_watermarks_are_hysteretic(v: MemView)
    requires
        mem_model::low_watermark(v.capacity) <= v.used() < mem_model::high_watermark(v.capacity),
    ensures
        v.watermark_checked() == v,
{
}

/// A store that was near its capacity still is while it holds 90 percent of it, and one that was
/// not is once it holds 95 percent. One notice marks each crossing, and there is none without
/// one. The bundles are as they were, and checking again changes and tells nothing.
pub proof fn law_notices_mark_crossings(v: MemView)
    ensures
        ({
            let r = v.watermark_checked();
            &&& r.near == (if v.near {
                v.used() >= mem_model::low_watermark(v.capacity)
            } else {
                v.used() >= mem_model::high_watermark(v.capacity)
            })
            &&& r.near == v.near ==> r == v
            &&& r.near != v.near ==> {
                &&& r.events.len() == v.events.len() + 1
                &&& r.events.drop_last() == v.events
                &&& if r.near {
                    r.events.last() == (Event::NearlyFull { bytes: v.used() as usize })
                } else {
                    r.events.last() is NoLongerNearlyFull
                }
            }
            &&& r.shelves == v.shelves
            &&& r.used() == v.used()
            &&& r.watermark_checked() == r
        }),
{
    let r = v.watermark_checked();
    if r.near != v.near {
        assert(r.events.drop_last() =~= v.events);
    }
}

/// The end of a time near capacity is told with the evictions since its start, and the tallies
/// begin anew.
pub proof fn law_tally_told_and_reset(v: MemView)
    requires
        v.near,
        v.used() < mem_model::low_watermark(v.capacity),
    ensures
        v.watermark_checked().evicted_count == 0,
        v.watermark_checked().evicted_bytes == 0,
        !v.watermark_checked().near,
        v.watermark_checked().events == v.events.push(
            Event::NoLongerNearlyFull {
                bytes: v.used() as usize,
                evicted_count: v.evicted_count,
                evicted_bytes: v.evicted_bytes,
            },
        ),
{
}

/// Where there is room for a bundle under a new name, it also fits in the place of another.
pub proof fn law_room_is_enough(v: MemView, name: Seq<char>, len: int)
    requires
        v.wf(),
        v.has_room(len),
    ensures
        v.fits(name, len),
{
}

/// The names in the first parts.
pub proof fn lemma_all_names(v: MemView, n: int)
    requires
        v.in_place(),
        0 <= n <= SHARD_COUNT,
    ensures
        ({
            let all = mem_model::all_names(v.shelves.take(n));
            &&& all.len() == mem_model::total_count(v.shelves.take(n))
            &&& forall|i: int, j: int|
                0 <= i < j < all.len() ==> (#[trigger] all[i]).0 != (#[trigger] all[j]).0
            &&& forall|i: int|
                0 <= i < all.len() ==> {
                    &&& 0 <= shard::shard_of((#[trigger] all[i]).0) < n
                    &&& v.held(all[i].0) matches Some((time, _)) && time == all[i].1
                }
            &&& forall|k: int, i: int|
                0 <= k < n && 0 <= i < v.shelves[k].len() ==> all.contains(
                    ((#[trigger] v.shelves[k][i]).0, v.shelves[k][i].1.0),
                )
        }),
    decreases n,
{
    if n == 0 {
        assert(v.shelves.take(0) =~= Seq::empty());
    } else {
        lemma_all_names(v, n - 1);
        let shelf = v.shelves[n - 1];
        let earlier = mem_model::all_names(v.shelves.take(n - 1));
        let here = shelf.map_values(|item: (Seq<char>, (i128, Seq<u8>))| (item.0, item.1.0));
        let all = mem_model::all_names(v.shelves.take(n));
        assert(v.shelves.take(n).drop_last() =~= v.shelves.take(n - 1));
        assert(all == earlier + here);
        assert forall|i: int| earlier.len() <= i < all.len() implies {
            &&& shard::shard_of((#[trigger] all[i]).0) == n - 1
            &&& v.held(all[i].0) matches Some((time, _)) && time == all[i].1
        } by {
            let at = i - earlier.len();
            assert(all[i] == here[at]);
            assert(shard::shard_of(v.shelves[n - 1][at].0) == n - 1);
            recency::lemma_found_at(shelf, at);
        }
        assert forall|i: int, j: int| 0 <= i < j < all.len() implies (#[trigger] all[i]).0 != (
        #[trigger] all[j]).0 by {
            if i < earlier.len() {
                assert(all[i] == earlier[i]);
                if j < earlier.len() {
                    assert(all[j] == earlier[j]);
                }
            } else {
                assert(all[i] == here[i - earlier.len()]);
                assert(all[j] == here[j - earlier.len()]);
                assert(shelf[i - earlier.len()].0 != shelf[j - earlier.len()].0);
            }
        }
        assert forall|i: int| 0 <= i < all.len() implies {
            &&& 0 <= shard::shard_of((#[trigger] all[i]).0) < n
            &&& v.held(all[i].0) matches Some((time, _)) && time == all[i].1
        } by {
            if i < earlier.len() {
                assert(all[i] == earlier[i]);
            }
        }
        assert forall|k: int, i: int| 0 <= k < n && 0 <= i < v.shelves[k].len() implies all.contains(
            ((#[trigger] v.shelves[k][i]).0, v.shelves[k][i].1.0),
        ) by {
            let x = (v.shelves[k][i].0, v.shelves[k][i].1.0);
            if k < n - 1 {
                assert(earlier.contains(x));
                let at = choose|at: int| 0 <= at < earlier.len() && earlier[at] == x;
                assert(all[at] == x);
            } else {
                assert(here[i] == x);
                assert(all[earlier.len() + i] == x);
            }
        }
    }
}

/// Recovery lists every bundle that is held, once, with the time it was stored, and nothing else.
pub proof fn law_recovery_lists_each_once(v: MemView, name: Seq<char>)
    requires
        v.wf(),
    ensures
        ({
            let all = mem_model::all_names(v.shelves);
            &&& all.len() == v.count()
            &&& forall|i: int, j: int|
                0 <= i < j < all.len() ==> (#[trigger] all[i]).0 != (#[trigger] all[j]).0
            &&& forall|time: i128| #[trigger]
                all.contains((name, time)) <==> (v.held(name) matches Some((t, _)) && t == time)
        }),
{
    lemma_shard_in_range(name);
    lemma_all_names(v, SHARD_COUNT as int);
    assert(v.shelves.take(SHARD_COUNT as int) =~= v.shelves);
    let all = mem_model::all_names(v.shelves);
    let k = shard::shard_of(name);
    recency::lemma_index_of(v.shelves[k], name);
    assert forall|time: i128| #[trigger] all.contains((name, time)) <==> (v.held(name) matches Some(
        (t, _),
    ) && t == time) by {
        if all.contains((name, time)) {
            let i = choose|i: int| 0 <= i < all.len() && all[i] == (name, time);
            assert(all[i].0 == name);
        }
        if v.held(name) matches Some((t, _)) && t == time {
            let at = recency::index_of(v.shelves[k], name);
            assert(all.contains((v.shelves[k][at].0, v.shelves[k][at].1.0)));
        }
    }
}

/// A store holds no more names than bundles.
pub proof fn law_no_more_names_than_bundles(v: MemView, listed: Seq<Seq<char>>)
    requires
        v.wf(),
        listed.no_duplicates(),
        forall|i: int| 0 <= i < listed.len() ==> v.held(#[trigger] listed[i]) is Some,
    ensures
        listed.len() <= v.count(),
{
    lemma_all_names(v, SHARD_COUNT as int);
    assert(v.shelves.take(SHARD_COUNT as int) =~= v.shelves);
    let all = mem_model::all_names(v.shelves);
    let held = all.map_values(|item: (Seq<char>, i128)| item.0);
    assert(held.no_duplicates()) by {
        assert forall|i: int, j: int| 0 <= i < held.len() && 0 <= j < held.len() && i
            != j implies held[i] != held[j] by {
            if i < j {
                assert(all[i].0 != all[j].0);
            } else {
                assert(all[j].0 != all[i].0);
            }
        }
    }
    assert forall|name: Seq<char>| listed.to_set().contains(name) implies held.to_set().contains(
        name,
    ) by {
        let i = choose|i: int| 0 <= i < listed.len() && listed[i] == name;
        assert(v.held(listed[i]) is Some);
        law_recovery_lists_each_once(v, name);
        let (time, _) = v.held(name)->0;
        assert(all.contains((name, time)));
        let k = choose|k: int| 0 <= k < all.len() && all[k] == (name, time);
        assert(held[k] == name);
    }
    listed.unique_seq_to_set();
    held.unique_seq_to_set();
    vstd::seq_lib::seq_to_set_is_finite(held);
    vstd::set_lib::lemma_len_subset(listed.to_set(), held.to_set());
}

/// Where as many numbered names are taken as there are bundles, the next one is free.
pub proof fn lemma_numbered_name_free(v: MemView)
    requires
        v.wf(),
        forall|m: nat| m < v.count() ==> v.held(#[trigger] naming::numbered(m)) is Some,
    ensures
        v.held(naming::numbered(v.count() as nat)) is None,
{
    let n = v.count() as nat;
    mem_model::lemma_totals_nonneg(v.shelves);
    if v.held(naming::numbered(n)) is Some {
        let listed = Seq::new((n + 1) as nat, |i: int| naming::numbered(i as nat));
        assert forall|i: int, j: int| 0 <= i < listed.len() && 0 <= j < listed.len() && i
            != j implies listed[i] != listed[j] by {
            naming::law_numbered_names(i as nat, j as nat);
        }
        assert forall|i: int| 0 <= i < listed.len() implies v.held(#[trigger] listed[i]) is Some by {
            assert(listed[i] == naming::numbered(i as nat));
        }
        law_no_more_names_than_bundles(v, listed);
    }
}

/// A bundle that is saved under a new name is read back, each other one is as it was or was
/// evicted, and none was evicted where the new one fits within the capacity.
pub proof fn law_saved_under_new_name(
    v: MemView,
    name: Seq<char>,
    time: i128,
    data: Seq<u8>,
    other: Seq<char>,
)
    requires
        v.wf(),
        v.has_room(data.len() as int),
        v.held(name) is None,
        other != name,
    ensures
        ({
            let r = v.stored(name, time, data);
            &&& r.held(name) == Some((time, data))
            &&& r.held(other) == v.held(other) || r.held(other) is None
            &&& v.used() + data.len() <= v.capacity ==> r.held(other) == v.held(other)
            &&& v.used() + data.len() <= v.capacity ==> r.used() == v.used() + data.len()
        }),
{
    lemma_shard_in_range(name);
    lemma_shelved(v, name, time, data);
    lemma_stored(v, name, time, data);
    law_stored_is_held(v, name, time, data);
    law_others_kept_or_evicted(v, name, time, data, other);
    if v.used() + data.len() <= v.capacity {
        law_no_needless_eviction(v, name, time, data, other);
        assert(v.stored(name, time, data).used() == v.shelved(name, time, data).used());
    }
}

/// A request that changes a store.
pub enum Request {
    /// A bundle is saved or replaced.
    Store { name: Seq<char>, time: i128, data: Seq<u8> },
    /// A bundle is deleted.
    Delete { name: Seq<char> },
    /// A bundle is loaded.
    Load { name: Seq<char> },
}

impl Request {
    /// The bundle, if there is one, can be counted.
    pub open spec fn acceptable(self, v: MemView) -> bool {
        match self {
            Request::Store { name, time, data } => v.fits(name, data.len() as int),
            _ => true,
        }
    }

    /// The state after the request.
    pub open spec fn applied(self, v: MemView) -> MemView {
        match self {
            Request::Store { name, time, data } => v.stored(name, time, data),
            Request::Delete { name } => v.deleted(name),
            Request::Load { name } => v.used_again(name),
        }
    }
}

/// The state after several requests.
pub open spec fn after(v: MemView, requests: Seq<Request>) -> MemView
    decreases requests.len(),
{
    if requests.len() == 0 {
        v
    } else {
        requests.last().applied(after(v, requests.drop_last()))
    }
}

/// Each request is acceptable when its turn comes.
pub open spec fn all_acceptable(v: MemView, requests: Seq<Request>) -> bool
    decreases requests.len(),
{
    requests.len() == 0 || {
        &&& all_acceptable(v, requests.drop_last())
        &&& requests.last().acceptable(after(v, requests.drop_last()))
    }
}

/// Any number of requests leave a store in order, with the limits that it was made with.
pub proof fn law_any_requests_keep_order(v: MemView, requests: Seq<Request>)
    requires
        v.wf(),
        all_acceptable(v, requests),
    ensures
        after(v, requests).wf(),
        after(v, requests).capacity == v.capacity,
        after(v, requests).floor == v.floor,
    decreases requests.len(),
{
    if requests.len() > 0 {
        let before = after(v, requests.drop_last());
        law_any_requests_keep_order(v, requests.drop_last());
        match requests.last() {
            Request::Store { name, time, data } => {
                lemma_shard_in_range(name);
                lemma_stored(before, name, time, data);
            },
            Request::Delete { name } => {
                lemma_deleted(before, name);
            },
            Request::Load { name } => {
                lemma_used_again(before, name);
            },
        }
    }
}

/// Where no more than one bundle is to be kept whatever its size, then after any requests that
/// end with a bundle being stored, a new store is within its capacity, unless that bundle is the
/// only one in it.
pub proof fn law_only_the_last_may_exceed(
    capacity: usize,
    min_bundles: usize,
    requests: Seq<Request>,
    name: Seq<char>,
    time: i128,
    data: Seq<u8>,
    other: Seq<char>,
)
    requires
        capacity > 0,
        min_bundles <= 1,
        all_acceptable(
            MemView::empty(capacity, min_bundles),
            requests.push(Request::Store { name, time, data }),
        ),
        other != name,
    ensures
        ({
            let r = after(
                MemView::empty(capacity, min_bundles),
                requests.push(Request::Store { name, time, data }),
            );
            &&& r.held(name) == Some((time, data))
            &&& r.used() <= capacity || (r.count() == 1 && r.held(other) is None)
        }),
{
    let start = MemView::empty(capacity, min_bundles);
    let all = requests.push(Request::Store { name, time, data });
    assert(all.drop_last() =~= requests);
    mem_model::lemma_empty_totals(start.shelves);
    assert(start.wf());
    law_any_requests_keep_order(start, requests);
    law_any_requests_keep_order(start, all);
    let before = after(start, requests);
    let r = after(start, all);
    assert(r == before.stored(name, time, data));
    law_stored_is_held(before, name, time, data);
    law_capacity_enforced(before, name, time, data);
    if r.used() > capacity {
        let one = seq![name];
        assert(one[0] == name);
        law_no_more_names_than_bundles(r, one);
        if r.held(other) is Some {
            let two = seq![name, other];
            law_no_more_names_than_bundles(r, two);
        }
    }
}

/// Parts are drained in turn: where one of the parts that are trimmed after another loses a
/// bundle, those trimmed before it are empty.
pub proof fn law_parts_drained_in_turn(v: MemView, k: int, offset: int, m: int)
    requires
        v.shelves.len() == SHARD_COUNT,
        v.used() <= usize::MAX,
        0 <= k < SHARD_COUNT,
        1 <= offset <= m < SHARD_COUNT,
        v.trimmed_after(k, offset).shelves[(k + m) % SHARD_COUNT as int] != v.shelves[(k + m)
            % SHARD_COUNT as int],
    ensures
        forall|o: int|
            offset <= o < m ==> (#[trigger] v.trimmed_after(k, offset).shelves[(k + o)
                % SHARD_COUNT as int]).len() == 0,
    decreases m - offset,
{
    if offset < m {
        let at = (k + offset) % SHARD_COUNT as int;
        lemma_wrap(k, offset);
        lemma_wrap(k, m);
        let one = v.trimmed(at, 0);
        lemma_trimmed(v, at, 0);
        lemma_trimmed_after(one, k, offset + 1);
        let r = one.trimmed_after(k, offset + 1);
        assert(v.trimmed_after(k, offset) == r);
        assert(one.shelves[(k + m) % SHARD_COUNT as int] == v.shelves[(k + m)
            % SHARD_COUNT as int]);
        law_parts_drained_in_turn(one, k, offset + 1, m);
        assert forall|o: int| offset <= o < m implies (#[trigger] r.shelves[(k + o)
            % SHARD_COUNT as int]).len() == 0 by {
            if o == offset {
                assert(one.over());
                assert(one.shelves[at].len() == 0);
                assert(r.shelves[at].len() <= one.shelves[at].len());
            }
        }
    }
}

/// Another part than the one that was stored to loses a bundle only where that one is down to
/// the bundle used last, and the parts between the two are empty.
pub proof fn law_others_drained_last(v: MemView, k: int, m: int)
    requires
        v.shelves.len() == SHARD_COUNT,
        v.used() <= usize::MAX,
        0 <= k < SHARD_COUNT,
        1 <= m < SHARD_COUNT,
        v.evicted_from(k).shelves[(k + m) % SHARD_COUNT as int] != v.shelves[(k + m)
            % SHARD_COUNT as int],
    ensures
        v.evicted_from(k).shelves[k].len() <= 1,
        forall|o: int|
            1 <= o < m ==> (#[trigger] v.evicted_from(k).shelves[(k + o)
                % SHARD_COUNT as int]).len() == 0,
{
    reveal(MemView::evicted_from);
    let one = v.trimmed(k, 1);
    lemma_wrap(k, m);
    lemma_trimmed(v, k, 1);
    lemma_trimmed_after(one, k, 1);
    assert(one.shelves[(k + m) % SHARD_COUNT as int] == v.shelves[(k + m) % SHARD_COUNT as int]);
    assert(one.over());
    law_parts_drained_in_turn(one, k, 1, m);
}

} // verus!
