use bpa::storage::bundle_mem::{BundleMemStorage, Config};
use bpa::storage::mem_model::Event;
use bpa::storage::naming::{numbered_name, NAME_LENGTH};
use bpa::storage::shard::{shard_index, SHARD_COUNT};
use bpa::storage::Bytes;
use rand::distr::{Alphanumeric, SampleString};
use rand::rngs::{SmallRng, SysRng};
use rand::SeedableRng;
use std::sync::Arc;

fn small_config(capacity: usize, min_bundles: usize) -> Config {
    Config {
        capacity,
        min_bundles,
    }
}

fn store(capacity: usize, min_bundles: usize) -> BundleMemStorage {
    BundleMemStorage::new(&small_config(capacity, min_bundles)).unwrap()
}

fn bytes(value: u8, len: usize) -> Bytes {
    Arc::new(vec![value; len])
}

/// Names that belong to one part of a store.
fn names_in(shard: usize, n: usize) -> Vec<String> {
    (0..)
        .map(|i| format!("name{i}"))
        .filter(|name| shard_index(name) == shard)
        .take(n)
        .collect()
}

// Basic save/load/delete cycle.
#[test]
fn test_basic_save_load_delete() {
    let mut storage = store(1000, 0);

    let name = storage.save(bytes(1, 50));
    assert!(storage.load(&name).is_some());

    storage.delete(&name);
    assert!(storage.load(&name).is_none());
}

// When capacity is exceeded, eviction occurs.
#[test]
fn test_eviction_occurs() {
    // Very small capacity to force eviction
    let mut storage = store(100, 0);

    let name1 = storage.save(bytes(1, 50));
    let name2 = storage.save(bytes(2, 50));
    // At capacity now
    let name3 = storage.save(bytes(3, 50));

    // At least one of the earlier bundles should be evicted
    let loaded1 = storage.load(&name1).is_some();
    let loaded2 = storage.load(&name2).is_some();
    let loaded3 = storage.load(&name3).is_some();

    // name3 (just saved) must survive
    assert!(loaded3, "The just-saved bundle must survive");
    // Total capacity is 100, we have 150 bytes of bundles:
    // at least one of the older ones must be gone
    assert!(
        !loaded1 || !loaded2,
        "At least one older bundle should be evicted"
    );
}

// Capacity values of more than 1TB are handled without overflow.
#[test]
fn test_large_quota_config() {
    let two_tb: usize = 2_000_000_000_000;
    let config = Config {
        capacity: two_tb,
        min_bundles: 0,
    };
    let storage = BundleMemStorage::new(&config).unwrap();
    assert_eq!(storage.max_capacity(), two_tb);
}

// A save must never evict the bundle it has just stored, even when that
// bundle alone exceeds the whole byte capacity.
#[test]
fn save_survives_its_own_eviction_pass() {
    let mut storage = store(100, 0);

    let _name1 = storage.save(bytes(1, 50));
    let name2 = storage.save(bytes(2, 150));

    assert!(
        storage.load(&name2).is_some(),
        "The just-saved bundle must survive its own eviction pass"
    );
}

// replace() must enforce the byte capacity.
#[test]
fn replace_updates_capacity() {
    let mut storage = store(1000, 0);

    let name = storage.save(bytes(1, 50));
    assert_eq!(storage.bytes(), 50);

    storage.replace(&name, bytes(2, 90));
    assert_eq!(storage.bytes(), 90);

    assert_eq!(storage.load(&name).unwrap().len(), 90);
}

// The watermark transitions are hysteretic.
#[test]
fn watermark_edges_are_hysteretic() {
    // capacity 1000: high watermark = 950 bytes, low watermark = 900
    let mut storage = store(1000, 1);

    let _name1 = storage.save(bytes(1, 500));
    let name2 = storage.save(bytes(2, 440));
    assert!(!storage.near_capacity(), "940 of 1000 is below 95%");

    let name3 = storage.save(bytes(3, 50));
    assert!(storage.near_capacity(), "990 of 1000 crosses 95%");

    // 940 bytes == inside the hysteresis band: still near capacity
    storage.delete(&name3);
    assert!(storage.near_capacity());

    // 500 bytes < 900 exits the episode
    storage.delete(&name2);
    assert!(!storage.near_capacity());
}

// Evictions during an episode are tallied and reset when it ends.
#[test]
fn exit_resets_episode_eviction_tally() {
    let mut storage = store(1000, 0);

    let _name1 = storage.save(bytes(1, 320));
    let _name2 = storage.save(bytes(2, 320));
    let _name3 = storage.save(bytes(3, 320));
    assert!(storage.near_capacity(), "960 of 1000 crosses 95%");

    // Force eviction: push over capacity
    let name4 = storage.save(bytes(4, 320));
    assert!(storage.evicted_count() >= 1);

    // Delete enough to drop below low watermark (900)
    storage.delete(&name4);
    // May need more deletions depending on what was evicted
    let used = storage.bytes();
    if used >= 900 {
        // Still above low watermark, delete more
        storage.delete(&_name3);
    }
    // Eventually should exit near-capacity
    let used = storage.bytes();
    if used < 900 {
        assert!(!storage.near_capacity());
        assert_eq!(storage.evicted_count(), 0, "tally consumed by the exit");
    }
}

// Shard distribution: different names go to different shards.
#[test]
fn shard_index_distributes() {
    let mut counts = [0u32; SHARD_COUNT];
    let mut rng = SmallRng::try_from_rng(&mut SysRng).unwrap();
    for _ in 0..1000 {
        let name = Alphanumeric.sample_string(&mut rng, 64);
        counts[shard_index(&name)] += 1;
    }
    // Each shard should get at least some entries (not all zero)
    for (i, &count) in counts.iter().enumerate() {
        assert!(
            count > 0,
            "Shard {i} got no entries — distribution is broken"
        );
    }
}

#[test]
fn shard_index_is_fnv1a_of_eight_bytes() {
    // The hash of nothing is 0xcbf29ce484222325, that of "a" is 0xaf63dc4c8601ec8c, and that of
    // "foobar" is 0x85944171f73967e8.
    assert_eq!(shard_index(""), 5);
    assert_eq!(shard_index("a"), 12);
    assert_eq!(shard_index("foobar"), 8);
    assert_eq!(shard_index("12345678"), shard_index("12345678 and more"));
}

#[test]
fn default_config() {
    let config = Config::default();
    assert_eq!(config.capacity, 256 * 1_048_576);
    assert_eq!(config.min_bundles, 32);
}

#[test]
fn saved_bundles_come_back_under_names_of_their_own() {
    let mut storage = store(100_000, 0);
    let mut names = Vec::new();
    for i in 0..200u8 {
        names.push(storage.save(bytes(i, 3)));
    }
    assert_eq!(storage.count(), 200);
    assert_eq!(storage.bytes(), 600);
    for (i, name) in names.iter().enumerate() {
        assert_eq!(name.len(), NAME_LENGTH);
        assert!(name.chars().all(|c| c.is_ascii_alphanumeric()));
        assert_eq!(storage.load(name), Some(bytes(i as u8, 3)));
    }
    let mut sorted = names.clone();
    sorted.sort();
    sorted.dedup();
    assert_eq!(sorted.len(), 200);
}

#[test]
fn recovery_lists_every_bundle_with_its_time() {
    let mut storage = store(1000, 0);
    let names = names_in(3, 2);
    let elsewhere = names_in(2, 1);
    assert!(storage.save_as(names[0].clone(), 10, bytes(1, 1)));
    assert!(storage.save_as(names[1].clone(), 20, bytes(2, 1)));
    assert!(storage.save_as(elsewhere[0].clone(), 30, bytes(3, 1)));
    assert_eq!(
        storage.recover(),
        vec![
            (elsewhere[0].clone(), 30),
            (names[1].clone(), 20),
            (names[0].clone(), 10),
        ]
    );
    // Loading makes a bundle the latest used.
    assert_eq!(storage.load(&names[0]), Some(bytes(1, 1)));
    assert_eq!(storage.recover()[1], (names[0].clone(), 10));
}

#[test]
fn the_clock_is_read() {
    let mut storage = store(1000, 0);
    let name = storage.save(bytes(1, 1));
    // After the year 2000, in nanoseconds.
    let saved = storage.recover()[0].1;
    assert!(saved > 946_684_800_000_000_000);
    storage.replace(&name, bytes(2, 1));
    assert!(storage.recover()[0].1 >= saved);
}

#[test]
fn a_taken_name_is_refused() {
    let mut storage = store(1000, 0);
    assert!(storage.save_as("x".to_string(), 1, bytes(1, 5)));
    assert!(!storage.save_as("x".to_string(), 2, bytes(2, 6)));
    assert_eq!(storage.load("x"), Some(bytes(1, 5)));
    assert_eq!(storage.bytes(), 5);
    assert_eq!(storage.recover(), vec![("x".to_string(), 1)]);
}

#[test]
fn replacing_what_is_not_there_saves_it() {
    let mut storage = store(1000, 0);
    storage.replace_at("y", 4, bytes(1, 7));
    assert_eq!(storage.load("y"), Some(bytes(1, 7)));
    assert_eq!((storage.bytes(), storage.count()), (7, 1));
    storage.replace_at("y", 5, bytes(2, 3));
    assert_eq!((storage.bytes(), storage.count()), (3, 1));
    assert_eq!(storage.recover(), vec![("y".to_string(), 5)]);
}

#[test]
fn deleting_what_is_not_there_does_nothing() {
    let mut storage = store(1000, 0);
    assert!(storage.save_as("x".to_string(), 1, bytes(1, 5)));
    storage.take_events();
    storage.delete("y");
    assert!(storage.take_events().is_empty());
    assert_eq!((storage.bytes(), storage.count()), (5, 1));
}

#[test]
fn the_oldest_of_a_part_goes_first() {
    let mut storage = store(100, 0);
    let names = names_in(0, 4);
    for (i, name) in names.iter().take(3).enumerate() {
        assert!(storage.save_as(name.clone(), i as i128, bytes(i as u8, 30)));
    }
    // The first one is used again, so the second is now the oldest.
    assert!(storage.load(&names[0]).is_some());
    assert!(storage.save_as(names[3].clone(), 9, bytes(9, 30)));
    assert!(storage.load(&names[0]).is_some());
    assert!(storage.load(&names[1]).is_none());
    assert!(storage.load(&names[2]).is_some());
    assert!(storage.load(&names[3]).is_some());
    assert_eq!(storage.bytes(), 90);
}

#[test]
fn eviction_spills_to_the_parts_after_it() {
    let mut storage = store(100, 0);
    let start = names_in(15, 1);
    let next = names_in(0, 1);
    let later = names_in(1, 1);
    assert!(storage.save_as(next[0].clone(), 1, bytes(1, 50)));
    assert!(storage.save_as(later[0].clone(), 2, bytes(2, 50)));
    assert!(storage.save_as(start[0].clone(), 3, bytes(3, 40)));
    assert!(storage.load(&next[0]).is_none());
    assert!(storage.load(&later[0]).is_some());
    assert!(storage.load(&start[0]).is_some());
    // A bundle that is too large by itself drains all others.
    assert!(storage.save_as(next[0].clone(), 4, bytes(4, 500)));
    assert_eq!((storage.bytes(), storage.count()), (500, 1));
    assert_eq!(storage.load(&next[0]), Some(bytes(4, 500)));
}

#[test]
fn a_number_of_bundles_is_kept_whatever_their_size() {
    let mut storage = store(100, 3);
    let mut names = Vec::new();
    for i in 0..3u8 {
        names.push(storage.save(bytes(i, 80)));
    }
    assert_eq!((storage.bytes(), storage.count()), (240, 3));
    for name in &names {
        assert!(storage.load(name).is_some());
    }
    storage.save(bytes(9, 80));
    assert_eq!((storage.bytes(), storage.count()), (240, 3));
    // None to be kept means one.
    let mut storage = store(100, 0);
    storage.save(bytes(1, 80));
    storage.save(bytes(2, 80));
    assert_eq!((storage.bytes(), storage.count()), (80, 1));
}

#[test]
fn what_happens_is_told() {
    let mut storage = store(1000, 0);
    let names = names_in(0, 4);
    assert!(storage.save_as(names[0].clone(), 1, bytes(1, 500)));
    assert_eq!(storage.take_events(), vec![Event::Usage { bytes: 500 }]);
    // 95 percent is reached.
    assert!(storage.save_as(names[1].clone(), 2, bytes(2, 450)));
    assert_eq!(
        storage.take_events(),
        vec![
            Event::NearlyFull { bytes: 950 },
            Event::Usage { bytes: 950 },
        ]
    );
    // Too much by 100: the oldest goes.
    assert!(storage.save_as(names[2].clone(), 3, bytes(3, 350)));
    assert_eq!(
        storage.take_events(),
        vec![
            Event::Evicted { bytes: 500 },
            Event::NoLongerNearlyFull {
                bytes: 800,
                evicted_count: 1,
                evicted_bytes: 500,
            },
            Event::Usage { bytes: 800 },
        ]
    );
    assert_eq!(storage.evicted_count(), 0);
    // 90 percent is not below 90 percent.
    assert!(storage.save_as(names[3].clone(), 4, bytes(4, 150)));
    storage.replace_at(&names[3], 5, bytes(4, 100));
    assert!(storage.near_capacity());
    storage.take_events();
    storage.replace_at(&names[3], 6, bytes(4, 99));
    assert_eq!(
        storage.take_events(),
        vec![
            Event::NoLongerNearlyFull {
                bytes: 899,
                evicted_count: 0,
                evicted_bytes: 0,
            },
            Event::Usage { bytes: 899 },
        ]
    );
}

#[test]
fn room_is_told() {
    let mut storage = store(1000, 0);
    assert!(storage.has_room(usize::MAX));
    storage.save(bytes(1, 1));
    assert!(!storage.has_room(usize::MAX));
    assert!(storage.has_room(usize::MAX - 1));
}

#[test]
fn generators_can_be_given() {
    let rngs: Vec<SmallRng> = (0..SHARD_COUNT as u64).map(SmallRng::seed_from_u64).collect();
    let mut storage = BundleMemStorage::with_rngs(&small_config(100, 0), rngs);
    let name = storage.save(bytes(1, 1));
    let mut rng = SmallRng::seed_from_u64(0);
    assert_eq!(name, Alphanumeric.sample_string(&mut rng, 64));
    assert!(storage.recover().len() == 1);
}

#[test]
fn names_that_differ_in_one_letter_spread() {
    for start in ["", "x", "abcdefg"] {
        let mut seen = [false; SHARD_COUNT];
        for letter in 'a'..='p' {
            let shard = shard_index(&format!("{start}{letter}"));
            assert!(!seen[shard]);
            seen[shard] = true;
        }
    }
}

#[test]
fn a_free_name_can_be_found_without_drawing() {
    assert_eq!(numbered_name(0), "0".repeat(64));
    assert_eq!(numbered_name(6), format!("011{}", "0".repeat(61)));
    let mut storage = store(1000, 0);
    for i in 0..5 {
        let name = storage.free_name();
        assert_eq!(name, numbered_name(i));
        assert_eq!(name.len(), NAME_LENGTH);
        assert!(storage.save_as(name, i as i128, bytes(1, 1)));
    }
    storage.delete(&numbered_name(2));
    assert_eq!(storage.free_name(), numbered_name(2));
}

#[test]
fn fitting_takes_the_place_of_another_into_account() {
    let mut storage = store(1000, 0);
    assert!(storage.save_as("x".to_string(), 1, bytes(1, 10)));
    assert!(storage.save_as("y".to_string(), 2, bytes(2, 5)));
    assert!(!storage.has_room(usize::MAX - 5));
    assert!(storage.fits("x", usize::MAX - 5));
    assert!(!storage.fits("x", usize::MAX - 4));
    assert!(!storage.fits("z", usize::MAX - 5));
    assert!(storage.fits("z", usize::MAX - 15));
    // Asking does not count as use.
    assert!(storage.save_as("w".to_string(), 3, bytes(3, 1)));
    let before = storage.recover();
    storage.fits("x", 1);
    assert_eq!(storage.recover(), before);
}

#[test]
fn checking_the_watermarks_again_tells_nothing() {
    let mut storage = store(1000, 0);
    storage.save(bytes(1, 960));
    assert!(storage.near_capacity());
    storage.take_events();
    storage.check_and_log_watermark();
    assert!(storage.near_capacity());
    assert!(storage.take_events().is_empty());
    assert_eq!(storage.bytes(), 960);
}

#[test]
fn only_the_bundle_stored_last_may_exceed_the_capacity() {
    for min_bundles in [0, 1] {
        let mut storage = store(100, min_bundles);
        let mut names = Vec::new();
        for i in 0..60usize {
            let name = storage.save(bytes(i as u8, (i * 37) % 140));
            assert!(storage.bytes() <= 100 || storage.count() == 1);
            assert_eq!(
                storage.load(&name),
                Some(bytes(i as u8, (i * 37) % 140))
            );
            names.push(name);
            if i % 4 == 0 {
                storage.delete(&names[i / 2]);
            }
            if i % 5 == 0 {
                storage.replace(&names[i / 3], bytes(7, i));
                assert!(storage.bytes() <= 100 || storage.count() == 1);
            }
            let total: usize = storage
                .recover()
                .iter()
                .map(|(n, _)| n.clone())
                .collect::<Vec<_>>()
                .iter()
                .map(|n| storage.load(n).unwrap().len())
                .sum();
            assert_eq!(total, storage.bytes());
        }
    }
}

#[test]
fn parts_are_drained_in_turn() {
    let mut storage = store(100, 0);
    let first = names_in(5, 3);
    let second = names_in(6, 2);
    let third = names_in(7, 2);
    for name in first.iter().take(2).chain(&second).chain(&third) {
        assert!(storage.save_as(name.clone(), 1, bytes(1, 10)));
    }
    // 60 bytes are held. What is too much goes from the part that was stored to first.
    assert!(storage.save_as(first[2].clone(), 2, bytes(2, 60)));
    let kept: Vec<bool> = first
        .iter()
        .chain(&second)
        .chain(&third)
        .map(|name| storage.load(name).is_some())
        .collect();
    assert_eq!(kept, [false, false, true, true, true, true, true]);
    // Then from the next one, and from the one after that only when the next one is empty.
    storage.replace_at(&first[2], 3, bytes(3, 75));
    assert_eq!(storage.bytes(), 95);
    assert!(storage.load(&second[0]).is_none() && storage.load(&second[1]).is_none());
    assert!(storage.load(&third[0]).is_some() && storage.load(&third[1]).is_some());
    storage.replace_at(&first[2], 4, bytes(4, 85));
    assert!(storage.load(&third[0]).is_none() && storage.load(&third[1]).is_some());
}
