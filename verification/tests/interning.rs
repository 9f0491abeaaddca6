use frontend::intern::InternSet;
use frontend::intern::Interned;
use frontend::sharded::make_hash;
use frontend::sharded::shards;
use frontend::sharded::Sharded;
use frontend::sharded::ShardedHashMap;

#[test]
fn shards_of_serial_and_parallel_sessions() {
    assert_eq!(shards(false), 1);
    assert_eq!(shards(true), 32);
}

fn fx64(n: u128) -> u64 {
    let k: u64 = 0xf135_7aea_2e62_a9c5;
    let one = (n as u64).wrapping_mul(k);
    let two = one.wrapping_add((n >> 64) as u64).wrapping_mul(k);
    two.rotate_left(26)
}

#[test]
fn hashes_follow_the_formula() {
    assert_eq!(usize::BITS, 64);
    assert_eq!(make_hash(0), 0);
    for n in [1u128, 2, 77, 1 << 64, u128::MAX, (5 << 64) + 9] {
        assert_eq!(make_hash(n), fx64(n));
    }
}

#[test]
fn a_shard_is_picked_by_the_hash() {
    let mut sharded = Sharded::new(true, || 0u32);
    for n in 0..200u128 {
        *sharded.lock_shard_by_value(n) += 1;
    }
    let mut total = 0;
    for shard in sharded.lock_shards() {
        total += *shard;
    }
    assert_eq!(total, 200);
    let hash = make_hash(9);
    let index = (hash >> 52) as usize;
    assert_eq!(sharded.get_shard_by_hash(hash), sharded.get_shard_by_index(index));
    assert_eq!(sharded.get_shard_by_value(9), sharded.get_shard_by_index(index));
    *sharded.lock_shard_by_index(index + 32) = 1000;
    assert_eq!(*sharded.get_shard_by_value(9), 1000);
}

#[test]
fn a_serial_session_has_one_shard() {
    let sharded = Sharded::new(false, || 7u8);
    assert_eq!(sharded.lock_shards(), vec![&7]);
    assert_eq!(*sharded.get_shard_by_index(12), 7);
}

#[test]
fn a_sharded_map_finds_what_was_inserted() {
    for dyn_thread_safe in [false, true] {
        let mut map = ShardedHashMap::with_capacity(10, dyn_thread_safe);
        assert_eq!(map.len(), 0);
        for n in 0..100u128 {
            assert_eq!(map.get(n), None);
            map.insert_unique(n, n as u64 * 3);
        }
        assert_eq!(map.len(), 100);
        for n in 0..100u128 {
            assert_eq!(map.get(n), Some(n as u64 * 3));
        }
        assert_eq!(map.get(100), None);
        assert_eq!(map.get_or_insert_with(5, || 0), 15);
        assert_eq!(map.get_or_insert_with(200, || 1), 1);
        assert_eq!(map.get(200), Some(1));
        assert_eq!(map.intern(300, |v| v as u64 + 1), 301);
        assert_eq!(map.intern(300, |_| 0), 301);
        assert_eq!(map.intern_ref(301, || 9), 9);
        assert!(map.contains_pointer_to(301, 9));
        assert!(!map.contains_pointer_to(301, 8));
        assert!(!map.contains_pointer_to(999, 9));
        assert_eq!(map.len(), 103);
    }
}

fn key(content: u128, address: u64) -> Interned {
    Interned { address, content }
}

#[test]
fn equal_contents_get_the_same_key() {
    for dyn_thread_safe in [false, true] {
        let mut set: InternSet<Interned> = InternSet::with_capacity(4, dyn_thread_safe);
        for n in 0..3000u128 {
            let made = set.intern(n, |v| key(v, n as u64 + 1));
            assert_eq!(made.address, n as u64 + 1);
        }
        assert_eq!(set.len(), 3000);
        for n in 0..3000u128 {
            let again = set.intern_ref(n, || key(n, 0));
            assert_eq!(again.address, n as u64 + 1);
        }
        assert_eq!(set.len(), 3000);
        let mut all: Vec<u128> = set.for_each().iter().map(|k| k.content).collect();
        all.sort();
        assert_eq!(all, (0..3000).collect::<Vec<u128>>());
    }
}

#[test]
fn a_set_tells_addresses_apart() {
    let mut set: InternSet<Interned> = InternSet::with_capacity(100, false);
    assert!(!set.contains_pointer_to(&key(1, 10)));
    set.intern(1, |v| key(v, 10));
    assert!(set.contains_pointer_to(&key(1, 10)));
    assert!(!set.contains_pointer_to(&key(1, 11)));
    assert!(!set.contains_pointer_to(&key(2, 10)));
}

#[test]
fn a_miss_of_an_older_state_is_a_good_start() {
    let mut set: InternSet<Interned> = InternSet::with_capacity(0, false);
    let before_any = set.find(50).unwrap_err();
    set.intern(1, |v| key(v, 1));
    assert_eq!(set.find_locked(50, before_any), None);
    let early = set.find(50).unwrap_err();
    for n in 2..8u128 {
        set.intern(n, |v| key(v, v as u64));
    }
    assert_eq!(set.find_locked(50, early), None);
    set.intern(50, |v| key(v, 500));
    assert_eq!(set.find_locked(50, early).map(|k| k.address), Some(500));
    for n in 100..200u128 {
        set.intern(n, |v| key(v, v as u64));
    }
    assert_eq!(set.find_locked(50, early).map(|k| k.address), Some(500));
    assert_eq!(set.find_locked(50, before_any).map(|k| k.address), Some(500));
}
