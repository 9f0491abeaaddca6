use std::cmp::Ordering;
use std::collections::BTreeMap;
use std::collections::BTreeSet;
use std::marker::PhantomData;
use std::rc::Rc;
use std::sync::Arc;

use frontend::id_map::IdMap;
use frontend::stable_hash::address_cache_generation;
use frontend::stable_hash::bump_address_cache_generation;
use frontend::stable_hash::stable_hash_map;
use frontend::stable_hash::stable_hash_ordering;
use frontend::stable_hash::stable_hash_sorted_map;
use frontend::stable_hash::stable_hash_sorted_set;
use frontend::stable_hash::AddressCaches;
use frontend::stable_hash::Feed;
use frontend::stable_hash::RawDefId;
use frontend::stable_hash::RawSpan;
use frontend::stable_hash::StableHash;
use frontend::stable_hash::StableHashControls;
use frontend::stable_hash::StableHashCtxt;
use frontend::stable_hash::StableHasher;
use frontend::stable_hash::ToStableHashKey;
use frontend::stable_order::StableCompare;
use frontend::stable_order::StableOrd;

struct Context;

impl StableHashCtxt for Context {
    fn stable_hash_span(&mut self, span: RawSpan, hasher: &mut StableHasher) {
        hasher.write(Feed::U32(span.0));
    }

    fn def_path_hash(&self, def_id: RawDefId) -> u128 {
        def_id.0 as u128 * 100 + def_id.1 as u128
    }

    fn stable_hash_controls(&self) -> StableHashControls {
        StableHashControls { hash_spans: true }
    }
}

struct Definition(RawDefId);

impl ToStableHashKey for Definition {
    type KeyType = u128;

    fn to_stable_hash_key<Hcx: StableHashCtxt>(&self, hcx: &mut Hcx) -> u128 {
        hcx.def_path_hash(self.0)
    }
}

fn fed<T: StableHash>(value: T) -> Vec<Feed> {
    let mut hasher = StableHasher::new();
    value.stable_hash(&mut Context, &mut hasher);
    hasher.finish()
}

#[test]
fn numbers_feed_themselves() {
    assert_eq!(fed(3u8), vec![Feed::U8(3)]);
    assert_eq!(fed(3u16), vec![Feed::U16(3)]);
    assert_eq!(fed(3usize), vec![Feed::Usize(3)]);
    assert_eq!(fed(-3isize), vec![Feed::Isize(-3)]);
    assert_eq!(fed(-1i128), vec![Feed::I128(-1)]);
    assert_eq!(fed('a'), vec![Feed::U32(97)]);
    assert_eq!(fed(true), vec![Feed::U8(1)]);
    assert_eq!(fed(()), vec![]);
}

#[test]
fn compound_values_feed_their_parts() {
    assert_eq!(fed(Some(2u8)), vec![Feed::U8(1), Feed::U8(2)]);
    assert_eq!(fed(None::<u8>), vec![Feed::U8(0)]);
    assert_eq!(fed(Ok::<u8, u16>(2)), vec![Feed::Isize(0), Feed::U8(2)]);
    assert_eq!(fed(Err::<u8, u16>(2)), vec![Feed::Isize(1), Feed::U16(2)]);
    assert_eq!(fed((1u8, 2u16, 3u32)), vec![Feed::U8(1), Feed::U16(2), Feed::U32(3)]);
    assert_eq!(fed(vec![7u8, 8]), vec![Feed::Usize(2), Feed::U8(7), Feed::U8(8)]);
    assert_eq!(
        fed("aé".to_string()),
        vec![Feed::Usize(3), Feed::U8(0x61), Feed::U8(0xc3), Feed::U8(0xa9)]
    );
    assert_eq!(fed(Box::new(5u64)), vec![Feed::U64(5)]);
}

#[test]
fn different_values_feed_differently() {
    assert_ne!(fed((vec![1u8], vec![2u8, 3])), fed((vec![1u8, 2], vec![3u8])));
    assert_ne!(fed(("ab".to_string(), "c".to_string())), fed(("a".to_string(), "bc".to_string())));
    assert_ne!(fed((None::<u8>, Some(0u8))), fed((Some(0u8), None::<u8>)));
}

#[test]
fn maps_feed_their_entries_in_order() {
    let mut map: IdMap<u8> = IdMap::new();
    map.insert(9, 1);
    map.insert(4, 2);
    let mut hasher = StableHasher::new();
    stable_hash_map(&map, &mut Context, &mut hasher);
    assert_eq!(
        hasher.finish(),
        vec![Feed::Usize(2), Feed::U128(9), Feed::U8(1), Feed::U128(4), Feed::U8(2)]
    );
}

#[test]
fn shared_values_feed_what_they_hold() {
    assert_eq!(fed(&3u8), vec![Feed::U8(3)]);
    assert_eq!(fed(Rc::new(3u8)), vec![Feed::U8(3)]);
    assert_eq!(fed(Arc::new(3u8)), vec![Feed::U8(3)]);
    assert_eq!(fed(PhantomData::<u8>), vec![]);
    let mut hasher = StableHasher::new();
    stable_hash_ordering(Ordering::Less, &mut hasher);
    stable_hash_ordering(Ordering::Greater, &mut hasher);
    assert_eq!(hasher.finish(), vec![Feed::I8(-1), Feed::I8(1)]);
}

#[test]
fn sorted_collections_feed_in_order() {
    let mut map = BTreeMap::new();
    map.insert(9u64, 1u8);
    map.insert(4u64, 2u8);
    let mut hasher = StableHasher::new();
    stable_hash_sorted_map(&map, &mut Context, &mut hasher);
    assert_eq!(
        hasher.finish(),
        vec![Feed::Usize(2), Feed::U64(4), Feed::U8(2), Feed::U64(9), Feed::U8(1)]
    );
    let set: BTreeSet<u64> = map.into_keys().collect();
    let mut hasher = StableHasher::new();
    stable_hash_sorted_set(&set, &mut Context, &mut hasher);
    assert_eq!(hasher.finish(), vec![Feed::Usize(2), Feed::U64(4), Feed::U64(9)]);
}

fn text(s: &str) -> String {
    s.to_string()
}

#[test]
fn stable_orders() {
    assert_eq!(3u32.stable_cmp(&4), Ordering::Less);
    assert_eq!(true.stable_cmp(&false), Ordering::Greater);
    assert_eq!((1u32, 5u64).stable_cmp(&(1, 5)), Ordering::Equal);
    assert_eq!((1u32, 5u64).stable_cmp(&(1, 6)), Ordering::Less);
    assert_eq!((2u32, 5u64).stable_cmp(&(1, 6)), Ordering::Greater);
    assert_eq!(None.stable_cmp(&Some(0u64)), Ordering::Less);
    assert_eq!((-3i8).stable_cmp(&2), Ordering::Less);
    assert_eq!('b'.stable_cmp(&'a'), Ordering::Greater);
    assert_eq!(text("ab").stable_cmp(&text("b")), Ordering::Less);
    assert_eq!("b".stable_cmp(&"ab"), Ordering::Greater);
    assert_eq!((&3u8).stable_cmp(&&3), Ordering::Equal);
    assert_eq!((1u8, 2u16, 3usize).stable_cmp(&(1, 2, 4)), Ordering::Less);
    assert_eq!((1u8, 2u16, 3usize, 'x').stable_cmp(&(1, 2, 3, 'w')), Ordering::Greater);
    assert_eq!(().stable_cmp(&()), Ordering::Equal);
    assert!(<(u32, Option<bool>)>::can_use_unstable_sort());
    assert!(<(i64, String, char, isize)>::can_use_unstable_sort());
    assert_eq!(Definition(RawDefId(2, 3)).to_stable_hash_key(&mut Context), 203);
}

#[test]
fn a_bump_retires_what_was_cached() {
    let mut caches = AddressCaches::new();
    let filled_in = address_cache_generation(&caches);
    bump_address_cache_generation(&mut caches);
    assert_ne!(address_cache_generation(&caches), filled_in);
    assert_eq!(address_cache_generation(&caches), 1);
}
