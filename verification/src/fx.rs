//! The hashed collections: an index map, whose entries keep an order of their own, and a hash set.

use core::hash::Hasher;

use rustc_hash::FxBuildHasher;
use rustc_hash::FxHasher;

use vstd::prelude::*;

verus! {

/// `indexmap::IndexMap`: a hash map whose entries have an order of their own.
#[verifier::external_type_specification]
#[verifier::external_body]
#[verifier::reject_recursive_types(K)]
#[verifier::reject_recursive_types(V)]
#[verifier::reject_recursive_types(S)]
pub struct ExIndexMap<K, V, S>(indexmap::IndexMap<K, V, S>);

/// `rustc_hash::FxBuildHasher`: makes the hasher that the collections share.
#[verifier::external_type_specification]
#[verifier::external_body]
pub struct ExFxBuildHasher(rustc_hash::FxBuildHasher);

pub type FxIndexMap<K, V> = indexmap::IndexMap<K, V, FxBuildHasher>;

/// The entries of an index map from keys to positions, in the map's order.
pub uninterp spec fn entries(
    map: indexmap::IndexMap<u128, usize, FxBuildHasher>,
) -> Seq<(u128, usize)>;

/// Entry `i` has key `key`.
pub open spec fn key_is_at<K>(s: Seq<(K, usize)>, key: K, i: int) -> bool {
    0 <= i < s.len() && s[i].0 == key
}

pub open spec fn has_key<K>(s: Seq<(K, usize)>, key: K) -> bool {
    exists|i: int| key_is_at(s, key, i)
}

/// No key occurs twice.
pub open spec fn distinct_keys<K>(s: Seq<(K, usize)>) -> bool {
    forall|i: int, j: int|
        0 <= i < j < s.len() ==> (#[trigger] s[i]).0 != (#[trigger] s[j]).0
}

/// `after` is `before` with `key` mapped to `value`: in place if the key is there, else at the end.
pub open spec fn inserted<K>(
    before: Seq<(K, usize)>,
    key: K,
    value: usize,
    after: Seq<(K, usize)>,
) -> bool {
    &&& has_key(before, key) ==> exists|i: int|
        #[trigger] key_is_at(before, key, i) && after == before.update(i, (key, value))
    &&& !has_key(before, key) ==> after == before.push((key, value))
}

/// `s` without entry `i`: the last entry takes its place.
pub open spec fn swap_removed(s: Seq<(u128, usize)>, i: int) -> Seq<(u128, usize)> {
    s.update(i, s.last()).drop_last()
}

/// `indexmap::IndexMap::with_hasher` makes a map without entries.
#[verifier::external_body]
pub(crate) fn new_index_map() -> (map: FxIndexMap<u128, usize>)
    ensures
        entries(map) == Seq::<(u128, usize)>::empty(),
{
    indexmap::IndexMap::with_hasher(FxBuildHasher)
}

/// `indexmap::IndexMap::insert`: a key that is there keeps its place and gets the new value, and
/// the old one is returned; a key that is not goes last. Keys stay distinct.
#[verifier::external_body]
pub(crate) fn index_map_insert(
    map: &mut FxIndexMap<u128, usize>,
    key: u128,
    value: usize,
) -> (replaced: Option<usize>)
    ensures
        inserted(entries(*old(map)), key, value, entries(*final(map))),
        replaced is Some == has_key(entries(*old(map)), key),
        replaced matches Some(v) ==> exists|i: int|
            #[trigger] key_is_at(entries(*old(map)), key, i) && entries(*old(map))[i].1 == v,
        distinct_keys(entries(*final(map))),
{
    map.insert(key, value)
}

/// `indexmap::IndexMap::get_index_of` finds the place of a key, if it is there.
#[verifier::external_body]
pub(crate) fn index_map_position(map: &FxIndexMap<u128, usize>, key: u128) -> (at: Option<usize>)
    ensures
        at is Some == has_key(entries(*map), key),
        at matches Some(i) ==> key_is_at(entries(*map), key, i as int),
{
    map.get_index_of(&key)
}

/// `indexmap::IndexMap::get_index` reads the entry at a place, if there is one.
#[verifier::external_body]
pub(crate) fn index_map_at(map: &FxIndexMap<u128, usize>, i: usize) -> (entry: Option<(u128, usize)>)
    ensures
        entry == (if i < entries(*map).len() {
            Some(entries(*map)[i as int])
        } else {
            None
        }),
{
    map.get_index(i).map(|entry| (*entry.0, *entry.1))
}

/// `indexmap::IndexMap::swap_remove` takes a key's entry out, if it is there, and puts the last
/// entry in its place.
#[verifier::external_body]
pub(crate) fn index_map_swap_remove(
    map: &mut FxIndexMap<u128, usize>,
    key: u128,
) -> (removed: Option<usize>)
    ensures
        removed is Some == has_key(entries(*old(map)), key),
        removed matches Some(v) ==> exists|i: int|
            {
                &&& #[trigger] key_is_at(entries(*old(map)), key, i)
                &&& entries(*old(map))[i].1 == v
                &&& entries(*final(map)) == swap_removed(entries(*old(map)), i)
            },
        removed is None ==> entries(*final(map)) == entries(*old(map)),
{
    map.swap_remove(&key)
}

/// The entries of an index map from texts to positions, in the map's order.
pub uninterp spec fn text_entries(
    map: indexmap::IndexMap<String, usize, FxBuildHasher>,
) -> Seq<(Seq<char>, usize)>;

/// `indexmap::IndexMap::with_hasher` makes a map without entries.
#[verifier::external_body]
pub(crate) fn new_text_index() -> (map: FxIndexMap<String, usize>)
    ensures
        text_entries(map) == Seq::<(Seq<char>, usize)>::empty(),
{
    indexmap::IndexMap::with_hasher(FxBuildHasher)
}

/// `indexmap::IndexMap::insert`: a key that is there keeps its place and gets the new value, and
/// the old one is returned; a key that is not goes last. Keys stay distinct.
#[verifier::external_body]
pub(crate) fn text_index_insert(
    map: &mut FxIndexMap<String, usize>,
    key: String,
    value: usize,
) -> (replaced: Option<usize>)
    ensures
        inserted(text_entries(*old(map)), key@, value, text_entries(*final(map))),
        replaced is Some == has_key(text_entries(*old(map)), key@),
        replaced matches Some(v) ==> exists|i: int|
            #[trigger] key_is_at(text_entries(*old(map)), key@, i) && text_entries(*old(map))[i].1
                == v,
        distinct_keys(text_entries(*final(map))),
{
    map.insert(key, value)
}

/// `indexmap::IndexMap::get_index_of` finds the place of a key, if it is there.
#[verifier::external_body]
pub(crate) fn text_index_position(map: &FxIndexMap<String, usize>, key: &str) -> (at: Option<usize>)
    ensures
        at is Some == has_key(text_entries(*map), key@),
        at matches Some(i) ==> key_is_at(text_entries(*map), key@, i as int),
{
    map.get_index_of(key)
}

/// `indexmap::IndexMap::get_index` reads the entry at a place, if there is one; its key is handed
/// out.
#[verifier::external_body]
pub(crate) fn text_index_key(map: &FxIndexMap<String, usize>, i: usize) -> (key: Option<&String>)
    ensures
        key is Some == (i < text_entries(*map).len()),
        key matches Some(k) ==> k@ == text_entries(*map)[i as int].0,
{
    map.get_index(i).map(|entry| entry.0)
}

/// A `hashbrown::HashSet` of numbers.
#[verifier::external_body]
pub struct FxHashSet {
    set: hashbrown::HashSet<u128, FxBuildHasher>,
}

/// The numbers in the set.
pub uninterp spec fn members(set: FxHashSet) -> Set<u128>;

/// `hashbrown::HashSet::with_hasher` makes a set without members.
#[verifier::external_body]
pub fn fx_hash_set() -> (set: FxHashSet)
    ensures
        members(set) == Set::<u128>::empty(),
{
    FxHashSet { set: hashbrown::HashSet::with_hasher(FxBuildHasher) }
}

/// `hashbrown::HashSet::insert` adds a number, and answers whether it was not there before.
#[verifier::external_body]
pub(crate) fn hash_set_insert(set: &mut FxHashSet, member: u128) -> (added: bool)
    ensures
        added == !members(*old(set)).contains(member),
        members(*final(set)) == members(*old(set)).insert(member),
{
    set.set.insert(member)
}

/// `hashbrown::HashSet::extend` adds every number of another set.
#[verifier::external_body]
pub(crate) fn hash_set_extend(set: &mut FxHashSet, other: &FxHashSet)
    ensures
        members(*final(set)) == members(*old(set)).union(members(*other)),
{
    set.set.extend(&other.set)
}

/// `hashbrown::HashSet::is_empty` answers whether the set has no members.
#[verifier::external_body]
pub(crate) fn hash_set_is_empty(set: &FxHashSet) -> (yes: bool)
    ensures
        yes == (members(*set) == Set::<u128>::empty()),
{
    set.set.is_empty()
}

/// `hashbrown::HashSet::contains` answers whether a number is in the set.
#[verifier::external_body]
pub(crate) fn hash_set_contains(set: &FxHashSet, member: u128) -> (yes: bool)
    ensures
        yes == members(*set).contains(member),
{
    set.set.contains(&member)
}

/// The state of the hasher once a word of `bits` bits was added: the sum, times a constant.
pub open spec fn fx_mixed(state: nat, word: nat, bits: nat) -> nat {
    if bits == 64 {
        (((state + word) * 0xf135_7aea_2e62_a9c5) % 0x1_0000_0000_0000_0000) as nat
    } else {
        (((state + word) * 0x93d7_65dd) % 0x1_0000_0000) as nat
    }
}

/// The hash of a number on a machine with words of `bits` bits: its words are added one by one, the
/// lowest first, and the state is rotated at the end.
pub open spec fn fx_hash(n: nat, bits: nat) -> nat {
    if bits == 64 {
        let state = fx_mixed(
            fx_mixed(0, n % 0x1_0000_0000_0000_0000, 64),
            n / 0x1_0000_0000_0000_0000,
            64,
        );
        (state * 0x400_0000) % 0x1_0000_0000_0000_0000 + state / 0x40_0000_0000
    } else {
        let one = fx_mixed(0, n % 0x1_0000_0000, 32);
        let two = fx_mixed(one, n / 0x1_0000_0000 % 0x1_0000_0000, 32);
        let three = fx_mixed(two, n / 0x1_0000_0000_0000_0000 % 0x1_0000_0000, 32);
        let state = fx_mixed(three, n / 0x1_0000_0000_0000_0000_0000_0000, 32);
        (state * 0x8000) % 0x1_0000_0000 + state / 0x2_0000
    }
}

/// `rustc_hash::FxHasher`, fed one number: its hash depends on the number and on how wide the
/// machine's words are.
#[verifier::external_body]
pub fn make_hash(val: u128) -> (hash: u64)
    ensures
        hash == fx_hash(val as nat, usize::BITS as nat),
{
    let mut state = FxHasher::default();
    state.write_u128(val);
    state.finish()
}

/// A `hashbrown::HashTable` of keys and what they map to.
#[verifier::external_body]
pub struct FxHashTable {
    table: hashbrown::HashTable<(u128, u64)>,
}

/// What the table maps its keys to.
pub uninterp spec fn table_map(table: FxHashTable) -> Map<u128, u64>;

/// The map without entries.
pub open spec fn no_entries() -> Map<u128, u64> {
    Map::empty()
}

/// `hashbrown::HashTable::with_capacity` makes a table without entries. With a capacity up to this
/// bound, rounded up as the table does, what it allocates stays below half the address space; far
/// above it the call panics.
#[verifier::external_body]
pub(crate) fn hash_table_with_capacity(capacity: usize) -> (table: FxHashTable)
    requires
        capacity <= usize::MAX / 256,
    ensures
        table_map(table) == no_entries(),
{
    FxHashTable { table: hashbrown::HashTable::with_capacity(capacity) }
}

/// The entry has this key.
pub(crate) fn entry_has_key(entry: &(u128, u64), key: u128) -> (yes: bool)
    ensures
        yes == (entry.0 == key),
{
    entry.0 == key
}

/// What the entry maps its key to.
pub(crate) fn entry_value(entry: &(u128, u64)) -> (value: u64)
    ensures
        value == entry.1,
{
    entry.1
}

/// The hash of the entry's key.
pub(crate) fn entry_hash(entry: &(u128, u64)) -> (hash: u64)
    ensures
        hash == fx_hash(entry.0 as nat, usize::BITS as nat),
{
    make_hash(entry.0)
}

/// `hashbrown::HashTable::find` finds the entry of a key, given the key's hash.
#[verifier::external_body]
pub(crate) fn hash_table_find(table: &FxHashTable, hash: u64, key: u128) -> (value: Option<u64>)
    requires
        hash == fx_hash(key as nat, usize::BITS as nat),
    ensures
        value == (if table_map(*table).contains_key(key) {
            Some(table_map(*table)[key])
        } else {
            None
        }),
{
    table.table.find(hash, |entry| entry_has_key(entry, key)).map(|entry| entry_value(entry))
}

/// `hashbrown::HashTable::insert_unique` adds the entry of a key that is not there, given the key's
/// hash.
#[verifier::external_body]
pub(crate) fn hash_table_insert_unique(
    table: &mut FxHashTable,
    hash: u64,
    key: u128,
    value: u64,
)
    requires
        hash == fx_hash(key as nat, usize::BITS as nat),
        !table_map(*old(table)).contains_key(key),
    ensures
        table_map(*final(table)) == table_map(*old(table)).insert(key, value),
{
    table.table.insert_unique(hash, (key, value), |entry| entry_hash(entry));
}

/// The map has `n` entries.
pub open spec fn has_size(map: Map<u128, u64>, n: usize) -> bool {
    map.dom().finite() && map.dom().len() == n
}

/// `hashbrown::HashTable::len` counts the entries.
#[verifier::external_body]
pub(crate) fn hash_table_len(table: &FxHashTable) -> (n: usize)
    ensures
        has_size(table_map(*table), n),
{
    table.table.len()
}

} // verus!
