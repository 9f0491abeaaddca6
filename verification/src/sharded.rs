//! Values that are cut into shards, so that several threads can work on them: a hash picks the shard.

use vstd::prelude::*;

use crate::fx::fx_hash;
use crate::fx::hash_table_find;
use crate::fx::hash_table_insert_unique;
use crate::fx::hash_table_len;
use crate::fx::hash_table_with_capacity;
use crate::fx::no_entries;
use crate::fx::table_map;
use crate::fx::FxHashTable;

pub use crate::fx::make_hash;

verus! {

/// How many shards there are in a parallel session.
pub const SHARDS: usize = 32;

/// How many shards there are.
pub open spec fn shard_count(dyn_thread_safe: bool) -> usize {
    if dyn_thread_safe {
        SHARDS
    } else {
        1
    }
}

/// How many shards there are: one in a serial session.
pub fn shards(dyn_thread_safe: bool) -> (n: usize)
    ensures
        n == shard_count(dyn_thread_safe),
{
    if dyn_thread_safe {
        SHARDS
    } else {
        1
    }
}

/// The bits of a hash that pick a shard. The hash table itself uses the seven highest bits, and
/// the lowest ones.
pub open spec fn shard_bits(hash: u64) -> u64 {
    hash >> ((usize::BITS - 12) as u64)
}

pub(crate) fn get_shard_hash(hash: u64) -> (bits: u64)
    ensures
        bits == shard_bits(hash),
{
    hash >> ((usize::BITS - 12) as u64)
}

/// The shard of a hash, among `n`.
pub open spec fn shard_of(hash: u64, n: usize) -> int {
    shard_bits(hash) as int % n as int
}

pub(crate) fn shard_at(hash: u64, n: usize) -> (at: usize)
    requires
        n > 0,
    ensures
        at == shard_of(hash, n),
        at < n,
{
    (get_shard_hash(hash) % (n as u64)) as usize
}

/// The hash of a key.
pub open spec fn hash_of(key: u128) -> u64 {
    fx_hash(key as nat, usize::BITS as nat) as u64
}

/// A rounded-up quotient.
pub open spec fn rounded_up(a: int, b: int) -> int {
    (a + b - 1) / b
}

pub(crate) fn div_ceil(a: usize, b: usize) -> (q: usize)
    requires
        b > 0,
    ensures
        q == rounded_up(a as int, b as int),
        q <= a,
{
    let whole = a / b;
    let rest = a % b;
    assert(rest == 0 || whole < a) by (nonlinear_arith)
        requires
            b > 0,
            whole == a / b,
            rest == a % b,
    ;
    let q = if rest == 0 {
        whole
    } else {
        whole + 1
    };
    proof {
        vstd::arithmetic::div_mod::lemma_fundamental_div_mod(a as int, b as int);
        assert(b * whole == whole * b && whole <= whole * b && (whole + 1) * b == whole * b + b)
            by (nonlinear_arith)
            requires
                b > 0,
                whole >= 0,
        ;
        vstd::arithmetic::div_mod::lemma_fundamental_div_mod_converse(
            a + b - 1,
            b as int,
            q as int,
            a + b - 1 - q * b,
        );
    }
    q
}

/// A value for each shard. A single one is used in a serial session.
pub enum Sharded<T> {
    Single(T),
    Shards(Vec<T>),
}

impl<T> Sharded<T> {
    /// There is one shard, or there are all of them.
    pub open spec fn wf(&self) -> bool {
        self matches Sharded::Shards(shards) ==> shards@.len() == SHARDS
    }

    /// How many shards there are.
    pub open spec fn count(&self) -> usize {
        match self {
            Sharded::Single(_) => 1,
            Sharded::Shards(_) => SHARDS,
        }
    }

    /// The shards.
    pub open spec fn view(&self) -> Seq<T> {
        match self {
            Sharded::Single(single) => seq![*single],
            Sharded::Shards(shards) => shards@,
        }
    }

    /// Every shard holds what `value` makes.
    pub fn new(dyn_thread_safe: bool, value: impl Fn() -> T) -> (sharded: Sharded<T>)
        requires
            call_requires(value, ()),
        ensures
            sharded.wf(),
            sharded.count() == shard_count(dyn_thread_safe),
            forall|i: int|
                0 <= i < sharded@.len() ==> call_ensures(value, (), #[trigger] sharded@[i]),
    {
        if dyn_thread_safe {
            let mut shards: Vec<T> = Vec::new();
            let mut i: usize = 0;
            while i < SHARDS
                invariant
                    i <= SHARDS,
                    shards@.len() == i,
                    call_requires(value, ()),
                    forall|k: int| 0 <= k < i ==> call_ensures(value, (), #[trigger] shards@[k]),
                decreases SHARDS - i,
            {
                shards.push(value());
                i += 1;
            }
            return Sharded::Shards(shards);
        }
        Sharded::Single(value())
    }

    /// The shard at an index, of which only the lowest bits count.
    pub fn get_shard_by_index(&self, i: usize) -> (shard: &T)
        requires
            self.wf(),
        ensures
            *shard == self@[i as int % self.count() as int],
    {
        match self {
            Sharded::Single(single) => single,
            Sharded::Shards(shards) => &shards[i % SHARDS],
        }
    }

    /// The shard of a hash.
    pub fn get_shard_by_hash(&self, hash: u64) -> (shard: &T)
        requires
            self.wf(),
        ensures
            *shard == self@[shard_of(hash, self.count())],
    {
        match self {
            Sharded::Single(single) => single,
            Sharded::Shards(shards) => &shards[shard_at(hash, SHARDS)],
        }
    }

    /// The shard of a number, by its hash.
    pub fn get_shard_by_value(&self, val: u128) -> (shard: &T)
        requires
            self.wf(),
        ensures
            *shard == self@[shard_of(hash_of(val), self.count())],
    {
        match self {
            Sharded::Single(single) => single,
            Sharded::Shards(..) => self.get_shard_by_hash(make_hash(val)),
        }
    }

    /// The shard at an index, of which only the lowest bits count, to change it. The others stay as
    /// they are.
    pub fn lock_shard_by_index(&mut self, i: usize) -> (shard: &mut T)
        requires
            old(self).wf(),
        ensures
            *shard == old(self)@[i as int % old(self).count() as int],
            final(self).wf(),
            final(self).count() == old(self).count(),
            final(self)@ == old(self)@.update(i as int % old(self).count() as int, *final(shard)),
    {
        match self {
            Sharded::Single(single) => single,
            Sharded::Shards(shards) => &mut shards[i % SHARDS],
        }
    }

    /// The shard of a number, by its hash, to change it. The others stay as they are.
    pub fn lock_shard_by_value(&mut self, val: u128) -> (shard: &mut T)
        requires
            old(self).wf(),
        ensures
            *shard == old(self)@[shard_of(hash_of(val), old(self).count())],
            final(self).wf(),
            final(self).count() == old(self).count(),
            final(self)@ == old(self)@.update(
                shard_of(hash_of(val), old(self).count()),
                *final(shard),
            ),
    {
        self.lock_shard_by_hash(make_hash(val))
    }

    /// Every shard, in order.
    pub fn lock_shards(&self) -> (all: Vec<&T>)
        requires
            self.wf(),
        ensures
            all@.len() == self@.len(),
            forall|i: int| 0 <= i < all@.len() ==> *(#[trigger] all@[i]) == self@[i],
    {
        let mut all: Vec<&T> = Vec::new();
        match self {
            Sharded::Single(single) => {
                all.push(single);
            },
            Sharded::Shards(shards) => {
                let mut i: usize = 0;
                while i < shards.len()
                    invariant
                        i <= shards@.len(),
                        all@.len() == i,
                        forall|k: int| 0 <= k < i ==> *(#[trigger] all@[k]) == shards@[k],
                    decreases shards@.len() - i,
                {
                    all.push(&shards[i]);
                    i += 1;
                }
            },
        }
        all
    }

    /// The shard of a hash, to change it. The others stay as they are.
    pub fn lock_shard_by_hash(&mut self, hash: u64) -> (shard: &mut T)
        requires
            old(self).wf(),
        ensures
            *shard == old(self)@[shard_of(hash, old(self).count())],
            final(self).wf(),
            final(self).count() == old(self).count(),
            final(self)@ == old(self)@.update(shard_of(hash, old(self).count()), *final(shard)),
    {
        match self {
            Sharded::Single(single) => single,
            Sharded::Shards(shards) => &mut shards[shard_at(hash, SHARDS)],
        }
    }
}

/// A map from keys to what stands for them, cut into shards.
pub type ShardedHashMap = Sharded<FxHashTable>;

/// Each key is in its own shard.
pub open spec fn keys_at_home(shards: Seq<FxHashTable>) -> bool {
    forall|s: int, key: u128|
        0 <= s < shards.len() && #[trigger] table_map(shards[s]).contains_key(key) ==> s
            == shard_of(hash_of(key), shards.len() as usize)
}

/// What the shards map their keys to.
pub open spec fn sharded_map(shards: Seq<FxHashTable>) -> Map<u128, u64> {
    Map::new(
        |key: u128|
            table_map(shards[shard_of(hash_of(key), shards.len() as usize)]).contains_key(key),
        |key: u128| table_map(shards[shard_of(hash_of(key), shards.len() as usize)])[key],
    )
}

/// What the key maps to, if it is there.
pub open spec fn found(map: Map<u128, u64>, key: u128) -> Option<u64> {
    if map.contains_key(key) {
        Some(map[key])
    } else {
        None
    }
}

/// The keys in the first `n` shards.
spec fn keys_before(shards: Seq<FxHashTable>, n: int) -> Set<u128> {
    Set::new(
        |key: u128|
            0 <= shard_of(hash_of(key), shards.len() as usize) < n && sharded_map(
                shards,
            ).contains_key(key),
    )
}

impl ShardedHashMap {
    /// Each key is in its own shard.
    pub open spec fn is_map(&self) -> bool {
        self.wf() && keys_at_home(self@)
    }

    /// What the keys map to.
    pub open spec fn map(&self) -> Map<u128, u64> {
        sharded_map(self@)
    }

    /// A map without entries, with room for `cap` of them.
    pub fn with_capacity(cap: usize, dyn_thread_safe: bool) -> (map: ShardedHashMap)
        requires
            rounded_up(cap as int, shard_count(dyn_thread_safe) as int) <= usize::MAX / 256,
        ensures
            map.is_map(),
            map.count() == shard_count(dyn_thread_safe),
            map.map() == no_entries(),
    {
        let n = shards(dyn_thread_safe);
        let per_shard_cap = div_ceil(cap, n);
        let make = || -> (table: FxHashTable)
            ensures
                table_map(table) == no_entries(),
        { hash_table_with_capacity(per_shard_cap) };
        let map: ShardedHashMap = Sharded::new(dyn_thread_safe, make);
        proof {
            assert forall|key: u128| !#[trigger] map.map().contains_key(key) by {
                let at = shard_of(hash_of(key), map.count());
                assert(0 <= at < map@.len());
                assert(table_map(map@[at]) == no_entries());
            }
            assert forall|s: int, key: u128|
                0 <= s < map@.len() && #[trigger] table_map(map@[s]).contains_key(key) implies s
                == shard_of(hash_of(key), map@.len() as usize) by {
                assert(table_map(map@[s]) == no_entries());
            }
        }
        map
    }

    /// How many keys there are.
    pub fn len(&self) -> (n: usize)
        requires
            self.is_map(),
            self.map().dom().finite(),
            self.map().dom().len() <= usize::MAX,
        ensures
            n == self.map().dom().len(),
    {
        let count: usize = match self {
            Sharded::Single(_) => 1,
            Sharded::Shards(_) => SHARDS,
        };
        let ghost tables = self@;
        assert(keys_before(tables, 0) =~= Set::empty());
        assert(keys_before(tables, count as int) =~= self.map().dom()) by {
            assert forall|key: u128| #[trigger] self.map().contains_key(key) implies keys_before(
                tables,
                count as int,
            ).contains(key) by {
                assert(0 <= shard_of(hash_of(key), count) < count);
            }
        }
        let mut n: usize = 0;
        let mut i: usize = 0;
        while i < count
            invariant
                i <= count,
                self.is_map(),
                self.map().dom().finite(),
                self.map().dom().len() <= usize::MAX,
                tables == self@,
                count == tables.len(),
                count == self.count(),
                keys_before(tables, i as int).finite(),
                n == keys_before(tables, i as int).len(),
                keys_before(tables, count as int) =~= self.map().dom(),
            decreases count - i,
        {
            let shard = self.get_shard_by_index(i);
            let more = hash_table_len(shard);
            proof {
                let before = keys_before(tables, i as int);
                let after = keys_before(tables, i + 1);
                let own = table_map(tables[i as int]).dom();
                assert((i as int) % (count as int) == i) by {
                    vstd::arithmetic::div_mod::lemma_small_mod(i as nat, count as nat);
                }
                assert(*shard == tables[i as int]);
                assert(after =~= before.union(own)) by {
                    assert forall|key: u128| own.contains(key) implies after.contains(key) by {
                        assert(table_map(tables[i as int]).contains_key(key));
                    }
                }
                assert(before.disjoint(own)) by {
                    assert forall|key: u128| own.contains(key) implies !before.contains(key) by {
                        assert(table_map(tables[i as int]).contains_key(key));
                    }
                }
                vstd::set_lib::lemma_set_disjoint_lens(before, own);
                assert(after.subset_of(self.map().dom()));
                vstd::set_lib::lemma_len_subset(after, self.map().dom());
            }
            n = n + more;
            i += 1;
        }
        n
    }

    /// What the key maps to, if it is there.
    pub fn get(&self, key: u128) -> (value: Option<u64>)
        requires
            self.is_map(),
        ensures
            value == found(self.map(), key),
    {
        let hash = make_hash(key);
        hash_table_find(self.get_shard_by_hash(hash), hash, key)
    }

    /// Maps a key that is not there to `value`.
    pub fn insert_unique(&mut self, key: u128, value: u64)
        requires
            old(self).is_map(),
            !old(self).map().contains_key(key),
        ensures
            final(self).is_map(),
            final(self).count() == old(self).count(),
            final(self).map() == old(self).map().insert(key, value),
    {
        let ghost before = self@;
        let hash = make_hash(key);
        let ghost at = shard_of(hash, self.count());
        hash_table_insert_unique(self.lock_shard_by_hash(hash), hash, key, value);
        proof {
            let n = before.len() as usize;
            assert(self.map() =~= sharded_map(before).insert(key, value)) by {
                assert forall|k: u128|
                    self.map().contains_key(k) == sharded_map(before).insert(
                        key,
                        value,
                    ).contains_key(k) && (self.map().contains_key(k) ==> self.map()[k]
                        == sharded_map(before).insert(key, value)[k]) by {
                    let s = shard_of(hash_of(k), n);
                    assert(0 <= s < n);
                    if s != at {
                        assert(self@[s] == before[s]);
                    }
                }
            }
            assert forall|s: int, k: u128|
                0 <= s < self@.len() && #[trigger] table_map(self@[s]).contains_key(
                    k,
                ) implies s == shard_of(hash_of(k), self@.len() as usize) by {
                if s != at {
                    assert(self@[s] == before[s]);
                    assert(table_map(before[s]).contains_key(k));
                } else if k != key {
                    assert(table_map(before[s]).contains_key(k));
                }
            }
        }
    }

    /// What the key maps to; if it is not there, it maps to what `default` makes from here on.
    pub fn get_or_insert_with(&mut self, key: u128, default: impl FnOnce() -> u64) -> (value: u64)
        requires
            old(self).is_map(),
            !old(self).map().contains_key(key) ==> call_requires(default, ()),
        ensures
            final(self).is_map(),
            final(self).count() == old(self).count(),
            match found(old(self).map(), key) {
                Some(v) => value == v,
                None => call_ensures(default, (), value),
            },
            final(self).map() == old(self).map().insert(key, value),
    {
        match self.get(key) {
            Some(value) => {
                assert(self.map().insert(key, value) =~= self.map());
                value
            },
            None => {
                let value: u64 = default();
                self.insert_unique(key, value);
                value
            },
        }
    }

    /// What stands for a value, by its number: what was made for it before, or else what `make`
    /// makes of it.
    pub fn intern(&mut self, value: u128, make: impl FnOnce(u128) -> u64) -> (key: u64)
        requires
            old(self).is_map(),
            !old(self).map().contains_key(value) ==> call_requires(make, (value,)),
        ensures
            final(self).is_map(),
            final(self).count() == old(self).count(),
            match found(old(self).map(), value) {
                Some(k) => key == k,
                None => call_ensures(make, (value,), key),
            },
            final(self).map() == old(self).map().insert(value, key),
    {
        match self.get(value) {
            Some(key) => {
                assert(self.map().insert(value, key) =~= self.map());
                key
            },
            None => {
                let key: u64 = make(value);
                self.insert_unique(value, key);
                key
            },
        }
    }

    /// As `intern`, for a `make` that knows the value already.
    pub fn intern_ref(&mut self, value: u128, make: impl FnOnce() -> u64) -> (key: u64)
        requires
            old(self).is_map(),
            !old(self).map().contains_key(value) ==> call_requires(make, ()),
        ensures
            final(self).is_map(),
            final(self).count() == old(self).count(),
            match found(old(self).map(), value) {
                Some(k) => key == k,
                None => call_ensures(make, (), key),
            },
            final(self).map() == old(self).map().insert(value, key),
    {
        self.get_or_insert_with(value, make)
    }

    /// Whether `pointer` is what stands for `value`.
    pub fn contains_pointer_to(&self, value: u128, pointer: u64) -> (yes: bool)
        requires
            self.is_map(),
        ensures
            yes == (found(self.map(), value) == Some(pointer)),
    {
        match self.get(value) {
            Some(key) => key == pointer,
            None => false,
        }
    }
}

/// There is one shard in a serial session, and thirty-two in a parallel one.
pub proof fn law_a_serial_session_has_one_shard(dyn_thread_safe: bool, n: usize)
    requires
        call_ensures(shards, (dyn_thread_safe,), n),
    ensures
        n == 1 <==> !dyn_thread_safe,
        dyn_thread_safe ==> n == 32,
{
}

/// What is rounded up is enough, and no more than that.
pub proof fn law_a_share_is_enough(a: int, b: int)
    requires
        a >= 0,
        b > 0,
    ensures
        rounded_up(a, b) * b >= a,
        (rounded_up(a, b) - 1) * b < a,
{
    let q = rounded_up(a, b);
    assert(q * b <= a + b - 1 < (q + 1) * b) by (nonlinear_arith)
        requires
            q == (a + b - 1) / b,
            b > 0,
    ;
    assert((q + 1) * b == q * b + b && (q - 1) * b == q * b - b) by (nonlinear_arith);
}

/// Five bits of a hash pick its shard: those below the seven highest of a word. Every hash has one
/// shard, and in a serial session it is the only one.
pub proof fn law_a_hash_picks_its_shard(hash: u64, n: usize)
    requires
        n > 0,
    ensures
        0 <= shard_of(hash, n) < n,
        n == 1 ==> shard_of(hash, n) == 0,
        usize::BITS == 64 && n == 32 ==> shard_of(hash, n) == (hash >> 52u64) & 31,
{
    let bits = shard_bits(hash);
    assert(0 <= bits as int % n as int && (bits as int % n as int) < n as int)
        by (nonlinear_arith)
        requires
            n > 0,
            bits >= 0,
    ;
    assert((hash >> 52u64) & 31 == (hash >> 52u64) % 32) by (bit_vector);
}

/// A key maps to what was put there, and no other key is touched.
pub proof fn law_a_key_maps_to_what_was_put_there(
    map: &mut ShardedHashMap,
    key: u128,
    value: u64,
    other: u128,
    read: Option<u64>,
    before: Option<u64>,
    after: Option<u64>,
)
    requires
        call_ensures(ShardedHashMap::insert_unique, (map, key, value), ()),
        call_ensures(ShardedHashMap::get, (final(map), key), read),
        call_ensures(ShardedHashMap::get, (old(map), other), before),
        call_ensures(ShardedHashMap::get, (final(map), other), after),
    ensures
        read == Some(value),
        other != key ==> after == before,
{
}

} // verus!
