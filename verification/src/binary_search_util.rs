//! Searching a sorted slice for the run of elements with one key.

use vstd::prelude::*;

verus! {

/// `get_key` gives the element this key, and no other.
pub open spec fn key_is<E, F: Fn(&E) -> usize>(get_key: F, e: E, key: usize) -> bool {
    forall|k: usize| #[trigger] call_ensures(get_key, (&e,), k) ==> k == key
}

/// `keys` are the keys of the elements, which are sorted by them.
pub open spec fn sorted_by_key<E, F: Fn(&E) -> usize>(
    data: Seq<E>,
    get_key: F,
    keys: Seq<usize>,
) -> bool {
    &&& keys.len() == data.len()
    &&& forall|i: int| 0 <= i < data.len() ==> call_requires(get_key, (&#[trigger] data[i],))
    &&& forall|i: int| 0 <= i < data.len() ==> key_is(get_key, #[trigger] data[i], keys[i])
    &&& forall|i: int, j: int| 0 <= i <= j < keys.len() ==> #[trigger] keys[i] <= #[trigger] keys[j]
}

/// The elements from `lo` to `hi` are those of the key.
pub open spec fn is_run(keys: Seq<usize>, key: usize, lo: int, hi: int) -> bool {
    &&& 0 <= lo <= hi <= keys.len()
    &&& forall|i: int| 0 <= i < keys.len() ==> (#[trigger] keys[i] == key <==> lo <= i < hi)
}

/// The keys before `lo` are below `key`, and those from `hi` on above it. A key that is `key` goes
/// with those below it if `after`, and else with those above it.
pub open spec fn splits(keys: Seq<usize>, key: usize, after: bool, lo: int, hi: int) -> bool {
    &&& forall|i: int| 0 <= i < lo ==> #[trigger] keys[i] < key || (after && keys[i] == key)
    &&& forall|i: int|
        hi <= i < keys.len() ==> #[trigger] keys[i] > key || (!after && keys[i] == key)
}

/// The first element whose key is at least `key`, or, with `after`, above it.
fn partition_point<E, F: Fn(&E) -> usize>(
    data: &[E],
    get_key: &F,
    key: usize,
    after: bool,
) -> (at: usize)
    requires
        exists|keys: Seq<usize>| sorted_by_key(data@, *get_key, keys),
    ensures
        at <= data@.len(),
        forall|keys: Seq<usize>| #[trigger]
            sorted_by_key(data@, *get_key, keys) ==> splits(
                keys,
                key,
                after,
                at as int,
                at as int,
            ),
{
    let mut lo: usize = 0;
    let mut hi: usize = data.len();
    while lo < hi
        invariant
            lo <= hi <= data@.len(),
            exists|keys: Seq<usize>| sorted_by_key(data@, *get_key, keys),
            forall|keys: Seq<usize>| #[trigger]
                sorted_by_key(data@, *get_key, keys) ==> splits(
                    keys,
                    key,
                    after,
                    lo as int,
                    hi as int,
                ),
        decreases hi - lo,
    {
        let mid = lo + (hi - lo) / 2;
        assert(call_requires(*get_key, (&data@[mid as int],)));
        let found: usize = get_key(&data[mid]);
        let ghost before = (lo as int, hi as int);
        if found < key || (after && found == key) {
            lo = mid + 1;
        } else {
            hi = mid;
        }
        proof {
            // The element that was looked at has the same key by every list of keys.
            assert forall|keys: Seq<usize>| #[trigger]
                sorted_by_key(data@, *get_key, keys) implies splits(
                keys,
                key,
                after,
                lo as int,
                hi as int,
            ) by {
                assert(splits(keys, key, after, before.0, before.1));
                assert(key_is(*get_key, data@[mid as int], keys[mid as int]));
                assert(keys[mid as int] == found);
            }
        }
    }
    lo
}

/// The run of elements whose key is `key`, in a slice that is sorted by key.
pub fn binary_search_slice<'d, E, F: Fn(&E) -> usize>(
    data: &'d [E],
    get_key: F,
    key: &usize,
) -> (run: &'d [E])
    requires
        exists|keys: Seq<usize>| sorted_by_key(data@, get_key, keys),
    ensures
        forall|keys: Seq<usize>| #[trigger]
            sorted_by_key(data@, get_key, keys) ==> exists|lo: int, hi: int|
                #[trigger] is_run(keys, *key, lo, hi) && run@ == data@.subrange(lo, hi),
{
    let lo = partition_point(data, &get_key, *key, false);
    let hi = partition_point(data, &get_key, *key, true);
    proof {
        assert forall|keys: Seq<usize>| #[trigger]
            sorted_by_key(data@, get_key, keys) implies lo <= hi && is_run(
            keys,
            *key,
            lo as int,
            hi as int,
        ) by {
            assert(splits(keys, *key, false, lo as int, lo as int));
            assert(splits(keys, *key, true, hi as int, hi as int));
            if hi < lo {
                assert(keys[hi as int] < *key);
                assert(keys[hi as int] > *key);
            }
            assert forall|i: int| 0 <= i < keys.len() implies (#[trigger] keys[i] == *key <==> lo
                <= i < hi) by {
                if i < lo {
                    assert(keys[i] < *key);
                } else if i < hi {
                    assert(keys[i] <= *key);
                    assert(keys[i] >= *key);
                } else {
                    assert(keys[i] > *key);
                }
            }
        }
    }
    vstd::slice::slice_subrange(data, lo, hi)
}

/// A slice has one run of each key that occurs in it, whichever way it was found.
pub proof fn law_a_run_is_unique(keys: Seq<usize>, key: usize, a: (int, int), b: (int, int))
    requires
        is_run(keys, key, a.0, a.1),
        is_run(keys, key, b.0, b.1),
    ensures
        a.0 == a.1 && b.0 == b.1 || a == b,
{
    if a.0 < a.1 {
        assert(keys[a.0] == key && keys[a.1 - 1] == key);
    }
    if b.0 < b.1 {
        assert(keys[b.0] == key && keys[b.1 - 1] == key);
    }
}

} // verus!
