//! Vectors that only grow: an element, once pushed, is never removed, overwritten or moved.

use vstd::prelude::*;

use vstd::arithmetic::power2::pow2;
use vstd::std_specs::cmp::PartialEqSpec;

verus! {

/// How many chunks there can be.
pub const NUM_CHUNKS: usize = 32;

/// Elements in the first chunk. Every later chunk doubles.
pub const FIRST_CHUNK: usize = 8;

/// How many elements a chunk holds.
pub open spec fn chunk_size(chunk: nat) -> nat {
    FIRST_CHUNK as nat * pow2(chunk)
}

/// How many elements the chunks before this one hold.
pub open spec fn chunk_start(chunk: nat) -> int {
    FIRST_CHUNK as int * (pow2(chunk) - 1)
}

/// Element `index` is at this place of this chunk.
pub open spec fn is_place(index: nat, chunk: nat, offset: nat) -> bool {
    offset < chunk_size(chunk) && index == chunk_start(chunk) + offset
}

/// A chunk starts where the one before it ends.
pub proof fn lemma_chunks_adjoin(chunk: nat)
    ensures
        chunk_start(0) == 0,
        chunk_start(chunk + 1) == chunk_start(chunk) + chunk_size(chunk),
        chunk_size(chunk) > 0,
        chunk_start(chunk) >= 0,
{
    vstd::arithmetic::power2::lemma_pow2_unfold(chunk + 1);
    vstd::arithmetic::power2::lemma_pow2_pos(chunk);
    vstd::arithmetic::power2::lemma2_to64();
}

proof fn lemma_starts_grow(a: nat, b: nat)
    requires
        a < b,
    ensures
        chunk_start(a) + chunk_size(a) <= chunk_start(b),
    decreases b,
{
    lemma_chunks_adjoin((b - 1) as nat);
    if a < b - 1 {
        lemma_starts_grow(a, (b - 1) as nat);
        lemma_chunks_adjoin(a);
    }
}

/// Every index has one place.
pub proof fn law_a_place_is_unique(index: nat, a: (nat, nat), b: (nat, nat))
    requires
        is_place(index, a.0, a.1),
        is_place(index, b.0, b.1),
    ensures
        a == b,
{
    if a.0 < b.0 {
        lemma_starts_grow(a.0, b.0);
    } else if b.0 < a.0 {
        lemma_starts_grow(b.0, a.0);
    }
}

/// The chunk of a flat index and the place within the chunk.
pub fn chunk_of(index: usize) -> (place: (usize, usize))
    ensures
        is_place(index as nat, place.0 as nat, place.1 as nat),
{
    let mut chunk: usize = 0;
    let mut rest: usize = index;
    let mut size: usize = FIRST_CHUNK;
    proof {
        vstd::arithmetic::power2::lemma2_to64();
    }
    while rest >= size
        invariant
            size == chunk_size(chunk as nat),
            index == chunk_start(chunk as nat) + rest,
            chunk < usize::MAX,
            chunk <= index,
        decreases rest,
    {
        proof {
            lemma_chunks_adjoin(chunk as nat);
            vstd::arithmetic::power2::lemma_pow2_unfold((chunk + 1) as nat);
            lemma_chunk_below_start((chunk + 1) as nat);
        }
        rest = rest - size;
        chunk = chunk + 1;
        if rest / 2 < size {
            return (chunk, rest);
        }
        size = size * 2;
    }
    (chunk, rest)
}

proof fn lemma_chunk_below_start(chunk: nat)
    ensures
        chunk <= chunk_start(chunk),
    decreases chunk,
{
    vstd::arithmetic::power2::lemma2_to64();
    if chunk > 0 {
        lemma_chunk_below_start((chunk - 1) as nat);
        lemma_chunks_adjoin((chunk - 1) as nat);
    }
}

/// The elements of the chunks, one after the other.
pub open spec fn flat<T>(chunks: Seq<Vec<T>>) -> Seq<T>
    decreases chunks.len(),
{
    if chunks.len() == 0 {
        Seq::empty()
    } else {
        flat(chunks.drop_last()) + chunks.last()@
    }
}

/// The first chunks are full.
pub open spec fn full_before<T>(chunks: Seq<Vec<T>>, n: int) -> bool {
    forall|k: int| 0 <= k < n ==> (#[trigger] chunks[k])@.len() == chunk_size(k as nat)
}

proof fn lemma_flat_full<T>(chunks: Seq<Vec<T>>)
    requires
        full_before(chunks, chunks.len() as int),
    ensures
        flat(chunks).len() == chunk_start(chunks.len()),
    decreases chunks.len(),
{
    lemma_chunks_adjoin(0);
    if chunks.len() > 0 {
        let n = (chunks.len() - 1) as nat;
        lemma_chunks_adjoin(n);
        assert(full_before(chunks.drop_last(), n as int)) by {
            assert forall|k: int| 0 <= k < n implies (#[trigger] chunks.drop_last()[k])@.len()
                == chunk_size(k as nat) by {
                assert(chunks[k]@.len() == chunk_size(k as nat));
            }
        }
        lemma_flat_full(chunks.drop_last());
        assert(chunks[n as int]@.len() == chunk_size(n));
    }
}

/// What stands at a place of the chunks stands at its index of the whole.
proof fn lemma_flat_at<T>(chunks: Seq<Vec<T>>, chunk: int, offset: int)
    requires
        full_before(chunks, chunks.len() - 1),
        0 <= chunk < chunks.len(),
        0 <= offset < chunks[chunk]@.len(),
    ensures
        chunk_start(chunk as nat) + offset < flat(chunks).len(),
        flat(chunks)[chunk_start(chunk as nat) + offset] == chunks[chunk]@[offset],
    decreases chunks.len(),
{
    let n = chunks.len() - 1;
    let rest = chunks.drop_last();
    assert(full_before(rest, n)) by {
        assert forall|k: int| 0 <= k < n implies (#[trigger] rest[k])@.len() == chunk_size(
            k as nat,
        ) by {
            assert(chunks[k]@.len() == chunk_size(k as nat));
        }
    }
    lemma_flat_full(rest);
    lemma_chunks_adjoin(chunk as nat);
    if chunk < n {
        lemma_flat_at(rest, chunk, offset);
    }
}

/// A vector of values that are read without a lock.
pub struct LockFreeAppendOnlyVec<T: Copy> {
    chunks: Vec<Vec<T>>,
    len: usize,
}

impl<T: Copy> LockFreeAppendOnlyVec<T> {
    /// Chunks are filled in order: all but the last are full.
    pub closed spec fn wf(&self) -> bool {
        &&& full_before(self.chunks@, self.chunks@.len() - 1)
        &&& self.chunks@.len() > 0 ==> 0 < self.chunks@.last()@.len() <= chunk_size(
            (self.chunks@.len() - 1) as nat,
        )
        &&& self.len == flat(self.chunks@).len()
        &&& self.chunks@.len() <= NUM_CHUNKS
    }

    /// The elements.
    pub closed spec fn view(&self) -> Seq<T> {
        flat(self.chunks@)
    }

    pub fn new() -> (v: LockFreeAppendOnlyVec<T>)
        ensures
            v.wf(),
            v@ == Seq::<T>::empty(),
    {
        LockFreeAppendOnlyVec { chunks: Vec::new(), len: 0 }
    }

    /// Appends a value; its index. There is room for as many as the chunks hold.
    pub fn push(&mut self, val: T) -> (index: usize)
        requires
            old(self).wf(),
            old(self)@.len() < chunk_start(NUM_CHUNKS as nat),
            old(self)@.len() < usize::MAX,
        ensures
            final(self).wf(),
            final(self)@ == old(self)@.push(val),
            index == old(self)@.len(),
    {
        let len = self.len;
        let ghost before = self.chunks@;
        let (chunk, offset) = chunk_of(len);
        proof {
            lemma_next_place(before, chunk as nat, offset as nat);
        }
        if chunk == self.chunks.len() {
            let mut fresh: Vec<T> = Vec::new();
            fresh.push(val);
            self.chunks.push(fresh);
            proof {
                assert(self.chunks@.drop_last() =~= before);
                assert(self@ =~= flat(before).push(val));
                assert forall|k: int| 0 <= k < self.chunks@.len() - 1 implies (
                #[trigger] self.chunks@[k])@.len() == chunk_size(k as nat) by {
                    assert(self.chunks@[k] == before[k]);
                }
                lemma_chunks_adjoin(chunk as nat);
                if chunk >= NUM_CHUNKS {
                    if chunk > NUM_CHUNKS {
                        lemma_starts_grow(NUM_CHUNKS as nat, chunk as nat);
                        lemma_chunks_adjoin(NUM_CHUNKS as nat);
                    }
                }
            }
        } else {
            self.chunks[chunk].push(val);
            proof {
                assert(self.chunks@.drop_last() =~= before.drop_last());
                assert(self@ =~= flat(before).push(val));
                assert forall|k: int| 0 <= k < self.chunks@.len() - 1 implies (
                #[trigger] self.chunks@[k])@.len() == chunk_size(k as nat) by {
                    assert(self.chunks@[k] == before[k]);
                }
            }
        }
        self.len = len + 1;
        len
    }

    /// How many elements there are.
    pub fn len(&self) -> (n: usize)
        requires
            self.wf(),
        ensures
            n == self@.len(),
    {
        self.len
    }

    pub fn is_empty(&self) -> (empty: bool)
        requires
            self.wf(),
        ensures
            empty == (self@.len() == 0),
    {
        self.len == 0
    }

    /// The element at an index, if it has been pushed.
    pub fn get(&self, index: usize) -> (val: Option<T>)
        requires
            self.wf(),
        ensures
            val == (if index < self@.len() {
                Some(self@[index as int])
            } else {
                None
            }),
    {
        if index >= self.len {
            return None;
        }
        let (chunk, offset) = chunk_of(index);
        proof {
            lemma_place_is_filled(self.chunks@, index as nat, chunk as nat, offset as nat);
            lemma_flat_at(self.chunks@, chunk as int, offset as int);
        }
        Some(self.chunks[chunk][offset])
    }
}

/// Whether the chunks are as `wf` has them.
spec fn chunks_wf<T>(chunks: Seq<Vec<T>>) -> bool {
    &&& full_before(chunks, chunks.len() - 1)
    &&& chunks.len() > 0 ==> 0 < chunks.last()@.len() <= chunk_size((chunks.len() - 1) as nat)
}

proof fn lemma_flat_len<T>(chunks: Seq<Vec<T>>)
    requires
        chunks_wf(chunks),
        chunks.len() > 0,
    ensures
        flat(chunks).len() == chunk_start((chunks.len() - 1) as nat) + chunks.last()@.len(),
{
    let rest = chunks.drop_last();
    assert(full_before(rest, rest.len() as int)) by {
        assert forall|k: int| 0 <= k < rest.len() implies (#[trigger] rest[k])@.len()
            == chunk_size(k as nat) by {
            assert(chunks[k]@.len() == chunk_size(k as nat));
        }
    }
    lemma_flat_full(rest);
}

/// The place after the last element is the end of the last chunk, or the start of the next one.
proof fn lemma_next_place<T>(chunks: Seq<Vec<T>>, chunk: nat, offset: nat)
    requires
        chunks_wf(chunks),
        is_place(flat(chunks).len(), chunk, offset),
    ensures
        chunk == chunks.len() ==> offset == 0 && full_before(chunks, chunks.len() as int),
        chunk != chunks.len() ==> chunk == chunks.len() - 1 && offset == chunks.last()@.len()
            && offset < chunk_size(chunk),
{
    lemma_chunks_adjoin(0);
    if chunks.len() == 0 {
        law_a_place_is_unique(0, (chunk, offset), (0, 0));
    } else {
        let n = (chunks.len() - 1) as nat;
        lemma_flat_len(chunks);
        lemma_chunks_adjoin(n);
        lemma_chunks_adjoin(n + 1);
        if chunks.last()@.len() == chunk_size(n) {
            law_a_place_is_unique(flat(chunks).len(), (chunk, offset), (n + 1, 0));
        } else {
            law_a_place_is_unique(
                flat(chunks).len(),
                (chunk, offset),
                (n, chunks.last()@.len()),
            );
        }
    }
}

/// The place of an element that has been pushed is filled.
proof fn lemma_place_is_filled<T>(chunks: Seq<Vec<T>>, index: nat, chunk: nat, offset: nat)
    requires
        chunks_wf(chunks),
        index < flat(chunks).len(),
        is_place(index, chunk, offset),
    ensures
        chunk < chunks.len(),
        offset < chunks[chunk as int]@.len(),
{
    if chunks.len() > 0 {
        let n = (chunks.len() - 1) as nat;
        lemma_flat_len(chunks);
        lemma_chunks_adjoin(n);
        if chunk > n {
            lemma_starts_grow(n, chunk);
        } else if chunk < n {
            assert(chunks[chunk as int]@.len() == chunk_size(chunk));
        }
    }
}

/// A type that numbers things.
pub trait Idx: Sized {
    /// The largest number.
    spec fn limit() -> nat;

    spec fn number(&self) -> nat;

    fn new(number: usize) -> (i: Self)
        requires
            number <= Self::limit(),
        ensures
            i.number() == number,
    ;

    fn index(self) -> (number: usize)
        requires
            self.number() <= usize::MAX,
        ensures
            number == self.number(),
    ;
}

impl Idx for usize {
    open spec fn limit() -> nat {
        usize::MAX as nat
    }

    open spec fn number(&self) -> nat {
        *self as nat
    }

    fn new(number: usize) -> (i: usize) {
        number
    }

    fn index(self) -> (number: usize) {
        self
    }
}

impl Idx for u32 {
    open spec fn limit() -> nat {
        u32::MAX as nat
    }

    open spec fn number(&self) -> nat {
        *self as nat
    }

    fn new(number: usize) -> (i: u32) {
        number as u32
    }

    fn index(self) -> (number: usize) {
        self as usize
    }
}

/// A vector that only grows, whose elements are numbered by a type of their own.
pub struct AppendOnlyIndexVec<I: Idx, T: Copy> {
    vec: LockFreeAppendOnlyVec<T>,
    marker: core::marker::PhantomData<I>,
}

impl<I: Idx, T: Copy> AppendOnlyIndexVec<I, T> {
    pub closed spec fn wf(&self) -> bool {
        self.vec.wf()
    }

    /// The elements.
    pub closed spec fn view(&self) -> Seq<T> {
        self.vec@
    }

    pub fn new() -> (v: AppendOnlyIndexVec<I, T>)
        ensures
            v.wf(),
            v@ == Seq::<T>::empty(),
    {
        AppendOnlyIndexVec {
            vec: LockFreeAppendOnlyVec::new(),
            marker: core::marker::PhantomData,
        }
    }

    /// Appends a value; its number.
    pub fn push(&mut self, val: T) -> (i: I)
        requires
            old(self).wf(),
            old(self)@.len() < chunk_start(NUM_CHUNKS as nat),
            old(self)@.len() < usize::MAX,
            old(self)@.len() <= I::limit(),
        ensures
            final(self).wf(),
            final(self)@ == old(self)@.push(val),
            i.number() == old(self)@.len(),
    {
        let i = self.vec.push(val);
        I::new(i)
    }

    /// The element of a number, if it has been pushed.
    pub fn get(&self, i: I) -> (val: Option<T>)
        requires
            self.wf(),
            i.number() <= usize::MAX,
        ensures
            val == (if i.number() < self@.len() {
                Some(self@[i.number() as int])
            } else {
                None
            }),
    {
        let at = i.index();
        self.vec.get(at)
    }

    pub fn len(&self) -> (n: usize)
        requires
            self.wf(),
        ensures
            n == self@.len(),
    {
        self.vec.len()
    }

    pub fn is_empty(&self) -> (empty: bool)
        requires
            self.wf(),
        ensures
            empty == (self@.len() == 0),
    {
        self.vec.is_empty()
    }
}

/// A vector that only grows.
pub struct AppendOnlyVec<T: Copy> {
    vec: Vec<T>,
}

impl<T: Copy> AppendOnlyVec<T> {
    /// The elements.
    pub closed spec fn view(&self) -> Seq<T> {
        self.vec@
    }

    pub fn new() -> (v: AppendOnlyVec<T>)
        ensures
            v@ == Seq::<T>::empty(),
    {
        AppendOnlyVec { vec: Vec::new() }
    }

    /// Appends a value; its index.
    pub fn push(&mut self, val: T) -> (n: usize)
        ensures
            final(self)@ == old(self)@.push(val),
            n == old(self)@.len(),
    {
        let n = self.vec.len();
        self.vec.push(val);
        n
    }

    /// The element at an index, if it has been pushed.
    pub fn get(&self, i: usize) -> (val: Option<T>)
        ensures
            val == (if i < self@.len() {
                Some(self@[i as int])
            } else {
                None
            }),
    {
        if i < self.vec.len() {
            Some(self.vec[i])
        } else {
            None
        }
    }

    /// The elements and their indices.
    pub fn iter_enumerated(&self) -> (pairs: Vec<(usize, T)>)
        ensures
            pairs@.len() == self@.len(),
            forall|i: int| 0 <= i < pairs@.len() ==> #[trigger] pairs@[i] == (i as usize, self@[i]),
    {
        let mut pairs: Vec<(usize, T)> = Vec::new();
        let mut i: usize = 0;
        while i < self.vec.len()
            invariant
                i <= self.vec@.len(),
                pairs@.len() == i,
                forall|k: int| 0 <= k < i ==> #[trigger] pairs@[k] == (k as usize, self@[k]),
            decreases self.vec@.len() - i,
        {
            pairs.push((i, self.vec[i]));
            i += 1;
        }
        pairs
    }

    /// The elements.
    pub fn iter(&self) -> (items: Vec<T>)
        ensures
            items@ == self@,
    {
        let mut items: Vec<T> = Vec::new();
        let mut i: usize = 0;
        while i < self.vec.len()
            invariant
                i <= self.vec@.len(),
                items@ == self@.take(i as int),
            decreases self.vec@.len() - i,
        {
            items.push(self.vec[i]);
            assert(self@.take(i + 1) =~= self@.take(i as int).push(self@[i as int]));
            i += 1;
        }
        assert(self@.take(i as int) =~= self@);
        items
    }

    /// A vector of these values.
    pub fn from_values(values: Vec<T>) -> (v: AppendOnlyVec<T>)
        ensures
            v@ == values@,
    {
        AppendOnlyVec { vec: values }
    }
}

impl<T: Copy + PartialEq> AppendOnlyVec<T> {
    /// Whether a value has been pushed.
    pub fn contains(&self, val: T) -> (yes: bool)
        requires
            T::obeys_eq_spec(),
        ensures
            yes == exists|i: int| 0 <= i < self@.len() && (#[trigger] self@[i]).eq_spec(&val),
    {
        let mut i: usize = 0;
        while i < self.vec.len()
            invariant
                T::obeys_eq_spec(),
                i <= self.vec@.len(),
                forall|k: int| 0 <= k < i ==> !(#[trigger] self@[k]).eq_spec(&val),
            decreases self.vec@.len() - i,
        {
            assert(self@[i as int] == self.vec@[i as int]);
            if self.vec[i] == val {
                return true;
            }
            i += 1;
        }
        false
    }
}

/// The first chunk holds eight elements, each later one twice as many as the one before it, and a
/// chunk starts where the one before it ends.
pub proof fn law_chunks_double(chunk: nat)
    ensures
        chunk_size(0) == 8,
        chunk_size(chunk + 1) == 2 * chunk_size(chunk),
        chunk_start(0) == 0,
        chunk_start(chunk + 1) == chunk_start(chunk) + chunk_size(chunk),
{
    vstd::arithmetic::power2::lemma2_to64();
    vstd::arithmetic::power2::lemma_pow2_unfold(chunk + 1);
    lemma_chunks_adjoin(chunk);
    assert(8 * (2 * pow2(chunk)) == 2 * (8 * pow2(chunk))) by (nonlinear_arith);
}

/// The elements of a chunk more come behind those of the others.
pub proof fn law_chunks_come_one_after_another<T>(chunks: Seq<Vec<T>>, chunk: Vec<T>)
    ensures
        flat(Seq::<Vec<T>>::empty()) == Seq::<T>::empty(),
        flat(chunks.push(chunk)) == flat(chunks) + chunk@,
{
    assert(chunks.push(chunk).drop_last() =~= chunks);
}

/// A value that is pushed is read at the index that it got, and what was there before stays.
pub proof fn law_a_pushed_value_is_read<T: Copy>(
    v: &mut LockFreeAppendOnlyVec<T>,
    val: T,
    index: usize,
    other: usize,
    read: Option<T>,
    before: Option<T>,
    after: Option<T>,
)
    requires
        call_ensures(LockFreeAppendOnlyVec::<T>::push, (v, val), index),
        call_ensures(LockFreeAppendOnlyVec::<T>::get, (final(v), index), read),
        call_ensures(LockFreeAppendOnlyVec::<T>::get, (old(v), other), before),
        call_ensures(LockFreeAppendOnlyVec::<T>::get, (final(v), other), after),
    ensures
        read == Some(val),
        before is Some ==> after == before,
        other != index && before is None ==> after is None,
{
}

} // verus!
