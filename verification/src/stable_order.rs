//! Orders that are the same in every session.

use vstd::prelude::*;

use crate::sort::is_text_leq;
use crate::sort::lemma_text_leq_total;
use crate::sort::lemma_text_leq_transitive;
use crate::sort::text_leq;
use crate::sort::TotalOrder;

verus! {

/// A type whose order is the same in every session.
pub trait StableOrd: TotalOrder {
    /// Values that rank the same cannot be told apart.
    spec fn ranks_are_values() -> bool;

    /// The values cannot be told apart.
    spec fn alike(a: Self, b: Self) -> bool;

    /// Whether a sort need not keep the order of values that rank the same: they cannot be told
    /// apart.
    fn can_use_unstable_sort() -> (yes: bool)
        ensures
            yes == Self::ranks_are_values(),
    ;

    proof fn lemma_same_rank(a: Self, b: Self)
        requires
            Self::ranks_are_values(),
            Self::leq(a, b),
            Self::leq(b, a),
        ensures
            Self::alike(a, b),
    ;
}

impl TotalOrder for u32 {
    open spec fn leq(a: u32, b: u32) -> bool {
        a <= b
    }

    proof fn lemma_total(a: u32, b: u32) {
    }

    proof fn lemma_transitive(a: u32, b: u32, c: u32) {
    }

    fn is_leq(a: &u32, b: &u32) -> (yes: bool) {
        *a <= *b
    }
}

impl StableOrd for u32 {
    open spec fn ranks_are_values() -> bool {
        true
    }

    open spec fn alike(a: u32, b: u32) -> bool {
        a == b
    }

    fn can_use_unstable_sort() -> (yes: bool) {
        true
    }

    proof fn lemma_same_rank(a: u32, b: u32) {
    }
}

impl TotalOrder for u64 {
    open spec fn leq(a: u64, b: u64) -> bool {
        a <= b
    }

    proof fn lemma_total(a: u64, b: u64) {
    }

    proof fn lemma_transitive(a: u64, b: u64, c: u64) {
    }

    fn is_leq(a: &u64, b: &u64) -> (yes: bool) {
        *a <= *b
    }
}

impl StableOrd for u64 {
    open spec fn ranks_are_values() -> bool {
        true
    }

    open spec fn alike(a: u64, b: u64) -> bool {
        a == b
    }

    fn can_use_unstable_sort() -> (yes: bool) {
        true
    }

    proof fn lemma_same_rank(a: u64, b: u64) {
    }
}

impl TotalOrder for u128 {
    open spec fn leq(a: u128, b: u128) -> bool {
        a <= b
    }

    proof fn lemma_total(a: u128, b: u128) {
    }

    proof fn lemma_transitive(a: u128, b: u128, c: u128) {
    }

    fn is_leq(a: &u128, b: &u128) -> (yes: bool) {
        *a <= *b
    }
}

impl StableOrd for u128 {
    open spec fn ranks_are_values() -> bool {
        true
    }

    open spec fn alike(a: u128, b: u128) -> bool {
        a == b
    }

    fn can_use_unstable_sort() -> (yes: bool) {
        true
    }

    proof fn lemma_same_rank(a: u128, b: u128) {
    }
}

impl TotalOrder for bool {
    open spec fn leq(a: bool, b: bool) -> bool {
        !a || b
    }

    proof fn lemma_total(a: bool, b: bool) {
    }

    proof fn lemma_transitive(a: bool, b: bool, c: bool) {
    }

    fn is_leq(a: &bool, b: &bool) -> (yes: bool) {
        !*a || *b
    }
}

impl StableOrd for bool {
    open spec fn ranks_are_values() -> bool {
        true
    }

    open spec fn alike(a: bool, b: bool) -> bool {
        a == b
    }

    fn can_use_unstable_sort() -> (yes: bool) {
        true
    }

    proof fn lemma_same_rank(a: bool, b: bool) {
    }
}

/// Pairs are ordered by what comes first in them, and then by what comes second.
impl<T1: TotalOrder, T2: TotalOrder> TotalOrder for (T1, T2) {
    open spec fn leq(a: (T1, T2), b: (T1, T2)) -> bool {
        T1::leq(a.0, b.0) && (!T1::leq(b.0, a.0) || T2::leq(a.1, b.1))
    }

    proof fn lemma_total(a: (T1, T2), b: (T1, T2)) {
        T1::lemma_total(a.0, b.0);
        T2::lemma_total(a.1, b.1);
    }

    proof fn lemma_transitive(a: (T1, T2), b: (T1, T2), c: (T1, T2)) {
        T1::lemma_transitive(a.0, b.0, c.0);
        if T1::leq(c.0, a.0) {
            T1::lemma_transitive(c.0, a.0, b.0);
            T1::lemma_transitive(b.0, c.0, a.0);
            T2::lemma_transitive(a.1, b.1, c.1);
        }
    }

    fn is_leq(a: &(T1, T2), b: &(T1, T2)) -> (yes: bool) {
        T1::is_leq(&a.0, &b.0) && (!T1::is_leq(&b.0, &a.0) || T2::is_leq(&a.1, &b.1))
    }
}

impl<T1: StableOrd, T2: StableOrd> StableOrd for (T1, T2) {
    open spec fn ranks_are_values() -> bool {
        T1::ranks_are_values() && T2::ranks_are_values()
    }

    open spec fn alike(a: (T1, T2), b: (T1, T2)) -> bool {
        T1::alike(a.0, b.0) && T2::alike(a.1, b.1)
    }

    fn can_use_unstable_sort() -> (yes: bool) {
        T1::can_use_unstable_sort() && T2::can_use_unstable_sort()
    }

    proof fn lemma_same_rank(a: (T1, T2), b: (T1, T2)) {
        T1::lemma_same_rank(a.0, b.0);
        T2::lemma_same_rank(a.1, b.1);
    }
}

impl<T1: TotalOrder, T2: TotalOrder, T3: TotalOrder> TotalOrder for (T1, T2, T3) {
    open spec fn leq(a: (T1, T2, T3), b: (T1, T2, T3)) -> bool {
        T1::leq(a.0, b.0) && (!T1::leq(b.0, a.0) || <(T2, T3) as TotalOrder>::leq((a.1, a.2), (b.1, b.2)))
    }

    proof fn lemma_total(a: (T1, T2, T3), b: (T1, T2, T3)) {
        T1::lemma_total(a.0, b.0);
        <(T2, T3) as TotalOrder>::lemma_total((a.1, a.2), (b.1, b.2));
    }

    proof fn lemma_transitive(a: (T1, T2, T3), b: (T1, T2, T3), c: (T1, T2, T3)) {
        T1::lemma_transitive(a.0, b.0, c.0);
        if T1::leq(c.0, a.0) {
            T1::lemma_transitive(c.0, a.0, b.0);
            T1::lemma_transitive(b.0, c.0, a.0);
            <(T2, T3) as TotalOrder>::lemma_transitive((a.1, a.2), (b.1, b.2), (c.1, c.2));
        }
    }

    fn is_leq(a: &(T1, T2, T3), b: &(T1, T2, T3)) -> (yes: bool) {
        T1::is_leq(&a.0, &b.0) && (!T1::is_leq(&b.0, &a.0) || (T2::is_leq(&a.1, &b.1) && (!T2::is_leq(&b.1, &a.1) || (T3::is_leq(&a.2, &b.2)))))
    }
}

impl<T1: StableOrd, T2: StableOrd, T3: StableOrd> StableOrd for (T1, T2, T3) {
    open spec fn ranks_are_values() -> bool {
        T1::ranks_are_values() && T2::ranks_are_values() && T3::ranks_are_values()
    }

    open spec fn alike(a: (T1, T2, T3), b: (T1, T2, T3)) -> bool {
        T1::alike(a.0, b.0) && T2::alike(a.1, b.1) && T3::alike(a.2, b.2)
    }

    fn can_use_unstable_sort() -> (yes: bool) {
        T1::can_use_unstable_sort() && T2::can_use_unstable_sort() && T3::can_use_unstable_sort()
    }

    proof fn lemma_same_rank(a: (T1, T2, T3), b: (T1, T2, T3)) {
        T1::lemma_same_rank(a.0, b.0);
        <(T2, T3) as StableOrd>::lemma_same_rank((a.1, a.2), (b.1, b.2));
    }
}

impl<T1: TotalOrder, T2: TotalOrder, T3: TotalOrder, T4: TotalOrder> TotalOrder for (T1, T2, T3, T4) {
    open spec fn leq(a: (T1, T2, T3, T4), b: (T1, T2, T3, T4)) -> bool {
        T1::leq(a.0, b.0) && (!T1::leq(b.0, a.0) || <(T2, T3, T4) as TotalOrder>::leq((a.1, a.2, a.3), (b.1, b.2, b.3)))
    }

    proof fn lemma_total(a: (T1, T2, T3, T4), b: (T1, T2, T3, T4)) {
        T1::lemma_total(a.0, b.0);
        <(T2, T3, T4) as TotalOrder>::lemma_total((a.1, a.2, a.3), (b.1, b.2, b.3));
    }

    proof fn lemma_transitive(a: (T1, T2, T3, T4), b: (T1, T2, T3, T4), c: (T1, T2, T3, T4)) {
        T1::lemma_transitive(a.0, b.0, c.0);
        if T1::leq(c.0, a.0) {
            T1::lemma_transitive(c.0, a.0, b.0);
            T1::lemma_transitive(b.0, c.0, a.0);
            <(T2, T3, T4) as TotalOrder>::lemma_transitive((a.1, a.2, a.3), (b.1, b.2, b.3), (c.1, c.2, c.3));
        }
    }

    fn is_leq(a: &(T1, T2, T3, T4), b: &(T1, T2, T3, T4)) -> (yes: bool) {
        T1::is_leq(&a.0, &b.0) && (!T1::is_leq(&b.0, &a.0) || (T2::is_leq(&a.1, &b.1) && (!T2::is_leq(&b.1, &a.1) || (T3::is_leq(&a.2, &b.2) && (!T3::is_leq(&b.2, &a.2) || (T4::is_leq(&a.3, &b.3)))))))
    }
}

impl<T1: StableOrd, T2: StableOrd, T3: StableOrd, T4: StableOrd> StableOrd for (T1, T2, T3, T4) {
    open spec fn ranks_are_values() -> bool {
        T1::ranks_are_values() && T2::ranks_are_values() && T3::ranks_are_values() && T4::ranks_are_values()
    }

    open spec fn alike(a: (T1, T2, T3, T4), b: (T1, T2, T3, T4)) -> bool {
        T1::alike(a.0, b.0) && T2::alike(a.1, b.1) && T3::alike(a.2, b.2) && T4::alike(a.3, b.3)
    }

    fn can_use_unstable_sort() -> (yes: bool) {
        T1::can_use_unstable_sort() && T2::can_use_unstable_sort() && T3::can_use_unstable_sort() && T4::can_use_unstable_sort()
    }

    proof fn lemma_same_rank(a: (T1, T2, T3, T4), b: (T1, T2, T3, T4)) {
        T1::lemma_same_rank(a.0, b.0);
        <(T2, T3, T4) as StableOrd>::lemma_same_rank((a.1, a.2, a.3), (b.1, b.2, b.3));
    }
}

/// Nothing comes before anything.
impl<T: TotalOrder> TotalOrder for Option<T> {
    open spec fn leq(a: Option<T>, b: Option<T>) -> bool {
        match (a, b) {
            (Some(x), Some(y)) => T::leq(x, y),
            (Some(_), None) => false,
            (None, _) => true,
        }
    }

    proof fn lemma_total(a: Option<T>, b: Option<T>) {
        if a is Some && b is Some {
            T::lemma_total(a->0, b->0);
        }
    }

    proof fn lemma_transitive(a: Option<T>, b: Option<T>, c: Option<T>) {
        if a is Some && b is Some && c is Some {
            T::lemma_transitive(a->0, b->0, c->0);
        }
    }

    fn is_leq(a: &Option<T>, b: &Option<T>) -> (yes: bool) {
        match (a, b) {
            (Some(x), Some(y)) => T::is_leq(x, y),
            (Some(_), None) => false,
            (None, _) => true,
        }
    }
}

impl<T: StableOrd> StableOrd for Option<T> {
    open spec fn ranks_are_values() -> bool {
        T::ranks_are_values()
    }

    open spec fn alike(a: Option<T>, b: Option<T>) -> bool {
        match (a, b) {
            (Some(x), Some(y)) => T::alike(x, y),
            (None, None) => true,
            _ => false,
        }
    }

    fn can_use_unstable_sort() -> (yes: bool) {
        T::can_use_unstable_sort()
    }

    proof fn lemma_same_rank(a: Option<T>, b: Option<T>) {
        if a is Some {
            T::lemma_same_rank(a->0, b->0);
        }
    }
}

impl TotalOrder for u8 {
    open spec fn leq(a: u8, b: u8) -> bool {
        a <= b
    }

    proof fn lemma_total(a: u8, b: u8) {
    }

    proof fn lemma_transitive(a: u8, b: u8, c: u8) {
    }

    fn is_leq(a: &u8, b: &u8) -> (yes: bool) {
        *a <= *b
    }
}

impl StableOrd for u8 {
    open spec fn ranks_are_values() -> bool {
        true
    }

    open spec fn alike(a: u8, b: u8) -> bool {
        a == b
    }

    fn can_use_unstable_sort() -> (yes: bool) {
        true
    }

    proof fn lemma_same_rank(a: u8, b: u8) {
    }
}

impl TotalOrder for u16 {
    open spec fn leq(a: u16, b: u16) -> bool {
        a <= b
    }

    proof fn lemma_total(a: u16, b: u16) {
    }

    proof fn lemma_transitive(a: u16, b: u16, c: u16) {
    }

    fn is_leq(a: &u16, b: &u16) -> (yes: bool) {
        *a <= *b
    }
}

impl StableOrd for u16 {
    open spec fn ranks_are_values() -> bool {
        true
    }

    open spec fn alike(a: u16, b: u16) -> bool {
        a == b
    }

    fn can_use_unstable_sort() -> (yes: bool) {
        true
    }

    proof fn lemma_same_rank(a: u16, b: u16) {
    }
}

impl TotalOrder for usize {
    open spec fn leq(a: usize, b: usize) -> bool {
        a <= b
    }

    proof fn lemma_total(a: usize, b: usize) {
    }

    proof fn lemma_transitive(a: usize, b: usize, c: usize) {
    }

    fn is_leq(a: &usize, b: &usize) -> (yes: bool) {
        *a <= *b
    }
}

impl StableOrd for usize {
    open spec fn ranks_are_values() -> bool {
        true
    }

    open spec fn alike(a: usize, b: usize) -> bool {
        a == b
    }

    fn can_use_unstable_sort() -> (yes: bool) {
        true
    }

    proof fn lemma_same_rank(a: usize, b: usize) {
    }
}

impl TotalOrder for i8 {
    open spec fn leq(a: i8, b: i8) -> bool {
        a <= b
    }

    proof fn lemma_total(a: i8, b: i8) {
    }

    proof fn lemma_transitive(a: i8, b: i8, c: i8) {
    }

    fn is_leq(a: &i8, b: &i8) -> (yes: bool) {
        *a <= *b
    }
}

impl StableOrd for i8 {
    open spec fn ranks_are_values() -> bool {
        true
    }

    open spec fn alike(a: i8, b: i8) -> bool {
        a == b
    }

    fn can_use_unstable_sort() -> (yes: bool) {
        true
    }

    proof fn lemma_same_rank(a: i8, b: i8) {
    }
}

impl TotalOrder for i16 {
    open spec fn leq(a: i16, b: i16) -> bool {
        a <= b
    }

    proof fn lemma_total(a: i16, b: i16) {
    }

    proof fn lemma_transitive(a: i16, b: i16, c: i16) {
    }

    fn is_leq(a: &i16, b: &i16) -> (yes: bool) {
        *a <= *b
    }
}

impl StableOrd for i16 {
    open spec fn ranks_are_values() -> bool {
        true
    }

    open spec fn alike(a: i16, b: i16) -> bool {
        a == b
    }

    fn can_use_unstable_sort() -> (yes: bool) {
        true
    }

    proof fn lemma_same_rank(a: i16, b: i16) {
    }
}

impl TotalOrder for i32 {
    open spec fn leq(a: i32, b: i32) -> bool {
        a <= b
    }

    proof fn lemma_total(a: i32, b: i32) {
    }

    proof fn lemma_transitive(a: i32, b: i32, c: i32) {
    }

    fn is_leq(a: &i32, b: &i32) -> (yes: bool) {
        *a <= *b
    }
}

impl StableOrd for i32 {
    open spec fn ranks_are_values() -> bool {
        true
    }

    open spec fn alike(a: i32, b: i32) -> bool {
        a == b
    }

    fn can_use_unstable_sort() -> (yes: bool) {
        true
    }

    proof fn lemma_same_rank(a: i32, b: i32) {
    }
}

impl TotalOrder for i64 {
    open spec fn leq(a: i64, b: i64) -> bool {
        a <= b
    }

    proof fn lemma_total(a: i64, b: i64) {
    }

    proof fn lemma_transitive(a: i64, b: i64, c: i64) {
    }

    fn is_leq(a: &i64, b: &i64) -> (yes: bool) {
        *a <= *b
    }
}

impl StableOrd for i64 {
    open spec fn ranks_are_values() -> bool {
        true
    }

    open spec fn alike(a: i64, b: i64) -> bool {
        a == b
    }

    fn can_use_unstable_sort() -> (yes: bool) {
        true
    }

    proof fn lemma_same_rank(a: i64, b: i64) {
    }
}

impl TotalOrder for i128 {
    open spec fn leq(a: i128, b: i128) -> bool {
        a <= b
    }

    proof fn lemma_total(a: i128, b: i128) {
    }

    proof fn lemma_transitive(a: i128, b: i128, c: i128) {
    }

    fn is_leq(a: &i128, b: &i128) -> (yes: bool) {
        *a <= *b
    }
}

impl StableOrd for i128 {
    open spec fn ranks_are_values() -> bool {
        true
    }

    open spec fn alike(a: i128, b: i128) -> bool {
        a == b
    }

    fn can_use_unstable_sort() -> (yes: bool) {
        true
    }

    proof fn lemma_same_rank(a: i128, b: i128) {
    }
}

impl TotalOrder for isize {
    open spec fn leq(a: isize, b: isize) -> bool {
        a <= b
    }

    proof fn lemma_total(a: isize, b: isize) {
    }

    proof fn lemma_transitive(a: isize, b: isize, c: isize) {
    }

    fn is_leq(a: &isize, b: &isize) -> (yes: bool) {
        *a <= *b
    }
}

impl StableOrd for isize {
    open spec fn ranks_are_values() -> bool {
        true
    }

    open spec fn alike(a: isize, b: isize) -> bool {
        a == b
    }

    fn can_use_unstable_sort() -> (yes: bool) {
        true
    }

    proof fn lemma_same_rank(a: isize, b: isize) {
    }
}

impl TotalOrder for char {
    open spec fn leq(a: char, b: char) -> bool {
        a <= b
    }

    proof fn lemma_total(a: char, b: char) {
    }

    proof fn lemma_transitive(a: char, b: char, c: char) {
    }

    fn is_leq(a: &char, b: &char) -> (yes: bool) {
        *a <= *b
    }
}

impl StableOrd for char {
    open spec fn ranks_are_values() -> bool {
        true
    }

    open spec fn alike(a: char, b: char) -> bool {
        a == b
    }

    fn can_use_unstable_sort() -> (yes: bool) {
        true
    }

    proof fn lemma_same_rank(a: char, b: char) {
    }
}

impl TotalOrder for () {
    open spec fn leq(a: (), b: ()) -> bool {
        true
    }

    proof fn lemma_total(a: (), b: ()) {
    }

    proof fn lemma_transitive(a: (), b: (), c: ()) {
    }

    fn is_leq(a: &(), b: &()) -> (yes: bool) {
        true
    }
}

impl StableOrd for () {
    open spec fn ranks_are_values() -> bool {
        true
    }

    open spec fn alike(a: (), b: ()) -> bool {
        a == b
    }

    fn can_use_unstable_sort() -> (yes: bool) {
        true
    }

    proof fn lemma_same_rank(a: (), b: ()) {
    }
}

/// Texts are in the order of their characters.
impl TotalOrder for String {
    open spec fn leq(a: String, b: String) -> bool {
        text_leq(a@, b@)
    }

    proof fn lemma_total(a: String, b: String) {
        lemma_text_leq_total(a@, b@);
    }

    proof fn lemma_transitive(a: String, b: String, c: String) {
        lemma_text_leq_transitive(a@, b@, c@);
    }

    fn is_leq(a: &String, b: &String) -> (yes: bool) {
        is_text_leq(a.as_str(), b.as_str())
    }
}

impl StableOrd for String {
    open spec fn ranks_are_values() -> bool {
        true
    }

    open spec fn alike(a: String, b: String) -> bool {
        a@ == b@
    }

    fn can_use_unstable_sort() -> (yes: bool) {
        true
    }

    proof fn lemma_same_rank(a: String, b: String) {
        lemma_text_leq_total(a@, b@);
    }
}

impl<'a> TotalOrder for &'a str {
    open spec fn leq(a: &'a str, b: &'a str) -> bool {
        text_leq(a@, b@)
    }

    proof fn lemma_total(a: &'a str, b: &'a str) {
        lemma_text_leq_total(a@, b@);
    }

    proof fn lemma_transitive(a: &'a str, b: &'a str, c: &'a str) {
        lemma_text_leq_transitive(a@, b@, c@);
    }

    fn is_leq(a: &&'a str, b: &&'a str) -> (yes: bool) {
        is_text_leq(*a, *b)
    }
}

impl<'a> StableOrd for &'a str {
    open spec fn ranks_are_values() -> bool {
        true
    }

    open spec fn alike(a: &'a str, b: &'a str) -> bool {
        a@ == b@
    }

    fn can_use_unstable_sort() -> (yes: bool) {
        true
    }

    proof fn lemma_same_rank(a: &'a str, b: &'a str) {
        lemma_text_leq_total(a@, b@);
    }
}

/// A reference ranks as what it refers to does.
impl<'a, T: TotalOrder> TotalOrder for &'a T {
    open spec fn leq(a: &'a T, b: &'a T) -> bool {
        T::leq(*a, *b)
    }

    proof fn lemma_total(a: &'a T, b: &'a T) {
        T::lemma_total(*a, *b);
    }

    proof fn lemma_transitive(a: &'a T, b: &'a T, c: &'a T) {
        T::lemma_transitive(*a, *b, *c);
    }

    fn is_leq(a: &&'a T, b: &&'a T) -> (yes: bool) {
        T::is_leq(*a, *b)
    }
}

impl<'a, T: StableOrd> StableOrd for &'a T {
    open spec fn ranks_are_values() -> bool {
        T::ranks_are_values()
    }

    open spec fn alike(a: &'a T, b: &'a T) -> bool {
        T::alike(*a, *b)
    }

    fn can_use_unstable_sort() -> (yes: bool) {
        T::can_use_unstable_sort()
    }

    proof fn lemma_same_rank(a: &'a T, b: &'a T) {
        T::lemma_same_rank(*a, *b);
    }
}

/// A type whose values can be compared in a way that is the same in every session.
pub trait StableCompare {
    spec fn comes_before(&self, other: &Self) -> bool;

    fn stable_cmp(&self, other: &Self) -> (ordering: core::cmp::Ordering)
        ensures
            (ordering is Less) == (self.comes_before(other) && !other.comes_before(self)),
            (ordering is Greater) == (other.comes_before(self) && !self.comes_before(other)),
            (ordering is Equal) == (self.comes_before(other) && other.comes_before(self)),
    ;
}

/// A stable order gives a stable comparison.
impl<T: StableOrd> StableCompare for T {
    open spec fn comes_before(&self, other: &Self) -> bool {
        T::leq(*self, *other)
    }

    fn stable_cmp(&self, other: &Self) -> (ordering: core::cmp::Ordering) {
        proof {
            T::lemma_total(*self, *other);
        }
        if !T::is_leq(self, other) {
            core::cmp::Ordering::Greater
        } else if T::is_leq(other, self) {
            core::cmp::Ordering::Equal
        } else {
            core::cmp::Ordering::Less
        }
    }
}

/// Numbers rank by their size.
pub proof fn law_numbers_rank_by_size(
    u8_a: u8,
    u8_b: u8,
    u16_a: u16,
    u16_b: u16,
    u32_a: u32,
    u32_b: u32,
    u64_a: u64,
    u64_b: u64,
    u128_a: u128,
    u128_b: u128,
    usize_a: usize,
    usize_b: usize,
)
    ensures
        <u8>::leq(u8_a, u8_b) <==> u8_a <= u8_b,
        <u16>::leq(u16_a, u16_b) <==> u16_a <= u16_b,
        <u32>::leq(u32_a, u32_b) <==> u32_a <= u32_b,
        <u64>::leq(u64_a, u64_b) <==> u64_a <= u64_b,
        <u128>::leq(u128_a, u128_b) <==> u128_a <= u128_b,
        <usize>::leq(usize_a, usize_b) <==> usize_a <= usize_b,
{
}

/// Signed numbers rank by their size, negative ones first.
pub proof fn law_signed_numbers_rank_by_size(
    i8_a: i8,
    i8_b: i8,
    i16_a: i16,
    i16_b: i16,
    i32_a: i32,
    i32_b: i32,
    i64_a: i64,
    i64_b: i64,
    i128_a: i128,
    i128_b: i128,
    isize_a: isize,
    isize_b: isize,
)
    ensures
        <i8>::leq(i8_a, i8_b) <==> i8_a <= i8_b,
        <i16>::leq(i16_a, i16_b) <==> i16_a <= i16_b,
        <i32>::leq(i32_a, i32_b) <==> i32_a <= i32_b,
        <i64>::leq(i64_a, i64_b) <==> i64_a <= i64_b,
        <i128>::leq(i128_a, i128_b) <==> i128_a <= i128_b,
        <isize>::leq(isize_a, isize_b) <==> isize_a <= isize_b,
{
}

/// Characters rank by their numbers, texts by the first character in which they differ, and what is
/// false comes before what is true.
pub proof fn law_letters_rank_by_number(a: char, b: char, x: bool, y: bool, s: String, t: String)
    ensures
        char::leq(a, b) <==> a as u32 <= b as u32,
        bool::leq(x, y) <==> x == y || y,
        String::leq(s, t) <==> text_leq(s@, t@),
{
}

/// A pair comes before another exactly if what is first in it does, or if that ranks the same and
/// what is second does.
pub proof fn law_pairs_rank_by_what_comes_first<A: TotalOrder, B: TotalOrder>(
    a: (A, B),
    b: (A, B),
)
    ensures
        A::leq(a.0, b.0) && !A::leq(b.0, a.0) ==> <(A, B)>::leq(a, b),
        !A::leq(a.0, b.0) ==> !<(A, B)>::leq(a, b),
        A::leq(a.0, b.0) && A::leq(b.0, a.0) ==> (<(A, B)>::leq(a, b) <==> B::leq(a.1, b.1)),
{
}

/// More than two values rank by the first, and where that ranks the same by the rest.
pub proof fn law_tuples_rank_by_what_comes_first<
    A: TotalOrder,
    B: TotalOrder,
    C: TotalOrder,
    D: TotalOrder,
>(a: (A, B, C, D), b: (A, B, C, D))
    ensures
        A::leq(a.0, b.0) && !A::leq(b.0, a.0) ==> <(A, B, C, D)>::leq(a, b) && <(A, B, C)>::leq(
            (a.0, a.1, a.2),
            (b.0, b.1, b.2),
        ),
        !A::leq(a.0, b.0) ==> !<(A, B, C, D)>::leq(a, b) && !<(A, B, C)>::leq(
            (a.0, a.1, a.2),
            (b.0, b.1, b.2),
        ),
        A::leq(a.0, b.0) && A::leq(b.0, a.0) ==> {
            &&& <(A, B, C)>::leq((a.0, a.1, a.2), (b.0, b.1, b.2)) <==> <(B, C)>::leq(
                (a.1, a.2),
                (b.1, b.2),
            )
            &&& <(A, B, C, D)>::leq(a, b) <==> <(B, C, D)>::leq(
                (a.1, a.2, a.3),
                (b.1, b.2, b.3),
            )
        },
{
}

/// Nothing comes before everything, and two values rank as they do by themselves.
pub proof fn law_nothing_comes_first<T: TotalOrder>(a: T, b: T)
    ensures
        <Option<T>>::leq(None, None),
        <Option<T>>::leq(None, Some(a)),
        !<Option<T>>::leq(Some(a), None),
        <Option<T>>::leq(Some(a), Some(b)) <==> T::leq(a, b),
{
}

} // verus!
