//! Sorting by a total order.

use vstd::prelude::*;

use crate::text::to_chars;

verus! {

/// A type whose values have a total order.
pub trait TotalOrder: Sized {
    /// `a` comes before `b`, or they rank the same.
    spec fn leq(a: Self, b: Self) -> bool;

    proof fn lemma_total(a: Self, b: Self)
        ensures
            Self::leq(a, b) || Self::leq(b, a),
    ;

    proof fn lemma_transitive(a: Self, b: Self, c: Self)
        requires
            Self::leq(a, b),
            Self::leq(b, c),
        ensures
            Self::leq(a, c),
    ;

    fn is_leq(a: &Self, b: &Self) -> (yes: bool)
        ensures
            yes == Self::leq(*a, *b),
    ;
}

/// No value comes after a later one.
pub open spec fn sorted<T: TotalOrder>(s: Seq<T>) -> bool {
    forall|i: int, j: int| 0 <= i <= j < s.len() ==> T::leq(#[trigger] s[i], #[trigger] s[j])
}

/// Puts `value` into the sorted `v`, after every value that does not come after it.
fn insert_sorted<T: TotalOrder>(v: &mut Vec<T>, value: T)
    requires
        sorted(old(v)@),
    ensures
        sorted(final(v)@),
        final(v)@.to_multiset() == old(v)@.to_multiset().insert(value),
        final(v)@.len() == old(v)@.len() + 1,
{
    let mut at: usize = v.len();
    while at > 0 && !T::is_leq(&v[at - 1], &value)
        invariant
            v@ == old(v)@,
            at <= v@.len(),
            forall|i: int| at <= i < v@.len() ==> !T::leq(#[trigger] v@[i], value),
        decreases at,
    {
        at -= 1;
    }
    let ghost before = v@;
    v.insert(at, value);
    proof {
        assert forall|i: int, j: int| 0 <= i <= j < v@.len() implies T::leq(
            #[trigger] v@[i],
            #[trigger] v@[j],
        ) by {
            if i == at && j == at {
                T::lemma_total(value, value);
            } else if j == at {
                if i < at - 1 {
                    T::lemma_transitive(before[i], before[at - 1], value);
                }
            } else if i == at {
                assert(v@[j] == before[j - 1]);
                T::lemma_total(value, before[j - 1]);
            } else {
                let a = if i < at { i } else { i - 1 };
                let b = if j < at { j } else { j - 1 };
                assert(v@[i] == before[a] && v@[j] == before[b]);
            }
        }
        assert(v@.remove(at as int) =~= before);
        vstd::seq_lib::to_multiset_remove(v@, at as int);
        v@.to_multiset_ensures();
        assert(v@.contains(v@[at as int]));
        assert(v@.to_multiset() =~= before.to_multiset().insert(value));
    }
}

/// The values of `v`, sorted. Values that rank the same keep their order.
pub fn sort<T: TotalOrder>(v: Vec<T>) -> (out: Vec<T>)
    ensures
        sorted(out@),
        out@.to_multiset() == v@.to_multiset(),
        out@.len() == v@.len(),
{
    let ghost all = v@;
    let mut rest = v;
    let mut out: Vec<T> = Vec::new();
    proof {
        all.to_multiset_ensures();
        assert(out@.to_multiset().add(rest@.to_multiset()) =~= all.to_multiset()) by {
            out@.to_multiset_ensures();
        }
    }
    while rest.len() > 0
        invariant
            sorted(out@),
            out@.to_multiset().add(rest@.to_multiset()) == all.to_multiset(),
            out@.len() + rest@.len() == all.len(),
        decreases rest@.len(),
    {
        let ghost before = rest@;
        let ghost done = out@;
        let value = rest.remove(0);
        insert_sorted(&mut out, value);
        proof {
            vstd::seq_lib::to_multiset_remove(before, 0);
            before.to_multiset_ensures();
            assert(before.contains(before[0]));
            assert(out@.to_multiset().add(rest@.to_multiset()) =~= done.to_multiset().add(
                before.to_multiset(),
            ));
        }
    }
    proof {
        rest@.to_multiset_ensures();
        assert(out@.to_multiset().add(rest@.to_multiset()) =~= out@.to_multiset());
    }
    out
}

/// Two arrangements of the same values stay arrangements of the same values under a function.
pub proof fn lemma_arrangements_map<A, B>(a: Seq<A>, b: Seq<A>, f: spec_fn(A) -> B)
    requires
        a.to_multiset() == b.to_multiset(),
    ensures
        a.map_values(f).to_multiset() == b.map_values(f).to_multiset(),
    decreases a.len(),
{
    a.to_multiset_ensures();
    b.to_multiset_ensures();
    if a.len() > 0 {
        let n = a.len() - 1;
        assert(b.contains(a[n])) by {
            assert(a.contains(a[n]));
            assert(b.to_multiset().count(a[n]) > 0);
        }
        let i = choose|i: int| 0 <= i < b.len() && b[i] == a[n];
        vstd::seq_lib::to_multiset_remove(a, n);
        vstd::seq_lib::to_multiset_remove(b, i);
        lemma_arrangements_map(a.remove(n), b.remove(i), f);
        let fa = a.map_values(f);
        let fb = b.map_values(f);
        vstd::seq_lib::to_multiset_remove(fa, n);
        vstd::seq_lib::to_multiset_remove(fb, i);
        assert(a.remove(n).map_values(f) =~= fa.remove(n));
        assert(b.remove(i).map_values(f) =~= fb.remove(i));
        fa.to_multiset_ensures();
        fb.to_multiset_ensures();
        assert(fa.contains(fa[n]));
        assert(fb.contains(fb[i]));
        assert(fa.to_multiset() =~= fa.to_multiset().remove(fa[n]).insert(fa[n]));
        assert(fb.to_multiset() =~= fb.to_multiset().remove(fb[i]).insert(fb[i]));
    } else {
        assert(a =~= b);
    }
}

/// Two sorted arrangements of the same values rank the same, place by place, where equal rank
/// means equal values.
pub proof fn law_sorting_is_determined<T: TotalOrder>(a: Seq<T>, b: Seq<T>)
    requires
        sorted(a),
        sorted(b),
        a.to_multiset() == b.to_multiset(),
        forall|x: T, y: T| #[trigger] T::leq(x, y) && #[trigger] T::leq(y, x) ==> x == y,
    ensures
        a == b,
    decreases a.len(),
{
    a.to_multiset_ensures();
    b.to_multiset_ensures();
    if a.len() > 0 {
        let n = a.len() - 1;
        assert(b.contains(a[n])) by {
            assert(a.contains(a[n]));
            assert(b.to_multiset().count(a[n]) > 0);
        }
        assert(a.contains(b[n])) by {
            assert(b.contains(b[n]));
            assert(a.to_multiset().count(b[n]) > 0);
        }
        let i = choose|i: int| 0 <= i < b.len() && b[i] == a[n];
        let j = choose|j: int| 0 <= j < a.len() && a[j] == b[n];
        assert(T::leq(b[i], b[n]));
        assert(T::leq(a[j], a[n]));
        assert(a[n] == b[n]);
        vstd::seq_lib::to_multiset_remove(a, n);
        vstd::seq_lib::to_multiset_remove(b, n);
        assert(a.remove(n) =~= a.drop_last());
        assert(b.remove(n) =~= b.drop_last());
        law_sorting_is_determined(a.drop_last(), b.drop_last());
        assert(a =~= a.drop_last().push(a[n]));
        assert(b =~= b.drop_last().push(b[n]));
    } else {
        assert(a =~= b);
    }
}

/// `a` comes before `b` as text: the first character that differs decides, and a prefix comes
/// first.
pub open spec fn text_leq(a: Seq<char>, b: Seq<char>) -> bool
    decreases a.len(),
{
    if a.len() == 0 {
        true
    } else if b.len() == 0 {
        false
    } else if a[0] != b[0] {
        a[0] < b[0]
    } else {
        text_leq(a.drop_first(), b.drop_first())
    }
}

pub proof fn lemma_text_leq_total(a: Seq<char>, b: Seq<char>)
    ensures
        text_leq(a, b) || text_leq(b, a),
        text_leq(a, b) && text_leq(b, a) ==> a == b,
    decreases a.len(),
{
    if a.len() == 0 || b.len() == 0 {
        if a.len() == 0 && b.len() == 0 {
            assert(a =~= b);
        }
    } else if a[0] == b[0] {
        lemma_text_leq_total(a.drop_first(), b.drop_first());
        if text_leq(a, b) && text_leq(b, a) {
            assert(a =~= seq![a[0]] + a.drop_first());
            assert(b =~= seq![b[0]] + b.drop_first());
        }
    }
}

pub proof fn lemma_text_leq_transitive(a: Seq<char>, b: Seq<char>, c: Seq<char>)
    requires
        text_leq(a, b),
        text_leq(b, c),
    ensures
        text_leq(a, c),
    decreases a.len(),
{
    if a.len() > 0 {
        if a[0] == b[0] && b[0] == c[0] {
            lemma_text_leq_transitive(a.drop_first(), b.drop_first(), c.drop_first());
        }
    }
}

/// Whether `a` comes before `b` as text, or is the same text.
pub fn is_text_leq(a: &str, b: &str) -> (yes: bool)
    ensures
        yes == text_leq(a@, b@),
{
    let x = to_chars(a);
    let y = to_chars(b);
    let mut i: usize = 0;
    assert(a@.skip(0) =~= a@ && b@.skip(0) =~= b@);
    while i < x.len() && i < y.len()
        invariant
            x@ == a@,
            y@ == b@,
            i <= a@.len(),
            i <= b@.len(),
            text_leq(a@, b@) == text_leq(a@.skip(i as int), b@.skip(i as int)),
        decreases a@.len() - i,
    {
        proof {
            assert(a@.skip(i as int)[0] == x@[i as int] && b@.skip(i as int)[0] == y@[i as int]);
            assert(a@.skip(i as int).drop_first() =~= a@.skip(i + 1));
            assert(b@.skip(i as int).drop_first() =~= b@.skip(i + 1));
        }
        if x[i] != y[i] {
            return x[i] < y[i];
        }
        i += 1;
    }
    i == x.len()
}

} // verus!
