//! Walks over sequences that the front end needs: with a separator, in lock step, by windows.

use vstd::prelude::*;

verus! {

/// The items with `sep` between each adjacent pair.
pub open spec fn separated<T>(items: Seq<T>, sep: T) -> Seq<T>
    decreases items.len(),
{
    if items.len() <= 1 {
        items
    } else {
        seq![items[0], sep] + separated(items.drop_first(), sep)
    }
}

/// How long the items are with separators between them.
pub proof fn lemma_separated_len<T>(items: Seq<T>, sep: T)
    ensures
        items.len() == 0 ==> separated(items, sep).len() == 0,
        items.len() > 0 ==> separated(items, sep).len() == 2 * items.len() - 1,
    decreases items.len(),
{
    if items.len() > 1 {
        lemma_separated_len(items.drop_first(), sep);
    }
}

/// A walk over items with a separator between each adjacent pair, and none before the first or
/// after the last.
pub struct SeparatedBy<T> {
    items: Vec<T>,
    at: usize,
    sep: T,
    needs_sep: bool,
}

impl<T: Copy> SeparatedBy<T> {
    pub closed spec fn wf(&self) -> bool {
        self.at <= self.items@.len()
    }

    /// What is still to come.
    pub closed spec fn view(&self) -> Seq<T> {
        let rest = self.items@.skip(self.at as int);
        if self.needs_sep && rest.len() > 0 {
            seq![self.sep] + separated(rest, self.sep)
        } else {
            separated(rest, self.sep)
        }
    }

    /// The next of what is still to come.
    pub fn next(&mut self) -> (item: Option<T>)
        requires
            old(self).wf(),
        ensures
            final(self).wf(),
            item == (if old(self)@.len() == 0 {
                None
            } else {
                Some(old(self)@[0])
            }),
            final(self)@ == (if old(self)@.len() == 0 {
                Seq::empty()
            } else {
                old(self)@.drop_first()
            }),
            final(self).owes() == (old(self)@.len() > 0 && !old(self).owes()),
    {
        let ghost rest = self.items@.skip(self.at as int);
        proof {
            lemma_separated_len(rest, self.sep);
        }
        // A separator is owed after every item, but only paid when another item follows.
        if self.needs_sep && self.at < self.items.len() {
            self.needs_sep = false;
            assert(self@ =~= old(self)@.drop_first());
            Some(self.sep)
        } else if self.at < self.items.len() {
            let item = self.items[self.at];
            self.at = self.at + 1;
            self.needs_sep = true;
            proof {
                assert(self.items@.skip(self.at as int) =~= rest.drop_first());
                assert(self@ =~= old(self)@.drop_first());
            }
            Some(item)
        } else {
            self.needs_sep = false;
            assert(self@ =~= Seq::empty());
            None
        }
    }

    /// A separator is owed: an item was handed out last.
    pub closed spec fn owes(&self) -> bool {
        self.needs_sep
    }

    /// How many are still to come: at least, and at most. The first is the largest number the
    /// machine has if there are more, and the second is none. A separator that is owed after the
    /// last item, and will not be paid, counts in the second.
    pub fn size_hint(&self) -> (hint: (usize, Option<usize>))
        requires
            self.wf(),
        ensures
            hint.0 == (if self@.len() <= usize::MAX {
                self@.len() as int
            } else {
                usize::MAX as int
            }),
            hint.1 == (if self@.len() == 0 && self.owes() {
                Some(1usize)
            } else if self@.len() <= usize::MAX {
                Some(self@.len() as usize)
            } else {
                None
            }),
    {
        let left: usize = self.items.len() - self.at;
        proof {
            lemma_separated_len(self.items@.skip(self.at as int), self.sep);
        }
        let owed: usize = if self.needs_sep {
            1
        } else {
            0
        };
        if left == 0 {
            return (0, Some(owed));
        }
        let most = match left.checked_add(left - 1) {
            Some(n) => n.checked_add(owed),
            None => None,
        };
        match most {
            Some(n) => (n, Some(n)),
            None => (usize::MAX, None),
        }
    }
}

/// What sequences of items can do.
pub trait IterExt<T> {
    spec fn items(&self) -> Seq<T>;

    /// The items with `sep` between each adjacent pair.
    fn separated_by(self, sep: T) -> (walk: SeparatedBy<T>) where Self: Sized, T: Copy
        ensures
            walk.wf(),
            walk@ == separated(self.items(), sep),
            !walk.owes(),
    ;

    /// Whether both sides are equally long and `eq` holds of every pair.
    fn eq_with<U, F: Fn(&T, &U) -> bool>(&self, other: &Vec<U>, eq: F) -> (same: bool)
        requires
            forall|i: int|
                0 <= i < self.items().len() && 0 <= i < other@.len() ==> call_requires(
                    eq,
                    (&#[trigger] self.items()[i], &other@[i]),
                ),
        ensures
            same ==> self.items().len() == other@.len() && forall|i: int|
                0 <= i < other@.len() ==> call_ensures(
                    eq,
                    (&#[trigger] self.items()[i], &other@[i]),
                    true,
                ),
            !same ==> self.items().len() != other@.len() || exists|i: int|
                0 <= i < other@.len() && call_ensures(
                    eq,
                    (&#[trigger] self.items()[i], &other@[i]),
                    false,
                ),
    ;
}

impl<T> IterExt<T> for Vec<T> {
    open spec fn items(&self) -> Seq<T> {
        self@
    }

    fn separated_by(self, sep: T) -> (walk: SeparatedBy<T>) where T: Copy {
        let walk = SeparatedBy { items: self, at: 0, sep, needs_sep: false };
        assert(walk.items@.skip(0) =~= walk.items@);
        walk
    }

    fn eq_with<U, F: Fn(&T, &U) -> bool>(&self, other: &Vec<U>, eq: F) -> (same: bool) {
        let mut i: usize = 0;
        while i < self.len()
            invariant
                i <= self@.len(),
                i <= other@.len(),
                forall|k: int|
                    0 <= k < self.items().len() && 0 <= k < other@.len() ==> call_requires(
                        eq,
                        (&#[trigger] self.items()[k], &other@[k]),
                    ),
                forall|k: int|
                    0 <= k < i ==> call_ensures(eq, (&#[trigger] self.items()[k], &other@[k]), true),
            decreases self@.len() - i,
        {
            if i >= other.len() {
                return false;
            }
            assert(self.items()[i as int] == self@[i as int]);
            if !eq(&self[i], &other[i]) {
                return false;
            }
            i += 1;
        }
        i == other.len()
    }
}

/// What slices of items can do.
pub trait SliceExt<T> {
    spec fn elements(&self) -> Seq<T>;

    /// Every run of `n` adjacent elements.
    fn windows_array(&self, n: usize) -> (windows: Vec<&[T]>)
        requires
            n > 0,
        ensures
            windows@.len() == (if n <= self.elements().len() {
                self.elements().len() - n + 1
            } else {
                0
            }),
            forall|k: int|
                0 <= k < windows@.len() ==> (#[trigger] windows@[k])@ == self.elements().subrange(
                    k,
                    k + n,
                ),
    ;
}

impl<T> SliceExt<T> for [T] {
    open spec fn elements(&self) -> Seq<T> {
        self@
    }

    fn windows_array(&self, n: usize) -> (windows: Vec<&[T]>) {
        let mut windows: Vec<&[T]> = Vec::new();
        let total: usize = self.len();
        if n > total {
            return windows;
        }
        let last: usize = total - n;
        let mut k: usize = 0;
        while k <= last
            invariant
                total == self@.len(),
                0 < n <= total,
                last == total - n,
                k <= last + 1,
                windows@.len() == k,
                forall|j: int|
                    0 <= j < windows@.len() ==> (#[trigger] windows@[j])@
                        == self.elements().subrange(j, j + n),
            decreases last + 1 - k,
        {
            windows.push(vstd::slice::slice_subrange(self, k, k + n));
            k += 1;
        }
        windows
    }
}

/// With separators between them the items are at the even places, in their order, and the odd
/// places hold separators.
pub proof fn law_items_and_separators_alternate<T>(items: Seq<T>, sep: T, i: int)
    requires
        0 <= i < items.len(),
    ensures
        separated(items, sep).len() == 2 * items.len() - 1,
        separated(items, sep)[2 * i] == items[i],
        i > 0 ==> separated(items, sep)[2 * i - 1] == sep,
    decreases items.len(),
{
    lemma_separated_len(items, sep);
    if items.len() > 1 {
        let rest = items.drop_first();
        lemma_separated_len(rest, sep);
        if i > 0 {
            law_items_and_separators_alternate(rest, sep, i - 1);
            assert(separated(items, sep)[2 * i] == separated(rest, sep)[2 * i - 2]);
            if i > 1 {
                assert(separated(items, sep)[2 * i - 1] == separated(rest, sep)[2 * i - 3]);
            }
        }
    }
}

} // verus!
