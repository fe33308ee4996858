//! The mutable, duplicate-tolerant, insertion-ordered builder.

use vstd::prelude::*;

use crate::order::Comparison;
use crate::order::TotalOrder;

verus! {

/// A mutable array-based multiset.
///
/// * Lookups and removals run in linear time
/// * Insertions run in amortized constant time
/// * Duplicate elements are permitted
///
/// This is the sole mutable entry point of the crate: a set is built up
/// through `insert` and `remove`, then converted exactly once into either a
/// [`MultiSet`](crate::MultiSet) (insertion order and duplicates kept) or a
/// [`SortedSet`](crate::SortedSet) (sorted and deduplicated). Its abstract
/// value, written `self@`, is the sequence of still-present elements in
/// insertion order.
#[derive(Clone, Debug, PartialEq, Eq, Hash)]
pub struct MultiSetMut<T> {
    list: Vec<T>,
}

impl<T> View for MultiSetMut<T> {
    type V = Seq<T>;

    closed spec fn view(&self) -> Seq<T> {
        self.list@
    }
}

impl<T> MultiSetMut<T> {
    /// Constructs a new, empty `MultiSetMut`.
    ///
    /// The set will not allocate until an element is inserted.
    pub fn new() -> (s: Self)
        ensures
            s@ == Seq::<T>::empty(),
    {
        MultiSetMut { list: Vec::new() }
    }

    /// Add a value to the set.
    ///
    /// The value is added even if the set already contains the given value.
    pub fn insert(&mut self, value: T)
        ensures
            final(self)@ == old(self)@.push(value),
    {
        self.list.push(value);
    }

    /// Get the elements of the set, in insertion order.
    ///
    /// The returned slice borrows the set and can be walked any number of
    /// times; removed elements do not appear in it.
    pub fn iter(&self) -> (r: &[T])
        ensures
            r@ == self@,
    {
        self.list.as_slice()
    }

    /// Returns the number of elements in the set. Duplicate elements are
    /// counted.
    pub fn len(&self) -> (n: usize)
        ensures
            n == self@.len(),
    {
        self.list.len()
    }

    /// Returns `true` if the set contains no elements.
    pub fn is_empty(&self) -> (b: bool)
        ensures
            b == (self@.len() == 0),
    {
        self.list.is_empty()
    }

    /// Hand the backing storage over to a frozen view.
    pub(crate) fn into_vec(self) -> (v: Vec<T>)
        ensures
            v@ == self@,
    {
        self.list
    }
}

impl<T: TotalOrder> MultiSetMut<T> {
    /// Returns `true` if the set contains a value, that is, if some stored
    /// element compares equal to `value` under the total order.
    pub fn contains(&self, value: &T) -> (b: bool)
        ensures
            b == self@.contains(*value),
    {
        let n = self.list.len();
        let mut i: usize = 0;
        while i < n
            invariant
                n == self@.len(),
                i <= n,
                forall|j: int| 0 <= j < i ==> self@[j] != *value,
            decreases n - i,
        {
            match self.list[i].compare(value) {
                Comparison::Equal => {
                    assert(self@[i as int] == *value);
                    return true;
                },
                _ => {},
            }
            i += 1;
        }
        false
    }

    /// Removes a value from the set. Returns true if the value was present
    /// in the set.
    ///
    /// If the set contains multiple values equal to the given value, only
    /// the most recently inserted is removed.
    pub fn remove(&mut self, value: &T) -> (b: bool)
        ensures
            b == old(self)@.contains(*value),
            final(self)@ == match old(self)@.index_of_last(*value) {
                Some(i) => old(self)@.remove(i),
                None => old(self)@,
            },
    {
        let ghost s0 = self@;
        proof {
            s0.index_of_last_ensures(*value);
        }
        let mut i: usize = self.list.len();
        while i > 0
            invariant
                s0 == old(self)@,
                self@ == s0,
                i <= s0.len(),
                forall|j: int| i <= j < s0.len() ==> s0[j] != *value,
            decreases i,
        {
            i -= 1;
            match self.list[i].compare(value) {
                Comparison::Equal => {
                    proof {
                        s0.index_of_last_ensures(*value);
                        assert(s0[i as int] == *value);
                        assert(s0.contains(*value));
                        let l = s0.index_of_last(*value).unwrap();
                        assert(l == i as int) by {
                            if l < i as int {
                                assert(s0[i as int] != *value);
                            }
                            if l > i as int {
                                assert(s0[l] != *value);
                            }
                        }
                    }
                    self.list.remove(i);
                    return true;
                },
                _ => {},
            }
        }
        proof {
            s0.index_of_last_ensures(*value);
            assert(forall|j: int| 0 <= j < s0.len() ==> s0[j] != *value);
            assert(!s0.contains(*value));
        }
        false
    }

    /// Removes all values equal to the given value from the set. Returns
    /// true if any values were removed.
    pub fn remove_all(&mut self, value: &T) -> (b: bool)
        ensures
            b == old(self)@.contains(*value),
            final(self)@ == old(self)@.filter(|y: T| y != *value),
    {
        let ghost s0 = self@;
        let ghost pred = |y: T| y != *value;
        let mut found = false;
        let mut i: usize = 0;
        let ghost j: int = 0;
        while i < self.list.len()
            invariant
                s0 == old(self)@,
                pred == (|y: T| y != *value),
                0 <= j <= s0.len(),
                i == s0.take(j).filter(pred).len(),
                self@ == s0.take(j).filter(pred) + s0.skip(j),
                found == s0.take(j).contains(*value),
                self@.len() == i + s0.len() - j,
            decreases s0.len() - j,
        {
            proof {
                assert(self@[i as int] == s0.skip(j)[0]);
                assert(s0.skip(j)[0] == s0[j]);
                assert(s0.take(j + 1) =~= s0.take(j).push(s0[j]));
                lemma_filter_push(s0.take(j), s0[j], pred);
            }
            match self.list[i].compare(value) {
                Comparison::Equal => {
                    proof {
                        assert(s0[j] == *value);
                        assert(!pred(s0[j]));
                        assert(s0.take(j + 1).filter(pred) == s0.take(j).filter(pred));
                        assert(s0.take(j + 1).contains(*value)) by {
                            assert(s0.take(j + 1)[j] == *value);
                        }
                    }
                    self.list.remove(i);
                    found = true;
                    proof {
                        assert(self@ =~= s0.take(j + 1).filter(pred) + s0.skip(j + 1)) by {
                            assert((s0.take(j).filter(pred) + s0.skip(j)).remove(i as int)
                                =~= s0.take(j).filter(pred) + s0.skip(j).remove(0));
                            assert(s0.skip(j).remove(0) =~= s0.skip(j + 1));
                        }
                        j = j + 1;
                    }
                },
                _ => {
                    proof {
                        assert(s0[j] != *value);
                        assert(pred(s0[j]));
                        assert(s0.take(j + 1).filter(pred) == s0.take(j).filter(pred).push(
                            s0[j],
                        ));
                        assert(self@ =~= s0.take(j + 1).filter(pred) + s0.skip(j + 1)) by {
                            assert(s0.skip(j) =~= seq![s0[j]] + s0.skip(j + 1));
                            assert(s0.take(j).filter(pred) + s0.skip(j) =~= s0.take(
                                j,
                            ).filter(pred).push(s0[j]) + s0.skip(j + 1));
                        }
                        assert(s0.take(j + 1).contains(*value) == s0.take(j).contains(*value))
                            by {
                            if s0.take(j).contains(*value) {
                                let w = choose|w: int|
                                    0 <= w < j && #[trigger] s0.take(j)[w] == *value;
                                assert(s0.take(j + 1)[w] == *value);
                            }
                            if s0.take(j + 1).contains(*value) {
                                let w = choose|w: int|
                                    0 <= w < j + 1 && #[trigger] s0.take(j + 1)[w] == *value;
                                assert(w < j);
                                assert(s0.take(j)[w] == *value);
                            }
                        }
                        j = j + 1;
                    }
                    i += 1;
                },
            }
        }
        proof {
            assert(j == s0.len());
            assert(s0.take(j) =~= s0);
            assert(s0.skip(j) =~= Seq::<T>::empty());
            assert(self@ =~= s0.filter(pred));
        }
        found
    }
}

/// Appending one element changes a filtered sequence by exactly that
/// element, when the element passes the filter, and not at all otherwise.
proof fn lemma_filter_push<T>(s: Seq<T>, x: T, pred: spec_fn(T) -> bool)
    ensures
        pred(x) ==> s.push(x).filter(pred) == s.filter(pred).push(x),
        !pred(x) ==> s.push(x).filter(pred) == s.filter(pred),
{
    reveal_with_fuel(Seq::<_>::filter, 2);
    assert(s.push(x).drop_last() =~= s);
    assert(s.push(x).last() == x);
    assert(s.push(x).len() == s.len() + 1);
}

} // verus!
