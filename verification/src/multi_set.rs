//! The read-only view that keeps insertion order and duplicates.

use vstd::prelude::*;

use crate::multi_set_mut::MultiSetMut;
use crate::order::Comparison;
use crate::order::TotalOrder;

verus! {

/// A readonly array-based multiset.
///
/// * Lookups run in linear time
/// * Duplicate elements are permitted
///
/// A `MultiSet` is the frozen form of a [`MultiSetMut`]: converting the
/// builder preserves exactly the order and the duplicate multiplicities it
/// held, and nothing can mutate the set afterwards. Its abstract value,
/// written `self@`, is that sequence of elements.
#[derive(Clone, Debug, PartialEq, Eq, Hash)]
pub struct MultiSet<T> {
    list: Vec<T>,
}

impl<T> View for MultiSet<T> {
    type V = Seq<T>;

    closed spec fn view(&self) -> Seq<T> {
        self.list@
    }
}

impl<T> MultiSet<T> {
    /// Freeze a [`MultiSetMut`] into a `MultiSet`.
    ///
    /// The conversion consumes the builder and takes over its backing
    /// storage unchanged: no reordering, no filtering, no copying of
    /// elements.
    pub fn from(set: MultiSetMut<T>) -> (s: Self)
        ensures
            s@ == set@,
    {
        MultiSet { list: set.into_vec() }
    }

    /// Get the elements of the set, in insertion order.
    ///
    /// The returned slice borrows the set and can be walked any number of
    /// times.
    pub fn iter(&self) -> (r: &[T])
        ensures
            r@ == self@,
    {
        self.list.as_slice()
    }

    /// Returns the number of elements in the set. Duplicate elements are
    /// counted.
    pub fn len(&self) -> (n: usize)
        ensures
            n == self@.len(),
    {
        self.list.len()
    }

    /// Returns `true` if the set contains no elements.
    pub fn is_empty(&self) -> (b: bool)
        ensures
            b == (self@.len() == 0),
    {
        self.list.is_empty()
    }
}

impl<T: Copy> MultiSet<T> {
    /// Make a new `MultiSet` containing the values in the given slice of
    /// (element, marker) pairs.
    ///
    /// Provided for the sake of creating small constant sets, above all
    /// empty ones. The slice is taken verbatim: order and duplicates are
    /// kept exactly as given.
    pub fn from_slice(slice: &[(T, ())]) -> (s: Self)
        ensures
            s@ == slice@.map_values(|p: (T, ())| p.0),
    {
        let ghost target = slice@.map_values(|p: (T, ())| p.0);
        let mut list: Vec<T> = Vec::new();
        let n = slice.len();
        let mut i: usize = 0;
        while i < n
            invariant
                n == slice@.len(),
                i <= n,
                list@.len() == i,
                forall|k: int| 0 <= k < i ==> list@[k] == slice@[k].0,
            decreases n - i,
        {
            list.push(slice[i].0);
            i += 1;
        }
        proof {
            assert(list@ =~= target);
        }
        MultiSet { list }
    }
}

impl<T: TotalOrder> MultiSet<T> {
    /// Returns `true` if the set contains a value, that is, if some stored
    /// element compares equal to `value` under the total order.
    pub fn contains(&self, value: &T) -> (b: bool)
        ensures
            b == self@.contains(*value),
    {
        let n = self.list.len();
        let mut i: usize = 0;
        while i < n
            invariant
                n == self@.len(),
                i <= n,
                forall|j: int| 0 <= j < i ==> self@[j] != *value,
            decreases n - i,
        {
            match self.list[i].compare(value) {
                Comparison::Equal => {
                    assert(self@[i as int] == *value);
                    return true;
                },
                _ => {},
            }
            i += 1;
        }
        false
    }
}

} // verus!
