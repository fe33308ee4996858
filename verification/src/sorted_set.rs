//! The read-only view that sorts, deduplicates, and answers membership by
//! binary search.

use vstd::prelude::*;

use crate::multi_set_mut::MultiSetMut;
use crate::order::Comparison;
use crate::order::TotalOrder;
use crate::order::lt;
use crate::order::sorted_lt;

verus! {

/// A readonly array-based set.
///
/// * Lookups run in logarithmic time
/// * Duplicate elements are not permitted. When constructing a `SortedSet`
///   from a [`MultiSetMut`], elements are deduplicated.
///
/// The elements ascend strictly under the [`TotalOrder`] of `T`; since
/// elements that order both ways are the same value, a run of equal
/// elements in the builder collapses to that single shared value, so the
/// tie-break between duplicates is not observable. The abstract value,
/// written `self@`, is the strictly ascending element sequence.
#[derive(Debug, PartialEq, Eq, Hash)]
pub struct SortedSet<T: TotalOrder> {
    list: Vec<T>,
}

impl<T: TotalOrder> View for SortedSet<T> {
    type V = Seq<T>;

    closed spec fn view(&self) -> Seq<T> {
        self.list@
    }
}

impl<T: TotalOrder> SortedSet<T> {
    /// The elements always ascend strictly.
    #[verifier::type_invariant]
    spec fn well_formed(&self) -> bool {
        sorted_lt(self@)
    }

    /// Convert a [`MultiSetMut`] into a `SortedSet`, sorting its contents
    /// and collapsing equal elements to a single representative.
    ///
    /// The conversion consumes the builder. The result is strictly
    /// ascending and holds exactly the values the builder held.
    pub fn from(set: MultiSetMut<T>) -> (s: Self)
        ensures
            sorted_lt(s@),
            forall|x: T| s@.contains(x) <==> set@.contains(x),
    {
        let mut src = set.into_vec();
        let ghost s0 = src@;
        let mut out: Vec<T> = Vec::new();
        while src.len() > 0
            invariant
                s0 == set@,
                src@.len() <= s0.len(),
                src@ == s0.take(src@.len() as int),
                sorted_lt(out@),
                forall|x: T| out@.contains(x) <==> s0.skip(src@.len() as int).contains(x),
            decreases src.len(),
        {
            let ghost j = src@.len() as int;
            let x = match src.pop() {
                Some(x) => x,
                None => {
                    proof {
                        assert(false);
                    }
                    return SortedSet { list: out };
                },
            };
            proof {
                assert(x == s0.take(j)[j - 1]);
                assert(x == s0[j - 1]);
                assert(src@ =~= s0.take(j - 1));
                assert(s0.skip(j - 1).drop_first() =~= s0.skip(j));
                assert(s0.skip(j - 1)[0] == s0[j - 1]);
                assert forall|y: T|
                    s0.skip(j - 1).contains(y) <==> (y == x || s0.skip(j).contains(y)) by {
                    lemma_contains_split_first(s0.skip(j - 1), y);
                }
            }
            let ghost o0 = out@;
            let n = out.len();
            let mut pos: usize = 0;
            while pos < n && before(&out[pos], &x)
                invariant
                    out@ == o0,
                    n == o0.len(),
                    pos <= n,
                    forall|k: int| 0 <= k < pos ==> lt(#[trigger] o0[k], x),
                decreases n - pos,
            {
                pos += 1;
            }
            if pos < n {
                let c = out[pos].compare(&x);
                match c {
                    Comparison::Equal => {
                        proof {
                            assert(o0[pos as int] == x);
                            assert(o0.contains(x));
                        }
                    },
                    _ => {
                        proof {
                            lemma_insert_position(o0, x, pos as int);
                        }
                        out.insert(pos, x);
                        proof {
                            lemma_insert_keeps_order(o0, x, pos as int);
                            assert(forall|y: T|
                                out@.contains(y) <==> (y == x || o0.contains(y))) by {
                                lemma_insert_contains(o0, x, pos as int);
                            }
                        }
                    },
                }
            } else {
                proof {
                    lemma_insert_position(o0, x, pos as int);
                }
                out.insert(pos, x);
                proof {
                    lemma_insert_keeps_order(o0, x, pos as int);
                    assert(forall|y: T| out@.contains(y) <==> (y == x || o0.contains(y))) by {
                        lemma_insert_contains(o0, x, pos as int);
                    }
                }
            }
            proof {
                assert forall|y: T|
                    out@.contains(y) <==> s0.skip(src@.len() as int).contains(y) by {
                    assert(src@.len() as int == j - 1);
                    assert(o0.contains(y) <==> s0.skip(j).contains(y));
                    assert(s0.skip(j - 1).contains(y) <==> (y == x || s0.skip(j).contains(y)));
                    assert(out@.contains(y) <==> (y == x || o0.contains(y)));
                }
            }
        }
        proof {
            assert(s0.skip(0) =~= s0);
            assert(forall|x: T| out@.contains(x) <==> s0.contains(x));
        }
        SortedSet { list: out }
    }

    /// Returns `true` if the set contains a value, that is, if the one
    /// element equal to `value` under the total order is present. Decided
    /// by binary search.
    pub fn contains(&self, value: &T) -> (b: bool)
        ensures
            b == self@.contains(*value),
    {
        proof {
            use_type_invariant(&*self);
        }
        let mut lo: usize = 0;
        let mut hi: usize = self.list.len();
        while lo < hi
            invariant
                sorted_lt(self@),
                lo <= hi <= self@.len(),
                forall|k: int| 0 <= k < lo ==> self@[k] != *value,
                forall|k: int| hi <= k < self@.len() ==> self@[k] != *value,
            decreases hi - lo,
        {
            let mid = lo + (hi - lo) / 2;
            match self.list[mid].compare(value) {
                Comparison::Equal => {
                    assert(self@[mid as int] == *value);
                    return true;
                },
                Comparison::Less => {
                    proof {
                        lemma_below_is_absent(self@, *value, mid as int);
                    }
                    lo = mid + 1;
                },
                Comparison::Greater => {
                    proof {
                        lemma_above_is_absent(self@, *value, mid as int);
                    }
                    hi = mid;
                },
            }
        }
        proof {
            assert(forall|k: int| 0 <= k < self@.len() ==> self@[k] != *value);
        }
        false
    }

    /// Get the elements of the set, in ascending order.
    ///
    /// The returned slice borrows the set and can be walked any number of
    /// times.
    pub fn iter(&self) -> (r: &[T])
        ensures
            r@ == self@,
    {
        self.list.as_slice()
    }

    /// Returns the number of elements in the set.
    pub fn len(&self) -> (n: usize)
        ensures
            n == self@.len(),
    {
        self.list.len()
    }

    /// Returns `true` if the set contains no elements.
    pub fn is_empty(&self) -> (b: bool)
        ensures
            b == (self@.len() == 0),
    {
        self.list.is_empty()
    }
}

impl<T: TotalOrder + Copy> SortedSet<T> {
    /// Make a new `SortedSet` containing the values in the given slice of
    /// (element, marker) pairs.
    ///
    /// Provided for the sake of creating small constant sets, above all
    /// empty ones. The values in the slice must be in strictly ascending
    /// order under the [`TotalOrder`] of `T`, with no duplicates.
    pub fn from_slice(slice: &[(T, ())]) -> (s: Self)
        requires
            sorted_lt(slice@.map_values(|p: (T, ())| p.0)),
        ensures
            s@ == slice@.map_values(|p: (T, ())| p.0),
            sorted_lt(s@),
    {
        let ghost target = slice@.map_values(|p: (T, ())| p.0);
        let mut list: Vec<T> = Vec::new();
        let n = slice.len();
        let mut i: usize = 0;
        while i < n
            invariant
                n == slice@.len(),
                i <= n,
                list@.len() == i,
                forall|k: int| 0 <= k < i ==> list@[k] == slice@[k].0,
            decreases n - i,
        {
            list.push(slice[i].0);
            i += 1;
        }
        proof {
            assert(list@ =~= target);
        }
        SortedSet { list }
    }
}

/// Decide whether `a` orders strictly before `b`.
fn before<T: TotalOrder>(a: &T, b: &T) -> (r: bool)
    ensures
        r == lt(*a, *b),
{
    match a.compare(b) {
        Comparison::Less => true,
        Comparison::Equal => false,
        Comparison::Greater => {
            proof {
                if a.le(*b) {
                    T::lemma_antisymmetric(*a, *b);
                }
            }
            false
        },
    }
}

/// A non-empty sequence contains a value exactly when its first element is
/// that value or its remainder contains it.
proof fn lemma_contains_split_first<T>(s: Seq<T>, y: T)
    requires
        s.len() > 0,
    ensures
        s.contains(y) <==> (y == s[0] || s.drop_first().contains(y)),
{
    if s.drop_first().contains(y) {
        let k = choose|k: int| 0 <= k < s.drop_first().len() && s.drop_first()[k] == y;
        assert(s[k + 1] == y);
    }
    if s.contains(y) {
        let k = choose|k: int| 0 <= k < s.len() && s[k] == y;
        if k != 0 {
            assert(s.drop_first()[k - 1] == y);
        }
    }
}

/// In a strictly ascending sequence, if every element before `pos` is
/// strictly below `x` and `pos` is either the end or holds an element that
/// is neither below nor equal to `x`, then `x` is strictly below every
/// element from `pos` on and occurs nowhere: `pos` is where `x` belongs.
proof fn lemma_insert_position<T: TotalOrder>(s: Seq<T>, x: T, pos: int)
    requires
        sorted_lt(s),
        0 <= pos <= s.len(),
        forall|k: int| 0 <= k < pos ==> lt(#[trigger] s[k], x),
        pos < s.len() ==> !lt(s[pos], x) && s[pos] != x,
    ensures
        forall|k: int| pos <= k < s.len() ==> lt(x, #[trigger] s[k]),
        !s.contains(x),
{
    assert forall|k: int| pos <= k < s.len() implies lt(x, #[trigger] s[k]) by {
        T::lemma_total(s[pos], x);
        assert(x.le(s[pos]));
        if k > pos {
            assert(lt(s[pos], s[k]));
            T::lemma_transitive(x, s[pos], s[k]);
        }
        if x == s[k] {
            assert(s[pos].le(x));
            T::lemma_antisymmetric(s[pos], x);
        }
    }
    if s.contains(x) {
        let k = choose|k: int| 0 <= k < s.len() && s[k] == x;
        if k < pos {
            assert(lt(s[k], x));
        } else {
            assert(lt(x, s[k]));
        }
    }
}

/// Inserting a value that is strictly above everything before `pos` and
/// strictly below everything from `pos` on keeps the sequence strictly
/// ascending.
proof fn lemma_insert_keeps_order<T: TotalOrder>(s: Seq<T>, x: T, pos: int)
    requires
        sorted_lt(s),
        0 <= pos <= s.len(),
        forall|k: int| 0 <= k < pos ==> lt(#[trigger] s[k], x),
        forall|k: int| pos <= k < s.len() ==> lt(x, #[trigger] s[k]),
    ensures
        sorted_lt(s.insert(pos, x)),
{
    let w = s.insert(pos, x);
    s.insert_ensures(pos, x);
    assert forall|a: int, b: int| 0 <= a < b < w.len() implies lt(#[trigger] w[a], #[trigger] w[b]) by {
        if a < pos && b == pos {
            assert(w[a] == s[a] && w[b] == x);
        } else if a == pos {
            assert(w[a] == x && w[b] == s[b - 1]);
        } else if a < pos && b > pos {
            assert(w[a] == s[a] && w[b] == s[b - 1]);
            if a == b - 1 {
                assert(lt(s[a], x) && lt(x, s[b - 1]));
                T::lemma_transitive(s[a], x, s[b - 1]);
                if s[a] == s[b - 1] {
                    T::lemma_antisymmetric(x, s[b - 1]);
                }
            }
        } else if b < pos {
            assert(w[a] == s[a] && w[b] == s[b]);
        } else {
            assert(w[a] == s[a - 1] && w[b] == s[b - 1]);
        }
    }
}

/// Inserting a value anywhere adds exactly that value to the values a
/// sequence contains.
proof fn lemma_insert_contains<T>(s: Seq<T>, x: T, pos: int)
    requires
        0 <= pos <= s.len(),
    ensures
        forall|y: T| s.insert(pos, x).contains(y) <==> (y == x || s.contains(y)),
{
    let w = s.insert(pos, x);
    s.insert_ensures(pos, x);
    assert forall|y: T| w.contains(y) <==> (y == x || s.contains(y)) by {
        if w.contains(y) {
            let k = choose|k: int| 0 <= k < w.len() && w[k] == y;
            if k < pos {
                assert(s[k] == y);
            } else if k > pos {
                assert(s[k - 1] == y);
            }
        }
        if y == x {
            assert(w[pos] == y);
        }
        if s.contains(y) {
            let k = choose|k: int| 0 <= k < s.len() && s[k] == y;
            if k < pos {
                assert(w[k] == y);
            } else {
                assert(w[k + 1] == y);
            }
        }
    }
}

/// In a strictly ascending sequence, a value strictly above the element at
/// `mid` cannot sit at or before `mid`.
proof fn lemma_below_is_absent<T: TotalOrder>(s: Seq<T>, x: T, mid: int)
    requires
        sorted_lt(s),
        0 <= mid < s.len(),
        lt(s[mid], x),
    ensures
        forall|k: int| 0 <= k <= mid ==> s[k] != x,
{
    assert forall|k: int| 0 <= k <= mid implies s[k] != x by {
        if s[k] == x {
            if k < mid {
                assert(lt(s[k], s[mid]));
                assert(s[mid].le(x));
                T::lemma_antisymmetric(s[k], s[mid]);
                T::lemma_transitive(x, s[k], s[mid]);
            }
        }
    }
}

/// In a strictly ascending sequence, a value strictly below the element at
/// `mid` cannot sit at or after `mid`.
proof fn lemma_above_is_absent<T: TotalOrder>(s: Seq<T>, x: T, mid: int)
    requires
        sorted_lt(s),
        0 <= mid < s.len(),
        lt(x, s[mid]),
    ensures
        forall|k: int| mid <= k < s.len() ==> s[k] != x,
{
    assert forall|k: int| mid <= k < s.len() implies s[k] != x by {
        if s[k] == x {
            if k > mid {
                assert(lt(s[mid], s[k]));
                assert(x.le(s[mid]));
                T::lemma_antisymmetric(s[mid], s[k]);
                T::lemma_transitive(s[mid], s[k], x);
            }
        }
    }
}

/// Two strictly ascending sequences that contain the same values are the
/// same sequence: the sorted, deduplicated form of a collection of values
/// is unique.
pub proof fn lemma_sorted_distinct_unique<T: TotalOrder>(a: Seq<T>, b: Seq<T>)
    requires
        sorted_lt(a),
        sorted_lt(b),
        forall|x: T| a.contains(x) <==> b.contains(x),
    ensures
        a == b,
    decreases a.len(),
{
    if a.len() == 0 {
        if b.len() > 0 {
            assert(b.contains(b[0]));
            assert(a.contains(b[0]));
        }
        assert(a =~= b);
    } else {
        assert(a.contains(a[0]));
        assert(b.contains(a[0]));
        let ka = choose|k: int| 0 <= k < b.len() && b[k] == a[0];
        assert(b.contains(b[0]));
        assert(a.contains(b[0]));
        let kb = choose|k: int| 0 <= k < a.len() && a[k] == b[0];
        assert(b[0].le(a[0])) by {
            if ka > 0 {
                assert(lt(b[0], b[ka]));
            } else {
                T::lemma_total(b[0], a[0]);
            }
        }
        assert(a[0].le(b[0])) by {
            if kb > 0 {
                assert(lt(a[0], a[kb]));
            } else {
                T::lemma_total(a[0], b[0]);
            }
        }
        T::lemma_antisymmetric(a[0], b[0]);
        let a1 = a.drop_first();
        let b1 = b.drop_first();
        assert(sorted_lt(a1)) by {
            assert(forall|i: int, j: int|
                0 <= i < j < a1.len() ==> a1[i] == a[i + 1] && a1[j] == a[j + 1]);
        }
        assert(sorted_lt(b1)) by {
            assert(forall|i: int, j: int|
                0 <= i < j < b1.len() ==> b1[i] == b[i + 1] && b1[j] == b[j + 1]);
        }
        assert forall|x: T| a1.contains(x) <==> b1.contains(x) by {
            lemma_contains_split_first(a, x);
            lemma_contains_split_first(b, x);
            if a1.contains(x) {
                let k = choose|k: int| 0 <= k < a1.len() && a1[k] == x;
                assert(a1[k] == a[k + 1]);
                assert(lt(a[0], a[k + 1]));
            }
            if b1.contains(x) {
                let k = choose|k: int| 0 <= k < b1.len() && b1[k] == x;
                assert(b1[k] == b[k + 1]);
                assert(lt(b[0], b[k + 1]));
            }
        }
        lemma_sorted_distinct_unique(a1, b1);
        assert forall|i: int| 0 <= i < a.len() implies a[i] == b[i] by {
            if i > 0 {
                assert(a1[i - 1] == a[i]);
                assert(b1[i - 1] == b[i]);
            }
        }
        assert(a =~= b);
    }
}

} // verus!
