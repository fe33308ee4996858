//! Array-backed set types.
//!
//! Three related collection types share one lifecycle: a mutable,
//! duplicate-tolerant, insertion-ordered builder ([`MultiSetMut`]) is filled
//! up front and then converted exactly once, either into an order- and
//! duplicate-preserving read-only view ([`MultiSet`]) or into a sorted,
//! deduplicated read-only view with binary-search membership
//! ([`SortedSet`]). All three are backed by a plain growable array, which
//! suits sets that are built all at once and only queried thereafter.
//!
//! Elements are compared through the [`TotalOrder`] trait: membership,
//! removal, sorting and deduplication all go by that order, and two elements
//! count as the same exactly when neither orders strictly before the other.

pub mod multi_set;
pub mod multi_set_mut;
pub mod order;
pub mod sorted_set;

pub use multi_set::MultiSet;
pub use multi_set_mut::MultiSetMut;
pub use sorted_set::SortedSet;
pub use sorted_set::lemma_sorted_distinct_unique;
pub use order::Comparison;
pub use order::TotalOrder;
pub use order::sorted_lt;
