//! A partition of the cells into classes, kept by a disjoint-set forest.
//!
//! The disjoint set itself is an outside structure. What is assumed of it is
//! stated once, below; the `Partition` around it carries a labelling of the
//! cells and proves that the labelling always describes the same classes.

use crate::maze::graph::{merged_labels, own_labels};
use disjoint::DisjointSet;
use vstd::prelude::*;

verus! {

/// The disjoint set of the crate `disjoint`. What it holds is known by the
/// two names below only.
#[verifier::external_type_specification]
#[verifier::external_body]
pub struct ExDisjointSet(DisjointSet);

/// The pairs of elements that a disjoint set holds in one and the same
/// subset.
pub uninterp spec fn joined_pairs(set: DisjointSet) -> Set<(int, int)>;

/// The number of elements that a disjoint set tracks.
pub uninterp spec fn element_count(set: DisjointSet) -> nat;

/// The pairs held together once the subsets of `a` and `b` are made one:
/// those that were, and every pair across the two subsets.
pub open spec fn united_pairs(pairs: Set<(int, int)>, a: int, b: int) -> Set<(int, int)> {
    Set::new(
        |p: (int, int)|
            pairs.contains(p) || (pairs.contains((p.0, a)) && pairs.contains((b, p.1))) || (
            pairs.contains((p.0, b)) && pairs.contains((a, p.1))),
    )
}

/// Calls `DisjointSet::with_len`: a disjoint set of `len` elements, each in
/// a subset of its own, so that an element is held together with itself
/// only.
#[verifier::external_body]
fn set_with_len(len: usize) -> (set: DisjointSet)
    ensures
        element_count(set) == len,
        joined_pairs(set) == Set::new(|p: (int, int)| 0 <= p.0 < len && p.1 == p.0),
{
    DisjointSet::with_len(len)
}

/// Calls `DisjointSet::len`: the number of elements.
#[verifier::external_body]
fn set_len(set: &DisjointSet) -> (len: usize)
    ensures
        len == element_count(*set),
{
    set.len()
}

/// Calls `DisjointSet::is_joined`, which panics on an element out of
/// bounds: whether the two elements are in the same subset.
#[verifier::external_body]
fn set_is_joined(set: &DisjointSet, first: usize, second: usize) -> (joined: bool)
    requires
        first < element_count(*set),
        second < element_count(*set),
    ensures
        joined == joined_pairs(*set).contains((first as int, second as int)),
{
    set.is_joined(first, second)
}

/// Calls `DisjointSet::join`, which panics on an element out of bounds: the
/// subsets of the two elements become one, and the call says whether they
/// were two before. The number of elements stays.
#[verifier::external_body]
fn set_join(set: &mut DisjointSet, first: usize, second: usize) -> (changed: bool)
    requires
        first < element_count(*old(set)),
        second < element_count(*old(set)),
    ensures
        changed == !joined_pairs(*old(set)).contains((first as int, second as int)),
        element_count(*final(set)) == element_count(*old(set)),
        joined_pairs(*final(set)) == united_pairs(
            joined_pairs(*old(set)),
            first as int,
            second as int,
        ),
{
    set.join(first, second)
}

/// A partition of the elements `0..len` into classes, with a label for each
/// element: two elements carry the same label exactly when they are in the
/// same class.
pub struct Partition {
    set: DisjointSet,
    labels: Ghost<Seq<int>>,
}

impl Partition {
    /// The label of each element.
    pub closed spec fn labels(&self) -> Seq<int> {
        self.labels@
    }

    /// The labels describe the classes of the disjoint set.
    pub closed spec fn wf(&self) -> bool {
        &&& element_count(self.set) == self.labels@.len()
        &&& forall|a: int, b: int|
            0 <= a < self.labels@.len() && 0 <= b < self.labels@.len() ==> (#[trigger] joined_pairs(
                self.set,
            ).contains((a, b)) <==> self.labels@[a] == self.labels@[b])
    }

    /// The number of elements.
    pub open spec fn len(&self) -> nat {
        self.labels().len()
    }

    /// The partition of `len` elements into classes of one element each.
    pub fn new(len: usize) -> (partition: Partition)
        ensures
            partition.wf(),
            partition.labels() == own_labels(len as nat),
    {
        Partition { set: set_with_len(len), labels: Ghost(own_labels(len as nat)) }
    }

    /// The number of elements.
    pub fn count(&self) -> (count: usize)
        requires
            self.wf(),
        ensures
            count == self.len(),
    {
        set_len(&self.set)
    }

    /// Whether `a` and `b` are in the same class.
    pub fn same(&self, a: usize, b: usize) -> (joined: bool)
        requires
            self.wf(),
            a < self.len(),
            b < self.len(),
        ensures
            joined == (self.labels()[a as int] == self.labels()[b as int]),
    {
        set_is_joined(&self.set, a, b)
    }

    /// Makes the classes of `a` and `b` one: every element labelled like
    /// `b` is then labelled like `a`.
    pub fn unite(&mut self, a: usize, b: usize)
        requires
            old(self).wf(),
            a < old(self).len(),
            b < old(self).len(),
        ensures
            final(self).wf(),
            final(self).labels() == merged_labels(
                old(self).labels(),
                old(self).labels()[b as int],
                old(self).labels()[a as int],
            ),
    {
        let ghost before = self.labels@;
        let ghost pairs = joined_pairs(self.set);
        let _ = set_join(&mut self.set, a, b);
        self.labels = Ghost(merged_labels(before, before[b as int], before[a as int]));
        proof {
            let after = self.labels@;
            assert forall|p: int, q: int|
                0 <= p < after.len() && 0 <= q < after.len() implies (#[trigger] joined_pairs(
                self.set,
            ).contains((p, q)) <==> after[p] == after[q]) by {
                assert(pairs.contains((p, q)) <==> before[p] == before[q]);
                assert(pairs.contains((p, a as int)) <==> before[p] == before[a as int]);
                assert(pairs.contains((p, b as int)) <==> before[p] == before[b as int]);
                assert(pairs.contains((a as int, q)) <==> before[a as int] == before[q]);
                assert(pairs.contains((b as int, q)) <==> before[b as int] == before[q]);
            }
        }
    }
}

} // verus!
