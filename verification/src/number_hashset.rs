//! A set of cell indices, held densely by value.
//!
//! The incremental tick collects the indices that must be recomputed.
//! Those indices all lie in `[0, width * height)`, so the set is a
//! direct-lookup table over that range: insert and membership test are
//! single array accesses, with no hashing at all.

use vstd::prelude::*;

verus! {

/// A set of integers in `[0, capacity)`, fixed at construction.
pub struct NumberSet {
    present: Vec<bool>,
    nonempty: bool,
}

impl View for NumberSet {
    type V = Set<int>;

    closed spec fn view(&self) -> Set<int> {
        Set::new(|j: int| 0 <= j < self.present@.len() && self.present@[j])
    }
}

impl NumberSet {
    /// The one-past-the-largest value the set can hold.
    pub closed spec fn capacity(&self) -> int {
        self.present@.len() as int
    }

    /// The emptiness flag agrees with the table.
    pub closed spec fn wf(&self) -> bool {
        self.nonempty <==> exists|j: int|
            0 <= j < self.present@.len() && #[trigger] self.present@[j]
    }

    /// Add a value inside the capacity range.
    pub fn insert(&mut self, v: i32)
        requires
            old(self).wf(),
            0 <= v as int,
            (v as int) < old(self).capacity(),
        ensures
            final(self).wf(),
            final(self).capacity() == old(self).capacity(),
            final(self)@ == old(self)@.insert(v as int),
    {
        self.present[v as usize] = true;
        self.nonempty = true;
        proof {
            assert(self.present@[v as int]);
            assert(self@ =~= old(self)@.insert(v as int));
        }
    }

    /// Membership test for a value inside the capacity range.
    pub fn contains(&self, v: i32) -> (r: bool)
        requires
            self.wf(),
            0 <= v as int,
            (v as int) < self.capacity(),
        ensures
            r == self@.contains(v as int),
    {
        self.present[v as usize]
    }

    pub fn is_empty(&self) -> (r: bool)
        requires
            self.wf(),
        ensures
            r == self@.is_empty(),
    {
        proof {
            if self.nonempty {
                let j = choose|j: int|
                    0 <= j < self.present@.len() && #[trigger] self.present@[j];
                assert(self@.contains(j));
            } else {
                assert(self@ =~= Set::<int>::empty());
            }
        }
        !self.nonempty
    }
}

/// An empty set able to hold the values `0 .. cap`.
pub fn hashset(cap: usize) -> (s: NumberSet)
    ensures
        s.wf(),
        s.capacity() == cap as int,
        s@ == Set::<int>::empty(),
{
    let present: Vec<bool> = vec![false; cap];
    let s = NumberSet { present, nonempty: false };
    proof {
        assert(s@ =~= Set::<int>::empty());
    }
    s
}

} // verus!
