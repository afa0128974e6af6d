//! Finite sets of broadcast values, carried as duplicate-free vectors so
//! that a snapshot can be put on the wire as a JSON array.

use vstd::prelude::*;

verus! {

/// A set of values. The vector holds each member exactly once; the
/// abstract content is the set of its elements.
pub struct ValueSet {
    pub items: Vec<usize>,
}

impl View for ValueSet {
    type V = Set<usize>;

    open spec fn view(&self) -> Set<usize> {
        self.items@.to_set()
    }
}

impl ValueSet {
    /// The vector holds no duplicates.
    pub open spec fn wf(self) -> bool {
        forall|i: int, j: int|
            0 <= i < j < self.items@.len() ==> self.items@[i] != self.items@[j]
    }

    /// The empty set.
    pub fn new() -> (r: Self)
        ensures
            r.wf(),
            r@ =~= Set::<usize>::empty(),
            r.items@ =~= Seq::<usize>::empty(),
    {
        ValueSet { items: Vec::new() }
    }

    pub fn len(&self) -> (r: usize)
        ensures
            r == self.items@.len(),
    {
        self.items.len()
    }

    pub fn get(&self, i: usize) -> (r: usize)
        requires
            i < self.items@.len(),
        ensures
            r == self.items@[i as int],
            self@.contains(r),
    {
        self.items[i]
    }

    pub fn contains(&self, v: usize) -> (r: bool)
        ensures
            r == self@.contains(v),
    {
        let n = self.items.len();
        let mut i: usize = 0;
        while i < n
            invariant
                0 <= i <= n,
                n == self.items@.len(),
                forall|k: int| 0 <= k < i ==> self.items@[k] != v,
            decreases n - i,
        {
            if self.items[i] == v {
                return true;
            }
            i = i + 1;
        }
        assert(!self.items@.contains(v));
        false
    }

    /// Add one value; the content grows by exactly that value.
    pub fn insert(&mut self, v: usize)
        requires
            old(self).wf(),
        ensures
            final(self).wf(),
            final(self)@ =~= old(self)@.insert(v),
    {
        if !self.contains(v) {
            let ghost before = self.items@;
            self.items.push(v);
            proof {
                before.lemma_push_to_set_commute(v);
                assert(self.items@ =~= before.push(v));
                assert(self.items@.to_set() =~= before.to_set().insert(v));
            }
        } else {
            proof {
                assert(self.items@.to_set() =~= self.items@.to_set().insert(v));
            }
        }
    }

    /// Add every value of a slice of values (duplicates allowed there);
    /// the content grows by exactly the slice's set of values.
    pub fn extend_from(&mut self, other: &Vec<usize>)
        requires
            old(self).wf(),
        ensures
            final(self).wf(),
            final(self)@ =~= old(self)@ + other@.to_set(),
    {
        let n = other.len();
        let mut i: usize = 0;
        while i < n
            invariant
                0 <= i <= n,
                n == other@.len(),
                self.wf(),
                self@ =~= old(self)@ + other@.subrange(0, i as int).to_set(),
            decreases n - i,
        {
            let ghost pre = self@;
            self.insert(other[i]);
            proof {
                assert(other@.subrange(0, i + 1) =~= other@.subrange(0, i as int).push(
                    other@[i as int],
                ));
                other@.subrange(0, i as int).lemma_push_to_set_commute(other@[i as int]);
                assert(other@.subrange(0, i + 1).to_set() =~= other@.subrange(
                    0,
                    i as int,
                ).to_set().insert(other@[i as int]));
                assert(pre.insert(other@[i as int]) =~= old(self)@ + other@.subrange(
                    0,
                    i + 1,
                ).to_set());
            }
            i = i + 1;
        }
        proof {
            assert(other@.subrange(0, n as int) =~= other@);
        }
    }

    /// Add every value of another set.
    pub fn union_with(&mut self, other: &ValueSet)
        requires
            old(self).wf(),
        ensures
            final(self).wf(),
            final(self)@ =~= old(self)@ + other@,
    {
        self.extend_from(&other.items);
    }

    /// A copy of the members, for putting on the wire.
    pub fn snapshot(&self) -> (r: Vec<usize>)
        ensures
            r@ == self.items@,
            r@.to_set() == self@,
    {
        let n = self.items.len();
        let mut r: Vec<usize> = Vec::new();
        let mut i: usize = 0;
        while i < n
            invariant
                0 <= i <= n,
                n == self.items@.len(),
                r@ =~= self.items@.subrange(0, i as int),
            decreases n - i,
        {
            r.push(self.items[i]);
            proof {
                assert(r@ =~= self.items@.subrange(0, i + 1));
            }
            i = i + 1;
        }
        proof {
            assert(r@ =~= self.items@);
        }
        r
    }
}

} // verus!
