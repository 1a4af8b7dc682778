//! Small sets of identifiers.

use vstd::prelude::*;
use crate::ids::{
    BuildingID, IntersectionID, LaneID, ParkingLotID, RoadID, TransitRouteID, TurnID,
};

verus! {

/// A value that can be compared for equality in running code.
pub trait Key: Copy {
    /// Whether the two values are the same.
    fn same(&self, other: &Self) -> (b: bool)
        ensures
            b == (*self == *other),
    ;
}

impl Key for usize {
    fn same(&self, other: &Self) -> (b: bool) {
        *self == *other
    }
}

impl Key for RoadID {
    fn same(&self, other: &Self) -> (b: bool) {
        *self == *other
    }
}

impl Key for IntersectionID {
    fn same(&self, other: &Self) -> (b: bool) {
        *self == *other
    }
}

impl Key for BuildingID {
    fn same(&self, other: &Self) -> (b: bool) {
        *self == *other
    }
}

impl Key for ParkingLotID {
    fn same(&self, other: &Self) -> (b: bool) {
        *self == *other
    }
}

impl Key for TransitRouteID {
    fn same(&self, other: &Self) -> (b: bool) {
        *self == *other
    }
}

impl Key for crate::control::RoadWithStopSign {
    fn same(&self, other: &Self) -> (b: bool) {
        *self == *other
    }
}

impl Key for crate::control::SignalEntry {
    fn same(&self, other: &Self) -> (b: bool) {
        *self == *other
    }
}

impl Key for crate::units::Duration {
    fn same(&self, other: &Self) -> (b: bool) {
        *self == *other
    }
}

impl Key for crate::units::Time {
    fn same(&self, other: &Self) -> (b: bool) {
        *self == *other
    }
}

impl Key for crate::lane::LaneSpec {
    fn same(&self, other: &Self) -> (b: bool) {
        *self == *other
    }
}

impl Key for crate::turn::Turn {
    fn same(&self, other: &Self) -> (b: bool) {
        *self == *other
    }
}

impl Key for crate::geometry::Pt2D {
    fn same(&self, other: &Self) -> (b: bool) {
        *self == *other
    }
}

impl Key for crate::ids::RoadSideID {
    fn same(&self, other: &Self) -> (b: bool) {
        *self == *other
    }
}

impl Key for LaneID {
    fn same(&self, other: &Self) -> (b: bool) {
        *self == *other
    }
}

impl Key for TurnID {
    fn same(&self, other: &Self) -> (b: bool) {
        *self == *other
    }
}

/// Pushing onto a sequence adds one element to the values it contains.
pub proof fn lemma_push_contains<K>(s: Seq<K>, k: K)
    ensures
        forall|x: K| #[trigger] s.push(k).contains(x) <==> (s.contains(x) || x == k),
{
    assert forall|x: K| #[trigger] s.push(k).contains(x) <==> (s.contains(x) || x == k) by {
        if s.push(k).contains(x) {
            let i = choose|i: int| 0 <= i < s.push(k).len() && s.push(k)[i] == x;
            if i < s.len() {
                assert(s[i] == x);
            }
        }
        if s.contains(x) {
            let i = choose|i: int| 0 <= i < s.len() && s[i] == x;
            assert(s.push(k)[i] == x);
        }
        if x == k {
            assert(s.push(k)[s.len() as int] == x);
        }
    }
}

/// A finite set of identifiers.
pub struct IdSet<K: Key> {
    items: Vec<K>,
}

impl<K: Key> View for IdSet<K> {
    type V = Set<K>;

    closed spec fn view(&self) -> Set<K> {
        self.items@.to_set()
    }
}

impl<K: Key> IdSet<K> {
    /// The empty set.
    pub fn new() -> (s: Self)
        ensures
            s@ == Set::<K>::empty(),
    {
        let s = IdSet { items: Vec::new() };
        proof {
            assert(s.items@.to_set() =~= Set::<K>::empty());
        }
        s
    }

    /// Whether the set holds `k`.
    pub fn contains(&self, k: K) -> (b: bool)
        ensures
            b == self@.contains(k),
    {
        let mut i: usize = 0;
        while i < self.items.len()
            invariant
                i <= self.items.len(),
                forall|j: int| 0 <= j < i ==> self.items@[j] != k,
            decreases self.items.len() - i,
        {
            if self.items[i].same(&k) {
                return true;
            }
            i = i + 1;
        }
        false
    }

    /// Adds `k` to the set.
    pub fn insert(&mut self, k: K)
        ensures
            final(self)@ == old(self)@.insert(k),
    {
        if !self.contains(k) {
            proof {
                lemma_push_contains(self.items@, k);
            }
            self.items.push(k);
        }
        proof {
            assert(self.items@.to_set() =~= old(self).items@.to_set().insert(k));
        }
    }

    /// Takes `k` out of the set.
    pub fn remove(&mut self, k: K)
        ensures
            final(self)@ == old(self)@.remove(k),
    {
        let mut kept: Vec<K> = Vec::new();
        let mut i: usize = 0;
        while i < self.items.len()
            invariant
                i <= self.items.len(),
                self.items@ == old(self).items@,
                forall|x: K|
                    #![trigger kept@.contains(x)]
                    #![trigger self.items@.take(i as int).contains(x)]
                    kept@.contains(x) <==> (self.items@.take(i as int).contains(x) && x != k),
            decreases self.items.len() - i,
        {
            proof {
                lemma_push_contains(self.items@.take(i as int), self.items@[i as int]);
                lemma_push_contains(kept@, self.items@[i as int]);
                assert(self.items@.take(i + 1) =~= self.items@.take(i as int).push(
                    self.items@[i as int],
                ));
            }
            let ghost kept_before = kept@;
            if !self.items[i].same(&k) {
                kept.push(self.items[i]);
            }
            proof {
                assert forall|x: K|
                    #![trigger kept@.contains(x)]
                    #![trigger self.items@.take(i + 1).contains(x)]
                    kept@.contains(x) <==> (self.items@.take(i + 1).contains(x) && x != k) by {
                    assert(self.items@.take(i as int).push(self.items@[i as int]).contains(x) <==> (
                    self.items@.take(i as int).contains(x) || x == self.items@[i as int]));
                    assert(kept_before.push(self.items@[i as int]).contains(x) <==> (
                    kept_before.contains(x) || x == self.items@[i as int]));
                }
            }
            i = i + 1;
        }
        proof {
            assert(self.items@.take(i as int) =~= self.items@);
            assert(kept@.to_set() =~= self.items@.to_set().remove(k));
        }
        self.items = kept;
    }

    /// Whether the set holds nothing.
    pub fn is_empty(&self) -> (b: bool)
        ensures
            b == (self@ == Set::<K>::empty()),
    {
        proof {
            if self.items@.len() > 0 {
                assert(self.items@.contains(self.items@[0]));
                assert(self@.contains(self.items@[0]));
            } else {
                assert(self@ =~= Set::<K>::empty());
            }
        }
        self.items.len() == 0
    }

    /// The elements, in the order in which they were added.
    pub fn elements(&self) -> (v: Vec<K>)
        ensures
            v@.to_set() == self@,
    {
        let mut v: Vec<K> = Vec::new();
        let mut i: usize = 0;
        while i < self.items.len()
            invariant
                i <= self.items.len(),
                v@ == self.items@.take(i as int),
            decreases self.items.len() - i,
        {
            v.push(self.items[i]);
            proof {
                assert(v@ =~= self.items@.take(i + 1));
            }
            i = i + 1;
        }
        proof {
            assert(self.items@.take(i as int) =~= self.items@);
        }
        v
    }

    /// Adds every element of `other` to the set.
    pub fn extend(&mut self, other: &IdSet<K>)
        ensures
            final(self)@ == old(self)@.union(other@),
    {
        let mut i: usize = 0;
        while i < other.items.len()
            invariant
                i <= other.items.len(),
                self@ == old(self)@.union(other.items@.take(i as int).to_set()),
            decreases other.items.len() - i,
        {
            let ghost before = self@;
            self.insert(other.items[i]);
            proof {
                lemma_push_contains(other.items@.take(i as int), other.items@[i as int]);
                assert(other.items@.take(i + 1) =~= other.items@.take(i as int).push(
                    other.items@[i as int],
                ));
                assert forall|x: K|
                    self@.contains(x) <==> old(self)@.union(
                        other.items@.take(i + 1).to_set(),
                    ).contains(x) by {
                    assert(other.items@.take(i as int).push(other.items@[i as int]).contains(x)
                        <==> (other.items@.take(i as int).contains(x) || x
                            == other.items@[i as int]));
                }
                assert(self@ =~= old(self)@.union(other.items@.take(i + 1).to_set()));
            }
            i = i + 1;
        }
        proof {
            assert(other.items@.take(i as int) =~= other.items@);
        }
    }
}

} // verus!
