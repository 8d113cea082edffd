use std::collections::HashSet;
use vstd::prelude::*;

verus! {

broadcast use vstd::std_specs::hash::group_hash_axioms;

/// The positions `0 .. capacity` of a ring.
pub open spec fn positions(capacity: u64) -> Set<u64> {
    Set::new(|p: u64| p < capacity)
}

/// Where a jump of `step` from `cursor` lands on a ring of `capacity` positions.
pub open spec fn landing(capacity: u64, cursor: u64, step: u64) -> u64
    recommends
        capacity >= 1,
{
    ((cursor as int + step as int) % capacity as int) as u64
}

/// What a single visit reports.
#[derive(PartialEq, Eq, Structural, Clone, Copy, Debug)]
pub enum VisitResult {
    /// The jump landed on a position not visited before.
    WasUnseen,
    /// The jump landed on a position already visited; the ring is unchanged.
    AlreadySaw,
}

/// A ring of `capacity` positions, the positions visited so far, and the
/// position last landed on.
pub struct Ring {
    capacity: u64,
    seen: HashSet<u64>,
    last: u64,
}

impl Ring {
    pub closed spec fn capacity(&self) -> u64 {
        self.capacity
    }

    pub closed spec fn visited(&self) -> Set<u64> {
        self.seen@
    }

    pub closed spec fn cursor(&self) -> u64 {
        self.last
    }

    /// The ring's invariant: a positive capacity, every visited position on the
    /// ring, and the cursor at the last position visited (0 before any visit).
    pub open spec fn wf(&self) -> bool {
        &&& self.capacity() >= 1
        &&& self.visited().finite()
        &&& self.visited().subset_of(positions(self.capacity()))
        &&& self.cursor() < self.capacity()
        &&& self.visited().is_empty() ==> self.cursor() == 0
        &&& !self.visited().is_empty() ==> self.visited().contains(self.cursor())
    }

    /// A fresh ring of `size` positions: nothing visited, the cursor at 0.
    pub fn with_size(size: u64) -> (r: Ring)
        requires
            size >= 1,
        ensures
            r.wf(),
            r.capacity() == size,
            r.visited() == Set::<u64>::empty(),
            r.cursor() == 0,
    {
        Ring { capacity: size, seen: HashSet::new(), last: 0 }
    }

    /// The number of positions on the ring.
    pub fn size(&self) -> (r: u64)
        ensures
            r == self.capacity(),
    {
        self.capacity
    }

    /// The position last landed on, 0 before any visit.
    pub fn last(&self) -> (r: u64)
        ensures
            r == self.cursor(),
    {
        self.last
    }

    /// Whether position `p` has been visited.
    pub fn has_visited(&self, p: u64) -> (r: bool)
        ensures
            r == self.visited().contains(p),
    {
        self.seen.contains(&p)
    }

    /// Jumps `step` positions on from the cursor. A position not visited before
    /// is recorded and becomes the cursor; a position already visited leaves the
    /// ring as it was.
    pub fn visit(&mut self, step: u64) -> (r: VisitResult)
        requires
            old(self).wf(),
        ensures
            final(self).wf(),
            final(self).capacity() == old(self).capacity(),
            ({
                let t = landing(old(self).capacity(), old(self).cursor(), step);
                if old(self).visited().contains(t) {
                    &&& r == VisitResult::AlreadySaw
                    &&& final(self).visited() == old(self).visited()
                    &&& final(self).cursor() == old(self).cursor()
                } else {
                    &&& r == VisitResult::WasUnseen
                    &&& final(self).visited() == old(self).visited().insert(t)
                    &&& final(self).cursor() == t
                }
            }),
    {
        let target = ((self.last as u128 + step as u128) % self.capacity as u128) as u64;
        if self.seen.contains(&target) {
            VisitResult::AlreadySaw
        } else {
            self.seen.insert(target);
            self.last = target;
            VisitResult::WasUnseen
        }
    }
}

} // verus!
