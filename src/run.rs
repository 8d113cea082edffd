use crate::ring::{landing, positions, Ring, VisitResult};
use vstd::prelude::*;
use vstd::set_lib::lemma_len_subset;

verus! {

/// How one run of a ring ended: the positions visited before the first
/// repeat, and the positions never reached.
#[derive(PartialEq, Eq, Structural, Clone, Copy, Debug)]
pub struct RunResult {
    pub seen: u64,
    pub unseen: u64,
}

/// How many further first visits a ring with `visited` positions and its cursor
/// at `cursor` makes when fed `steps` in order, up to its first repeat; `None`
/// when `steps` runs out before any repeat.
pub open spec fn first_visits_from(
    capacity: u64,
    visited: Set<u64>,
    cursor: u64,
    steps: Seq<u64>,
) -> Option<nat>
    decreases steps.len(),
{
    if steps.len() == 0 {
        None
    } else {
        let t = landing(capacity, cursor, steps[0]);
        if visited.contains(t) {
            Some(0)
        } else {
            match first_visits_from(capacity, visited.insert(t), t, steps.drop_first()) {
                Some(k) => Some(k + 1),
                None => None,
            }
        }
    }
}

/// The first visits of a fresh ring fed `steps`.
pub open spec fn first_visits(capacity: u64, steps: Seq<u64>) -> Option<nat> {
    first_visits_from(capacity, Set::empty(), 0, steps)
}

/// The outcome of running a fresh ring of `capacity` positions on `steps`:
/// `None` when the steps run out before the first repeat.
pub open spec fn run_outcome(capacity: u64, steps: Seq<u64>) -> Option<RunResult> {
    match first_visits(capacity, steps) {
        Some(k) => Some(RunResult { seen: k as u64, unseen: (capacity - k) as u64 }),
        None => None,
    }
}

/// A count of first visits with `by` earlier ones added.
pub open spec fn shifted(o: Option<nat>, by: nat) -> Option<nat> {
    match o {
        Some(k) => Some(k + by),
        None => None,
    }
}

/// The ring's positions are finite and there are `capacity` of them.
pub proof fn lemma_positions_len(capacity: u64)
    ensures
        positions(capacity).finite(),
        positions(capacity).len() == capacity,
    decreases capacity,
{
    if capacity == 0 {
        assert(positions(0) =~= Set::<u64>::empty());
    } else {
        let below = (capacity - 1) as u64;
        lemma_positions_len(below);
        assert(positions(capacity) =~= positions(below).insert(below));
    }
}

proof fn lemma_first_visits_from_bounded(
    capacity: u64,
    visited: Set<u64>,
    cursor: u64,
    steps: Seq<u64>,
)
    requires
        capacity >= 1,
        visited.finite(),
        visited.subset_of(positions(capacity)),
    ensures
        visited.len() <= capacity,
        match first_visits_from(capacity, visited, cursor, steps) {
            Some(k) => visited.len() + k <= capacity,
            None => visited.len() + steps.len() <= capacity,
        },
    decreases steps.len(),
{
    lemma_positions_len(capacity);
    lemma_len_subset(visited, positions(capacity));
    if steps.len() > 0 {
        let t = landing(capacity, cursor, steps[0]);
        if !visited.contains(t) {
            lemma_first_visits_from_bounded(capacity, visited.insert(t), t, steps.drop_first());
        }
    }
}

/// Every completed run of a ring of `capacity >= 1` positions accounts for each
/// position exactly once, as seen or unseen; it sees at least the first
/// position it lands on, and at most `capacity` positions.
pub proof fn lemma_outcome_bounds(capacity: u64, steps: Seq<u64>)
    requires
        capacity >= 1,
    ensures
        run_outcome(capacity, steps) matches Some(o) ==> {
            &&& o.seen + o.unseen == capacity
            &&& 1 <= o.seen <= capacity
        },
{
    lemma_first_visits_from_bounded(capacity, Set::empty(), 0, steps);
    if steps.len() > 0 {
        let t = landing(capacity, 0, steps[0]);
        assert(!Set::<u64>::empty().contains(t));
    }
}

/// A ring of `capacity >= 1` positions fed more than `capacity` steps always
/// meets a repeat within them.
pub proof fn lemma_run_terminates(capacity: u64, steps: Seq<u64>)
    requires
        capacity >= 1,
        steps.len() > capacity,
    ensures
        run_outcome(capacity, steps) is Some,
{
    lemma_first_visits_from_bounded(capacity, Set::empty(), 0, steps);
}

/// A ring of one position sees that position and nothing else, whatever the
/// steps, once it is fed two of them.
pub proof fn lemma_single_position(steps: Seq<u64>)
    requires
        steps.len() >= 2,
    ensures
        run_outcome(1, steps) == Some(RunResult { seen: 1, unseen: 0 }),
{
    let rest = steps.drop_first();
    assert(landing(1, 0, steps[0]) == 0);
    assert(landing(1, 0, rest[0]) == 0);
    assert(Set::<u64>::empty().insert(0).contains(0));
    assert(first_visits_from(1, Set::empty().insert(0), 0, rest) == Some(0nat));
    assert(first_visits(1, steps) == Some(1nat));
}

/// Runs a fresh ring of `size` positions on `steps` in order and stops at the
/// first repeat; `None` when the steps run out first.
pub fn run_ring(size: u64, steps: &Vec<u64>) -> (r: Option<RunResult>)
    requires
        size >= 1,
    ensures
        r == run_outcome(size, steps@),
        r matches Some(o) ==> o.seen + o.unseen == size && 1 <= o.seen <= size,
        steps@.len() > size ==> r is Some,
{
    proof {
        lemma_outcome_bounds(size, steps@);
        if steps@.len() > size {
            lemma_run_terminates(size, steps@);
        }
        lemma_positions_len(size);
        assert(steps@.skip(0) =~= steps@);
    }
    let mut ring = Ring::with_size(size);
    let mut i: usize = 0;
    while i < steps.len()
        invariant
            ring.wf(),
            ring.capacity() == size,
            ring.visited().len() == i,
            i <= size,
            i <= steps@.len(),
            positions(size).finite(),
            positions(size).len() == size,
            first_visits(size, steps@) == shifted(
                first_visits_from(size, ring.visited(), ring.cursor(), steps@.skip(i as int)),
                i as nat,
            ),
        decreases steps@.len() - i,
    {
        let ghost rest = steps@.skip(i as int);
        assert(rest.drop_first() =~= steps@.skip(i + 1));
        let ghost before = ring;
        match ring.visit(steps[i]) {
            VisitResult::AlreadySaw => {
                return Some(RunResult { seen: i as u64, unseen: size - i as u64 });
            },
            VisitResult::WasUnseen => {
                proof {
                    let t = landing(size, before.cursor(), steps@[i as int]);
                    assert(!before.visited().contains(t));
                    lemma_len_subset(ring.visited(), positions(size));
                }
                i = i + 1;
            },
        }
    }
    assert(steps@.skip(i as int).len() == 0);
    None
}

} // verus!
