use crate::run::RunResult;
use vstd::prelude::*;

verus! {

/// The number of positions a run accounts for: its ring's capacity.
pub open spec fn total(o: RunResult) -> int {
    o.seen + o.unseen
}

/// A run's outcome describes a ring of at least one position whose capacity
/// fits in a `u64`.
pub open spec fn is_valid_outcome(o: RunResult) -> bool {
    1 <= total(o) <= u64::MAX
}

/// The fill ratio of `a` is at most that of `b`:
/// `a.seen / total(a) <= b.seen / total(b)`, with both sides multiplied out.
pub open spec fn fill_le(a: RunResult, b: RunResult) -> bool {
    a.seen * total(b) <= b.seen * total(a)
}

/// Every outcome in `s` is valid.
pub open spec fn all_valid(s: Seq<(u64, RunResult)>) -> bool {
    forall|i: int| 0 <= i < s.len() ==> is_valid_outcome(#[trigger] s[i].1)
}

/// Position `b` of `s` holds a greatest fill ratio, and every later pair fills
/// strictly less: among equal maxima the last one is chosen.
pub open spec fn is_best_fill(s: Seq<(u64, RunResult)>, b: int) -> bool {
    &&& 0 <= b < s.len()
    &&& forall|j: int| 0 <= j < s.len() ==> fill_le(#[trigger] s[j].1, s[b].1)
    &&& forall|j: int| b < j < s.len() ==> !fill_le(s[b].1, #[trigger] s[j].1)
}

/// The position that the best fill of `s` is taken from.
pub open spec fn best_fill_index(s: Seq<(u64, RunResult)>) -> int {
    choose|b: int| is_best_fill(s, b)
}

/// Comparing fill ratios is transitive.
pub proof fn lemma_fill_le_transitive(a: RunResult, b: RunResult, c: RunResult)
    requires
        is_valid_outcome(a),
        is_valid_outcome(b),
        is_valid_outcome(c),
        fill_le(a, b),
        fill_le(b, c),
    ensures
        fill_le(a, c),
{
    let (sa, sb, sc) = (a.seen as int, b.seen as int, c.seen as int);
    let (ta, tb, tc) = (total(a), total(b), total(c));
    assert(sa * tc * tb <= sc * ta * tb) by (nonlinear_arith)
        requires
            sa * tb <= sb * ta,
            sb * tc <= sc * tb,
            ta >= 1,
            tc >= 1,
    {
        assert(sa * tb * tc <= sb * ta * tc);
        assert(sb * tc * ta <= sc * tb * ta);
    }
    assert(sa * tc <= sc * ta) by (nonlinear_arith)
        requires
            sa * tc * tb <= sc * ta * tb,
            tb >= 1,
    ;
}

/// Recomputing the best fill of one sweep always selects the same pair: at
/// most one position is a best fill.
pub proof fn lemma_best_fill_unique(s: Seq<(u64, RunResult)>, b1: int, b2: int)
    requires
        is_best_fill(s, b1),
        is_best_fill(s, b2),
    ensures
        b1 == b2,
{
    if b1 < b2 {
        assert(fill_le(s[b1].1, s[b2].1));
    } else if b2 < b1 {
        assert(fill_le(s[b2].1, s[b1].1));
    }
}

/// Whether `a` fills its ring no more than `b` fills its own.
pub fn fills_no_more_than(a: &RunResult, b: &RunResult) -> (r: bool)
    requires
        is_valid_outcome(*a),
        is_valid_outcome(*b),
    ensures
        r == fill_le(*a, *b),
{
    let ta = a.seen as u128 + a.unseen as u128;
    let tb = b.seen as u128 + b.unseen as u128;
    proof {
        let (sa, sb) = (a.seen as int, b.seen as int);
        assert(0 <= sa * tb <= u64::MAX * u64::MAX) by (nonlinear_arith)
            requires
                0 <= sa <= u64::MAX,
                1 <= tb <= u64::MAX,
        ;
        assert(0 <= sb * ta <= u64::MAX * u64::MAX) by (nonlinear_arith)
            requires
                0 <= sb <= u64::MAX,
                1 <= ta <= u64::MAX,
        ;
    }
    (a.seen as u128) * tb <= (b.seen as u128) * ta
}

/// The pair of `results` with the greatest fill ratio, the last one among
/// equals; `None` when `results` is empty.
pub fn best_fill(results: &Vec<(u64, RunResult)>) -> (r: Option<(u64, RunResult)>)
    requires
        all_valid(results@),
    ensures
        results@.len() == 0 ==> r is None,
        results@.len() > 0 ==> r == Some(results@[best_fill_index(results@)]),
{
    if results.len() == 0 {
        return None;
    }
    let mut best: usize = 0;
    let mut i: usize = 1;
    while i < results.len()
        invariant
            all_valid(results@),
            0 <= best < i <= results@.len(),
            forall|j: int| 0 <= j < i ==> fill_le(#[trigger] results@[j].1, results@[best as int].1),
            forall|j: int| best < j < i ==> !fill_le(results@[best as int].1, #[trigger] results@[j].1),
        decreases results@.len() - i,
    {
        if fills_no_more_than(&results[best].1, &results[i].1) {
            let ghost old_best = best as int;
            proof {
                assert forall|j: int| 0 <= j <= i implies fill_le(
                    #[trigger] results@[j].1,
                    results@[i as int].1,
                ) by {
                    if j < i {
                        lemma_fill_le_transitive(
                            results@[j].1,
                            results@[old_best].1,
                            results@[i as int].1,
                        );
                    }
                }
            }
            best = i;
        }
        i = i + 1;
    }
    proof {
        assert(is_best_fill(results@, best as int));
        lemma_best_fill_unique(results@, best as int, best_fill_index(results@));
    }
    Some(results[best])
}

} // verus!
