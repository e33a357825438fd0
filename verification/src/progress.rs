//! Progress reporting: a line is due whenever the count of units processed
//! before the current one is a multiple of the interval.

use vstd::prelude::*;

verus! {

/// After how many units a progress line is due again.
pub const PROGRESS_INTERVAL: u64 = 10000;

/// A progress line is due for the unit that `previous` units came before.
pub open spec fn progress_due(previous: int) -> bool {
    previous % 10000 == 0
}

/// Tells whether a progress line is due for the unit that `previous` units
/// came before.
pub fn is_progress_due(previous: u64) -> (due: bool)
    ensures
        due == progress_due(previous as int),
{
    previous % PROGRESS_INTERVAL == 0
}

/// The progress lines that are due while `count` units are processed after
/// `before` others: the counts in that span at which one is due, in rising
/// order.
pub fn progress_marks(before: u64, count: u64) -> (marks: Vec<u64>)
    ensures
        forall|i: int|
            0 <= i < marks@.len() ==> before <= (#[trigger] marks@[i]) < before + count
                && progress_due(marks@[i] as int),
        forall|i: int, j: int| 0 <= i < j < marks@.len() ==> marks@[i] < marks@[j],
        forall|p: u64|
            before <= p < before + count && progress_due(p as int) ==> marks@.contains(p),
{
    let mut marks: Vec<u64> = Vec::new();
    let rest = before % PROGRESS_INTERVAL;
    let mut next: Option<u64> = if rest == 0 {
        Some(before)
    } else {
        before.checked_add(PROGRESS_INTERVAL - rest)
    };
    let ghost mut reached: int = if rest == 0 {
        before as int
    } else {
        before + (10000 - rest)
    };
    while next.is_some() && next.unwrap() - before < count
        invariant
            before <= reached,
            reached % 10000 == 0,
            next matches Some(m) ==> m == reached && before <= m,
            next is None ==> reached > u64::MAX,
            forall|i: int|
                0 <= i < marks@.len() ==> before <= (#[trigger] marks@[i]) < before + count
                    && progress_due(marks@[i] as int) && marks@[i] < reached,
            forall|i: int, j: int| 0 <= i < j < marks@.len() ==> marks@[i] < marks@[j],
            forall|p: u64| before <= p < reached && progress_due(p as int) ==> marks@.contains(p),
        decreases
                (if next is Some {
                    u64::MAX - reached + 1
                } else {
                    0
                }),
    {
        let m = next.unwrap();
        let ghost old_marks = marks@;
        marks.push(m);
        next = m.checked_add(PROGRESS_INTERVAL);
        proof {
            assert(marks@[old_marks.len() as int] == m);
            assert forall|p: u64|
                before <= p < reached + 10000 && progress_due(p as int) implies marks@.contains(
                p,
            ) by {
                if p < reached {
                    assert(old_marks.contains(p));
                    let i = choose|i: int| 0 <= i < old_marks.len() && old_marks[i] == p;
                    assert(marks@[i] == p);
                } else {
                    assert(p == m);
                }
            }
            reached = reached + 10000;
        }
    }
    marks
}

} // verus!
