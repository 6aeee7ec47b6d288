//! Level-bounded tallies over a table of placements.
//!
//! A table is a sequence of rows, one per judge; row `j` holds at position `c`
//! the placement that judge `j` gave competitor `c` (1 is best). Every
//! function here looks at all judges, whatever has been ranked so far.

use vstd::prelude::*;

verus! {

/// A table of placements: `scores[j][c]` is what judge `j` gave competitor `c`.
pub type Scores = Seq<Seq<u32>>;

/// Every judge has placed each of the `n` competitors.
pub open spec fn rectangular(scores: Scores, n: nat) -> bool {
    forall|j: int| 0 <= j < scores.len() ==> (#[trigger] scores[j]).len() == n
}

/// The number of votes that is more than half of `judges`.
pub open spec fn majority(judges: nat) -> nat {
    judges / 2 + 1
}

/// Among the first `upto` judges, how many placed competitor `c` at `level` or better.
pub open spec fn count_among(scores: Scores, c: int, level: int, upto: nat) -> nat
    decreases upto,
{
    if upto == 0 {
        0
    } else {
        let before = count_among(scores, c, level, (upto - 1) as nat);
        if scores[upto - 1][c] <= level {
            before + 1
        } else {
            before
        }
    }
}

/// How many judges placed competitor `c` at `level` or better.
pub open spec fn count_under(scores: Scores, c: int, level: int) -> nat {
    count_among(scores, c, level, scores.len())
}

/// Among the first `upto` judges, the sum of the placements of competitor `c`
/// that are `level` or better; worse placements add nothing.
pub open spec fn sum_among(scores: Scores, c: int, level: int, upto: nat) -> nat
    decreases upto,
{
    if upto == 0 {
        0
    } else {
        let before = sum_among(scores, c, level, (upto - 1) as nat);
        if scores[upto - 1][c] <= level {
            before + scores[upto - 1][c] as nat
        } else {
            before
        }
    }
}

/// The sum of the placements of competitor `c` that are `level` or better.
pub open spec fn sum_under(scores: Scores, c: int, level: int) -> nat {
    sum_among(scores, c, level, scores.len())
}

/// The worst placement among the first `upto` entries of one judge's row.
pub open spec fn row_worst(row: Seq<u32>, upto: nat) -> nat
    decreases upto,
{
    if upto == 0 {
        0
    } else {
        let before = row_worst(row, (upto - 1) as nat);
        if row[upto - 1] > before {
            row[upto - 1] as nat
        } else {
            before
        }
    }
}

/// The worst placement that any of the first `upto` judges gave anyone.
pub open spec fn worst_among(scores: Scores, upto: nat) -> nat
    decreases upto,
{
    if upto == 0 {
        0
    } else {
        let before = worst_among(scores, (upto - 1) as nat);
        let here = row_worst(scores[upto - 1], scores[upto - 1].len());
        if here > before {
            here
        } else {
            before
        }
    }
}

/// The worst placement in the whole table, 0 for a table without entries.
/// From this level on the tallies no longer change.
pub open spec fn ceiling(scores: Scores) -> nat {
    worst_among(scores, scores.len())
}

/// Each counted placement is a `u32`, so the sum stays below `upto` times 2^32.
pub proof fn lemma_sum_bounded(scores: Scores, c: int, level: int, upto: nat)
    ensures
        sum_among(scores, c, level, upto) <= upto * 0xffff_ffff,
    decreases upto,
{
    if upto > 0 {
        lemma_sum_bounded(scores, c, level, (upto - 1) as nat);
        assert(upto * 0xffff_ffff == (upto - 1) * 0xffff_ffff + 0xffff_ffff) by (nonlinear_arith);
    }
}

/// No entry among the first `upto` of a row is worse than `row_worst`.
pub proof fn lemma_row_worst_bounds(row: Seq<u32>, upto: nat, c: int)
    requires
        0 <= c < upto,
    ensures
        row[c] <= row_worst(row, upto),
    decreases upto,
{
    if c < upto - 1 {
        lemma_row_worst_bounds(row, (upto - 1) as nat, c);
    }
}

/// No entry of the first `upto` rows is worse than `worst_among`.
pub proof fn lemma_worst_bounds(scores: Scores, upto: nat, j: int, c: int)
    requires
        0 <= j < upto,
        0 <= c < scores[j].len(),
    ensures
        scores[j][c] <= worst_among(scores, upto),
    decreases upto,
{
    if j < upto - 1 {
        lemma_worst_bounds(scores, (upto - 1) as nat, j, c);
    } else {
        lemma_row_worst_bounds(scores[j], scores[j].len(), c);
    }
}

/// No placement in the table is worse than its ceiling.
pub proof fn lemma_ceiling_bounds(scores: Scores, j: int, c: int)
    requires
        0 <= j < scores.len(),
        0 <= c < scores[j].len(),
    ensures
        scores[j][c] <= ceiling(scores),
{
    lemma_worst_bounds(scores, scores.len(), j, c);
}

} // verus!
