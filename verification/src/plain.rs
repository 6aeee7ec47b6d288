//! The procedure without the ceiling rules, and why the ranking agrees with it.
//!
//! Taken by itself the procedure declares a tie only when the level equals
//! the size of the subset. Started above that size it may climb or descend
//! for ever, so it is stated here with a number of steps that it may take.
//! Wherever it comes to an end, the ranking of `rank_from` is what it gives.

use vstd::prelude::*;
use crate::laws::lemma_tallies_settle;
use crate::model::{
    Placing, Step, best_count, candidates, everyone, has_count, has_sum, is_candidate, is_open,
    leaders, ranking,
    least_sum, lemma_best_count_attained, lemma_front_runners, lemma_least_sum_attained,
    lemma_open_member, lemma_step_progress, lightest, next_step, rank_from, unresolved,
};
use crate::tally::{Scores, ceiling, count_under, majority, rectangular, sum_under};

verus! {

/// The decision of one pass when no ceiling is looked at.
pub open spec fn plain_step(scores: Scores, subset: Seq<int>, level: int, done: Set<int>) -> Step {
    let hopefuls = candidates(scores, subset, level, done);
    let top = leaders(scores, hopefuls, level);
    let front = lightest(scores, top, level);
    if unresolved(subset, done).len() == 0 {
        Step::Finished
    } else if level == subset.len() {
        Step::TieRest
    } else if hopefuls.len() == 0 {
        Step::Climb
    } else if top.len() == 1 {
        Step::Single(top[0])
    } else if front.len() == 1 {
        Step::Single(front[0])
    } else {
        Step::Descend(front)
    }
}

/// Two rankings one after the other, when both came to an end.
pub open spec fn both(first: Option<Seq<Placing>>, second: Option<Seq<Placing>>) -> Option<
    Seq<Placing>,
> {
    match (first, second) {
        (Some(ahead), Some(behind)) => Some(ahead + behind),
        _ => None,
    }
}

/// What the procedure without a ceiling gives when its passes may follow
/// from one another `steps` deep; nothing when that is not deep enough for
/// it to end.
pub open spec fn plain_rank(
    scores: Scores,
    subset: Seq<int>,
    level: int,
    done: Set<int>,
    steps: nat,
) -> Option<Seq<Placing>>
    decreases steps,
{
    if steps == 0 {
        None
    } else {
        let left = (steps - 1) as nat;
        match plain_step(scores, subset, level, done) {
            Step::Finished => Some(Seq::empty()),
            Step::TieRest => Some(seq![Placing::Tie(unresolved(subset, done))]),
            Step::Climb => plain_rank(scores, subset, level + 1, done, left),
            Step::Single(c) => both(
                Some(seq![Placing::One(c)]),
                plain_rank(scores, subset, level, done.insert(c), left),
            ),
            Step::TieGroup(group) => None,
            Step::Descend(group) => both(
                plain_rank(scores, group, level + 1, done, left),
                plain_rank(scores, subset, level, done + group.to_set(), left),
            ),
        }
    }
}

/// Every member of `group` is one of the competitors `0 .. n`.
pub open spec fn within(group: Seq<int>, n: nat) -> bool {
    forall|i: int| 0 <= i < group.len() ==> 0 <= #[trigger] group[i] < n
}

/// A selection by a test that every member passes keeps the sequence.
proof fn lemma_filter_all(s: Seq<int>, pred: spec_fn(int) -> bool)
    requires
        forall|i: int| 0 <= i < s.len() ==> pred(#[trigger] s[i]),
    ensures
        s.filter(pred) == s,
    decreases s.len(),
{
    reveal(Seq::filter);
    if s.len() > 0 {
        lemma_filter_all(s.drop_last(), pred);
        assert(s.drop_last().push(s.last()) =~= s);
    }
}

/// A selection by a test that no member passes is empty.
proof fn lemma_filter_none(s: Seq<int>, pred: spec_fn(int) -> bool)
    requires
        forall|i: int| 0 <= i < s.len() ==> !pred(#[trigger] s[i]),
    ensures
        s.filter(pred).len() == 0,
    decreases s.len(),
{
    reveal(Seq::filter);
    if s.len() > 0 {
        lemma_filter_none(s.drop_last(), pred);
    }
}

/// A group whose members all have the count `count` has that as its best.
proof fn lemma_equal_counts(scores: Scores, group: Seq<int>, level: int, count: nat)
    requires
        group.len() > 0,
        forall|i: int| 0 <= i < group.len() ==> count_under(scores, #[trigger] group[i], level)
            == count,
    ensures
        best_count(scores, group, level) == count,
        leaders(scores, group, level) == group,
{
    lemma_best_count_attained(scores, group, level);
    lemma_filter_all(group, has_count(scores, level, best_count(scores, group, level)));
}

/// A group whose members all have the sum `sum` has that as its least.
proof fn lemma_equal_sums(scores: Scores, group: Seq<int>, level: int, sum: nat)
    requires
        group.len() > 0,
        forall|i: int| 0 <= i < group.len() ==> sum_under(scores, #[trigger] group[i], level)
            == sum,
    ensures
        least_sum(scores, group, level) == sum,
        lightest(scores, group, level) == group,
{
    lemma_least_sum_attained(scores, group, level);
    lemma_filter_all(group, has_sum(scores, level, least_sum(scores, group, level)));
}

/// With nobody left who could be a candidate at or beyond the ceiling, the
/// procedure without a ceiling can only climb until the subset is
/// exhausted: where it ends, it gives the tie of all who are left.
proof fn lemma_climb_in_vain(
    scores: Scores,
    n: nat,
    subset: Seq<int>,
    level: int,
    done: Set<int>,
    steps: nat,
)
    requires
        rectangular(scores, n),
        within(subset, n),
        ceiling(scores) <= level,
        scores.len() < majority(scores.len()),
        unresolved(subset, done).len() > 0,
        plain_rank(scores, subset, level, done, steps) is Some,
    ensures
        plain_rank(scores, subset, level, done, steps) == Some(
            seq![Placing::Tie(unresolved(subset, done))],
        ),
    decreases steps,
{
    assert forall|i: int| 0 <= i < subset.len() implies !is_candidate(scores, level, done)(
        #[trigger] subset[i],
    ) by {
        lemma_tallies_settle(scores, n, subset[i], level, level);
    }
    lemma_filter_none(subset, is_candidate(scores, level, done));
    if level != subset.len() {
        assert(plain_step(scores, subset, level, done) == Step::Climb);
        lemma_climb_in_vain(scores, n, subset, level + 1, done, (steps - 1) as nat);
    }
}

/// A group that is tied at the ceiling stays tied beyond it: where the
/// procedure without a ceiling ends on such a group, it gives the one tie
/// of the group.
proof fn lemma_descend_in_vain(
    scores: Scores,
    n: nat,
    group: Seq<int>,
    tied_at: int,
    level: int,
    done: Set<int>,
    steps: nat,
)
    requires
        rectangular(scores, n),
        within(group, n),
        group.len() >= 2,
        ceiling(scores) <= tied_at <= level,
        scores.len() >= majority(scores.len()),
        forall|i: int| 0 <= i < group.len() ==> !done.contains(#[trigger] group[i]),
        forall|i: int|
            0 <= i < group.len() ==> sum_under(scores, #[trigger] group[i], tied_at) == sum_under(
                scores,
                group[0],
                tied_at,
            ),
        plain_rank(scores, group, level, done, steps) is Some,
    ensures
        plain_rank(scores, group, level, done, steps) == Some(seq![Placing::Tie(group)]),
    decreases steps,
{
    let sum = sum_under(scores, group[0], tied_at);
    assert forall|i: int| 0 <= i < group.len() implies {
        &&& count_under(scores, #[trigger] group[i], level) == scores.len()
        &&& sum_under(scores, group[i], level) == sum
    } by {
        lemma_tallies_settle(scores, n, group[i], tied_at, level);
    }
    lemma_filter_all(group, is_open(done));
    lemma_filter_all(group, is_candidate(scores, level, done));
    lemma_equal_counts(scores, group, level, scores.len());
    lemma_equal_sums(scores, group, level, sum);
    if level != group.len() {
        let left = (steps - 1) as nat;
        assert(plain_step(scores, group, level, done) == Step::Descend(group));
        lemma_descend_in_vain(scores, n, group, tied_at, level + 1, done, left);
        let after = done + group.to_set();
        assert forall|i: int| 0 <= i < group.len() implies !is_open(after)(
            #[trigger] group[i],
        ) by {
            assert(group.contains(group[i]));
        }
        lemma_filter_none(group, is_open(after));
        assert(plain_step(scores, group, level, after) == Step::Finished);
        assert(plain_rank(scores, group, level, after, left) is Some);
        assert(plain_rank(scores, group, level, after, left) == Some(Seq::<Placing>::empty()));
        assert(seq![Placing::Tie(group)] + Seq::<Placing>::empty() =~= seq![Placing::Tie(group)]);
    } else {
        assert(plain_step(scores, group, level, done) == Step::TieRest);
    }
}

/// The ranking is what the procedure without a ceiling gives, wherever
/// that procedure ends.
///
/// For a rectangular table and a subset of its competitors: when the
/// procedure without a ceiling ends within some number of steps, its result
/// is `rank_from` of the same subset, level and ranked competitors.
pub proof fn lemma_agrees_with_plain(
    scores: Scores,
    n: nat,
    subset: Seq<int>,
    level: int,
    done: Set<int>,
    steps: nat,
)
    requires
        rectangular(scores, n),
        within(subset, n),
        plain_rank(scores, subset, level, done, steps) is Some,
    ensures
        plain_rank(scores, subset, level, done, steps) == Some(
            rank_from(scores, subset, level, done),
        ),
    decreases steps,
{
    let left = (steps - 1) as nat;
    let hopefuls = candidates(scores, subset, level, done);
    let top = leaders(scores, hopefuls, level);
    let front = lightest(scores, top, level);
    lemma_step_progress(scores, subset, level, done);
    lemma_front_runners(scores, subset, level, done);
    match plain_step(scores, subset, level, done) {
        Step::Finished => {},
        Step::TieRest => {},
        Step::Climb => {
            if level >= ceiling(scores) {
                assert(scores.len() < majority(scores.len())) by {
                    lemma_no_candidate_no_judge(scores, n, subset, level, done);
                }
                lemma_climb_in_vain(scores, n, subset, level + 1, done, left);
            } else {
                lemma_agrees_with_plain(scores, n, subset, level + 1, done, left);
            }
        },
        Step::Single(c) => {
            lemma_agrees_with_plain(scores, n, subset, level, done.insert(c), left);
        },
        Step::TieGroup(group) => {},
        Step::Descend(group) => {
            assert(group == front);
            assert(within(group, n)) by {
                assert forall|i: int| 0 <= i < group.len() implies 0 <= #[trigger] group[i]
                    < n by {
                    assert(group.contains(group[i]));
                    let k = choose|k: int| 0 <= k < subset.len() && subset[k] == group[i];
                }
            }
            lemma_agrees_with_plain(scores, n, subset, level, done + group.to_set(), left);
            if level >= ceiling(scores) {
                assert forall|i: int| 0 <= i < group.len() implies {
                    &&& !done.contains(#[trigger] group[i])
                    &&& sum_under(scores, group[i], level) == sum_under(scores, group[0], level)
                } by {
                    assert(group.contains(group[i]));
                    top.lemma_filter_pred(
                        has_sum(scores, level, least_sum(scores, top, level)),
                        i,
                    );
                    top.lemma_filter_pred(
                        has_sum(scores, level, least_sum(scores, top, level)),
                        0,
                    );
                }
                assert(scores.len() >= majority(scores.len())) by {
                    assert(group.contains(group[0]));
                    let c = group[0];
                    subset.lemma_filter_contains_rev(is_candidate(scores, level, done), c);
                    let k = choose|k: int| 0 <= k < hopefuls.len() && hopefuls[k] == c;
                    subset.lemma_filter_pred(is_candidate(scores, level, done), k);
                    lemma_tallies_settle(scores, n, c, level, level);
                }
                lemma_descend_in_vain(scores, n, group, level, level + 1, done, left);
            } else {
                lemma_agrees_with_plain(scores, n, group, level + 1, done, left);
            }
        },
    }
}

/// The same for the ranking of a whole table of `n` competitors.
pub proof fn lemma_ranking_agrees_with_plain(scores: Scores, n: nat, steps: nat)
    requires
        rectangular(scores, n),
        plain_rank(scores, everyone(n), 1, Set::empty(), steps) is Some,
    ensures
        plain_rank(scores, everyone(n), 1, Set::empty(), steps) == Some(ranking(scores, n)),
{
    lemma_agrees_with_plain(scores, n, everyone(n), 1, Set::empty(), steps);
}

/// At or beyond the ceiling an unranked member of the subset fails to be a
/// candidate only when the judges are too few for any majority.
proof fn lemma_no_candidate_no_judge(
    scores: Scores,
    n: nat,
    subset: Seq<int>,
    level: int,
    done: Set<int>,
)
    requires
        rectangular(scores, n),
        within(subset, n),
        ceiling(scores) <= level,
        unresolved(subset, done).len() > 0,
        candidates(scores, subset, level, done).len() == 0,
    ensures
        scores.len() < majority(scores.len()),
{
    let rest = unresolved(subset, done);
    let c = rest[0];
    assert(rest.contains(c));
    lemma_open_member(subset, done, c);
    let k = choose|k: int| 0 <= k < subset.len() && subset[k] == c;
    lemma_tallies_settle(scores, n, c, level, level);
    if scores.len() >= majority(scores.len()) {
        subset.lemma_filter_contains(is_candidate(scores, level, done), k);
    }
}

} // verus!
