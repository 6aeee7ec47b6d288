//! The ranking as a mathematical function of the table of placements.
//!
//! Competitors are numbered by their position in the table. A ranking is a
//! sequence of placings, best first; a placing is one competitor, or a group
//! that no level could separate.

use vstd::prelude::*;
use crate::tally::{Scores, ceiling, count_under, majority, sum_under};

verus! {

/// One position of a ranking.
pub enum Placing {
    /// A competitor ranked alone at this position.
    One(int),
    /// Competitors that share this position, in the order of the table.
    Tie(Seq<int>),
}

impl Placing {
    /// The competitors at this position.
    pub open spec fn members(self) -> Seq<int> {
        match self {
            Placing::One(c) => seq![c],
            Placing::Tie(group) => group,
        }
    }
}

/// The competitors of a ranking in the order in which it lists them.
pub open spec fn finishing_order(ranking: Seq<Placing>) -> Seq<int>
    decreases ranking.len(),
{
    if ranking.len() == 0 {
        Seq::empty()
    } else {
        finishing_order(ranking.drop_last()) + ranking.last().members()
    }
}

/// Whether a competitor is not in `done`.
pub open spec fn is_open(done: Set<int>) -> spec_fn(int) -> bool {
    |c: int| !done.contains(c)
}

/// Whether a competitor is not in `done` and has a majority of the judges at
/// `level` or better.
pub open spec fn is_candidate(scores: Scores, level: int, done: Set<int>) -> spec_fn(int) -> bool {
    |c: int| !done.contains(c) && count_under(scores, c, level) >= majority(scores.len())
}

/// Whether a competitor's count at `level` is `count`.
pub open spec fn has_count(scores: Scores, level: int, count: nat) -> spec_fn(int) -> bool {
    |c: int| count_under(scores, c, level) == count
}

/// Whether a competitor's sum at `level` is `sum`.
pub open spec fn has_sum(scores: Scores, level: int, sum: nat) -> spec_fn(int) -> bool {
    |c: int| sum_under(scores, c, level) == sum
}

/// The members of `subset` that are not yet ranked, in the order of `subset`.
pub open spec fn unresolved(subset: Seq<int>, done: Set<int>) -> Seq<int> {
    subset.filter(is_open(done))
}

/// The unranked members of `subset` that a majority of the judges placed at
/// `level` or better.
pub open spec fn candidates(scores: Scores, subset: Seq<int>, level: int, done: Set<int>) -> Seq<
    int,
> {
    subset.filter(is_candidate(scores, level, done))
}

/// The largest count at `level` among `group`, 0 for an empty group.
pub open spec fn best_count(scores: Scores, group: Seq<int>, level: int) -> nat
    decreases group.len(),
{
    if group.len() == 0 {
        0
    } else {
        let before = best_count(scores, group.drop_last(), level);
        let here = count_under(scores, group.last(), level);
        if here > before {
            here
        } else {
            before
        }
    }
}

/// The members of `group` with the largest count at `level`.
pub open spec fn leaders(scores: Scores, group: Seq<int>, level: int) -> Seq<int> {
    group.filter(has_count(scores, level, best_count(scores, group, level)))
}

/// The smallest sum at `level` among `group`, 0 for an empty group.
pub open spec fn least_sum(scores: Scores, group: Seq<int>, level: int) -> nat
    decreases group.len(),
{
    if group.len() == 0 {
        0
    } else if group.len() == 1 {
        sum_under(scores, group.last(), level)
    } else {
        let before = least_sum(scores, group.drop_last(), level);
        let here = sum_under(scores, group.last(), level);
        if here < before {
            here
        } else {
            before
        }
    }
}

/// The members of `group` with the smallest sum at `level`.
pub open spec fn lightest(scores: Scores, group: Seq<int>, level: int) -> Seq<int> {
    group.filter(has_sum(scores, level, least_sum(scores, group, level)))
}

/// The candidates that neither the largest count nor the smallest sum
/// separates at `level`: those with the largest count, and among them those
/// with the smallest sum.
pub open spec fn front_runners(scores: Scores, subset: Seq<int>, level: int, done: Set<int>) -> Seq<
    int,
> {
    lightest(scores, leaders(scores, candidates(scores, subset, level, done), level), level)
}

/// What one pass over `subset` at `level` decides.
pub enum Step {
    /// Every member of the subset is ranked.
    Finished,
    /// The unranked members share one position, and the subset is done.
    TieRest,
    /// Nobody has a majority yet: look at the next level.
    Climb,
    /// This competitor takes the next position; the level stays.
    Single(int),
    /// These competitors share the next position; the level stays.
    TieGroup(Seq<int>),
    /// These competitors are ranked among themselves from the next level on.
    Descend(Seq<int>),
}

/// The decision of one pass.
///
/// A subset is exhausted when the level equals its size. Beyond the ceiling
/// of the table no tally changes any more, so there a pass that finds no
/// candidate, or candidates that it cannot separate, declares a tie instead
/// of going on.
pub open spec fn next_step(scores: Scores, subset: Seq<int>, level: int, done: Set<int>) -> Step {
    let hopefuls = candidates(scores, subset, level, done);
    let top = leaders(scores, hopefuls, level);
    let front = lightest(scores, top, level);
    if unresolved(subset, done).len() == 0 {
        Step::Finished
    } else if level == subset.len() {
        Step::TieRest
    } else if hopefuls.len() == 0 {
        if level >= ceiling(scores) {
            Step::TieRest
        } else {
            Step::Climb
        }
    } else if top.len() == 1 {
        Step::Single(top[0])
    } else if front.len() == 1 {
        Step::Single(front[0])
    } else if level >= ceiling(scores) {
        Step::TieGroup(front)
    } else {
        Step::Descend(front)
    }
}

/// How many levels are left below the ceiling.
pub open spec fn headroom(scores: Scores, level: int) -> nat {
    if level < ceiling(scores) {
        (ceiling(scores) - level) as nat
    } else {
        0
    }
}

/// The ranking of the unranked members of `subset`, starting at `level`,
/// when the competitors in `done` are ranked already.
pub open spec fn rank_from(scores: Scores, subset: Seq<int>, level: int, done: Set<int>) -> Seq<
    Placing,
>
    decreases headroom(scores, level), unresolved(subset, done).len(),
    via rank_from_terminates
{
    match next_step(scores, subset, level, done) {
        Step::Finished => Seq::empty(),
        Step::TieRest => seq![Placing::Tie(unresolved(subset, done))],
        Step::Climb => rank_from(scores, subset, level + 1, done),
        Step::Single(c) => seq![Placing::One(c)] + rank_from(
            scores,
            subset,
            level,
            done.insert(c),
        ),
        Step::TieGroup(group) => seq![Placing::Tie(group)] + rank_from(
            scores,
            subset,
            level,
            done + group.to_set(),
        ),
        Step::Descend(group) => rank_from(scores, group, level + 1, done) + rank_from(
            scores,
            subset,
            level,
            done + group.to_set(),
        ),
    }
}

/// The competitors `0 .. n` in the order of the table.
pub open spec fn everyone(n: nat) -> Seq<int> {
    Seq::new(n, |i: int| i)
}

/// The ranking of a table of `n` competitors: all of them, from level 1,
/// with nobody ranked beforehand.
pub open spec fn ranking(scores: Scores, n: nat) -> Seq<Placing> {
    rank_from(scores, everyone(n), 1, Set::empty())
}

/// Appending one element filters it or keeps it.
pub proof fn lemma_filter_push(s: Seq<int>, c: int, pred: spec_fn(int) -> bool)
    ensures
        s.push(c).filter(pred) == if pred(c) {
            s.filter(pred).push(c)
        } else {
            s.filter(pred)
        },
{
    reveal(Seq::filter);
    assert(s.push(c).drop_last() =~= s);
}

/// Ranking more competitors leaves fewer of a subset unranked; strictly
/// fewer when one of the newly ranked was an unranked member.
pub proof fn lemma_unresolved_shrinks(subset: Seq<int>, done: Set<int>, more: Set<int>)
    ensures
        unresolved(subset, done + more).len() <= unresolved(subset, done).len(),
        (exists|c: int| subset.contains(c) && !done.contains(c) && more.contains(c))
            ==> unresolved(subset, done + more).len() < unresolved(subset, done).len(),
    decreases subset.len(),
{
    reveal(Seq::filter);
    if subset.len() > 0 {
        let shorter = subset.drop_last();
        lemma_unresolved_shrinks(shorter, done, more);
        if exists|c: int| subset.contains(c) && !done.contains(c) && more.contains(c) {
            let c = choose|c: int| subset.contains(c) && !done.contains(c) && more.contains(c);
            let i = choose|i: int| 0 <= i < subset.len() && subset[i] == c;
            if i < subset.len() - 1 {
                assert(shorter[i] == c);
                assert(shorter.contains(c));
            }
        }
    }
}

/// When no member of a subset is unranked, all of them are ranked.
pub proof fn lemma_all_resolved(subset: Seq<int>, done: Set<int>)
    requires
        unresolved(subset, done).len() == 0,
    ensures
        forall|c: int| subset.contains(c) ==> done.contains(c),
{
    assert forall|c: int| subset.contains(c) implies done.contains(c) by {
        if !done.contains(c) {
            lemma_open_member(subset, done, c);
        }
    }
}

/// The unranked members of a subset are its members outside `done`.
pub proof fn lemma_open_member(subset: Seq<int>, done: Set<int>, c: int)
    ensures
        unresolved(subset, done).contains(c) <==> subset.contains(c) && !done.contains(c),
{
    if unresolved(subset, done).contains(c) {
        subset.lemma_filter_contains_rev(is_open(done), c);
    }
    if subset.contains(c) && !done.contains(c) {
        let i = choose|i: int| 0 <= i < subset.len() && subset[i] == c;
        subset.lemma_filter_contains(is_open(done), i);
    }
}

/// A candidate that stands alone is the only leader.
pub proof fn lemma_lone_candidate(scores: Scores, group: Seq<int>, level: int)
    requires
        group.len() == 1,
    ensures
        leaders(scores, group, level) == group,
{
    lemma_leaders_exist(scores, group, level);
    let top = leaders(scores, group, level);
    group.lemma_filter_len(has_count(scores, level, best_count(scores, group, level)));
    group.lemma_filter_contains_rev(
        has_count(scores, level, best_count(scores, group, level)),
        top[0],
    );
    assert(top =~= group);
}

/// A group that is not empty has a member with the largest count.
pub proof fn lemma_leaders_exist(scores: Scores, group: Seq<int>, level: int)
    requires
        group.len() > 0,
    ensures
        leaders(scores, group, level).len() > 0,
{
    let best = best_count(scores, group, level);
    lemma_best_count_attained(scores, group, level);
    let i = choose|i: int| 0 <= i < group.len() && count_under(scores, group[i], level) == best;
    group.lemma_filter_contains(has_count(scores, level, best), i);
}

/// The largest count is the count of some member, and no member has more.
pub proof fn lemma_best_count_attained(scores: Scores, group: Seq<int>, level: int)
    ensures
        forall|i: int|
            0 <= i < group.len() ==> count_under(scores, #[trigger] group[i], level) <= best_count(
                scores,
                group,
                level,
            ),
        group.len() > 0 ==> exists|i: int|
            0 <= i < group.len() && count_under(scores, #[trigger] group[i], level) == best_count(
                scores,
                group,
                level,
            ),
    decreases group.len(),
{
    if group.len() > 0 {
        let shorter = group.drop_last();
        lemma_best_count_attained(scores, shorter, level);
        let last = group.len() - 1;
        assert(forall|i: int| 0 <= i < shorter.len() ==> shorter[i] == group[i]);
        if count_under(scores, group.last(), level) > best_count(scores, shorter, level) {
            assert(count_under(scores, group[last], level) == best_count(scores, group, level));
        } else if shorter.len() > 0 {
            let i = choose|i: int|
                0 <= i < shorter.len() && count_under(scores, #[trigger] shorter[i], level)
                    == best_count(scores, shorter, level);
            assert(count_under(scores, group[i], level) == best_count(scores, group, level));
        } else {
            assert(count_under(scores, group[last], level) == best_count(scores, group, level));
        }
    }
}

/// The smallest sum is the sum of some member, and no member has less.
pub proof fn lemma_least_sum_attained(scores: Scores, group: Seq<int>, level: int)
    ensures
        forall|i: int|
            0 <= i < group.len() ==> sum_under(scores, #[trigger] group[i], level) >= least_sum(
                scores,
                group,
                level,
            ),
        group.len() > 0 ==> exists|i: int|
            0 <= i < group.len() && sum_under(scores, #[trigger] group[i], level) == least_sum(
                scores,
                group,
                level,
            ),
    decreases group.len(),
{
    if group.len() > 1 {
        let shorter = group.drop_last();
        lemma_least_sum_attained(scores, shorter, level);
        let last = group.len() - 1;
        assert(forall|i: int| 0 <= i < shorter.len() ==> shorter[i] == group[i]);
        if sum_under(scores, group.last(), level) < least_sum(scores, shorter, level) {
            assert(sum_under(scores, group[last], level) == least_sum(scores, group, level));
        } else {
            let i = choose|i: int|
                0 <= i < shorter.len() && sum_under(scores, #[trigger] shorter[i], level)
                    == least_sum(scores, shorter, level);
            assert(sum_under(scores, group[i], level) == least_sum(scores, group, level));
        }
    } else if group.len() == 1 {
        assert(sum_under(scores, group[0], level) == least_sum(scores, group, level));
    }
}

/// A group that is not empty has a member with the smallest sum.
pub proof fn lemma_lightest_exist(scores: Scores, group: Seq<int>, level: int)
    requires
        group.len() > 0,
    ensures
        lightest(scores, group, level).len() > 0,
{
    let least = least_sum(scores, group, level);
    lemma_least_sum_attained(scores, group, level);
    let i = choose|i: int| 0 <= i < group.len() && sum_under(scores, group[i], level) == least;
    group.lemma_filter_contains(has_sum(scores, level, least), i);
}

/// The front runners are unranked members of the subset, and there is one
/// whenever there is a candidate.
pub proof fn lemma_front_runners(scores: Scores, subset: Seq<int>, level: int, done: Set<int>)
    ensures
        forall|c: int| #[trigger]
            front_runners(scores, subset, level, done).contains(c) ==> subset.contains(c)
                && !done.contains(c) && candidates(scores, subset, level, done).contains(c),
        candidates(scores, subset, level, done).len() > 0 ==> front_runners(
            scores,
            subset,
            level,
            done,
        ).len() > 0,
{
    broadcast use {Seq::lemma_filter_contains_rev};

    let hopefuls = candidates(scores, subset, level, done);
    let top = leaders(scores, hopefuls, level);
    if hopefuls.len() > 0 {
        lemma_leaders_exist(scores, hopefuls, level);
        lemma_lightest_exist(scores, top, level);
    }
}

/// Every step but the last leaves less to do: a climb has a level left
/// below the ceiling, and a step that ranks somebody leaves fewer unranked.
pub proof fn lemma_step_progress(scores: Scores, subset: Seq<int>, level: int, done: Set<int>)
    ensures
        match next_step(scores, subset, level, done) {
            Step::Finished => unresolved(subset, done).len() == 0,
            Step::TieRest => unresolved(subset, done).len() > 0,
            Step::Climb => level < ceiling(scores) && level != subset.len(),
            Step::Single(c) => {
                &&& level != subset.len()
                &&& front_runners(scores, subset, level, done).contains(c)
                &&& subset.contains(c)
                &&& !done.contains(c)
                &&& unresolved(subset, done.insert(c)).len() < unresolved(subset, done).len()
            },
            Step::TieGroup(group) => {
                &&& level != subset.len()
                &&& group == front_runners(scores, subset, level, done)
                &&& group.len() >= 2
                &&& unresolved(subset, done + group.to_set()).len() < unresolved(
                    subset,
                    done,
                ).len()
            },
            Step::Descend(group) => {
                &&& level < ceiling(scores)
                &&& level != subset.len()
                &&& group == front_runners(scores, subset, level, done)
                &&& group.len() >= 2
                &&& unresolved(subset, done + group.to_set()).len() < unresolved(
                    subset,
                    done,
                ).len()
            },
        },
{
    let hopefuls = candidates(scores, subset, level, done);
    let top = leaders(scores, hopefuls, level);
    let front = lightest(scores, top, level);
    lemma_front_runners(scores, subset, level, done);
    match next_step(scores, subset, level, done) {
        Step::Single(c) => {
            if top.len() == 1 {
                lemma_single_leader(scores, subset, level, done);
            }
            assert(front.contains(front[0]));
            assert(done.insert(c) =~= done + set![c]);
            lemma_unresolved_shrinks(subset, done, set![c]);
        },
        Step::TieGroup(group) => {
            assert(group.contains(group[0]));
            assert(group.to_set().contains(group[0]));
            lemma_unresolved_shrinks(subset, done, group.to_set());
        },
        Step::Descend(group) => {
            assert(group.contains(group[0]));
            assert(group.to_set().contains(group[0]));
            lemma_unresolved_shrinks(subset, done, group.to_set());
        },
        _ => {},
    }
}

#[via_fn]
proof fn rank_from_terminates(scores: Scores, subset: Seq<int>, level: int, done: Set<int>) {
    lemma_step_progress(scores, subset, level, done);
}

/// The highest level at which the pass over `subset` that starts at `level`
/// tallies placements, 0 when it tallies none. A pass tallies when it finds
/// somebody unranked and the subset is not exhausted; what the ranking of a
/// tied group does at deeper levels is not counted here.
pub open spec fn highest_tallied(scores: Scores, subset: Seq<int>, level: int, done: Set<
    int,
>) -> int
    decreases headroom(scores, level), unresolved(subset, done).len(),
    via highest_tallied_terminates
{
    let later = match next_step(scores, subset, level, done) {
        Step::Finished => 0,
        Step::TieRest => 0,
        Step::Climb => highest_tallied(scores, subset, level + 1, done),
        Step::Single(c) => highest_tallied(scores, subset, level, done.insert(c)),
        Step::TieGroup(group) => highest_tallied(scores, subset, level, done + group.to_set()),
        Step::Descend(group) => highest_tallied(scores, subset, level, done + group.to_set()),
    };
    if unresolved(subset, done).len() == 0 || level == subset.len() {
        0
    } else if later > level {
        later
    } else {
        level
    }
}

#[via_fn]
proof fn highest_tallied_terminates(scores: Scores, subset: Seq<int>, level: int, done: Set<int>) {
    lemma_step_progress(scores, subset, level, done);
}

/// A leader that stands alone is also the only front runner.
pub proof fn lemma_single_leader(scores: Scores, subset: Seq<int>, level: int, done: Set<int>)
    requires
        leaders(scores, candidates(scores, subset, level, done), level).len() == 1,
    ensures
        front_runners(scores, subset, level, done) == leaders(
            scores,
            candidates(scores, subset, level, done),
            level,
        ),
{
    let top = leaders(scores, candidates(scores, subset, level, done), level);
    let front = lightest(scores, top, level);
    lemma_lightest_exist(scores, top, level);
    top.lemma_filter_len(has_sum(scores, level, least_sum(scores, top, level)));
    top.lemma_filter_contains_rev(has_sum(scores, level, least_sum(scores, top, level)), front[0]);
    assert(front =~= top);
}

/// Selecting from a sequence without repeats gives one without repeats.
pub proof fn lemma_filter_keeps_distinct(s: Seq<int>, pred: spec_fn(int) -> bool)
    requires
        s.no_duplicates(),
    ensures
        s.filter(pred).no_duplicates(),
    decreases s.len(),
{
    reveal(Seq::filter);
    if s.len() > 0 {
        let shorter = s.drop_last();
        lemma_filter_keeps_distinct(shorter, pred);
        let kept = shorter.filter(pred);
        if pred(s.last()) {
            assert forall|i: int| 0 <= i < kept.len() implies kept[i] != s.last() by {
                shorter.lemma_filter_contains_rev(pred, kept[i]);
                let k = choose|k: int| 0 <= k < shorter.len() && shorter[k] == kept[i];
                assert(s[k] == kept[i]);
            }
        }
    }
}

/// The front runners of a subset without repeats are without repeats.
pub proof fn lemma_front_distinct(scores: Scores, subset: Seq<int>, level: int, done: Set<int>)
    requires
        subset.no_duplicates(),
    ensures
        front_runners(scores, subset, level, done).no_duplicates(),
{
    let hopefuls = candidates(scores, subset, level, done);
    let top = leaders(scores, hopefuls, level);
    lemma_filter_keeps_distinct(subset, is_candidate(scores, level, done));
    lemma_filter_keeps_distinct(
        hopefuls,
        has_count(scores, level, best_count(scores, hopefuls, level)),
    );
    lemma_filter_keeps_distinct(
        top,
        has_sum(scores, level, least_sum(scores, top, level)),
    );
}

} // verus!
