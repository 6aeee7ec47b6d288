//! What holds of every ranking.

use vstd::prelude::*;
use vstd::seq_lib::lemma_no_dup_in_concat;
use crate::model::{
    Placing, Step, candidates, everyone, finishing_order, highest_tallied, is_candidate, is_open,
    lemma_filter_keeps_distinct, lemma_front_distinct, lemma_open_member, lemma_step_progress,
    next_step, rank_from, ranking, unresolved,
};
use crate::tally::{
    Scores, ceiling, count_among, count_under, lemma_ceiling_bounds, majority, rectangular,
    sum_among, sum_under,
};

verus! {

/// A majority is more than half of the judges.
pub proof fn lemma_majority_is_more_than_half(judges: nat)
    ensures
        2 * majority(judges) > judges,
{
}

/// From the ceiling of the table on, the tallies of a competitor no longer
/// change with the level: every judge counts, and every placement is summed.
pub proof fn lemma_tallies_settle(scores: Scores, n: nat, c: int, level: int, higher: int)
    requires
        rectangular(scores, n),
        0 <= c < n,
        ceiling(scores) <= level <= higher,
    ensures
        count_under(scores, c, level) == scores.len(),
        count_under(scores, c, higher) == count_under(scores, c, level),
        sum_under(scores, c, higher) == sum_under(scores, c, level),
{
    lemma_settled_among(scores, n, c, level, higher, scores.len());
}

/// The same among the first `upto` judges.
proof fn lemma_settled_among(scores: Scores, n: nat, c: int, level: int, higher: int, upto: nat)
    requires
        rectangular(scores, n),
        0 <= c < n,
        ceiling(scores) <= level <= higher,
        upto <= scores.len(),
    ensures
        count_among(scores, c, level, upto) == upto,
        count_among(scores, c, higher, upto) == upto,
        sum_among(scores, c, higher, upto) == sum_among(scores, c, level, upto),
    decreases upto,
{
    if upto > 0 {
        lemma_settled_among(scores, n, c, level, higher, (upto - 1) as nat);
        lemma_ceiling_bounds(scores, upto - 1, c);
    }
}

/// A competitor is in a concatenation when it is in one of the two parts.
pub proof fn lemma_concat_contains(a: Seq<int>, b: Seq<int>, c: int)
    ensures
        (a + b).contains(c) <==> a.contains(c) || b.contains(c),
{
    if a.contains(c) {
        let i = choose|i: int| 0 <= i < a.len() && a[i] == c;
        assert((a + b)[i] == c);
    }
    if b.contains(c) {
        let i = choose|i: int| 0 <= i < b.len() && b[i] == c;
        assert((a + b)[a.len() + i] == c);
    }
    if (a + b).contains(c) {
        let i = choose|i: int| 0 <= i < (a + b).len() && (a + b)[i] == c;
        if i < a.len() {
            assert(a[i] == c);
        } else {
            assert(b[i - a.len()] == c);
        }
    }
}

/// The order of two rankings put together is their orders put together.
pub proof fn lemma_order_of_concat(first: Seq<Placing>, second: Seq<Placing>)
    ensures
        finishing_order(first + second) == finishing_order(first) + finishing_order(second),
    decreases second.len(),
{
    if second.len() == 0 {
        assert(first + second =~= first);
        assert(finishing_order(first) + finishing_order(second) =~= finishing_order(first));
    } else {
        lemma_order_of_concat(first, second.drop_last());
        assert((first + second).drop_last() =~= first + second.drop_last());
        assert((first + second).last() == second.last());
        assert(finishing_order(first + second) =~= finishing_order(first) + finishing_order(
            second,
        ));
    }
}

/// The order of a ranking of one placing is that placing's members.
pub proof fn lemma_order_of_one(placing: Placing)
    ensures
        finishing_order(seq![placing]) == placing.members(),
{
    assert(seq![placing].drop_last() =~= Seq::<Placing>::empty());
    assert(finishing_order(Seq::<Placing>::empty()) =~= Seq::<int>::empty());
    assert(finishing_order(seq![placing]) =~= placing.members());
}

/// A ranking lists exactly the unranked members of its subset, each once.
///
/// For a subset without repeats, the finishing order of its ranking holds no
/// competitor twice, and holds a competitor exactly when it is a member of
/// the subset that was not ranked before.
pub proof fn lemma_rank_from_partitions(scores: Scores, subset: Seq<int>, level: int, done: Set<
    int,
>)
    requires
        subset.no_duplicates(),
    ensures
        finishing_order(rank_from(scores, subset, level, done)).no_duplicates(),
        forall|c: int|
            finishing_order(rank_from(scores, subset, level, done)).contains(c) <==> subset.contains(
                c,
            ) && !done.contains(c),
    decreases crate::model::headroom(scores, level), unresolved(subset, done).len(),
{
    let order = finishing_order(rank_from(scores, subset, level, done));
    lemma_step_progress(scores, subset, level, done);
    match next_step(scores, subset, level, done) {
        Step::Finished => {
            assert forall|c: int| order.contains(c) <==> subset.contains(c) && !done.contains(
                c,
            ) by {
                lemma_open_member(subset, done, c);
            }
        },
        Step::TieRest => {
            lemma_order_of_one(Placing::Tie(unresolved(subset, done)));
            lemma_filter_keeps_distinct(subset, is_open(done));
            assert forall|c: int| order.contains(c) <==> subset.contains(c) && !done.contains(
                c,
            ) by {
                lemma_open_member(subset, done, c);
            }
        },
        Step::Climb => {
            lemma_rank_from_partitions(scores, subset, level + 1, done);
        },
        Step::Single(c) => {
            let rest = rank_from(scores, subset, level, done.insert(c));
            lemma_rank_from_partitions(scores, subset, level, done.insert(c));
            lemma_order_of_concat(seq![Placing::One(c)], rest);
            lemma_order_of_one(Placing::One(c));
            let behind = finishing_order(rest);
            assert(order == seq![c] + behind);
            assert forall|i: int, j: int|
                0 <= i < seq![c].len() && 0 <= j < behind.len() implies seq![c][i] != behind[j] by {
                assert(behind.contains(behind[j]));
            }
            lemma_no_dup_in_concat(seq![c], behind);
            assert forall|x: int| order.contains(x) <==> subset.contains(x) && !done.contains(
                x,
            ) by {
                lemma_concat_contains(seq![c], behind, x);
                assert(seq![c].contains(x) <==> x == c) by {
                    if x == c {
                        assert(seq![c][0] == x);
                    }
                }
            }
        },
        Step::TieGroup(group) => {
            let rest = rank_from(scores, subset, level, done + group.to_set());
            lemma_rank_from_partitions(scores, subset, level, done + group.to_set());
            lemma_order_of_concat(seq![Placing::Tie(group)], rest);
            lemma_order_of_one(Placing::Tie(group));
            lemma_front_distinct(scores, subset, level, done);
            lemma_members_then_rest(
                scores,
                subset,
                level,
                done,
                group,
                group,
                finishing_order(rest),
            );
        },
        Step::Descend(group) => {
            let inner = rank_from(scores, group, level + 1, done);
            let rest = rank_from(scores, subset, level, done + group.to_set());
            lemma_front_distinct(scores, subset, level, done);
            lemma_rank_from_partitions(scores, group, level + 1, done);
            lemma_rank_from_partitions(scores, subset, level, done + group.to_set());
            lemma_order_of_concat(inner, rest);
            let ahead = finishing_order(inner);
            crate::model::lemma_front_runners(scores, subset, level, done);
            assert forall|x: int| ahead.contains(x) <==> group.contains(x) by {}
            lemma_members_then_rest(
                scores,
                subset,
                level,
                done,
                group,
                ahead,
                finishing_order(rest),
            );
        },
    }
}

/// The members of a group of front runners in some order, put before the
/// order of those who are left, give every unranked member of the subset
/// once.
proof fn lemma_members_then_rest(
    scores: Scores,
    subset: Seq<int>,
    level: int,
    done: Set<int>,
    group: Seq<int>,
    ahead: Seq<int>,
    behind: Seq<int>,
)
    requires
        group == crate::model::front_runners(scores, subset, level, done),
        ahead.no_duplicates(),
        forall|c: int| ahead.contains(c) <==> group.contains(c),
        behind.no_duplicates(),
        forall|c: int|
            behind.contains(c) <==> subset.contains(c) && !(done + group.to_set()).contains(c),
    ensures
        (ahead + behind).no_duplicates(),
        forall|c: int| (ahead + behind).contains(c) <==> subset.contains(c) && !done.contains(c),
{
    crate::model::lemma_front_runners(scores, subset, level, done);
    assert forall|i: int, j: int| 0 <= i < ahead.len() && 0 <= j < behind.len() implies ahead[i]
        != behind[j] by {
        assert(ahead.contains(ahead[i]));
        assert(behind.contains(behind[j]));
        assert(group.to_set().contains(ahead[i]));
    }
    lemma_no_dup_in_concat(ahead, behind);
    assert forall|c: int| (ahead + behind).contains(c) <==> subset.contains(c) && !done.contains(
        c,
    ) by {
        lemma_concat_contains(ahead, behind, c);
        assert(group.to_set().contains(c) <==> group.contains(c));
    }
}

/// The ranking of a table is a partition of its competitors: its finishing
/// order holds each of the competitors `0 .. n` once and nothing else.
pub proof fn lemma_ranking_partitions(scores: Scores, n: nat)
    ensures
        finishing_order(ranking(scores, n)).len() == n,
        finishing_order(ranking(scores, n)).no_duplicates(),
        forall|c: int| finishing_order(ranking(scores, n)).contains(c) <==> 0 <= c < n,
{
    let all = everyone(n);
    let order = finishing_order(ranking(scores, n));
    lemma_rank_from_partitions(scores, all, 1, Set::empty());
    assert forall|c: int| order.contains(c) <==> 0 <= c < n by {
        if 0 <= c < n {
            assert(all[c] == c);
        }
        if all.contains(c) {
            let i = choose|i: int| 0 <= i < all.len() && all[i] == c;
            assert(all[i] == i);
        }
    }
    assert(all.no_duplicates());
    assert(order.to_set() =~= all.to_set());
    order.unique_seq_to_set();
    all.unique_seq_to_set();
}

/// A competitor who alone has a majority at this level comes first.
///
/// When the subset is not exhausted and `a` is its only unranked member with
/// a majority of the judges at `level` or better, then `a` opens the ranking
/// from here, stands nowhere else in it, and every other unranked member of
/// the subset, each with a smaller count, follows.
pub proof fn lemma_sole_majority_leads(
    scores: Scores,
    subset: Seq<int>,
    level: int,
    done: Set<int>,
    a: int,
)
    requires
        subset.no_duplicates(),
        level != subset.len(),
        subset.contains(a),
        !done.contains(a),
        count_under(scores, a, level) >= majority(scores.len()),
        forall|b: int|
            subset.contains(b) && !done.contains(b) && b != a ==> count_under(scores, b, level)
                < majority(scores.len()),
    ensures
        rank_from(scores, subset, level, done) == seq![Placing::One(a)] + rank_from(
            scores,
            subset,
            level,
            done.insert(a),
        ),
        finishing_order(rank_from(scores, subset, level, done)).len() > 0,
        finishing_order(rank_from(scores, subset, level, done))[0] == a,
        forall|k: int|
            0 < k < finishing_order(rank_from(scores, subset, level, done)).len()
                ==> finishing_order(rank_from(scores, subset, level, done))[k] != a,
        forall|b: int|
            subset.contains(b) && !done.contains(b) && b != a ==> finishing_order(
                rank_from(scores, subset, level, done),
            ).contains(b) && count_under(scores, b, level) < count_under(scores, a, level),
{
    let choice = is_candidate(scores, level, done);
    let hopefuls = candidates(scores, subset, level, done);
    lemma_filter_keeps_distinct(subset, choice);
    let at = choose|i: int| 0 <= i < subset.len() && subset[i] == a;
    subset.lemma_filter_contains(choice, at);
    assert forall|i: int| 0 <= i < hopefuls.len() implies hopefuls[i] == a by {
        subset.lemma_filter_pred(choice, i);
        subset.lemma_filter_contains_rev(choice, hopefuls[i]);
    }
    assert(hopefuls.len() == 1) by {
        if hopefuls.len() > 1 {
            assert(hopefuls[0] == hopefuls[1]);
        }
    }
    assert(hopefuls[0] == a);
    crate::model::lemma_lone_candidate(scores, hopefuls, level);
    lemma_open_member(subset, done, a);
    assert(next_step(scores, subset, level, done) == Step::Single(a));
    let rest = rank_from(scores, subset, level, done.insert(a));
    let order = finishing_order(rank_from(scores, subset, level, done));
    lemma_order_of_concat(seq![Placing::One(a)], rest);
    lemma_order_of_one(Placing::One(a));
    assert(order == seq![a] + finishing_order(rest));
    lemma_rank_from_partitions(scores, subset, level, done);
    assert forall|k: int| 0 < k < order.len() implies order[k] != a by {
        assert(order[0] == a);
    }
}

/// When the level has reached the size of the subset, those who are left
/// share one position: the ranking from here is the single tie of all
/// unranked members of the subset.
pub proof fn lemma_exhausted_subset_ties(scores: Scores, subset: Seq<int>, done: Set<int>)
    requires
        unresolved(subset, done).len() > 0,
    ensures
        rank_from(scores, subset, subset.len() as int, done) == seq![
            Placing::Tie(unresolved(subset, done)),
        ],
{
}

/// A pass that starts at or below the size of its subset never tallies at a
/// level beyond that size; it stops short of it.
pub proof fn lemma_levels_bounded(scores: Scores, subset: Seq<int>, level: int, done: Set<int>)
    requires
        0 <= level <= subset.len(),
    ensures
        highest_tallied(scores, subset, level, done) <= subset.len(),
        highest_tallied(scores, subset, level, done) > 0 ==> highest_tallied(
            scores,
            subset,
            level,
            done,
        ) < subset.len(),
    decreases crate::model::headroom(scores, level), unresolved(subset, done).len(),
{
    lemma_step_progress(scores, subset, level, done);
    match next_step(scores, subset, level, done) {
        Step::Finished => {},
        Step::TieRest => {},
        Step::Climb => {
            lemma_levels_bounded(scores, subset, level + 1, done);
        },
        Step::Single(c) => {
            lemma_levels_bounded(scores, subset, level, done.insert(c));
        },
        Step::TieGroup(group) => {
            lemma_levels_bounded(scores, subset, level, done + group.to_set());
        },
        Step::Descend(group) => {
            lemma_levels_bounded(scores, subset, level, done + group.to_set());
        },
    }
}

/// Ranking a whole table never tallies at a level beyond the number of its
/// competitors.
pub proof fn lemma_ranking_levels_bounded(scores: Scores, n: nat)
    ensures
        highest_tallied(scores, everyone(n), 1, Set::empty()) <= n,
{
    if n >= 1 {
        lemma_levels_bounded(scores, everyone(n), 1, Set::empty());
    } else {
        reveal(Seq::filter);
        assert(unresolved(everyone(n), Set::empty()).len() == 0);
    }
}

} // verus!
