//! The score sheet: the placements that judges gave competitors, and the
//! ranking computed from them.

use vstd::prelude::*;
use crate::cluster::{
    Competitor, CompetitorCluster, CompetitorID, Judge, JudgeID, ids, names_of, placings,
    positions, tallied_ids,
};
use crate::model::{
    Placing, Step, best_count, candidates, everyone, front_runners, has_count, has_sum, headroom,
    is_candidate, is_open, leaders, least_sum, lemma_all_resolved, lemma_filter_keeps_distinct,
    lemma_filter_push, lemma_front_distinct, lemma_front_runners, lemma_lone_candidate,
    lemma_open_member, lemma_single_leader, lemma_unresolved_shrinks, lightest, next_step,
    rank_from, ranking, unresolved,
};
use crate::tally::{
    Scores, ceiling, count_among, count_under, lemma_sum_bounded, majority, rectangular,
    row_worst, sum_among, sum_under, worst_among,
};

verus! {

/// Judges, competitors, the placement that each judge gave each competitor,
/// and the ranking once it has been computed.
#[derive(Clone, Debug)]
pub struct Sheet {
    judges: Vec<Judge>,
    competitors: Vec<Competitor>,
    notes: Vec<Vec<u32>>,
    ranked: Option<Vec<CompetitorCluster>>,
}

impl Sheet {
    /// The judges in the order of the sheet's columns.
    pub closed spec fn judge_list(&self) -> Seq<Judge> {
        self.judges@
    }

    /// The competitors in the order of the sheet's rows.
    pub closed spec fn competitor_list(&self) -> Seq<Competitor> {
        self.competitors@
    }

    /// The table of placements, one row per judge.
    pub closed spec fn scores(&self) -> Scores {
        Seq::new(self.notes@.len(), |j: int| self.notes@[j]@)
    }

    /// The ranking that the sheet holds, if it has been computed.
    pub closed spec fn cached(&self) -> Option<Seq<CompetitorCluster>> {
        match self.ranked {
            Some(clusters) => Some(clusters@),
            None => None,
        }
    }

    /// The positions of the competitors that are marked as ranked.
    spec fn resolved(&self) -> Set<int> {
        Set::new(|c: int| 0 <= c < self.competitors@.len() && self.competitors@[c].marked)
    }

    /// The table is rectangular, and judges and competitors are numbered by
    /// their positions.
    pub closed spec fn shaped(&self) -> bool {
        &&& self.judges@.len() < usize::MAX
        &&& self.notes@.len() == self.judges@.len()
        &&& rectangular(self.scores(), self.competitors@.len())
        &&& forall|j: int| 0 <= j < self.judges@.len() ==> (#[trigger] self.judges@[j]).id.0 == j
        &&& forall|c: int|
            0 <= c < self.competitors@.len() ==> (#[trigger] self.competitors@[c]).id.0 == c
    }

    /// `clusters` is the ranking of this sheet, made of its competitors as
    /// they stand on it.
    pub open spec fn ranked_by(&self, clusters: Seq<CompetitorCluster>) -> bool {
        &&& placings(clusters) == ranking(self.scores(), self.competitor_list().len())
        &&& forall|k: int, i: int|
            0 <= k < clusters.len() && 0 <= i < clusters[k].members().len() ==> {
                let member = #[trigger] clusters[k].members()[i];
                &&& member.id.0 < self.competitor_list().len()
                &&& self.competitor_list()[member.id.0 as int] == member
            }
    }

    /// The competitors are marked exactly when the sheet holds its ranking,
    /// and what it holds is its ranking.
    pub closed spec fn settled(&self) -> bool {
        match self.cached() {
            Some(clusters) => {
                &&& self.ranked_by(clusters)
                &&& forall|c: int|
                    0 <= c < self.competitors@.len() ==> (#[trigger] self.competitors@[c]).marked
            },
            None => forall|c: int|
                0 <= c < self.competitors@.len() ==> !(#[trigger] self.competitors@[c]).marked,
        }
    }

    /// The sheet is well formed: shaped and settled.
    pub open spec fn wf(&self) -> bool {
        self.shaped() && self.settled()
    }

    /// Each row of the table belongs to a judge and holds a placement for
    /// every competitor.
    proof fn lemma_row(&self, j: int)
        requires
            self.shaped(),
            0 <= j < self.judges@.len(),
        ensures
            self.scores()[j] == self.notes@[j]@,
            self.notes@[j]@.len() == self.competitors@.len(),
            self.scores().len() == self.judges@.len(),
    {
        assert(self.scores()[j].len() == self.competitors@.len());
    }

    /// What being shaped says of the table: one row per judge, with a
    /// placement for every competitor.
    pub proof fn lemma_shape(&self)
        requires
            self.shaped(),
        ensures
            self.judge_list().len() < usize::MAX,
            self.competitor_list().len() <= usize::MAX,
            self.scores().len() == self.judge_list().len(),
            rectangular(self.scores(), self.competitor_list().len()),
    {
        assert(self.competitors@.len() == self.competitors.len());
    }

    /// A sheet without judges or competitors.
    pub fn new() -> (sheet: Self)
        ensures
            sheet.wf(),
            sheet.judge_list().len() == 0,
            sheet.competitor_list().len() == 0,
            sheet.scores().len() == 0,
            sheet.cached() is None,
    {
        Sheet { judges: Vec::new(), competitors: Vec::new(), notes: Vec::new(), ranked: None }
    }

    /// Adds a judge as the last column of a sheet that has no competitors yet.
    pub fn add_judge(&mut self, name: String)
        requires
            old(self).wf(),
            old(self).cached() is None,
            old(self).competitor_list().len() == 0,
            old(self).judge_list().len() + 1 < usize::MAX,
        ensures
            final(self).wf(),
            final(self).cached() is None,
            final(self).competitor_list() == old(self).competitor_list(),
            final(self).judge_list() == old(self).judge_list().push(
                (Judge { id: JudgeID(old(self).judge_list().len() as usize), name }),
            ),
            final(self).scores() == old(self).scores().push(Seq::empty()),
    {
        let id = JudgeID(self.judges.len());
        self.judges.push(Judge { id, name });
        self.notes.push(Vec::new());
        proof {
            assert(self.scores() =~= old(self).scores().push(Seq::empty()));
            assert forall|j: int| 0 <= j < self.scores().len() implies (
            #[trigger] self.scores()[j]).len() == 0 by {
                if j < old(self).scores().len() {
                    assert(old(self).scores()[j].len() == 0);
                }
            }
        }
    }

    /// Adds a competitor as the last row of a sheet that has not been ranked,
    /// with the placement that each judge gave, in the order of the judges.
    pub fn add_competitor(&mut self, name: String, placements: &[u32])
        requires
            old(self).wf(),
            old(self).cached() is None,
            placements@.len() == old(self).judge_list().len(),
        ensures
            final(self).wf(),
            final(self).cached() is None,
            final(self).judge_list() == old(self).judge_list(),
            final(self).competitor_list() == old(self).competitor_list().push(
                (Competitor {
                    id: CompetitorID(old(self).competitor_list().len() as usize),
                    name,
                    marked: false,
                }),
            ),
            final(self).scores().len() == old(self).scores().len(),
            forall|j: int|
                0 <= j < old(self).scores().len() ==> #[trigger] final(self).scores()[j] == old(
                    self,
                ).scores()[j].push(placements@[j]),
    {
        let id = CompetitorID(self.competitors.len());
        self.competitors.push(Competitor { id, name, marked: false });
        let mut j: usize = 0;
        while j < self.notes.len()
            invariant
                j <= self.notes@.len(),
                self.notes@.len() == old(self).notes@.len(),
                self.notes@.len() == placements@.len(),
                self.judges@ == old(self).judges@,
                self.competitors@ == old(self).competitors@.push(
                    (Competitor { id, name, marked: false }),
                ),
                self.ranked == old(self).ranked,
                forall|k: int|
                    0 <= k < j ==> (#[trigger] self.notes@[k])@ == old(self).notes@[k]@.push(
                        placements@[k],
                    ),
                forall|k: int|
                    j <= k < self.notes@.len() ==> #[trigger] self.notes@[k] == old(
                        self,
                    ).notes@[k],
            decreases self.notes@.len() - j,
        {
            self.notes[j].push(placements[j]);
            j += 1;
        }
        proof {
            assert forall|k: int| 0 <= k < self.scores().len() implies (
            #[trigger] self.scores()[k]).len() == self.competitors@.len() by {
                assert(old(self).scores()[k].len() == old(self).competitors@.len());
                assert(self.notes@[k]@ == old(self).notes@[k]@.push(placements@[k]));
            }
            assert forall|k: int| 0 <= k < old(self).scores().len() implies (
            #[trigger] self.scores()[k]) == old(self).scores()[k].push(placements@[k]) by {
                assert(self.notes@[k]@ == old(self).notes@[k]@.push(placements@[k]));
            }
        }
    }

    /// The number of competitors.
    pub fn n_competitors(&self) -> (n: usize)
        ensures
            n == self.competitor_list().len(),
    {
        self.competitors.len()
    }

    /// The number of judges.
    pub fn n_judges(&self) -> (n: usize)
        ensures
            n == self.judge_list().len(),
    {
        self.judges.len()
    }

    /// The judges in the order of the sheet's columns.
    pub fn judges(&self) -> (all: &[Judge])
        ensures
            all@ == self.judge_list(),
    {
        self.judges.as_slice()
    }

    /// The competitors in the order of the sheet's rows.
    pub fn competitors(&self) -> (all: &[Competitor])
        ensures
            all@ == self.competitor_list(),
    {
        self.competitors.as_slice()
    }

    /// The placement that judge `j` gave competitor `c`.
    pub fn score(&self, j: JudgeID, c: CompetitorID) -> (placement: u32)
        requires
            self.shaped(),
            j.0 < self.judge_list().len(),
            c.0 < self.competitor_list().len(),
        ensures
            placement == self.scores()[j.0 as int][c.0 as int],
    {
        proof {
            self.lemma_row(j.0 as int);
        }
        self.notes[j.0][c.0]
    }

    /// `comp` names competitors of this sheet.
    pub open spec fn lists(&self, comp: Seq<CompetitorID>) -> bool {
        forall|i: int| 0 <= i < comp.len() ==> (#[trigger] comp[i]).0 < self.competitor_list().len()
    }

    /// For each of `comp`, the number of judges who placed that competitor at
    /// `placement_lvl` or better. Every judge counts, whoever is ranked already.
    pub fn n_placements_under(&self, comp: &[CompetitorID], placement_lvl: u32) -> (tallies: Vec<
        (CompetitorID, usize),
    >)
        requires
            self.shaped(),
            self.lists(comp@),
        ensures
            tallies@.len() == comp@.len(),
            forall|i: int|
                0 <= i < comp@.len() ==> (#[trigger] tallies@[i]).0 == comp@[i] && tallies@[i].1
                    == count_under(self.scores(), comp@[i].0 as int, placement_lvl as int),
    {
        let mut tallies: Vec<(CompetitorID, usize)> = Vec::new();
        let mut i: usize = 0;
        while i < comp.len()
            invariant
                self.shaped(),
                self.lists(comp@),
                i <= comp@.len(),
                tallies@.len() == i,
                forall|k: int|
                    0 <= k < i ==> (#[trigger] tallies@[k]).0 == comp@[k] && tallies@[k].1
                        == count_under(self.scores(), comp@[k].0 as int, placement_lvl as int),
            decreases comp@.len() - i,
        {
            let c = comp[i];
            let mut n: usize = 0;
            let mut j: usize = 0;
            while j < self.judges.len()
                invariant
                    self.shaped(),
                    c.0 < self.competitors@.len(),
                    j <= self.judges@.len(),
                    n <= j,
                    n == count_among(self.scores(), c.0 as int, placement_lvl as int, j as nat),
                decreases self.judges@.len() - j,
            {
                proof {
                    self.lemma_row(j as int);
                }
                if self.notes[j][c.0] <= placement_lvl {
                    n += 1;
                }
                j += 1;
            }
            tallies.push((c, n));
            i += 1;
        }
        tallies
    }

    /// For each of `comp`, the sum of the placements of that competitor that
    /// are `placement_lvl` or better; a worse placement adds nothing.
    pub fn sum_placements_under(&self, comp: &[CompetitorID], placement_lvl: u32) -> (tallies: Vec<
        (CompetitorID, u128),
    >)
        requires
            self.shaped(),
            self.lists(comp@),
        ensures
            tallies@.len() == comp@.len(),
            forall|i: int|
                0 <= i < comp@.len() ==> (#[trigger] tallies@[i]).0 == comp@[i] && tallies@[i].1
                    == sum_under(self.scores(), comp@[i].0 as int, placement_lvl as int),
    {
        let mut tallies: Vec<(CompetitorID, u128)> = Vec::new();
        let mut i: usize = 0;
        while i < comp.len()
            invariant
                self.shaped(),
                self.lists(comp@),
                i <= comp@.len(),
                tallies@.len() == i,
                forall|k: int|
                    0 <= k < i ==> (#[trigger] tallies@[k]).0 == comp@[k] && tallies@[k].1
                        == sum_under(self.scores(), comp@[k].0 as int, placement_lvl as int),
            decreases comp@.len() - i,
        {
            let c = comp[i];
            let mut n: u128 = 0;
            let mut j: usize = 0;
            while j < self.judges.len()
                invariant
                    self.shaped(),
                    c.0 < self.competitors@.len(),
                    j <= self.judges@.len(),
                    n == sum_among(self.scores(), c.0 as int, placement_lvl as int, j as nat),
                decreases self.judges@.len() - j,
            {
                proof {
                    self.lemma_row(j as int);
                    lemma_sum_bounded(self.scores(), c.0 as int, placement_lvl as int, j as nat);
                }
                let x = self.notes[j][c.0];
                if x <= placement_lvl {
                    n += x as u128;
                }
                j += 1;
            }
            tallies.push((c, n));
            i += 1;
        }
        tallies
    }

    /// The worst placement on the sheet, 0 when it holds none.
    pub fn worst_placement(&self) -> (worst: u32)
        requires
            self.shaped(),
        ensures
            worst == ceiling(self.scores()),
    {
        let mut worst: u32 = 0;
        let mut j: usize = 0;
        while j < self.notes.len()
            invariant
                self.shaped(),
                j <= self.notes@.len(),
                worst == worst_among(self.scores(), j as nat),
            decreases self.notes@.len() - j,
        {
            let row = &self.notes[j];
            let mut here: u32 = 0;
            let mut c: usize = 0;
            while c < row.len()
                invariant
                    c <= row@.len(),
                    here == row_worst(row@, c as nat),
                decreases row@.len() - c,
            {
                if row[c] > here {
                    here = row[c];
                }
                c += 1;
            }
            proof {
                self.lemma_row(j as int);
            }
            if here > worst {
                worst = here;
            }
            j += 1;
        }
        worst
    }

    /// `self` is `before` with, at most, more competitors marked.
    spec fn continues(&self, before: &Sheet) -> bool {
        &&& self.judges@ == before.judges@
        &&& self.notes@ == before.notes@
        &&& self.ranked == before.ranked
        &&& self.competitors@.len() == before.competitors@.len()
        &&& forall|c: int|
            0 <= c < self.competitors@.len() ==> {
                &&& (#[trigger] self.competitors@[c]).id == before.competitors@[c].id
                &&& self.competitors@[c].name == before.competitors@[c].name
                &&& before.competitors@[c].marked ==> self.competitors@[c].marked
            }
    }

    /// Every competitor in `clusters` is a marked competitor of this sheet.
    spec fn holds(&self, clusters: Seq<CompetitorCluster>) -> bool {
        forall|k: int, i: int|
            0 <= k < clusters.len() && 0 <= i < clusters[k].members().len() ==> {
                let member = #[trigger] clusters[k].members()[i];
                &&& member.id.0 < self.competitors@.len()
                &&& member.marked
                &&& self.competitors@[member.id.0 as int] == member
            }
    }

    /// The members of `comp` that are not marked, in the order of `comp`.
    fn still_open(&self, comp: &[CompetitorID]) -> (rest: Vec<CompetitorID>)
        requires
            self.shaped(),
            self.lists(comp@),
        ensures
            self.lists(rest@),
            ids(rest@) == unresolved(ids(comp@), self.resolved()),
    {
        let mut rest: Vec<CompetitorID> = Vec::new();
        let mut i: usize = 0;
        proof {
            reveal(Seq::filter);
            assert(ids(comp@.take(0)) =~= Seq::<int>::empty());
        }
        while i < comp.len()
            invariant
                self.lists(comp@),
                self.lists(rest@),
                i <= comp@.len(),
                ids(rest@) == unresolved(ids(comp@.take(i as int)), self.resolved()),
            decreases comp@.len() - i,
        {
            let c = comp[i];
            proof {
                let seen = ids(comp@.take(i as int));
                assert(ids(comp@.take(i + 1)) =~= seen.push(c.0 as int));
                lemma_filter_push(seen, c.0 as int, is_open(self.resolved()));
            }
            if !self.competitors[c.0].marked {
                proof {
                    assert(ids(rest@.push(c)) =~= ids(rest@).push(c.0 as int));
                }
                rest.push(c);
            }
            i += 1;
        }
        proof {
            assert(comp@.take(comp@.len() as int) =~= comp@);
        }
        rest
    }

    /// The unmarked members of `comp` that a majority of the judges placed at
    /// `placement_lvl` or better, each with its count.
    fn potential_winners(&self, comp: &[CompetitorID], placement_lvl: u32) -> (winners: Vec<
        (CompetitorID, usize),
    >)
        requires
            self.shaped(),
            self.lists(comp@),
        ensures
            tallied_ids(winners@) == candidates(
                self.scores(),
                ids(comp@),
                placement_lvl as int,
                self.resolved(),
            ),
            forall|i: int|
                0 <= i < winners@.len() ==> (#[trigger] winners@[i]).0.0
                    < self.competitor_list().len() && winners@[i].1 == count_under(
                    self.scores(),
                    winners@[i].0.0 as int,
                    placement_lvl as int,
                ),
    {
        let majority = self.judges.len() / 2 + 1;
        let tallies = self.n_placements_under(comp, placement_lvl);
        let mut winners: Vec<(CompetitorID, usize)> = Vec::new();
        let mut i: usize = 0;
        let ghost choice = is_candidate(self.scores(), placement_lvl as int, self.resolved());
        proof {
            reveal(Seq::filter);
            assert(ids(comp@.take(0)) =~= Seq::<int>::empty());
        }
        while i < tallies.len()
            invariant
                self.lists(comp@),
                majority == crate::tally::majority(self.scores().len()),
                choice == is_candidate(self.scores(), placement_lvl as int, self.resolved()),
                tallies@.len() == comp@.len(),
                forall|k: int|
                    0 <= k < comp@.len() ==> (#[trigger] tallies@[k]).0 == comp@[k]
                        && tallies@[k].1 == count_under(
                        self.scores(),
                        comp@[k].0 as int,
                        placement_lvl as int,
                    ),
                i <= tallies@.len(),
                tallied_ids(winners@) == ids(comp@.take(i as int)).filter(choice),
                forall|k: int|
                    0 <= k < winners@.len() ==> (#[trigger] winners@[k]).0.0
                        < self.competitor_list().len() && winners@[k].1 == count_under(
                        self.scores(),
                        winners@[k].0.0 as int,
                        placement_lvl as int,
                    ),
            decreases tallies@.len() - i,
        {
            let (c, n) = tallies[i];
            proof {
                let seen = ids(comp@.take(i as int));
                assert(ids(comp@.take(i + 1)) =~= seen.push(c.0 as int));
                lemma_filter_push(seen, c.0 as int, choice);
            }
            if n >= majority && !self.competitors[c.0].marked {
                proof {
                    assert(tallied_ids(winners@.push((c, n))) =~= tallied_ids(winners@).push(
                        c.0 as int,
                    ));
                }
                winners.push((c, n));
            }
            i += 1;
        }
        proof {
            assert(comp@.take(comp@.len() as int) =~= comp@);
        }
        winners
    }

    /// Those of `winners` whose count is the largest among them.
    fn with_biggest_majority(
        &self,
        winners: &Vec<(CompetitorID, usize)>,
        Ghost(level): Ghost<int>,
    ) -> (top: Vec<CompetitorID>)
        requires
            forall|i: int|
                0 <= i < winners@.len() ==> (#[trigger] winners@[i]).0.0
                    < self.competitor_list().len() && winners@[i].1 == count_under(
                    self.scores(),
                    winners@[i].0.0 as int,
                    level,
                ),
        ensures
            self.lists(top@),
            ids(top@) == leaders(self.scores(), tallied_ids(winners@), level),
    {
        let ghost group = tallied_ids(winners@);
        let mut biggest: usize = 0;
        let mut i: usize = 0;
        while i < winners.len()
            invariant
                group == tallied_ids(winners@),
                forall|k: int|
                    0 <= k < winners@.len() ==> (#[trigger] winners@[k]).1 == count_under(
                        self.scores(),
                        winners@[k].0.0 as int,
                        level,
                    ),
                i <= winners@.len(),
                biggest == best_count(self.scores(), group.take(i as int), level),
            decreases winners@.len() - i,
        {
            proof {
                assert(group.take(i + 1).drop_last() =~= group.take(i as int));
            }
            if winners[i].1 > biggest {
                biggest = winners[i].1;
            }
            i += 1;
        }
        proof {
            assert(group.take(group.len() as int) =~= group);
            reveal(Seq::filter);
        }
        let ghost choice = has_count(self.scores(), level, biggest as nat);
        let mut top: Vec<CompetitorID> = Vec::new();
        let mut i: usize = 0;
        while i < winners.len()
            invariant
                group == tallied_ids(winners@),
                choice == has_count(self.scores(), level, biggest as nat),
                forall|k: int|
                    0 <= k < winners@.len() ==> (#[trigger] winners@[k]).0.0
                        < self.competitor_list().len() && winners@[k].1 == count_under(
                        self.scores(),
                        winners@[k].0.0 as int,
                        level,
                    ),
                i <= winners@.len(),
                self.lists(top@),
                ids(top@) == group.take(i as int).filter(choice),
            decreases winners@.len() - i,
        {
            let (c, n) = winners[i];
            proof {
                assert(group.take(i + 1) =~= group.take(i as int).push(c.0 as int));
                lemma_filter_push(group.take(i as int), c.0 as int, choice);
            }
            if n == biggest {
                proof {
                    assert(ids(top@.push(c)) =~= ids(top@).push(c.0 as int));
                }
                top.push(c);
            }
            i += 1;
        }
        proof {
            assert(group.take(group.len() as int) =~= group);
        }
        top
    }

    /// Those of `sums` whose sum is the smallest among them.
    fn with_smallest_sum(&self, sums: &Vec<(CompetitorID, u128)>, Ghost(level): Ghost<int>) -> (tied:
        Vec<CompetitorID>)
        requires
            forall|i: int|
                0 <= i < sums@.len() ==> (#[trigger] sums@[i]).0.0 < self.competitor_list().len()
                    && sums@[i].1 == sum_under(self.scores(), sums@[i].0.0 as int, level),
        ensures
            self.lists(tied@),
            ids(tied@) == lightest(self.scores(), tallied_ids(sums@), level),
    {
        let ghost group = tallied_ids(sums@);
        let mut smallest: u128 = 0;
        let mut i: usize = 0;
        while i < sums.len()
            invariant
                group == tallied_ids(sums@),
                forall|k: int|
                    0 <= k < sums@.len() ==> (#[trigger] sums@[k]).1 == sum_under(
                        self.scores(),
                        sums@[k].0.0 as int,
                        level,
                    ),
                i <= sums@.len(),
                smallest == least_sum(self.scores(), group.take(i as int), level),
            decreases sums@.len() - i,
        {
            proof {
                assert(group.take(i + 1).drop_last() =~= group.take(i as int));
            }
            if i == 0 || sums[i].1 < smallest {
                smallest = sums[i].1;
            }
            i += 1;
        }
        proof {
            assert(group.take(group.len() as int) =~= group);
            reveal(Seq::filter);
        }
        let ghost choice = has_sum(self.scores(), level, smallest as nat);
        let mut tied: Vec<CompetitorID> = Vec::new();
        let mut i: usize = 0;
        while i < sums.len()
            invariant
                group == tallied_ids(sums@),
                choice == has_sum(self.scores(), level, smallest as nat),
                forall|k: int|
                    0 <= k < sums@.len() ==> (#[trigger] sums@[k]).0.0
                        < self.competitor_list().len() && sums@[k].1 == sum_under(
                        self.scores(),
                        sums@[k].0.0 as int,
                        level,
                    ),
                i <= sums@.len(),
                self.lists(tied@),
                ids(tied@) == group.take(i as int).filter(choice),
            decreases sums@.len() - i,
        {
            let (c, n) = sums[i];
            proof {
                assert(group.take(i + 1) =~= group.take(i as int).push(c.0 as int));
                lemma_filter_push(group.take(i as int), c.0 as int, choice);
            }
            if n == smallest {
                proof {
                    assert(ids(tied@.push(c)) =~= ids(tied@).push(c.0 as int));
                }
                tied.push(c);
            }
            i += 1;
        }
        proof {
            assert(group.take(group.len() as int) =~= group);
        }
        tied
    }

    /// Marks competitor `c`, who is not marked yet, as ranked and hands back
    /// a copy of it.
    fn resolve(&mut self, c: CompetitorID) -> (copy: Competitor)
        requires
            old(self).shaped(),
            c.0 < old(self).competitor_list().len(),
            !old(self).competitor_list()[c.0 as int].marked,
        ensures
            final(self).shaped(),
            final(self).continues(old(self)),
            final(self).resolved() == old(self).resolved().insert(c.0 as int),
            copy.id == c,
            copy.marked,
            final(self).competitor_list()[c.0 as int] == copy,
            forall|k: int|
                0 <= k < old(self).competitor_list().len() && k != c.0
                    ==> #[trigger] final(self).competitor_list()[k] == old(
                    self,
                ).competitor_list()[k],
    {
        self.competitors[c.0].marked = true;
        proof {
            assert(self.scores() =~= old(self).scores());
            assert(self.resolved() =~= old(self).resolved().insert(c.0 as int));
        }
        self.competitors[c.0].clone()
    }

    /// Marks each of `group`, none of whom is marked yet, as ranked and hands
    /// back copies of them, in the order of `group`.
    fn resolve_all(&mut self, group: &Vec<CompetitorID>) -> (copies: Vec<Competitor>)
        requires
            old(self).shaped(),
            old(self).lists(group@),
            ids(group@).no_duplicates(),
            forall|i: int|
                0 <= i < group@.len() ==> !old(self).competitor_list()[(
                #[trigger] group@[i]).0 as int].marked,
        ensures
            final(self).shaped(),
            final(self).continues(old(self)),
            final(self).resolved() == old(self).resolved() + ids(group@).to_set(),
            positions(copies@) == ids(group@),
            forall|i: int|
                0 <= i < copies@.len() ==> (#[trigger] copies@[i]).marked
                    && final(self).competitor_list()[copies@[i].id.0 as int] == copies@[i],
    {
        let mut copies: Vec<Competitor> = Vec::new();
        let mut i: usize = 0;
        proof {
            assert(ids(group@.take(0)).to_set() =~= Set::<int>::empty());
            assert(self.resolved() + Set::<int>::empty() =~= self.resolved());
        }
        while i < group.len()
            invariant
                self.shaped(),
                self.continues(old(self)),
                self.lists(group@),
                i <= group@.len(),
                copies@.len() == i,
                ids(group@).no_duplicates(),
                forall|k: int|
                    i <= k < group@.len() ==> !self.competitor_list()[(
                    #[trigger] group@[k]).0 as int].marked,
                self.resolved() == old(self).resolved() + ids(group@.take(i as int)).to_set(),
                forall|k: int|
                    0 <= k < i ==> (#[trigger] copies@[k]).marked && copies@[k].id == group@[k]
                        && self.competitor_list()[copies@[k].id.0 as int] == copies@[k],
            decreases group@.len() - i,
        {
            let ghost before = *self;
            let copy = self.resolve(group[i]);
            proof {
                assert forall|k: int| i < k < group@.len() implies !self.competitor_list()[(
                #[trigger] group@[k]).0 as int].marked by {
                    assert(ids(group@)[k] != ids(group@)[i as int]);
                    assert(!before.competitor_list()[group@[k].0 as int].marked);
                }
                let seen = ids(group@.take(i as int));
                let c = group@[i as int].0 as int;
                assert(ids(group@.take(i + 1)) =~= seen.push(c));
                seen.lemma_push_to_set_commute(c);
                assert(self.resolved() =~= old(self).resolved() + ids(
                    group@.take(i + 1),
                ).to_set());
            }
            copies.push(copy);
            i += 1;
        }
        proof {
            assert(group@.take(group@.len() as int) =~= group@);
            assert(positions(copies@) =~= ids(group@));
        }
        copies
    }

    /// What a sheet holds of some clusters, a later state of it holds too.
    proof fn lemma_still_holds(&self, before: &Sheet, clusters: Seq<CompetitorCluster>)
        requires
            before.holds(clusters),
            self.continues(before),
        ensures
            self.holds(clusters),
    {
        assert forall|k: int, i: int|
            0 <= k < clusters.len() && 0 <= i < clusters[k].members().len() implies {
            let member = #[trigger] clusters[k].members()[i];
            &&& member.id.0 < self.competitors@.len()
            &&& member.marked
            &&& self.competitors@[member.id.0 as int] == member
        } by {
            let member = clusters[k].members()[i];
            let now = self.competitors@[member.id.0 as int];
            assert(before.competitors@[member.id.0 as int] == member);
            assert(now.id == member.id && now.name == member.name && now.marked);
        }
    }

    /// Appends to `res` the tie of the unmarked competitors `rest`, and marks them.
    fn declare_tie(&mut self, rest: &Vec<CompetitorID>, res: &mut Vec<CompetitorCluster>)
        requires
            old(self).shaped(),
            old(self).lists(rest@),
            ids(rest@).no_duplicates(),
            forall|i: int| 0 <= i < ids(rest@).len() ==> !old(self).resolved().contains(
                #[trigger] ids(rest@)[i],
            ),
            old(self).holds(old(res)@),
        ensures
            final(self).shaped(),
            final(self).continues(old(self)),
            final(self).resolved() == old(self).resolved() + ids(rest@).to_set(),
            final(self).holds(final(res)@),
            final(res)@.len() == old(res)@.len() + 1,
            placings(final(res)@) == placings(old(res)@).push(Placing::Tie(ids(rest@))),
    {
        proof {
            assert forall|i: int| 0 <= i < rest@.len() implies !self.competitor_list()[(
            #[trigger] rest@[i]).0 as int].marked by {
                assert(!self.resolved().contains(ids(rest@)[i]));
            }
        }
        let copies = self.resolve_all(rest);
        proof {
            self.lemma_still_holds(old(self), res@);
        }
        let ghost before = res@;
        res.push(CompetitorCluster::Tie(copies));
        proof {
            assert(placings(res@) =~= placings(before).push(Placing::Tie(ids(rest@))));
            assert forall|k: int, i: int|
                0 <= k < res@.len() && 0 <= i < res@[k].members().len() implies {
                let member = #[trigger] res@[k].members()[i];
                &&& member.id.0 < self.competitors@.len()
                &&& member.marked
                &&& self.competitors@[member.id.0 as int] == member
            } by {
                if k < before.len() {
                    assert(res@[k] == before[k]);
                } else {
                    let member = copies@[i];
                    assert(positions(copies@).len() == copies@.len());
                    assert(ids(rest@).len() == rest@.len());
                    assert(res@[k].members()[i] == member);
                    assert(positions(copies@)[i] == ids(rest@)[i]);
                    assert(rest@[i].0 < old(self).competitor_list().len());
                    assert(member.id.0 == rest@[i].0);
                    assert(member.marked);
                    assert(self.competitor_list()[member.id.0 as int] == member);
                }
            }
        }
    }

    /// Appends to `res` the cluster of competitor `c` alone, and marks it.
    fn declare_winner(&mut self, c: CompetitorID, res: &mut Vec<CompetitorCluster>)
        requires
            old(self).shaped(),
            c.0 < old(self).competitor_list().len(),
            !old(self).resolved().contains(c.0 as int),
            old(self).holds(old(res)@),
        ensures
            final(self).shaped(),
            final(self).continues(old(self)),
            final(self).resolved() == old(self).resolved().insert(c.0 as int),
            final(self).holds(final(res)@),
            final(res)@.len() == old(res)@.len() + 1,
            placings(final(res)@) == placings(old(res)@).push(Placing::One(c.0 as int)),
    {
        let copy = self.resolve(c);
        proof {
            self.lemma_still_holds(old(self), res@);
        }
        let ghost before = res@;
        res.push(CompetitorCluster::One(copy));
        proof {
            assert(placings(res@) =~= placings(before).push(Placing::One(c.0 as int)));
            assert forall|k: int, i: int|
                0 <= k < res@.len() && 0 <= i < res@[k].members().len() implies {
                let member = #[trigger] res@[k].members()[i];
                &&& member.id.0 < self.competitors@.len()
                &&& member.marked
                &&& self.competitors@[member.id.0 as int] == member
            } by {
                if k < before.len() {
                    assert(res@[k] == before[k]);
                }
            }
        }
    }

    /// Ranks the unmarked members of `comp` among themselves by relative
    /// placement, from `placement_lvl` on, and marks them.
    ///
    /// `worst` is the worst placement on the sheet: from that level on no
    /// tally changes, so a group that is still tied there shares a position.
    fn rank_for(&mut self, comp: &[CompetitorID], placement_lvl: u32, worst: u32) -> (res: Vec<
        CompetitorCluster,
    >)
        requires
            old(self).shaped(),
            old(self).lists(comp@),
            ids(comp@).no_duplicates(),
            worst == ceiling(old(self).scores()),
        ensures
            final(self).shaped(),
            final(self).continues(old(self)),
            final(self).resolved() == old(self).resolved() + ids(comp@).to_set(),
            final(self).holds(res@),
            placings(res@) == rank_from(
                old(self).scores(),
                ids(comp@),
                placement_lvl as int,
                old(self).resolved(),
            ),
        decreases headroom(old(self).scores(), placement_lvl as int),
    {
        let n_c = comp.len();
        let mut level = placement_lvl;
        let mut res: Vec<CompetitorCluster> = Vec::new();
        let ghost scores = self.scores();
        let ghost subset = ids(comp@);
        let ghost start = self.resolved();
        let ghost goal = rank_from(scores, subset, placement_lvl as int, start);
        proof {
            assert(placings(res@) + goal =~= goal);
        }
        loop
            invariant_except_break
                placings(res@) + rank_from(scores, subset, level as int, self.resolved()) == goal,
            invariant
                self.shaped(),
                self.continues(old(self)),
                self.lists(comp@),
                self.scores() == scores,
                subset == ids(comp@),
                subset.no_duplicates(),
                n_c == comp@.len(),
                worst == ceiling(scores),
                placement_lvl <= level,
                placement_lvl <= n_c ==> level <= n_c,
                start.subset_of(self.resolved()),
                self.resolved().subset_of(start + subset.to_set()),
                self.holds(res@),
            ensures
                placings(res@) == goal,
                self.resolved() == start + subset.to_set(),
            decreases headroom(scores, level as int), unresolved(subset, self.resolved()).len(),
        {
            let ghost done = self.resolved();
            let ghost so_far = placings(res@);
            let ghost before = *self;
            let rest = self.still_open(comp);
            proof {
                assert(ids(rest@).len() == rest@.len());
                assert(subset.len() == n_c);
                lemma_filter_keeps_distinct(subset, is_open(done));
                lemma_front_distinct(scores, subset, level as int, done);
                assert forall|i: int| 0 <= i < ids(rest@).len() implies !done.contains(
                    #[trigger] ids(rest@)[i],
                ) by {
                    assert(ids(rest@).contains(ids(rest@)[i]));
                    lemma_open_member(subset, done, ids(rest@)[i]);
                }
            }
            if rest.len() == 0 {
                proof {
                    lemma_all_resolved(subset, done);
                    assert(next_step(scores, subset, level as int, done) == Step::Finished);
                    assert(so_far + Seq::<Placing>::empty() =~= so_far);
                    assert(done =~= start + subset.to_set());
                }
                break ;
            } else if level as usize == n_c {
                self.declare_tie(&rest, &mut res);
                proof {
                    assert(next_step(scores, subset, level as int, done) == Step::TieRest);
                    assert(so_far.push(Placing::Tie(ids(rest@))) =~= so_far + seq![
                        Placing::Tie(unresolved(subset, done)),
                    ]);
                    assert(self.scores() =~= scores);
                    assert(self.resolved() =~= start + subset.to_set()) by {
                        assert forall|c: int| subset.contains(c) implies done.contains(c) || ids(
                            rest@,
                        ).contains(c) by {
                            lemma_open_member(subset, done, c);
                        }
                        assert forall|c: int| ids(rest@).contains(c) implies subset.contains(
                            c,
                        ) by {
                            lemma_open_member(subset, done, c);
                        }
                    }
                }
                break ;
            }
            // A pass that started within the size of its subset tallies
            // only below that size.
            assert(placement_lvl <= n_c ==> level < n_c);
            let winners = self.potential_winners(comp, level);
            let ghost hopefuls = candidates(scores, subset, level as int, done);
            let ghost top = leaders(scores, hopefuls, level as int);
            let ghost front = lightest(scores, top, level as int);
            proof {
                assert(tallied_ids(winners@).len() == winners@.len());
                lemma_front_runners(scores, subset, level as int, done);
            }
            if winners.len() == 0 {
                if level >= worst {
                    self.declare_tie(&rest, &mut res);
                    proof {
                        assert(next_step(scores, subset, level as int, done) == Step::TieRest);
                        assert(so_far.push(Placing::Tie(ids(rest@))) =~= so_far + seq![
                            Placing::Tie(unresolved(subset, done)),
                        ]);
                        assert(self.scores() =~= scores);
                        assert(self.resolved() =~= start + subset.to_set()) by {
                            assert forall|c: int| subset.contains(c) implies done.contains(c)
                                || ids(rest@).contains(c) by {
                                lemma_open_member(subset, done, c);
                            }
                            assert forall|c: int| ids(rest@).contains(c) implies subset.contains(
                                c,
                            ) by {
                                lemma_open_member(subset, done, c);
                            }
                        }
                    }
                    break ;
                } else {
                    proof {
                        assert(next_step(scores, subset, level as int, done) == Step::Climb);
                    }
                    level += 1;
                }
            } else if winners.len() == 1 {
                let c = winners[0].0;
                proof {
                    lemma_lone_candidate(scores, hopefuls, level as int);
                    lemma_single_leader(scores, subset, level as int, done);
                    assert(hopefuls[0] == c.0 as int);
                    assert(front.contains(front[0]));
                    assert(next_step(scores, subset, level as int, done) == Step::Single(
                        c.0 as int,
                    ));
                }
                self.declare_winner(c, &mut res);
                proof {
                    Self::lemma_one_more(scores, subset, level as int, done, c.0 as int, so_far);
                    assert(self.scores() =~= scores);
                }
            } else {
                let leading = self.with_biggest_majority(&winners, Ghost(level as int));
                proof {
                    assert(ids(leading@).len() == leading@.len());
                }
                if leading.len() == 1 {
                    let c = leading[0];
                    proof {
                        lemma_single_leader(scores, subset, level as int, done);
                        assert(top[0] == c.0 as int);
                        assert(front.contains(front[0]));
                        assert(next_step(scores, subset, level as int, done) == Step::Single(
                            c.0 as int,
                        ));
                    }
                    self.declare_winner(c, &mut res);
                    proof {
                        Self::lemma_one_more(
                            scores,
                            subset,
                            level as int,
                            done,
                            c.0 as int,
                            so_far,
                        );
                        assert(self.scores() =~= scores);
                    }
                } else {
                    let sums = self.sum_placements_under(leading.as_slice(), level);
                    proof {
                        assert(tallied_ids(sums@) =~= ids(leading@));
                    }
                    let tied = self.with_smallest_sum(&sums, Ghost(level as int));
                    proof {
                        assert(ids(tied@).len() == tied@.len());
                        assert(ids(tied@) == front);
                    }
                    if tied.len() == 1 {
                        let c = tied[0];
                        proof {
                            assert(front[0] == c.0 as int);
                            assert(front.contains(front[0]));
                            assert(next_step(scores, subset, level as int, done) == Step::Single(
                                c.0 as int,
                            ));
                        }
                        self.declare_winner(c, &mut res);
                        proof {
                            Self::lemma_one_more(
                                scores,
                                subset,
                                level as int,
                                done,
                                c.0 as int,
                                so_far,
                            );
                            assert(self.scores() =~= scores);
                        }
                    } else if level >= worst {
                        proof {
                            assert(next_step(scores, subset, level as int, done)
                                == Step::TieGroup(front));
                            assert forall|i: int| 0 <= i < front.len() implies !done.contains(
                                #[trigger] front[i],
                            ) by {
                                assert(front.contains(front[i]));
                            }
                        }
                        self.declare_tie(&tied, &mut res);
                        proof {
                            Self::lemma_group_more(scores, subset, level as int, done, front);
                            assert(so_far.push(Placing::Tie(front)) + rank_from(
                                scores,
                                subset,
                                level as int,
                                done + front.to_set(),
                            ) =~= so_far + (seq![Placing::Tie(front)] + rank_from(
                                scores,
                                subset,
                                level as int,
                                done + front.to_set(),
                            )));
                            assert(self.scores() =~= scores);
                        }
                    } else {
                        proof {
                            assert(next_step(scores, subset, level as int, done) == Step::Descend(
                                front,
                            ));
                        }
                        let mut deeper = self.rank_for(tied.as_slice(), level + 1, worst);
                        proof {
                            Self::lemma_group_more(scores, subset, level as int, done, front);
                            self.lemma_still_holds(&before, res@);
                            assert(self.scores() =~= scores);
                        }
                        let ghost inner = deeper@;
                        res.append(&mut deeper);
                        proof {
                            assert(placings(res@) =~= so_far + placings(inner));
                            assert((so_far + placings(inner)) + rank_from(
                                scores,
                                subset,
                                level as int,
                                done + front.to_set(),
                            ) =~= so_far + (placings(inner) + rank_from(
                                scores,
                                subset,
                                level as int,
                                done + front.to_set(),
                            )));
                        }
                    }
                }
            }
        }
        res
    }

    /// Ranking one unranked member of the subset leaves fewer to rank, and
    /// the ranking goes on behind that member.
    proof fn lemma_one_more(
        scores: Scores,
        subset: Seq<int>,
        level: int,
        done: Set<int>,
        c: int,
        so_far: Seq<Placing>,
    )
        requires
            front_runners(scores, subset, level, done).contains(c),
            next_step(scores, subset, level, done) == Step::Single(c),
        ensures
            subset.contains(c),
            !done.contains(c),
            unresolved(subset, done.insert(c)).len() < unresolved(subset, done).len(),
            so_far.push(Placing::One(c)) + rank_from(scores, subset, level, done.insert(c))
                == so_far + rank_from(scores, subset, level, done),
    {
        lemma_front_runners(scores, subset, level, done);
        assert(done.insert(c) =~= done + set![c]);
        lemma_unresolved_shrinks(subset, done, set![c]);
        assert(so_far.push(Placing::One(c)) + rank_from(scores, subset, level, done.insert(c))
            =~= so_far + (seq![Placing::One(c)] + rank_from(
            scores,
            subset,
            level,
            done.insert(c),
        )));
    }

    /// Ranking a group of front runners leaves fewer of the subset to rank.
    proof fn lemma_group_more(
        scores: Scores,
        subset: Seq<int>,
        level: int,
        done: Set<int>,
        group: Seq<int>,
    )
        requires
            group == front_runners(scores, subset, level, done),
            group.len() > 0,
        ensures
            group.to_set().subset_of(subset.to_set()),
            unresolved(subset, done + group.to_set()).len() < unresolved(subset, done).len(),
    {
        lemma_front_runners(scores, subset, level, done);
        assert(group.contains(group[0]));
        assert(group.to_set().contains(group[0]));
        lemma_unresolved_shrinks(subset, done, group.to_set());
    }

    /// What ranking makes of the sheet `before`: this sheet, which holds
    /// `clusters` as its ranking.
    ///
    /// The clusters are the ranking of the table, made of the sheet's
    /// competitors. Judges, placements, and the competitors' positions and
    /// names are those of `before`, and every competitor is marked. Where
    /// `before` held its ranking already, nothing has changed at all.
    pub open spec fn ranked_from(&self, before: &Sheet, clusters: Seq<CompetitorCluster>) -> bool {
        &&& self.wf()
        &&& self.cached() == Some(clusters)
        &&& self.ranked_by(clusters)
        &&& self.judge_list() == before.judge_list()
        &&& self.scores() == before.scores()
        &&& self.competitor_list().len() == before.competitor_list().len()
        &&& positions(self.competitor_list()) == positions(before.competitor_list())
        &&& names_of(self.competitor_list()) == names_of(before.competitor_list())
        &&& forall|c: int|
            0 <= c < self.competitor_list().len() ==> (#[trigger] self.competitor_list()[c]).marked
        &&& before.cached() is Some ==> *self == *before
    }

    /// Ranking is idempotent: a second ranking gives the clusters of the
    /// first, equal one by one, and leaves the sheet as the first left it.
    pub proof fn lemma_rank_again(
        before: Sheet,
        between: Sheet,
        first: Seq<CompetitorCluster>,
        after: Sheet,
        second: Seq<CompetitorCluster>,
    )
        requires
            between.ranked_from(&before, first),
            after.ranked_from(&between, second),
        ensures
            second == first,
            after == between,
    {
    }

    /// The ranking of the sheet by relative placement.
    ///
    /// The first call computes the ranking, marks every competitor and keeps
    /// the result; a later call hands the kept result back and changes
    /// nothing.
    pub fn rank(&mut self) -> (clusters: &Vec<CompetitorCluster>)
        requires
            old(self).wf(),
        ensures
            final(self).ranked_from(old(self), clusters@),
    {
        if self.ranked.is_none() {
            let worst = self.worst_placement();
            let mut comps: Vec<CompetitorID> = Vec::new();
            let mut i: usize = 0;
            while i < self.competitors.len()
                invariant
                    self.shaped(),
                    i <= self.competitors@.len(),
                    comps@.len() == i,
                    forall|k: int| 0 <= k < i ==> (#[trigger] comps@[k]).0 == k,
                decreases self.competitors@.len() - i,
            {
                comps.push(self.competitors[i].id);
                i += 1;
            }
            proof {
                assert(ids(comps@) =~= everyone(self.competitors@.len() as nat));
                assert(self.resolved() =~= Set::<int>::empty());
            }
            let res = self.rank_for(comps.as_slice(), 1, worst);
            proof {
                assert(self.scores() =~= old(self).scores());
                assert(positions(self.competitor_list()) =~= positions(
                    old(self).competitor_list(),
                ));
                assert(names_of(self.competitor_list()) =~= names_of(old(self).competitor_list()));
                assert forall|c: int| 0 <= c < self.competitors@.len() implies (
                #[trigger] self.competitors@[c]).marked by {
                    assert(everyone(self.competitors@.len() as nat)[c] == c);
                    assert(ids(comps@).to_set().contains(c));
                    assert(self.resolved().contains(c));
                }
            }
            self.ranked = Some(res);
        }
        self.ranked.as_ref().unwrap()
    }
}

} // verus!
