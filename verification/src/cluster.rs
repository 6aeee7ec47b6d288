//! Judges, competitors, and the clusters that a ranking is made of.

use vstd::prelude::*;
use crate::model::Placing;

verus! {

/// The position of a competitor on the sheet.
#[derive(Clone, Copy, PartialEq, Eq, Debug, Structural)]
pub struct CompetitorID(pub usize);

/// The position of a judge on the sheet.
#[derive(Clone, Copy, PartialEq, Eq, Debug, Structural)]
pub struct JudgeID(pub usize);

/// A judge, by position and name.
#[derive(Debug)]
pub struct Judge {
    pub id: JudgeID,
    pub name: String,
}

/// A competitor, by position and name, with the mark of having been ranked.
#[derive(Debug)]
pub struct Competitor {
    pub id: CompetitorID,
    pub name: String,
    pub marked: bool,
}

impl Clone for Judge {
    fn clone(&self) -> (copy: Self)
        ensures
            copy == *self,
    {
        Judge { id: self.id, name: self.name.clone() }
    }
}

impl Clone for Competitor {
    fn clone(&self) -> (copy: Self)
        ensures
            copy == *self,
    {
        Competitor { id: self.id, name: self.name.clone(), marked: self.marked }
    }
}

/// One position of a ranking: a competitor alone, or a group that shares it.
#[derive(Clone, Debug)]
pub enum CompetitorCluster {
    One(Competitor),
    Tie(Vec<Competitor>),
}

/// The positions on the sheet of a sequence of competitors.
pub open spec fn positions(group: Seq<Competitor>) -> Seq<int> {
    Seq::new(group.len(), |i: int| group[i].id.0 as int)
}

/// The names of a sequence of competitors.
pub open spec fn names_of(group: Seq<Competitor>) -> Seq<Seq<char>> {
    Seq::new(group.len(), |i: int| group[i].name@)
}

impl CompetitorCluster {
    /// The competitors of this cluster, a tie in the order it was formed.
    pub open spec fn members(&self) -> Seq<Competitor> {
        match self {
            CompetitorCluster::One(c) => seq![*c],
            CompetitorCluster::Tie(group) => group@,
        }
    }

    /// The cluster as a placing of sheet positions.
    pub open spec fn placing(&self) -> Placing {
        match self {
            CompetitorCluster::One(c) => Placing::One(c.id.0 as int),
            CompetitorCluster::Tie(group) => Placing::Tie(positions(group@)),
        }
    }

    /// The competitor of a cluster of one, nothing for a tie.
    pub fn as_one(&self) -> (one: Option<&Competitor>)
        ensures
            match *self {
                CompetitorCluster::One(c) => one == Some(&c),
                CompetitorCluster::Tie(_) => one is None,
            },
    {
        match self {
            CompetitorCluster::One(c) => Some(c),
            CompetitorCluster::Tie(..) => None,
        }
    }

    /// The competitors of this cluster in a stable order.
    pub fn competitors(&self) -> (all: Vec<&Competitor>)
        ensures
            all@.len() == self.members().len(),
            forall|i: int| 0 <= i < all@.len() ==> *all@[i] == self.members()[i],
    {
        match self {
            CompetitorCluster::One(c) => {
                let mut all: Vec<&Competitor> = Vec::new();
                all.push(c);
                all
            },
            CompetitorCluster::Tie(group) => {
                let mut all: Vec<&Competitor> = Vec::new();
                let mut i: usize = 0;
                while i < group.len()
                    invariant
                        i <= group@.len(),
                        all@.len() == i,
                        forall|k: int| 0 <= k < i ==> *all@[k] == group@[k],
                    decreases group@.len() - i,
                {
                    all.push(&group[i]);
                    i += 1;
                }
                all
            },
        }
    }
}

/// How the debug format of std writes a text: between double quotes, with
/// escapes where it uses them.
pub uninterp spec fn debug_form(text: Seq<char>) -> Seq<char>;

/// The `Debug` format of std for a `str`, as `format!("{:?}", text)` gives it.
#[verifier::external_body]
fn quoted(text: &str) -> (shown: String)
    ensures
        shown@ == debug_form(text@),
{
    format!("{:?}", text)
}

/// The quoted names of the first `upto` of `group`, with a comma and a space
/// between two of them.
pub open spec fn listing(group: Seq<Competitor>, upto: nat) -> Seq<char>
    decreases upto,
{
    if upto == 0 {
        Seq::empty()
    } else if upto == 1 {
        debug_form(group[0].name@)
    } else {
        listing(group, (upto - 1) as nat) + seq![',', ' '] + debug_form(group[upto - 1].name@)
    }
}

impl CompetitorCluster {
    /// The cluster as text: the quoted name of a competitor alone, the
    /// quoted names of a tie between braces.
    pub open spec fn rendering(&self) -> Seq<char> {
        match self {
            CompetitorCluster::One(c) => debug_form(c.name@),
            CompetitorCluster::Tie(group) => seq!['{'] + listing(group@, group@.len()) + seq!['}'],
        }
    }

    /// The cluster as text.
    pub fn render(&self) -> (text: String)
        ensures
            text@ == self.rendering(),
    {
        match self {
            CompetitorCluster::One(c) => quoted(c.name.as_str()),
            CompetitorCluster::Tie(group) => {
                let mut text = String::new();
                text.append("{");
                let ghost opening = text@;
                proof {
                    reveal_strlit("{");
                    reveal_strlit("}");
                    reveal_strlit(", ");
                    assert(opening =~= seq!['{']);
                    assert(text@ =~= opening + listing(group@, 0));
                }
                let mut i: usize = 0;
                while i < group.len()
                    invariant
                        i <= group@.len(),
                        opening == seq!['{'],
                        ", "@ == seq![',', ' '],
                        text@ == opening + listing(group@, i as nat),
                    decreases group@.len() - i,
                {
                    if i > 0 {
                        text.append(", ");
                    }
                    let name = quoted(group[i].name.as_str());
                    text.append(name.as_str());
                    proof {
                        if i > 0 {
                            assert(text@ =~= opening + (listing(group@, i as nat) + seq![',', ' ']
                                + debug_form(group@[i as int].name@)));
                        } else {
                            assert(text@ =~= opening + debug_form(group@[0].name@));
                        }
                    }
                    i += 1;
                }
                text.append("}");
                proof {
                    assert("}"@ =~= seq!['}']);
                }
                text
            },
        }
    }

    /// Whether two clusters are of the same kind and hold competitors of the
    /// same names in the same order.
    pub fn same_names(&self, other: &CompetitorCluster) -> (same: bool)
        ensures
            same == ((*self is One) == (*other is One) && names_of(self.members()) == names_of(
                other.members(),
            )),
    {
        match self {
            CompetitorCluster::One(a) => match other {
                CompetitorCluster::One(b) => {
                    proof {
                        assert(names_of(self.members())[0] == a.name@);
                        assert(names_of(other.members())[0] == b.name@);
                        if a.name@ == b.name@ {
                            assert(names_of(self.members()) =~= names_of(other.members()));
                        }
                    }
                    a.name == b.name
                },
                CompetitorCluster::Tie(_) => false,
            },
            CompetitorCluster::Tie(a) => match other {
                CompetitorCluster::One(_) => false,
                CompetitorCluster::Tie(b) => {
                    if a.len() != b.len() {
                        proof {
                            assert(names_of(a@).len() != names_of(b@).len());
                        }
                        return false;
                    }
                    let mut i: usize = 0;
                    while i < a.len()
                        invariant
                            self.members() == a@,
                            other.members() == b@,
                            a@.len() == b@.len(),
                            i <= a@.len(),
                            forall|k: int| 0 <= k < i ==> (#[trigger] a@[k]).name@ == b@[k].name@,
                        decreases a@.len() - i,
                    {
                        if a[i].name != b[i].name {
                            proof {
                                assert(names_of(a@)[i as int] != names_of(b@)[i as int]);
                            }
                            return false;
                        }
                        i += 1;
                    }
                    proof {
                        assert(names_of(a@) =~= names_of(b@));
                    }
                    true
                },
            },
        }
    }
}

/// The placings of a sequence of clusters.
pub open spec fn placings(clusters: Seq<CompetitorCluster>) -> Seq<Placing> {
    Seq::new(clusters.len(), |k: int| clusters[k].placing())
}

/// The sheet positions of a sequence of competitor ids.
pub open spec fn ids(group: Seq<CompetitorID>) -> Seq<int> {
    Seq::new(group.len(), |i: int| group[i].0 as int)
}

/// The sheet positions of a sequence of competitor ids with a tally each.
pub open spec fn tallied_ids<T>(group: Seq<(CompetitorID, T)>) -> Seq<int> {
    Seq::new(group.len(), |i: int| group[i].0.0 as int)
}

} // verus!
