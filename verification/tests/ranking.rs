use relative_placement::{CompetitorCluster, CompetitorID, Sheet};

#[derive(Debug, PartialEq)]
enum Cluster {
    One(String),
    Tie(Vec<String>),
}

fn by_name(cluster: &CompetitorCluster) -> Cluster {
    match cluster.as_one() {
        Some(c) => Cluster::One(c.name.clone()),
        None => Cluster::Tie(cluster.competitors().iter().map(|c| c.name.clone()).collect()),
    }
}

fn ranked(text: &str) -> Vec<Cluster> {
    let mut sheet = Sheet::from_str(text).unwrap();
    sheet.rank().iter().map(by_name).collect()
}

fn one(name: &str) -> Cluster {
    Cluster::One(name.to_string())
}

fn tie(names: &[&str]) -> Cluster {
    Cluster::Tie(names.iter().map(|n| n.to_string()).collect())
}

const SHEET3: &str = "name, j1, j2, j3, j4, j5
        Jim Bob, 1, 4, 2, 2, 5
        Freddy Lou, 3, 1, 3, 4, 2
        Mary Sue, 3, 2, 5, 4, 1
        Bobby Joe, 2, 4, 1, 5, 3
        Candy Jane, 5, 2, 4, 1, 4";

#[test]
fn test_sheet1() {
    let s = r"name, j1, j2, j3, j4, j5
        Jim Bob, 1, 4, 2, 2, 5
        Freddy Lou, 3, 1, 3, 4, 2
        Mary Sue, 4, 3, 5, 3, 1
        Bobby Joe, 2, 5, 1, 5, 3
        Candy Jane, 5, 2, 4, 1, 4";

    let mut sheet = Sheet::from_str(s).unwrap();

    assert_eq!(sheet.n_judges(), 5);
    assert_eq!(sheet.n_competitors(), 5);

    let rank = sheet.rank();

    assert_eq!(
        vec!["Jim Bob", "Freddy Lou", "Bobby Joe", "Mary Sue", "Candy Jane"],
        rank.iter().map(|c| c.as_one().unwrap().name.clone()).collect::<Vec<_>>()
    );
}

#[test]
fn test_sheet2() {
    let s = r"name, j1, j2, j3, j4, j5
        Jim Bob, 1, 4, 2, 2, 5
        Freddy Lou, 3, 1, 3, 4, 2
        Mary Sue, 4, 2, 5, 3, 1
        Bobby Joe, 2, 5, 1, 5, 3
        Candy Jane, 5, 2, 4, 1, 4";

    let mut sheet = Sheet::from_str(s).unwrap();

    assert_eq!(sheet.n_judges(), 5);
    assert_eq!(sheet.n_competitors(), 5);

    let rank = sheet.rank();

    assert_eq!(
        vec!["Jim Bob", "Freddy Lou", "Mary Sue", "Bobby Joe", "Candy Jane"],
        rank.iter().map(|c| c.as_one().unwrap().name.clone()).collect::<Vec<_>>()
    );
}

#[test]
fn test_sheet3() {
    let s = r"name, j1, j2, j3, j4, j5
        Jim Bob, 1, 4, 2, 2, 5
        Freddy Lou, 3, 1, 3, 4, 2
        Mary Sue, 3, 2, 5, 4, 1
        Bobby Joe, 2, 4, 1, 5, 3
        Candy Jane, 5, 2, 4, 1, 4";

    let mut sheet = Sheet::from_str(s).unwrap();

    assert_eq!(sheet.n_judges(), 5);
    assert_eq!(sheet.n_competitors(), 5);

    let rank = sheet.rank();

    assert_eq!(
        vec![
            Cluster::One("Jim Bob".into()),
            Cluster::One("Freddy Lou".into()),
            Cluster::Tie(vec!["Mary Sue".into(), "Bobby Joe".into()]),
            Cluster::One("Candy Jane".into())
        ],
        rank.iter().map(by_name).collect::<Vec<_>>()
    );
}

#[test]
fn ranking_covers_every_competitor_once() {
    let mut sheet = Sheet::from_str(SHEET3).unwrap();
    let rank = sheet.rank();
    assert_eq!(rank.len(), 4);
    let mut ids: Vec<usize> =
        rank.iter().flat_map(|c| c.competitors()).map(|c| c.id.0).collect();
    assert_eq!(ids.len(), 5);
    ids.sort();
    assert_eq!(ids, vec![0, 1, 2, 3, 4]);
}

#[test]
fn ranking_twice_gives_the_same_clusters() {
    let mut sheet = Sheet::from_str(SHEET3).unwrap();
    let first: Vec<Cluster> = sheet.rank().iter().map(by_name).collect();
    let second: Vec<Cluster> = sheet.rank().iter().map(by_name).collect();
    assert_eq!(first, second);
    assert_eq!(second[2], tie(&["Mary Sue", "Bobby Joe"]));
}

#[test]
fn ranking_marks_every_competitor() {
    let mut sheet = Sheet::from_str(SHEET3).unwrap();
    assert!(sheet.competitors().iter().all(|c| !c.marked));
    sheet.rank();
    assert!(sheet.competitors().iter().all(|c| c.marked));
    assert!(sheet.rank().iter().flat_map(|c| c.competitors()).all(|c| c.marked));
}

#[test]
fn sole_majority_comes_first() {
    // At level 1 only B has two of three judges.
    let rank = ranked("name,a,b,c\nA,2,2,1\nB,1,1,3\nC,3,3,2\nD,4,4,4");
    assert_eq!(rank, vec![one("B"), one("A"), one("C"), tie(&["D"])]);
}

#[test]
fn biggest_majority_breaks_a_tie_of_candidates() {
    // At level 2 A has three judges and B has two; both have a majority.
    let rank = ranked("name,a,b,c\nA,2,2,2\nB,2,2,3\nC,3,3,3");
    assert_eq!(rank[0], one("A"));
    assert_eq!(rank[1], one("B"));
}

#[test]
fn smallest_sum_breaks_a_tie_of_counts() {
    // At level 2 both have all three judges; A sums to 4, B to 5.
    let rank = ranked("name,a,b,c\nB,2,2,1\nA,1,1,2\nC,3,3,3");
    assert_eq!(rank, vec![one("A"), one("B"), tie(&["C"])]);
}

#[test]
fn deeper_level_separates_a_tied_group() {
    // A and B tie at level 2 on count 2 and sum 3; at level 3 A has three judges.
    let rank = ranked("name,a,b,c\nA,1,2,3\nB,2,1,4\nC,3,3,1\nD,4,4,2");
    assert_eq!(rank, vec![one("A"), one("B"), one("C"), tie(&["D"])]);
}

#[test]
fn equal_competitors_share_a_tie() {
    let rank = ranked("name,a,b,c\nA,1,1,1\nB,1,1,1");
    assert_eq!(rank, vec![tie(&["A", "B"])]);
}

#[test]
fn subset_is_exhausted_when_the_level_reaches_its_size() {
    // With three competitors level 3 is never tallied: who is left then is
    // declared tied, although C has every judge at level 3.
    let rank = ranked("name,a,b,c\nA,1,1,1\nB,2,2,2\nC,3,3,3");
    assert_eq!(rank, vec![one("A"), one("B"), tie(&["C"])]);
}

#[test]
fn single_competitor_is_a_tie_of_one() {
    let mut sheet = Sheet::from_str("name,a,b,c\nA,1,1,1").unwrap();
    let rank = sheet.rank();
    assert_eq!(rank.len(), 1);
    assert!(rank[0].as_one().is_none());
    assert_eq!(by_name(&rank[0]), tie(&["A"]));
}

#[test]
fn no_judges_ties_everyone() {
    let rank = ranked("name\nA\nB\nC");
    assert_eq!(rank, vec![tie(&["A", "B", "C"])]);
}

#[test]
fn empty_sheet_has_empty_ranking() {
    let mut sheet = Sheet::new();
    assert_eq!(sheet.n_judges(), 0);
    assert_eq!(sheet.n_competitors(), 0);
    assert!(sheet.rank().is_empty());
    let mut read = Sheet::from_str("").unwrap();
    assert_eq!(read.n_judges(), 0);
    assert_eq!(read.n_competitors(), 0);
    assert!(read.rank().is_empty());
}

#[test]
fn tie_beyond_the_worst_placement_stays_a_tie() {
    // A and B stay tied at every level; the others resolve after them.
    let rank = ranked("name,a,b\nA,1,2\nB,2,1\nC,3,3\nD,4,4\nE,5,5\nF,6,6");
    assert_eq!(rank, vec![tie(&["A", "B"]), one("C"), one("D"), one("E"), tie(&["F"])]);
}

#[test]
fn tallies_count_and_sum_under_a_level() {
    let sheet = Sheet::from_str(SHEET3).unwrap();
    let all: Vec<CompetitorID> = (0..5).map(CompetitorID).collect();
    let counts = sheet.n_placements_under(&all, 3);
    assert_eq!(counts.iter().map(|t| t.1).collect::<Vec<_>>(), vec![3, 4, 3, 3, 2]);
    assert_eq!(counts.iter().map(|t| t.0).collect::<Vec<_>>(), all);
    let sums = sheet.sum_placements_under(&[CompetitorID(2), CompetitorID(3)], 3);
    assert_eq!(sums, vec![(CompetitorID(2), 6), (CompetitorID(3), 6)]);
    let sums = sheet.sum_placements_under(&[CompetitorID(4)], 5);
    assert_eq!(sums, vec![(CompetitorID(4), 16)]);
    assert_eq!(sheet.n_placements_under(&[CompetitorID(0)], 0), vec![(CompetitorID(0), 0)]);
    assert_eq!(sheet.worst_placement(), 5);
}

#[test]
fn tallies_ignore_who_is_ranked() {
    let mut sheet = Sheet::from_str(SHEET3).unwrap();
    let all: Vec<CompetitorID> = (0..5).map(CompetitorID).collect();
    let before = sheet.n_placements_under(&all, 2);
    sheet.rank();
    assert_eq!(sheet.n_placements_under(&all, 2), before);
}

#[test]
fn clusters_render_by_quoted_names() {
    let mut sheet = Sheet::from_str(SHEET3).unwrap();
    let shown: Vec<String> = sheet.rank().iter().map(|c| c.render()).collect();
    assert_eq!(
        shown,
        vec!["\"Jim Bob\"", "\"Freddy Lou\"", "{\"Mary Sue\", \"Bobby Joe\"}", "\"Candy Jane\""]
    );
}

#[test]
fn rendering_escapes_as_debug_does() {
    let mut sheet = Sheet::new();
    sheet.add_judge("j".to_string());
    sheet.add_competitor("a\"b\\c\n".to_string(), &[1]);
    sheet.add_competitor("plain".to_string(), &[2]);
    let rank = sheet.rank();
    assert_eq!(rank[0].render(), "\"a\\\"b\\\\c\\n\"");
    assert_eq!(rank[0].render(), format!("{:?}", "a\"b\\c\n"));
    assert_eq!(rank[1].render(), "{\"plain\"}");
}

#[test]
fn tie_of_three_lists_all_names() {
    let mut sheet = Sheet::from_str("name\nA\nB\nC").unwrap();
    assert_eq!(sheet.rank()[0].render(), "{\"A\", \"B\", \"C\"}");
}

#[test]
fn clusters_compare_by_kind_and_names() {
    let mut first = Sheet::from_str(SHEET3).unwrap();
    let mut second = Sheet::from_str(SHEET3).unwrap();
    let a = first.rank();
    let b = second.rank();
    for (x, y) in a.iter().zip(b.iter()) {
        assert!(x.same_names(y));
    }
    assert!(!a[0].same_names(&a[1]));
    assert!(!a[2].same_names(&a[0]));
    assert!(!a[0].same_names(&a[2]));
    let mut lone = Sheet::from_str("name,a\nJim Bob,1").unwrap();
    let tie_of_one = &lone.rank()[0];
    assert!(tie_of_one.as_one().is_none());
    assert!(!tie_of_one.same_names(&a[0]));
    let mut swapped = Sheet::from_str("name\nBobby Joe\nMary Sue").unwrap();
    assert!(!swapped.rank()[0].same_names(&a[2]));
    let mut longer = Sheet::from_str("name\nMary Sue\nBobby Joe\nCy").unwrap();
    assert!(!longer.rank()[0].same_names(&a[2]));
    let mut same = Sheet::from_str("name\nMary Sue\nBobby Joe").unwrap();
    assert!(same.rank()[0].same_names(&a[2]));
}

#[test]
fn competitors_of_a_cluster_come_in_order() {
    let mut sheet = Sheet::from_str(SHEET3).unwrap();
    let rank = sheet.rank();
    let names: Vec<&str> = rank[2].competitors().iter().map(|c| c.name.as_str()).collect();
    assert_eq!(names, vec!["Mary Sue", "Bobby Joe"]);
    let ids: Vec<usize> = rank[2].competitors().iter().map(|c| c.id.0).collect();
    assert_eq!(ids, vec![2, 3]);
    let alone: Vec<&str> = rank[0].competitors().iter().map(|c| c.name.as_str()).collect();
    assert_eq!(alone, vec!["Jim Bob"]);
    assert_eq!(rank[0].as_one().unwrap().id.0, 0);
}

#[test]
fn majority_of_four_judges_is_three() {
    // At level 1 A has two judges of four, which is no majority; at level 2
    // B has all four. A and C are left when the level reaches three.
    let rank = ranked("name,a,b,c,d\nA,1,1,3,3\nB,2,2,1,2\nC,3,3,2,1");
    assert_eq!(rank, vec![one("B"), tie(&["A", "C"])]);
}

#[test]
fn majority_of_one_judge_is_that_judge() {
    let rank = ranked("name,a\nA,2\nB,1\nC,3");
    assert_eq!(rank, vec![one("B"), one("A"), tie(&["C"])]);
}
