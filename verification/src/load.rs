//! Score sheets from comma-separated text.
//!
//! The first line names the columns: a column for the competitors' names,
//! then one column per judge. Each further line is a competitor: the name,
//! then the placement that each judge gave. White space around a name or a
//! placement does not count.

use vstd::prelude::*;
use vstd::string::StringSliceAdditionalSpecFns;
use crate::sheet::Sheet;
use crate::text::{parse_placement, placement, trim, trimmed};

verus! {

/// The reader of the csv crate.
#[verifier::external_type_specification]
#[verifier::external_body]
#[verifier::reject_recursive_types(R)]
pub struct ExReader<R>(csv::Reader<R>);

/// The error of the csv crate.
#[verifier::external_type_specification]
#[verifier::external_body]
pub struct ExError(csv::Error);

/// The header and the rows that the csv crate, with its default settings,
/// reads from `data`: the fields of each as text, or nothing where it
/// reports an error.
pub uninterp spec fn csv_table(data: Seq<u8>) -> (Option<Seq<Seq<char>>>, Seq<Option<Seq<Seq<char>>>>);

/// What a reader over bytes in memory holds: its header, and the rows that
/// it has not handed out yet.
pub uninterp spec fn held(reader: csv::Reader<&[u8]>) -> (Option<Seq<Seq<char>>>, Seq<Option<Seq<Seq<char>>>>);

/// The texts of a sequence of strings.
pub open spec fn texts(fields: Seq<String>) -> Seq<Seq<char>> {
    Seq::new(fields.len(), |i: int| fields[i]@)
}

/// `csv::Reader::from_reader` on bytes in memory: a reader with the default
/// settings, which holds the header and the rows of `data`.
#[verifier::external_body]
fn open_reader(data: &[u8]) -> (reader: csv::Reader<&[u8]>)
    ensures
        held(reader) == csv_table(data@),
{
    csv::Reader::from_reader(data)
}

/// `csv::Reader::headers`: the fields of the header, or the error that the
/// reader reports for it. The reader holds afterwards what it held before.
#[verifier::external_body]
fn read_header(reader: &mut csv::Reader<&[u8]>) -> (header: Result<Vec<String>, csv::Error>)
    ensures
        held(*final(reader)) == held(*old(reader)),
        match header {
            Ok(fields) => held(*old(reader)).0 == Some(texts(fields@)),
            Err(_) => held(*old(reader)).0 is None,
        },
{
    reader.headers().map(|record| record.iter().map(String::from).collect())
}

/// `csv::Reader::records` and one step of its iterator: nothing when no row
/// is left, else the fields of the next row, or the error that the reader
/// reports for it; that row is then handed out, and the header stays.
#[verifier::external_body]
fn next_row(reader: &mut csv::Reader<&[u8]>) -> (row: Option<Result<Vec<String>, csv::Error>>)
    ensures
        held(*final(reader)).0 == held(*old(reader)).0,
        match row {
            None => held(*old(reader)).1.len() == 0 && held(*final(reader)).1.len() == 0,
            Some(line) => {
                &&& held(*old(reader)).1.len() > 0
                &&& held(*final(reader)).1 == held(*old(reader)).1.skip(1)
                &&& match line {
                    Ok(fields) => held(*old(reader)).1[0] == Some(texts(fields@)),
                    Err(_) => held(*old(reader)).1[0] is None,
                }
            },
        },
{
    reader.records().next().map(|line| line.map(|record| record.iter().map(String::from).collect()))
}

/// Why a text is no score sheet.
#[derive(Debug)]
pub enum LoadError {
    /// The csv crate reports an error for the header or for a row.
    Csv(csv::Error),
    /// Row `row` has `found` fields, and not one for the name and one for
    /// each judge, which makes `expected`.
    FieldCount { row: usize, expected: usize, found: usize },
    /// In row `row` the field for judge `judge` is no placement.
    Score { row: usize, judge: usize },
}

/// What is wrong with a text, without the csv crate's own error value.
pub enum Fault {
    Csv,
    FieldCount { row: nat, expected: nat, found: nat },
    Score { row: nat, judge: nat },
}

impl LoadError {
    /// The fault that this error reports.
    pub open spec fn fault(&self) -> Fault {
        match self {
            LoadError::Csv(_) => Fault::Csv,
            LoadError::FieldCount { row, expected, found } => Fault::FieldCount {
                row: *row as nat,
                expected: *expected as nat,
                found: *found as nat,
            },
            LoadError::Score { row, judge } => Fault::Score {
                row: *row as nat,
                judge: *judge as nat,
            },
        }
    }
}

/// The number of judges that a header names: every column but the first.
pub open spec fn judges_in(header: Seq<Seq<char>>) -> nat {
    if header.len() == 0 {
        0
    } else {
        (header.len() - 1) as nat
    }
}

/// The first judge, from `from` on, whose field in `row` is no placement.
pub open spec fn first_bad_score(row: Seq<Seq<char>>, from: nat) -> Option<nat>
    decreases row.len() - from,
{
    if from + 1 >= row.len() {
        None
    } else if placement(trimmed(row[from as int + 1])) is None {
        Some(from)
    } else {
        first_bad_score(row, from + 1)
    }
}

/// What is wrong with line `r` of a sheet with `judges` judges, if anything.
pub open spec fn row_fault(judges: nat, r: nat, line: Option<Seq<Seq<char>>>) -> Option<Fault> {
    match line {
        None => Some(Fault::Csv),
        Some(row) => if row.len() != judges + 1 {
            Some(Fault::FieldCount { row: r, expected: judges + 1, found: row.len() })
        } else {
            match first_bad_score(row, 0) {
                Some(judge) => Some(Fault::Score { row: r, judge }),
                None => None,
            }
        },
    }
}

/// The fault of the first faulty line among the first `upto`, if any.
pub open spec fn first_fault(judges: nat, lines: Seq<Option<Seq<Seq<char>>>>, upto: nat) -> Option<
    Fault,
>
    decreases upto,
{
    if upto == 0 {
        None
    } else {
        match first_fault(judges, lines, (upto - 1) as nat) {
            Some(fault) => Some(fault),
            None => row_fault(judges, (upto - 1) as nat, lines[upto - 1]),
        }
    }
}

/// `sheet` is the unranked sheet of `header` and of the first `count` of
/// `lines`: its judges are named by the header's columns after the first,
/// its competitors by the first field of each line, and judge `j` gave
/// competitor `r` the placement in field `j + 1` of line `r`.
pub open spec fn describes(
    sheet: Sheet,
    header: Seq<Seq<char>>,
    lines: Seq<Option<Seq<Seq<char>>>>,
    count: nat,
) -> bool {
    &&& sheet.wf()
    &&& sheet.cached() is None
    &&& sheet.judge_list().len() == judges_in(header)
    &&& forall|j: int|
        0 <= j < judges_in(header) ==> {
            &&& (#[trigger] sheet.judge_list()[j]).id.0 == j
            &&& sheet.judge_list()[j].name@ == trimmed(header[j + 1])
        }
    &&& sheet.competitor_list().len() == count
    &&& forall|r: int|
        0 <= r < count ==> {
            &&& (#[trigger] sheet.competitor_list()[r]).id.0 == r
            &&& !sheet.competitor_list()[r].marked
            &&& sheet.competitor_list()[r].name@ == trimmed(lines[r]->0[0])
        }
    &&& sheet.scores().len() == judges_in(header)
    &&& forall|j: int|
        0 <= j < judges_in(header) ==> (#[trigger] sheet.scores()[j]).len() == count
    &&& forall|j: int, r: int|
        0 <= j < judges_in(header) && 0 <= r < count ==> Some(#[trigger] sheet.scores()[j][r])
            == placement(trimmed(lines[r]->0[j + 1]))
}

/// `loaded` is what loading a header and lines gives: the sheet that they
/// describe when the reader found a header and no line is faulty, else the
/// error of the header or of the first faulty line.
pub open spec fn is_load_of(
    loaded: Result<Sheet, LoadError>,
    header: Option<Seq<Seq<char>>>,
    lines: Seq<Option<Seq<Seq<char>>>>,
) -> bool {
    match header {
        None => loaded matches Err(error) && error.fault() == Fault::Csv,
        Some(head) => match loaded {
            Ok(sheet) => {
                &&& first_fault(judges_in(head), lines, lines.len()) is None
                &&& describes(sheet, head, lines, lines.len())
            },
            Err(error) => first_fault(judges_in(head), lines, lines.len()) == Some(error.fault()),
        },
    }
}

/// The lines that rows of fields make: none of them faulty for the reader.
pub open spec fn lines_of(rows: Seq<Vec<String>>) -> Seq<Option<Seq<Seq<char>>>> {
    Seq::new(rows.len(), |r: int| Some(texts(rows[r]@)))
}

/// The sheet with the judges that `header` names and no competitor.
fn sheet_with_judges(header: &[String]) -> (sheet: Sheet)
    ensures
        describes(sheet, texts(header@), Seq::empty(), 0),
{
    let mut sheet = Sheet::new();
    let mut j: usize = 1;
    while j < header.len()
        invariant
            1 <= j,
            header@.len() > 0 ==> j <= header@.len(),
            header@.len() == 0 ==> j == 1,
            sheet.wf(),
            sheet.cached() is None,
            sheet.competitor_list().len() == 0,
            sheet.judge_list().len() == j - 1,
            sheet.scores().len() == j - 1,
            forall|k: int| 0 <= k < j - 1 ==> (#[trigger] sheet.scores()[k]).len() == 0,
            forall|k: int|
                0 <= k < j - 1 ==> {
                    &&& (#[trigger] sheet.judge_list()[k]).id.0 == k
                    &&& sheet.judge_list()[k].name@ == trimmed(header@[k + 1]@)
                },
        decreases header@.len() - j,
    {
        let name = trim(header[j].as_str()).to_owned();
        sheet.add_judge(name);
        j += 1;
    }
    proof {
        let head = texts(header@);
        assert(head.len() == header@.len());
        assert forall|k: int| 0 <= k < judges_in(head) implies sheet.judge_list()[k].name@
            == trimmed(head[k + 1]) by {
            assert(head[k + 1] == header@[k + 1]@);
        }
    }
    sheet
}

/// The placements that `row` writes after its first field, or the first
/// judge whose field writes none.
fn placements_of(row: &Vec<String>) -> (read: Result<Vec<u32>, usize>)
    requires
        row@.len() > 0,
    ensures
        match read {
            Ok(placements) => {
                &&& first_bad_score(texts(row@), 0) is None
                &&& placements@.len() == row@.len() - 1
                &&& forall|j: int|
                    0 <= j < placements@.len() ==> Some(#[trigger] placements@[j]) == placement(
                        trimmed(row@[j + 1]@),
                    )
            },
            Err(judge) => first_bad_score(texts(row@), 0) == Some(judge as nat),
        },
{
    let mut placements: Vec<u32> = Vec::new();
    let mut i: usize = 1;
    while i < row.len()
        invariant
            1 <= i <= row@.len(),
            placements@.len() == i - 1,
            first_bad_score(texts(row@), 0) == first_bad_score(texts(row@), (i - 1) as nat),
            forall|k: int|
                0 <= k < i - 1 ==> Some(#[trigger] placements@[k]) == placement(
                    trimmed(row@[k + 1]@),
                ),
        decreases row@.len() - i,
    {
        proof {
            assert(texts(row@)[i as int] == row@[i as int]@);
        }
        match parse_placement(trim(row[i].as_str())) {
            Some(score) => {
                placements.push(score);
            },
            None => {
                return Err(i - 1);
            },
        }
        i += 1;
    }
    Ok(placements)
}

impl Sheet {
    /// Adds the competitor that `row` writes: the name in its first field,
    /// then a placement for each judge. A faulty row leaves the sheet as it is.
    pub fn add_row(&mut self, row: &Vec<String>) -> (added: Result<(), LoadError>)
        requires
            old(self).wf(),
            old(self).cached() is None,
        ensures
            final(self).wf(),
            final(self).cached() is None,
            match added {
                Ok(()) => {
                    &&& row_fault(
                        old(self).judge_list().len(),
                        old(self).competitor_list().len(),
                        Some(texts(row@)),
                    ) is None
                    &&& final(self).judge_list() == old(self).judge_list()
                    &&& final(self).competitor_list().len() == old(self).competitor_list().len()
                        + 1
                    &&& forall|r: int|
                        0 <= r < old(self).competitor_list().len()
                            ==> #[trigger] final(self).competitor_list()[r] == old(
                            self,
                        ).competitor_list()[r]
                    &&& ({
                        let last = final(self).competitor_list().last();
                        &&& last.id.0 == old(self).competitor_list().len()
                        &&& !last.marked
                        &&& last.name@ == trimmed(row@[0]@)
                    })
                    &&& final(self).scores().len() == old(self).scores().len()
                    &&& forall|j: int|
                        0 <= j < old(self).scores().len() ==> {
                            &&& Some((#[trigger] final(self).scores()[j]).last()) == placement(
                                trimmed(row@[j + 1]@),
                            )
                            &&& final(self).scores()[j].drop_last() == old(self).scores()[j]
                        }
                },
                Err(error) => {
                    &&& row_fault(
                        old(self).judge_list().len(),
                        old(self).competitor_list().len(),
                        Some(texts(row@)),
                    ) == Some(error.fault())
                    &&& *final(self) == *old(self)
                },
            },
    {
        proof {
            self.lemma_shape();
        }
        let width = self.n_judges() + 1;
        if row.len() != width {
            return Err(
                LoadError::FieldCount {
                    row: self.n_competitors(),
                    expected: width,
                    found: row.len(),
                },
            );
        }
        let name = trim(row[0].as_str()).to_owned();
        match placements_of(row) {
            Ok(placements) => {
                self.add_competitor(name, placements.as_slice());
                proof {
                    assert forall|j: int| 0 <= j < old(self).scores().len() implies {
                        &&& Some((#[trigger] self.scores()[j]).last()) == placement(
                            trimmed(row@[j + 1]@),
                        )
                        &&& self.scores()[j].drop_last() == old(self).scores()[j]
                    } by {
                        assert(self.scores()[j] == old(self).scores()[j].push(placements@[j]));
                        assert(old(self).scores()[j].push(placements@[j]).drop_last() =~= old(
                            self,
                        ).scores()[j]);
                    }
                }
                Ok(())
            },
            Err(judge) => Err(LoadError::Score { row: self.n_competitors(), judge }),
        }
    }

    /// The sheet that a header and rows of fields write, or what is wrong
    /// with the first faulty row.
    pub fn from_records(header: &[String], rows: &[Vec<String>]) -> (loaded: Result<
        Sheet,
        LoadError,
    >)
        ensures
            is_load_of(loaded, Some(texts(header@)), lines_of(rows@)),
    {
        let mut sheet = sheet_with_judges(header);
        let ghost lines = lines_of(rows@);
        let ghost head = texts(header@);
        proof {
            assert(lines.len() == rows@.len());
        }
        let mut r: usize = 0;
        while r < rows.len()
            invariant
                r <= rows@.len(),
                lines == lines_of(rows@),
                head == texts(header@),
                describes(sheet, head, lines, r as nat),
                first_fault(judges_in(head), lines, r as nat) is None,
            decreases rows@.len() - r,
        {
            let ghost before = sheet;
            match sheet.add_row(&rows[r]) {
                Ok(()) => {
                    proof {
                        lemma_row_added(before, sheet, head, lines, r as nat);
                    }
                },
                Err(error) => {
                    proof {
                        lemma_fault_stays(judges_in(head), lines, (r + 1) as nat, rows@.len() as nat);
                    }
                    return Err(error);
                },
            }
            r += 1;
        }
        Ok(sheet)
    }

    /// The sheet that comma-separated bytes write, as the csv crate reads
    /// them, or what is wrong with the header or with the first faulty row.
    pub fn from_bytes(data: &[u8]) -> (loaded: Result<Sheet, LoadError>)
        ensures
            is_load_of(loaded, csv_table(data@).0, csv_table(data@).1),
    {
        let mut reader = open_reader(data);
        let ghost lines = csv_table(data@).1;
        let header = match read_header(&mut reader) {
            Ok(fields) => fields,
            Err(error) => {
                return Err(LoadError::Csv(error));
            },
        };
        let ghost head = texts(header@);
        let mut sheet = sheet_with_judges(header.as_slice());
        proof {
            assert(lines.skip(0) =~= lines);
        }
        loop
            invariant
                csv_table(data@) == (Some(head), lines),
                sheet.competitor_list().len() <= lines.len(),
                held(reader).1 == lines.skip(sheet.competitor_list().len() as int),
                describes(sheet, head, lines, sheet.competitor_list().len()),
                first_fault(judges_in(head), lines, sheet.competitor_list().len()) is None,
            decreases held(reader).1.len(),
        {
            let ghost before = sheet;
            let ghost count = sheet.competitor_list().len();
            match next_row(&mut reader) {
                None => {
                    return Ok(sheet);
                },
                Some(Err(error)) => {
                    proof {
                        assert(lines.skip(count as int)[0] == lines[count as int]);
                        lemma_fault_stays(judges_in(head), lines, count + 1, lines.len());
                    }
                    return Err(LoadError::Csv(error));
                },
                Some(Ok(fields)) => {
                    proof {
                        assert(lines.skip(count as int)[0] == lines[count as int]);
                        assert(lines.skip(count as int).skip(1) =~= lines.skip(count as int + 1));
                    }
                    match sheet.add_row(&fields) {
                        Ok(()) => {
                            proof {
                                lemma_row_added(before, sheet, head, lines, count);
                            }
                        },
                        Err(error) => {
                            proof {
                                lemma_fault_stays(judges_in(head), lines, count + 1, lines.len());
                            }
                            return Err(error);
                        },
                    }
                },
            }
        }
    }

    /// The sheet that comma-separated text writes.
    pub fn from_str(s: &str) -> (loaded: Result<Sheet, LoadError>)
        ensures
            is_load_of(loaded, csv_table(s.spec_bytes()).0, csv_table(s.spec_bytes()).1),
    {
        Self::from_bytes(s.as_bytes())
    }
}

/// A sheet that describes `count` lines and takes line `count` as a row
/// describes one line more.
proof fn lemma_row_added(
    before: Sheet,
    after: Sheet,
    header: Seq<Seq<char>>,
    lines: Seq<Option<Seq<Seq<char>>>>,
    count: nat,
)
    requires
        count < lines.len(),
        lines[count as int] is Some,
        describes(before, header, lines, count),
        after.wf(),
        after.cached() is None,
        row_fault(judges_in(header), count, lines[count as int]) is None,
        after.judge_list() == before.judge_list(),
        after.competitor_list().len() == count + 1,
        forall|r: int|
            0 <= r < count ==> #[trigger] after.competitor_list()[r] == before.competitor_list()[r],
        after.competitor_list().last().id.0 == count,
        !after.competitor_list().last().marked,
        after.competitor_list().last().name@ == trimmed(lines[count as int]->0[0]),
        after.scores().len() == before.scores().len(),
        forall|j: int|
            0 <= j < before.scores().len() ==> {
                &&& Some((#[trigger] after.scores()[j]).last()) == placement(
                    trimmed(lines[count as int]->0[j + 1]),
                )
                &&& after.scores()[j].drop_last() == before.scores()[j]
            },
    ensures
        describes(after, header, lines, count + 1),
{
    assert forall|j: int| 0 <= j < judges_in(header) implies (#[trigger] after.scores()[j]).len()
        == count + 1 by {
        assert(after.scores()[j].drop_last() == before.scores()[j]);
        assert(before.scores()[j].len() == count);
        assert(Some(after.scores()[j].last()) == placement(
            trimmed(lines[count as int]->0[j + 1]),
        ));
        lemma_wf_rows(after, j);
    }
    assert forall|j: int, r: int|
        0 <= j < judges_in(header) && 0 <= r < count + 1 implies Some(
        #[trigger] after.scores()[j][r],
    ) == placement(trimmed(lines[r]->0[j + 1])) by {
        assert(after.scores()[j].len() == count + 1);
        assert(after.scores()[j].drop_last() == before.scores()[j]);
        if r < count {
            assert(after.scores()[j].drop_last()[r] == after.scores()[j][r]);
            assert(Some(before.scores()[j][r]) == placement(trimmed(lines[r]->0[j + 1])));
        } else {
            assert(after.scores()[j][r] == after.scores()[j].last());
        }
    }
}

/// In a well-formed sheet every judge has a placement for every competitor.
proof fn lemma_wf_rows(sheet: Sheet, j: int)
    requires
        sheet.wf(),
        0 <= j < sheet.scores().len(),
    ensures
        sheet.scores()[j].len() == sheet.competitor_list().len(),
{
    sheet.lemma_shape();
}

/// Once a line is faulty, the first fault is the same however many more
/// lines are looked at.
proof fn lemma_fault_stays(judges: nat, lines: Seq<Option<Seq<Seq<char>>>>, upto: nat, more: nat)
    requires
        upto <= more,
        first_fault(judges, lines, upto) is Some,
    ensures
        first_fault(judges, lines, more) == first_fault(judges, lines, upto),
    decreases more,
{
    if upto < more {
        lemma_fault_stays(judges, lines, upto, (more - 1) as nat);
    }
}

} // verus!
