//! The parsers that turn the text of a fetched file into named series.
//!
//! Each parser reads its text line by line and stops at the first line that
//! lacks a column it needs or holds a malformed number there.

use crate::number::{all_numeric, accepts_float, is_float_literal, is_numeric_word};
use crate::series::{
    datasets_view, lemma_points_view_push, points_view, string_of, DataSet, DataSetView, Number,
    NumberView, Point, PointView,
};
use crate::text::{
    chars_of, has_prefix, lines, slices_view, split_lines, split_words, starts_with, words,
};
use vstd::prelude::*;

verus! {

/// What is wrong with a column of a line.
#[derive(Clone, Copy, Debug, PartialEq, Eq, Structural)]
pub enum Fault {
    /// The line has too few words.
    Missing,
    /// The word is no literal of a floating-point number.
    Malformed,
}

/// The first place at which a text does not follow its format. Lines and
/// columns count from zero.
#[derive(Clone, Copy, Debug, PartialEq, Eq, Structural)]
pub struct ParseError {
    pub line: usize,
    pub column: usize,
    pub fault: Fault,
}

/// The number in column `column` of a line with the given words, or the
/// error that the column gives rise to.
pub open spec fn field(words: Seq<Seq<char>>, column: int, line: int) -> Result<
    NumberView,
    ParseError,
> {
    if column < 0 || column >= words.len() {
        Err(ParseError { line: line as usize, column: column as usize, fault: Fault::Missing })
    } else if !is_float_literal(words[column]) {
        Err(ParseError { line: line as usize, column: column as usize, fault: Fault::Malformed })
    } else {
        Ok(NumberView::Literal(words[column]))
    }
}

/// What the result of reading one number stands for.
pub open spec fn number_result_view(r: Result<Number, ParseError>) -> Result<
    NumberView,
    ParseError,
> {
    match r {
        Ok(n) => Ok(n@),
        Err(e) => Err(e),
    }
}

/// What the result of a parser that gives one series stands for.
pub open spec fn dataset_result_view(r: Result<DataSet, ParseError>) -> Result<
    DataSetView,
    ParseError,
> {
    match r {
        Ok(set) => Ok(set@),
        Err(e) => Err(e),
    }
}

/// What the result of a parser that gives several series stands for.
pub open spec fn datasets_result_view(r: Result<Vec<DataSet>, ParseError>) -> Result<
    Seq<DataSetView>,
    ParseError,
> {
    match r {
        Ok(sets) => Ok(datasets_view(sets@)),
        Err(e) => Err(e),
    }
}

/// Reads the number in column `column` of line number `line`.
pub fn read_field(words: &Vec<&[char]>, column: usize, line: usize) -> (r: Result<
    Number,
    ParseError,
>)
    ensures
        number_result_view(r) == field(slices_view(words@), column as int, line as int),
{
    if column >= words.len() {
        return Err(ParseError { line, column, fault: Fault::Missing });
    }
    let word = words[column];
    assert(word@ == slices_view(words@)[column as int]);
    if !accepts_float(word) {
        return Err(ParseError { line, column, fault: Fault::Malformed });
    }
    Ok(Number::Literal(string_of(word)))
}

// ---------------------------------------------------------------------------
// Error-per-iteration log: one point per line, first and last column.
// ---------------------------------------------------------------------------

/// The point that one line of an error log gives: its first column against
/// its last.
pub open spec fn freqs_point(line: Seq<char>, line_no: int) -> Result<PointView, ParseError> {
    let w = words(line);
    match field(w, 0, line_no) {
        Err(e) => Err(e),
        Ok(x) => match field(w, w.len() - 1, line_no) {
            Err(e) => Err(e),
            Ok(y) => Ok(PointView { x, y }),
        },
    }
}

/// The points of the first `n` lines of an error log, or the error of the
/// first line that gives none.
pub open spec fn freqs_points(ls: Seq<Seq<char>>, n: int) -> Result<Seq<PointView>, ParseError>
    decreases n,
{
    if n <= 0 {
        Ok(Seq::empty())
    } else {
        match freqs_points(ls, n - 1) {
            Err(e) => Err(e),
            Ok(points) => match freqs_point(ls[n - 1], n - 1) {
                Err(e) => Err(e),
                Ok(p) => Ok(points.push(p)),
            },
        }
    }
}

/// The series `MAE` that an error log stands for.
pub open spec fn freqs_series(text: Seq<char>) -> Result<DataSetView, ParseError> {
    match freqs_points(lines(text), lines(text).len() as int) {
        Err(e) => Err(e),
        Ok(points) => Ok(DataSetView { name: "MAE"@, data: points }),
    }
}

/// An error among the first `n` lines is the error of any longer run.
pub proof fn lemma_freqs_error_persists(ls: Seq<Seq<char>>, n: int, m: int)
    requires
        n <= m,
        freqs_points(ls, n) is Err,
    ensures
        freqs_points(ls, m) == freqs_points(ls, n),
    decreases m - n,
{
    if n < m {
        lemma_freqs_error_persists(ls, n, m - 1);
    }
}

/// Parses an error log: every line gives the point of its first and last
/// column.
pub fn parse_freqs(contents: &str) -> (r: Result<DataSet, ParseError>)
    ensures
        dataset_result_view(r) == freqs_series(contents@),
        r is Ok ==> r->Ok_0@.wf() && r->Ok_0.data@.len() == lines(contents@).len(),
{
    let text = chars_of(contents);
    let ls = split_lines(text.as_slice());
    let mut data: Vec<Point> = Vec::new();
    let mut i: usize = 0;
    assert(points_view(data@) =~= Seq::empty());
    while i < ls.len()
        invariant
            i <= ls@.len(),
            text@ == contents@,
            slices_view(ls@) == lines(text@),
            freqs_points(lines(text@), i as int) == Ok::<Seq<PointView>, ParseError>(
                points_view(data@),
            ),
        decreases ls@.len() - i,
    {
        let line = ls[i];
        assert(line@ == lines(text@)[i as int]);
        let w = split_words(line);
        let x = match read_field(&w, 0, i) {
            Ok(x) => x,
            Err(e) => {
                proof {
                    assert(freqs_points(lines(text@), i + 1) == Err::<
                        Seq<PointView>,
                        ParseError,
                    >(e));
                    lemma_freqs_error_persists(lines(text@), i + 1, ls@.len() as int);
                }
                return Err(e);
            },
        };
        let y = match read_field(&w, w.len() - 1, i) {
            Ok(y) => y,
            Err(e) => {
                proof {
                    assert(freqs_points(lines(text@), i + 1) == Err::<
                        Seq<PointView>,
                        ParseError,
                    >(e));
                    lemma_freqs_error_persists(lines(text@), i + 1, ls@.len() as int);
                }
                return Err(e);
            },
        };
        let p = Point { x, y };
        proof {
            lemma_points_view_push(data@, p);
        }
        data.push(p);
        i += 1;
    }
    proof {
        lemma_freqs_shape(contents@);
    }
    Ok(DataSet { name: "MAE".to_owned(), data })
}

// ---------------------------------------------------------------------------
// Optimiser output: three series, one point each per qualifying line.
// ---------------------------------------------------------------------------

/// The three numbers that one qualifying line of optimiser output holds.
pub struct SempRow {
    pub norm: NumberView,
    pub rmsd: NumberView,
    pub max: NumberView,
}

/// A line qualifies when its first word consists of numeric characters only.
pub open spec fn semp_qualifies(line: Seq<char>) -> bool {
    words(line).len() > 0 && all_numeric(words(line)[0])
}

/// The numbers of a qualifying line: its second, fourth and sixth word.
pub open spec fn semp_row(line: Seq<char>, line_no: int) -> Result<SempRow, ParseError> {
    let w = words(line);
    match field(w, 1, line_no) {
        Err(e) => Err(e),
        Ok(norm) => match field(w, 3, line_no) {
            Err(e) => Err(e),
            Ok(rmsd) => match field(w, 5, line_no) {
                Err(e) => Err(e),
                Ok(max) => Ok(SempRow { norm, rmsd, max }),
            },
        },
    }
}

/// The rows of the qualifying lines among the first `n` lines, or the error
/// of the first qualifying line that gives none.
pub open spec fn semp_rows(ls: Seq<Seq<char>>, n: int) -> Result<Seq<SempRow>, ParseError>
    decreases n,
{
    if n <= 0 {
        Ok(Seq::empty())
    } else {
        match semp_rows(ls, n - 1) {
            Err(e) => Err(e),
            Ok(rows) => if semp_qualifies(ls[n - 1]) {
                match semp_row(ls[n - 1], n - 1) {
                    Err(e) => Err(e),
                    Ok(row) => Ok(rows.push(row)),
                }
            } else {
                Ok(rows)
            },
        }
    }
}

/// The first number of each row against the row's count.
pub open spec fn norm_points(rows: Seq<SempRow>) -> Seq<PointView> {
    Seq::new(rows.len(), |i: int| PointView { x: NumberView::Count(i as nat), y: rows[i].norm })
}

/// The second number of each row against the row's count.
pub open spec fn rmsd_points(rows: Seq<SempRow>) -> Seq<PointView> {
    Seq::new(rows.len(), |i: int| PointView { x: NumberView::Count(i as nat), y: rows[i].rmsd })
}

/// The third number of each row against the row's count.
pub open spec fn max_points(rows: Seq<SempRow>) -> Seq<PointView> {
    Seq::new(rows.len(), |i: int| PointView { x: NumberView::Count(i as nat), y: rows[i].max })
}

/// The series `Norm`, `RMSD` and `MAX` that optimiser output stands for.
pub open spec fn semp_series(text: Seq<char>) -> Result<Seq<DataSetView>, ParseError> {
    match semp_rows(lines(text), lines(text).len() as int) {
        Err(e) => Err(e),
        Ok(rows) => Ok(
            seq![
                DataSetView { name: "Norm"@, data: norm_points(rows) },
                DataSetView { name: "RMSD"@, data: rmsd_points(rows) },
                DataSetView { name: "MAX"@, data: max_points(rows) },
            ],
        ),
    }
}

/// An error among the first `n` lines is the error of any longer run.
pub proof fn lemma_semp_error_persists(ls: Seq<Seq<char>>, n: int, m: int)
    requires
        n <= m,
        semp_rows(ls, n) is Err,
    ensures
        semp_rows(ls, m) == semp_rows(ls, n),
    decreases m - n,
{
    if n < m {
        lemma_semp_error_persists(ls, n, m - 1);
    }
}

/// What the numbers read from one line stand for.
pub open spec fn row_result_view(r: Result<(Number, Number, Number), ParseError>) -> Result<
    SempRow,
    ParseError,
> {
    match r {
        Ok(t) => Ok(SempRow { norm: t.0@, rmsd: t.1@, max: t.2@ }),
        Err(e) => Err(e),
    }
}

/// Reads the three numbers of a qualifying line.
pub fn read_semp_row(line: &[char], line_no: usize) -> (r: Result<
    (Number, Number, Number),
    ParseError,
>)
    ensures
        row_result_view(r) == semp_row(line@, line_no as int),
{
    let w = split_words(line);
    let norm = match read_field(&w, 1, line_no) {
        Ok(n) => n,
        Err(e) => {
            return Err(e);
        },
    };
    let rmsd = match read_field(&w, 3, line_no) {
        Ok(n) => n,
        Err(e) => {
            return Err(e);
        },
    };
    let max = match read_field(&w, 5, line_no) {
        Ok(n) => n,
        Err(e) => {
            return Err(e);
        },
    };
    Ok((norm, rmsd, max))
}

/// Whether a line of optimiser output gives a point.
pub fn qualifies(line: &[char]) -> (b: bool)
    ensures
        b == semp_qualifies(line@),
{
    let w = split_words(line);
    if w.len() == 0 {
        return false;
    }
    let first = w[0];
    assert(first@ == slices_view(w@)[0]);
    is_numeric_word(first)
}

/// The point that a series of `len` points gets for the number `y`: the
/// number against the count of the points before it.
pub open spec fn counted_point(len: nat, y: NumberView) -> PointView {
    PointView { x: NumberView::Count(len), y }
}

/// Takes one line of optimiser output in, given whether the line qualifies.
/// A line that does not qualify changes nothing. A qualifying line gives each
/// of the three series one more point, its number against the count of the
/// points that the series held; where the line lacks a number or holds a
/// malformed one, nothing changes and the error is returned.
pub fn semp_step(
    norm: &mut Vec<Point>,
    rmsd: &mut Vec<Point>,
    max: &mut Vec<Point>,
    line: &[char],
    line_no: usize,
    qualifies: bool,
) -> (r: Result<(), ParseError>)
    ensures
        !qualifies ==> r is Ok && final(norm)@ == old(norm)@ && final(rmsd)@ == old(rmsd)@
            && final(max)@ == old(max)@,
        qualifies ==> match semp_row(line@, line_no as int) {
            Err(e) => r == Err::<(), ParseError>(e) && final(norm)@ == old(norm)@ && final(rmsd)@
                == old(rmsd)@ && final(max)@ == old(max)@,
            Ok(row) => r is Ok && points_view(final(norm)@) == points_view(old(norm)@).push(
                counted_point(old(norm)@.len(), row.norm),
            ) && points_view(final(rmsd)@) == points_view(old(rmsd)@).push(
                counted_point(old(rmsd)@.len(), row.rmsd),
            ) && points_view(final(max)@) == points_view(old(max)@).push(
                counted_point(old(max)@.len(), row.max),
            ),
        },
{
    if !qualifies {
        return Ok(());
    }
    let (n, r, m) = match read_semp_row(line, line_no) {
        Ok(t) => t,
        Err(e) => {
            return Err(e);
        },
    };
    let pn = Point { x: Number::Count(norm.len() as u64), y: n };
    let pr = Point { x: Number::Count(rmsd.len() as u64), y: r };
    let pm = Point { x: Number::Count(max.len() as u64), y: m };
    proof {
        lemma_points_view_push(norm@, pn);
        lemma_points_view_push(rmsd@, pr);
        lemma_points_view_push(max@, pm);
    }
    norm.push(pn);
    rmsd.push(pr);
    max.push(pm);
    Ok(())
}

/// Parses optimiser output. Each line whose first word is numeric gives one
/// point to each of three series; the points of a series are counted from
/// zero. Other lines are passed over.
pub fn parse_semp(contents: &str) -> (r: Result<Vec<DataSet>, ParseError>)
    ensures
        datasets_result_view(r) == semp_series(contents@),
        r is Ok ==> r->Ok_0@.len() == 3 && forall|k: int|
            0 <= k < 3 ==> (#[trigger] r->Ok_0@[k])@.wf(),
{
    let text = chars_of(contents);
    let ls = split_lines(text.as_slice());
    let mut norm: Vec<Point> = Vec::new();
    let mut rmsd: Vec<Point> = Vec::new();
    let mut max: Vec<Point> = Vec::new();
    let ghost mut rows: Seq<SempRow> = Seq::empty();
    let mut i: usize = 0;
    assert(points_view(norm@) =~= norm_points(rows));
    assert(points_view(rmsd@) =~= rmsd_points(rows));
    assert(points_view(max@) =~= max_points(rows));
    while i < ls.len()
        invariant
            i <= ls@.len(),
            text@ == contents@,
            slices_view(ls@) == lines(text@),
            semp_rows(lines(text@), i as int) == Ok::<Seq<SempRow>, ParseError>(rows),
            points_view(norm@) == norm_points(rows),
            points_view(rmsd@) == rmsd_points(rows),
            points_view(max@) == max_points(rows),
        decreases ls@.len() - i,
    {
        let line = ls[i];
        assert(line@ == lines(text@)[i as int]);
        let counts = qualifies(line);
        assert(norm@.len() == rows.len()) by {
            assert(points_view(norm@).len() == norm_points(rows).len());
        }
        assert(rmsd@.len() == rows.len()) by {
            assert(points_view(rmsd@).len() == rmsd_points(rows).len());
        }
        assert(max@.len() == rows.len()) by {
            assert(points_view(max@).len() == max_points(rows).len());
        }
        match semp_step(&mut norm, &mut rmsd, &mut max, line, i, counts) {
            Ok(()) => {
                proof {
                    if counts {
                        let row = semp_row(line@, i as int)->Ok_0;
                        assert(norm_points(rows.push(row)) =~= norm_points(rows).push(
                            counted_point(rows.len(), row.norm),
                        ));
                        assert(rmsd_points(rows.push(row)) =~= rmsd_points(rows).push(
                            counted_point(rows.len(), row.rmsd),
                        ));
                        assert(max_points(rows.push(row)) =~= max_points(rows).push(
                            counted_point(rows.len(), row.max),
                        ));
                        rows = rows.push(row);
                    }
                }
            },
            Err(e) => {
                proof {
                    assert(semp_rows(lines(text@), i + 1) == Err::<Seq<SempRow>, ParseError>(e));
                    lemma_semp_error_persists(lines(text@), i + 1, ls@.len() as int);
                }
                return Err(e);
            },
        }
        i += 1;
    }
    let mut sets: Vec<DataSet> = Vec::new();
    sets.push(DataSet { name: "Norm".to_owned(), data: norm });
    sets.push(DataSet { name: "RMSD".to_owned(), data: rmsd });
    sets.push(DataSet { name: "MAX".to_owned(), data: max });
    assert(datasets_view(sets@) =~= semp_series(contents@)->Ok_0);
    proof {
        lemma_semp_shape(contents@);
        assert forall|k: int| 0 <= k < 3 implies (#[trigger] sets@[k])@.wf() by {
            assert(sets@[k]@ == datasets_view(sets@)[k]);
        }
    }
    Ok(sets)
}

// ---------------------------------------------------------------------------
// Sampling log: one series, restarted after each drop.
// ---------------------------------------------------------------------------

/// How a line that reports an iteration begins.
pub open spec fn iter_mark() -> Seq<char> {
    "[iter "@
}

/// How the line begins that reports the end of a phase.
pub open spec fn drop_mark() -> Seq<char> {
    "finished dropping"@
}

/// Where the parser of a sampling log stands after some lines: the points of
/// the current phase, and whether a drop was seen since the last of them.
pub struct PbqffState {
    pub points: Seq<PointView>,
    pub dropped: bool,
}

/// The state after one more line. A drop line raises the flag. An iteration
/// line gives the point of its second and eighth word; if the flag is up, the
/// points so far are forgotten first and the flag comes down.
pub open spec fn pbqff_step(st: PbqffState, line: Seq<char>, line_no: int) -> Result<
    PbqffState,
    ParseError,
> {
    let dropped = st.dropped || has_prefix(line, drop_mark());
    if has_prefix(line, iter_mark()) {
        let w = words(line);
        match field(w, 1, line_no) {
            Err(e) => Err(e),
            Ok(x) => match field(w, 7, line_no) {
                Err(e) => Err(e),
                Ok(y) => {
                    let kept = if dropped {
                        Seq::empty()
                    } else {
                        st.points
                    };
                    Ok(PbqffState { points: kept.push(PointView { x, y }), dropped: false })
                },
            },
        }
    } else {
        Ok(PbqffState { points: st.points, dropped })
    }
}

/// The state after the first `n` lines, begun in state `start`, or the error
/// of the first iteration line that gives no point.
pub open spec fn pbqff_run(start: PbqffState, ls: Seq<Seq<char>>, n: int) -> Result<
    PbqffState,
    ParseError,
>
    decreases n,
{
    if n <= 0 {
        Ok(start)
    } else {
        match pbqff_run(start, ls, n - 1) {
            Err(e) => Err(e),
            Ok(st) => pbqff_step(st, ls[n - 1], n - 1),
        }
    }
}

/// The state in which the parser of a sampling log begins.
pub open spec fn pbqff_start() -> PbqffState {
    PbqffState { points: Seq::empty(), dropped: false }
}

/// The series `Points remaining` that a sampling log stands for.
pub open spec fn pbqff_series(text: Seq<char>) -> Result<Seq<DataSetView>, ParseError> {
    match pbqff_run(pbqff_start(), lines(text), lines(text).len() as int) {
        Err(e) => Err(e),
        Ok(st) => Ok(seq![DataSetView { name: "Points remaining"@, data: st.points }]),
    }
}

/// An error among the first `n` lines is the error of any longer run.
pub proof fn lemma_pbqff_error_persists(start: PbqffState, ls: Seq<Seq<char>>, n: int, m: int)
    requires
        n <= m,
        pbqff_run(start, ls, n) is Err,
    ensures
        pbqff_run(start, ls, m) == pbqff_run(start, ls, n),
    decreases m - n,
{
    if n < m {
        lemma_pbqff_error_persists(start, ls, n, m - 1);
    }
}

/// Parses a sampling log. Only the current phase is kept: the first iteration
/// line after a drop line discards the points gathered before it.
pub fn parse_pbqff(contents: &str) -> (r: Result<Vec<DataSet>, ParseError>)
    ensures
        datasets_result_view(r) == pbqff_series(contents@),
        r is Ok ==> r->Ok_0@.len() == 1 && r->Ok_0@[0]@.wf(),
{
    let text = chars_of(contents);
    let ls = split_lines(text.as_slice());
    let iter = chars_of("[iter ");
    let drop = chars_of("finished dropping");
    let mut data: Vec<Point> = Vec::new();
    let mut did_drop = false;
    let mut i: usize = 0;
    assert(points_view(data@) =~= Seq::empty());
    while i < ls.len()
        invariant
            i <= ls@.len(),
            text@ == contents@,
            iter@ == iter_mark(),
            drop@ == drop_mark(),
            slices_view(ls@) == lines(text@),
            pbqff_run(pbqff_start(), lines(text@), i as int) == Ok::<PbqffState, ParseError>(
                PbqffState { points: points_view(data@), dropped: did_drop },
            ),
        decreases ls@.len() - i,
    {
        let line = ls[i];
        assert(line@ == lines(text@)[i as int]);
        if starts_with(line, drop.as_slice()) {
            did_drop = true;
        }
        if starts_with(line, iter.as_slice()) {
            let w = split_words(line);
            let x = match read_field(&w, 1, i) {
                Ok(x) => x,
                Err(e) => {
                    proof {
                        assert(pbqff_run(pbqff_start(), lines(text@), i + 1) == Err::<
                            PbqffState,
                            ParseError,
                        >(e));
                        lemma_pbqff_error_persists(
                            pbqff_start(),
                            lines(text@),
                            i + 1,
                            ls@.len() as int,
                        );
                    }
                    return Err(e);
                },
            };
            let y = match read_field(&w, 7, i) {
                Ok(y) => y,
                Err(e) => {
                    proof {
                        assert(pbqff_run(pbqff_start(), lines(text@), i + 1) == Err::<
                            PbqffState,
                            ParseError,
                        >(e));
                        lemma_pbqff_error_persists(
                            pbqff_start(),
                            lines(text@),
                            i + 1,
                            ls@.len() as int,
                        );
                    }
                    return Err(e);
                },
            };
            if did_drop {
                did_drop = false;
                data.clear();
                assert(points_view(data@) =~= Seq::empty());
            }
            let p = Point { x, y };
            proof {
                lemma_points_view_push(data@, p);
            }
            data.push(p);
        }
        i += 1;
    }
    let mut sets: Vec<DataSet> = Vec::new();
    sets.push(DataSet { name: "Points remaining".to_owned(), data });
    assert(datasets_view(sets@) =~= pbqff_series(contents@)->Ok_0);
    proof {
        lemma_pbqff_shape(contents@);
        assert(sets@[0]@ == datasets_view(sets@)[0]);
    }
    Ok(sets)
}

// ---------------------------------------------------------------------------
// What holds of every parsed text.
// ---------------------------------------------------------------------------

/// Number of qualifying lines among the first `n` lines.
pub open spec fn qualifying(ls: Seq<Seq<char>>, n: int) -> nat
    decreases n,
{
    if n <= 0 {
        0
    } else if semp_qualifies(ls[n - 1]) {
        qualifying(ls, n - 1) + 1
    } else {
        qualifying(ls, n - 1)
    }
}

/// Optimiser output that parses has one row for each qualifying line: a line
/// that does not qualify adds no row and does not advance the count.
pub proof fn lemma_semp_counts_qualifying(ls: Seq<Seq<char>>, n: int)
    requires
        semp_rows(ls, n) is Ok,
    ensures
        semp_rows(ls, n)->Ok_0.len() == qualifying(ls, n),
        n > 0 && !semp_qualifies(ls[n - 1]) ==> semp_rows(ls, n) == semp_rows(ls, n - 1),
    decreases n,
{
    if n > 0 {
        lemma_semp_counts_qualifying(ls, n - 1);
    }
}

/// Every number of every row is the literal of a floating-point number.
pub proof fn lemma_semp_rows_wf(ls: Seq<Seq<char>>, n: int)
    requires
        semp_rows(ls, n) is Ok,
    ensures
        forall|i: int|
            0 <= i < semp_rows(ls, n)->Ok_0.len() ==> {
                let row = #[trigger] semp_rows(ls, n)->Ok_0[i];
                row.norm.wf() && row.rmsd.wf() && row.max.wf()
            },
    decreases n,
{
    if n > 0 {
        lemma_semp_rows_wf(ls, n - 1);
    }
}

/// Optimiser output that parses gives three series of equal length, one point
/// for each qualifying line, the points of each series counted from zero, and
/// every coordinate well formed.
pub proof fn lemma_semp_shape(text: Seq<char>)
    requires
        semp_series(text) is Ok,
    ensures
        semp_series(text)->Ok_0.len() == 3,
        forall|k: int|
            0 <= k < 3 ==> (#[trigger] semp_series(text)->Ok_0[k]).data.len() == qualifying(
                lines(text),
                lines(text).len() as int,
            ),
        forall|k: int, i: int|
            0 <= k < 3 && 0 <= i < semp_series(text)->Ok_0[k].data.len() ==> (
            #[trigger] semp_series(text)->Ok_0[k].data[i]).x == NumberView::Count(i as nat),
        forall|k: int| 0 <= k < 3 ==> (#[trigger] semp_series(text)->Ok_0[k]).wf(),
{
    lemma_semp_counts_qualifying(lines(text), lines(text).len() as int);
    lemma_semp_rows_wf(lines(text), lines(text).len() as int);
}

/// An error log that parses gives one well-formed point for each of its
/// first `n` lines.
pub proof fn lemma_freqs_points_shape(ls: Seq<Seq<char>>, n: int)
    requires
        0 <= n,
        freqs_points(ls, n) is Ok,
    ensures
        freqs_points(ls, n)->Ok_0.len() == n,
        forall|i: int|
            0 <= i < n ==> {
                let p = #[trigger] freqs_points(ls, n)->Ok_0[i];
                p.x.wf() && p.y.wf()
            },
    decreases n,
{
    if n > 0 {
        lemma_freqs_points_shape(ls, n - 1);
    }
}

/// An error log that parses gives a series with one point for each line,
/// every coordinate well formed.
pub proof fn lemma_freqs_shape(text: Seq<char>)
    requires
        freqs_series(text) is Ok,
    ensures
        freqs_series(text)->Ok_0.data.len() == lines(text).len(),
        freqs_series(text)->Ok_0.wf(),
{
    lemma_freqs_points_shape(lines(text), lines(text).len() as int);
}

/// Every point that the parser of a sampling log holds is well formed, if
/// those it began with are.
pub proof fn lemma_pbqff_points_wf(start: PbqffState, ls: Seq<Seq<char>>, n: int)
    requires
        pbqff_run(start, ls, n) is Ok,
        forall|i: int| 0 <= i < start.points.len() ==> {
            let p = #[trigger] start.points[i];
            p.x.wf() && p.y.wf()
        },
    ensures
        forall|i: int|
            0 <= i < pbqff_run(start, ls, n)->Ok_0.points.len() ==> {
                let p = #[trigger] pbqff_run(start, ls, n)->Ok_0.points[i];
                p.x.wf() && p.y.wf()
            },
    decreases n,
{
    if n > 0 {
        lemma_pbqff_points_wf(start, ls, n - 1);
    }
}

/// A sampling log that parses gives exactly one series, every coordinate well
/// formed.
pub proof fn lemma_pbqff_shape(text: Seq<char>)
    requires
        pbqff_series(text) is Ok,
    ensures
        pbqff_series(text)->Ok_0.len() == 1,
        pbqff_series(text)->Ok_0[0].wf(),
{
    lemma_pbqff_points_wf(pbqff_start(), lines(text), lines(text).len() as int);
}

/// The parser of a sampling log reads only the lines it is given: two lists
/// that agree on their first `n` lines leave it in the same state.
pub proof fn lemma_pbqff_reads_prefix(
    start: PbqffState,
    ls: Seq<Seq<char>>,
    other: Seq<Seq<char>>,
    n: int,
)
    requires
        n <= ls.len(),
        n <= other.len(),
        forall|i: int| 0 <= i < n ==> ls[i] == other[i],
    ensures
        pbqff_run(start, ls, n) == pbqff_run(start, other, n),
    decreases n,
{
    if n > 0 {
        lemma_pbqff_reads_prefix(start, ls, other, n - 1);
    }
}

/// A drop line is no iteration line.
pub proof fn lemma_marks_differ(line: Seq<char>)
    requires
        has_prefix(line, drop_mark()),
    ensures
        !has_prefix(line, iter_mark()),
{
    reveal_strlit("[iter ");
    reveal_strlit("finished dropping");
    let d = line.subrange(0, drop_mark().len() as int);
    assert(d[0] == 'f');
    if has_prefix(line, iter_mark()) {
        let i = line.subrange(0, iter_mark().len() as int);
        assert(i[0] == '[');
        assert(false);
    }
}

/// Whether one of the first `n` lines reports an iteration.
pub open spec fn has_iteration(ls: Seq<Seq<char>>, n: int) -> bool {
    exists|k: int| 0 <= k < n && has_prefix(#[trigger] ls[k], iter_mark())
}

/// How the parser stands `j` lines after a drop line, compared with a parser
/// that began at the line after the drop: both have failed or neither has;
/// until an iteration line came, the first still waits to forget and the
/// second holds nothing; from then on they are in the same state.
pub proof fn lemma_after_drop(
    before: Seq<Seq<char>>,
    mark: Seq<char>,
    after: Seq<Seq<char>>,
    j: int,
)
    requires
        has_prefix(mark, drop_mark()),
        pbqff_run(pbqff_start(), before, before.len() as int) is Ok,
        0 <= j <= after.len(),
    ensures
        ({
            let whole = pbqff_run(
                pbqff_start(),
                before + seq![mark] + after,
                before.len() + 1 + j,
            );
            let tail = pbqff_run(pbqff_start(), after, j);
            &&& whole is Ok <==> tail is Ok
            &&& whole is Ok ==> if has_iteration(after, j) {
                whole->Ok_0 == tail->Ok_0
            } else {
                whole->Ok_0.dropped && tail->Ok_0.points.len() == 0
            }
        }),
    decreases j,
{
    let all = before + seq![mark] + after;
    let off = (before.len() + 1) as int;
    let start = pbqff_start();
    if j == 0 {
        lemma_pbqff_reads_prefix(start, all, before, before.len() as int);
        lemma_marks_differ(mark);
        assert(all[before.len() as int] == mark);
        assert(pbqff_run(start, all, off) == pbqff_step(
            pbqff_run(start, all, off - 1)->Ok_0,
            mark,
            off - 1,
        ));
        assert(!has_iteration(after, 0));
    } else {
        lemma_after_drop(before, mark, after, j - 1);
        let line = after[j - 1];
        assert(all[off + j - 1] == line);
        let whole_prev = pbqff_run(start, all, off + j - 1);
        let tail_prev = pbqff_run(start, after, j - 1);
        let whole = pbqff_run(start, all, off + j);
        let tail = pbqff_run(start, after, j);
        if whole_prev is Ok {
            assert(whole == pbqff_step(whole_prev->Ok_0, line, off + j - 1));
            assert(tail == pbqff_step(tail_prev->Ok_0, line, j - 1));
            if has_iteration(after, j - 1) {
                let k = choose|k: int|
                    0 <= k < j - 1 && has_prefix(#[trigger] after[k], iter_mark());
                assert(0 <= k < j && has_prefix(after[k], iter_mark()));
                assert(has_iteration(after, j));
            } else if has_prefix(line, iter_mark()) {
                assert(0 <= j - 1 < j && has_prefix(after[j - 1], iter_mark()));
                assert(has_iteration(after, j));
                if whole is Ok {
                    assert(whole->Ok_0.points =~= tail->Ok_0.points);
                }
            } else {
                assert forall|k: int| 0 <= k < j implies !has_prefix(
                    #[trigger] after[k],
                    iter_mark(),
                ) by {
                    if k < j - 1 {
                        assert(!has_iteration(after, j - 1));
                    }
                }
                assert(!has_iteration(after, j));
            }
        } else {
            assert(whole is Err);
            assert(tail is Err);
        }
    }
}

/// Phase segmentation. Where a drop line is followed, sooner or later, by an
/// iteration line, nothing that stood before the drop line shows in the
/// series: the text parses if and only if the lines after the drop line parse
/// on their own, and then both give the same series.
pub proof fn lemma_drop_forgets_earlier_phase(
    text: Seq<char>,
    rest: Seq<char>,
    before: Seq<Seq<char>>,
    mark: Seq<char>,
)
    requires
        lines(text) == before + seq![mark] + lines(rest),
        has_prefix(mark, drop_mark()),
        pbqff_run(pbqff_start(), before, before.len() as int) is Ok,
        has_iteration(lines(rest), lines(rest).len() as int),
    ensures
        pbqff_series(text) is Ok <==> pbqff_series(rest) is Ok,
        pbqff_series(text) is Ok ==> pbqff_series(text) == pbqff_series(rest),
{
    lemma_after_drop(before, mark, lines(rest), lines(rest).len() as int);
}

/// Whether a line reports an iteration.
pub open spec fn is_iteration(line: Seq<char>) -> bool {
    has_prefix(line, iter_mark())
}

/// Whether a line reports the end of a phase.
pub open spec fn is_drop(line: Seq<char>) -> bool {
    has_prefix(line, drop_mark())
}

/// The point that an iteration line gives: its second word against its
/// eighth.
pub open spec fn iteration_point(line: Seq<char>) -> PointView {
    PointView {
        x: NumberView::Literal(words(line)[1]),
        y: NumberView::Literal(words(line)[7]),
    }
}

/// The points of the iteration lines with an index from `from` up to, but
/// not including, `to`, in the order of the lines.
pub open spec fn points_between(ls: Seq<Seq<char>>, from: int, to: int) -> Seq<PointView>
    decreases to - from,
{
    if to <= from {
        Seq::empty()
    } else if is_iteration(ls[to - 1]) {
        points_between(ls, from, to - 1).push(iteration_point(ls[to - 1]))
    } else {
        points_between(ls, from, to - 1)
    }
}

/// No iteration line stands after line `from` and before line `to`.
pub open spec fn no_iteration_between(ls: Seq<Seq<char>>, from: int, to: int) -> bool {
    forall|k: int| from < k < to ==> !is_iteration(#[trigger] ls[k])
}

/// Line `d` is a drop line among the first `n` lines that no iteration line
/// follows there.
pub open spec fn is_pending_drop(ls: Seq<Seq<char>>, n: int, d: int) -> bool {
    0 <= d < n && is_drop(ls[d]) && no_iteration_between(ls, d, n)
}

/// A drop line among the first `n` lines still waits for an iteration line.
pub open spec fn drop_pending(ls: Seq<Seq<char>>, n: int) -> bool {
    exists|d: int| #[trigger] is_pending_drop(ls, n, d)
}

/// Line `d`, if it is a drop line, is followed by no iteration line among the
/// first `n` lines.
pub open spec fn without_effect(ls: Seq<Seq<char>>, n: int, d: int) -> bool {
    is_drop(ls[d]) ==> no_iteration_between(ls, d, n)
}

/// Line `d` is a drop line, and line `j` is the first iteration line after
/// it.
pub open spec fn first_after_drop(ls: Seq<Seq<char>>, d: int, j: int) -> bool {
    0 <= d < j && is_drop(ls[d]) && is_iteration(ls[j]) && no_iteration_between(ls, d, j)
}

/// Line `j` is where the current phase begins among the first `n` lines: the
/// first iteration line after the last drop line that an iteration line
/// follows. Where no drop line is followed by an iteration line, the phase
/// begins with the first line.
pub open spec fn is_phase_start(ls: Seq<Seq<char>>, n: int, j: int) -> bool {
    if j == 0 {
        forall|d: int| 0 <= d < n ==> #[trigger] without_effect(ls, n, d)
    } else {
        &&& 0 < j < n
        &&& exists|d: int| #[trigger] first_after_drop(ls, d, j)
        &&& forall|d: int| j < d < n ==> #[trigger] without_effect(ls, n, d)
    }
}

/// The flag of the parser is up exactly while a drop line waits for an
/// iteration line, and the points it holds are those of the iteration lines
/// from the beginning of the current phase on.
pub proof fn lemma_run_tracks_phase(ls: Seq<Seq<char>>, n: int)
    requires
        0 <= n,
        pbqff_run(pbqff_start(), ls, n) is Ok,
    ensures
        pbqff_run(pbqff_start(), ls, n)->Ok_0.dropped == drop_pending(ls, n),
        forall|j: int| #[trigger]
            is_phase_start(ls, n, j) ==> pbqff_run(pbqff_start(), ls, n)->Ok_0.points
                == points_between(ls, j, n),
    decreases n,
{
    let now = pbqff_run(pbqff_start(), ls, n)->Ok_0;
    if n == 0 {
        assert(!drop_pending(ls, 0)) by {
            assert forall|d: int| !#[trigger] is_pending_drop(ls, 0, d) by {}
        }
        assert forall|j: int| #[trigger] is_phase_start(ls, n, j) implies now.points
            == points_between(ls, j, n) by {}
    } else {
        let m = n - 1;
        let line = ls[m];
        let prev = pbqff_run(pbqff_start(), ls, m)->Ok_0;
        assert(pbqff_run(pbqff_start(), ls, m) is Ok);
        assert(pbqff_run(pbqff_start(), ls, n) == pbqff_step(prev, line, m));
        lemma_run_tracks_phase(ls, m);
        if is_drop(line) {
            lemma_marks_differ(line);
        }
        if is_iteration(line) {
            // No drop line waits any longer: this line follows every earlier one.
            assert(!drop_pending(ls, n)) by {
                assert forall|d: int| !#[trigger] is_pending_drop(ls, n, d) by {
                    if 0 <= d < n && is_drop(ls[d]) {
                        assert(d < m);
                        assert(is_iteration(ls[m]));
                    }
                }
            }
            assert forall|j: int| #[trigger] is_phase_start(ls, n, j) implies now.points
                == points_between(ls, j, n) by {
                if prev.dropped {
                    let d0 = choose|d: int| #[trigger] is_pending_drop(ls, m, d);
                    assert(is_pending_drop(ls, m, d0));
                    lemma_marks_differ(ls[d0]);
                    if j == 0 {
                        assert(without_effect(ls, n, d0));
                        assert(is_iteration(ls[m]));
                        assert(false);
                    } else if j < m {
                        let d = choose|d: int| #[trigger] first_after_drop(ls, d, j);
                        assert(first_after_drop(ls, d, j));
                        if d0 > j {
                            assert(without_effect(ls, n, d0));
                            assert(is_iteration(ls[m]));
                        } else {
                            assert(d0 < j);
                            assert(is_iteration(ls[j]));
                        }
                        assert(false);
                    }
                    assert(j == m);
                    assert(points_between(ls, m, m) =~= Seq::<PointView>::empty());
                    assert(now.points =~= points_between(ls, j, n));
                } else {
                    if j == 0 {
                        assert forall|d: int| 0 <= d < m implies #[trigger] without_effect(
                            ls,
                            m,
                            d,
                        ) by {
                            assert(without_effect(ls, n, d));
                        }
                    } else {
                        let d = choose|d: int| #[trigger] first_after_drop(ls, d, j);
                        assert(first_after_drop(ls, d, j));
                        if j == m {
                            assert(is_pending_drop(ls, m, d));
                            assert(drop_pending(ls, m));
                            assert(false);
                        }
                        assert forall|d2: int| j < d2 < m implies #[trigger] without_effect(
                            ls,
                            m,
                            d2,
                        ) by {
                            assert(without_effect(ls, n, d2));
                        }
                    }
                    assert(is_phase_start(ls, m, j));
                    assert(prev.points == points_between(ls, j, m));
                    assert(now.points =~= points_between(ls, j, n));
                }
            }
        } else {
            assert(now.points == prev.points);
            assert(now.dropped == (prev.dropped || is_drop(line)));
            if drop_pending(ls, m) {
                let d = choose|d: int| #[trigger] is_pending_drop(ls, m, d);
                assert(is_pending_drop(ls, n, d));
            }
            if is_drop(line) {
                assert(is_pending_drop(ls, n, m));
            }
            if drop_pending(ls, n) {
                let d = choose|d: int| #[trigger] is_pending_drop(ls, n, d);
                if d < m {
                    assert(is_pending_drop(ls, m, d));
                }
            }
            assert forall|j: int| #[trigger] is_phase_start(ls, n, j) implies now.points
                == points_between(ls, j, n) by {
                if j == 0 {
                    assert forall|d: int| 0 <= d < m implies #[trigger] without_effect(
                        ls,
                        m,
                        d,
                    ) by {
                        assert(without_effect(ls, n, d));
                    }
                } else {
                    let d = choose|d: int| #[trigger] first_after_drop(ls, d, j);
                    assert(first_after_drop(ls, d, j));
                    assert(j < m);
                    assert forall|d2: int| j < d2 < m implies #[trigger] without_effect(
                        ls,
                        m,
                        d2,
                    ) by {
                        assert(without_effect(ls, n, d2));
                    }
                }
                assert(is_phase_start(ls, m, j));
            }
        }
    }
}

/// Every list of lines has a line where the current phase begins.
pub proof fn lemma_phase_start_exists(ls: Seq<Seq<char>>, n: int) -> (j: int)
    requires
        0 <= n,
    ensures
        is_phase_start(ls, n, j),
    decreases n,
{
    if n == 0 {
        0
    } else {
        let m = n - 1;
        let j0 = lemma_phase_start_exists(ls, m);
        if is_drop(ls[m]) {
            lemma_marks_differ(ls[m]);
        }
        if is_iteration(ls[m]) && drop_pending(ls, m) {
            let d = choose|d: int| #[trigger] is_pending_drop(ls, m, d);
            assert(first_after_drop(ls, d, m));
            m
        } else if is_iteration(ls[m]) {
            assert forall|d: int|
                j0 <= d < n && (j0 == 0 || j0 < d) implies #[trigger] without_effect(ls, n, d) by {
                if d < m && is_drop(ls[d]) {
                    assert(without_effect(ls, m, d));
                    assert(is_pending_drop(ls, m, d));
                    assert(false);
                }
            }
            if j0 > 0 {
                let d = choose|d: int| #[trigger] first_after_drop(ls, d, j0);
                assert(first_after_drop(ls, d, j0));
            }
            j0
        } else {
            assert forall|d: int|
                j0 <= d < n && (j0 == 0 || j0 < d) implies #[trigger] without_effect(ls, n, d) by {
                if d < m {
                    assert(without_effect(ls, m, d));
                }
            }
            if j0 > 0 {
                let d = choose|d: int| #[trigger] first_after_drop(ls, d, j0);
                assert(first_after_drop(ls, d, j0));
            }
            j0
        }
    }
}

/// Phase segmentation, in general. A sampling log that parses gives the
/// points of the iteration lines from the beginning of the current phase on,
/// in the order of the lines, and no point of an earlier line: with several
/// drop lines, the last one that an iteration line follows decides.
pub proof fn lemma_series_is_current_phase(text: Seq<char>, j: int)
    requires
        pbqff_series(text) is Ok,
        is_phase_start(lines(text), lines(text).len() as int, j),
    ensures
        pbqff_series(text)->Ok_0.len() == 1,
        pbqff_series(text)->Ok_0[0].data == points_between(
            lines(text),
            j,
            lines(text).len() as int,
        ),
{
    lemma_run_tracks_phase(lines(text), lines(text).len() as int);
}

} // verus!
