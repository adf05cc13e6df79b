//! Ingestion of delimited text into a series of points.
//!
//! A file's bytes are split into records by the delimited-text reader;
//! each record yields a point when both chosen columns hold numeric
//! text, and a logged warning otherwise. Column indices are zero-based.
//! The skip counts are stored with the series but are not applied while
//! parsing.

use vstd::prelude::*;
use vstd::string::StringExecFns;
use crate::text::{
    check_numeric_text, dec_digits, is_numeric_text, str_to_char_vec, u64_to_string,
};

verus! {

/// The records that the delimited-text reader yields on the given bytes,
/// in order: `Some(fields)` for a row read whole, `None` for a row the
/// reader rejects. Rows beginning with the comment byte are skipped by
/// the reader and do not appear at all. Named, not stated: the reader's
/// full behaviour (quoting, comment and delimiter handling) is not
/// restated here.
pub uninterp spec fn csv_records(bytes: Seq<u8>, delimiter: u8, comment_char: u8) -> Seq<
    Option<Seq<Seq<char>>>,
>;

/// The fields of one read record, or `None` for a rejected row.
pub open spec fn row_fields(rec: Result<Vec<String>, String>) -> Option<Seq<Seq<char>>> {
    match rec {
        Ok(fields) => Some(fields.deep_view()),
        Err(_) => None,
    }
}

/// Relies on `csv::ReaderBuilder` / `csv::Reader::into_records` (headers
/// off, the given delimiter and comment byte): yields the records of the
/// bytes in order, each either its fields or a reader error.
#[verifier::external_body]
fn split_csv_records(bytes: &Vec<u8>, delimiter: u8, comment_char: u8) -> (r: Vec<
    Result<Vec<String>, String>,
>)
    ensures
        r@.map_values(|rec: Result<Vec<String>, String>| row_fields(rec)) == csv_records(
            bytes@,
            delimiter,
            comment_char,
        ),
{
    let rdr = csv::ReaderBuilder::new()
        .has_headers(false)
        .comment(Some(comment_char))
        .delimiter(delimiter)
        .from_reader(bytes.as_slice());
    rdr.into_records()
        .map(|rec| match rec {
            Ok(row) => Ok(row.iter().map(|f| f.to_string()).collect()),
            Err(e) => Err(e.to_string()),
        })
        .collect()
}

/// The point a record's fields yield: the texts of the two chosen
/// columns, when both are present and numeric.
pub open spec fn row_point(fields: Seq<Seq<char>>, xcol: int, ycol: int) -> Option<
    (Seq<char>, Seq<char>),
> {
    if 0 <= xcol < fields.len() && 0 <= ycol < fields.len() && is_numeric_text(fields[xcol])
        && is_numeric_text(fields[ycol]) {
        Some((fields[xcol], fields[ycol]))
    } else {
        None
    }
}

/// Warning for a row the reader rejected.
pub open spec fn warn_bad_row(n: nat, path: Seq<char>, e: Seq<char>) -> Seq<char> {
    "WARNING: could not parse row "@ + dec_digits(n) + " of file "@ + path + ": "@ + e
}

/// Warning for a row whose y-column is not numeric.
pub open spec fn warn_bad_y(ycol: nat, n: nat, path: Seq<char>) -> Seq<char> {
    "WARNING: y-column "@ + dec_digits(ycol) + " could not be parsed in entry "@ + dec_digits(n)
        + " for file "@ + path + ": not numeric text"@
}

/// Warning for a row whose x-column is not numeric.
pub open spec fn warn_bad_x(xcol: nat, n: nat, path: Seq<char>) -> Seq<char> {
    "WARNING: x-column "@ + dec_digits(xcol) + " could not be parsed in entry "@ + dec_digits(n)
        + " for file "@ + path + ": not numeric text"@
}

/// Warning for a row where the chosen columns are missing or both bad.
pub open spec fn warn_bad_cols(xcol: nat, ycol: nat, n: nat, path: Seq<char>) -> Seq<char> {
    "WARNING: could not parse columns "@ + dec_digits(xcol) + ", "@ + dec_digits(ycol)
        + " in entry "@ + dec_digits(n) + " for file "@ + path
}

/// The warning a record yields, if any; `n` is the 1-based row number.
pub open spec fn row_warning(
    rec: Result<Vec<String>, String>,
    n: nat,
    xcol: int,
    ycol: int,
    path: Seq<char>,
) -> Option<Seq<char>> {
    match rec {
        Ok(row) => {
            let fields = row.deep_view();
            if 0 <= xcol < fields.len() && 0 <= ycol < fields.len() {
                if is_numeric_text(fields[xcol]) && is_numeric_text(fields[ycol]) {
                    None
                } else if is_numeric_text(fields[xcol]) && !is_numeric_text(fields[ycol]) {
                    Some(warn_bad_y(ycol as nat, n, path))
                } else if !is_numeric_text(fields[xcol]) && is_numeric_text(fields[ycol]) {
                    Some(warn_bad_x(xcol as nat, n, path))
                } else {
                    Some(warn_bad_cols(xcol as nat, ycol as nat, n, path))
                }
            } else {
                Some(warn_bad_cols(xcol as nat, ycol as nat, n, path))
            }
        },
        Err(e) => Some(warn_bad_row(n, path, e@)),
    }
}

/// The points of all records, in order.
pub open spec fn points_of(
    recs: Seq<Result<Vec<String>, String>>,
    xcol: int,
    ycol: int,
) -> Seq<(Seq<char>, Seq<char>)>
    decreases recs.len(),
{
    if recs.len() == 0 {
        Seq::empty()
    } else {
        points_of(recs.drop_last(), xcol, ycol) + match row_fields(recs.last()) {
            Some(fields) => match row_point(fields, xcol, ycol) {
                Some(p) => seq![p],
                None => Seq::empty(),
            },
            None => Seq::empty(),
        }
    }
}

/// The warnings of all records, in order.
pub open spec fn warnings_of(
    recs: Seq<Result<Vec<String>, String>>,
    xcol: int,
    ycol: int,
    path: Seq<char>,
) -> Seq<Seq<char>>
    decreases recs.len(),
{
    if recs.len() == 0 {
        Seq::empty()
    } else {
        warnings_of(recs.drop_last(), xcol, ycol, path) + match row_warning(
            recs.last(),
            recs.len(),
            xcol,
            ycol,
            path,
        ) {
            Some(w) => seq![w],
            None => Seq::empty(),
        }
    }
}

/// The points of the reader's records, at the level of the named
/// record sequence.
pub open spec fn points_of_opt(
    recs: Seq<Option<Seq<Seq<char>>>>,
    xcol: int,
    ycol: int,
) -> Seq<(Seq<char>, Seq<char>)>
    decreases recs.len(),
{
    if recs.len() == 0 {
        Seq::empty()
    } else {
        points_of_opt(recs.drop_last(), xcol, ycol) + match recs.last() {
            Some(fields) => match row_point(fields, xcol, ycol) {
                Some(p) => seq![p],
                None => Seq::empty(),
            },
            None => Seq::empty(),
        }
    }
}

/// How many records yield a warning rather than a point.
pub open spec fn warn_count_opt(recs: Seq<Option<Seq<Seq<char>>>>, xcol: int, ycol: int) -> nat
    decreases recs.len(),
{
    if recs.len() == 0 {
        0
    } else {
        warn_count_opt(recs.drop_last(), xcol, ycol) + match recs.last() {
            Some(fields) => if row_point(fields, xcol, ycol) is Some {
                0nat
            } else {
                1nat
            },
            None => 1nat,
        }
    }
}

/// The points that ingesting the given bytes yields.
pub open spec fn ingest_points(
    bytes: Seq<u8>,
    delimiter: u8,
    comment_char: u8,
    xcol: int,
    ycol: int,
) -> Seq<(Seq<char>, Seq<char>)> {
    points_of_opt(csv_records(bytes, delimiter, comment_char), xcol, ycol)
}

/// `points_of` only depends on the fields of each record.
pub proof fn lemma_points_of_map(recs: Seq<Result<Vec<String>, String>>, xcol: int, ycol: int)
    ensures
        points_of(recs, xcol, ycol) == points_of_opt(
            recs.map_values(|rec: Result<Vec<String>, String>| row_fields(rec)),
            xcol,
            ycol,
        ),
    decreases recs.len(),
{
    let m = recs.map_values(|rec: Result<Vec<String>, String>| row_fields(rec));
    if recs.len() == 0 {
        assert(m.len() == 0);
    } else {
        lemma_points_of_map(recs.drop_last(), xcol, ycol);
        assert(m.drop_last() =~= recs.drop_last().map_values(
            |rec: Result<Vec<String>, String>| row_fields(rec),
        ));
        assert(m.last() == row_fields(recs.last()));
    }
}

/// As many warnings are logged as records yield no point.
pub proof fn lemma_warnings_count(
    recs: Seq<Result<Vec<String>, String>>,
    xcol: int,
    ycol: int,
    path: Seq<char>,
)
    requires
        xcol >= 0,
        ycol >= 0,
    ensures
        warnings_of(recs, xcol, ycol, path).len() == warn_count_opt(
            recs.map_values(|rec: Result<Vec<String>, String>| row_fields(rec)),
            xcol,
            ycol,
        ),
    decreases recs.len(),
{
    let m = recs.map_values(|rec: Result<Vec<String>, String>| row_fields(rec));
    if recs.len() == 0 {
        assert(m.len() == 0);
    } else {
        lemma_warnings_count(recs.drop_last(), xcol, ycol, path);
        assert(m.drop_last() =~= recs.drop_last().map_values(
            |rec: Result<Vec<String>, String>| row_fields(rec),
        ));
        assert(m.last() == row_fields(recs.last()));
        assert(row_warning(recs.last(), recs.len(), xcol, ycol, path) is None <==> (
        row_fields(recs.last()) matches Some(fields) && row_point(fields, xcol, ycol) is Some));
    }
}

/// Every ingested point is a pair of numeric texts.
pub proof fn lemma_points_numeric(recs: Seq<Option<Seq<Seq<char>>>>, xcol: int, ycol: int)
    ensures
        forall|i: int|
            0 <= i < points_of_opt(recs, xcol, ycol).len() ==> is_numeric_text(
                (#[trigger] points_of_opt(recs, xcol, ycol)[i]).0,
            ) && is_numeric_text(points_of_opt(recs, xcol, ycol)[i].1),
    decreases recs.len(),
{
    if recs.len() > 0 {
        lemma_points_numeric(recs.drop_last(), xcol, ycol);
        let pre = points_of_opt(recs.drop_last(), xcol, ycol);
        let whole = points_of_opt(recs, xcol, ycol);
        assert forall|i: int|
            0 <= i < whole.len() implies is_numeric_text((#[trigger] whole[i]).0)
            && is_numeric_text(whole[i].1) by {
            if i < pre.len() {
                assert(whole[i] == pre[i]);
            } else {
                assert(row_point(recs.last()->0, xcol, ycol) matches Some(p) && whole[i] == p);
            }
        }
    }
}

/// Builds `warn_bad_row`.
fn build_warn_bad_row(n: u64, path: &str, e: &str) -> (m: String)
    ensures
        m@ == warn_bad_row(n as nat, path@, e@),
{
    let mut m = String::from_str("WARNING: could not parse row ");
    let num = u64_to_string(n);
    m.append(num.as_str());
    m.append(" of file ");
    m.append(path);
    m.append(": ");
    m.append(e);
    m
}

/// Builds `warn_bad_y`.
fn build_warn_bad_y(ycol: u64, n: u64, path: &str) -> (m: String)
    ensures
        m@ == warn_bad_y(ycol as nat, n as nat, path@),
{
    let mut m = String::from_str("WARNING: y-column ");
    let col = u64_to_string(ycol);
    m.append(col.as_str());
    m.append(" could not be parsed in entry ");
    let num = u64_to_string(n);
    m.append(num.as_str());
    m.append(" for file ");
    m.append(path);
    m.append(": not numeric text");
    m
}

/// Builds `warn_bad_x`.
fn build_warn_bad_x(xcol: u64, n: u64, path: &str) -> (m: String)
    ensures
        m@ == warn_bad_x(xcol as nat, n as nat, path@),
{
    let mut m = String::from_str("WARNING: x-column ");
    let col = u64_to_string(xcol);
    m.append(col.as_str());
    m.append(" could not be parsed in entry ");
    let num = u64_to_string(n);
    m.append(num.as_str());
    m.append(" for file ");
    m.append(path);
    m.append(": not numeric text");
    m
}

/// Builds `warn_bad_cols`.
fn build_warn_bad_cols(xcol: u64, ycol: u64, n: u64, path: &str) -> (m: String)
    ensures
        m@ == warn_bad_cols(xcol as nat, ycol as nat, n as nat, path@),
{
    let mut m = String::from_str("WARNING: could not parse columns ");
    let cx = u64_to_string(xcol);
    m.append(cx.as_str());
    m.append(", ");
    let cy = u64_to_string(ycol);
    m.append(cy.as_str());
    m.append(" in entry ");
    let num = u64_to_string(n);
    m.append(num.as_str());
    m.append(" for file ");
    m.append(path);
    m
}

/// Whether the text of one cell is numeric.
fn cell_is_numeric(cell: &String) -> (r: bool)
    ensures
        r == is_numeric_text(cell@),
{
    let chars = str_to_char_vec(cell.as_str());
    check_numeric_text(&chars)
}

/// Reads every record into a point where both chosen columns hold
/// numeric text, and logs one warning for every record that yields no
/// point; `filepath` only names the file in those warnings.
pub fn parse_rows(
    records: &Vec<Result<Vec<String>, String>>,
    xcol: usize,
    ycol: usize,
    filepath: &str,
    error_log: &mut Vec<String>,
) -> (data: Vec<(String, String)>)
    ensures
        data.deep_view() == points_of(records@, xcol as int, ycol as int),
        final(error_log).deep_view() == old(error_log).deep_view() + warnings_of(
            records@,
            xcol as int,
            ycol as int,
            filepath@,
        ),
{
    let mut data: Vec<(String, String)> = Vec::new();
    let nrec = records.len();
    let mut i: usize = 0;
    while i < nrec
        invariant
            nrec == records@.len(),
            i <= records@.len(),
            records@.len() <= usize::MAX,
            xcol <= u64::MAX,
            ycol <= u64::MAX,
            data.deep_view() == points_of(records@.take(i as int), xcol as int, ycol as int),
            error_log.deep_view() == old(error_log).deep_view() + warnings_of(
                records@.take(i as int),
                xcol as int,
                ycol as int,
                filepath@,
            ),
        decreases records@.len() - i,
    {
        let ghost prefix = records@.take(i as int);
        let ghost step = records@.take(i + 1);
        proof {
            assert(step.drop_last() =~= prefix);
            assert(step.last() == records@[i as int]);
        }
        let n: u64 = (i as u64) + 1;
        match &records[i] {
            Ok(row) => {
                if xcol < row.len() && ycol < row.len() {
                    let x_ok = cell_is_numeric(&row[xcol]);
                    let y_ok = cell_is_numeric(&row[ycol]);
                    assert(row.deep_view()[xcol as int] == row@[xcol as int]@);
                    assert(row.deep_view()[ycol as int] == row@[ycol as int]@);
                    if x_ok && y_ok {
                        let ghost old_data = data.deep_view();
                        let p = (row[xcol].clone(), row[ycol].clone());
                        data.push(p);
                        proof {
                            assert(data.deep_view() =~= old_data.push(
                                (row@[xcol as int]@, row@[ycol as int]@),
                            ));
                            assert(old_data.push((row@[xcol as int]@, row@[ycol as int]@))
                                =~= old_data + seq![(row@[xcol as int]@, row@[ycol as int]@)]);
                        }
                    } else if x_ok && !y_ok {
                        let ghost old_log = error_log.deep_view();
                        let w = build_warn_bad_y(ycol as u64, n, filepath);
                        error_log.push(w);
                        proof {
                            assert(error_log.deep_view() =~= old_log + seq![
                                warn_bad_y(ycol as nat, (i + 1) as nat, filepath@),
                            ]);
                        }
                    } else if !x_ok && y_ok {
                        let ghost old_log = error_log.deep_view();
                        let w = build_warn_bad_x(xcol as u64, n, filepath);
                        error_log.push(w);
                        proof {
                            assert(error_log.deep_view() =~= old_log + seq![
                                warn_bad_x(xcol as nat, (i + 1) as nat, filepath@),
                            ]);
                        }
                    } else {
                        let ghost old_log = error_log.deep_view();
                        let w = build_warn_bad_cols(xcol as u64, ycol as u64, n, filepath);
                        error_log.push(w);
                        proof {
                            assert(error_log.deep_view() =~= old_log + seq![
                                warn_bad_cols(xcol as nat, ycol as nat, (i + 1) as nat, filepath@),
                            ]);
                        }
                    }
                } else {
                    let ghost old_log = error_log.deep_view();
                    let w = build_warn_bad_cols(xcol as u64, ycol as u64, n, filepath);
                    error_log.push(w);
                    proof {
                        assert(error_log.deep_view() =~= old_log + seq![
                            warn_bad_cols(xcol as nat, ycol as nat, (i + 1) as nat, filepath@),
                        ]);
                    }
                }
            },
            Err(e) => {
                let ghost old_log = error_log.deep_view();
                let w = build_warn_bad_row(n, filepath, e.as_str());
                error_log.push(w);
                proof {
                    assert(error_log.deep_view() =~= old_log + seq![
                        warn_bad_row((i + 1) as nat, filepath@, records@[i as int]->Err_0@),
                    ]);
                }
            },
        }
        proof {
            assert(points_of(step, xcol as int, ycol as int) == points_of(
                prefix,
                xcol as int,
                ycol as int,
            ) + match row_fields(step.last()) {
                Some(fields) => match row_point(fields, xcol as int, ycol as int) {
                    Some(p) => seq![p],
                    None => Seq::empty(),
                },
                None => Seq::empty(),
            });
        }
        i = i + 1;
    }
    proof {
        assert(records@.take(records@.len() as int) =~= records@);
    }
    data
}

/// What reading the file's bytes produced, handed in by the caller:
/// either the bytes or a description of why they could not be read.
pub enum FileReadResult {
    Contents(Vec<u8>),
    Failed(String),
}

/// Error logged when the file's bytes could not be read.
pub open spec fn read_error_message(path: Seq<char>, e: Seq<char>) -> Seq<char> {
    "ERROR: could not read CSV file "@ + path + ": "@ + e
}

/// Builds `read_error_message`.
fn build_read_error(path: &str, e: &str) -> (m: String)
    ensures
        m@ == read_error_message(path@, e@),
{
    let mut m = String::from_str("ERROR: could not read CSV file ");
    m.append(path);
    m.append(": ");
    m.append(e);
    m
}

/// One ingested series: the points read from a file together with the
/// parameters that produced them.
pub struct CSVFile {
    pub filepath: String,
    /// The points, each the numeric texts of the two chosen columns.
    pub data: Vec<(String, String)>,
    pub delimiter: u8,
    pub comment_char: u8,
    pub xcol: usize,
    pub ycol: usize,
    pub skip_header: usize,
    pub skip_footer: usize,
}

impl CSVFile {
    /// Every stored point is a pair of numeric texts.
    pub open spec fn wf(&self) -> bool {
        forall|i: int|
            0 <= i < self.data.deep_view().len() ==> is_numeric_text(
                (#[trigger] self.data.deep_view()[i]).0,
            ) && is_numeric_text(self.data.deep_view()[i].1)
    }

    /// Ingests the read bytes under the given parameters. Success is
    /// exactly one or more points; a read failure or an empty yield
    /// gives `None`.
    pub fn new(
        filepath: String,
        contents: &FileReadResult,
        xcol: usize,
        ycol: usize,
        delimiter: u8,
        comment_char: u8,
        skip_header: usize,
        skip_footer: usize,
        error_log: &mut Vec<String>,
    ) -> (r: Option<CSVFile>)
        ensures
            match contents {
                FileReadResult::Failed(e) => r is None && final(error_log).deep_view() == old(
                    error_log,
                ).deep_view().push(read_error_message(filepath@, e@)),
                FileReadResult::Contents(bytes) => {
                    let pts = ingest_points(
                        bytes@,
                        delimiter,
                        comment_char,
                        xcol as int,
                        ycol as int,
                    );
                    &&& (r is Some <==> pts.len() > 0)
                    &&& (r matches Some(c) ==> c.data.deep_view() == pts && c.wf()
                        && c.filepath@ == filepath@ && c.delimiter == delimiter && c.comment_char
                        == comment_char && c.xcol == xcol && c.ycol == ycol && c.skip_header
                        == skip_header && c.skip_footer == skip_footer)
                    &&& exists|ws: Seq<Seq<char>>|
                        final(error_log).deep_view() == old(error_log).deep_view() + ws && ws.len()
                            == warn_count_opt(
                            csv_records(bytes@, delimiter, comment_char),
                            xcol as int,
                            ycol as int,
                        )
                },
            },
    {
        match contents {
            FileReadResult::Failed(e) => {
                let w = build_read_error(filepath.as_str(), e.as_str());
                let ghost old_log = error_log.deep_view();
                error_log.push(w);
                proof {
                    assert(error_log.deep_view() =~= old_log.push(
                        read_error_message(filepath@, e@),
                    ));
                }
                None
            },
            FileReadResult::Contents(bytes) => {
                let records = split_csv_records(bytes, delimiter, comment_char);
                let data = parse_rows(&records, xcol, ycol, filepath.as_str(), error_log);
                proof {
                    lemma_points_of_map(records@, xcol as int, ycol as int);
                    lemma_warnings_count(records@, xcol as int, ycol as int, filepath@);
                    lemma_points_numeric(
                        csv_records(bytes@, delimiter, comment_char),
                        xcol as int,
                        ycol as int,
                    );
                }
                if data.len() == 0 {
                    None
                } else {
                    Some(
                        CSVFile {
                            filepath,
                            data,
                            delimiter,
                            comment_char,
                            xcol,
                            ycol,
                            skip_header,
                            skip_footer,
                        },
                    )
                }
            },
        }
    }
}

impl Default for CSVFile {
    /// An empty series with the default parameters: comma delimiter,
    /// `#` comments, columns 1 and 2, nothing skipped.
    fn default() -> (r: Self)
        ensures
            r.filepath@.len() == 0,
            r.data@.len() == 0,
            r.delimiter == 44u8,
            r.comment_char == 35u8,
            r.xcol == 1usize,
            r.ycol == 2usize,
            r.skip_header == 0usize,
            r.skip_footer == 0usize,
            r.wf(),
    {
        CSVFile {
            filepath: String::new(),
            data: Vec::new(),
            delimiter: 44,
            comment_char: 35,
            xcol: 1,
            ycol: 2,
            skip_header: 0,
            skip_footer: 0,
        }
    }
}

/// A chunk placed between two others is contained in the whole.
pub proof fn lemma_concat_contains(a: Seq<char>, b: Seq<char>, c: Seq<char>, w: Seq<char>)
    requires
        w == a + b + c,
    ensures
        crate::text::contains_seq(w, b),
{
    assert(w.subrange(a.len() as int, (a.len() + b.len()) as int) =~= b);
    assert(crate::text::occurs_at(w, b, a.len() as int));
}

/// When every record yields a point, there are exactly as many points
/// as records.
pub proof fn lemma_all_yield_len(recs: Seq<Result<Vec<String>, String>>, xcol: int, ycol: int)
    requires
        forall|i: int|
            0 <= i < recs.len() ==> (row_fields(#[trigger] recs[i]) matches Some(f) && row_point(
                f,
                xcol,
                ycol,
            ) is Some),
    ensures
        points_of(recs, xcol, ycol).len() == recs.len(),
    decreases recs.len(),
{
    if recs.len() > 0 {
        assert(forall|i: int|
            0 <= i < recs.drop_last().len() ==> recs.drop_last()[i] == recs[i]);
        lemma_all_yield_len(recs.drop_last(), xcol, ycol);
        assert(recs.last() == recs[recs.len() - 1]);
    }
}

/// Ingestion tolerance: when exactly one record yields no point, the
/// series holds the points of all other records in order, and exactly
/// one warning is logged, which names that record's 1-based row number.
pub proof fn lemma_ingestion_tolerance(
    recs: Seq<Result<Vec<String>, String>>,
    k: int,
    xcol: int,
    ycol: int,
    path: Seq<char>,
)
    requires
        0 <= k < recs.len(),
        xcol >= 0,
        ycol >= 0,
        forall|i: int|
            0 <= i < recs.len() && i != k ==> (row_fields(#[trigger] recs[i]) matches Some(f)
                && row_point(f, xcol, ycol) is Some),
        !(row_fields(recs[k]) matches Some(f) && row_point(f, xcol, ycol) is Some),
    ensures
        points_of(recs, xcol, ycol) == points_of(recs.remove(k), xcol, ycol),
        points_of(recs, xcol, ycol).len() == recs.len() - 1,
        warnings_of(recs, xcol, ycol, path).len() == 1,
        row_warning(recs[k], (k + 1) as nat, xcol, ycol, path) matches Some(w) && warnings_of(
            recs,
            xcol,
            ycol,
            path,
        )[0] == w && crate::text::contains_seq(w, dec_digits((k + 1) as nat)),
    decreases recs.len(),
{
    let n = recs.len();
    if k == n - 1 {
        assert(recs.remove(k) =~= recs.drop_last());
        lemma_all_yield_len(recs.drop_last(), xcol, ycol);
        assert(forall|i: int|
            0 <= i < recs.drop_last().len() ==> (row_fields(#[trigger] recs.drop_last()[i])
                matches Some(f) && row_point(f, xcol, ycol) is Some));
        lemma_no_warnings_when_all_yield(recs.drop_last(), xcol, ycol, path);
        assert(points_of(recs, xcol, ycol) =~= points_of(recs.drop_last(), xcol, ycol));
        assert(recs.last() == recs[k]);
        assert(row_warning(recs[k], n as nat, xcol, ycol, path) is Some);
        assert(warnings_of(recs, xcol, ycol, path) =~= seq![
            row_warning(recs[k], n as nat, xcol, ycol, path).unwrap(),
        ]);
        lemma_row_warning_names_row(recs[k], n as nat, xcol, ycol, path);
    } else {
        assert(recs.drop_last()[k] == recs[k]);
        assert(forall|i: int|
            0 <= i < recs.drop_last().len() && i != k ==> recs.drop_last()[i] == recs[i]);
        lemma_ingestion_tolerance(recs.drop_last(), k, xcol, ycol, path);
        assert(recs.last() == recs[n - 1]);
        assert(row_warning(recs.last(), n as nat, xcol, ycol, path) is None);
        assert(warnings_of(recs, xcol, ycol, path) =~= warnings_of(
            recs.drop_last(),
            xcol,
            ycol,
            path,
        ));
        assert(recs.remove(k).drop_last() =~= recs.drop_last().remove(k));
        assert(recs.remove(k).last() == recs.last());
        assert(points_of(recs.remove(k), xcol, ycol) == points_of(
            recs.drop_last().remove(k),
            xcol,
            ycol,
        ) + match row_fields(recs.last()) {
            Some(fields) => match row_point(fields, xcol, ycol) {
                Some(p) => seq![p],
                None => Seq::empty(),
            },
            None => Seq::empty(),
        });
    }
}

/// Records that all yield points log nothing.
pub proof fn lemma_no_warnings_when_all_yield(
    recs: Seq<Result<Vec<String>, String>>,
    xcol: int,
    ycol: int,
    path: Seq<char>,
)
    requires
        forall|i: int|
            0 <= i < recs.len() ==> (row_fields(#[trigger] recs[i]) matches Some(f) && row_point(
                f,
                xcol,
                ycol,
            ) is Some),
    ensures
        warnings_of(recs, xcol, ycol, path).len() == 0,
    decreases recs.len(),
{
    if recs.len() > 0 {
        assert(forall|i: int|
            0 <= i < recs.drop_last().len() ==> recs.drop_last()[i] == recs[i]);
        lemma_no_warnings_when_all_yield(recs.drop_last(), xcol, ycol, path);
        assert(recs.last() == recs[recs.len() - 1]);
        assert(row_warning(recs.last(), recs.len(), xcol, ycol, path) is None);
        assert(warnings_of(recs, xcol, ycol, path) =~= warnings_of(
            recs.drop_last(),
            xcol,
            ycol,
            path,
        ));
    }
}

/// Every warning text holds the decimal of its 1-based row number.
pub proof fn lemma_row_warning_names_row(
    rec: Result<Vec<String>, String>,
    n: nat,
    xcol: int,
    ycol: int,
    path: Seq<char>,
)
    requires
        xcol >= 0,
        ycol >= 0,
        row_warning(rec, n, xcol, ycol, path) is Some,
    ensures
        crate::text::contains_seq(row_warning(rec, n, xcol, ycol, path).unwrap(), dec_digits(n)),
{
    let w = row_warning(rec, n, xcol, ycol, path).unwrap();
    match rec {
        Err(e) => {
            let a = "WARNING: could not parse row "@;
            let c = " of file "@ + path + ": "@ + e@;
            assert(w =~= a + dec_digits(n) + c);
            lemma_concat_contains(a, dec_digits(n), c, a + dec_digits(n) + c);
        },
        Ok(row) => {
            let fields = row.deep_view();
            if 0 <= xcol < fields.len() && 0 <= ycol < fields.len() && is_numeric_text(
                fields[xcol],
            ) && !is_numeric_text(fields[ycol]) {
                let a = "WARNING: y-column "@ + dec_digits(ycol as nat)
                    + " could not be parsed in entry "@;
                let c = " for file "@ + path + ": not numeric text"@;
                assert(w =~= a + dec_digits(n) + c);
                lemma_concat_contains(a, dec_digits(n), c, a + dec_digits(n) + c);
            } else if 0 <= xcol < fields.len() && 0 <= ycol < fields.len() && !is_numeric_text(
                fields[xcol],
            ) && is_numeric_text(fields[ycol]) {
                let a = "WARNING: x-column "@ + dec_digits(xcol as nat)
                    + " could not be parsed in entry "@;
                let c = " for file "@ + path + ": not numeric text"@;
                assert(w =~= a + dec_digits(n) + c);
                lemma_concat_contains(a, dec_digits(n), c, a + dec_digits(n) + c);
            } else {
                let a = "WARNING: could not parse columns "@ + dec_digits(xcol as nat) + ", "@
                    + dec_digits(ycol as nat) + " in entry "@;
                let c = " for file "@ + path;
                assert(w =~= a + dec_digits(n) + c);
                lemma_concat_contains(a, dec_digits(n), c, a + dec_digits(n) + c);
            }
        },
    }
}

/// Zero yield: when no record yields a point, ingestion yields an empty
/// series, so the ingesting click lands in the needs-configuration
/// state rather than a plotted one.
pub proof fn lemma_zero_yield(recs: Seq<Option<Seq<Seq<char>>>>, xcol: int, ycol: int)
    requires
        forall|i: int|
            0 <= i < recs.len() ==> !(#[trigger] recs[i] matches Some(f) && row_point(
                f,
                xcol,
                ycol,
            ) is Some),
    ensures
        points_of_opt(recs, xcol, ycol).len() == 0,
    decreases recs.len(),
{
    if recs.len() > 0 {
        assert(forall|i: int|
            0 <= i < recs.drop_last().len() ==> recs.drop_last()[i] == recs[i]);
        lemma_zero_yield(recs.drop_last(), xcol, ycol);
        assert(recs.last() == recs[recs.len() - 1]);
    }
}

impl CSVFile {
    /// The ingestion parameters of this series as a paste template: the
    /// parameters are copied, the path and the points are left at their
    /// defaults.
    pub fn options_template(&self) -> (t: CSVFile)
        ensures
            t.delimiter == self.delimiter,
            t.comment_char == self.comment_char,
            t.xcol == self.xcol,
            t.ycol == self.ycol,
            t.skip_header == self.skip_header,
            t.skip_footer == self.skip_footer,
            t.filepath@.len() == 0,
            t.data@.len() == 0,
            t.wf(),
    {
        let mut t = CSVFile::default();
        t.delimiter = self.delimiter;
        t.comment_char = self.comment_char;
        t.xcol = self.xcol;
        t.ycol = self.ycol;
        t.skip_header = self.skip_header;
        t.skip_footer = self.skip_footer;
        t
    }

    /// Pastes the template's ingestion parameters onto this series; the
    /// path and the points stay.
    pub fn apply_options(&mut self, t: &CSVFile)
        ensures
            final(self).delimiter == t.delimiter,
            final(self).comment_char == t.comment_char,
            final(self).xcol == t.xcol,
            final(self).ycol == t.ycol,
            final(self).skip_header == t.skip_header,
            final(self).skip_footer == t.skip_footer,
            final(self).filepath == old(self).filepath,
            final(self).data == old(self).data,
    {
        self.delimiter = t.delimiter;
        self.comment_char = t.comment_char;
        self.xcol = t.xcol;
        self.ycol = t.ycol;
        self.skip_header = t.skip_header;
        self.skip_footer = t.skip_footer;
    }
}

} // verus!
