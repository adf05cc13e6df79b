use plotme::csvfile::{CSVFile, FileReadResult};
use plotme::file_entry::{get_file_entries, FileEntryState};
use plotme::text::u64_to_string;
use plotme::FloatInput;

fn contents(bytes: &[u8]) -> FileReadResult {
    FileReadResult::Contents(bytes.to_vec())
}

fn ingest(
    bytes: &[u8],
    xcol: usize,
    ycol: usize,
    delimiter: u8,
    comment_char: u8,
    log: &mut Vec<String>,
) -> Option<CSVFile> {
    CSVFile::new(
        String::from("data.csv"),
        &contents(bytes),
        xcol,
        ycol,
        delimiter,
        comment_char,
        0,
        0,
        log,
    )
}

fn point_as_floats(p: &(String, String)) -> (f64, f64) {
    (p.0.parse().unwrap(), p.1.parse().unwrap())
}

#[test]
fn example_scenario_comment_and_bad_row() {
    let mut log = Vec::new();
    let csv = ingest(b"1,2\n#comment\n3,x\n4,5\n", 0, 1, b',', b'#', &mut log).unwrap();
    assert_eq!(csv.data.len(), 2);
    assert_eq!(point_as_floats(&csv.data[0]), (1.0, 2.0));
    assert_eq!(point_as_floats(&csv.data[1]), (4.0, 5.0));
    assert_eq!(log.len(), 1);
    assert_eq!(
        log[0],
        "WARNING: y-column 1 could not be parsed in entry 2 for file data.csv: not numeric text"
    );
}

#[test]
fn single_bad_row_is_skipped_and_named() {
    let mut log = Vec::new();
    let csv = ingest(b"1,10\n2,20\nbad,30\n4,40\n", 0, 1, b',', b'#', &mut log).unwrap();
    assert_eq!(csv.data.len(), 3);
    assert_eq!(point_as_floats(&csv.data[2]), (4.0, 40.0));
    assert_eq!(log.len(), 1);
    assert!(log[0].contains("x-column 0"));
    assert!(log[0].contains("entry 3"));
}

#[test]
fn row_too_short_warns_about_both_columns() {
    let mut log = Vec::new();
    let csv = ingest(b"1,2,3\n7\n4,5,6\n", 0, 2, b',', b'#', &mut log);
    // the short row is rejected by the reader (unequal field count),
    // so it yields a reader warning naming its 1-based row number
    assert!(csv.is_some());
    assert_eq!(log.len(), 1);
    assert!(log[0].contains("row 2") || log[0].contains("entry 2"));
}

#[test]
fn zero_yield_returns_none() {
    let mut log = Vec::new();
    let csv = ingest(b"a,b\nc,d\n", 0, 1, b',', b'#', &mut log);
    assert!(csv.is_none());
    assert_eq!(log.len(), 2);
}

#[test]
fn unreadable_file_returns_none_and_logs() {
    let mut log = Vec::new();
    let csv = CSVFile::new(
        String::from("gone.csv"),
        &FileReadResult::Failed(String::from("no such file")),
        0,
        1,
        b',',
        b'#',
        0,
        0,
        &mut log,
    );
    assert!(csv.is_none());
    assert_eq!(
        log[0],
        "ERROR: could not read CSV file gone.csv: no such file"
    );
}

#[test]
fn semicolon_delimiter_is_honoured() {
    let mut log = Vec::new();
    let csv = ingest(b"1;2\n3;4\n", 0, 1, b';', b'#', &mut log).unwrap();
    assert_eq!(csv.data.len(), 2);
    // the same bytes under a comma delimiter yield nothing
    let mut log2 = Vec::new();
    assert!(ingest(b"1;2\n3;4\n", 0, 1, b',', b'#', &mut log2).is_none());
}

#[test]
fn quoted_fields_are_split_by_the_reader() {
    // the quoted first field holds a comma, so it is one field and is
    // not numeric; the second row is plain
    let mut log = Vec::new();
    let csv = ingest(b"\"1,2\",9\n3,4\n", 0, 1, b',', b'#', &mut log).unwrap();
    assert_eq!(csv.data.len(), 1);
    assert_eq!(point_as_floats(&csv.data[0]), (3.0, 4.0));
    assert_eq!(log.len(), 1);
}

#[test]
fn scientific_notation_rows_are_numeric() {
    let mut log = Vec::new();
    let csv = ingest(b"1e3,2.5E-1\n.5,5.\n", 0, 1, b',', b'#', &mut log).unwrap();
    assert_eq!(csv.data.len(), 2);
    assert_eq!(point_as_floats(&csv.data[0]), (1000.0, 0.25));
    assert_eq!(point_as_floats(&csv.data[1]), (0.5, 5.0));
    assert!(log.is_empty());
}

#[test]
fn numeric_text_matches_standard_parsing() {
    let samples = [
        "1", "1.5", ".5", "5.", "1e3", "1E-3", "+inf", "-Infinity", "nan", "NaN", "", ".", "e3",
        "1e", "1e+", "--1", "1.2.3", " 1", "1 ", "0x10", "1_000", "infx", "+", "-", "3.14",
        "2.5e10", "1.e2", ".e2",
    ];
    for s in samples {
        let field = FloatInput {
            input: String::from(s),
        };
        assert_eq!(
            field.is_numeric(),
            s.parse::<f64>().is_ok(),
            "disagreement on {:?}",
            s
        );
    }
}

#[test]
fn decimal_rendering() {
    assert_eq!(u64_to_string(0), "0");
    assert_eq!(u64_to_string(10), "10");
    assert_eq!(u64_to_string(18446744073709551615), "18446744073709551615");
}

#[test]
fn fresh_entries_have_defaults_and_running_ids() {
    let mut counter: usize = 5;
    let entries = get_file_entries(
        vec![
            (String::from("a.csv"), String::from("1,2")),
            (String::from("b.csv"), String::from("")),
        ],
        &mut counter,
    );
    assert_eq!(counter, 7);
    assert_eq!(entries.len(), 2);
    assert_eq!(entries[0].id, 5);
    assert_eq!(entries[1].id, 6);
    assert_eq!(entries[0].filename, "a.csv");
    assert_eq!(entries[0].preview, "1,2");
    assert_eq!(entries[0].state, FileEntryState::Idle);
    assert_eq!(entries[0].scale.input, "1.0");
    assert_eq!(entries[0].offset.input, "0.0");
    assert_eq!(entries[0].xoffset.input, "0.0");
    assert!(entries[0].color.is_unassigned());
    assert_eq!(entries[0].data_file.delimiter, b',');
    assert_eq!(entries[0].data_file.comment_char, b'#');
    assert_eq!(entries[0].data_file.xcol, 1);
    assert_eq!(entries[0].data_file.ycol, 2);
    assert!(entries[0].data_file.data.is_empty());
}
